use velo::document::SSHConfig;
use velo::edit::{get_connections, AddError};
use velo::numfmt::parse_port;

fn names(doc: &SSHConfig) -> Vec<String> {
    doc.list_connections()
}

#[test]
fn round_trip_with_trailing_newline() {
    let text = "Host a\n    HostName h\n\n# comment\nHost b\n";
    let doc = SSHConfig::from_text(text);
    assert_eq!(doc.to_text(), text);
}

#[test]
fn round_trip_normalizes_missing_trailing_newline() {
    let doc = SSHConfig::from_text("Host a\n    HostName h");
    assert_eq!(doc.to_text(), "Host a\n    HostName h\n");
}

#[test]
fn round_trip_empty() {
    let doc = SSHConfig::from_text("");
    assert_eq!(doc.to_text(), "");
}

#[test]
fn add_to_empty_file_produces_exact_template() {
    let mut doc = SSHConfig::from_text("");
    let r = doc.add_connection("home", "10.0.0.5", "alice", 22);
    assert!(r.is_ok());
    assert_eq!(
        doc.to_text(),
        "\nHost home\n    HostName 10.0.0.5\n    User alice\n    Port 22\n"
    );
    assert_eq!(names(&doc), vec!["home".to_string()]);
}

#[test]
fn add_duplicate_is_rejected_and_leaves_one_block() {
    let mut doc = SSHConfig::from_text("");
    assert!(doc.add_connection("x", "1.2.3.4", "u", 22).is_ok());
    let before = doc.to_text();
    let r = doc.add_connection("x", "5.6.7.8", "v", 2222);
    assert_eq!(r, Err(AddError::DuplicateName));
    assert_eq!(doc.to_text(), before);
    assert_eq!(names(&doc), vec!["x".to_string()]);
}

#[test]
fn add_then_remove_restores_content_plus_separator() {
    let initial = "Host a\n    HostName h\n";
    let mut doc = SSHConfig::from_text(initial);
    assert!(doc.add_connection("b", "2.2.2.2", "u", 22).is_ok());
    assert!(doc.remove_connection("b"));
    assert_eq!(doc.to_text(), "Host a\n    HostName h\n\n");
}

#[test]
fn remove_first_of_two_blocks_keeps_other_byte_identical() {
    let text = "Host alpha\n    HostName 1.1.1.1\n    User a\nHost beta\n    HostName 2.2.2.2\n    User b\n";
    let mut doc = SSHConfig::from_text(text);
    assert!(doc.remove_connection("alpha"));
    assert_eq!(doc.to_text(), "Host beta\n    HostName 2.2.2.2\n    User b\n");
}

#[test]
fn remove_missing_name_is_a_no_op() {
    let text = "Host a\n    HostName h\n";
    let mut doc = SSHConfig::from_text(text);
    assert!(!doc.remove_connection("zzz"));
    assert_eq!(doc.to_text(), text);
}

#[test]
fn remove_last_block_runs_to_end_of_file() {
    let text = "Host a\n    HostName 1\nHost b\n    HostName 2\n    Port 2022\n";
    let mut doc = SSHConfig::from_text(text);
    assert!(doc.remove_connection("b"));
    assert_eq!(doc.to_text(), "Host a\n    HostName 1\n");
}

#[test]
fn list_reads_names_in_order_with_duplicates() {
    let doc = SSHConfig::from_text("Host a\nHost b\n# Host c\n    HostName x\nHost a\n");
    assert_eq!(
        names(&doc),
        vec!["a".to_string(), "b".to_string(), "a".to_string()]
    );
}

#[test]
fn list_trims_whitespace_around_names() {
    let doc = SSHConfig::from_text("Host  spaced  \nHost\ttabbed\n");
    assert_eq!(names(&doc), vec!["spaced".to_string(), "tabbed".to_string()]);
}

#[test]
fn find_block_reports_first_match() {
    let doc = SSHConfig::from_text("# intro\nHost a\nHost b\nHost a\n");
    assert_eq!(doc.find_block("a"), Some(1));
    assert_eq!(doc.find_block("b"), Some(2));
    assert_eq!(doc.find_block("c"), None);
}

#[test]
fn get_connections_reads_raw_text() {
    let got = get_connections("Host one\nHost two\n");
    assert_eq!(got, vec!["one".to_string(), "two".to_string()]);
}

#[test]
fn upsert_identity_rewrites_existing_directive_in_place() {
    let text = "Host x\n    HostName h\n    IdentityFile /old\n    User u\n";
    let mut doc = SSHConfig::from_text(text);
    doc.upsert_identity("x", "/new");
    assert_eq!(
        doc.to_text(),
        "Host x\n    HostName h\n    IdentityFile /new\n    User u\n    AddKeysToAgent yes\n"
    );
}

#[test]
fn upsert_identity_is_idempotent() {
    let mut doc = SSHConfig::from_text("Host x\n    HostName h\n");
    doc.upsert_identity("x", "/k");
    let once = doc.to_text();
    doc.upsert_identity("x", "/k");
    assert_eq!(doc.to_text(), once);
}

#[test]
fn upsert_identity_normalizes_agent_line_and_drops_duplicates() {
    let text = "Host x\n    AddKeysToAgent no\n    IdentityFile /a\n    IdentityFile /b\n    AddKeysToAgent ask\n";
    let mut doc = SSHConfig::from_text(text);
    doc.upsert_identity("x", "/k");
    assert_eq!(
        doc.to_text(),
        "Host x\n    AddKeysToAgent yes\n    IdentityFile /k\n"
    );
}

#[test]
fn upsert_identity_stops_at_blank_line_boundary() {
    let text = "Host x\n    HostName h\n\n    IdentityFile /outside\n";
    let mut doc = SSHConfig::from_text(text);
    doc.upsert_identity("x", "/k");
    assert_eq!(
        doc.to_text(),
        "Host x\n    HostName h\n    IdentityFile /k\n    AddKeysToAgent yes\n\n    IdentityFile /outside\n"
    );
}

#[test]
fn upsert_identity_appends_minimal_block_for_unknown_name() {
    let mut doc = SSHConfig::from_text("Host a\n    HostName h\n");
    doc.upsert_identity("fresh", "/k");
    assert_eq!(
        doc.to_text(),
        "Host a\n    HostName h\n\nHost fresh\n    IdentityFile /k\n    AddKeysToAgent yes\n"
    );
    doc.upsert_identity("fresh", "/k");
    assert_eq!(
        doc.to_text(),
        "Host a\n    HostName h\n\nHost fresh\n    IdentityFile /k\n    AddKeysToAgent yes\n"
    );
}

#[test]
fn add_renders_every_port_exactly() {
    let mut doc = SSHConfig::from_text("");
    assert!(doc.add_connection("a", "h", "u", 0).is_ok());
    assert!(doc.add_connection("b", "h", "u", 7).is_ok());
    assert!(doc.add_connection("c", "h", "u", 65535).is_ok());
    let text = doc.to_text();
    assert!(text.contains("\n    Port 0\n"));
    assert!(text.contains("\n    Port 7\n"));
    assert!(text.contains("\n    Port 65535\n"));
}

#[test]
fn parse_port_accepts_digits_in_range() {
    assert_eq!(parse_port("22"), Some(22));
    assert_eq!(parse_port("0"), Some(0));
    assert_eq!(parse_port("65535"), Some(65535));
    assert_eq!(parse_port("022"), Some(22));
}

#[test]
fn parse_port_rejects_bad_input() {
    assert_eq!(parse_port(""), None);
    assert_eq!(parse_port("2a"), None);
    assert_eq!(parse_port("-1"), None);
    assert_eq!(parse_port("65536"), None);
    assert_eq!(parse_port("99999999999999999999"), None);
}

#[test]
fn records_project_directive_values() {
    let doc = SSHConfig::from_text(
        "Host a\n    HostName 1.2.3.4\n    User u\nHost b\n    Port 2222\n",
    );
    let rs = doc.list_records();
    assert_eq!(rs.len(), 2);
    assert_eq!(rs[0].name, "a");
    assert_eq!(rs[0].host.as_deref(), Some("1.2.3.4"));
    assert_eq!(rs[0].user.as_deref(), Some("u"));
    assert_eq!(rs[0].port, None);
    assert_eq!(rs[1].name, "b");
    assert_eq!(rs[1].host, None);
    assert_eq!(rs[1].user, None);
    assert_eq!(rs[1].port.as_deref(), Some("2222"));
}

#[test]
fn records_use_first_directive_and_exact_keywords() {
    let doc = SSHConfig::from_text(
        "Host a\n    UserKnownHostsFile /dev/null\n    HostName first\n    HostName second\n",
    );
    let rs = doc.list_records();
    assert_eq!(rs.len(), 1);
    assert_eq!(rs[0].host.as_deref(), Some("first"));
    assert_eq!(rs[0].user, None);
}

#[test]
fn find_connection_projects_the_named_block() {
    let doc = SSHConfig::from_text("Host a\n    Port 22\nHost b\n    Port 23\n");
    let c = doc.find_connection("b").unwrap();
    assert_eq!(c.name, "b");
    assert_eq!(c.port.as_deref(), Some("23"));
    assert!(doc.find_connection("zzz").is_none());
}

#[test]
fn remove_with_duplicate_names_takes_the_first_block() {
    let mut doc = SSHConfig::from_text("Host d\n    Port 1\nHost d\n    Port 2\n");
    assert!(doc.remove_connection("d"));
    assert_eq!(doc.to_text(), "Host d\n    Port 2\n");
}

#[test]
fn upsert_identity_with_duplicate_names_edits_the_first_block() {
    let mut doc = SSHConfig::from_text("Host d\n    Port 1\nHost d\n    Port 2\n");
    doc.upsert_identity("d", "/k");
    assert_eq!(
        doc.to_text(),
        "Host d\n    Port 1\n    IdentityFile /k\n    AddKeysToAgent yes\nHost d\n    Port 2\n"
    );
}
