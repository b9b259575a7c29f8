use velo::completion::{split_words, VeloCompleter};
use velo::document::SSHConfig;
use velo::form::AddConnectionForm;
use velo::shell::{escape_single_quotes, remote_key_probe_command};

const START: &str = "# --- velo managed keys ---";
const END: &str = "# --- end velo managed keys ---";

#[test]
fn group_upsert_creates_markers_and_section() {
    let mut doc = SSHConfig::from_text("");
    doc.upsert_group_entry("470", "CNIT 470", "/k1");
    let expected = format!(
        "{}\n# Group: CNIT 470\nHost 470-*\n    IdentityFile /k1\n    AddKeysToAgent yes\n\n{}\n",
        START, END
    );
    assert_eq!(doc.to_text(), expected);
}

#[test]
fn group_upsert_merges_second_entry_under_one_header() {
    let mut doc = SSHConfig::from_text("");
    doc.upsert_group_entry("470", "CNIT 470", "/k1");
    doc.upsert_group_entry("470", "CNIT 470", "/k2");
    let text = doc.to_text();
    let expected = format!(
        "{}\n# Group: CNIT 470\nHost 470-*\n    IdentityFile /k1\n    AddKeysToAgent yes\nHost 470-*\n    IdentityFile /k2\n    AddKeysToAgent yes\n\n{}\n",
        START, END
    );
    assert_eq!(text, expected);
    assert_eq!(text.matches("# Group: CNIT 470").count(), 1);
    assert_eq!(text.matches("Host 470-*").count(), 2);
}

#[test]
fn group_upsert_keeps_user_content_outside_the_region() {
    let prefix = "Host mine\n    HostName 9.9.9.9\n";
    let mut doc = SSHConfig::from_text(prefix);
    doc.upsert_group_entry("255", "CNIT 255", "/id");
    let text = doc.to_text();
    assert!(text.starts_with(prefix));
    assert!(text.contains("# Group: CNIT 255"));
    doc.upsert_group_entry("255", "CNIT 255", "/id2");
    let text2 = doc.to_text();
    assert!(text2.starts_with(prefix));
    assert_eq!(text2.matches("# Group: CNIT 255").count(), 1);
}

#[test]
fn group_upsert_separates_distinct_groups_in_first_seen_order() {
    let mut doc = SSHConfig::from_text("");
    doc.upsert_group_entry("470", "CNIT 470", "/a");
    doc.upsert_group_entry("255", "CNIT 255", "/b");
    doc.upsert_group_entry("470", "CNIT 470", "/c");
    let text = doc.to_text();
    let p470 = text.find("# Group: CNIT 470").unwrap();
    let p255 = text.find("# Group: CNIT 255").unwrap();
    assert!(p470 < p255);
    assert_eq!(text.matches("# Group: ").count(), 2);
    assert_eq!(text.matches("    IdentityFile /c").count(), 1);
}

#[test]
fn group_entries_are_visible_to_list_as_wildcard_hosts() {
    let mut doc = SSHConfig::from_text("");
    doc.upsert_group_entry("470", "CNIT 470", "/k");
    let names = doc.list_connections();
    assert_eq!(names, vec!["470-*".to_string()]);
}

#[test]
fn escape_single_quotes_wraps_each_quote() {
    assert_eq!(escape_single_quotes("plain"), "plain");
    assert_eq!(escape_single_quotes("it's"), "it'\\''s");
    assert_eq!(escape_single_quotes("''"), "'\\'''\\''");
    assert_eq!(escape_single_quotes(""), "");
}

#[test]
fn remote_probe_command_quotes_the_key() {
    assert_eq!(
        remote_key_probe_command("ssh-ed25519 AAAA user@host"),
        "grep -qF 'ssh-ed25519 AAAA user@host' ~/.ssh/authorized_keys"
    );
    assert_eq!(
        remote_key_probe_command("o'key"),
        "grep -qF 'o'\\''key' ~/.ssh/authorized_keys"
    );
}

#[test]
fn split_words_handles_spacing() {
    assert_eq!(split_words(""), Vec::<String>::new());
    assert_eq!(split_words("   "), Vec::<String>::new());
    assert_eq!(
        split_words("  ssh   home "),
        vec!["ssh".to_string(), "home".to_string()]
    );
}

#[test]
fn completion_of_first_word_uses_commands() {
    let c = VeloCompleter::new();
    let (start, found) = c.complete_line("ad", 2, &Vec::new());
    assert_eq!(start, 0);
    assert_eq!(found, vec!["add".to_string(), "add-key".to_string()]);
}

#[test]
fn completion_after_tmux_uses_subcommands() {
    let c = VeloCompleter::new();
    let (start, found) = c.complete_line("tmux l", 6, &Vec::new());
    assert_eq!(start, 5);
    assert_eq!(found, vec!["list".to_string(), "ls".to_string()]);
}

#[test]
fn completion_after_ssh_uses_connections() {
    let c = VeloCompleter::new();
    let connections = vec!["home".to_string(), "hub".to_string(), "prod".to_string()];
    let (start, found) = c.complete_line("ssh h", 5, &connections);
    assert_eq!(start, 4);
    assert_eq!(found, vec!["home".to_string(), "hub".to_string()]);
}

#[test]
fn completion_elsewhere_is_empty() {
    let c = VeloCompleter::new();
    let (start, found) = c.complete_line("add x y", 7, &Vec::new());
    assert_eq!(start, 6);
    assert!(found.is_empty());
    let (start0, found0) = c.complete_line("", 0, &Vec::new());
    assert_eq!(start0, 0);
    assert!(found0.is_empty());
}

#[test]
fn form_edits_at_the_cursor() {
    let mut form = AddConnectionForm::new();
    form.enter_char('a');
    form.enter_char('b');
    form.move_cursor_left();
    form.enter_char('X');
    assert_eq!(form.field(0).as_str(), "aXb");
    assert_eq!(form.cursor_at(0), 2);
    form.delete_char();
    assert_eq!(form.field(0).as_str(), "ab");
    assert_eq!(form.cursor_at(0), 1);
}

#[test]
fn form_delete_at_start_is_a_no_op() {
    let mut form = AddConnectionForm::new();
    form.enter_char('a');
    form.move_cursor_left();
    form.delete_char();
    assert_eq!(form.field(0).as_str(), "a");
    assert_eq!(form.cursor_at(0), 0);
}

#[test]
fn form_focus_wraps_both_ways() {
    let mut form = AddConnectionForm::new();
    assert_eq!(form.focused(), 0);
    form.next_field();
    assert_eq!(form.focused(), 1);
    form.next_field();
    form.next_field();
    assert_eq!(form.focused(), 0);
    form.prev_field();
    assert_eq!(form.focused(), 2);
}

#[test]
fn form_keeps_fields_independent() {
    let mut form = AddConnectionForm::new();
    form.enter_char('n');
    form.next_field();
    form.enter_char('h');
    form.next_field();
    form.enter_char('u');
    assert_eq!(form.field(0).as_str(), "n");
    assert_eq!(form.field(1).as_str(), "h");
    assert_eq!(form.field(2).as_str(), "u");
}

#[test]
fn form_cursor_stops_at_field_end() {
    let mut form = AddConnectionForm::new();
    form.enter_char('a');
    form.move_cursor_right();
    assert_eq!(form.cursor_at(0), 1);
}

#[test]
fn group_upsert_rewrites_from_a_lone_start_marker() {
    let text = format!("{}\nHost stray\n", START);
    let mut doc = SSHConfig::from_text(&text);
    doc.upsert_group_entry("9", "G", "/k");
    let expected = format!(
        "{}\n# Group: G\nHost 9-*\n    IdentityFile /k\n    AddKeysToAgent yes\n\n{}\n",
        START, END
    );
    assert_eq!(doc.to_text(), expected);
}
