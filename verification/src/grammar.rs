//! The line grammar of the configuration file: which lines declare a
//! `Host` block, which lines end one, and which directive lines the
//! identity upsert rewrites.

use vstd::prelude::*;
use vstd::string::*;
use crate::text::{
    end_trim, first_non_space, is_space, lemma_end_trim, lemma_first_non_space, skip_spaces,
    space_at, starts_with_at, str_starts_with_at, substr_copy, trim_end_pos,
};

verus! {

/// The characters of the keyword `Host`.
pub open spec fn host_kw() -> Seq<char> {
    seq!['H', 'o', 's', 't']
}

/// The characters of `Host` followed by one space.
pub open spec fn host_sp() -> Seq<char> {
    host_kw().push(' ')
}

/// The characters of the keyword `IdentityFile`.
pub open spec fn identity_kw() -> Seq<char> {
    seq!['I', 'd', 'e', 'n', 't', 'i', 't', 'y', 'F', 'i', 'l', 'e']
}

/// The characters of the keyword `AddKeysToAgent`.
pub open spec fn agent_kw() -> Seq<char> {
    seq!['A', 'd', 'd', 'K', 'e', 'y', 's', 'T', 'o', 'A', 'g', 'e', 'n', 't']
}

/// The four-space indentation this editor writes before directives.
pub open spec fn indent() -> Seq<char> {
    seq![' ', ' ', ' ', ' ']
}

/// The prefix `    HostName ` written before a host address.
pub open spec fn hostname_prefix() -> Seq<char> {
    indent() + seq!['H', 'o', 's', 't', 'N', 'a', 'm', 'e', ' ']
}

/// The prefix `    User ` written before a user name.
pub open spec fn user_prefix() -> Seq<char> {
    indent() + seq!['U', 's', 'e', 'r', ' ']
}

/// The prefix `    Port ` written before a port number.
pub open spec fn port_prefix() -> Seq<char> {
    indent() + seq!['P', 'o', 'r', 't', ' ']
}

/// The prefix `    IdentityFile ` written before a key path.
pub open spec fn identity_prefix() -> Seq<char> {
    indent() + identity_kw().push(' ')
}

/// The directive line `    IdentityFile <key>`.
#[verifier::opaque]
pub open spec fn identity_line(key: Seq<char>) -> Seq<char> {
    identity_prefix() + key
}

/// The directive line `    AddKeysToAgent yes`.
#[verifier::opaque]
pub open spec fn agent_yes_line() -> Seq<char> {
    indent() + agent_kw() + seq![' ', 'y', 'e', 's']
}

/// The declaration line `Host <name>`.
pub open spec fn host_line(name: Seq<char>) -> Seq<char> {
    host_sp() + name
}

/// The characters of the keyword `HostName`.
pub open spec fn hostname_kw() -> Seq<char> {
    seq!['H', 'o', 's', 't', 'N', 'a', 'm', 'e']
}

/// The characters of the keyword `User`.
pub open spec fn user_kw() -> Seq<char> {
    seq!['U', 's', 'e', 'r']
}

/// The characters of the keyword `Port`.
pub open spec fn port_kw() -> Seq<char> {
    seq!['P', 'o', 'r', 't']
}

/// A line consisting only of whitespace.
pub open spec fn is_blank(line: Seq<char>) -> bool {
    first_non_space(line, 0) == line.len()
}

/// The line, with leading whitespace skipped, continues with `p`.
pub open spec fn trimmed_starts_with(line: Seq<char>, p: Seq<char>) -> bool {
    starts_with_at(line, p, first_non_space(line, 0))
}

/// A line that opens a new `Host` block for the purpose of finding the
/// end of the previous block: its trimmed form starts with `Host `.
pub open spec fn starts_block(line: Seq<char>) -> bool {
    trimmed_starts_with(line, host_sp())
}

/// A line carrying an `IdentityFile` directive.
pub open spec fn is_identity_line(line: Seq<char>) -> bool {
    trimmed_starts_with(line, identity_kw())
}

/// A line carrying an `AddKeysToAgent` directive.
pub open spec fn is_agent_line(line: Seq<char>) -> bool {
    trimmed_starts_with(line, agent_kw())
}

/// The line is `Host`, then exactly `m` spaces or tabs, then `name`,
/// then trailing whitespace up to the end of the line.
pub open spec fn decl_split_at(line: Seq<char>, name: Seq<char>, m: int) -> bool {
    let k = host_kw().len() as int;
    &&& starts_with_at(line, host_kw(), 0)
    &&& 1 <= m
    &&& k + m + name.len() <= line.len()
    &&& forall|j: int| k <= j < k + m ==> is_space(#[trigger] line[j])
    &&& starts_with_at(line, name, k + m)
    &&& forall|j: int| k + m + name.len() <= j < line.len() ==> is_space(#[trigger] line[j])
}

/// The line declares a `Host` block whose name matches `name`: it reads
/// `Host`, at least one space or tab, `name`, and nothing but trailing
/// whitespace after it.
pub open spec fn is_decl_for(line: Seq<char>, name: Seq<char>) -> bool {
    exists|m: int| decl_split_at(line, name, m)
}

/// The line declares a `Host` block with some non-empty name token.
pub open spec fn is_decl(line: Seq<char>) -> bool {
    let k = host_kw().len() as int;
    &&& starts_with_at(line, host_kw(), 0)
    &&& k < line.len()
    &&& is_space(line[k])
    &&& first_non_space(line, k) < line.len()
}

/// The declared name of a declaration line: everything after the
/// whitespace that follows `Host`, with trailing whitespace removed.
pub open spec fn name_of(line: Seq<char>) -> Seq<char> {
    let k = host_kw().len() as int;
    line.subrange(first_non_space(line, k), end_trim(line, line.len() as int))
}

/// The trimmed line reads `<kw>`, then whitespace, then the value.
pub open spec fn directive_with(line: Seq<char>, kw: Seq<char>) -> bool {
    let f = first_non_space(line, 0);
    &&& starts_with_at(line, kw, f)
    &&& f + kw.len() < line.len()
    &&& is_space(line[f + kw.len()])
}

/// The value of a directive line: the remainder after the keyword,
/// trimmed on both sides.
pub open spec fn directive_value(line: Seq<char>, kw: Seq<char>) -> Seq<char> {
    let f = first_non_space(line, 0);
    let a = first_non_space(line, f + kw.len());
    let b = end_trim(line, line.len() as int);
    if a < b {
        line.subrange(a, b)
    } else {
        Seq::empty()
    }
}

/// A well-formed host name: non-empty and neither starting nor ending
/// in whitespace, so that it reads back as the same token.
pub open spec fn wf_name(name: Seq<char>) -> bool {
    &&& name.len() > 0
    &&& !is_space(name[0])
    &&& !is_space(name[name.len() - 1])
}

/// A declaration line matches its own declared name.
pub proof fn lemma_decl_matches_own_name(line: Seq<char>)
    requires
        is_decl(line),
    ensures
        is_decl_for(line, name_of(line)),
        wf_name(name_of(line)),
{
    let k = host_kw().len() as int;
    let f = first_non_space(line, k);
    let e = end_trim(line, line.len() as int);
    lemma_first_non_space(line, k);
    lemma_end_trim(line, line.len() as int);
    assert(f < line.len() && !is_space(line[f]));
    assert(f < e) by {
        if e <= f {
            assert(is_space(line[f]));
        }
    }
    let name = name_of(line);
    assert(name.len() == e - f);
    assert(!is_space(name[0]));
    assert(name[name.len() - 1] == line[e - 1]);
    assert(decl_split_at(line, name, f - k)) by {
        assert(forall|j: int| 0 <= j < name.len() ==> name[j] == #[trigger] line[f + j]);
    }
}

/// For a well-formed name, a line matching the name declares exactly
/// that name token.
pub proof fn lemma_match_gives_name(line: Seq<char>, name: Seq<char>)
    requires
        wf_name(name),
        is_decl_for(line, name),
    ensures
        is_decl(line),
        name_of(line) == name,
{
    let k = host_kw().len() as int;
    let m = choose|m: int| decl_split_at(line, name, m);
    lemma_first_non_space(line, k);
    lemma_end_trim(line, line.len() as int);
    assert(line[k + m] == name[0]);
    assert(first_non_space(line, k) == k + m) by {
        let f = first_non_space(line, k);
        if f < k + m {
            assert(is_space(line[f]));
        }
        if f > k + m {
            assert(is_space(line[k + m]));
        }
    }
    let e0 = k + m + name.len();
    assert(line[e0 - 1] == name[name.len() - 1]);
    assert(end_trim(line, line.len() as int) == e0) by {
        let e = end_trim(line, line.len() as int);
        if e < e0 {
            assert(is_space(line[e0 - 1]));
        }
        if e > e0 {
            assert(is_space(line[e - 1]));
        }
    }
    assert(name_of(line) =~= name);
}

/// The literal spellings of the template pieces.
pub(crate) proof fn lemma_template_literals()
    ensures
        "Host "@ =~= host_sp(),
        "    HostName "@ =~= hostname_prefix(),
        "    User "@ =~= user_prefix(),
        "    Port "@ =~= port_prefix(),
        "    IdentityFile "@ =~= identity_prefix(),
        "    AddKeysToAgent yes"@ =~= agent_yes_line(),
{
    reveal(agent_yes_line);
    reveal_strlit("Host ");
    reveal_strlit("    HostName ");
    reveal_strlit("    User ");
    reveal_strlit("    Port ");
    reveal_strlit("    IdentityFile ");
    reveal_strlit("    AddKeysToAgent yes");
}

/// The literal spellings of the directive keywords.
pub(crate) proof fn lemma_directive_kw_literals()
    ensures
        "HostName"@ =~= hostname_kw(),
        "User"@ =~= user_kw(),
        "Port"@ =~= port_kw(),
{
    reveal_strlit("HostName");
    reveal_strlit("User");
    reveal_strlit("Port");
}

/// A line written as `Host ` followed by `name` matches `name`.
pub proof fn lemma_host_line_matches(name: Seq<char>)
    ensures
        is_decl_for(host_line(name), name),
{
    let line = host_line(name);
    assert(line[4] == ' ');
    assert(starts_with_at(line, host_kw(), 0));
    assert(starts_with_at(line, name, 5)) by {
        assert(forall|j: int| 0 <= j < name.len() ==> line[5 + j] == #[trigger] name[j]);
    }
    assert(decl_split_at(line, name, 1));
}

/// Classification of an indented line: four spaces of indentation and a
/// word make a line that declares no block, is not blank, and whose
/// directive kind is decided by the word.
pub proof fn lemma_indented_line(rest: Seq<char>)
    requires
        rest.len() > 0,
        !is_space(rest[0]),
    ensures
        first_non_space(indent() + rest, 0) == 4,
        !is_decl(indent() + rest),
        forall|name: Seq<char>| !is_decl_for(indent() + rest, name),
        !is_blank(indent() + rest),
        starts_block(indent() + rest) == starts_with_at(rest, host_sp(), 0),
        is_identity_line(indent() + rest) == starts_with_at(rest, identity_kw(), 0),
        is_agent_line(indent() + rest) == starts_with_at(rest, agent_kw(), 0),
{
    let line = indent() + rest;
    assert(line[0] == ' ');
    assert(line[4] == rest[0]);
    lemma_first_non_space(line, 0);
    assert(first_non_space(line, 0) == 4) by {
        let f = first_non_space(line, 0);
        if f < 4 {
            assert(is_space(line[f]) && f < line.len());
            assert(!is_space(line[f]));
        }
        if f > 4 {
            assert(is_space(line[4]));
        }
    }
    assert forall|name: Seq<char>| !is_decl_for(line, name) by {
        if is_decl_for(line, name) {
            let m = choose|m: int| decl_split_at(line, name, m);
            assert(line[0] == host_kw()[0]);
        }
    }
    assert(!is_decl(line)) by {
        if is_decl(line) {
            assert(line[0] == host_kw()[0]);
        }
    }
    assert(starts_with_at(line, host_sp(), 4) == starts_with_at(rest, host_sp(), 0)) by {
        if starts_with_at(line, host_sp(), 4) {
            assert(forall|j: int|
                0 <= j < host_sp().len() ==> rest[j] == #[trigger] host_sp()[j]);
        }
        if starts_with_at(rest, host_sp(), 0) {
            assert(forall|j: int|
                0 <= j < host_sp().len() ==> line[4 + j] == #[trigger] host_sp()[j]);
        }
    }
    assert(starts_with_at(line, identity_kw(), 4) == starts_with_at(rest, identity_kw(), 0)) by {
        if starts_with_at(line, identity_kw(), 4) {
            assert(forall|j: int|
                0 <= j < identity_kw().len() ==> rest[j] == #[trigger] identity_kw()[j]);
        }
        if starts_with_at(rest, identity_kw(), 0) {
            assert(forall|j: int|
                0 <= j < identity_kw().len() ==> line[4 + j] == #[trigger] identity_kw()[j]);
        }
    }
    assert(starts_with_at(line, agent_kw(), 4) == starts_with_at(rest, agent_kw(), 0)) by {
        if starts_with_at(line, agent_kw(), 4) {
            assert(forall|j: int|
                0 <= j < agent_kw().len() ==> rest[j] == #[trigger] agent_kw()[j]);
        }
        if starts_with_at(rest, agent_kw(), 0) {
            assert(forall|j: int|
                0 <= j < agent_kw().len() ==> line[4 + j] == #[trigger] agent_kw()[j]);
        }
    }
}

/// The value carried by the line if it is a `<kw> <value>` directive.
pub fn line_directive_value(line: &str, kw: &str) -> (r: Option<String>)
    ensures
        match r {
            Some(v) => directive_with(line@, kw@) && v@ == directive_value(line@, kw@),
            None => !directive_with(line@, kw@),
        },
{
    let f = skip_spaces(line, 0);
    if !str_starts_with_at(line, kw, f) {
        return None;
    }
    let kl = kw.unicode_len();
    let n = line.unicode_len();
    if f + kl >= n {
        return None;
    }
    if !space_at(line, f + kl) {
        return None;
    }
    let a = skip_spaces(line, f + kl);
    let b = trim_end_pos(line, n);
    if a < b {
        Some(substr_copy(line, a, b))
    } else {
        Some(String::new())
    }
}

/// Whether the line is nothing but whitespace.
pub fn line_is_blank(line: &str) -> (b: bool)
    ensures
        b == is_blank(line@),
{
    let n = line.unicode_len();
    let t = skip_spaces(line, 0);
    t == n
}

proof fn lemma_host_literal()
    ensures
        "Host"@ =~= host_kw(),
        "Host "@ =~= host_sp(),
{
    reveal_strlit("Host");
    reveal_strlit("Host ");
}

proof fn lemma_identity_literal()
    ensures
        "IdentityFile"@ =~= identity_kw(),
{
    reveal_strlit("IdentityFile");
}

proof fn lemma_agent_literal()
    ensures
        "AddKeysToAgent"@ =~= agent_kw(),
{
    reveal_strlit("AddKeysToAgent");
}

/// Whether the trimmed line opens a `Host` block.
pub fn line_starts_block(line: &str) -> (b: bool)
    ensures
        b == starts_block(line@),
{
    let t = skip_spaces(line, 0);
    let b = str_starts_with_at(line, "Host ", t);
    proof {
        lemma_host_literal();
    }
    b
}

/// Whether the trimmed line carries an `IdentityFile` directive.
pub fn line_is_identity(line: &str) -> (b: bool)
    ensures
        b == is_identity_line(line@),
{
    let t = skip_spaces(line, 0);
    let b = str_starts_with_at(line, "IdentityFile", t);
    proof {
        lemma_identity_literal();
    }
    b
}

/// Whether the trimmed line carries an `AddKeysToAgent` directive.
pub fn line_is_agent(line: &str) -> (b: bool)
    ensures
        b == is_agent_line(line@),
{
    let t = skip_spaces(line, 0);
    let b = str_starts_with_at(line, "AddKeysToAgent", t);
    proof {
        lemma_agent_literal();
    }
    b
}

/// Whether the line declares a `Host` block with a name token.
pub fn line_is_decl(line: &str) -> (b: bool)
    ensures
        b == is_decl(line@),
{
    proof {
        lemma_host_literal();
    }
    if !str_starts_with_at(line, "Host", 0) {
        return false;
    }
    let n = line.unicode_len();
    if n <= 4 {
        return false;
    }
    if !space_at(line, 4) {
        return false;
    }
    let t = skip_spaces(line, 4);
    t < n
}

/// The declared name of a declaration line.
pub fn line_name_of(line: &str) -> (r: String)
    requires
        is_decl(line@),
    ensures
        r@ == name_of(line@),
{
    proof {
        lemma_host_literal();
    }
    let n = line.unicode_len();
    let f = skip_spaces(line, 4);
    let e = trim_end_pos(line, n);
    proof {
        lemma_first_non_space(line@, 4);
        lemma_end_trim(line@, n as int);
        if e <= f {
            assert(is_space(line@[f as int]));
        }
    }
    substr_copy(line, f, e)
}

/// Whether the line matches `Host`, whitespace, `name`, trailing
/// whitespace.
pub fn line_is_decl_for(line: &str, name: &str) -> (b: bool)
    ensures
        b == is_decl_for(line@, name@),
{
    proof {
        lemma_host_literal();
    }
    if !str_starts_with_at(line, "Host", 0) {
        return false;
    }
    let n = line.unicode_len();
    if n <= 4 {
        return false;
    }
    let r = skip_spaces(line, 4);
    proof {
        lemma_first_non_space(line@, 4);
    }
    let mut m: usize = 1;
    while m <= r - 4
        invariant
            1 <= m,
            m <= n,
            r as int == first_non_space(line@, 4),
            4 <= r <= n,
            n == line@.len(),
            starts_with_at(line@, host_kw(), 0),
            forall|j: int| 4 <= j < r ==> is_space(#[trigger] line@[j]),
            r < n ==> !is_space(line@[r as int]),
            forall|mm: int| 1 <= mm < m ==> !decl_split_at(line@, name@, mm),
        decreases r - m,
    {
        if str_starts_with_at(line, name, 4 + m) {
            let after = 4 + m + name.unicode_len();
            let t = skip_spaces(line, after);
            if t == n {
                proof {
                    lemma_first_non_space(line@, after as int);
                    assert(decl_split_at(line@, name@, m as int));
                }
                return true;
            }
            proof {
                lemma_first_non_space(line@, after as int);
                assert(!is_space(line@[t as int]));
                assert(!decl_split_at(line@, name@, m as int));
            }
        }
        m += 1;
    }
    proof {
        assert forall|mm: int| 1 <= mm implies !decl_split_at(line@, name@, mm) by {
            if decl_split_at(line@, name@, mm) {
                if mm < m {
                    assert(!decl_split_at(line@, name@, mm));
                } else {
                    assert(4 + mm > r);
                    if r < n {
                        assert(is_space(line@[r as int]));
                    } else {
                        assert(4 + mm + name@.len() <= n);
                    }
                }
            }
        }
    }
    false
}

} // verus!
