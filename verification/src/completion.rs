//! Word splitting and prefix completion for the interactive shell: the
//! candidate lists and the rule that picks completions for a line.

use vstd::prelude::*;
use vstd::string::*;
use crate::text::{
    first_non_space, is_space, lemma_first_non_space, skip_spaces, space_at, starts_with_at,
    str_eq, str_starts_with_at, strings_view, substr_copy,
};

verus! {

/// Index of the first space at or after `i`, or `s.len()`.
pub open spec fn first_space(s: Seq<char>, i: int) -> int
    decreases s.len() - i when 0 <= i <= s.len()
{
    if i >= s.len() {
        i
    } else if is_space(s[i]) {
        i
    } else {
        first_space(s, i + 1)
    }
}

pub proof fn lemma_first_space(s: Seq<char>, i: int)
    requires
        0 <= i <= s.len(),
    ensures
        i <= first_space(s, i) <= s.len(),
        forall|j: int| i <= j < first_space(s, i) ==> !is_space(#[trigger] s[j]),
        first_space(s, i) < s.len() ==> is_space(s[first_space(s, i)]),
    decreases s.len() - i,
{
    if i < s.len() && !is_space(s[i]) {
        lemma_first_space(s, i + 1);
    }
}

/// The whitespace-separated words of `s` from position `i` on.
pub open spec fn words_from(s: Seq<char>, i: int) -> Seq<Seq<char>>
    decreases s.len() - i when 0 <= i <= s.len() via words_from_decreases
{
    let a = first_non_space(s, i);
    if a >= s.len() {
        Seq::empty()
    } else {
        let b = first_space(s, a);
        seq![s.subrange(a, b)] + words_from(s, b)
    }
}

#[via_fn]
proof fn words_from_decreases(s: Seq<char>, i: int) {
    lemma_first_non_space(s, i);
    lemma_first_space(s, first_non_space(s, i));
}

/// The whitespace-separated words of `s`.
pub open spec fn words_of(s: Seq<char>) -> Seq<Seq<char>> {
    words_from(s, 0)
}

/// The position right after the last whitespace character of `s`, or 0
/// when `s` holds no whitespace.
pub open spec fn after_last_space(s: Seq<char>) -> int
    decreases s.len(),
{
    if s.len() == 0 {
        0
    } else if is_space(s.last()) {
        s.len() as int
    } else {
        after_last_space(s.drop_last())
    }
}

/// Index of the first space at or after `from`.
fn find_space(s: &str, from: usize) -> (r: usize)
    requires
        from <= s@.len(),
    ensures
        r as int == first_space(s@, from as int),
        from <= r <= s@.len(),
{
    let n = s.unicode_len();
    let mut i: usize = from;
    while i < n && !space_at(s, i)
        invariant
            from <= i <= n,
            n == s@.len(),
            first_space(s@, from as int) == first_space(s@, i as int),
        decreases n - i,
    {
        i += 1;
    }
    proof {
        lemma_first_space(s@, from as int);
    }
    i
}

/// Split a line into its whitespace-separated words.
pub fn split_words(s: &str) -> (r: Vec<String>)
    ensures
        strings_view(r@) == words_of(s@),
{
    let n = s.unicode_len();
    let mut acc: Vec<String> = Vec::new();
    let mut i: usize = 0;
    proof {
        assert(strings_view(acc@) + words_of(s@) =~= words_of(s@));
    }
    while i < n
        invariant
            i <= n,
            n == s@.len(),
            strings_view(acc@) + words_from(s@, i as int) == words_of(s@),
        decreases n - i,
    {
        let ghost pre = strings_view(acc@);
        let a = skip_spaces(s, i);
        if a == n {
            proof {
                assert(words_from(s@, i as int) =~= Seq::<Seq<char>>::empty());
                assert(pre + Seq::<Seq<char>>::empty() =~= pre);
                assert(pre + words_from(s@, n as int) =~= pre);
            }
            i = n;
        } else {
            let b = find_space(s, a);
            let word = substr_copy(s, a, b);
            acc.push(word);
            proof {
                lemma_first_non_space(s@, i as int);
                lemma_first_space(s@, a as int);
                assert(strings_view(acc@) =~= pre.push(s@.subrange(a as int, b as int)));
                assert(words_from(s@, i as int) == seq![s@.subrange(a as int, b as int)]
                    + words_from(s@, b as int));
                assert(strings_view(acc@) + words_from(s@, b as int) =~= pre + (seq![
                    s@.subrange(a as int, b as int),
                ] + words_from(s@, b as int)));
            }
            i = b;
        }
    }
    proof {
        assert(words_from(s@, n as int) =~= Seq::<Seq<char>>::empty());
        assert(strings_view(acc@) + words_from(s@, n as int) =~= strings_view(acc@));
    }
    acc
}

/// The candidates among `cands[..k]` that start with `w`, in order.
pub open spec fn filter_prefixed_upto(cands: Seq<Seq<char>>, w: Seq<char>, k: int) -> Seq<
    Seq<char>,
>
    decreases k,
{
    if k <= 0 {
        Seq::empty()
    } else if starts_with_at(cands[k - 1], w, 0) {
        filter_prefixed_upto(cands, w, k - 1).push(cands[k - 1])
    } else {
        filter_prefixed_upto(cands, w, k - 1)
    }
}

/// The candidates that start with `w`, in order.
pub open spec fn filter_prefixed(cands: Seq<Seq<char>>, w: Seq<char>) -> Seq<Seq<char>> {
    filter_prefixed_upto(cands, w, cands.len() as int)
}

/// The candidates in `cands` that start with `w`.
pub fn matches_with_prefix(cands: &Vec<String>, w: &str) -> (r: Vec<String>)
    ensures
        strings_view(r@) == filter_prefixed(strings_view(cands@), w@),
{
    let ghost cv = strings_view(cands@);
    let mut r: Vec<String> = Vec::new();
    let mut k: usize = 0;
    proof {
        assert(strings_view(r@) =~= filter_prefixed_upto(cv, w@, 0));
    }
    while k < cands.len()
        invariant
            k <= cands@.len(),
            cv == strings_view(cands@),
            cv.len() == cands@.len(),
            strings_view(r@) == filter_prefixed_upto(cv, w@, k as int),
        decreases cands@.len() - k,
    {
        let ghost pre = strings_view(r@);
        let cand = &cands[k];
        if str_starts_with_at(cand.as_str(), w, 0) {
            r.push(cand.clone());
            proof {
                assert(strings_view(r@) =~= pre.push(cv[k as int]));
            }
        }
        k += 1;
    }
    r
}

/// Completion candidates for the interactive shell: the top-level
/// command names and the terminal-multiplexer subcommand names.
pub struct VeloCompleter {
    commands: Vec<String>,
    tmux_subcommands: Vec<String>,
}

impl View for VeloCompleter {
    type V = (Seq<Seq<char>>, Seq<Seq<char>>);

    closed spec fn view(&self) -> (Seq<Seq<char>>, Seq<Seq<char>>) {
        (strings_view(self.commands@), strings_view(self.tmux_subcommands@))
    }
}

impl VeloCompleter {
    /// The fixed candidate lists.
    pub fn new() -> (r: VeloCompleter)
        ensures
            r@.0 =~= seq!["tmux"@, "ssh"@, "add"@, "list"@, "remove"@, "add-key"@],
            r@.1 =~= seq!["new"@, "list"@, "ls"@, "attach"@, "kill"@],
    {
        let mut commands: Vec<String> = Vec::new();
        commands.push("tmux".to_owned());
        commands.push("ssh".to_owned());
        commands.push("add".to_owned());
        commands.push("list".to_owned());
        commands.push("remove".to_owned());
        commands.push("add-key".to_owned());
        let mut tmux_subcommands: Vec<String> = Vec::new();
        tmux_subcommands.push("new".to_owned());
        tmux_subcommands.push("list".to_owned());
        tmux_subcommands.push("ls".to_owned());
        tmux_subcommands.push("attach".to_owned());
        tmux_subcommands.push("kill".to_owned());
        VeloCompleter { commands, tmux_subcommands }
    }

    /// Completion for the text before the cursor.
    ///
    /// One word on the line completes against the command names; a
    /// second word completes against the multiplexer subcommands after
    /// `tmux` and against the given connection names after `ssh`.  The
    /// returned position is where the replacement starts: 0 for the
    /// first word, otherwise just after the last whitespace.
    pub fn complete_line(&self, line: &str, pos: usize, connections: &Vec<String>) -> (r: (
        usize,
        Vec<String>,
    ))
        requires
            pos <= line@.len(),
        ensures
            ({
                let prefix = line@.subrange(0, pos as int);
                let ws = words_of(prefix);
                &&& (ws.len() == 0 ==> r.0 == 0 && strings_view(r.1@) == Seq::<Seq<char>>::empty())
                &&& (ws.len() == 1 ==> r.0 == 0 && strings_view(r.1@) == filter_prefixed(
                    self@.0,
                    ws.last(),
                ))
                &&& (ws.len() >= 2 ==> r.0 as int == after_last_space(prefix))
                &&& (ws.len() == 2 && ws[0] == "tmux"@ ==> strings_view(r.1@) == filter_prefixed(
                    self@.1,
                    ws.last(),
                ))
                &&& (ws.len() == 2 && ws[0] == "ssh"@ ==> strings_view(r.1@) == filter_prefixed(
                    strings_view(connections@),
                    ws.last(),
                ))
                &&& (ws.len() >= 2 && !(ws.len() == 2 && (ws[0] == "tmux"@ || ws[0] == "ssh"@))
                    ==> strings_view(r.1@) == Seq::<Seq<char>>::empty())
            }),
    {
        let prefix = line.substring_char(0, pos);
        let words = split_words(prefix);
        let ghost ws = words_of(prefix@);
        if words.len() == 0 {
            let empty: Vec<String> = Vec::new();
            proof {
                assert(strings_view(empty@) =~= Seq::<Seq<char>>::empty());
            }
            return (0, empty);
        }
        let last = &words[words.len() - 1];
        proof {
            assert(strings_view(words@).len() == ws.len());
            assert(last@ == strings_view(words@)[words@.len() - 1]);
            assert(last@ == ws.last());
        }
        if words.len() == 1 {
            let found = matches_with_prefix(&self.commands, last.as_str());
            return (0, found);
        }
        let start = start_after_last_space(prefix);
        let first = &words[0];
        proof {
            assert(first@ == strings_view(words@)[0]);
            assert(first@ == ws[0]);
            reveal_strlit("tmux");
            reveal_strlit("ssh");
            assert("tmux"@.len() == 4);
            assert("ssh"@.len() == 3);
        }
        if words.len() == 2 && str_eq(first.as_str(), "tmux") {
            let found = matches_with_prefix(&self.tmux_subcommands, last.as_str());
            (start, found)
        } else if words.len() == 2 && str_eq(first.as_str(), "ssh") {
            let found = matches_with_prefix(connections, last.as_str());
            (start, found)
        } else {
            let empty: Vec<String> = Vec::new();
            proof {
                assert(strings_view(empty@) =~= Seq::<Seq<char>>::empty());
            }
            (start, empty)
        }
    }
}

/// The position right after the last whitespace character.
fn start_after_last_space(s: &str) -> (r: usize)
    ensures
        r as int == after_last_space(s@),
{
    let n = s.unicode_len();
    let mut i: usize = n;
    proof {
        assert(s@.subrange(0, n as int) =~= s@);
    }
    while i > 0 && !space_at(s, i - 1)
        invariant
            i <= n,
            n == s@.len(),
            after_last_space(s@) == after_last_space(s@.subrange(0, i as int)),
        decreases i,
    {
        proof {
            let t = s@.subrange(0, i as int);
            assert(t.last() == s@[i as int - 1]);
            assert(t.drop_last() =~= s@.subrange(0, i as int - 1));
        }
        i -= 1;
    }
    proof {
        if i > 0 {
            let t = s@.subrange(0, i as int);
            assert(t.last() == s@[i as int - 1]);
        } else {
            assert(s@.subrange(0, 0) =~= Seq::<char>::empty());
        }
    }
    i
}

} // verus!
