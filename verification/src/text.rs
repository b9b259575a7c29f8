//! Character-level helpers shared by the whole crate: whitespace
//! classification, prefix tests, and splitting raw text into lines and
//! joining lines back into raw text.

use vstd::prelude::*;
use vstd::string::*;

verus! {

/// Horizontal whitespace as it separates tokens on a configuration line.
pub open spec fn is_space(c: char) -> bool {
    c == ' ' || c == '\t'
}

/// `p` occurs in `s` starting at index `i`.
pub open spec fn starts_with_at(s: Seq<char>, p: Seq<char>, i: int) -> bool {
    &&& 0 <= i
    &&& i + p.len() <= s.len()
    &&& forall|j: int| 0 <= j < p.len() ==> s[i + j] == #[trigger] p[j]
}

/// Index of the first non-space character at or after `i`, or `s.len()`
/// if everything from `i` on is whitespace.
pub open spec fn first_non_space(s: Seq<char>, i: int) -> int
    decreases s.len() - i when 0 <= i <= s.len()
{
    if i >= s.len() {
        i
    } else if is_space(s[i]) {
        first_non_space(s, i + 1)
    } else {
        i
    }
}

pub proof fn lemma_first_non_space(s: Seq<char>, i: int)
    requires
        0 <= i <= s.len(),
    ensures
        i <= first_non_space(s, i) <= s.len(),
        forall|j: int| i <= j < first_non_space(s, i) ==> is_space(#[trigger] s[j]),
        first_non_space(s, i) < s.len() ==> !is_space(s[first_non_space(s, i)]),
    decreases s.len() - i,
{
    if i < s.len() && is_space(s[i]) {
        lemma_first_non_space(s, i + 1);
    }
}

/// Index just past the last non-space character strictly before `i`,
/// or `0` if everything before `i` is whitespace.
pub open spec fn end_trim(s: Seq<char>, i: int) -> int
    decreases i when 0 <= i <= s.len()
{
    if i <= 0 {
        0
    } else if is_space(s[i - 1]) {
        end_trim(s, i - 1)
    } else {
        i
    }
}

pub proof fn lemma_end_trim(s: Seq<char>, i: int)
    requires
        0 <= i <= s.len(),
    ensures
        0 <= end_trim(s, i) <= i,
        forall|j: int| end_trim(s, i) <= j < i ==> is_space(#[trigger] s[j]),
        end_trim(s, i) > 0 ==> !is_space(s[end_trim(s, i) - 1]),
    decreases i,
{
    if i > 0 && is_space(s[i - 1]) {
        lemma_end_trim(s, i - 1);
    }
}

/// Index of the first `'\n'` at or after `i`, or `s.len()` if there is none.
pub open spec fn find_nl(s: Seq<char>, i: int) -> int
    decreases s.len() - i when 0 <= i <= s.len()
{
    if i >= s.len() {
        i
    } else if s[i] == '\n' {
        i
    } else {
        find_nl(s, i + 1)
    }
}

pub proof fn lemma_find_nl(s: Seq<char>, i: int)
    requires
        0 <= i <= s.len(),
    ensures
        i <= find_nl(s, i) <= s.len(),
        forall|j: int| i <= j < find_nl(s, i) ==> #[trigger] s[j] != '\n',
        find_nl(s, i) < s.len() ==> s[find_nl(s, i)] == '\n',
    decreases s.len() - i,
{
    if i < s.len() && s[i] != '\n' {
        lemma_find_nl(s, i + 1);
    }
}

/// The character sequences of a sequence of strings.
pub open spec fn strings_view(v: Seq<String>) -> Seq<Seq<char>> {
    Seq::new(v.len(), |i: int| v[i]@)
}

/// `s` contains no line break.
pub open spec fn no_nl(s: Seq<char>) -> bool {
    forall|j: int| 0 <= j < s.len() ==> #[trigger] s[j] != '\n'
}

/// Every line of the document is free of line breaks.
pub open spec fn lines_wf(lines: Seq<Seq<char>>) -> bool {
    forall|i: int| 0 <= i < lines.len() ==> no_nl(#[trigger] lines[i])
}

/// The lines of `s` from position `pos` on: pieces separated by `'\n'`,
/// where a trailing `'\n'` does not open a final empty line.
pub open spec fn split_from(s: Seq<char>, pos: int) -> Seq<Seq<char>>
    decreases s.len() - pos when 0 <= pos <= s.len() via split_from_decreases
{
    if pos >= s.len() {
        Seq::empty()
    } else {
        let j = find_nl(s, pos);
        if j < s.len() {
            seq![s.subrange(pos, j)] + split_from(s, j + 1)
        } else {
            seq![s.subrange(pos, j)]
        }
    }
}

#[via_fn]
proof fn split_from_decreases(s: Seq<char>, pos: int) {
    lemma_find_nl(s, pos);
}

/// The line view of a raw text.
pub open spec fn split_lines(s: Seq<char>) -> Seq<Seq<char>> {
    split_from(s, 0)
}

/// The raw text of a line view: every line followed by one `'\n'`.
pub open spec fn join_lines(lines: Seq<Seq<char>>) -> Seq<char>
    decreases lines.len()
{
    if lines.len() == 0 {
        Seq::empty()
    } else {
        lines.first().push('\n') + join_lines(lines.drop_first())
    }
}

/// `s` with its trailing newline normalized: non-empty text always ends
/// with exactly the `'\n'` the writer puts after the last line.
pub open spec fn normalized(s: Seq<char>) -> Seq<char> {
    if s.len() == 0 {
        s
    } else if s[s.len() - 1] == '\n' {
        s
    } else {
        s.push('\n')
    }
}

proof fn lemma_split_from_wf(s: Seq<char>, pos: int)
    requires
        0 <= pos <= s.len(),
    ensures
        lines_wf(split_from(s, pos)),
    decreases s.len() - pos,
{
    if pos < s.len() {
        let j = find_nl(s, pos);
        lemma_find_nl(s, pos);
        if j < s.len() {
            lemma_split_from_wf(s, j + 1);
        }
    }
}

/// Splitting any text yields lines without line breaks.
pub proof fn lemma_split_lines_wf(s: Seq<char>)
    ensures
        lines_wf(split_lines(s)),
{
    lemma_split_from_wf(s, 0);
}

proof fn lemma_join_split_from(s: Seq<char>, pos: int)
    requires
        0 <= pos <= s.len(),
    ensures
        join_lines(split_from(s, pos)) == normalized(s.subrange(pos, s.len() as int)),
    decreases s.len() - pos,
{
    if pos >= s.len() {
        assert(s.subrange(pos, s.len() as int) =~= Seq::empty());
    } else {
        let j = find_nl(s, pos);
        lemma_find_nl(s, pos);
        let head = s.subrange(pos, j);
        if j < s.len() {
            let ls = seq![head] + split_from(s, j + 1);
            assert(ls.first() == head);
            assert(ls.drop_first() =~= split_from(s, j + 1));
            lemma_join_split_from(s, j + 1);
            let rest = s.subrange(j + 1, s.len() as int);
            assert(join_lines(ls) == head.push('\n') + normalized(rest));
            if rest.len() == 0 {
                assert(normalized(rest) =~= rest);
                assert(head.push('\n') + rest =~= s.subrange(pos, s.len() as int));
                assert(normalized(s.subrange(pos, s.len() as int))
                    == s.subrange(pos, s.len() as int));
            } else if rest[rest.len() - 1] == '\n' {
                assert(head.push('\n') + rest =~= s.subrange(pos, s.len() as int));
                assert(normalized(s.subrange(pos, s.len() as int))
                    == s.subrange(pos, s.len() as int));
            } else {
                assert(head.push('\n') + rest.push('\n')
                    =~= s.subrange(pos, s.len() as int).push('\n'));
                assert(normalized(s.subrange(pos, s.len() as int))
                    == s.subrange(pos, s.len() as int).push('\n'));
            }
        } else {
            let ls = seq![head];
            assert(ls.first() == head);
            assert(ls.first() == head);
            assert(ls.drop_first() =~= Seq::<Seq<char>>::empty());
            assert(join_lines(Seq::<Seq<char>>::empty()) == Seq::<char>::empty());
            assert(join_lines(ls) =~= head.push('\n'));
            assert(head.push('\n') =~= s.subrange(pos, s.len() as int).push('\n'));
            assert(normalized(s.subrange(pos, s.len() as int))
                == s.subrange(pos, s.len() as int).push('\n'));
        }
    }
}

/// Round trip: splitting a text into lines and joining them again gives
/// the same text up to trailing-newline normalization.
pub proof fn lemma_join_split(s: Seq<char>)
    ensures
        join_lines(split_lines(s)) == normalized(s),
{
    lemma_join_split_from(s, 0);
    assert(s.subrange(0, s.len() as int) =~= s);
}

/// Relies on String::push: appends exactly the given character.
#[verifier::external_body]
pub fn push_char(s: &mut String, c: char)
    ensures
        final(s)@ == old(s)@.push(c),
{
    s.push(c);
}

/// True iff `pat` occurs in `s` at character position `i`.
pub fn str_starts_with_at(s: &str, pat: &str, i: usize) -> (b: bool)
    requires
        i <= s@.len(),
    ensures
        b == starts_with_at(s@, pat@, i as int),
{
    let n = s.unicode_len();
    let m = pat.unicode_len();
    if m > n - i {
        return false;
    }
    let mut j: usize = 0;
    while j < m
        invariant
            i + m <= n,
            n == s@.len(),
            m == pat@.len(),
            j <= m,
            forall|k: int| 0 <= k < j ==> s@[i + k] == #[trigger] pat@[k],
        decreases m - j,
    {
        if s.get_char(i + j) != pat.get_char(j) {
            return false;
        }
        j += 1;
    }
    true
}

/// Whether the character of `s` at position `i` is a space or a tab.
pub fn space_at(s: &str, i: usize) -> (b: bool)
    requires
        i < s@.len(),
    ensures
        b == is_space(s@[i as int]),
{
    let c = s.get_char(i);
    c == ' ' || c == '\t'
}

/// Character position of the first non-space character at or after `from`.
pub fn skip_spaces(s: &str, from: usize) -> (r: usize)
    requires
        from <= s@.len(),
    ensures
        r as int == first_non_space(s@, from as int),
        from <= r <= s@.len(),
{
    let n = s.unicode_len();
    let mut i: usize = from;
    while i < n && space_at(s, i)
        invariant
            from <= i <= n,
            n == s@.len(),
            first_non_space(s@, from as int) == first_non_space(s@, i as int),
        decreases n - i,
    {
        i += 1;
    }
    proof {
        lemma_first_non_space(s@, from as int);
    }
    i
}

/// Character position just past the last non-space character before `upto`.
pub fn trim_end_pos(s: &str, upto: usize) -> (r: usize)
    requires
        upto <= s@.len(),
    ensures
        r as int == end_trim(s@, upto as int),
        r <= upto,
{
    let mut i: usize = upto;
    while i > 0 && space_at(s, i - 1)
        invariant
            0 <= i <= upto <= s@.len(),
            end_trim(s@, upto as int) == end_trim(s@, i as int),
        decreases i,
    {
        i -= 1;
    }
    proof {
        lemma_end_trim(s@, upto as int);
    }
    i
}

/// Character position of the first `'\n'` at or after `from`.
pub fn find_newline(s: &str, from: usize) -> (r: usize)
    requires
        from <= s@.len(),
    ensures
        r as int == find_nl(s@, from as int),
        from <= r <= s@.len(),
{
    let n = s.unicode_len();
    let mut i: usize = from;
    while i < n && s.get_char(i) != '\n'
        invariant
            from <= i <= n,
            n == s@.len(),
            find_nl(s@, from as int) == find_nl(s@, i as int),
        decreases n - i,
    {
        i += 1;
    }
    proof {
        lemma_find_nl(s@, from as int);
    }
    i
}

/// Equality of two string slices by their character content.
pub fn str_eq(a: &str, b: &str) -> (r: bool)
    ensures
        r == (a@ == b@),
{
    let n = a.unicode_len();
    if n != b.unicode_len() {
        return false;
    }
    let mut i: usize = 0;
    while i < n
        invariant
            i <= n,
            n == a@.len(),
            n == b@.len(),
            forall|k: int| 0 <= k < i ==> a@[k] == #[trigger] b@[k],
        decreases n - i,
    {
        if a.get_char(i) != b.get_char(i) {
            return false;
        }
        i += 1;
    }
    proof {
        assert(a@ =~= b@);
    }
    true
}

/// An owned copy of the characters of `s` from `from` to `to`.
pub fn substr_copy(s: &str, from: usize, to: usize) -> (r: String)
    requires
        from <= to <= s@.len(),
    ensures
        r@ == s@.subrange(from as int, to as int),
{
    let piece = s.substring_char(from, to);
    piece.to_owned()
}

} // verus!
