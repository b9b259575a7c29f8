//! The block-level operations: listing block names, locating a block,
//! appending a block, and excising one.
//!
//! The file format does not make block names unique, so `find_block`,
//! `remove_connection` and the identity upsert deliberately address the
//! first matching block only; `add_connection` refuses a name that is
//! already listed but does not police what other writers put in the
//! file.

use vstd::prelude::*;
use vstd::string::*;
use crate::document::SSHConfig;
use crate::grammar::{
    host_line, host_sp, hostname_prefix, is_blank, is_decl, is_decl_for,
    lemma_decl_matches_own_name, lemma_host_line_matches, lemma_indented_line,
    lemma_match_gives_name, lemma_template_literals, line_is_decl, line_is_decl_for, line_name_of,
    line_starts_block, name_of, port_prefix, starts_block, user_prefix, wf_name,
};
use crate::numfmt::{dec_str, lemma_dec_str_no_nl, u16_to_dec};
use crate::text::{first_non_space, is_space, no_nl, starts_with_at, str_eq, strings_view};

verus! {

/// Index of the first line at or after `i` that matches `name` as a
/// `Host` declaration, or `lines.len()` if there is none.
pub open spec fn first_decl_from(lines: Seq<Seq<char>>, name: Seq<char>, i: int) -> int
    decreases lines.len() - i when 0 <= i <= lines.len()
{
    if i >= lines.len() {
        i
    } else if is_decl_for(lines[i], name) {
        i
    } else {
        first_decl_from(lines, name, i + 1)
    }
}

pub proof fn lemma_first_decl_from(lines: Seq<Seq<char>>, name: Seq<char>, i: int)
    requires
        0 <= i <= lines.len(),
    ensures
        i <= first_decl_from(lines, name, i) <= lines.len(),
        forall|j: int|
            i <= j < first_decl_from(lines, name, i) ==> !is_decl_for(#[trigger] lines[j], name),
        first_decl_from(lines, name, i) < lines.len() ==> is_decl_for(
            lines[first_decl_from(lines, name, i)],
            name,
        ),
    decreases lines.len() - i,
{
    if i < lines.len() && !is_decl_for(lines[i], name) {
        lemma_first_decl_from(lines, name, i + 1);
    }
}

/// Index of the first line at or after `i` that opens a `Host` block,
/// or `lines.len()` if there is none.
pub open spec fn next_block_start(lines: Seq<Seq<char>>, i: int) -> int
    decreases lines.len() - i when 0 <= i <= lines.len()
{
    if i >= lines.len() {
        i
    } else if starts_block(lines[i]) {
        i
    } else {
        next_block_start(lines, i + 1)
    }
}

pub proof fn lemma_next_block_start(lines: Seq<Seq<char>>, i: int)
    requires
        0 <= i <= lines.len(),
    ensures
        i <= next_block_start(lines, i) <= lines.len(),
        forall|j: int|
            i <= j < next_block_start(lines, i) ==> !starts_block(#[trigger] lines[j]),
        next_block_start(lines, i) < lines.len() ==> starts_block(lines[next_block_start(lines, i)]),
    decreases lines.len() - i,
{
    if i < lines.len() && !starts_block(lines[i]) {
        lemma_next_block_start(lines, i + 1);
    }
}

/// `name` is declared somewhere in the document.
pub open spec fn has_decl(lines: Seq<Seq<char>>, name: Seq<char>) -> bool {
    exists|i: int| 0 <= i < lines.len() && is_decl_for(#[trigger] lines[i], name)
}

pub proof fn lemma_has_decl_first(lines: Seq<Seq<char>>, name: Seq<char>)
    ensures
        has_decl(lines, name) <==> first_decl_from(lines, name, 0) < lines.len(),
{
    lemma_first_decl_from(lines, name, 0);
    if has_decl(lines, name) {
        let i = choose|i: int| 0 <= i < lines.len() && is_decl_for(#[trigger] lines[i], name);
        if first_decl_from(lines, name, 0) > i {
            assert(!is_decl_for(lines[i], name));
        }
    }
}

/// The declared names of the lines before index `k`, in file order.
pub open spec fn names_prefix(lines: Seq<Seq<char>>, k: int) -> Seq<Seq<char>>
    decreases k,
{
    if k <= 0 {
        Seq::empty()
    } else if is_decl(lines[k - 1]) {
        names_prefix(lines, k - 1).push(name_of(lines[k - 1]))
    } else {
        names_prefix(lines, k - 1)
    }
}

/// All declared host names of the document, in file order, one entry
/// per declaration line.
pub open spec fn names_of(lines: Seq<Seq<char>>) -> Seq<Seq<char>> {
    names_prefix(lines, lines.len() as int)
}

pub proof fn lemma_names_prefix_contains(lines: Seq<Seq<char>>, name: Seq<char>, k: int)
    requires
        0 <= k <= lines.len(),
    ensures
        names_prefix(lines, k).contains(name) <==> exists|i: int|
            0 <= i < k && is_decl(#[trigger] lines[i]) && name_of(lines[i]) == name,
    decreases k,
{
    if k > 0 {
        lemma_names_prefix_contains(lines, name, k - 1);
        let pre = names_prefix(lines, k - 1);
        if is_decl(lines[k - 1]) {
            let cur = pre.push(name_of(lines[k - 1]));
            if cur.contains(name) {
                let ix = choose|ix: int| 0 <= ix < cur.len() && cur[ix] == name;
                if ix < pre.len() {
                    assert(pre[ix] == name);
                    assert(pre.contains(name));
                }
            }
            if name_of(lines[k - 1]) == name {
                assert(cur[cur.len() - 1] == name);
                assert(cur.contains(name));
            }
            if pre.contains(name) {
                let ix = choose|ix: int| 0 <= ix < pre.len() && pre[ix] == name;
                assert(cur[ix] == name);
                assert(cur.contains(name));
            }
        }
    }
}

/// For a well-formed name, having a matching declaration line and being
/// listed among the declared names are the same thing.
pub proof fn lemma_has_decl_iff_named(lines: Seq<Seq<char>>, name: Seq<char>)
    requires
        wf_name(name),
    ensures
        has_decl(lines, name) <==> names_of(lines).contains(name),
{
    lemma_names_prefix_contains(lines, name, lines.len() as int);
    if has_decl(lines, name) {
        let i = choose|i: int| 0 <= i < lines.len() && is_decl_for(#[trigger] lines[i], name);
        lemma_match_gives_name(lines[i], name);
    }
    if names_of(lines).contains(name) {
        let i = choose|i: int|
            0 <= i < lines.len() && is_decl(#[trigger] lines[i]) && name_of(lines[i]) == name;
        lemma_decl_matches_own_name(lines[i]);
    }
}

/// The document that remains when the first block declared for `name`
/// is excised: the declaration line and everything up to (but not
/// including) the next line that opens a block.
pub open spec fn remove_first_block(lines: Seq<Seq<char>>, name: Seq<char>) -> Seq<Seq<char>> {
    let i = first_decl_from(lines, name, 0);
    let j = next_block_start(lines, i + 1);
    lines.subrange(0, i) + lines.subrange(j, lines.len() as int)
}

/// The five lines that `add_connection` appends: a separating blank
/// line and the fixed four-line block template.
pub open spec fn added_block(
    name: Seq<char>,
    host: Seq<char>,
    user: Seq<char>,
    port: u16,
) -> Seq<Seq<char>> {
    seq![
        Seq::<char>::empty(),
        host_line(name),
        hostname_prefix() + host,
        user_prefix() + user,
        port_prefix() + dec_str(port as nat),
    ]
}

/// Why `add_connection` refused to act.
#[derive(Clone, Copy, Debug, PartialEq, Eq, Structural)]
pub enum AddError {
    /// A block with the requested name is already listed.
    DuplicateName,
}

impl SSHConfig {
    /// All declared host names, in file order, duplicates included.
    pub fn list_connections(&self) -> (r: Vec<String>)
        ensures
            strings_view(r@) == names_of(self@),
    {
        let n = self.len();
        let mut r: Vec<String> = Vec::new();
        let mut k: usize = 0;
        proof {
            assert(strings_view(r@) =~= names_prefix(self@, 0));
        }
        while k < n
            invariant
                k <= n,
                n == self@.len(),
                strings_view(r@) == names_prefix(self@, k as int),
            decreases n - k,
        {
            let ghost pre = strings_view(r@);
            let line = self.line_at(k);
            if line_is_decl(line.as_str()) {
                let name = line_name_of(line.as_str());
                r.push(name);
                proof {
                    assert(strings_view(r@) =~= pre.push(name@));
                }
            }
            k += 1;
        }
        proof {
            assert(strings_view(r@) =~= names_of(self@));
        }
        r
    }

    /// Whether `name` occurs among the declared names.
    fn contains_name(&self, name: &str) -> (r: bool)
        ensures
            r == names_of(self@).contains(name@),
    {
        let n = self.len();
        let mut k: usize = 0;
        while k < n
            invariant
                k <= n,
                n == self@.len(),
                !names_prefix(self@, k as int).contains(name@),
            decreases n - k,
        {
            let line = self.line_at(k);
            if line_is_decl(line.as_str()) {
                let cand = line_name_of(line.as_str());
                if str_eq(cand.as_str(), name) {
                    proof {
                        let cur = names_prefix(self@, k as int + 1);
                        assert(cur[cur.len() - 1] == name@);
                        assert(cur.contains(name@));
                        lemma_names_prefix_contains(self@, name@, k as int + 1);
                        lemma_names_prefix_contains(self@, name@, self@.len() as int);
                    }
                    return true;
                }
            }
            proof {
                let cur = names_prefix(self@, k as int + 1);
                if cur.contains(name@) {
                    let ix = choose|ix: int| 0 <= ix < cur.len() && cur[ix] == name@;
                    let pre = names_prefix(self@, k as int);
                    if ix < pre.len() {
                        assert(pre[ix] == name@);
                        assert(pre.contains(name@));
                    }
                }
            }
            k += 1;
        }
        false
    }

    /// Index of the first declaration line matching `name`, if any.
    pub fn find_block(&self, name: &str) -> (r: Option<usize>)
        ensures
            match r {
                Some(i) => {
                    &&& i as int == first_decl_from(self@, name@, 0)
                    &&& (i as int) < self@.len()
                    &&& is_decl_for(self@[i as int], name@)
                },
                None => !has_decl(self@, name@),
            },
            r is Some <==> has_decl(self@, name@),
    {
        let n = self.len();
        let mut k: usize = 0;
        while k < n
            invariant
                k <= n,
                n == self@.len(),
                first_decl_from(self@, name@, 0) == first_decl_from(self@, name@, k as int),
            decreases n - k,
        {
            let line = self.line_at(k);
            if line_is_decl_for(line.as_str(), name) {
                proof {
                    lemma_has_decl_first(self@, name@);
                }
                return Some(k);
            }
            k += 1;
        }
        proof {
            lemma_has_decl_first(self@, name@);
        }
        None
    }

    /// Index of the first line at or after `from` that opens a block.
    pub(crate) fn next_block_start_exec(&self, from: usize) -> (r: usize)
        requires
            from <= self@.len(),
        ensures
            r as int == next_block_start(self@, from as int),
            from <= r <= self@.len(),
    {
        let n = self.len();
        let mut k: usize = from;
        while k < n
            invariant
                from <= k <= n,
                n == self@.len(),
                next_block_start(self@, from as int) == next_block_start(self@, k as int),
            decreases n - k,
        {
            let line = self.line_at(k);
            if line_starts_block(line.as_str()) {
                proof {
                    lemma_next_block_start(self@, from as int);
                }
                return k;
            }
            k += 1;
        }
        proof {
            lemma_next_block_start(self@, from as int);
        }
        n
    }

    /// Append a new `Host` block for `name`, unless a block with that
    /// name is already listed.
    ///
    /// On success the document grows by a blank separator line and the
    /// fixed four-line template; on a duplicate nothing changes.
    pub fn add_connection(&mut self, name: &str, host: &str, user: &str, port: u16) -> (r: Result<
        (),
        AddError,
    >)
        requires
            old(self).wf(),
            no_nl(name@),
            no_nl(host@),
            no_nl(user@),
        ensures
            match r {
                Ok(()) => {
                    &&& !names_of(old(self)@).contains(name@)
                    &&& final(self)@ == old(self)@ + added_block(name@, host@, user@, port)
                },
                Err(AddError::DuplicateName) => {
                    &&& names_of(old(self)@).contains(name@)
                    &&& final(self)@ == old(self)@
                },
            },
            final(self).wf(),
    {
        if self.contains_name(name) {
            return Err(AddError::DuplicateName);
        }
        let ghost base = self@;
        proof {
            lemma_template_literals();
        }
        self.push_line(String::new());
        let mut l1 = String::new();
        l1.append("Host ");
        l1.append(name);
        self.push_line(l1);
        let mut l2 = String::new();
        l2.append("    HostName ");
        l2.append(host);
        self.push_line(l2);
        let mut l3 = String::new();
        l3.append("    User ");
        l3.append(user);
        self.push_line(l3);
        let mut l4 = String::new();
        l4.append("    Port ");
        let port_str = u16_to_dec(port);
        l4.append(port_str.as_str());
        self.push_line(l4);
        proof {
            assert(self@ =~= base + added_block(name@, host@, user@, port));
            lemma_dec_str_no_nl(port as nat);
            assert forall|i: int| 0 <= i < self@.len() implies no_nl(#[trigger] self@[i]) by {
                if i < base.len() {
                    assert(no_nl(base[i]));
                }
            }
        }
        Ok(())
    }

    /// Excise the first block declared for `name`.
    ///
    /// Returns whether a block was found; when none is, the document is
    /// untouched.  The removed span reaches from the declaration line
    /// up to, but not including, the next line that opens a block, so
    /// every other line is kept verbatim.
    pub fn remove_connection(&mut self, name: &str) -> (r: bool)
        requires
            old(self).wf(),
        ensures
            r == has_decl(old(self)@, name@),
            r ==> final(self)@ == remove_first_block(old(self)@, name@),
            !r ==> final(self)@ == old(self)@,
            final(self).wf(),
    {
        let found = self.find_block(name);
        match found {
            None => false,
            Some(i) => {
                let n = self.len();
                let j = self.next_block_start_exec(i + 1);
                let mut kept: Vec<String> = Vec::new();
                let mut k: usize = 0;
                while k < i
                    invariant
                        k <= i,
                        (i as int) < self@.len(),
                        self@ == old(self)@,
                        self.wf(),
                        strings_view(kept@) == self@.subrange(0, k as int),
                    decreases i - k,
                {
                    let ghost pre = strings_view(kept@);
                    let line = self.line_at(k);
                    kept.push(line.clone());
                    proof {
                        assert(strings_view(kept@) =~= pre.push(self@[k as int]));
                        assert(strings_view(kept@) =~= self@.subrange(0, k as int + 1));
                    }
                    k += 1;
                }
                let mut k2: usize = j;
                while k2 < n
                    invariant
                        j <= k2 <= n,
                        n == self@.len(),
                        i as int <= j as int <= n as int,
                        self@ == old(self)@,
                        self.wf(),
                        strings_view(kept@) == self@.subrange(0, i as int) + self@.subrange(
                            j as int,
                            k2 as int,
                        ),
                    decreases n - k2,
                {
                    let ghost pre = strings_view(kept@);
                    let line = self.line_at(k2);
                    kept.push(line.clone());
                    proof {
                        assert(strings_view(kept@) =~= pre.push(self@[k2 as int]));
                        assert(strings_view(kept@) =~= self@.subrange(0, i as int)
                            + self@.subrange(j as int, k2 as int + 1));
                    }
                    k2 += 1;
                }
                let ghost base = self@;
                self.set_lines(kept);
                proof {
                    assert(self@ =~= remove_first_block(base, name@));
                    assert forall|ix: int| 0 <= ix < self@.len() implies no_nl(
                        #[trigger] self@[ix],
                    ) by {
                        let pre_len = i as int;
                        if ix < pre_len {
                            assert(self@[ix] == base[ix]);
                            assert(no_nl(base[ix]));
                        } else {
                            assert(self@[ix] == base[ix + (j as int - i as int)]);
                            assert(no_nl(base[ix + (j as int - i as int)]));
                        }
                    }
                }
                true
            },
        }
    }
}

/// The indices of the declaration lines before index `k`, in order.
pub open spec fn decl_indices_prefix(lines: Seq<Seq<char>>, k: int) -> Seq<int>
    decreases k,
{
    if k <= 0 {
        Seq::empty()
    } else if is_decl(lines[k - 1]) {
        decl_indices_prefix(lines, k - 1).push(k - 1)
    } else {
        decl_indices_prefix(lines, k - 1)
    }
}

/// The indices of all declaration lines, in file order.
pub open spec fn decl_indices(lines: Seq<Seq<char>>) -> Seq<int> {
    decl_indices_prefix(lines, lines.len() as int)
}

/// The declared names and the declaration indices line up: the k-th
/// listed name is the name of the k-th declaration line.
pub proof fn lemma_decl_indices(lines: Seq<Seq<char>>, k: int)
    requires
        0 <= k <= lines.len(),
    ensures
        decl_indices_prefix(lines, k).len() == names_prefix(lines, k).len(),
        forall|t: int|
            0 <= t < decl_indices_prefix(lines, k).len() ==> {
                let i = #[trigger] decl_indices_prefix(lines, k)[t];
                &&& 0 <= i < k
                &&& is_decl(lines[i])
                &&& names_prefix(lines, k)[t] == name_of(lines[i])
            },
    decreases k,
{
    if k > 0 {
        lemma_decl_indices(lines, k - 1);
        if is_decl(lines[k - 1]) {
            let di = decl_indices_prefix(lines, k);
            let dp = decl_indices_prefix(lines, k - 1);
            assert forall|t: int| 0 <= t < di.len() implies {
                let i = #[trigger] di[t];
                &&& 0 <= i < k
                &&& is_decl(lines[i])
                &&& names_prefix(lines, k)[t] == name_of(lines[i])
            } by {
                if t < dp.len() {
                    assert(di[t] == dp[t]);
                    assert(names_prefix(lines, k)[t] == names_prefix(lines, k - 1)[t]);
                } else {
                    assert(di[t] == k - 1);
                }
            }
        }
    }
}

/// Number of declaration lines before index `k` whose declared name is
/// exactly `name`.
pub open spec fn count_named(lines: Seq<Seq<char>>, name: Seq<char>, k: int) -> int
    decreases k,
{
    if k <= 0 {
        0
    } else if is_decl(lines[k - 1]) && name_of(lines[k - 1]) == name {
        count_named(lines, name, k - 1) + 1
    } else {
        count_named(lines, name, k - 1)
    }
}

proof fn lemma_count_zero(lines: Seq<Seq<char>>, name: Seq<char>, k: int)
    requires
        forall|i: int| 0 <= i < k ==> !(is_decl(#[trigger] lines[i]) && name_of(lines[i]) == name),
    ensures
        count_named(lines, name, k) == 0,
    decreases k,
{
    if k > 0 {
        lemma_count_zero(lines, name, k - 1);
    }
}

/// What each of the five appended lines is: a blank separator, a
/// declaration for `name` (which also opens a block), and three
/// indented directive lines that neither declare nor open a block.
proof fn lemma_added_block_lines(name: Seq<char>, host: Seq<char>, user: Seq<char>, port: u16)
    ensures
        ({
            let b = added_block(name, host, user, port);
            &&& b.len() == 5
            &&& is_blank(b[0])
            &&& !is_decl(b[0])
            &&& !starts_block(b[0])
            &&& !is_decl_for(b[0], name)
            &&& is_decl_for(b[1], name)
            &&& starts_block(b[1])
            &&& !is_decl(b[2]) && !is_decl(b[3]) && !is_decl(b[4])
            &&& !is_decl_for(b[2], name) && !is_decl_for(b[3], name) && !is_decl_for(b[4], name)
            &&& !starts_block(b[2]) && !starts_block(b[3]) && !starts_block(b[4])
            &&& (wf_name(name) ==> is_decl(b[1]) && name_of(b[1]) == name)
        }),
{
    let b = added_block(name, host, user, port);
    assert(b[0].len() == 0);
    assert(!is_decl_for(b[0], name)) by {
        if is_decl_for(b[0], name) {
            let m = choose|m: int| crate::grammar::decl_split_at(b[0], name, m);
        }
    }
    lemma_host_line_matches(name);
    assert(starts_block(b[1])) by {
        assert(!is_space(b[1][0]));
        assert(first_non_space(b[1], 0) == 0);
        assert(forall|j: int|
            0 <= j < host_sp().len() ==> b[1][j] == #[trigger] host_sp()[j]);
    }
    let r2 = seq!['H', 'o', 's', 't', 'N', 'a', 'm', 'e', ' '] + host;
    assert(b[2] =~= crate::grammar::indent() + r2);
    lemma_indented_line(r2);
    assert(!starts_block(b[2])) by {
        if starts_with_at(r2, host_sp(), 0) {
            assert(r2[4] == host_sp()[4]);
        }
    }
    let r3 = seq!['U', 's', 'e', 'r', ' '] + user;
    assert(b[3] =~= crate::grammar::indent() + r3);
    lemma_indented_line(r3);
    assert(!starts_block(b[3])) by {
        if starts_with_at(r3, host_sp(), 0) {
            assert(r3[0] == host_sp()[0]);
        }
    }
    let r4 = seq!['P', 'o', 'r', 't', ' '] + dec_str(port as nat);
    assert(b[4] =~= crate::grammar::indent() + r4);
    lemma_indented_line(r4);
    assert(!starts_block(b[4])) by {
        if starts_with_at(r4, host_sp(), 0) {
            assert(r4[0] == host_sp()[0]);
        }
    }
    if wf_name(name) {
        lemma_match_gives_name(b[1], name);
    }
}

/// A well-formed name that is not listed matches no line at all.
proof fn lemma_not_named_no_decl(lines: Seq<Seq<char>>, name: Seq<char>)
    requires
        wf_name(name),
        !names_of(lines).contains(name),
    ensures
        forall|j: int| 0 <= j < lines.len() ==> !is_decl_for(#[trigger] lines[j], name),
{
    lemma_names_prefix_contains(lines, name, lines.len() as int);
    assert forall|j: int| 0 <= j < lines.len() implies !is_decl_for(
        #[trigger] lines[j],
        name,
    ) by {
        if is_decl_for(lines[j], name) {
            lemma_match_gives_name(lines[j], name);
        }
    }
}

pub(crate) proof fn lemma_first_decl_is(all: Seq<Seq<char>>, name: Seq<char>, p: int)
    requires
        0 <= p < all.len(),
        forall|j: int| 0 <= j < p ==> !is_decl_for(#[trigger] all[j], name),
        is_decl_for(all[p], name),
    ensures
        first_decl_from(all, name, 0) == p,
{
    lemma_first_decl_from(all, name, 0);
    let f = first_decl_from(all, name, 0);
    if f < p {
        assert(is_decl_for(all[f], name));
    }
    if f > p {
        assert(!is_decl_for(all[p], name));
    }
}

proof fn lemma_next_block_is_end(all: Seq<Seq<char>>, i: int)
    requires
        0 <= i <= all.len(),
        forall|j: int| i <= j < all.len() ==> !starts_block(#[trigger] all[j]),
    ensures
        next_block_start(all, i) == all.len(),
{
    lemma_next_block_start(all, i);
}

/// Shape of a search through `lines + b` when nothing in `lines`
/// matches: the declaration sits at `lines.len() + 1` and nothing after
/// it opens a block, so excising reaches to the end.
proof fn lemma_remove_append_shape(lines: Seq<Seq<char>>, b: Seq<Seq<char>>, name: Seq<char>)
    requires
        b.len() == 5,
        forall|j: int| 0 <= j < lines.len() ==> !is_decl_for(#[trigger] lines[j], name),
        !is_decl_for(b[0], name),
        is_decl_for(b[1], name),
        !starts_block(b[2]),
        !starts_block(b[3]),
        !starts_block(b[4]),
    ensures
        has_decl(lines + b, name),
        remove_first_block(lines + b, name) == lines.push(b[0]),
{
    let all = lines + b;
    let n = lines.len() as int;
    assert forall|j: int| 0 <= j < n + 1 implies !is_decl_for(#[trigger] all[j], name) by {
        if j < n {
            assert(all[j] == lines[j]);
        } else {
            assert(all[j] == b[0]);
        }
    }
    assert(all[n + 1] == b[1]);
    lemma_first_decl_is(all, name, n + 1);
    assert(has_decl(all, name));
    assert forall|j: int| n + 2 <= j < all.len() implies !starts_block(#[trigger] all[j]) by {
        assert(all[j] == b[j - n]);
    }
    lemma_next_block_is_end(all, n + 2);
    assert(remove_first_block(all, name) =~= lines.push(b[0]));
}

/// Counting declarations for `name` in `lines + b` when `lines` has
/// none and only the second line of `b` carries the name.
proof fn lemma_count_append_one(lines: Seq<Seq<char>>, b: Seq<Seq<char>>, name: Seq<char>)
    requires
        b.len() == 5,
        forall|i: int|
            0 <= i < lines.len() ==> !(is_decl(#[trigger] lines[i]) && name_of(lines[i]) == name),
        !is_decl(b[0]),
        is_decl(b[1]),
        name_of(b[1]) == name,
        !is_decl(b[2]),
        !is_decl(b[3]),
        !is_decl(b[4]),
    ensures
        names_of(lines + b).contains(name),
        count_named(lines + b, name, lines.len() + 5 as int) == 1,
{
    let all = lines + b;
    let n = lines.len() as int;
    assert(all[n + 1] == b[1]);
    lemma_names_prefix_contains(all, name, all.len() as int);
    assert(names_of(all).contains(name)) by {
        assert(is_decl(all[n + 1]) && name_of(all[n + 1]) == name);
    }
    assert forall|i: int| 0 <= i < n implies !(is_decl(#[trigger] all[i]) && name_of(all[i])
        == name) by {
        assert(all[i] == lines[i]);
    }
    lemma_count_zero(all, name, n);
    assert(all[n] == b[0] && all[n + 2] == b[2] && all[n + 3] == b[3] && all[n + 4] == b[4]);
    assert(count_named(all, name, n + 1) == 0);
    assert(count_named(all, name, n + 2) == 1);
    assert(count_named(all, name, n + 3) == 1);
    assert(count_named(all, name, n + 4) == 1);
    assert(count_named(all, name, n + 5) == 1);
}

/// Adding a connection and then removing it again.
///
/// For a well-formed name that is not yet listed, removing right after
/// adding takes back the whole added block: only the blank line that
/// `add_connection` writes before a new block remains at the end of the
/// document, and everything before it is untouched.
pub proof fn lemma_add_remove_inverse(
    lines: Seq<Seq<char>>,
    name: Seq<char>,
    host: Seq<char>,
    user: Seq<char>,
    port: u16,
)
    requires
        wf_name(name),
        !names_of(lines).contains(name),
    ensures
        has_decl(lines + added_block(name, host, user, port), name),
        remove_first_block(lines + added_block(name, host, user, port), name) == lines.push(
            Seq::<char>::empty(),
        ),
{
    let b = added_block(name, host, user, port);
    lemma_added_block_lines(name, host, user, port);
    lemma_not_named_no_decl(lines, name);
    lemma_remove_append_shape(lines, b, name);
    assert(b[0] =~= Seq::<char>::empty());
}

/// Duplicate rejection.
///
/// After one successful addition of a well-formed name, that name is
/// listed — so by the contract of `add_connection` a second identical
/// call reports `DuplicateName` and changes nothing — and the document
/// holds exactly one declaration line carrying the name.
pub proof fn lemma_duplicate_rejection(
    lines: Seq<Seq<char>>,
    name: Seq<char>,
    host: Seq<char>,
    user: Seq<char>,
    port: u16,
)
    requires
        wf_name(name),
        !names_of(lines).contains(name),
    ensures
        names_of(lines + added_block(name, host, user, port)).contains(name),
        count_named(
            lines + added_block(name, host, user, port),
            name,
            (lines.len() + 5) as int,
        ) == 1,
{
    let b = added_block(name, host, user, port);
    lemma_added_block_lines(name, host, user, port);
    lemma_names_prefix_contains(lines, name, lines.len() as int);
    assert forall|i: int| 0 <= i < lines.len() implies !(is_decl(#[trigger] lines[i])
        && name_of(lines[i]) == name) by {
        if is_decl(lines[i]) && name_of(lines[i]) == name {
            assert(names_prefix(lines, lines.len() as int).contains(name));
        }
    }
    lemma_count_append_one(lines, b, name);
}

/// Block isolation.
///
/// Excising the block for `name` keeps every line outside the excised
/// span byte-identical: lines before the declaration stay at their
/// index, lines from the next block start on shift down as one piece.
pub proof fn lemma_remove_preserves_others(lines: Seq<Seq<char>>, name: Seq<char>)
    requires
        has_decl(lines, name),
    ensures
        ({
            let i = first_decl_from(lines, name, 0);
            let j = next_block_start(lines, i + 1);
            let rest = remove_first_block(lines, name);
            &&& 0 <= i < j <= lines.len()
            &&& rest.len() == lines.len() - (j - i)
            &&& forall|k: int| 0 <= k < i ==> rest[k] == lines[k]
            &&& forall|k: int| j <= k < lines.len() ==> rest[k - (j - i)] == lines[k]
        }),
{
    lemma_has_decl_first(lines, name);
    let i = first_decl_from(lines, name, 0);
    lemma_first_decl_from(lines, name, 0);
    lemma_next_block_start(lines, i + 1);
}

/// The declared host names of a raw configuration text.
pub fn get_connections(text: &str) -> (r: Vec<String>)
    ensures
        strings_view(r@) == names_of(crate::text::split_lines(text@)),
{
    let doc = SSHConfig::from_text(text);
    doc.list_connections()
}

} // verus!
