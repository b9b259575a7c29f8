//! The managed region: a sub-section of the file bounded by two sentinel
//! comment lines, holding auto-generated wildcard host groups.  Each
//! group is introduced by a `# Group: <name>` header; a new entry for an
//! existing group name is merged under that header instead of opening a
//! second one.

use vstd::prelude::*;
use vstd::string::*;
use crate::document::SSHConfig;
use crate::grammar::{
    agent_yes_line, host_line, identity_line, is_blank, lemma_template_literals, line_is_blank,
};
use crate::identity::{make_agent_line, make_identity_line};
use crate::text::{
    end_trim, first_non_space, is_space, lemma_end_trim, lemma_first_non_space, lines_wf, no_nl,
    starts_with_at, str_eq, str_starts_with_at, strings_view, substr_copy, skip_spaces,
    trim_end_pos,
};

verus! {

/// The parsed managed region: group names with their entry lines, in
/// the order the groups were first seen.
pub type Groups = Seq<(Seq<char>, Seq<Seq<char>>)>;

/// The sentinel line that opens the managed region.
pub open spec fn start_marker() -> Seq<char> {
    "# --- velo managed keys ---"@
}

/// The sentinel line that closes the managed region.
pub open spec fn end_marker() -> Seq<char> {
    "# --- end velo managed keys ---"@
}

/// The comment prefix that introduces a group.
pub open spec fn group_prefix() -> Seq<char> {
    "# Group: "@
}

/// A line introducing a group inside the managed region.
pub open spec fn is_group_header(line: Seq<char>) -> bool {
    starts_with_at(line, group_prefix(), 0)
}

/// The group name carried by a header line: the remainder after the
/// prefix, trimmed on both sides.
pub open spec fn group_name_of(line: Seq<char>) -> Seq<char> {
    let a = first_non_space(line, group_prefix().len() as int);
    let b = end_trim(line, line.len() as int);
    if a < b {
        line.subrange(a, b)
    } else {
        Seq::empty()
    }
}

/// The header line written for a group.
#[verifier::opaque]
pub open spec fn header_line(name: Seq<char>) -> Seq<char> {
    group_prefix() + name
}

/// The wildcard host pattern for a group code: `<code>-*`.
pub open spec fn wild_name(code: Seq<char>) -> Seq<char> {
    code + seq!['-', '*']
}

/// The three lines of one generated entry: a wildcard `Host` line, the
/// identity directive, and the agent directive.
pub open spec fn entry_lines(code: Seq<char>, key: Seq<char>) -> Seq<Seq<char>> {
    seq![host_line(wild_name(code)), identity_line(key), agent_yes_line()]
}

/// Some group in `gs` carries `name`.
pub open spec fn has_group(gs: Groups, name: Seq<char>) -> bool {
    exists|t: int| 0 <= t < gs.len() && (#[trigger] gs[t]).0 == name
}

/// Index of the first group carrying `name`, or `gs.len()` if none.
pub open spec fn group_idx(gs: Groups, name: Seq<char>) -> int
    decreases gs.len(),
{
    if gs.len() == 0 {
        0
    } else if gs.first().0 == name {
        0
    } else {
        1 + group_idx(gs.drop_first(), name)
    }
}

pub proof fn lemma_group_idx(gs: Groups, name: Seq<char>)
    ensures
        0 <= group_idx(gs, name) <= gs.len(),
        forall|t: int| 0 <= t < group_idx(gs, name) ==> (#[trigger] gs[t]).0 != name,
        group_idx(gs, name) < gs.len() ==> gs[group_idx(gs, name)].0 == name,
        has_group(gs, name) <==> group_idx(gs, name) < gs.len(),
    decreases gs.len(),
{
    if gs.len() > 0 && gs.first().0 != name {
        lemma_group_idx(gs.drop_first(), name);
        let rest = gs.drop_first();
        assert(forall|t: int| 0 <= t < rest.len() ==> rest[t] == #[trigger] gs[t + 1]);
        assert forall|t: int| 0 <= t < group_idx(gs, name) implies (#[trigger] gs[t]).0
            != name by {
            if t >= 1 {
                assert(gs[t] == rest[t - 1]);
            }
        }
        if has_group(gs, name) {
            let t = choose|t: int| 0 <= t < gs.len() && (#[trigger] gs[t]).0 == name;
            assert(rest[t - 1].0 == name);
            assert(has_group(rest, name));
        }
        if has_group(rest, name) {
            let t = choose|t: int| 0 <= t < rest.len() && (#[trigger] rest[t]).0 == name;
            assert(gs[t + 1].0 == name);
        }
    }
}

/// Record a fresh group name, if it is not present yet.
pub open spec fn add_group(gs: Groups, name: Seq<char>) -> Groups {
    if has_group(gs, name) {
        gs
    } else {
        gs.push((name, Seq::empty()))
    }
}

/// Append entry lines to the first group carrying `name`, or open a new
/// group at the end.
pub open spec fn add_entry(gs: Groups, name: Seq<char>, ls: Seq<Seq<char>>) -> Groups {
    if has_group(gs, name) {
        let t = group_idx(gs, name);
        gs.update(t, (name, gs[t].1 + ls))
    } else {
        gs.push((name, ls))
    }
}

/// One step of the region parse: the position, the name of the group
/// whose entries are being collected, and the groups seen so far.
pub open spec fn parse_state(
    region: Seq<Seq<char>>,
    i: int,
    cur: Option<Seq<char>>,
    acc: Groups,
) -> (Option<Seq<char>>, Groups)
    decreases region.len() - i when 0 <= i <= region.len()
{
    if i >= region.len() {
        (cur, acc)
    } else if is_group_header(region[i]) {
        let nm = group_name_of(region[i]);
        parse_state(region, i + 1, Some(nm), add_group(acc, nm))
    } else if is_blank(region[i]) {
        parse_state(region, i + 1, cur, acc)
    } else {
        match cur {
            None => parse_state(region, i + 1, cur, acc),
            Some(nm) => parse_state(region, i + 1, cur, add_entry(acc, nm, seq![region[i]])),
        }
    }
}

/// The groups of a region: headers open groups, non-blank lines after a
/// header are its entries, lines before any header are dropped.
pub open spec fn parse_groups(region: Seq<Seq<char>>) -> Groups {
    parse_state(region, 0, None::<Seq<char>>, Seq::empty()).1
}

/// The deterministic text of the region: for each group its header, its
/// entries, and one separating blank line.
pub open spec fn render_groups(gs: Groups) -> Seq<Seq<char>>
    decreases gs.len(),
{
    if gs.len() == 0 {
        Seq::empty()
    } else {
        seq![header_line(gs.first().0)] + gs.first().1 + seq![Seq::<char>::empty()]
            + render_groups(gs.drop_first())
    }
}

/// Index of the first line at or after `i` equal to `target`, or
/// `lines.len()` if there is none.
pub open spec fn first_eq_from(lines: Seq<Seq<char>>, target: Seq<char>, i: int) -> int
    decreases lines.len() - i when 0 <= i <= lines.len()
{
    if i >= lines.len() {
        i
    } else if lines[i] == target {
        i
    } else {
        first_eq_from(lines, target, i + 1)
    }
}

pub proof fn lemma_first_eq_from(lines: Seq<Seq<char>>, target: Seq<char>, i: int)
    requires
        0 <= i <= lines.len(),
    ensures
        i <= first_eq_from(lines, target, i) <= lines.len(),
        forall|j: int| i <= j < first_eq_from(lines, target, i) ==> #[trigger] lines[j] != target,
        first_eq_from(lines, target, i) < lines.len() ==> lines[first_eq_from(lines, target, i)]
            == target,
    decreases lines.len() - i,
{
    if i < lines.len() && lines[i] != target {
        lemma_first_eq_from(lines, target, i + 1);
    }
}

/// The managed region of the document: the first start marker and the
/// first end marker after it, if both exist.
pub open spec fn marker_pair(lines: Seq<Seq<char>>) -> Option<(int, int)> {
    let s = first_eq_from(lines, start_marker(), 0);
    if s < lines.len() {
        let e = first_eq_from(lines, end_marker(), s + 1);
        if e < lines.len() {
            Some((s, e))
        } else {
            None
        }
    } else {
        None
    }
}

/// The parsed groups of the document's managed region; no recognized
/// region parses as no groups.
pub open spec fn region_groups(lines: Seq<Seq<char>>) -> Groups {
    match marker_pair(lines) {
        Some((s, e)) => parse_groups(lines.subrange(s + 1, e)),
        None => Seq::empty(),
    }
}

/// The full document after a group upsert: markers are appended first
/// when no region is recognized; the region is then re-rendered with
/// the entry merged into its group.
pub open spec fn upsert_group_spec(
    lines: Seq<Seq<char>>,
    code: Seq<char>,
    gname: Seq<char>,
    key: Seq<char>,
) -> Seq<Seq<char>> {
    let lines1 = match marker_pair(lines) {
        Some(_) => lines,
        None => lines + seq![start_marker(), end_marker()],
    };
    match marker_pair(lines1) {
        Some((s, e)) => {
            let gs = parse_groups(lines1.subrange(s + 1, e));
            let gs2 = add_entry(gs, gname, entry_lines(code, key));
            lines1.subrange(0, s + 1) + render_groups(gs2) + lines1.subrange(
                e,
                lines1.len() as int,
            )
        },
        None => lines1,
    }
}

/// One parsed group while the region is being rebuilt.
struct Group {
    name: String,
    entries: Vec<String>,
}

spec fn group_view(g: Group) -> (Seq<char>, Seq<Seq<char>>) {
    (g.name@, strings_view(g.entries@))
}

spec fn groups_view(v: Seq<Group>) -> Groups {
    Seq::new(v.len(), |i: int| group_view(v[i]))
}

/// Whether the line is a `# Group: ` header.
fn line_is_header(line: &str) -> (b: bool)
    ensures
        b == is_group_header(line@),
{
    str_starts_with_at(line, "# Group: ", 0)
}

/// The trimmed group name of a header line.
fn line_group_name(line: &str) -> (r: String)
    requires
        is_group_header(line@),
    ensures
        r@ == group_name_of(line@),
{
    proof {
        reveal_strlit("# Group: ");
    }
    let n = line.unicode_len();
    let a = skip_spaces(line, 9);
    let b = trim_end_pos(line, n);
    if a < b {
        substr_copy(line, a, b)
    } else {
        String::new()
    }
}

/// Index of the first group named `name`, if any.
fn find_group(acc: &Vec<Group>, name: &str) -> (r: Option<usize>)
    ensures
        match r {
            Some(ix) => {
                &&& ix as int == group_idx(groups_view(acc@), name@)
                &&& (ix as int) < acc@.len()
                &&& groups_view(acc@)[ix as int].0 == name@
            },
            None => !has_group(groups_view(acc@), name@),
        },
{
    let ghost gv = groups_view(acc@);
    let mut k: usize = 0;
    while k < acc.len()
        invariant
            k <= acc@.len(),
            gv == groups_view(acc@),
            forall|t: int| 0 <= t < k ==> (#[trigger] gv[t]).0 != name@,
        decreases acc@.len() - k,
    {
        let g = &acc[k];
        if str_eq(g.name.as_str(), name) {
            proof {
                lemma_group_idx(gv, name@);
                assert(gv[k as int].0 == name@);
                if group_idx(gv, name@) < k as int {
                    assert(gv[group_idx(gv, name@)].0 == name@);
                }
            }
            return Some(k);
        }
        k += 1;
    }
    proof {
        if has_group(gv, name@) {
            let t = choose|t: int| 0 <= t < gv.len() && (#[trigger] gv[t]).0 == name@;
        }
    }
    None
}

/// Parse the lines between the markers into groups.
fn parse_region(region: &Vec<String>) -> (gs: Vec<Group>)
    ensures
        groups_view(gs@) == parse_groups(strings_view(region@)),
{
    let ghost rv = strings_view(region@);
    let mut acc: Vec<Group> = Vec::new();
    let mut cur: Option<usize> = None;
    let ghost mut cur_spec = None::<Seq<char>>;
    let mut i: usize = 0;
    proof {
        assert(groups_view(acc@) =~= Seq::<(Seq<char>, Seq<Seq<char>>)>::empty());
    }
    while i < region.len()
        invariant
            i <= region@.len(),
            rv == strings_view(region@),
            rv.len() == region@.len(),
            parse_state(rv, i as int, cur_spec, groups_view(acc@)) == parse_state(
                rv,
                0,
                None::<Seq<char>>,
                Seq::empty(),
            ),
            match cur {
                Some(ix) => {
                    &&& (ix as int) < acc@.len()
                    &&& cur_spec == Some(groups_view(acc@)[ix as int].0)
                    &&& group_idx(groups_view(acc@), groups_view(acc@)[ix as int].0) == ix as int
                },
                None => cur_spec is None,
            },
            forall|t1: int, t2: int|
                0 <= t1 < t2 < acc@.len() ==> (#[trigger] groups_view(acc@)[t1]).0 != (
                #[trigger] groups_view(acc@)[t2]).0,
        decreases region@.len() - i,
    {
        let ghost pre = groups_view(acc@);
        let line = &region[i];
        proof {
            assert(rv[i as int] == line@);
        }
        if line_is_header(line.as_str()) {
            let nm = line_group_name(line.as_str());
            let found = find_group(&acc, nm.as_str());
            match found {
                Some(ix) => {
                    cur = Some(ix);
                    proof {
                        cur_spec = Some(nm@);
                        assert(add_group(pre, nm@) == pre);
                    }
                },
                None => {
                    let ix = acc.len();
                    acc.push(Group { name: nm, entries: Vec::new() });
                    cur = Some(ix);
                    proof {
                        cur_spec = Some(groups_view(acc@)[ix as int].0);
                        assert(groups_view(acc@) =~~= add_group(pre, groups_view(acc@)[ix as int].0));
                        lemma_group_idx(pre, groups_view(acc@)[ix as int].0);
                        lemma_group_idx(groups_view(acc@), groups_view(acc@)[ix as int].0);
                        assert forall|t1: int, t2: int|
                            0 <= t1 < t2 < acc@.len() implies (#[trigger] groups_view(acc@)[t1]).0
                            != (#[trigger] groups_view(acc@)[t2]).0 by {
                            if t2 < pre.len() {
                                assert(pre[t1].0 != pre[t2].0);
                            } else {
                                assert(groups_view(acc@)[t1] == pre[t1]);
                                if groups_view(acc@)[t1].0 == groups_view(acc@)[t2].0 {
                                    assert(has_group(pre, groups_view(acc@)[t2].0));
                                }
                            }
                        }
                    }
                },
            }
        } else if line_is_blank(line.as_str()) {
        } else {
            match cur {
                None => {},
                Some(ix) => {
                    let mut g = acc.remove(ix);
                    g.entries.push(line.clone());
                    acc.insert(ix, g);
                    proof {
                        let nm = pre[ix as int].0;
                        lemma_group_idx(pre, nm);
                        assert(has_group(pre, nm));
                        assert(groups_view(acc@) =~~= pre.update(
                            ix as int,
                            (nm, pre[ix as int].1 + seq![rv[i as int]]),
                        ));
                        assert(groups_view(acc@) == add_entry(pre, nm, seq![rv[i as int]]));
                        assert(groups_view(acc@)[ix as int].0 == nm);
                        lemma_group_idx(groups_view(acc@), nm);
                        assert forall|t1: int, t2: int|
                            0 <= t1 < t2 < acc@.len() implies (#[trigger] groups_view(acc@)[t1]).0
                            != (#[trigger] groups_view(acc@)[t2]).0 by {
                            assert(groups_view(acc@)[t1].0 == pre[t1].0);
                            assert(groups_view(acc@)[t2].0 == pre[t2].0);
                        }
                        if group_idx(groups_view(acc@), nm) != ix as int {
                            let t0 = group_idx(groups_view(acc@), nm);
                            assert(groups_view(acc@)[t0].0 == pre[t0].0);
                        }
                    }
                },
            }
        }
        i += 1;
    }
    acc
}

/// The string `# Group: <name>`.
fn make_header_line(name: &str) -> (r: String)
    ensures
        r@ == header_line(name@),
{
    let mut l = String::new();
    l.append("# Group: ");
    l.append(name);
    proof {
        reveal(header_line);
        assert(l@ =~= header_line(name@));
    }
    l
}

/// The string `Host <code>-*`.
fn make_wild_host_line(code: &str) -> (r: String)
    ensures
        r@ == host_line(wild_name(code@)),
{
    let mut l = String::new();
    l.append("Host ");
    l.append(code);
    l.append("-*");
    proof {
        lemma_template_literals();
        reveal_strlit("-*");
        assert(l@ =~= host_line(wild_name(code@)));
    }
    l
}

/// Render the groups back into region lines.
fn render_region(gs: &Vec<Group>) -> (out: Vec<String>)
    ensures
        strings_view(out@) == render_groups(groups_view(gs@)),
{
    let ghost gv = groups_view(gs@);
    let mut out: Vec<String> = Vec::new();
    let mut t: usize = 0;
    proof {
        assert(gv.skip(0) =~= gv);
        assert(strings_view(out@) + render_groups(gv) =~= render_groups(gv));
    }
    while t < gs.len()
        invariant
            t <= gs@.len(),
            gv == groups_view(gs@),
            gv.len() == gs@.len(),
            strings_view(out@) + render_groups(gv.skip(t as int)) == render_groups(gv),
        decreases gs@.len() - t,
    {
        let ghost pre = strings_view(out@);
        let ghost seg = gv.skip(t as int);
        proof {
            assert(seg.first() == gv[t as int]);
            assert(seg.drop_first() =~= gv.skip(t as int + 1));
        }
        let g = &gs[t];
        proof {
            assert(gv[t as int].0 == g.name@);
            assert(gv[t as int].1 == strings_view(g.entries@));
        }
        out.push(make_header_line(g.name.as_str()));
        proof {
            assert(strings_view(out@) =~= pre.push(header_line(gv[t as int].0)));
        }
        let ghost hdr = pre.push(header_line(gv[t as int].0));
        let mut q: usize = 0;
        while q < g.entries.len()
            invariant
                q <= g.entries@.len(),
                gv[t as int].1 == strings_view(g.entries@),
                strings_view(out@) == hdr + strings_view(g.entries@).subrange(0, q as int),
            decreases g.entries@.len() - q,
        {
            let ghost pre2 = strings_view(out@);
            let line = &g.entries[q];
            out.push(line.clone());
            proof {
                assert(strings_view(out@) =~= pre2.push(strings_view(g.entries@)[q as int]));
                assert(strings_view(out@) =~= hdr + strings_view(g.entries@).subrange(
                    0,
                    q as int + 1,
                ));
            }
            q += 1;
        }
        let ghost pre3 = strings_view(out@);
        out.push(String::new());
        proof {
            assert(strings_view(out@) =~= pre3.push(Seq::<char>::empty()));
            assert(strings_view(g.entries@).subrange(0, g.entries@.len() as int) =~= gv[
                t as int].1);
            assert(strings_view(out@) =~= pre + (seq![header_line(seg.first().0)] + seg.first().1
                + seq![Seq::<char>::empty()]));
            assert(render_groups(seg) == seq![header_line(seg.first().0)] + seg.first().1 + seq![
                Seq::<char>::empty(),
            ] + render_groups(seg.drop_first()));
            assert(strings_view(out@) + render_groups(gv.skip(t as int + 1)) =~= pre
                + render_groups(seg));
        }
        t += 1;
    }
    proof {
        assert(gv.skip(gv.len() as int) =~= Seq::<(Seq<char>, Seq<Seq<char>>)>::empty());
        assert(strings_view(out@) =~= render_groups(gv));
    }
    out
}

impl SSHConfig {
    /// Index of the first line at or after `from` equal to `target`.
    fn find_line_eq(&self, target: &str, from: usize) -> (r: usize)
        requires
            from <= self@.len(),
        ensures
            r as int == first_eq_from(self@, target@, from as int),
            from <= r <= self@.len(),
    {
        let n = self.len();
        let mut k: usize = from;
        while k < n
            invariant
                from <= k <= n,
                n == self@.len(),
                first_eq_from(self@, target@, from as int) == first_eq_from(
                    self@,
                    target@,
                    k as int,
                ),
            decreases n - k,
        {
            let line = self.line_at(k);
            if str_eq(line.as_str(), target) {
                proof {
                    lemma_first_eq_from(self@, target@, from as int);
                }
                return k;
            }
            k += 1;
        }
        proof {
            lemma_first_eq_from(self@, target@, from as int);
        }
        n
    }

    /// Merge one generated entry for `gname` into the managed region.
    ///
    /// When no region is recognized — no start marker, or no end marker
    /// after the first start marker — a fresh marker pair is appended
    /// first.  The region then reaches from the first start marker to
    /// the first end marker after it, so everything after a lone start
    /// marker counts as region content.  The region is parsed into
    /// groups, the entry is appended under the existing
    /// `# Group: <gname>` header or under a new one, and the region is
    /// rewritten in the order the groups were first seen.
    pub fn upsert_group_entry(&mut self, code: &str, gname: &str, key: &str)
        requires
            old(self).wf(),
            no_nl(code@),
            no_nl(gname@),
            no_nl(key@),
        ensures
            final(self)@ == upsert_group_spec(old(self)@, code@, gname@, key@),
            final(self).wf(),
    {
        let ghost lines0 = self@;
        let n0 = self.len();
        let s0 = self.find_line_eq("# --- velo managed keys ---", 0);
        let mut have = false;
        if s0 < n0 {
            let e0 = self.find_line_eq("# --- end velo managed keys ---", s0 + 1);
            if e0 < n0 {
                have = true;
            }
        }
        if !have {
            let mut m1 = String::new();
            m1.append("# --- velo managed keys ---");
            self.push_line(m1);
            let mut m2 = String::new();
            m2.append("# --- end velo managed keys ---");
            self.push_line(m2);
            proof {
                assert(self@ =~= lines0 + seq![start_marker(), end_marker()]);
                assert(marker_pair(lines0) is None);
            }
        } else {
            proof {
                assert(marker_pair(lines0) is Some);
            }
        }
        let ghost lines1 = self@;
        let n1 = self.len();
        let s = self.find_line_eq("# --- velo managed keys ---", 0);
        proof {
            lemma_first_eq_from(lines1, start_marker(), 0);
            if !have {
                assert(lines1[n0 as int] == start_marker());
            }
            assert((s as int) < lines1.len());
        }
        let e = self.find_line_eq("# --- end velo managed keys ---", s + 1);
        proof {
            lemma_first_eq_from(lines1, end_marker(), s as int + 1);
            if !have {
                assert(lines1[n0 as int + 1] == end_marker());
                assert(lines1[s as int] == start_marker());
                reveal_strlit("# --- velo managed keys ---");
                reveal_strlit("# --- end velo managed keys ---");
                assert(start_marker() != end_marker()) by {
                    assert(start_marker()[2] == '-');
                }
                assert(s as int <= n0 as int);
            }
            assert((e as int) < lines1.len());
            assert(marker_pair(lines1) == Some((s as int, e as int)));
        }
        let mut region: Vec<String> = Vec::new();
        let mut p: usize = s + 1;
        while p < e
            invariant
                s as int + 1 <= p as int <= e as int,
                (e as int) < self@.len(),
                self@ == lines1,
                strings_view(region@) == lines1.subrange(s as int + 1, p as int),
            decreases e - p,
        {
            let ghost pre = strings_view(region@);
            let line = self.line_at(p);
            region.push(line.clone());
            proof {
                assert(strings_view(region@) =~= pre.push(lines1[p as int]));
                assert(strings_view(region@) =~= lines1.subrange(s as int + 1, p as int + 1));
            }
            p += 1;
        }
        proof {
            assert(strings_view(region@) =~= lines1.subrange(s as int + 1, e as int));
        }
        let mut gs = parse_region(&region);
        let ghost gs0 = groups_view(gs@);
        let found = find_group(&gs, gname);
        match found {
            Some(ix) => {
                let mut g = gs.remove(ix);
                g.entries.push(make_wild_host_line(code));
                g.entries.push(make_identity_line(key));
                g.entries.push(make_agent_line());
                gs.insert(ix, g);
                proof {
                    assert(groups_view(gs@) =~~= gs0.update(
                        ix as int,
                        (gs0[ix as int].0, gs0[ix as int].1 + entry_lines(code@, key@)),
                    ));
                    assert(groups_view(gs@) == add_entry(gs0, gname@, entry_lines(code@, key@)));
                }
            },
            None => {
                let mut es: Vec<String> = Vec::new();
                es.push(make_wild_host_line(code));
                es.push(make_identity_line(key));
                es.push(make_agent_line());
                gs.push(Group { name: gname.to_owned(), entries: es });
                proof {
                    assert(groups_view(gs@) =~~= gs0.push((gname@, entry_lines(code@, key@))));
                    assert(groups_view(gs@) == add_entry(gs0, gname@, entry_lines(code@, key@)));
                }
            },
        }
        let rendered = render_region(&gs);
        let ghost target = lines1.subrange(0, s as int + 1) + render_groups(groups_view(gs@))
            + lines1.subrange(e as int, lines1.len() as int);
        let mut kept: Vec<String> = Vec::new();
        let sp1 = s + 1;
        let mut k: usize = 0;
        while k < sp1
            invariant
                sp1 as int == s as int + 1,
                k as int <= s as int + 1,
                (s as int) < self@.len(),
                self@ == lines1,
                strings_view(kept@) == lines1.subrange(0, k as int),
            decreases s + 1 - k,
        {
            let ghost pre = strings_view(kept@);
            let line = self.line_at(k);
            kept.push(line.clone());
            proof {
                assert(strings_view(kept@) =~= pre.push(lines1[k as int]));
                assert(strings_view(kept@) =~= lines1.subrange(0, k as int + 1));
            }
            k += 1;
        }
        let ghost rv = strings_view(rendered@);
        let mut q: usize = 0;
        while q < rendered.len()
            invariant
                q <= rendered@.len(),
                rv == strings_view(rendered@),
                (s as int) < lines1.len(),
                strings_view(kept@) == lines1.subrange(0, s as int + 1) + rv.subrange(0, q as int),
            decreases rendered@.len() - q,
        {
            let ghost pre = strings_view(kept@);
            let line = &rendered[q];
            kept.push(line.clone());
            proof {
                assert(strings_view(kept@) =~= pre.push(rv[q as int]));
                assert(strings_view(kept@) =~= lines1.subrange(0, s as int + 1) + rv.subrange(
                    0,
                    q as int + 1,
                ));
            }
            q += 1;
        }
        proof {
            assert(rv.subrange(0, rv.len() as int) =~= rv);
        }
        let n = self.len();
        let mut w: usize = e;
        while w < n
            invariant
                e as int <= w as int <= n as int,
                n == self@.len(),
                self@ == lines1,
                rv == render_groups(groups_view(gs@)),
                (s as int) < lines1.len(),
                s as int + 1 <= e as int,
                strings_view(kept@) == lines1.subrange(0, s as int + 1) + rv + lines1.subrange(
                    e as int,
                    w as int,
                ),
            decreases n - w,
        {
            let ghost pre = strings_view(kept@);
            let line = self.line_at(w);
            kept.push(line.clone());
            proof {
                assert(strings_view(kept@) =~= pre.push(lines1[w as int]));
                assert(lines1.subrange(0, s as int + 1) + rv + lines1.subrange(
                    e as int,
                    w as int + 1,
                ) =~= pre.push(lines1[w as int]));
            }
            w += 1;
        }
        self.set_lines(kept);
        proof {
            assert(self@ =~= target);
            assert(self@ == upsert_group_spec(lines0, code@, gname@, key@));
            lemma_upsert_group_wf(lines0, code@, gname@, key@);
        }
    }
}

/// Group names parsed from a region are free of line breaks, and so are
/// all entry lines, provided the region lines are.
proof fn lemma_parse_state_keeps_no_nl(
    region: Seq<Seq<char>>,
    i: int,
    cur: Option<Seq<char>>,
    acc: Groups,
)
    requires
        0 <= i <= region.len(),
        forall|p: int| 0 <= p < region.len() ==> no_nl(#[trigger] region[p]),
        forall|t: int|
            0 <= t < acc.len() ==> no_nl((#[trigger] acc[t]).0) && lines_wf(acc[t].1),
        match cur {
            Some(nm) => no_nl(nm),
            None => true,
        },
    ensures
        forall|t: int|
            0 <= t < parse_state(region, i, cur, acc).1.len() ==> no_nl(
                (#[trigger] parse_state(region, i, cur, acc).1[t]).0,
            ) && lines_wf(parse_state(region, i, cur, acc).1[t].1),
    decreases region.len() - i,
{
    if i < region.len() {
        let line = region[i];
        if is_group_header(line) {
            let nm = group_name_of(line);
            assert(no_nl(nm)) by {
                lemma_first_non_space(line, group_prefix().len() as int);
                lemma_end_trim(line, line.len() as int);
            }
            let acc2 = add_group(acc, nm);
            assert forall|t: int| 0 <= t < acc2.len() implies no_nl((#[trigger] acc2[t]).0)
                && lines_wf(acc2[t].1) by {
                if t < acc.len() {
                    assert(acc2[t] == acc[t]);
                }
            }
            lemma_parse_state_keeps_no_nl(region, i + 1, Some(nm), acc2);
            assert(parse_state(region, i, cur, acc) == parse_state(
                region,
                i + 1,
                Some(nm),
                acc2,
            ));
        } else if is_blank(line) {
            lemma_parse_state_keeps_no_nl(region, i + 1, cur, acc);
            assert(parse_state(region, i, cur, acc) == parse_state(region, i + 1, cur, acc));
        } else {
            match cur {
                None => {
                    lemma_parse_state_keeps_no_nl(region, i + 1, cur, acc);
                    assert(parse_state(region, i, cur, acc) == parse_state(
                        region,
                        i + 1,
                        cur,
                        acc,
                    ));
                },
                Some(nm) => {
                    let acc2 = add_entry(acc, nm, seq![line]);
                    assert forall|t: int| 0 <= t < acc2.len() implies no_nl(
                        (#[trigger] acc2[t]).0,
                    ) && lines_wf(acc2[t].1) by {
                        if has_group(acc, nm) {
                            let u = group_idx(acc, nm);
                            lemma_group_idx(acc, nm);
                            if t != u {
                                assert(acc2[t] == acc[t]);
                            } else {
                                assert(acc2[t].1 =~= acc[u].1 + seq![line]);
                                assert forall|w: int| 0 <= w < acc2[t].1.len() implies no_nl(
                                    #[trigger] acc2[t].1[w],
                                ) by {
                                    if w < acc[u].1.len() {
                                        assert(acc2[t].1[w] == acc[u].1[w]);
                                    } else {
                                        assert(acc2[t].1[w] == line);
                                    }
                                }
                            }
                        } else {
                            if t < acc.len() {
                                assert(acc2[t] == acc[t]);
                            } else {
                                let nm2 = match cur { Some(x) => x, None => Seq::empty() };
                                assert(no_nl(nm));
                            }
                        }
                    }
                    lemma_parse_state_keeps_no_nl(region, i + 1, cur, acc2);
                    assert(parse_state(region, i, cur, acc) == parse_state(
                        region,
                        i + 1,
                        cur,
                        acc2,
                    ));
                },
            }
        }
    }
}

/// Rendered region lines are free of line breaks when the groups are.
proof fn lemma_render_no_nl(gs: Groups)
    requires
        forall|t: int| 0 <= t < gs.len() ==> no_nl((#[trigger] gs[t]).0) && lines_wf(gs[t].1),
    ensures
        lines_wf(render_groups(gs)),
    decreases gs.len(),
{
    if gs.len() > 0 {
        let rest = gs.drop_first();
        assert(forall|t: int| 0 <= t < rest.len() ==> rest[t] == #[trigger] gs[t + 1]);
        lemma_render_no_nl(rest);
        let o = render_groups(gs);
        assert(no_nl(header_line(gs.first().0))) by {
            reveal(header_line);
            reveal_strlit("# Group: ");
            assert(no_nl(group_prefix()));
        }
        assert forall|p: int| 0 <= p < o.len() implies no_nl(#[trigger] o[p]) by {
            if p == 0 {
                assert(o[p] == header_line(gs.first().0));
            } else if p < 1 + gs.first().1.len() {
                assert(o[p] == gs.first().1[p - 1]);
                assert(no_nl(gs[0].1[p - 1]));
            } else if p == 1 + gs.first().1.len() {
                assert(o[p] == Seq::<char>::empty());
            } else {
                assert(o[p] == render_groups(rest)[p - (2 + gs.first().1.len())]);
            }
        }
    }
}

/// The three entry lines carry no line break.
proof fn lemma_entry_lines_wf(code: Seq<char>, key: Seq<char>)
    requires
        no_nl(code),
        no_nl(key),
    ensures
        lines_wf(entry_lines(code, key)),
{
    crate::identity::lemma_upsert_template_lines(key, Seq::empty());
    assert(no_nl(host_line(wild_name(code))));
    let el = entry_lines(code, key);
    assert forall|p: int| 0 <= p < el.len() implies no_nl(#[trigger] el[p]) by {
        if p == 0 {
            assert(el[p] == host_line(wild_name(code)));
        } else if p == 1 {
            assert(el[p] == identity_line(key));
        } else {
            assert(el[p] == agent_yes_line());
        }
    }
}

/// Merging an entry keeps the groups free of line breaks.
proof fn lemma_add_entry_wf(gs: Groups, gname: Seq<char>, ls: Seq<Seq<char>>)
    requires
        forall|t: int| 0 <= t < gs.len() ==> no_nl((#[trigger] gs[t]).0) && lines_wf(gs[t].1),
        no_nl(gname),
        lines_wf(ls),
    ensures
        ({
            let gs2 = add_entry(gs, gname, ls);
            forall|t: int| 0 <= t < gs2.len() ==> no_nl((#[trigger] gs2[t]).0) && lines_wf(
                gs2[t].1,
            )
        }),
{
    let gs2 = add_entry(gs, gname, ls);
    assert forall|t: int| 0 <= t < gs2.len() implies no_nl((#[trigger] gs2[t]).0) && lines_wf(
        gs2[t].1,
    ) by {
        if has_group(gs, gname) {
            let u = group_idx(gs, gname);
            lemma_group_idx(gs, gname);
            if t != u {
                assert(gs2[t] == gs[t]);
            } else {
                assert forall|w: int| 0 <= w < gs2[t].1.len() implies no_nl(
                    #[trigger] gs2[t].1[w],
                ) by {
                    if w < gs[u].1.len() {
                        assert(gs2[t].1[w] == gs[u].1[w]);
                    } else {
                        assert(gs2[t].1[w] == ls[w - gs[u].1.len()]);
                    }
                }
            }
        } else {
            if t < gs.len() {
                assert(gs2[t] == gs[t]);
            }
        }
    }
}

/// A group upsert preserves the document invariant: no line of the
/// result contains a line break.
proof fn lemma_upsert_group_wf(
    lines: Seq<Seq<char>>,
    code: Seq<char>,
    gname: Seq<char>,
    key: Seq<char>,
)
    requires
        lines_wf(lines),
        no_nl(code),
        no_nl(gname),
        no_nl(key),
    ensures
        lines_wf(upsert_group_spec(lines, code, gname, key)),
{
    let lines1 = match marker_pair(lines) {
        Some(_) => lines,
        None => lines + seq![start_marker(), end_marker()],
    };
    assert(no_nl(start_marker())) by {
        reveal_strlit("# --- velo managed keys ---");
    }
    assert(no_nl(end_marker())) by {
        reveal_strlit("# --- end velo managed keys ---");
    }
    assert forall|p: int| 0 <= p < lines1.len() implies no_nl(#[trigger] lines1[p]) by {
        if p < lines.len() {
            assert(lines1[p] == lines[p]);
        }
    }
    match marker_pair(lines1) {
        Some((s, e)) => {
            lemma_first_eq_from(lines1, start_marker(), 0);
            lemma_first_eq_from(
                lines1,
                end_marker(),
                first_eq_from(lines1, start_marker(), 0) + 1,
            );
            let region = lines1.subrange(s + 1, e);
            assert(forall|p: int| 0 <= p < region.len() ==> no_nl(#[trigger] region[p]));
            lemma_parse_state_keeps_no_nl(region, 0, None::<Seq<char>>, Seq::empty());
            let gs = parse_groups(region);
            let gs2 = add_entry(gs, gname, entry_lines(code, key));
            lemma_entry_lines_wf(code, key);
            lemma_add_entry_wf(gs, gname, entry_lines(code, key));
            lemma_render_no_nl(gs2);
            let o = upsert_group_spec(lines, code, gname, key);
            assert forall|p: int| 0 <= p < o.len() implies no_nl(#[trigger] o[p]) by {
                if p <= s {
                    assert(o[p] == lines1[p]);
                } else if p < s + 1 + render_groups(gs2).len() {
                    assert(o[p] == render_groups(gs2)[p - (s + 1)]);
                } else {
                    assert(o[p] == lines1[e + (p - (s + 1 + render_groups(gs2).len()))]);
                }
            }
        },
        None => {},
    }
}

/// A group name that reads back from its own header line: empty, or
/// free of leading and trailing whitespace.
pub open spec fn wf_gname(name: Seq<char>) -> bool {
    name.len() == 0 || (!is_space(name[0]) && !is_space(name[name.len() - 1]))
}

/// Names parsed from header lines are trimmed.
proof fn lemma_group_name_wf(line: Seq<char>)
    requires
        is_group_header(line),
    ensures
        wf_gname(group_name_of(line)),
{
    let k = group_prefix().len() as int;
    lemma_first_non_space(line, k);
    lemma_end_trim(line, line.len() as int);
}

/// A header line written for a trimmed name reads back as that name.
proof fn lemma_header_line_props(name: Seq<char>)
    requires
        wf_gname(name),
    ensures
        is_group_header(header_line(name)),
        group_name_of(header_line(name)) == name,
{
    reveal(header_line);
    reveal_strlit("# Group: ");
    let line = header_line(name);
    assert(is_group_header(line)) by {
        assert(forall|j: int|
            0 <= j < group_prefix().len() ==> line[j] == #[trigger] group_prefix()[j]);
    }
    let k = group_prefix().len() as int;
    if name.len() == 0 {
        assert(line.len() == k);
        lemma_end_trim(line, k);
        assert(first_non_space(line, k) == k);
        assert(end_trim(line, k) <= k);
        assert(group_name_of(line) =~= name);
    } else {
        assert(line[k] == name[0]);
        assert(first_non_space(line, k) == k);
        assert(line[line.len() - 1] == name[name.len() - 1]);
        assert(end_trim(line, line.len() as int) == line.len());
        assert(group_name_of(line) =~= name);
    }
}

/// Groups that agree on their names agree on lookups.
proof fn lemma_group_idx_names(gs1: Groups, gs2: Groups, nm: Seq<char>)
    requires
        gs1.len() == gs2.len(),
        forall|t: int| 0 <= t < gs1.len() ==> (#[trigger] gs1[t]).0 == gs2[t].0,
    ensures
        group_idx(gs1, nm) == group_idx(gs2, nm),
        has_group(gs1, nm) == has_group(gs2, nm),
    decreases gs1.len(),
{
    lemma_group_idx(gs1, nm);
    lemma_group_idx(gs2, nm);
    if gs1.len() > 0 {
        let r1 = gs1.drop_first();
        let r2 = gs2.drop_first();
        assert(forall|t: int| 0 <= t < r1.len() ==> r1[t] == #[trigger] gs1[t + 1]);
        assert(forall|t: int| 0 <= t < r2.len() ==> r2[t] == #[trigger] gs2[t + 1]);
        if gs1.first().0 != nm {
            lemma_group_idx_names(r1, r2, nm);
        }
    }
    if has_group(gs1, nm) || has_group(gs2, nm) {
        assert(has_group(gs1, nm) == has_group(gs2, nm)) by {
            if has_group(gs1, nm) {
                let t = choose|t: int| 0 <= t < gs1.len() && (#[trigger] gs1[t]).0 == nm;
                assert(gs2[t].0 == nm);
            }
            if has_group(gs2, nm) {
                let t = choose|t: int| 0 <= t < gs2.len() && (#[trigger] gs2[t]).0 == nm;
                assert(gs1[t].0 == nm);
            }
        }
    }
}

/// Parsing continues past a concatenation boundary as if it had started
/// on the second part.
proof fn lemma_parse_shift(
    a: Seq<Seq<char>>,
    b: Seq<Seq<char>>,
    k: int,
    cur: Option<Seq<char>>,
    acc: Groups,
)
    requires
        0 <= k <= b.len(),
    ensures
        parse_state(a + b, a.len() + k, cur, acc) == parse_state(b, k, cur, acc),
    decreases b.len() - k,
{
    if k < b.len() {
        let line = b[k];
        assert((a + b)[a.len() + k] == line);
        if is_group_header(line) {
            lemma_parse_shift(a, b, k + 1, Some(group_name_of(line)), add_group(
                acc,
                group_name_of(line),
            ));
        } else if is_blank(line) {
            lemma_parse_shift(a, b, k + 1, cur, acc);
        } else {
            match cur {
                None => {
                    lemma_parse_shift(a, b, k + 1, cur, acc);
                },
                Some(nm) => {
                    lemma_parse_shift(a, b, k + 1, cur, add_entry(acc, nm, seq![line]));
                },
            }
        }
    }
}

/// A run of entry lines attaches, in order, to the group the parse is
/// currently collecting.
proof fn lemma_parse_run(r: Seq<Seq<char>>, a: int, b: int, nm: Seq<char>, acc: Groups)
    requires
        0 <= a <= b <= r.len(),
        forall|t: int| a <= t < b ==> !is_blank(#[trigger] r[t]) && !is_group_header(r[t]),
        has_group(acc, nm),
    ensures
        parse_state(r, a, Some(nm), acc) == parse_state(
            r,
            b,
            Some(nm),
            acc.update(group_idx(acc, nm), (nm, acc[group_idx(acc, nm)].1 + r.subrange(a, b))),
        ),
    decreases b - a,
{
    lemma_group_idx(acc, nm);
    let u = group_idx(acc, nm);
    if a == b {
        assert(acc.update(u, (nm, acc[u].1 + r.subrange(a, b))) =~~= acc);
    } else {
        let acc2 = add_entry(acc, nm, seq![r[a]]);
        assert(parse_state(r, a, Some(nm), acc) == parse_state(r, a + 1, Some(nm), acc2));
        assert(acc2 == acc.update(u, (nm, acc[u].1 + seq![r[a]])));
        assert(forall|t: int| 0 <= t < acc2.len() ==> (#[trigger] acc2[t]).0 == acc[t].0);
        lemma_group_idx_names(acc2, acc, nm);
        lemma_parse_run(r, a + 1, b, nm, acc2);
        let u2 = group_idx(acc2, nm);
        assert(u2 == u);
        assert(acc2.update(u2, (nm, acc2[u2].1 + r.subrange(a + 1, b))) =~~= acc.update(
            u,
            (nm, acc[u].1 + r.subrange(a, b)),
        )) by {
            assert(acc2[u2].1 + r.subrange(a + 1, b) =~= acc[u].1 + seq![r[a]] + r.subrange(
                a + 1,
                b,
            ));
            assert(seq![r[a]] + r.subrange(a + 1, b) =~= r.subrange(a, b));
        }
    }
}

/// The group the parse ends on after reading a rendered region.
pub open spec fn final_cur(gs: Groups, cur: Option<Seq<char>>) -> Option<Seq<char>> {
    if gs.len() == 0 {
        cur
    } else {
        Some(gs.last().0)
    }
}

/// Well-formed groups: trimmed distinct names, entries that are neither
/// blank nor headers.
pub open spec fn wf_groups(gs: Groups) -> bool {
    &&& forall|t: int| 0 <= t < gs.len() ==> wf_gname((#[trigger] gs[t]).0)
    &&& forall|t1: int, t2: int|
        0 <= t1 < t2 < gs.len() ==> (#[trigger] gs[t1]).0 != (#[trigger] gs[t2]).0
    &&& forall|t: int, w: int|
        0 <= t < gs.len() && 0 <= w < (#[trigger] gs[t]).1.len() ==> !is_blank(#[trigger] gs[t].1[w])
            && !is_group_header(gs[t].1[w])
}

/// Parsing a rendered region recovers exactly the rendered groups.
proof fn lemma_parse_render(gs: Groups, cur: Option<Seq<char>>, acc: Groups)
    requires
        wf_groups(gs),
        forall|ta: int, tg: int|
            0 <= ta < acc.len() && 0 <= tg < gs.len() ==> (#[trigger] acc[ta]).0 != (
            #[trigger] gs[tg]).0,
    ensures
        parse_state(render_groups(gs), 0, cur, acc) == (final_cur(gs, cur), acc + gs),
    decreases gs.len(),
{
    if gs.len() == 0 {
        assert(render_groups(gs) =~= Seq::<Seq<char>>::empty());
        assert(parse_state(Seq::<Seq<char>>::empty(), 0, cur, acc) == (cur, acc));
        assert(acc + gs =~= acc);
    } else {
        let g0 = gs.first();
        let n0 = g0.0;
        let e0 = g0.1;
        let rest = gs.drop_first();
        assert(forall|t: int| 0 <= t < rest.len() ==> rest[t] == #[trigger] gs[t + 1]);
        let r = render_groups(gs);
        let seg = seq![header_line(n0)] + e0 + seq![Seq::<char>::empty()];
        assert(r =~= seg + render_groups(rest));
        lemma_header_line_props(n0);
        assert(r[0] == header_line(n0));
        assert(!has_group(acc, n0)) by {
            if has_group(acc, n0) {
                let t = choose|t: int| 0 <= t < acc.len() && (#[trigger] acc[t]).0 == n0;
                assert(acc[t].0 != gs[0].0);
            }
        }
        let acc1 = acc.push((n0, Seq::<Seq<char>>::empty()));
        assert(add_group(acc, n0) == acc1);
        assert(parse_state(r, 0, cur, acc) == parse_state(r, 1, Some(n0), acc1));
        assert forall|t: int| 1 <= t < 1 + e0.len() implies !is_blank(#[trigger] r[t])
            && !is_group_header(r[t]) by {
            assert(r[t] == e0[t - 1]);
            assert(!is_blank(gs[0].1[t - 1]) && !is_group_header(gs[0].1[t - 1]));
        }
        assert(has_group(acc1, n0)) by {
            assert(acc1[acc.len() as int].0 == n0);
        }
        lemma_group_idx(acc1, n0);
        assert(group_idx(acc1, n0) == acc.len()) by {
            if group_idx(acc1, n0) < acc.len() {
                assert(acc1[group_idx(acc1, n0)].0 == n0);
                assert(acc[group_idx(acc1, n0)].0 != gs[0].0);
            }
        }
        lemma_parse_run(r, 1, 1 + e0.len() as int, n0, acc1);
        let acc2 = acc1.update(acc.len() as int, (n0, acc1[acc.len() as int].1 + r.subrange(
            1,
            1 + e0.len() as int,
        )));
        assert(acc2 =~~= acc.push((n0, e0))) by {
            assert(r.subrange(1, 1 + e0.len() as int) =~= e0);
        }
        let acc3 = acc.push((n0, e0));
        assert(parse_state(r, 1, Some(n0), acc1) == parse_state(
            r,
            1 + e0.len() as int,
            Some(n0),
            acc3,
        ));
        let bp = 1 + e0.len() as int;
        assert(r[bp] == Seq::<char>::empty());
        assert(is_blank(Seq::<char>::empty()));
        assert(!is_group_header(Seq::<char>::empty())) by {
            reveal_strlit("# Group: ");
        }
        assert(parse_state(r, bp, Some(n0), acc3) == parse_state(r, bp + 1, Some(n0), acc3));
        assert(seg.len() == bp + 1);
        lemma_parse_shift(seg, render_groups(rest), 0, Some(n0), acc3);
        assert(parse_state(r, bp + 1, Some(n0), acc3) == parse_state(
            render_groups(rest),
            0,
            Some(n0),
            acc3,
        )) by {
            assert(r == seg + render_groups(rest));
        }
        assert(wf_groups(rest)) by {
            assert forall|t: int, w: int|
                0 <= t < rest.len() && 0 <= w < (#[trigger] rest[t]).1.len() implies !is_blank(
                #[trigger] rest[t].1[w]) && !is_group_header(rest[t].1[w]) by {
                assert(rest[t] == gs[t + 1]);
                assert(!is_blank(gs[t + 1].1[w]) && !is_group_header(gs[t + 1].1[w]));
            }
        }
        assert forall|ta: int, tg: int|
            0 <= ta < acc3.len() && 0 <= tg < rest.len() implies (#[trigger] acc3[ta]).0 != (
            #[trigger] rest[tg]).0 by {
            assert(rest[tg] == gs[tg + 1]);
            if ta < acc.len() {
                assert(acc3[ta] == acc[ta]);
            } else {
                assert(acc3[ta].0 == gs[0].0);
                assert(gs[0].0 != gs[tg + 1].0);
            }
        }
        lemma_parse_render(rest, Some(n0), acc3);
        assert(parse_state(render_groups(rest), 0, Some(n0), acc3) == (final_cur(
            rest,
            Some(n0),
        ), acc3 + rest));
        assert(acc3 + rest =~~= acc + gs);
        assert(final_cur(rest, Some(n0)) == final_cur(gs, cur)) by {
            if rest.len() == 0 {
                assert(gs.last() == gs[0]);
            } else {
                assert(gs.last() == rest.last());
            }
        }
    }
}

/// The shape of parsed groups: trimmed distinct names, entries that are
/// non-blank non-header region lines.
proof fn lemma_parse_state_shape(
    region: Seq<Seq<char>>,
    i: int,
    cur: Option<Seq<char>>,
    acc: Groups,
)
    requires
        0 <= i <= region.len(),
        forall|p: int|
            0 <= p < region.len() ==> #[trigger] region[p] != start_marker() && region[p]
                != end_marker(),
        wf_groups(acc),
        forall|t: int, w: int|
            0 <= t < acc.len() && 0 <= w < (#[trigger] acc[t]).1.len() ==> #[trigger] acc[t].1[w]
                != start_marker() && acc[t].1[w] != end_marker(),
        match cur {
            Some(nm) => wf_gname(nm),
            None => true,
        },
    ensures
        wf_groups(parse_state(region, i, cur, acc).1),
        forall|t: int, w: int|
            0 <= t < parse_state(region, i, cur, acc).1.len() && 0 <= w < (#[trigger] parse_state(
                region,
                i,
                cur,
                acc,
            ).1[t]).1.len() ==> #[trigger] parse_state(region, i, cur, acc).1[t].1[w]
                != start_marker() && parse_state(region, i, cur, acc).1[t].1[w] != end_marker(),
    decreases region.len() - i,
{
    if i < region.len() {
        let line = region[i];
        if is_group_header(line) {
            let nm = group_name_of(line);
            lemma_group_name_wf(line);
            let acc2 = add_group(acc, nm);
            assert(wf_groups(acc2)) by {
                if !has_group(acc, nm) {
                    assert forall|t1: int, t2: int|
                        0 <= t1 < t2 < acc2.len() implies (#[trigger] acc2[t1]).0 != (
                        #[trigger] acc2[t2]).0 by {
                        if t2 < acc.len() {
                            assert(acc2[t1] == acc[t1] && acc2[t2] == acc[t2]);
                        } else {
                            assert(acc2[t1] == acc[t1]);
                            if acc[t1].0 == nm {
                                assert(has_group(acc, nm));
                            }
                        }
                    }
                    assert forall|t: int| 0 <= t < acc2.len() implies wf_gname(
                        (#[trigger] acc2[t]).0,
                    ) by {
                        if t < acc.len() {
                            assert(acc2[t] == acc[t]);
                        }
                    }
                    assert forall|t: int, w: int|
                        0 <= t < acc2.len() && 0 <= w < (#[trigger] acc2[t]).1.len() implies
                        !is_blank(#[trigger] acc2[t].1[w]) && !is_group_header(acc2[t].1[w]) by {
                        assert(acc2[t] == acc[t]);
                        assert(!is_blank(acc[t].1[w]) && !is_group_header(acc[t].1[w]));
                    }
                }
            }
            assert forall|t: int, w: int|
                0 <= t < acc2.len() && 0 <= w < (#[trigger] acc2[t]).1.len() implies
                #[trigger] acc2[t].1[w] != start_marker() && acc2[t].1[w] != end_marker() by {
                if t < acc.len() {
                    assert(acc2[t] == acc[t]);
                    assert(acc[t].1[w] != start_marker() && acc[t].1[w] != end_marker());
                }
            }
            lemma_parse_state_shape(region, i + 1, Some(nm), acc2);
            assert(parse_state(region, i, cur, acc) == parse_state(region, i + 1, Some(nm), acc2));
        } else if is_blank(line) {
            lemma_parse_state_shape(region, i + 1, cur, acc);
            assert(parse_state(region, i, cur, acc) == parse_state(region, i + 1, cur, acc));
        } else {
            match cur {
                None => {
                    lemma_parse_state_shape(region, i + 1, cur, acc);
                    assert(parse_state(region, i, cur, acc) == parse_state(
                        region,
                        i + 1,
                        cur,
                        acc,
                    ));
                },
                Some(nm) => {
                    let acc2 = add_entry(acc, nm, seq![line]);
                    assert(wf_groups(acc2) && forall|t: int, w: int|
                        0 <= t < acc2.len() && 0 <= w < (#[trigger] acc2[t]).1.len()
                            ==> #[trigger] acc2[t].1[w] != start_marker() && acc2[t].1[w]
                            != end_marker()) by {
                        lemma_add_entry_shape(acc, nm, seq![line]);
                    }
                    lemma_parse_state_shape(region, i + 1, cur, acc2);
                    assert(parse_state(region, i, cur, acc) == parse_state(
                        region,
                        i + 1,
                        cur,
                        acc2,
                    ));
                },
            }
        }
    }
}

/// Merging entry lines of the right shape preserves the shape of the
/// groups.
proof fn lemma_add_entry_shape(gs: Groups, nm: Seq<char>, ls: Seq<Seq<char>>)
    requires
        wf_groups(gs),
        wf_gname(nm),
        forall|t: int, w: int|
            0 <= t < gs.len() && 0 <= w < (#[trigger] gs[t]).1.len() ==> #[trigger] gs[t].1[w]
                != start_marker() && gs[t].1[w] != end_marker(),
        forall|w: int|
            0 <= w < ls.len() ==> !is_blank(#[trigger] ls[w]) && !is_group_header(ls[w]) && ls[w]
                != start_marker() && ls[w] != end_marker(),
    ensures
        wf_groups(add_entry(gs, nm, ls)),
        forall|t: int, w: int|
            0 <= t < add_entry(gs, nm, ls).len() && 0 <= w < (#[trigger] add_entry(
                gs,
                nm,
                ls,
            )[t]).1.len() ==> #[trigger] add_entry(gs, nm, ls)[t].1[w] != start_marker()
                && add_entry(gs, nm, ls)[t].1[w] != end_marker(),
{
    let gs2 = add_entry(gs, nm, ls);
    if has_group(gs, nm) {
        let u = group_idx(gs, nm);
        lemma_group_idx(gs, nm);
        assert forall|t: int| 0 <= t < gs2.len() implies wf_gname((#[trigger] gs2[t]).0) by {
            if t != u {
                assert(gs2[t] == gs[t]);
            }
        }
        assert forall|t1: int, t2: int|
            0 <= t1 < t2 < gs2.len() implies (#[trigger] gs2[t1]).0 != (#[trigger] gs2[t2]).0 by {
            assert(gs2[t1].0 == gs[t1].0 && gs2[t2].0 == gs[t2].0);
        }
        assert forall|t: int, w: int|
            0 <= t < gs2.len() && 0 <= w < (#[trigger] gs2[t]).1.len() implies !is_blank(
            #[trigger] gs2[t].1[w]) && !is_group_header(gs2[t].1[w]) && gs2[t].1[w]
            != start_marker() && gs2[t].1[w] != end_marker() by {
            if t != u {
                assert(gs2[t] == gs[t]);
                assert(!is_blank(gs[t].1[w]) && !is_group_header(gs[t].1[w]));
                assert(gs[t].1[w] != start_marker() && gs[t].1[w] != end_marker());
            } else {
                if w < gs[u].1.len() {
                    assert(gs2[t].1[w] == gs[u].1[w]);
                    assert(!is_blank(gs[u].1[w]) && !is_group_header(gs[u].1[w]));
                    assert(gs[u].1[w] != start_marker() && gs[u].1[w] != end_marker());
                } else {
                    assert(gs2[t].1[w] == ls[w - gs[u].1.len()]);
                }
            }
        }
    } else {
        assert forall|t1: int, t2: int|
            0 <= t1 < t2 < gs2.len() implies (#[trigger] gs2[t1]).0 != (#[trigger] gs2[t2]).0 by {
            if t2 < gs.len() {
                assert(gs2[t1] == gs[t1] && gs2[t2] == gs[t2]);
            } else {
                assert(gs2[t1] == gs[t1]);
                if gs[t1].0 == nm {
                    assert(has_group(gs, nm));
                }
            }
        }
        assert forall|t: int| 0 <= t < gs2.len() implies wf_gname((#[trigger] gs2[t]).0) by {
            if t < gs.len() {
                assert(gs2[t] == gs[t]);
            }
        }
        assert forall|t: int, w: int|
            0 <= t < gs2.len() && 0 <= w < (#[trigger] gs2[t]).1.len() implies !is_blank(
            #[trigger] gs2[t].1[w]) && !is_group_header(gs2[t].1[w]) && gs2[t].1[w]
            != start_marker() && gs2[t].1[w] != end_marker() by {
            if t < gs.len() {
                assert(gs2[t] == gs[t]);
                assert(!is_blank(gs[t].1[w]) && !is_group_header(gs[t].1[w]));
                assert(gs[t].1[w] != start_marker() && gs[t].1[w] != end_marker());
            } else {
                assert(gs2[t].1[w] == ls[w]);
            }
        }
    }
}

/// The sentinel lines, headers and blank lines are pairwise distinct
/// where the region rebuild depends on it.
proof fn lemma_marker_distinct(nm: Seq<char>)
    ensures
        start_marker() != end_marker(),
        header_line(nm) != start_marker(),
        header_line(nm) != end_marker(),
        Seq::<char>::empty() != start_marker(),
        Seq::<char>::empty() != end_marker(),
{
    reveal(header_line);
    reveal_strlit("# Group: ");
    reveal_strlit("# --- velo managed keys ---");
    reveal_strlit("# --- end velo managed keys ---");
    assert(start_marker()[6] != end_marker()[6]);
    assert(header_line(nm)[2] != start_marker()[2]);
    assert(header_line(nm)[2] != end_marker()[2]);
    assert(start_marker().len() > 0);
    assert(end_marker().len() > 0);
}

/// The generated entry lines are neither blank, nor headers, nor
/// sentinels.
proof fn lemma_entry_lines_region_shape(code: Seq<char>, key: Seq<char>)
    ensures
        forall|w: int|
            0 <= w < entry_lines(code, key).len() ==> !is_blank(
                #[trigger] entry_lines(code, key)[w],
            ) && !is_group_header(entry_lines(code, key)[w]) && entry_lines(code, key)[w]
                != start_marker() && entry_lines(code, key)[w] != end_marker(),
{
    reveal(crate::grammar::identity_line);
    reveal(crate::grammar::agent_yes_line);
    let el = entry_lines(code, key);
    assert(el[0] == host_line(wild_name(code)));
    assert(el[1] == identity_line(key));
    assert(el[2] == agent_yes_line());
    assert(el[0][0] == 'H' && el[1][0] == ' ' && el[2][0] == ' ');
    assert(first_non_space(el[0], 0) == 0);
    assert(!is_blank(el[1])) by {
        lemma_first_non_space(el[1], 0);
        assert(el[1][4] == 'I');
        if first_non_space(el[1], 0) == el[1].len() {
            assert(is_space(el[1][4]));
        }
    }
    assert(!is_blank(el[2])) by {
        lemma_first_non_space(el[2], 0);
        assert(el[2][4] == 'A');
        if first_non_space(el[2], 0) == el[2].len() {
            assert(is_space(el[2][4]));
        }
    }
    assert forall|w: int| 0 <= w < el.len() implies !is_group_header(#[trigger] el[w]) && el[w]
        != start_marker() && el[w] != end_marker() by {
        reveal_strlit("# Group: ");
        reveal_strlit("# --- velo managed keys ---");
        reveal_strlit("# --- end velo managed keys ---");
        assert(el[w][0] != '#');
        if is_group_header(el[w]) {
            assert(el[w][0] == group_prefix()[0]);
        }
        if el[w] == start_marker() {
            assert(el[w][0] == start_marker()[0]);
        }
        if el[w] == end_marker() {
            assert(el[w][0] == end_marker()[0]);
        }
    }
}

/// No rendered region line equals a marker./// No rendered region line equals a marker.
proof fn lemma_render_no_markers(gs: Groups)
    requires
        forall|t: int, w: int|
            0 <= t < gs.len() && 0 <= w < (#[trigger] gs[t]).1.len() ==> #[trigger] gs[t].1[w]
                != start_marker() && gs[t].1[w] != end_marker(),
    ensures
        forall|p: int|
            0 <= p < render_groups(gs).len() ==> #[trigger] render_groups(gs)[p] != start_marker()
                && render_groups(gs)[p] != end_marker(),
    decreases gs.len(),
{
    lemma_marker_distinct(gs.first().0);
    if gs.len() > 0 {
        let rest = gs.drop_first();
        assert(forall|t: int| 0 <= t < rest.len() ==> rest[t] == #[trigger] gs[t + 1]);
        assert forall|t: int, w: int|
            0 <= t < rest.len() && 0 <= w < (#[trigger] rest[t]).1.len() implies
            #[trigger] rest[t].1[w] != start_marker() && rest[t].1[w] != end_marker() by {
            assert(rest[t] == gs[t + 1]);
            assert(gs[t + 1].1[w] != start_marker() && gs[t + 1].1[w] != end_marker());
        }
        lemma_render_no_markers(rest);
        let o = render_groups(gs);
        assert forall|p: int| 0 <= p < o.len() implies #[trigger] o[p] != start_marker() && o[p]
            != end_marker() by {
            if p == 0 {
                assert(o[p] == header_line(gs.first().0));
            } else if p < 1 + gs.first().1.len() {
                assert(o[p] == gs.first().1[p - 1]);
                assert(gs[0].1[p - 1] != start_marker() && gs[0].1[p - 1] != end_marker());
            } else if p == 1 + gs.first().1.len() {
                assert(o[p] == Seq::<char>::empty());
            } else {
                assert(o[p] == render_groups(rest)[p - (2 + gs.first().1.len())]);
            }
        }
    }
}

/// The document holds at most the one recognized marker pair: no stray
/// sentinel lines besides the pair itself.
pub open spec fn wf_region_doc(lines: Seq<Seq<char>>) -> bool {
    match marker_pair(lines) {
        Some((s, e)) => {
            &&& forall|t: int|
                0 <= t < lines.len() && t != s ==> #[trigger] lines[t] != start_marker()
            &&& forall|t: int| 0 <= t < lines.len() && t != e ==> #[trigger] lines[t] != end_marker()
        },
        None => forall|t: int|
            0 <= t < lines.len() ==> #[trigger] lines[t] != start_marker() && lines[t]
                != end_marker(),
    }
}

proof fn lemma_first_eq_is(lines: Seq<Seq<char>>, target: Seq<char>, from: int, p: int)
    requires
        0 <= from <= p < lines.len(),
        forall|j: int| from <= j < p ==> #[trigger] lines[j] != target,
        lines[p] == target,
    ensures
        first_eq_from(lines, target, from) == p,
{
    lemma_first_eq_from(lines, target, from);
    let f = first_eq_from(lines, target, from);
    if f < p {
        assert(lines[f] == target);
    }
    if f > p {
        assert(lines[p] != target);
    }
}

/// What one group upsert does to the managed region: the marker pair is
/// found (or appended), and its parsed groups change exactly by merging
/// the one entry.
pub proof fn lemma_upsert_group_effect(
    lines: Seq<Seq<char>>,
    code: Seq<char>,
    gname: Seq<char>,
    key: Seq<char>,
)
    requires
        wf_region_doc(lines),
        wf_gname(gname),
    ensures
        region_groups(upsert_group_spec(lines, code, gname, key)) == add_entry(
            region_groups(lines),
            gname,
            entry_lines(code, key),
        ),
        wf_region_doc(upsert_group_spec(lines, code, gname, key)),
{
    lemma_marker_distinct(gname);
    lemma_entry_lines_region_shape(code, key);
    let lines1 = match marker_pair(lines) {
        Some(_) => lines,
        None => lines + seq![start_marker(), end_marker()],
    };
    lemma_first_eq_from(lines, start_marker(), 0);
    let n = lines.len() as int;
    if marker_pair(lines) is None {
        assert(lines1[n] == start_marker());
        assert(lines1[n + 1] == end_marker());
        assert forall|j: int| 0 <= j < n implies #[trigger] lines1[j] != start_marker() by {
            assert(lines1[j] == lines[j]);
        }
        lemma_first_eq_is(lines1, start_marker(), 0, n);
        lemma_first_eq_is(lines1, end_marker(), n + 1, n + 1);
        assert(marker_pair(lines1) == Some((n, n + 1)));
    }
    let se = marker_pair(lines1);
    let s = se->Some_0.0;
    let e = se->Some_0.1;
    lemma_first_eq_from(lines1, start_marker(), 0);
    lemma_first_eq_from(lines1, end_marker(), s + 1);
    assert(0 <= s < e < lines1.len());
    assert(lines1[s] == start_marker());
    assert(lines1[e] == end_marker());
    let region = lines1.subrange(s + 1, e);
    assert forall|p: int| 0 <= p < region.len() implies #[trigger] region[p] != start_marker()
        && region[p] != end_marker() by {
        assert(region[p] == lines1[s + 1 + p]);
        if marker_pair(lines) is Some {
            assert(lines[s + 1 + p] != start_marker());
            assert(lines[s + 1 + p] != end_marker());
        }
    }
    let gs0 = parse_groups(region);
    assert(gs0 == region_groups(lines)) by {
        if marker_pair(lines) is None {
            assert(region =~= Seq::<Seq<char>>::empty());
            assert(parse_state(region, 0, None::<Seq<char>>, Seq::empty()) == (
                None::<Seq<char>>,
                Seq::<(Seq<char>, Seq<Seq<char>>)>::empty(),
            ));
            assert(region_groups(lines) =~= Seq::<(Seq<char>, Seq<Seq<char>>)>::empty());
        }
    }
    assert(wf_groups(Seq::<(Seq<char>, Seq<Seq<char>>)>::empty()));
    lemma_parse_state_shape(region, 0, None::<Seq<char>>, Seq::empty());
    let gs2 = add_entry(gs0, gname, entry_lines(code, key));
    lemma_add_entry_shape(gs0, gname, entry_lines(code, key));
    let r = render_groups(gs2);
    lemma_render_no_markers(gs2);
    let o = upsert_group_spec(lines, code, gname, key);
    assert(o == lines1.subrange(0, s + 1) + r + lines1.subrange(e, lines1.len() as int));
    assert(o.len() == s + 1 + r.len() + (lines1.len() - e));
    assert forall|t: int| 0 <= t < s implies #[trigger] o[t] != start_marker() && o[t]
        != end_marker() by {
        assert(o[t] == lines1[t]);
        if marker_pair(lines) is Some {
            assert(lines[t] != start_marker() && lines[t] != end_marker());
        } else {
            assert(lines1[t] == lines[t]);
            assert(lines[t] != start_marker() && lines[t] != end_marker());
        }
    }
    assert(o[s] == lines1[s]);
    let e2 = s + 1 + r.len() as int;
    assert forall|t: int| s + 1 <= t < e2 implies #[trigger] o[t] != start_marker() && o[t]
        != end_marker() by {
        assert(o[t] == r[t - (s + 1)]);
    }
    assert(o[e2] == lines1[e]);
    assert forall|t: int| e2 < t < o.len() implies #[trigger] o[t] != start_marker() && o[t]
        != end_marker() by {
        assert(o[t] == lines1[e + (t - e2)]);
        if marker_pair(lines) is Some {
            assert(lines[e + (t - e2)] != start_marker());
            assert(lines[e + (t - e2)] != end_marker());
        } else {
            assert(e + (t - e2) >= lines1.len());
        }
    }
    lemma_first_eq_is(o, start_marker(), 0, s);
    lemma_first_eq_is(o, end_marker(), s + 1, e2);
    assert(marker_pair(o) == Some((s, e2)));
    assert(o.subrange(s + 1, e2) =~= r);
    lemma_parse_render(gs2, None::<Seq<char>>, Seq::empty());
    assert(region_groups(o) == (Seq::<(Seq<char>, Seq<Seq<char>>)>::empty() + gs2));
    assert(Seq::<(Seq<char>, Seq<Seq<char>>)>::empty() + gs2 =~= gs2);
    assert(wf_region_doc(o));
}

/// Group merge.
///
/// Starting from a document whose region does not yet hold the group,
/// two upserts with the same group name and different keys leave one
/// group section holding both generated entries — one header, six entry
/// lines — not two group headers.
pub proof fn lemma_group_merge(
    lines: Seq<Seq<char>>,
    code: Seq<char>,
    gname: Seq<char>,
    k1: Seq<char>,
    k2: Seq<char>,
)
    requires
        wf_region_doc(lines),
        wf_gname(gname),
        !has_group(region_groups(lines), gname),
    ensures
        region_groups(
            upsert_group_spec(upsert_group_spec(lines, code, gname, k1), code, gname, k2),
        ) == region_groups(lines).push((gname, entry_lines(code, k1) + entry_lines(code, k2))),
{
    lemma_upsert_group_effect(lines, code, gname, k1);
    let l1 = upsert_group_spec(lines, code, gname, k1);
    lemma_upsert_group_effect(l1, code, gname, k2);
    let g0 = region_groups(lines);
    let g1 = region_groups(l1);
    assert(g1 == g0.push((gname, entry_lines(code, k1))));
    lemma_group_idx(g0, gname);
    assert(has_group(g1, gname)) by {
        assert(g1[g0.len() as int].0 == gname);
    }
    lemma_group_idx(g1, gname);
    assert(group_idx(g1, gname) == g0.len()) by {
        if group_idx(g1, gname) < g0.len() {
            assert(g1[group_idx(g1, gname)].0 == gname);
            assert(g0[group_idx(g1, gname)].0 == gname);
            assert(has_group(g0, gname));
        }
    }
    let g2 = add_entry(g1, gname, entry_lines(code, k2));
    assert(g2 =~~= g0.push((gname, entry_lines(code, k1) + entry_lines(code, k2))));
}

} // verus!
