//! The identity upsert: rewrite exactly one `IdentityFile` directive and
//! exactly one `AddKeysToAgent yes` directive into the block of a named
//! connection, or append a minimal block when the name is unknown.

use vstd::prelude::*;
use vstd::string::*;
use crate::document::SSHConfig;
use crate::edit::{first_decl_from, has_decl, lemma_first_decl_from, lemma_first_decl_is, lemma_has_decl_first};
use crate::grammar::{
    agent_yes_line, host_line, identity_line, is_agent_line, is_blank, is_decl_for,
    is_identity_line, lemma_host_line_matches, lemma_indented_line, lemma_template_literals,
    line_is_agent, line_is_blank, line_is_identity, starts_block,
};
use crate::text::{lines_wf, no_nl, starts_with_at, strings_view};

verus! {

/// Index of the first line at or after `i` that ends a block for the
/// purpose of the identity upsert: a blank line or a line opening a
/// block; `lines.len()` if there is none.
pub open spec fn block_boundary(lines: Seq<Seq<char>>, i: int) -> int
    decreases lines.len() - i when 0 <= i <= lines.len()
{
    if i >= lines.len() {
        i
    } else if is_blank(lines[i]) || starts_block(lines[i]) {
        i
    } else {
        block_boundary(lines, i + 1)
    }
}

pub proof fn lemma_block_boundary(lines: Seq<Seq<char>>, i: int)
    requires
        0 <= i <= lines.len(),
    ensures
        i <= block_boundary(lines, i) <= lines.len(),
        forall|j: int|
            i <= j < block_boundary(lines, i) ==> !is_blank(#[trigger] lines[j]) && !starts_block(
                lines[j],
            ),
        block_boundary(lines, i) < lines.len() ==> is_blank(lines[block_boundary(lines, i)])
            || starts_block(lines[block_boundary(lines, i)]),
    decreases lines.len() - i,
{
    if i < lines.len() && !(is_blank(lines[i]) || starts_block(lines[i])) {
        lemma_block_boundary(lines, i + 1);
    }
}

/// The rewrite of the directive lines of one block.
///
/// Walking the block top to bottom: the first `IdentityFile` line turns
/// into `    IdentityFile <key>`, the first `AddKeysToAgent` line into
/// `    AddKeysToAgent yes`, later lines of either kind are dropped,
/// everything else is kept; whichever of the two directives was never
/// seen is appended at the end, identity first.
pub open spec fn rw_block(
    block: Seq<Seq<char>>,
    key: Seq<char>,
    seen_id: bool,
    seen_ag: bool,
) -> Seq<Seq<char>>
    decreases block.len(),
{
    if block.len() == 0 {
        (if seen_id {
            Seq::empty()
        } else {
            seq![identity_line(key)]
        }) + (if seen_ag {
            Seq::empty()
        } else {
            seq![agent_yes_line()]
        })
    } else {
        let l = block.first();
        let rest = block.drop_first();
        if is_identity_line(l) {
            (if seen_id {
                Seq::empty()
            } else {
                seq![identity_line(key)]
            }) + rw_block(rest, key, true, seen_ag)
        } else if is_agent_line(l) {
            (if seen_ag {
                Seq::empty()
            } else {
                seq![agent_yes_line()]
            }) + rw_block(rest, key, seen_id, true)
        } else {
            seq![l] + rw_block(rest, key, seen_id, seen_ag)
        }
    }
}

/// The four lines appended for an unknown connection name.
pub open spec fn minimal_block(name: Seq<char>, key: Seq<char>) -> Seq<Seq<char>> {
    seq![Seq::<char>::empty(), host_line(name), identity_line(key), agent_yes_line()]
}

/// The full document after an identity upsert for `name` with `key`.
pub open spec fn upsert_identity_spec(
    lines: Seq<Seq<char>>,
    name: Seq<char>,
    key: Seq<char>,
) -> Seq<Seq<char>> {
    if has_decl(lines, name) {
        let i = first_decl_from(lines, name, 0);
        let j = block_boundary(lines, i + 1);
        lines.subrange(0, i + 1) + rw_block(lines.subrange(i + 1, j), key, false, false)
            + lines.subrange(j, lines.len() as int)
    } else {
        lines + minimal_block(name, key)
    }
}

/// What the two directive template lines are and are not.
pub(crate) proof fn lemma_upsert_template_lines(key: Seq<char>, name: Seq<char>)
    ensures
        is_identity_line(identity_line(key)),
        !is_agent_line(identity_line(key)),
        !is_blank(identity_line(key)),
        !starts_block(identity_line(key)),
        !is_decl_for(identity_line(key), name),
        is_agent_line(agent_yes_line()),
        !is_identity_line(agent_yes_line()),
        !is_blank(agent_yes_line()),
        !starts_block(agent_yes_line()),
        !is_decl_for(agent_yes_line(), name),
        no_nl(key) ==> no_nl(identity_line(key)),
        no_nl(agent_yes_line()),
{
    reveal(crate::grammar::identity_line);
    reveal(crate::grammar::agent_yes_line);
    let ri = crate::grammar::identity_kw().push(' ') + key;
    assert(identity_line(key) =~= crate::grammar::indent() + ri);
    lemma_indented_line(ri);
    assert(starts_with_at(ri, crate::grammar::identity_kw(), 0));
    assert(!starts_block(identity_line(key))) by {
        if starts_with_at(ri, crate::grammar::host_sp(), 0) {
            assert(ri[0] == crate::grammar::host_sp()[0]);
        }
    }
    assert(!is_agent_line(identity_line(key))) by {
        if starts_with_at(ri, crate::grammar::agent_kw(), 0) {
            assert(ri[0] == crate::grammar::agent_kw()[0]);
        }
    }
    assert(!is_decl_for(identity_line(key), name)) by {
        if is_decl_for(identity_line(key), name) {
            let m = choose|m: int| crate::grammar::decl_split_at(identity_line(key), name, m);
            assert(identity_line(key)[0] == crate::grammar::host_kw()[0]);
        }
    }
    let ra = crate::grammar::agent_kw() + seq![' ', 'y', 'e', 's'];
    assert(agent_yes_line() =~= crate::grammar::indent() + ra);
    lemma_indented_line(ra);
    assert(starts_with_at(ra, crate::grammar::agent_kw(), 0));
    assert(!starts_block(agent_yes_line())) by {
        if starts_with_at(ra, crate::grammar::host_sp(), 0) {
            assert(ra[0] == crate::grammar::host_sp()[0]);
        }
    }
    assert(!is_identity_line(agent_yes_line())) by {
        if starts_with_at(ra, crate::grammar::identity_kw(), 0) {
            assert(ra[0] == crate::grammar::identity_kw()[0]);
        }
    }
    assert(!is_decl_for(agent_yes_line(), name)) by {
        if is_decl_for(agent_yes_line(), name) {
            let m = choose|m: int| crate::grammar::decl_split_at(agent_yes_line(), name, m);
            assert(agent_yes_line()[0] == crate::grammar::host_kw()[0]);
        }
    }
}

/// Every line of a rewritten block is a line of the original block or
/// one of the two directive templates; none is blank or opens a block
/// when the original block had no such line.
proof fn lemma_rw_block_non_boundary(
    block: Seq<Seq<char>>,
    key: Seq<char>,
    seen_id: bool,
    seen_ag: bool,
)
    requires
        forall|p: int|
            0 <= p < block.len() ==> !is_blank(#[trigger] block[p]) && !starts_block(block[p]),
    ensures
        forall|p: int|
            0 <= p < rw_block(block, key, seen_id, seen_ag).len() ==> !is_blank(
                #[trigger] rw_block(block, key, seen_id, seen_ag)[p],
            ) && !starts_block(rw_block(block, key, seen_id, seen_ag)[p]),
    decreases block.len(),
{
    lemma_upsert_template_lines(key, Seq::empty());
    let o = rw_block(block, key, seen_id, seen_ag);
    if block.len() == 0 {
        assert forall|p: int| 0 <= p < o.len() implies !is_blank(#[trigger] o[p])
            && !starts_block(o[p]) by {
            if !seen_id && p == 0 {
                assert(o[p] == identity_line(key));
            } else {
                assert(o[p] == agent_yes_line());
            }
        }
    } else {
        let l = block.first();
        let rest = block.drop_first();
        assert(forall|p: int|
            0 <= p < rest.len() ==> !is_blank(#[trigger] rest[p]) && !starts_block(rest[p]));
        if is_identity_line(l) {
            lemma_rw_block_non_boundary(rest, key, true, seen_ag);
            let tail = rw_block(rest, key, true, seen_ag);
            assert forall|p: int| 0 <= p < o.len() implies !is_blank(#[trigger] o[p])
                && !starts_block(o[p]) by {
                if !seen_id && p == 0 {
                    assert(o[p] == identity_line(key));
                } else if !seen_id {
                    assert(o[p] == tail[p - 1]);
                } else {
                    assert(o[p] == tail[p]);
                }
            }
        } else if is_agent_line(l) {
            lemma_rw_block_non_boundary(rest, key, seen_id, true);
            let tail = rw_block(rest, key, seen_id, true);
            assert forall|p: int| 0 <= p < o.len() implies !is_blank(#[trigger] o[p])
                && !starts_block(o[p]) by {
                if !seen_ag && p == 0 {
                    assert(o[p] == agent_yes_line());
                } else if !seen_ag {
                    assert(o[p] == tail[p - 1]);
                } else {
                    assert(o[p] == tail[p]);
                }
            }
        } else {
            lemma_rw_block_non_boundary(rest, key, seen_id, seen_ag);
            let tail = rw_block(rest, key, seen_id, seen_ag);
            assert forall|p: int| 0 <= p < o.len() implies !is_blank(#[trigger] o[p])
                && !starts_block(o[p]) by {
                if p == 0 {
                    assert(o[p] == l);
                } else {
                    assert(o[p] == tail[p - 1]);
                }
            }
        }
    }
}

/// Rewriting a block a second time changes nothing.
proof fn lemma_rw_block_idempotent(
    block: Seq<Seq<char>>,
    key: Seq<char>,
    seen_id: bool,
    seen_ag: bool,
)
    ensures
        rw_block(rw_block(block, key, seen_id, seen_ag), key, seen_id, seen_ag) == rw_block(
            block,
            key,
            seen_id,
            seen_ag,
        ),
    decreases block.len(),
{
    lemma_upsert_template_lines(key, Seq::empty());
    let o = rw_block(block, key, seen_id, seen_ag);
    assert(rw_block(Seq::<Seq<char>>::empty(), key, true, true) =~= Seq::<Seq<char>>::empty());
    if block.len() == 0 {
        if !seen_id && !seen_ag {
            assert(o =~= seq![identity_line(key), agent_yes_line()]);
            assert(o.first() == identity_line(key));
            assert(o.drop_first() =~= seq![agent_yes_line()]);
            let o2 = seq![agent_yes_line()];
            assert(o2.first() == agent_yes_line());
            assert(o2.drop_first() =~= Seq::<Seq<char>>::empty());
            assert(rw_block(o2, key, true, seen_ag) =~= o2);
            assert(rw_block(o, key, seen_id, seen_ag) =~= o);
        } else if !seen_id {
            assert(o =~= seq![identity_line(key)]);
            assert(o.first() == identity_line(key));
            assert(o.drop_first() =~= Seq::<Seq<char>>::empty());
            assert(rw_block(o, key, seen_id, seen_ag) =~= o);
        } else if !seen_ag {
            assert(o =~= seq![agent_yes_line()]);
            assert(o.first() == agent_yes_line());
            assert(o.drop_first() =~= Seq::<Seq<char>>::empty());
            assert(rw_block(o, key, seen_id, seen_ag) =~= o);
        } else {
            assert(o =~= Seq::<Seq<char>>::empty());
        }
    } else {
        let l = block.first();
        let rest = block.drop_first();
        if is_identity_line(l) {
            lemma_rw_block_idempotent(rest, key, true, seen_ag);
            let tail = rw_block(rest, key, true, seen_ag);
            if !seen_id {
                assert(o =~= seq![identity_line(key)] + tail);
                assert(o.first() == identity_line(key));
                assert(o.drop_first() =~= tail);
                assert(rw_block(o, key, seen_id, seen_ag) =~= seq![identity_line(key)]
                    + rw_block(tail, key, true, seen_ag));
                assert(rw_block(o, key, seen_id, seen_ag) =~= o);
            } else {
                assert(o =~= tail);
            }
        } else if is_agent_line(l) {
            lemma_rw_block_idempotent(rest, key, seen_id, true);
            let tail = rw_block(rest, key, seen_id, true);
            if !seen_ag {
                assert(o =~= seq![agent_yes_line()] + tail);
                assert(o.first() == agent_yes_line());
                assert(o.drop_first() =~= tail);
                assert(rw_block(o, key, seen_id, seen_ag) =~= seq![agent_yes_line()]
                    + rw_block(tail, key, seen_id, true));
                assert(rw_block(o, key, seen_id, seen_ag) =~= o);
            } else {
                assert(o =~= tail);
            }
        } else {
            lemma_rw_block_idempotent(rest, key, seen_id, seen_ag);
            let tail = rw_block(rest, key, seen_id, seen_ag);
            assert(o =~= seq![l] + tail);
            assert(o.first() == l);
            assert(o.drop_first() =~= tail);
            assert(rw_block(o, key, seen_id, seen_ag) =~= seq![l]
                + rw_block(tail, key, seen_id, seen_ag));
            assert(rw_block(o, key, seen_id, seen_ag) =~= o);
        }
    }
}

proof fn lemma_boundary_is(lines: Seq<Seq<char>>, i: int, p: int)
    requires
        0 <= i <= p <= lines.len(),
        forall|t: int| i <= t < p ==> !is_blank(#[trigger] lines[t]) && !starts_block(lines[t]),
        p < lines.len() ==> is_blank(lines[p]) || starts_block(lines[p]),
    ensures
        block_boundary(lines, i) == p,
{
    lemma_block_boundary(lines, i);
    let b = block_boundary(lines, i);
    if b < p {
        assert(is_blank(lines[b]) || starts_block(lines[b]));
        assert(!is_blank(lines[b]) && !starts_block(lines[b]));
    }
    if b > p {
        assert(!is_blank(lines[p]) && !starts_block(lines[p]));
    }
}

/// A document of the shape `P + R + S` — everything up to and including
/// the declaration, a rewritten block, the rest — is a fixed point of
/// the identity upsert when the rewritten block is.
proof fn lemma_upsert_stable(
    p: Seq<Seq<char>>,
    r: Seq<Seq<char>>,
    s: Seq<Seq<char>>,
    name: Seq<char>,
    key: Seq<char>,
)
    requires
        p.len() >= 1,
        is_decl_for(p[p.len() - 1], name),
        forall|t: int| 0 <= t < p.len() - 1 ==> !is_decl_for(#[trigger] p[t], name),
        forall|t: int| 0 <= t < r.len() ==> !is_blank(#[trigger] r[t]) && !starts_block(r[t]),
        s.len() > 0 ==> is_blank(s[0]) || starts_block(s[0]),
        rw_block(r, key, false, false) == r,
    ensures
        upsert_identity_spec(p + r + s, name, key) == p + r + s,
{
    let l = p + r + s;
    let i0 = p.len() - 1 as int;
    assert(l[i0] == p[i0]);
    assert(has_decl(l, name));
    assert forall|t: int| 0 <= t < i0 implies !is_decl_for(#[trigger] l[t], name) by {
        assert(l[t] == p[t]);
    }
    lemma_first_decl_is(l, name, i0);
    let e0 = i0 + 1 + r.len() as int;
    assert forall|t: int| i0 + 1 <= t < e0 implies !is_blank(#[trigger] l[t]) && !starts_block(
        l[t],
    ) by {
        assert(l[t] == r[t - (i0 + 1)]);
    }
    if s.len() > 0 {
        assert(l[e0] == s[0]);
    }
    lemma_boundary_is(l, i0 + 1, e0);
    assert(l.subrange(0, i0 + 1) =~= p);
    assert(l.subrange(i0 + 1, e0) =~= r);
    assert(l.subrange(e0, l.len() as int) =~= s);
    assert(upsert_identity_spec(l, name, key) =~= l);
}

/// Identity upsert idempotence.
///
/// Applying the identity upsert twice with the same name and key gives
/// the same document as applying it once: the second pass finds the one
/// `IdentityFile` line and the one `AddKeysToAgent yes` line it wrote
/// and leaves every line in place.
pub proof fn lemma_upsert_identity_idempotent(
    lines: Seq<Seq<char>>,
    name: Seq<char>,
    key: Seq<char>,
)
    ensures
        upsert_identity_spec(upsert_identity_spec(lines, name, key), name, key)
            == upsert_identity_spec(lines, name, key),
{
    lemma_upsert_template_lines(key, name);
    let l1 = upsert_identity_spec(lines, name, key);
    if has_decl(lines, name) {
        let i = first_decl_from(lines, name, 0);
        let j = block_boundary(lines, i + 1);
        lemma_has_decl_first(lines, name);
        lemma_first_decl_from(lines, name, 0);
        lemma_block_boundary(lines, i + 1);
        let p = lines.subrange(0, i + 1);
        let block = lines.subrange(i + 1, j);
        let r = rw_block(block, key, false, false);
        let s = lines.subrange(j, lines.len() as int);
        assert(l1 == p + r + s);
        assert(p[p.len() - 1] == lines[i]);
        assert forall|t: int| 0 <= t < p.len() - 1 implies !is_decl_for(
            #[trigger] p[t],
            name,
        ) by {
            assert(p[t] == lines[t]);
        }
        assert forall|t: int| 0 <= t < block.len() implies !is_blank(#[trigger] block[t])
            && !starts_block(block[t]) by {
            assert(block[t] == lines[i + 1 + t]);
        }
        lemma_rw_block_non_boundary(block, key, false, false);
        lemma_rw_block_idempotent(block, key, false, false);
        if s.len() > 0 {
            assert(s[0] == lines[j as int]);
        }
        lemma_upsert_stable(p, r, s, name, key);
    } else {
        let p = lines + seq![Seq::<char>::empty(), host_line(name)];
        let r = seq![identity_line(key), agent_yes_line()];
        let s = Seq::<Seq<char>>::empty();
        assert(l1 =~= p + r + s);
        lemma_host_line_matches(name);
        assert(p[p.len() - 1] == host_line(name));
        assert forall|t: int| 0 <= t < p.len() - 1 implies !is_decl_for(
            #[trigger] p[t],
            name,
        ) by {
            if t < lines.len() {
                assert(p[t] == lines[t]);
                if is_decl_for(lines[t], name) {
                    assert(has_decl(lines, name));
                }
            } else {
                assert(p[t] == Seq::<char>::empty());
                if is_decl_for(p[t], name) {
                    let m = choose|m: int|
                        crate::grammar::decl_split_at(Seq::<char>::empty(), name, m);
                }
            }
        }
        assert(r.first() == identity_line(key));
        assert(r.drop_first() =~= seq![agent_yes_line()]);
        let r2 = seq![agent_yes_line()];
        assert(r2.first() == agent_yes_line());
        assert(r2.drop_first() =~= Seq::<Seq<char>>::empty());
        assert(rw_block(Seq::<Seq<char>>::empty(), key, true, true)
            =~= Seq::<Seq<char>>::empty());
        assert(rw_block(r2, key, true, false) =~= r2);
        assert(rw_block(r, key, false, false) =~= r);
        lemma_upsert_stable(p, r, s, name, key);
        assert(upsert_identity_spec(l1, name, key) == l1);
    }
}

/// The string `    IdentityFile <key>`.
pub(crate) fn make_identity_line(key: &str) -> (r: String)
    ensures
        r@ == identity_line(key@),
        no_nl(key@) ==> no_nl(r@),
{
    let mut l = String::new();
    l.append("    IdentityFile ");
    l.append(key);
    proof {
        lemma_template_literals();
        reveal(crate::grammar::identity_line);
        assert(l@ =~= identity_line(key@));
    }
    l
}

/// The string `    AddKeysToAgent yes`.
pub(crate) fn make_agent_line() -> (r: String)
    ensures
        r@ == agent_yes_line(),
        no_nl(r@),
{
    let mut l = String::new();
    l.append("    AddKeysToAgent yes");
    proof {
        lemma_template_literals();
        reveal(crate::grammar::agent_yes_line);
        assert(l@ =~= agent_yes_line());
    }
    l
}

impl SSHConfig {
    /// Index of the first line at or after `from` that is blank or
    /// opens a block.
    fn block_boundary_exec(&self, from: usize) -> (r: usize)
        requires
            from <= self@.len(),
        ensures
            r as int == block_boundary(self@, from as int),
            from <= r <= self@.len(),
    {
        let n = self.len();
        let mut k: usize = from;
        while k < n
            invariant
                from <= k <= n,
                n == self@.len(),
                block_boundary(self@, from as int) == block_boundary(self@, k as int),
            decreases n - k,
        {
            let line = self.line_at(k);
            let blank = line_is_blank(line.as_str());
            let opens = crate::grammar::line_starts_block(line.as_str());
            if blank || opens {
                proof {
                    lemma_block_boundary(self@, from as int);
                }
                return k;
            }
            k += 1;
        }
        proof {
            lemma_block_boundary(self@, from as int);
        }
        n
    }

    /// Rewrite the block of `name` so that it carries exactly one
    /// `IdentityFile <key>` directive and exactly one
    /// `AddKeysToAgent yes` directive; append a minimal block when no
    /// block for `name` exists.
    ///
    /// An existing `IdentityFile` line is replaced in place, an
    /// existing `AddKeysToAgent` line is normalized to `yes`, further
    /// lines of either kind are dropped, and missing directives are
    /// inserted at the end of the block, before its boundary.
    pub fn upsert_identity(&mut self, name: &str, key: &str)
        requires
            old(self).wf(),
            no_nl(name@),
            no_nl(key@),
        ensures
            final(self)@ == upsert_identity_spec(old(self)@, name@, key@),
            final(self).wf(),
    {
        let found = self.find_block(name);
        match found {
            None => {
                let ghost base = self@;
                proof {
                    lemma_template_literals();
                }
                self.push_line(String::new());
                let mut l1 = String::new();
                l1.append("Host ");
                l1.append(name);
                self.push_line(l1);
                self.push_line(make_identity_line(key));
                self.push_line(make_agent_line());
                proof {
                    assert(self@ =~= base + minimal_block(name@, key@));
                    assert forall|ix: int| 0 <= ix < self@.len() implies no_nl(
                        #[trigger] self@[ix],
                    ) by {
                        if ix < base.len() {
                            assert(no_nl(base[ix]));
                        }
                    }
                }
            },
            Some(i) => {
                let n = self.len();
                let j = self.block_boundary_exec(i + 1);
                let ghost block = self@.subrange(i as int + 1, j as int);
                let ghost target = self@.subrange(0, i as int + 1) + rw_block(
                    block,
                    key@,
                    false,
                    false,
                );
                let mut kept: Vec<String> = Vec::new();
                let mut k: usize = 0;
                while k < i + 1
                    invariant
                        k <= i + 1,
                        i < n,
                        n == self@.len(),
                        (i as int) < self@.len(),
                        self@ == old(self)@,
                        self.wf(),
                        strings_view(kept@) == self@.subrange(0, k as int),
                    decreases i + 1 - k,
                {
                    let ghost pre = strings_view(kept@);
                    let line = self.line_at(k);
                    kept.push(line.clone());
                    proof {
                        assert(strings_view(kept@) =~= pre.push(self@[k as int]));
                        assert(strings_view(kept@) =~= self@.subrange(0, k as int + 1));
                    }
                    k += 1;
                }
                let mut seen_id = false;
                let mut seen_ag = false;
                let mut p: usize = i + 1;
                proof {
                    assert(block.skip(0) =~= block);
                    assert(strings_view(kept@) + rw_block(block, key@, false, false) == target);
                }
                while p < j
                    invariant
                        i as int + 1 <= p as int <= j as int,
                        j <= n,
                        n == self@.len(),
                        self@ == old(self)@,
                        self.wf(),
                        no_nl(key@),
                        block == self@.subrange(i as int + 1, j as int),
                        strings_view(kept@) + rw_block(
                            block.skip(p as int - (i as int + 1)),
                            key@,
                            seen_id,
                            seen_ag,
                        ) == target,
                        lines_wf(strings_view(kept@)),
                    decreases j - p,
                {
                    let ghost pre = strings_view(kept@);
                    let ghost bs = block.skip(p as int - (i as int + 1));
                    proof {
                        assert(bs.first() == self@[p as int]);
                        assert(bs.drop_first() =~= block.skip(p as int + 1 - (i as int + 1)));
                        lemma_upsert_template_lines(key@, name@);
                    }
                    let line = self.line_at(p);
                    if line_is_identity(line.as_str()) {
                        if !seen_id {
                            kept.push(make_identity_line(key));
                            proof {
                                assert(strings_view(kept@) =~= pre.push(identity_line(key@)));
                                assert(strings_view(kept@) + rw_block(
                                    bs.drop_first(),
                                    key@,
                                    true,
                                    seen_ag,
                                ) =~= pre + (seq![identity_line(key@)] + rw_block(
                                    bs.drop_first(),
                                    key@,
                                    true,
                                    seen_ag,
                                )));
                            }
                        }
                        seen_id = true;
                    } else if line_is_agent(line.as_str()) {
                        if !seen_ag {
                            kept.push(make_agent_line());
                            proof {
                                assert(strings_view(kept@) =~= pre.push(agent_yes_line()));
                                assert(strings_view(kept@) + rw_block(
                                    bs.drop_first(),
                                    key@,
                                    seen_id,
                                    true,
                                ) =~= pre + (seq![agent_yes_line()] + rw_block(
                                    bs.drop_first(),
                                    key@,
                                    seen_id,
                                    true,
                                )));
                            }
                        }
                        seen_ag = true;
                    } else {
                        kept.push(line.clone());
                        proof {
                            assert(strings_view(kept@) =~= pre.push(self@[p as int]));
                            assert(strings_view(kept@) + rw_block(
                                bs.drop_first(),
                                key@,
                                seen_id,
                                seen_ag,
                            ) =~= pre + (seq![self@[p as int]] + rw_block(
                                bs.drop_first(),
                                key@,
                                seen_id,
                                seen_ag,
                            )));
                        }
                    }
                    p += 1;
                }
                let ghost pre_tail = strings_view(kept@);
                proof {
                    assert(block.skip(j as int - (i as int + 1)) =~= Seq::<Seq<char>>::empty());
                }
                if !seen_id {
                    kept.push(make_identity_line(key));
                }
                if !seen_ag {
                    kept.push(make_agent_line());
                }
                proof {
                    let x = rw_block(Seq::<Seq<char>>::empty(), key@, seen_id, seen_ag);
                    if !seen_id && !seen_ag {
                        assert(x =~= seq![identity_line(key@), agent_yes_line()]);
                        assert(strings_view(kept@) =~= pre_tail + x);
                    } else if !seen_id {
                        assert(x =~= seq![identity_line(key@)]);
                        assert(strings_view(kept@) =~= pre_tail + x);
                    } else if !seen_ag {
                        assert(x =~= seq![agent_yes_line()]);
                        assert(strings_view(kept@) =~= pre_tail + x);
                    } else {
                        assert(x =~= Seq::<Seq<char>>::empty());
                        assert(strings_view(kept@) =~= pre_tail + x);
                    }
                    assert(strings_view(kept@) == target);
                }
                let mut q: usize = j;
                while q < n
                    invariant
                        j <= q <= n,
                        n == self@.len(),
                        self@ == old(self)@,
                        self.wf(),
                        j as int == block_boundary(self@, i as int + 1),
                        strings_view(kept@) == target + self@.subrange(j as int, q as int),
                        lines_wf(strings_view(kept@)),
                    decreases n - q,
                {
                    let ghost pre = strings_view(kept@);
                    let line = self.line_at(q);
                    kept.push(line.clone());
                    proof {
                        assert(strings_view(kept@) =~= pre.push(self@[q as int]));
                        assert(target + self@.subrange(j as int, q as int + 1) =~= pre.push(
                            self@[q as int],
                        ));
                    }
                    q += 1;
                }
                let ghost base = self@;
                self.set_lines(kept);
                proof {
                    assert(has_decl(base, name@));
                    assert(self@ =~= target + base.subrange(j as int, n as int));
                    assert(upsert_identity_spec(base, name@, key@) == base.subrange(
                        0,
                        i as int + 1,
                    ) + rw_block(block, key@, false, false) + base.subrange(j as int, n as int));
                    assert(self@ =~= upsert_identity_spec(base, name@, key@));
                }
            },
        }
    }
}

} // verus!
