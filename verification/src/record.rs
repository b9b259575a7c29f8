//! The read-only connection record: one `Host` block projected onto its
//! `HostName`, `User` and `Port` directive values.

use vstd::prelude::*;
use vstd::string::*;
use crate::document::SSHConfig;
use crate::edit::{
    decl_indices, decl_indices_prefix, first_decl_from, has_decl, lemma_decl_indices, names_of,
    next_block_start,
};
use crate::grammar::{
    directive_value, directive_with, hostname_kw, is_decl, line_directive_value, line_is_decl,
    line_name_of, name_of, port_kw, user_kw,
};

verus! {

/// One stored connection as `list` projects it: the block's name and
/// the values of its `HostName`, `User` and `Port` directives, each
/// unset when the block carries no such directive.
pub struct SSHConnection {
    pub name: String,
    pub host: Option<String>,
    pub user: Option<String>,
    pub port: Option<String>,
}

/// The character view of an optional string.
pub open spec fn opt_str_view(o: Option<String>) -> Option<Seq<char>> {
    match o {
        Some(s) => Some(s@),
        None => None,
    }
}

/// Index of the first line in `[i, end)` carrying a `<kw>` directive,
/// or `end` if there is none.
pub open spec fn first_directive_from(
    lines: Seq<Seq<char>>,
    kw: Seq<char>,
    i: int,
    end: int,
) -> int
    decreases end - i when i <= end
{
    if i >= end {
        end
    } else if directive_with(lines[i], kw) {
        i
    } else {
        first_directive_from(lines, kw, i + 1, end)
    }
}

pub proof fn lemma_first_directive_from(lines: Seq<Seq<char>>, kw: Seq<char>, i: int, end: int)
    requires
        i <= end,
    ensures
        i <= first_directive_from(lines, kw, i, end) <= end,
        forall|t: int|
            i <= t < first_directive_from(lines, kw, i, end) ==> !directive_with(
                #[trigger] lines[t],
                kw,
            ),
        first_directive_from(lines, kw, i, end) < end ==> directive_with(
            lines[first_directive_from(lines, kw, i, end)],
            kw,
        ),
    decreases end - i,
{
    if i < end && !directive_with(lines[i], kw) {
        lemma_first_directive_from(lines, kw, i + 1, end);
    }
}

/// The value of the first `<kw>` directive in `[i, end)`, if any.
pub open spec fn block_value(
    lines: Seq<Seq<char>>,
    kw: Seq<char>,
    i: int,
    end: int,
) -> Option<Seq<char>> {
    let t = first_directive_from(lines, kw, i, end);
    if t < end {
        Some(directive_value(lines[t], kw))
    } else {
        None
    }
}

/// `c` is the projection of the block whose declaration stands at
/// index `i`.
pub open spec fn record_matches(lines: Seq<Seq<char>>, i: int, c: SSHConnection) -> bool {
    let j = next_block_start(lines, i + 1);
    &&& c.name@ == name_of(lines[i])
    &&& opt_str_view(c.host) == block_value(lines, hostname_kw(), i + 1, j)
    &&& opt_str_view(c.user) == block_value(lines, user_kw(), i + 1, j)
    &&& opt_str_view(c.port) == block_value(lines, port_kw(), i + 1, j)
}

impl SSHConfig {
    /// The value of the first `<kw>` directive between `from` and
    /// `end`.
    fn block_value_exec(&self, kw: &str, from: usize, end: usize) -> (r: Option<String>)
        requires
            from <= end <= self@.len(),
        ensures
            opt_str_view(r) == block_value(self@, kw@, from as int, end as int),
    {
        let mut t: usize = from;
        while t < end
            invariant
                from <= t <= end <= self@.len(),
                first_directive_from(self@, kw@, from as int, end as int) == first_directive_from(
                    self@,
                    kw@,
                    t as int,
                    end as int,
                ),
            decreases end - t,
        {
            let line = self.line_at(t);
            let found = line_directive_value(line.as_str(), kw);
            match found {
                Some(v) => {
                    proof {
                        lemma_first_directive_from(self@, kw@, from as int, end as int);
                    }
                    return Some(v);
                },
                None => {},
            }
            t += 1;
        }
        None
    }

    /// Project the block whose declaration stands at line `i`.
    pub fn connection_at(&self, i: usize) -> (r: SSHConnection)
        requires
            i < self@.len(),
            is_decl(self@[i as int]),
        ensures
            record_matches(self@, i as int, r),
    {
        let n = self.len();
        let j = self.next_block_start_exec(i + 1);
        let decl = self.line_at(i);
        let name = line_name_of(decl.as_str());
        let host = self.block_value_exec("HostName", i + 1, j);
        let user = self.block_value_exec("User", i + 1, j);
        let port = self.block_value_exec("Port", i + 1, j);
        proof {
            crate::grammar::lemma_directive_kw_literals();
        }
        SSHConnection { name, host, user, port }
    }

    /// Project the first block matching `name`, if any, under the name
    /// it was looked up by.
    pub fn find_connection(&self, name: &str) -> (r: Option<SSHConnection>)
        ensures
            match r {
                Some(c) => {
                    &&& has_decl(self@, name@)
                    &&& ({
                        let i = first_decl_from(self@, name@, 0);
                        let j = next_block_start(self@, i + 1);
                        &&& c.name@ == name@
                        &&& opt_str_view(c.host) == block_value(self@, hostname_kw(), i + 1, j)
                        &&& opt_str_view(c.user) == block_value(self@, user_kw(), i + 1, j)
                        &&& opt_str_view(c.port) == block_value(self@, port_kw(), i + 1, j)
                    })
                },
                None => !has_decl(self@, name@),
            },
    {
        let n = self.len();
        let found = self.find_block(name);
        match found {
            Some(i) => {
                proof {
                    assert(i < n);
                }
                let j = self.next_block_start_exec(i + 1);
                let host = self.block_value_exec("HostName", i + 1, j);
                let user = self.block_value_exec("User", i + 1, j);
                let port = self.block_value_exec("Port", i + 1, j);
                proof {
                    crate::grammar::lemma_directive_kw_literals();
                }
                Some(SSHConnection { name: name.to_owned(), host, user, port })
            },
            None => None,
        }
    }

    /// Project every block, in file order: one record per declaration
    /// line, named exactly as `list_connections` lists it.
    pub fn list_records(&self) -> (r: Vec<SSHConnection>)
        ensures
            r@.len() == decl_indices(self@).len(),
            forall|k: int|
                0 <= k < r@.len() ==> record_matches(self@, decl_indices(self@)[k], #[trigger] r@[k]),
            r@.len() == names_of(self@).len(),
            forall|k: int| 0 <= k < r@.len() ==> (#[trigger] r@[k]).name@ == names_of(self@)[k],
    {
        let n = self.len();
        let mut r: Vec<SSHConnection> = Vec::new();
        let mut k: usize = 0;
        while k < n
            invariant
                k <= n,
                n == self@.len(),
                r@.len() == decl_indices_prefix(self@, k as int).len(),
                forall|t: int|
                    0 <= t < r@.len() ==> record_matches(
                        self@,
                        decl_indices_prefix(self@, k as int)[t],
                        #[trigger] r@[t],
                    ),
            decreases n - k,
        {
            let ghost pre = decl_indices_prefix(self@, k as int);
            let line = self.line_at(k);
            if line_is_decl(line.as_str()) {
                let c = self.connection_at(k);
                r.push(c);
                proof {
                    let cur = decl_indices_prefix(self@, k as int + 1);
                    assert(cur == pre.push(k as int));
                    assert forall|t: int| 0 <= t < r@.len() implies record_matches(
                        self@,
                        cur[t],
                        #[trigger] r@[t],
                    ) by {
                        if t < pre.len() {
                            assert(cur[t] == pre[t]);
                        } else {
                            assert(cur[t] == k as int);
                        }
                    }
                }
            }
            k += 1;
        }
        proof {
            lemma_decl_indices(self@, self@.len() as int);
        }
        r
    }

}

} // verus!
