//! Quoting for the one remote command this tool runs over SSH: probing
//! whether a public key is already authorized.

use vstd::prelude::*;
use vstd::string::*;
use crate::text::push_char;

verus! {

/// `s` with every single quote replaced by the four characters
/// `'\''`, making it safe inside a single-quoted shell word.
pub open spec fn shell_escaped(s: Seq<char>) -> Seq<char>
    decreases s.len(),
{
    if s.len() == 0 {
        Seq::empty()
    } else {
        (if s.first() == '\'' {
            seq!['\'', '\\', '\'', '\'']
        } else {
            seq![s.first()]
        }) + shell_escaped(s.drop_first())
    }
}

/// Escape single quotes for use inside a single-quoted shell word.
pub fn escape_single_quotes(s: &str) -> (r: String)
    ensures
        r@ == shell_escaped(s@),
{
    let n = s.unicode_len();
    let mut out = String::new();
    let mut i: usize = 0;
    proof {
        assert(s@.skip(0) =~= s@);
        assert(out@ + shell_escaped(s@) =~= shell_escaped(s@));
    }
    while i < n
        invariant
            i <= n,
            n == s@.len(),
            out@ + shell_escaped(s@.skip(i as int)) == shell_escaped(s@),
        decreases n - i,
    {
        let ghost pre = out@;
        let ghost rest = s@.skip(i as int);
        proof {
            assert(rest.first() == s@[i as int]);
            assert(rest.drop_first() =~= s@.skip(i as int + 1));
        }
        let c = s.get_char(i);
        if c == '\'' {
            push_char(&mut out, '\'');
            push_char(&mut out, '\\');
            push_char(&mut out, '\'');
            push_char(&mut out, '\'');
            proof {
                assert(out@ =~= pre + seq!['\'', '\\', '\'', '\'']);
                assert(out@ + shell_escaped(s@.skip(i as int + 1)) =~= pre + (seq![
                    '\'',
                    '\\',
                    '\'',
                    '\'',
                ] + shell_escaped(s@.skip(i as int + 1))));
            }
        } else {
            push_char(&mut out, c);
            proof {
                assert(out@ =~= pre + seq![c]);
                assert(out@ + shell_escaped(s@.skip(i as int + 1)) =~= pre + (seq![c]
                    + shell_escaped(s@.skip(i as int + 1))));
            }
        }
        i += 1;
    }
    proof {
        assert(s@.skip(n as int) =~= Seq::<char>::empty());
    }
    out
}

/// The remote command probing `~/.ssh/authorized_keys` for a key.
pub fn remote_key_probe_command(public_key: &str) -> (r: String)
    ensures
        r@ == "grep -qF '"@ + shell_escaped(public_key@) + "' ~/.ssh/authorized_keys"@,
{
    let mut out = String::new();
    out.append("grep -qF '");
    let escaped = escape_single_quotes(public_key);
    out.append(escaped.as_str());
    out.append("' ~/.ssh/authorized_keys");
    out
}

} // verus!
