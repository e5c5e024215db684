//! Parsing of the repeatable `key=value` metadata-override argument.

use vstd::prelude::*;
use vstd::string::*;

verus! {

/// Position of the first `'='` at or after `i`, or the length when none.
pub open spec fn first_eq_from(s: Seq<char>, i: int) -> int
    decreases s.len() - i when 0 <= i <= s.len()
{
    if i >= s.len() {
        s.len() as int
    } else if s[i] == '=' {
        i
    } else {
        first_eq_from(s, i + 1)
    }
}

/// Position of the first `'='` in `s`, or the length when there is none.
pub open spec fn first_eq(s: Seq<char>) -> int {
    first_eq_from(s, 0)
}

/// The message every malformed pair is rejected with.
pub open spec fn invalid_pair_msg(s: Seq<char>) -> Seq<char> {
    "Invalid key=value pair: "@ + s
}

/// A scan that saw no `'='` so far finds the same first one.
proof fn lemma_first_eq_prefix(s: Seq<char>, i: int)
    requires
        0 <= i <= s.len(),
        forall|k: int| 0 <= k < i ==> s[k] != '=',
    ensures
        first_eq(s) == first_eq_from(s, i),
    decreases i,
{
    if i > 0 {
        lemma_first_eq_prefix(s, i - 1);
    }
}

fn find_eq(s: &str) -> (p: usize)
    ensures
        p == first_eq(s@),
        p <= s@.len(),
{
    let len = s.unicode_len();
    let mut i: usize = 0;
    while i < len
        invariant
            i <= len,
            len == s@.len(),
            forall|k: int| 0 <= k < i ==> s@[k] != '=',
        decreases len - i,
    {
        if s.get_char(i) == '=' {
            proof {
                lemma_first_eq_prefix(s@, i as int);
            }
            return i;
        }
        i = i + 1;
    }
    proof {
        lemma_first_eq_prefix(s@, len as int);
    }
    len
}

/// Split one `key=value` argument at its first `'='`. A pair without `'='`,
/// with an empty key, or with an empty value is rejected, with the offending
/// argument named in the message.
pub fn parse_key_value(s: &str) -> (r: Result<(String, String), String>)
    ensures
        ({
            let p = first_eq(s@);
            match r {
                Ok((k, v)) => 1 <= p && p + 1 < s@.len() && k@ == s@.subrange(0, p) && v@
                    == s@.subrange(p + 1, s@.len() as int),
                Err(e) => (p == s@.len() || p == 0 || p + 1 == s@.len()) && e@
                    == invalid_pair_msg(s@),
            }
        }),
{
    let len = s.unicode_len();
    let p = find_eq(s);
    if p == len || p == 0 || p + 1 == len {
        let mut msg = String::from_str("Invalid key=value pair: ");
        msg.append(s);
        Err(msg)
    } else {
        let key = String::from_str(s.substring_char(0, p));
        let value = String::from_str(s.substring_char(p + 1, len));
        Ok((key, value))
    }
}

} // verus!
