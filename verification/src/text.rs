//! Conversions between `&str` / `String` and vectors of characters.
//!
//! The rest of the library does all of its text work on `Vec<char>`, whose
//! view is the same `Seq<char>` as a string's view, so these conversions are
//! identities at the specification level.

use vstd::prelude::*;
use vstd::string::StrSliceExecFns;

verus! {

/// Collects the characters of `s` into a vector, one element per character.
pub fn str_to_chars(s: &str) -> (r: Vec<char>)
    ensures
        r@ == s@,
{
    let n = s.unicode_len();
    let mut out: Vec<char> = Vec::new();
    let mut i: usize = 0;
    while i < n
        invariant
            i <= n,
            n == s@.len(),
            out@ == s@.take(i as int),
        decreases n - i,
    {
        let c = s.get_char(i);
        out.push(c);
        proof {
            assert(out@ =~= s@.take(i as int + 1));
        }
        i += 1;
    }
    proof {
        assert(out@ =~= s@);
    }
    out
}

/// Relies on `String`'s `FromIterator<char>` implementation: collecting an
/// iterator of characters yields the string whose characters are exactly
/// those characters, in order.
#[verifier::external_body]
pub fn chars_to_string(v: &Vec<char>) -> (r: String)
    ensures
        r@ == v@,
{
    v.iter().collect()
}

} // verus!
