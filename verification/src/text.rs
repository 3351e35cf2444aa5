//! Small helpers for building human-readable strings: appending one
//! character, and writing an integer in decimal.

use vstd::prelude::*;

verus! {

/// Relies on `String::push` of std, which vstd gives no specification:
/// it appends exactly the one character to the end of the string.
#[verifier::external_body]
pub(crate) fn push_char(s: &mut String, c: char)
    ensures
        final(s)@ == old(s)@.push(c),
{
    s.push(c);
}

/// The decimal digits of `n`, most significant first.
pub open spec fn dec_str(n: nat) -> Seq<char>
    decreases n,
{
    if n < 10 {
        seq![((48 + n) as u8) as char]
    } else {
        dec_str(n / 10).push(((48 + n % 10) as u8) as char)
    }
}

/// Appends the decimal digits of `n` to `s`.
pub(crate) fn append_u64(s: &mut String, n: u64)
    ensures
        final(s)@ == old(s)@ + dec_str(n as nat),
    decreases n,
{
    if n < 10 {
        let d = ((48 + n) as u8) as char;
        push_char(s, d);
        proof {
            assert(old(s)@.push(d) =~= old(s)@ + dec_str(n as nat));
        }
    } else {
        append_u64(s, n / 10);
        let d = ((48 + n % 10) as u8) as char;
        push_char(s, d);
        proof {
            assert((old(s)@ + dec_str((n / 10) as nat)).push(d) =~= old(s)@ + dec_str(n as nat));
        }
    }
}

} // verus!
