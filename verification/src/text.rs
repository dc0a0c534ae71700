//! Small text building blocks shared by the status payload and the ticker
//! list codec: pushing single characters onto a `String`, reading a `&str`
//! out into its characters, and decimal digits.

use vstd::prelude::*;

verus! {

/// Relies on `String::push`: appends exactly this one character.
#[verifier::external_body]
pub fn push_char(s: &mut String, c: char)
    ensures
        final(s)@ == old(s)@.push(c),
{
    s.push(c)
}

/// The characters of a string slice, as a vector to parse over. Costs
/// quadratic time in the slice's length; the texts read here are small.
pub fn chars_of(s: &str) -> (r: Vec<char>)
    ensures
        r@ == s@,
{
    let n = s.unicode_len();
    let mut r: Vec<char> = Vec::new();
    let mut i: usize = 0;
    while i < n
        invariant
            n == s@.len(),
            i <= n,
            r@ == s@.subrange(0, i as int),
        decreases n - i,
    {
        let c = s.get_char(i);
        r.push(c);
        proof {
            assert(r@ =~= s@.subrange(0, i + 1));
        }
        i = i + 1;
    }
    proof {
        assert(r@ =~= s@);
    }
    r
}

/// The character for one decimal digit.
pub open spec fn digit_char(d: nat) -> char
    recommends
        d < 10,
{
    ((d + 48) as u8) as char
}

/// The decimal numeral of `n`: most significant digit first, no sign, no
/// leading zero except for `n == 0` itself.
pub open spec fn dec_digits(n: nat) -> Seq<char>
    decreases n,
{
    if n < 10 {
        seq![digit_char(n)]
    } else {
        dec_digits(n / 10).push(digit_char(n % 10))
    }
}

/// Appends the decimal numeral of `n`.
pub fn push_dec_digits(out: &mut String, n: u64)
    ensures
        final(out)@ == old(out)@ + dec_digits(n as nat),
    decreases n,
{
    if n < 10 {
        push_char(out, (48 + (n as u8)) as char);
        proof {
            assert(old(out)@.push(digit_char(n as nat)) =~= old(out)@ + dec_digits(n as nat));
        }
    } else {
        push_dec_digits(out, n / 10);
        push_char(out, (48 + ((n % 10) as u8)) as char);
        proof {
            assert((old(out)@ + dec_digits((n / 10) as nat)).push(digit_char((n % 10) as nat))
                =~= old(out)@ + dec_digits(n as nat));
        }
    }
}

} // verus!
