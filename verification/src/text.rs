use vstd::prelude::*;
use vstd::string::StrSliceExecFns;

verus! {

/// The character for digit value `d`: `0`..`9`, then `A`..`F`.
pub open spec fn digit_char(d: u8) -> char
    recommends
        d < 16,
{
    if d < 10 {
        ((48 + d) as u8) as char
    } else {
        ((55 + d) as u8) as char
    }
}

/// The decimal digits of `n`, most significant first, no sign and no padding.
pub open spec fn dec_of(n: nat) -> Seq<char>
    decreases n,
{
    if n < 10 {
        seq![digit_char(n as u8)]
    } else {
        dec_of(n / 10).push(digit_char((n % 10) as u8))
    }
}

/// The two hexadecimal digits of `b`, high nibble first, uppercase letters.
pub open spec fn hex_of(b: u8) -> Seq<char> {
    seq![digit_char(b / 16), digit_char(b % 16)]
}

/// `c` with an ASCII lowercase letter mapped to its uppercase form;
/// every other character is unchanged.
pub open spec fn upper_char(c: char) -> char {
    if 97 <= c as u32 && c as u32 <= 122 {
        (((c as u32) - 32) as u8) as char
    } else {
        c
    }
}

/// `s` with every ASCII lowercase letter uppercased.
pub open spec fn upper_of(s: Seq<char>) -> Seq<char> {
    s.map_values(|c: char| upper_char(c))
}

/// Relies on std's `String::push`: appends the given character to the end
/// of the string.
#[verifier::external_body]
pub(crate) fn push_char(out: &mut String, c: char)
    ensures
        final(out)@ == old(out)@.push(c),
{
    out.push(c);
}

/// The character for digit value `d`, as an executable computation.
fn digit_exec(d: u8) -> (c: char)
    requires
        d < 16,
    ensures
        c == digit_char(d),
{
    if d < 10 {
        (48 + d) as char
    } else {
        (55 + d) as char
    }
}

/// Appends the decimal digits of `n`.
pub fn append_dec(out: &mut String, n: u64)
    ensures
        final(out)@ == old(out)@ + dec_of(n as nat),
    decreases n,
{
    if n < 10 {
        push_char(out, digit_exec(n as u8));
        proof {
            assert(out@ =~= old(out)@ + dec_of(n as nat));
        }
    } else {
        append_dec(out, n / 10);
        push_char(out, digit_exec((n % 10) as u8));
        proof {
            assert(out@ =~= old(out)@ + dec_of(n as nat));
        }
    }
}

/// Appends `0x` followed by the two hexadecimal digits of `b`.
pub fn append_hex(out: &mut String, b: u8)
    ensures
        final(out)@ == old(out)@ + "0x"@ + hex_of(b),
{
    out.append("0x");
    push_char(out, digit_exec(b / 16));
    push_char(out, digit_exec(b % 16));
    proof {
        assert(out@ =~= old(out)@ + "0x"@ + hex_of(b));
    }
}

/// Appends `s` with every ASCII lowercase letter uppercased.
pub fn append_upper(out: &mut String, s: &str)
    ensures
        final(out)@ == old(out)@ + upper_of(s@),
{
    let n = s.unicode_len();
    proof {
        assert(out@ =~= old(out)@ + upper_of(s@).take(0));
    }
    let mut i: usize = 0;
    while i < n
        invariant
            n == s@.len(),
            i <= n,
            out@ == old(out)@ + upper_of(s@).take(i as int),
        decreases n - i,
    {
        let c = s.get_char(i);
        let u = c as u32;
        let up: char = if 97 <= u && u <= 122 {
            ((u - 32) as u8) as char
        } else {
            c
        };
        proof {
            assert(up == upper_char(s@[i as int]));
        }
        push_char(out, up);
        proof {
            assert(out@ =~= old(out)@ + upper_of(s@).take(i as int + 1));
        }
        i += 1;
    }
    proof {
        assert(upper_of(s@).take(n as int) =~= upper_of(s@));
    }
}

} // verus!
