//! Decimal and hexadecimal numerals as character sequences.

use vstd::prelude::*;

verus! {

// ---------------------------------------------------------------------------
// Decimal numerals
// ---------------------------------------------------------------------------

/// An ASCII decimal digit.
pub open spec fn dec_digit(c: char) -> bool {
    '0' <= c && c <= '9'
}

/// The numeric value of a decimal digit.
pub open spec fn dec_digit_value(c: char) -> nat {
    (c as int - '0' as int) as nat
}

/// Every character of `s` is a decimal digit.
pub open spec fn all_dec_digits(s: Seq<char>) -> bool {
    forall|i: int| 0 <= i < s.len() ==> dec_digit(#[trigger] s[i])
}

/// The value of a string of decimal digits, most significant digit first.
pub open spec fn dec_value(s: Seq<char>) -> nat
    decreases s.len(),
{
    if s.len() == 0 {
        0
    } else {
        dec_value(s.drop_last()) * 10 + dec_digit_value(s.last())
    }
}

/// The digits of a numeral as `u32::from_str` reads them: one optional
/// leading plus sign is skipped.
pub open spec fn numeral_digits(s: Seq<char>) -> Seq<char> {
    if s.len() > 0 && s[0] == '+' {
        s.skip(1)
    } else {
        s
    }
}

/// The numerals that `u32::from_str` accepts: an optional plus sign, then at
/// least one decimal digit, the value no more than `u32::MAX`.
pub open spec fn valid_u32_numeral(s: Seq<char>) -> bool {
    let digits = numeral_digits(s);
    digits.len() > 0 && all_dec_digits(digits) && dec_value(digits) <= u32::MAX
}

/// Relies on `<u32 as FromStr>::from_str`: parses an optional plus sign
/// followed by decimal digits, rejecting anything else, an empty digit
/// string, a minus sign, and values above `u32::MAX`.
pub assume_specification[ <u32 as core::str::FromStr>::from_str ](s: &str) -> (r: Result<
    u32,
    std::num::ParseIntError,
>)
    ensures
        r is Ok <==> valid_u32_numeral(s@),
        r matches Ok(v) ==> v == dec_value(numeral_digits(s@)),
;

/// The decimal digit with value `d`.
pub open spec fn dec_char(d: nat) -> char {
    if d == 0 {
        '0'
    } else if d == 1 {
        '1'
    } else if d == 2 {
        '2'
    } else if d == 3 {
        '3'
    } else if d == 4 {
        '4'
    } else if d == 5 {
        '5'
    } else if d == 6 {
        '6'
    } else if d == 7 {
        '7'
    } else if d == 8 {
        '8'
    } else {
        '9'
    }
}

/// The decimal numeral of `n`: no sign, no leading zero except for the
/// numeral of zero itself.
pub open spec fn dec_numeral(n: nat) -> Seq<char>
    decreases n,
{
    if n < 10 {
        seq![dec_char(n)]
    } else {
        dec_numeral(n / 10).push(dec_char(n % 10))
    }
}

/// The decimal digit with value `d`, executably.
fn dec_char_exec(d: u32) -> (c: char)
    requires
        d < 10,
    ensures
        c == dec_char(d as nat),
{
    if d == 0 {
        '0'
    } else if d == 1 {
        '1'
    } else if d == 2 {
        '2'
    } else if d == 3 {
        '3'
    } else if d == 4 {
        '4'
    } else if d == 5 {
        '5'
    } else if d == 6 {
        '6'
    } else if d == 7 {
        '7'
    } else if d == 8 {
        '8'
    } else {
        '9'
    }
}

/// Appends the decimal numeral of `n` to `out`.
pub fn push_dec_u32(n: u32, out: &mut Vec<char>)
    ensures
        final(out)@ == old(out)@ + dec_numeral(n as nat),
    decreases n,
{
    if n < 10 {
        out.push(dec_char_exec(n));
    } else {
        push_dec_u32(n / 10, out);
        out.push(dec_char_exec(n % 10));
        proof {
            assert(old(out)@ + dec_numeral((n / 10) as nat).push(dec_char((n % 10) as nat)) =~= (
            old(out)@ + dec_numeral((n / 10) as nat)).push(dec_char((n % 10) as nat)));
        }
    }
}

/// Appends the decimal numeral of `n` to `out`.
pub fn push_dec_usize(n: usize, out: &mut Vec<char>)
    ensures
        final(out)@ == old(out)@ + dec_numeral(n as nat),
    decreases n,
{
    if n < 10 {
        out.push(dec_char_exec(n as u32));
    } else {
        push_dec_usize(n / 10, out);
        out.push(dec_char_exec((n % 10) as u32));
        proof {
            assert(old(out)@ + dec_numeral((n / 10) as nat).push(dec_char((n % 10) as nat)) =~= (
            old(out)@ + dec_numeral((n / 10) as nat)).push(dec_char((n % 10) as nat)));
        }
    }
}

/// The decimal numeral of a number is made of digits, does not begin with a
/// sign, and reads back as the number itself.
pub proof fn lemma_dec_numeral(n: nat)
    ensures
        dec_numeral(n).len() > 0,
        all_dec_digits(dec_numeral(n)),
        dec_numeral(n)[0] != '+',
        dec_value(dec_numeral(n)) == n,
    decreases n,
{
    if n < 10 {
        assert(dec_value(dec_numeral(n)) == dec_value(seq![dec_char(n)].drop_last()) * 10
            + dec_digit_value(dec_char(n)));
        assert(seq![dec_char(n)].drop_last() =~= Seq::<char>::empty());
    } else {
        lemma_dec_numeral(n / 10);
        let p = dec_numeral(n / 10);
        let whole = p.push(dec_char(n % 10));
        assert(whole.drop_last() =~= p);
        assert(whole.last() == dec_char(n % 10));
        assert(dec_value(whole) == dec_value(p) * 10 + dec_digit_value(dec_char(n % 10)));
        assert(dec_digit_value(dec_char(n % 10)) == n % 10);
        assert(whole[0] == p[0]);
        assert(forall|i: int|
            0 <= i < whole.len() ==> dec_digit(#[trigger] whole[i]) == (if i < p.len() {
                dec_digit(p[i])
            } else {
                dec_digit(dec_char(n % 10))
            }));
    }
}

// ---------------------------------------------------------------------------
// Hexadecimal numerals
// ---------------------------------------------------------------------------

/// An ASCII hexadecimal digit, of either case.
pub open spec fn hex_digit(c: char) -> bool {
    dec_digit(c) || ('a' <= c && c <= 'f') || ('A' <= c && c <= 'F')
}

/// The numeric value of a hexadecimal digit.
pub open spec fn hex_digit_value(c: char) -> nat {
    if dec_digit(c) {
        dec_digit_value(c)
    } else if 'a' <= c && c <= 'f' {
        (c as int - 'a' as int + 10) as nat
    } else {
        (c as int - 'A' as int + 10) as nat
    }
}

/// Every character of `s` is a hexadecimal digit.
pub open spec fn all_hex_digits(s: Seq<char>) -> bool {
    forall|i: int| 0 <= i < s.len() ==> hex_digit(#[trigger] s[i])
}

/// The value of a string of hexadecimal digits, most significant digit
/// first.
pub open spec fn hex_value(s: Seq<char>) -> nat
    decreases s.len(),
{
    if s.len() == 0 {
        0
    } else {
        hex_value(s.drop_last()) * 16 + hex_digit_value(s.last())
    }
}

/// The strings that `u8::from_str_radix` with radix sixteen accepts: an
/// optional plus sign, then at least one hexadecimal digit, the value no more
/// than `u8::MAX`.
pub open spec fn valid_u8_hex_numeral(s: Seq<char>) -> bool {
    let digits = numeral_digits(s);
    digits.len() > 0 && all_hex_digits(digits) && hex_value(digits) <= u8::MAX
}

/// Relies on `u8::from_str_radix`: with radix sixteen it parses an optional
/// plus sign followed by hexadecimal digits of either case, rejecting
/// anything else, an empty digit string, a minus sign, and values above
/// `u8::MAX`. It panics only on radixes outside `2..=36`.
pub assume_specification[ u8::from_str_radix ](s: &str, radix: u32) -> (r: Result<
    u8,
    std::num::ParseIntError,
>)
    requires
        radix == 16,
    ensures
        r is Ok <==> valid_u8_hex_numeral(s@),
        r matches Ok(v) ==> v == hex_value(numeral_digits(s@)),
;

/// The uppercase hexadecimal digit with value `d`.
pub open spec fn hex_char(d: nat) -> char {
    if d < 10 {
        dec_char(d)
    } else if d == 10 {
        'A'
    } else if d == 11 {
        'B'
    } else if d == 12 {
        'C'
    } else if d == 13 {
        'D'
    } else if d == 14 {
        'E'
    } else {
        'F'
    }
}

/// The four characters `0xHH` that the encoder writes for a byte: uppercase
/// hexadecimal, always two digits.
pub open spec fn hex_byte_token(b: u8) -> Seq<char> {
    seq!['0', 'x', hex_char(b as nat / 16), hex_char(b as nat % 16)]
}

/// The uppercase hexadecimal digit with value `d`, executably.
fn hex_char_exec(d: u8) -> (c: char)
    requires
        d < 16,
    ensures
        c == hex_char(d as nat),
{
    if d < 10 {
        dec_char_exec(d as u32)
    } else if d == 10 {
        'A'
    } else if d == 11 {
        'B'
    } else if d == 12 {
        'C'
    } else if d == 13 {
        'D'
    } else if d == 14 {
        'E'
    } else {
        'F'
    }
}

/// Appends the four characters `0xHH` for the byte `b` to `out`.
pub fn push_hex_byte(b: u8, out: &mut Vec<char>)
    ensures
        final(out)@ == old(out)@ + hex_byte_token(b),
{
    out.push('0');
    out.push('x');
    out.push(hex_char_exec(b / 16));
    out.push(hex_char_exec(b % 16));
    proof {
        assert(final(out)@ =~= old(out)@ + hex_byte_token(b));
    }
}

/// The token the encoder writes for a byte is a valid hexadecimal numeral
/// after its `0x` prefix, and reads back as the byte itself.
pub proof fn lemma_hex_byte_token(b: u8)
    ensures
        hex_byte_token(b).len() == 4,
        hex_byte_token(b)[0] == '0',
        hex_byte_token(b)[1] == 'x',
        valid_u8_hex_numeral(hex_byte_token(b).skip(2)),
        hex_value(numeral_digits(hex_byte_token(b).skip(2))) == b,
{
    let t = hex_byte_token(b).skip(2);
    assert(t =~= seq![hex_char(b as nat / 16), hex_char(b as nat % 16)]);
    assert(t[0] != '+');
    assert(numeral_digits(t) == t);
    assert(t.drop_last() =~= seq![hex_char(b as nat / 16)]);
    assert(t.drop_last().drop_last() =~= Seq::<char>::empty());
    assert(hex_digit_value(hex_char(b as nat / 16)) == b as nat / 16);
    assert(hex_digit_value(hex_char(b as nat % 16)) == b as nat % 16);
    assert(t.last() == hex_char(b as nat % 16));
    assert(t.drop_last().last() == hex_char(b as nat / 16));
    assert(hex_value(t.drop_last().drop_last()) == 0);
    assert(hex_value(t.drop_last()) == 0 * 16 + hex_digit_value(hex_char(b as nat / 16)));
    assert(hex_value(t) == hex_value(t.drop_last()) * 16 + hex_digit_value(
        hex_char(b as nat % 16),
    ));
    assert(hex_value(t) == (b as nat / 16) * 16 + (b as nat % 16));
    assert((b as nat / 16) * 16 + (b as nat % 16) == b as nat) by (nonlinear_arith);
    assert(hex_digit(hex_char(b as nat / 16)));
    assert(hex_digit(hex_char(b as nat % 16)));
    assert(forall|i: int| 0 <= i < t.len() ==> hex_digit(#[trigger] t[i]));
}

} // verus!
