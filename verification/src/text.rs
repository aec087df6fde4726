//! Text building blocks shared by the code generators and formatters:
//! appending literals and characters to a `String`, and decimal and
//! hexadecimal renderings of integers.

use vstd::prelude::*;
use vstd::string::StringExecFns;

verus! {

/// `String::push` appends one character.
pub assume_specification[ String::push ](s: &mut String, ch: char)
    ensures
        final(s)@ == old(s)@.push(ch),
;

/// A Unicode scalar value: not a surrogate and at most U+10FFFF.
pub open spec fn is_scalar_value(v: u32) -> bool {
    v < 0xD800 || (0xE000 <= v && v <= 0x10FFFF)
}

/// `char::from_u32` gives the character with that code point exactly when it
/// is a Unicode scalar value.
pub assume_specification[ char::from_u32 ](i: u32) -> (r: Option<char>)
    ensures
        r is Some <==> is_scalar_value(i),
        r matches Some(c) ==> c as u32 == i,
;

/// Appends `t` to `s`.
pub fn push_str(s: &mut String, t: &str)
    ensures
        final(s)@ == old(s)@ + t@,
{
    s.append(t);
}

/// The ASCII digit for `d` (`0..=9`), or the upper-case hex letter for
/// `10..=15`.
pub open spec fn hex_digit_upper(d: nat) -> char {
    if d < 10 {
        ((0x30 + d) as u32) as char
    } else {
        ((0x41 + d - 10) as u32) as char
    }
}

/// The ASCII digit or lower-case hex letter for `d` (`0..=15`).
pub open spec fn hex_digit_lower(d: nat) -> char {
    if d < 10 {
        ((0x30 + d) as u32) as char
    } else {
        ((0x61 + d - 10) as u32) as char
    }
}

/// Decimal digits of `n`, most significant first, no leading zeros
/// (`"0"` for zero).
pub open spec fn decimal(n: nat) -> Seq<char>
    decreases n,
{
    if n < 10 {
        seq![hex_digit_upper(n)]
    } else {
        decimal(n / 10).push(hex_digit_upper(n % 10))
    }
}

/// Decimal rendering of a signed integer: a `-` before the digits of the
/// magnitude when negative.
pub open spec fn signed_decimal(v: int) -> Seq<char> {
    if v < 0 {
        seq!['-'] + decimal((-v) as nat)
    } else {
        decimal(v as nat)
    }
}

/// The last `width` base-`radix` digits of `n` (most significant first),
/// with leading zeros.
pub open spec fn fixed_digits(n: nat, radix: nat, width: nat, upper: bool) -> Seq<char>
    decreases width,
{
    if width == 0 || radix == 0 {
        seq![]
    } else {
        fixed_digits(n / radix, radix, (width - 1) as nat, upper).push(
            if upper {
                hex_digit_upper(n % radix)
            } else {
                hex_digit_lower(n % radix)
            },
        )
    }
}

/// Lower-case hexadecimal digits of `n`, no leading zeros (`"0"` for zero).
pub open spec fn hex_lower(n: nat) -> Seq<char>
    decreases n,
{
    if n < 16 {
        seq![hex_digit_lower(n)]
    } else {
        hex_lower(n / 16).push(hex_digit_lower(n % 16))
    }
}

fn digit_char(d: u64, upper: bool) -> (c: char)
    requires
        d < 16,
    ensures
        c == (if upper {
            hex_digit_upper(d as nat)
        } else {
            hex_digit_lower(d as nat)
        }),
{
    let v: u32 = if d < 10 {
        0x30 + d as u32
    } else if upper {
        0x41 + d as u32 - 10
    } else {
        0x61 + d as u32 - 10
    };
    let c = char::from_u32(v).unwrap();
    proof {
        vstd::utf8::char_u32_cast(c, v);
    }
    c
}

/// Appends the characters of `digits` in reverse order.
fn push_reversed(s: &mut String, digits: &Vec<char>)
    ensures
        final(s)@ == old(s)@ + digits@.reverse(),
{
    let ghost full = digits@;
    let mut i = digits.len();
    while i > 0
        invariant
            i <= full.len(),
            digits@ == full,
            s@ == old(s)@ + full.reverse().take((full.len() - i) as int),
        decreases i,
    {
        i = i - 1;
        let c = digits[i];
        s.push(c);
        proof {
            assert(full.reverse()[full.len() - 1 - i] == full[i as int]);
            assert(full.reverse().take((full.len() - i) as int) =~= full.reverse().take(
                (full.len() - i - 1) as int,
            ).push(c));
        }
    }
    proof {
        assert(full.reverse().take(full.len() as int) =~= full.reverse());
    }
}

/// Appends the decimal digits of `n`.
pub fn push_decimal(s: &mut String, n: u128)
    ensures
        final(s)@ == old(s)@ + decimal(n as nat),
{
    // Collect digits least significant first, then emit in reverse.
    let mut digits: Vec<char> = Vec::new();
    let mut m = n;
    loop
        invariant_except_break
            decimal(n as nat) == decimal(m as nat) + digits@.reverse(),
        ensures
            decimal(n as nat) == digits@.reverse(),
        decreases m,
    {
        if m < 10 {
            let ghost before = digits@;
            digits.push(digit_char(m as u64, true));
            proof {
                assert(digits@.reverse() =~= seq![hex_digit_upper(m as nat)] + before.reverse());
            }
            break;
        }
        let d = (m % 10) as u64;
        let ghost before = digits@;
        digits.push(digit_char(d, true));
        proof {
            assert(decimal(m as nat) == decimal((m / 10) as nat).push(hex_digit_upper(d as nat)));
            assert(digits@.reverse() =~= seq![hex_digit_upper(d as nat)] + before.reverse());
            assert(decimal((m / 10) as nat).push(hex_digit_upper(d as nat)) + before.reverse()
                =~= decimal((m / 10) as nat) + digits@.reverse());
        }
        m = m / 10;
    }
    push_reversed(s, &digits);
}

/// Appends the last `width` hexadecimal digits of `n`, with leading zeros.
pub fn push_hex_fixed(s: &mut String, n: u64, width: usize, upper: bool)
    ensures
        final(s)@ == old(s)@ + fixed_digits(n as nat, 16, width as nat, upper),
{
    let mut digits: Vec<char> = Vec::new();
    let mut m = n;
    let mut k: usize = 0;
    while k < width
        invariant
            k <= width,
            fixed_digits(n as nat, 16, width as nat, upper) == fixed_digits(
                m as nat,
                16,
                (width - k) as nat,
                upper,
            ) + digits@.reverse(),
        decreases width - k,
    {
        let d = m % 16;
        let ghost before = digits@;
        digits.push(digit_char(d, upper));
        proof {
            let dc = if upper {
                hex_digit_upper(d as nat)
            } else {
                hex_digit_lower(d as nat)
            };
            assert(fixed_digits(m as nat, 16, (width - k) as nat, upper) == fixed_digits(
                (m / 16) as nat,
                16,
                (width - k - 1) as nat,
                upper,
            ).push(dc));
            assert(digits@.reverse() =~= seq![dc] + before.reverse());
            assert(fixed_digits((m / 16) as nat, 16, (width - k - 1) as nat, upper).push(dc)
                + before.reverse() =~= fixed_digits((m / 16) as nat, 16, (width - k - 1) as nat, upper)
                + digits@.reverse());
        }
        m = m / 16;
        k = k + 1;
    }
    proof {
        assert(fixed_digits(m as nat, 16, 0, upper) =~= seq![]);
        assert(seq![] + digits@.reverse() =~= digits@.reverse());
    }
    push_reversed(s, &digits);
}


/// Appends the lower-case hexadecimal digits of `n` (no leading zeros).
pub fn push_hex_lower(s: &mut String, n: u64)
    ensures
        final(s)@ == old(s)@ + hex_lower(n as nat),
{
    let mut digits: Vec<char> = Vec::new();
    let mut m = n;
    loop
        invariant_except_break
            hex_lower(n as nat) == hex_lower(m as nat) + digits@.reverse(),
        ensures
            hex_lower(n as nat) == digits@.reverse(),
        decreases m,
    {
        if m < 16 {
            let ghost before = digits@;
            digits.push(digit_char(m, false));
            proof {
                assert(digits@.reverse() =~= seq![hex_digit_lower(m as nat)] + before.reverse());
            }
            break;
        }
        let d = m % 16;
        let ghost before = digits@;
        digits.push(digit_char(d, false));
        proof {
            assert(hex_lower(m as nat) == hex_lower((m / 16) as nat).push(hex_digit_lower(d as nat)));
            assert(digits@.reverse() =~= seq![hex_digit_lower(d as nat)] + before.reverse());
            assert(hex_lower((m / 16) as nat).push(hex_digit_lower(d as nat)) + before.reverse()
                =~= hex_lower((m / 16) as nat) + digits@.reverse());
        }
        m = m / 16;
    }
    push_reversed(s, &digits);
}

/// Appends the decimal rendering of `v`, with a `-` when negative.
pub fn push_signed(s: &mut String, v: i64)
    ensures
        final(s)@ == old(s)@ + signed_decimal(v as int),
{
    if v < 0 {
        s.push('-');
        let mag: u128 = (0i128 - v as i128) as u128;
        let ghost mid = s@;
        push_decimal(s, mag);
        proof {
            assert(s@ =~= old(s)@ + (seq!['-'] + decimal((-v) as nat)));
        }
    } else {
        push_decimal(s, v as u128);
    }
}

/// `n` spaces.
pub open spec fn spaces(n: nat) -> Seq<char> {
    Seq::new(n, |k: int| ' ')
}

/// `t` right-aligned in `width` columns.
pub open spec fn pad_left(t: Seq<char>, width: nat) -> Seq<char> {
    if t.len() < width {
        spaces((width - t.len()) as nat) + t
    } else {
        t
    }
}

/// `t` left-aligned in `width` columns.
pub open spec fn pad_right(t: Seq<char>, width: nat) -> Seq<char> {
    if t.len() < width {
        t + spaces((width - t.len()) as nat)
    } else {
        t
    }
}

/// Appends `n` spaces.
pub fn push_spaces(s: &mut String, n: usize)
    ensures
        final(s)@ == old(s)@ + spaces(n as nat),
{
    let mut k: usize = 0;
    while k < n
        invariant
            k <= n,
            s@ == old(s)@ + spaces(k as nat),
        decreases n - k,
    {
        s.push(' ');
        proof {
            assert(spaces((k + 1) as nat) =~= spaces(k as nat).push(' '));
        }
        k = k + 1;
    }
}

/// Appends `t` right-aligned in `width` columns.
pub fn push_padded_left(s: &mut String, t: &String, width: usize)
    ensures
        final(s)@ == old(s)@ + pad_left(t@, width as nat),
{
    let n = t.as_str().unicode_len();
    if n < width {
        push_spaces(s, width - n);
    }
    push_str(s, t.as_str());
}

/// Appends `t` left-aligned in `width` columns.
pub fn push_padded_right(s: &mut String, t: &str, width: usize)
    ensures
        final(s)@ == old(s)@ + pad_right(t@, width as nat),
{
    let n = t.unicode_len();
    push_str(s, t);
    if n < width {
        push_spaces(s, width - n);
    }
}

} // verus!
