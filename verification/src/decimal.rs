//! Decimal text for `u64`: the formatting that `Display` gives and the parsing
//! that `str::parse::<u64>` performs.

use vstd::prelude::*;
use crate::text::{chars_of, push_char};

verus! {

/// Why a decimal integer was refused (the kinds `str::parse::<u64>` reports).
#[derive(Debug, Clone, Copy, PartialEq, Eq, Structural)]
pub enum IntErrorKind {
    /// The text is empty.
    Empty,
    /// A character that is not an ASCII digit, or a sign with nothing after it.
    InvalidDigit,
    /// The value does not fit in `u64`.
    PosOverflow,
}

/// `c` is an ASCII decimal digit.
pub open spec fn is_dec_digit(c: char) -> bool {
    '0' <= c && c <= '9'
}

/// The value of an ASCII decimal digit.
pub open spec fn dec_digit_value(c: char) -> nat {
    (c as int - '0' as int) as nat
}

/// The ASCII decimal digit of value `d`.
pub open spec fn dec_digit_char(d: nat) -> char {
    ('0' as int + d) as char
}

/// The decimal text of `n`: no sign, no leading zeros, `0` for zero.
pub open spec fn spec_decimal(n: nat) -> Seq<char>
    decreases n,
{
    if n < 10 {
        seq![dec_digit_char(n)]
    } else {
        spec_decimal(n / 10).push(dec_digit_char(n % 10))
    }
}

/// Reads digits left to right onto `acc`, stopping at the first non-digit or
/// at the first step that leaves `u64`.
pub open spec fn scan_decimal(d: Seq<char>, acc: nat) -> Result<nat, IntErrorKind>
    decreases d.len(),
{
    if d.len() == 0 {
        Ok(acc)
    } else if !is_dec_digit(d[0]) {
        Err(IntErrorKind::InvalidDigit)
    } else if acc * 10 + dec_digit_value(d[0]) > u64::MAX {
        Err(IntErrorKind::PosOverflow)
    } else {
        scan_decimal(d.drop_first(), acc * 10 + dec_digit_value(d[0]))
    }
}

/// What `str::parse::<u64>` gives for `s`: an optional leading `+`, then one
/// or more ASCII digits whose value fits in `u64`.
pub open spec fn spec_parse_u64(s: Seq<char>) -> Result<nat, IntErrorKind> {
    if s.len() == 0 {
        Err(IntErrorKind::Empty)
    } else if s.len() == 1 && (s[0] == '+' || s[0] == '-') {
        Err(IntErrorKind::InvalidDigit)
    } else if s[0] == '+' {
        scan_decimal(s.drop_first(), 0)
    } else {
        scan_decimal(s, 0)
    }
}

/// Appends the decimal text of `n`.
pub fn push_decimal(out: &mut String, n: u64)
    ensures
        final(out)@ == old(out)@ + spec_decimal(n as nat),
    decreases n,
{
    if n >= 10 {
        push_decimal(out, n / 10);
    }
    let c = ((48u8 + (n % 10) as u8) as char);
    push_char(out, c);
    assert(final(out)@ =~= old(out)@ + spec_decimal(n as nat));
}

/// The decimal text of `n`.
pub fn decimal(n: u64) -> (r: String)
    ensures
        r@ == spec_decimal(n as nat),
{
    let mut out = String::new();
    push_decimal(&mut out, n);
    assert(out@ =~= spec_decimal(n as nat));
    out
}

/// Parses an unsigned decimal integer as `str::parse::<u64>` does.
pub fn parse_decimal(s: &str) -> (r: Result<u64, IntErrorKind>)
    ensures
        r is Ok <==> spec_parse_u64(s@) is Ok,
        r matches Ok(v) ==> spec_parse_u64(s@) == Ok::<nat, IntErrorKind>(v as nat),
        r matches Err(e) ==> spec_parse_u64(s@) == Err::<nat, IntErrorKind>(e),
{
    let chars = chars_of(s);
    if chars.len() == 0 {
        return Err(IntErrorKind::Empty);
    }
    if chars.len() == 1 && (chars[0] == '+' || chars[0] == '-') {
        return Err(IntErrorKind::InvalidDigit);
    }
    let mut i: usize = if chars[0] == '+' {
        1
    } else {
        0
    };
    let ghost d = chars@.skip(i as int);
    assert(d =~= (if s@[0] == '+' {
        s@.drop_first()
    } else {
        s@
    }));
    assert(spec_parse_u64(s@) == scan_decimal(d, 0));
    let mut acc: u64 = 0;
    let start = i;
    while i < chars.len()
        invariant
            start <= i <= chars.len(),
            d == chars@.skip(start as int),
            spec_parse_u64(s@) == scan_decimal(d, 0),
            scan_decimal(d, 0) == scan_decimal(chars@.skip(i as int), acc as nat),
        decreases chars.len() - i,
    {
        let c = chars[i];
        assert(chars@.skip(i as int)[0] == c);
        assert(chars@.skip(i as int).drop_first() =~= chars@.skip(i + 1));
        if !('0' <= c && c <= '9') {
            return Err(IntErrorKind::InvalidDigit);
        }
        let dv = (c as u32 - '0' as u32) as u64;
        if acc > 1844674407370955161 || (acc == 1844674407370955161 && dv > 5) {
            return Err(IntErrorKind::PosOverflow);
        }
        acc = acc * 10 + dv;
        i = i + 1;
    }
    assert(chars@.skip(i as int).len() == 0);
    Ok(acc)
}

/// One more character read by `scan_decimal`.
pub proof fn lemma_scan_push(s: Seq<char>, c: char, acc: nat)
    ensures
        scan_decimal(s.push(c), acc) == (match scan_decimal(s, acc) {
            Ok(v) => if !is_dec_digit(c) {
                Err(IntErrorKind::InvalidDigit)
            } else if v * 10 + dec_digit_value(c) > u64::MAX {
                Err(IntErrorKind::PosOverflow)
            } else {
                Ok(v * 10 + dec_digit_value(c))
            },
            Err(e) => Err(e),
        }),
    decreases s.len(),
{
    reveal_with_fuel(scan_decimal, 2);
    if s.len() == 0 {
        assert(seq![c].drop_first() =~= Seq::<char>::empty());
        assert(s.push(c) =~= seq![c]);
    } else {
        assert(s.push(c).drop_first() =~= s.drop_first().push(c));
        assert(s.push(c)[0] == s[0]);
        if is_dec_digit(s[0]) && acc * 10 + dec_digit_value(s[0]) <= u64::MAX {
            lemma_scan_push(s.drop_first(), c, acc * 10 + dec_digit_value(s[0]));
        }
    }
}

/// The decimal text of a `u64` is digits only and reads back as the same number.
pub proof fn lemma_decimal_roundtrip(n: nat)
    requires
        n <= u64::MAX,
    ensures
        scan_decimal(spec_decimal(n), 0) == Ok::<nat, IntErrorKind>(n),
        spec_decimal(n).len() >= 1,
        forall|i: int| 0 <= i < spec_decimal(n).len() ==> is_dec_digit(#[trigger] spec_decimal(n)[i]),
    decreases n,
{
    reveal_with_fuel(scan_decimal, 2);
    if n < 10 {
        assert(seq![dec_digit_char(n)].drop_first() =~= Seq::<char>::empty());
    } else {
        lemma_decimal_roundtrip(n / 10);
        lemma_scan_push(spec_decimal(n / 10), dec_digit_char(n % 10), 0);
        let s = spec_decimal(n);
        assert forall|i: int| 0 <= i < s.len() implies is_dec_digit(#[trigger] s[i]) by {
            if i < s.len() - 1 {
                assert(s[i] == spec_decimal(n / 10)[i]);
            }
        }
    }
}

/// Law: `str::parse::<u64>` reads the decimal text of any `u64` back unchanged.
pub proof fn law_parse_decimal(n: u64)
    ensures
        spec_parse_u64(spec_decimal(n as nat)) == Ok::<nat, IntErrorKind>(n as nat),
{
    lemma_decimal_roundtrip(n as nat);
    let s = spec_decimal(n as nat);
    assert(is_dec_digit(s[0]));
}

} // verus!
