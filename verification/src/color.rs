//! Colors in `#rrggbb` / `#aarrggbb` notation.

use vstd::prelude::*;
use vstd::utf8::encode_utf8;
use crate::text::{chars_of, text_of};

verus! {

/// The text without its leading `#` characters.
pub open spec fn without_hashes(s: Seq<char>) -> Seq<char>
    decreases s.len(),
{
    if s.len() > 0 && s[0] == '#' {
        without_hashes(s.skip(1))
    } else {
        s
    }
}

/// The value of a hexadecimal digit.
pub open spec fn hex_digit(c: char) -> Option<int> {
    if '0' <= c <= '9' {
        Some(c as int - '0' as int)
    } else if 'a' <= c <= 'f' {
        Some(c as int - 'a' as int + 10)
    } else if 'A' <= c <= 'F' {
        Some(c as int - 'A' as int + 10)
    } else {
        None
    }
}

/// The value of hexadecimal digits; `None` if another character is among
/// them.
pub open spec fn hex_digits(s: Seq<char>) -> Option<int>
    decreases s.len(),
{
    if s.len() == 0 {
        Some(0)
    } else {
        match (hex_digits(s.drop_last()), hex_digit(s.last())) {
            (Some(v), Some(d)) => Some(16 * v + d),
            _ => None,
        }
    }
}

/// The 32-bit number that a text denotes in base 16: digits, with an optional
/// plus sign before them.
pub open spec fn hex_value(s: Seq<char>) -> Option<int> {
    let digits = if s.len() > 0 && s[0] == '+' {
        s.skip(1)
    } else {
        s
    };
    unsigned(digits)
}

/// The value of at least one hexadecimal digit, if it fits in 32 bits.
pub open spec fn unsigned(digits: Seq<char>) -> Option<int> {
    if digits.len() == 0 {
        None
    } else {
        match hex_digits(digits) {
            Some(v) => if v <= u32::MAX {
                Some(v)
            } else {
                None
            },
            None => None,
        }
    }
}

/// The ARGB value of a color: opaque where at most six characters are given,
/// and white where they are no number.
pub open spec fn argb(color: Seq<char>) -> int {
    let hex = without_hashes(color);
    let value = match hex_value(hex) {
        Some(v) => v,
        None => 0x00ff_ffff,
    };
    if encode_utf8(hex).len() <= 6 {
        0xff00_0000 + value
    } else {
        value
    }
}

proof fn lemma_hex_nonnegative(s: Seq<char>)
    ensures
        hex_digits(s) is Some ==> hex_digits(s)->0 >= 0,
    decreases s.len(),
{
    if s.len() > 0 {
        lemma_hex_nonnegative(s.drop_last());
    }
}

proof fn lemma_hex_small(s: Seq<char>)
    requires
        s.len() <= 6,
    ensures
        hex_digits(s) is Some ==> hex_digits(s)->0 <= 0x00ff_ffff,
        s.len() <= 5 ==> (hex_digits(s) is Some ==> hex_digits(s)->0 <= 0x000f_ffff),
        s.len() <= 4 ==> (hex_digits(s) is Some ==> hex_digits(s)->0 <= 0xffff),
        s.len() <= 3 ==> (hex_digits(s) is Some ==> hex_digits(s)->0 <= 0xfff),
        s.len() <= 2 ==> (hex_digits(s) is Some ==> hex_digits(s)->0 <= 0xff),
        s.len() <= 1 ==> (hex_digits(s) is Some ==> hex_digits(s)->0 <= 0xf),
    decreases s.len(),
{
    if s.len() > 0 {
        lemma_hex_small(s.drop_last());
    }
}

/// A text has no more characters than bytes.
proof fn lemma_bytes(s: Seq<char>)
    ensures
        s.len() <= encode_utf8(s).len(),
    decreases s.len(),
{
    if s.len() > 0 {
        lemma_bytes(s.drop_first());
    }
}

fn digit_value(c: char) -> (r: Option<u32>)
    ensures
        match r {
            Some(d) => hex_digit(c) == Some(d as int) && d < 16,
            None => hex_digit(c) is None,
        },
{
    let code: u32 = c as u32;
    if '0' <= c && c <= '9' {
        Some(code - 48)
    } else if 'a' <= c && c <= 'f' {
        Some(code - 97 + 10)
    } else if 'A' <= c && c <= 'F' {
        Some(code - 65 + 10)
    } else {
        None
    }
}

proof fn lemma_hex_grows(s: Seq<char>, i: int)
    requires
        0 <= i <= s.len(),
        hex_digits(s) is Some,
    ensures
        hex_digits(s.take(i)) is Some,
        hex_digits(s.take(i))->0 <= hex_digits(s)->0,
    decreases s.len() - i,
{
    if i < s.len() {
        assert(s.take(i + 1).drop_last() =~= s.take(i));
        lemma_hex_grows(s, i + 1);
        lemma_hex_nonnegative(s.take(i));
    } else {
        assert(s.take(i) =~= s);
    }
}

fn parse_hex(v: &Vec<char>, from: usize) -> (r: Option<u32>)
    requires
        from <= v.len(),
    ensures
        match r {
            Some(x) => hex_value(v@.skip(from as int)) == Some(x as int),
            None => hex_value(v@.skip(from as int)) is None,
        },
{
    let ghost hex = v@.skip(from as int);
    let start: usize = if from < v.len() && v[from] == '+' {
        from + 1
    } else {
        from
    };
    let ghost digits = v@.skip(start as int);
    proof {
        if from < v@.len() {
            assert(hex[0] == v@[from as int]);
        }
        if start > from {
            assert(hex.skip(1) =~= digits);
        }
    }
    if start >= v.len() {
        return None;
    }
    let mut value: u64 = 0;
    let mut i: usize = start;
    assert(digits.take(0) =~= Seq::<char>::empty());
    while i < v.len()
        invariant
            start <= i <= v.len(),
            digits == v@.skip(start as int),
            hex_value(v@.skip(from as int)) == unsigned(digits),
            digits.len() > 0,
            value <= u32::MAX,
            hex_digits(digits.take(i - start)) == Some(value as int),
        decreases v.len() - i,
    {
        proof {
            let upto = digits.take(i - start + 1);
            assert(upto.drop_last() =~= digits.take(i - start));
            assert(upto.last() == v@[i as int]);
        }
        match digit_value(v[i]) {
            None => {
                proof {
                    if hex_digits(digits) is Some {
                        lemma_hex_grows(digits, i - start + 1);
                    }
                }
                return None;
            },
            Some(d) => {
                value = 16 * value + d as u64;
            },
        }
        if value > 4_294_967_295 {
            proof {
                if hex_digits(digits) is Some {
                    lemma_hex_grows(digits, i - start + 1);
                }
            }
            return None;
        }
        i += 1;
    }
    assert(digits.take(i - start) =~= digits);
    Some(value as u32)
}

/// Parse "#rrggbb" / "#aarrggbb" into an ARGB number.
pub fn parse_color(color: &str) -> (r: u32)
    ensures
        r == argb(color@),
{
    let v: Vec<char> = chars_of(color);
    let mut i: usize = 0;
    assert(v@.skip(0) =~= v@);
    while i < v.len() && v[i] == '#'
        invariant
            v@ == color@,
            i <= v.len(),
            without_hashes(v@.skip(i as int)) == without_hashes(color@),
        decreases v.len() - i,
    {
        assert(v@.skip(i as int).skip(1) =~= v@.skip(i + 1));
        i += 1;
    }
    let ghost hex = v@.skip(i as int);
    assert(hex == without_hashes(color@));
    let parsed: Option<u32> = parse_hex(&v, i);
    let text: String = text_of(&v, i, v.len());
    assert(text@ =~= hex);
    let bytes: usize = text.as_str().as_bytes().len();
    let value: u32 = match parsed {
        Some(x) => x,
        None => 0x00ff_ffff,
    };
    if bytes <= 6 {
        proof {
            lemma_bytes(hex);
            if hex.len() > 0 && hex[0] == '+' {
                lemma_hex_small(hex.skip(1));
            } else {
                lemma_hex_small(hex);
            }
        }
        0xff00_0000 + value
    } else {
        value
    }
}

/// A hexadecimal digit has the value of its place in `0` to `9`, `a` to `f`,
/// whatever its case.
pub proof fn law_hex_digit(c: char)
    ensures
        match hex_digit(c) {
            Some(d) => 0 <= d < 16 && if d < 10 {
                c as int - '0' as int == d
            } else {
                c as int - 'a' as int == d - 10 || c as int - 'A' as int == d - 10
            },
            None => !('0' <= c <= '9') && !('a' <= c <= 'f') && !('A' <= c <= 'F'),
        },
{
}

/// Hexadecimal digits put after others raise their value by one place each.
pub proof fn law_hex_digits(s: Seq<char>, c: char)
    ensures
        hex_digits(s.push(c)) == (match (hex_digits(s), hex_digit(c)) {
            (Some(v), Some(d)) => Some(v * 16 + d),
            _ => None::<int>,
        }),
{
    assert(s.push(c).drop_last() =~= s);
}

/// A color of six digits is opaque, its digits in pairs being red, green and
/// blue; the number sign before them makes no difference.
pub proof fn law_rgb(s: Seq<char>)
    requires
        s.len() == 6,
        forall|i: int| 0 <= i < 6 ==> hex_digit(#[trigger] s[i]) is Some,
    ensures
        argb(s) == argb(seq!['#'] + s),
        argb(s) / 0x100_0000 == 0xff,
        argb(s) / 0x1_0000 % 0x100 == hex_digit(s[0])->0 * 16 + hex_digit(s[1])->0,
        argb(s) / 0x100 % 0x100 == hex_digit(s[2])->0 * 16 + hex_digit(s[3])->0,
        argb(s) % 0x100 == hex_digit(s[4])->0 * 16 + hex_digit(s[5])->0,
{
    lemma_six(s);
    let t = seq!['#'] + s;
    assert(t.skip(1) =~= s);
    assert(without_hashes(t) == without_hashes(s));
    lemma_ascii_bytes(s);
    law_hex_digit(s[0]);
    law_hex_digit(s[1]);
    law_hex_digit(s[2]);
    law_hex_digit(s[3]);
    law_hex_digit(s[4]);
    law_hex_digit(s[5]);
    let v = hex_digits(s)->0;
    let r = hex_digit(s[0])->0 * 16 + hex_digit(s[1])->0;
    let g = hex_digit(s[2])->0 * 16 + hex_digit(s[3])->0;
    let b = hex_digit(s[4])->0 * 16 + hex_digit(s[5])->0;
    assert(hex_digit(s[0]) is Some && hex_digit(s[1]) is Some && hex_digit(s[2]) is Some);
    assert(hex_digit(s[3]) is Some && hex_digit(s[4]) is Some && hex_digit(s[5]) is Some);
    assert(v == r * 0x1_0000 + g * 0x100 + b);
    assert(argb(s) == 0xff00_0000 + v);
    lemma_channels(r, g, b);
}

proof fn lemma_channels(r: int, g: int, b: int)
    requires
        0 <= r < 0x100,
        0 <= g < 0x100,
        0 <= b < 0x100,
    ensures
        ({
            let c = 0xff00_0000 + r * 0x1_0000 + g * 0x100 + b;
            &&& c / 0x100_0000 == 0xff
            &&& c / 0x1_0000 % 0x100 == r
            &&& c / 0x100 % 0x100 == g
            &&& c % 0x100 == b
        }),
{
    let c = 0xff00_0000 + r * 0x1_0000 + g * 0x100 + b;
    lemma_split(0xff_0000 + r * 0x100 + g, 0x100, b);
    lemma_split(0xff00 + r, 0x1_0000, g * 0x100 + b);
    lemma_split(0xff, 0x100_0000, r * 0x1_0000 + g * 0x100 + b);
    lemma_split(0xff00 + r, 0x100, g);
    lemma_split(0xff, 0x100, r);
    assert(c == (0xff_0000 + r * 0x100 + g) * 0x100 + b);
    assert(c == (0xff00 + r) * 0x1_0000 + (g * 0x100 + b));
    assert(c == 0xff * 0x100_0000 + (r * 0x1_0000 + g * 0x100 + b));
    assert(0xff_0000 + r * 0x100 + g == (0xff00 + r) * 0x100 + g);
    assert(0xff00 + r == 0xff * 0x100 + r);
}

proof fn lemma_split(q: int, d: int, r: int)
    requires
        0 <= r < d,
    ensures
        (q * d + r) / d == q,
        (q * d + r) % d == r,
{
    vstd::arithmetic::div_mod::lemma_fundamental_div_mod_converse(q * d + r, d, q, r);
}

proof fn lemma_six(s: Seq<char>)
    requires
        s.len() == 6,
        forall|i: int| 0 <= i < 6 ==> hex_digit(#[trigger] s[i]) is Some,
    ensures
        s[0] != '#',
        s[0] != '+',
        hex_digits(s) == Some(
            hex_digit(s[0])->0 * 0x10_0000 + hex_digit(s[1])->0 * 0x1_0000 + hex_digit(s[2])->0
                * 0x1000 + hex_digit(s[3])->0 * 0x100 + hex_digit(s[4])->0 * 0x10 + hex_digit(
                s[5],
            )->0,
        ),
{
    assert(s.take(0) =~= Seq::empty());
    assert(s.take(6) =~= s);
    assert(hex_digit(s[0]) is Some);
    law_hex_digits(s.take(0), s[0]);
    law_hex_digits(s.take(1), s[1]);
    law_hex_digits(s.take(2), s[2]);
    law_hex_digits(s.take(3), s[3]);
    law_hex_digits(s.take(4), s[4]);
    law_hex_digits(s.take(5), s[5]);
    assert(s.take(1) =~= s.take(0).push(s[0]));
    assert(s.take(2) =~= s.take(1).push(s[1]));
    assert(s.take(3) =~= s.take(2).push(s[2]));
    assert(s.take(4) =~= s.take(3).push(s[3]));
    assert(s.take(5) =~= s.take(4).push(s[4]));
    assert(s.take(6) =~= s.take(5).push(s[5]));
}

proof fn lemma_ascii_bytes(s: Seq<char>)
    requires
        forall|i: int| 0 <= i < s.len() ==> hex_digit(#[trigger] s[i]) is Some,
    ensures
        encode_utf8(s).len() == s.len(),
    decreases s.len(),
{
    if s.len() > 0 {
        let rest = s.drop_first();
        assert forall|i: int| 0 <= i < rest.len() implies hex_digit(#[trigger] rest[i]) is Some by {
            assert(rest[i] == s[i + 1]);
        }
        lemma_ascii_bytes(rest);
        assert(hex_digit(s[0]) is Some);
    }
}

} // verus!
