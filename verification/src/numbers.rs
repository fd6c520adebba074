//! Numbers as a document writes them.

use vstd::prelude::*;
use crate::fixed::{LIMIT, UNIT};
use crate::json::{decimal_digit, exponent, first_index, fixed_of, json_level, magnitude, natural,
    pow10, scaled10, LevelView};
use crate::text::{chars_of, decimal, decimal_text, digit, fixed_notation, fixed_text,
    fraction_digits, fraction_text, padded};

verus! {

/// Numbers nearer to zero than this one, a hundred-thousandth, are written with
/// an exponent.
pub const TINY: i128 = 10_000;

/// The number of digits behind the first one.
pub open spec fn digits_behind(x: nat) -> nat {
    if x < 10 {
        0
    } else if x < 100 {
        1
    } else if x < 1000 {
        2
    } else {
        3
    }
}

/// A small number of billionths with an exponent: `1e-9`, `1.2e-8`.
pub open spec fn scientific(x: nat) -> Seq<char> {
    let k = digits_behind(x);
    let rest = x as int % pow10(k);
    let mantissa = seq![digit(x as int / pow10(k))] + if rest == 0 {
        Seq::empty()
    } else {
        seq!['.'] + fraction_digits(rest as nat, k)
    };
    mantissa + seq!['e', '-', digit(9 - k)]
}

/// A fixed-point number as a document writes it: with a decimal point, also
/// where it is whole; with an exponent where it is close to zero.
pub open spec fn number(x: int) -> Seq<char> {
    if 0 < x < TINY {
        scientific(x as nat)
    } else if -TINY < x < 0 {
        seq!['-'] + scientific((-x) as nat)
    } else if x % (UNIT as int) == 0 {
        fixed_notation(x) + ".0"@
    } else {
        fixed_notation(x)
    }
}

fn scientific_text(x: u128) -> (r: String)
    requires
        0 < x < TINY,
    ensures
        r@ == scientific(x as nat),
{
    let (k, unit): (u8, u128) = if x < 10 {
        (0, 1)
    } else if x < 100 {
        (1, 10)
    } else if x < 1000 {
        (2, 100)
    } else {
        (3, 1000)
    };
    proof {
        reveal_with_fuel(pow10, 4);
        assert(unit == pow10(k as nat));
    }
    let mut s: String = decimal_text(x / unit);
    assert(x / unit < 10);
    assert(s@ =~= seq![digit(x as int / pow10(k as nat))]);
    let rest: u128 = x % unit;
    if rest != 0 {
        s.push('.');
        s.append(fraction_text(rest, k).as_str());
    }
    s.append("e-");
    s.append(decimal_text(9 - k as u128).as_str());
    proof {
        reveal_strlit("e-");
        assert(s@ =~= scientific(x as nat));
    }
    s
}

/// A fixed-point number as a document writes it.
pub fn number_text(x: i128) -> (r: String)
    ensures
        r@ == number(x as int),
{
    if 0 < x && x < TINY {
        return scientific_text(x as u128);
    }
    if -TINY < x && x < 0 {
        let mut s: String = String::new();
        s.push('-');
        s.append(scientific_text((-x) as u128).as_str());
        assert(s@ =~= seq!['-'] + scientific((-x) as nat));
        return s;
    }
    let mut s: String = fixed_text(x);
    if x % UNIT == 0 {
        s.append(".0");
    }
    s
}

/// A whole number as a document writes it.
pub open spec fn integer(n: int) -> Seq<char> {
    if n < 0 {
        seq!['-'] + decimal((-n) as nat)
    } else {
        decimal(n as nat)
    }
}

/// A whole number as a document writes it.
pub fn integer_text(n: i64) -> (r: String)
    ensures
        r@ == integer(n as int),
{
    if n < 0 {
        let mut s: String = String::new();
        s.push('-');
        s.append(decimal_text((-(n as i128)) as u128).as_str());
        assert(s@ =~= seq!['-'] + decimal((-n) as nat));
        s
    } else {
        decimal_text(n as u128)
    }
}

/// Below this whole number, the 23rd power of two, binary floating-point numbers
/// of 64 bits lie closer together than billionths.
pub const FINE: i128 = 8_388_608;

/// Below this whole number, the 26th power of two, they lie closer together
/// than hundred-millionths.
pub const COARSE: i128 = 67_108_864;

/// A number that a binary floating-point number of 64 bits tells from all
/// others with as many decimals.
pub open spec fn short(x: int) -> bool {
    &&& -LIMIT <= x <= LIMIT
    &&& {
        ||| -FINE * UNIT < x < FINE * UNIT
        ||| -COARSE * UNIT < x < COARSE * UNIT && x % 10 == 0
        ||| x % 100 == 0
    }
}

/// The notation of a number that was read.
pub open spec fn settled(s: Seq<char>) -> bool {
    exists|text: Seq<char>| #[trigger] json_level(text) == Some(LevelView::Number(s))
}

/// A number whose notation is kept where it is written and read.
pub open spec fn lasting(x: int) -> bool {
    short(x) || settled(number(x))
}

/// A number in the notation of a document that is kept where it is written and
/// read.
pub open spec fn plain(s: Seq<char>) -> bool {
    ||| exists|x: int| short(x) && s == #[trigger] number(x)
    ||| exists|n: int| i64::MIN <= n <= u64::MAX && s == #[trigger] integer(n)
    ||| settled(s)
}

/// A number in range of at most fifteen significant digits is short: it is `m`
/// times a power of ten, and `m` has no more than fifteen digits.
pub proof fn law_fifteen_digits(m: int, k: nat)
    requires
        -pow10(15) < m < pow10(15),
        -LIMIT <= m * pow10(k) <= LIMIT,
    ensures
        short(m * pow10(k)),
{
    reveal_with_fuel(pow10, 16);
    if k >= 2 {
        let rest = pow10((k - 2) as nat);
        assert(pow10(k) == 100 * rest);
        assert(m * (100 * rest) == 100 * (m * rest)) by (nonlinear_arith);
    } else if k == 1 {
        assert(m * 10 == 10 * m);
    }
}

/// A fixed-point number in range, in the notation of a document.
pub open spec fn noted(s: Seq<char>) -> bool {
    exists|x: int| -LIMIT <= x <= LIMIT && s == #[trigger] number(x)
}

/// Two fixed-point numbers in range, in the notation of a document, at most
/// fifteen billionths apart.
pub open spec fn close(s: Seq<char>, t: Seq<char>) -> bool {
    exists|x: int, y: int|
        -LIMIT <= x <= LIMIT && -LIMIT <= y <= LIMIT && -15 <= x - y <= 15 && s
            == #[trigger] number(x) && t == #[trigger] number(y)
}

/// The whole number that a notation without fraction and exponent denotes.
pub open spec fn integer_of(s: Seq<char>) -> Option<int> {
    if s.len() > 0 && s[0] == '-' {
        match natural(s.skip(1)) {
            Some(n) => if s.len() > 1 {
                Some(-n)
            } else {
                None
            },
            None => None,
        }
    } else {
        match natural(s) {
            Some(n) => if s.len() > 0 {
                Some(n)
            } else {
                None
            },
            None => None,
        }
    }
}

/// The whole number that a notation without fraction and exponent denotes.
pub fn read_integer(text: &str) -> (r: Option<i128>)
    ensures
        match r {
            Some(n) => integer_of(text@) == Some(n as int),
            None => integer_of(text@) is None,
        },
{
    let v: Vec<char> = chars_of(text);
    if v.len() == 0 {
        return None;
    }
    if v[0] == '-' {
        if v.len() == 1 {
            return None;
        }
        assert(v@.subrange(1, v@.len() as int) =~= text@.skip(1));
        match crate::json::read_natural(&v, 1, v.len()) {
            Some(n) => Some(-(n as i128)),
            None => None,
        }
    } else {
        assert(v@.subrange(0, v@.len() as int) =~= text@);
        match crate::json::read_natural(&v, 0, v.len()) {
            Some(n) => Some(n as i128),
            None => None,
        }
    }
}

proof fn lemma_digit(d: int)
    requires
        0 <= d < 10,
    ensures
        decimal_digit(digit(d)) == Some(d),
        digit(d) != '.',
        digit(d) != 'e',
        digit(d) != 'E',
        digit(d) != '-',
{
}

/// A text of digits.
pub open spec fn digits(s: Seq<char>) -> bool {
    forall|i: int| 0 <= i < s.len() ==> decimal_digit(#[trigger] s[i]) is Some
}

pub proof fn lemma_decimal(n: nat, k: nat)
    requires
        n < pow10(k),
        1 <= k <= 30,
    ensures
        natural(decimal(n)) == Some(n as int),
        digits(decimal(n)),
        1 <= decimal(n).len() <= k,
    decreases n,
{
    lemma_digit((n % 10) as int);
    if n < 10 {
        assert(decimal(n).drop_last() =~= Seq::empty());
        assert(natural(Seq::<char>::empty()) == Some(0int));
    } else {
        assert(k > 1) by {
            reveal_with_fuel(pow10, 2);
        }
        lemma_decimal(n / 10, (k - 1) as nat);
        assert(decimal(n).drop_last() =~= decimal(n / 10));
    }
}

proof fn lemma_padded(a: Seq<char>, w: int, f: nat, k: nat)
    requires
        natural(a) == Some(w),
        a.len() + k <= 30,
        f < pow10(k),
    ensures
        natural(a + padded(f, k)) == Some(w * pow10(k) + f),
        digits(padded(f, k)),
        padded(f, k).len() == k,
    decreases k,
{
    if k == 0 {
        assert(a + padded(f, k) =~= a);
        assert(f == 0);
    } else {
        lemma_padded(a, w, f / 10, (k - 1) as nat);
        lemma_digit((f % 10) as int);
        let s = a + padded(f, k);
        assert(s.drop_last() =~= a + padded(f / 10, (k - 1) as nat));
        let p = pow10((k - 1) as nat);
        assert(10 * (w * p + (f / 10) as int) + (f % 10) as int == w * (10 * p) + f)
            by (nonlinear_arith)
            requires
                f == 10 * (f / 10) + f % 10,
        ;
    }
}

/// The number of digits of a fraction without its trailing zeros.
spec fn places(n: nat, k: nat) -> nat
    decreases k,
{
    if k == 0 {
        0
    } else if n % 10 == 0 {
        places(n / 10, (k - 1) as nat)
    } else {
        k
    }
}

proof fn lemma_fraction(n: nat, k: nat)
    requires
        n < pow10(k),
    ensures
        places(n, k) <= k,
        exists|f: nat|
            #![trigger padded(f, places(n, k))]
            fraction_digits(n, k) == padded(f, places(n, k)) && f < pow10(places(n, k)) && n == f
                * pow10((k - places(n, k)) as nat),
    decreases k,
{
    if k == 0 {
        assert(fraction_digits(n, k) =~= padded(0, 0));
        assert(n == 0 * pow10(0));
    } else if n % 10 == 0 {
        lemma_fraction(n / 10, (k - 1) as nat);
        let j = places(n / 10, (k - 1) as nat);
        let f = choose|f: nat|
            #![trigger padded(f, j)]
            fraction_digits(n / 10, (k - 1) as nat) == padded(f, j) && f < pow10(j) && n / 10 == f
                * pow10((k - 1 - j) as nat);
        let p = pow10((k - 1 - j) as nat);
        assert(pow10((k - j) as nat) == 10 * p);
        assert(n == f * (10 * p)) by (nonlinear_arith)
            requires
                n == 10 * (n / 10),
                n / 10 == f * p,
        ;
        assert(fraction_digits(n, k) == padded(f, places(n, k)));
    } else {
        assert(fraction_digits(n, k) == padded(n, places(n, k)));
        assert(pow10(0) == 1);
        assert(n == n * pow10(0)) by (nonlinear_arith)
            requires
                pow10(0) == 1,
        ;
    }
}

proof fn lemma_no_mark(s: Seq<char>, a: char, b: char, i: int)
    requires
        0 <= i <= s.len(),
        forall|k: int| i <= k < s.len() ==> #[trigger] s[k] != a && s[k] != b,
    ensures
        first_index(s, a, b, i) == s.len(),
    decreases s.len() - i,
{
    if i < s.len() {
        lemma_no_mark(s, a, b, i + 1);
    }
}

proof fn lemma_mark_at(s: Seq<char>, a: char, i: int, at: int)
    requires
        0 <= i <= at < s.len(),
        s[at] == a,
        forall|k: int| i <= k < at ==> #[trigger] s[k] != a,
    ensures
        first_index(s, a, a, i) == at,
    decreases at - i,
{
    if i < at {
        lemma_mark_at(s, a, i + 1, at);
    }
}

/// Digits, a point and digits.
proof fn lemma_pointed(whole: Seq<char>, part: Seq<char>, m: int)
    requires
        digits(whole),
        digits(part),
        natural(whole + part) == Some(m),
        part.len() <= 9,
    ensures
        magnitude(whole.push('.') + part) == scaled10(m, 9 - part.len()),
{
    let s = whole.push('.') + part;
    assert forall|k: int| 0 <= k < s.len() implies #[trigger] s[k] != 'e' && s[k] != 'E' by {
        if k < whole.len() {
            assert(decimal_digit(whole[k]) is Some);
        } else if k > whole.len() {
            assert(decimal_digit(part[k - whole.len() - 1]) is Some);
        }
    }
    lemma_no_mark(s, 'e', 'E', 0);
    assert(s.take(s.len() as int) =~= s);
    assert(s[whole.len() as int] == '.');
    assert forall|k: int| 0 <= k < whole.len() implies #[trigger] s[k] != '.' by {
        assert(decimal_digit(whole[k]) is Some);
    }
    lemma_mark_at(s, '.', 0, whole.len() as int);
    assert(s.take(whole.len() as int) =~= whole);
    assert(s.skip(whole.len() as int + 1) =~= part);
    assert(s.skip(s.len() as int) =~= Seq::empty());
    assert(exponent(s.skip(s.len() as int)) == Some(0int));
}

/// Digits, an optional point with digits, and an exponent.
proof fn lemma_exponent(whole: Seq<char>, part: Seq<char>, m: int, p: int)
    requires
        digits(whole),
        digits(part),
        natural(whole + part) == Some(m),
        0 <= p < 10,
    ensures
        ({
            let mantissa = whole + if part.len() == 0 {
                Seq::empty()
            } else {
                seq!['.'] + part
            };
            magnitude(mantissa + seq!['e', '-', digit(p)]) == scaled10(m, 9 - p - part.len())
        }),
{
    let mantissa = whole + if part.len() == 0 {
        Seq::empty()
    } else {
        seq!['.'] + part
    };
    let tail = seq!['e', '-', digit(p)];
    let s = mantissa + tail;
    assert forall|k: int| 0 <= k < mantissa.len() implies #[trigger] s[k] != 'e' && s[k]
        != 'E' by {
        if k < whole.len() {
            assert(decimal_digit(whole[k]) is Some);
        } else if k > whole.len() {
            assert(decimal_digit(part[k - whole.len() - 1]) is Some);
        }
    }
    assert(s[mantissa.len() as int] == 'e');
    lemma_exponent_at(s, mantissa.len() as int, 0);
    assert(s.take(mantissa.len() as int) =~= mantissa);
    assert(s.skip(mantissa.len() as int) =~= tail);
    assert forall|k: int| 0 <= k < whole.len() implies #[trigger] mantissa[k] != '.' by {
        assert(decimal_digit(whole[k]) is Some);
    }
    if part.len() == 0 {
        assert(mantissa =~= whole);
        lemma_no_mark(mantissa, '.', '.', 0);
        assert(mantissa.take(mantissa.len() as int) =~= whole);
        assert(whole + Seq::empty() =~= whole + part);
    } else {
        assert(mantissa[whole.len() as int] == '.');
        lemma_mark_at(mantissa, '.', 0, whole.len() as int);
        assert(mantissa.take(whole.len() as int) =~= whole);
        assert(mantissa.skip(whole.len() as int + 1) =~= part);
    }
    lemma_digit(p);
    assert(tail.skip(2) =~= seq![digit(p)]);
    assert(seq![digit(p)].drop_last() =~= Seq::empty());
    assert(natural(Seq::<char>::empty()) == Some(0int));
    assert(natural(seq![digit(p)]) == Some(p));
}

proof fn lemma_exponent_at(s: Seq<char>, at: int, i: int)
    requires
        0 <= i <= at < s.len(),
        s[at] == 'e',
        forall|k: int| i <= k < at ==> #[trigger] s[k] != 'e' && s[k] != 'E',
    ensures
        first_index(s, 'e', 'E', i) == at,
    decreases at - i,
{
    if i < at {
        lemma_exponent_at(s, at, i + 1);
    }
}

proof fn lemma_scientific(x: nat)
    requires
        0 < x < TINY,
    ensures
        magnitude(scientific(x)) == Some(x as int),
        scientific(x).len() > 0,
        scientific(x)[0] != '-',
{
    let k = digits_behind(x);
    reveal_with_fuel(pow10, 4);
    let p = pow10(k);
    let lead = x as int / p;
    let rest = (x as int % p) as nat;
    assert(x == lead * p + rest) by (nonlinear_arith)
        requires
            lead == x as int / p,
            rest == x as int % p,
            p > 0,
    ;
    assert(0 < lead < 10) by {
        if k == 0 {
            assert(p == 1);
            assert(lead == x as int / 1);
        } else if k == 1 {
            assert(p == 10);
            assert(lead == x as int / 10);
        } else if k == 2 {
            assert(p == 100);
            assert(lead == x as int / 100);
        } else {
            assert(p == 1000);
            assert(lead == x as int / 1000);
        }
    }
    lemma_digit(lead);
    let whole = seq![digit(lead)];
    assert(whole.drop_last() =~= Seq::empty());
    assert(natural(Seq::<char>::empty()) == Some(0int));
    assert(natural(whole) == Some(lead));
    if rest == 0 {
        let part = Seq::<char>::empty();
        assert(whole + part =~= whole);
        lemma_exponent(whole, part, lead, 9 - k);
        assert(scientific(x) =~= (whole + Seq::empty()) + seq!['e', '-', digit(9 - k)]);
        assert(lead * p <= LIMIT);
    } else {
        lemma_fraction(rest, k);
        let j = places(rest, k);
        let g = choose|g: nat|
            #![trigger padded(g, j)]
            fraction_digits(rest, k) == padded(g, j) && g < pow10(j) && rest == g * pow10(
                (k - j) as nat,
            );
        let part = padded(g, j);
        lemma_padded(whole, lead, g, j);
        assert(j > 0) by {
            if j == 0 {
                assert(pow10(0) == 1);
                assert(g == 0);
                assert(0 * pow10(k) == 0);
            }
        }
        let m = lead * pow10(j) + g;
        lemma_exponent(whole, part, m, 9 - k);
        lemma_pow10_sum(j, (k - j) as nat);
        lemma_pow10_sum((k - j) as nat, j);
        let a = pow10(j);
        let b = pow10((k - j) as nat);
        assert((lead * a + g) * b == lead * (a * b) + g * b) by (nonlinear_arith);
        assert(m * b == x);
        assert(m > 0) by (nonlinear_arith)
            requires
                m == lead * a + g,
                lead > 0,
                a >= 1,
                g >= 0,
        ;
        assert(m <= m * b) by (nonlinear_arith)
            requires
                b >= 1,
                m > 0,
        ;
        assert(scientific(x) =~= (whole + (seq!['.'] + part)) + seq!['e', '-', digit(9 - k)]);
    }
}

/// A fixed-point number with a decimal point, also where it is whole.
pub open spec fn pointed(x: int) -> Seq<char> {
    if x % (UNIT as int) == 0 {
        fixed_notation(x) + ".0"@
    } else {
        fixed_notation(x)
    }
}

#[verifier::rlimit(30)]
pub proof fn lemma_unsigned(x: int)
    requires
        0 <= x <= LIMIT,
    ensures
        magnitude(pointed(x)) == Some(x),
        pointed(x).len() > 0,
        pointed(x)[0] != '-',
        fixed_notation(x).len() > 0,
        fixed_notation(x)[0] != '-',
        decimal_digit(fixed_notation(x).last()) is Some,
        fixed_notation(x).contains('.') <==> x % (UNIT as int) != 0,
{
    let u = UNIT as int;
    let w = (x / u) as nat;
    let f = (x % u) as nat;
    reveal_with_fuel(pow10, 18);
    assert(pow10(9) == 1_000_000_000);
    assert(pow10(17) == 100_000_000_000_000_000);
    lemma_decimal(w, 9);
    let whole = decimal(w);
    assert(x == w * 1_000_000_000 + f);
    assert(Seq::<char>::empty() + whole =~= whole);
    assert(decimal_digit(whole[0]) is Some);
    if f == 0 {
        reveal_strlit(".0");
        let part = seq!['0'];
        assert(pointed(x) =~= whole.push('.') + part);
        assert(fixed_notation(x) =~= whole);
        assert forall|i: int| 0 <= i < whole.len() implies whole[i] != '.' by {
            assert(decimal_digit(whole[i]) is Some);
        }
        assert(decimal_digit(whole.last()) is Some);
        lemma_digit(0);
        let both = whole + part;
        assert(both.drop_last() =~= whole);
        assert(natural(both) == Some(10 * w as int));
        lemma_pointed(whole, part, 10 * w as int);
        assert(pow10(8) == 100_000_000);
    } else {
        lemma_fraction(f, 9);
        let k = places(f, 9);
        let g = choose|g: nat|
            #![trigger padded(g, k)]
            fraction_digits(f, 9) == padded(g, k) && g < pow10(k) && f == g * pow10(
                (9 - k) as nat,
            );
        let part = padded(g, k);
        lemma_padded(whole, w as int, g, k);
        let m = w * pow10(k) + g;
        assert(pointed(x) =~= whole.push('.') + part);
        assert(fixed_notation(x)[whole.len() as int] == '.');
        assert(part.len() > 0) by {
            if k == 0 {
                assert(g == 0);
                assert(0 * pow10(9) == 0);
            }
        }
        assert(decimal_digit(part.last()) is Some);
        lemma_pointed(whole, part, m);
        lemma_pow10_parts(k);
        let p = pow10(k);
        let q = pow10((9 - k) as nat);
        assert((w * p + g) * q == w * (p * q) + g * q) by (nonlinear_arith);
        assert(m * q == x);
        assert(q >= 1);
        assert(m <= m * q) by (nonlinear_arith)
            requires
                q >= 1,
                m >= 0,
        ;
        assert(m >= 0) by (nonlinear_arith)
            requires
                m == w * p + g,
                w >= 0,
                p >= 1,
                g >= 0,
        ;
        if m == 0 {
            assert(0 * q == 0) by (nonlinear_arith);
        }
    }
}

proof fn lemma_pow10_sum(a: nat, b: nat)
    ensures
        pow10(a) * pow10(b) == pow10(a + b),
        pow10(a) >= 1,
    decreases a,
{
    if a == 0 {
        assert(1 * pow10(b) == pow10(b));
    } else {
        lemma_pow10_sum((a - 1) as nat, b);
        let p = pow10((a - 1) as nat);
        let q = pow10(b);
        assert((10 * p) * q == 10 * (p * q)) by (nonlinear_arith);
    }
}

proof fn lemma_pow10_parts(k: nat)
    requires
        k <= 9,
    ensures
        pow10(k) * pow10((9 - k) as nat) == 1_000_000_000,
        pow10(k) >= 1,
        pow10((9 - k) as nat) >= 1,
{
    lemma_pow10_sum(k, (9 - k) as nat);
    lemma_pow10_sum((9 - k) as nat, k);
    reveal_with_fuel(pow10, 10);
    assert(pow10(9) == 1_000_000_000);
}

/// A number that a document holds is read as it was written.
pub proof fn law_number(x: int)
    requires
        -LIMIT <= x <= LIMIT,
    ensures
        fixed_of(number(x)) == Some(x),
{
    if 0 < x < TINY {
        lemma_scientific(x as nat);
    } else if -TINY < x < 0 {
        lemma_scientific((-x) as nat);
        assert(number(x).skip(1) =~= scientific((-x) as nat));
    } else if x >= 0 {
        lemma_unsigned(x);
    } else {
        lemma_unsigned(-x);
        assert((-x) % (UNIT as int) == 0 <==> x % (UNIT as int) == 0);
        assert(number(x) =~= seq!['-'] + number(-x));
        assert(number(x).skip(1) =~= number(-x));
    }
}

/// Numbers in range that differ have different notations.
pub proof fn law_fixed_notation(x: int, y: int)
    requires
        -LIMIT <= x <= LIMIT,
        -LIMIT <= y <= LIMIT,
        fixed_notation(x) == fixed_notation(y),
    ensures
        x == y,
{
    let s = fixed_notation(x);
    if x >= 0 {
        lemma_unsigned(x);
    } else {
        lemma_unsigned(-x);
        assert(s =~= seq!['-'] + fixed_notation(-x));
        assert(s.skip(1) =~= fixed_notation(-x));
    }
    if y >= 0 {
        lemma_unsigned(y);
    } else {
        lemma_unsigned(-y);
        assert(s =~= seq!['-'] + fixed_notation(-y));
        assert(s.skip(1) =~= fixed_notation(-y));
    }
}

/// A whole number of 32 bits is read as it was written.
pub proof fn law_integer(n: int)
    requires
        i32::MIN <= n <= u32::MAX,
    ensures
        integer_of(integer(n)) == Some(n),
{
    reveal_with_fuel(pow10, 11);
    assert(pow10(10) == 10_000_000_000);
    if n < 0 {
        lemma_decimal((-n) as nat, 10);
        assert(integer(n).skip(1) =~= decimal((-n) as nat));
    } else {
        lemma_decimal(n as nat, 10);
        assert(decimal_digit(decimal(n as nat)[0]) is Some);
    }
}

/// A number that was read is one that a document may hold.
pub proof fn lemma_fixed_bounds(s: Seq<char>)
    requires
        fixed_of(s) is Some,
    ensures
        -LIMIT <= fixed_of(s)->0 <= LIMIT,
{
    let t = if s.len() > 0 && s[0] == '-' {
        s.skip(1)
    } else {
        s
    };
    lemma_magnitude_bounds(t);
}

proof fn lemma_magnitude_bounds(s: Seq<char>)
    requires
        magnitude(s) is Some,
    ensures
        0 <= magnitude(s)->0 <= LIMIT,
{
    let e = first_index(s, 'e', 'E', 0);
    let mantissa = s.take(e);
    let dot = first_index(mantissa, '.', '.', 0);
    let whole = mantissa.take(dot);
    let part = if dot < mantissa.len() {
        mantissa.skip(dot + 1)
    } else {
        Seq::empty()
    };
    let m = natural(whole + part)->0;
    let x = 9 + exponent(s.skip(e))->0 - part.len();
    lemma_natural_positive(whole + part);
    if m > 0 && x >= 0 {
        lemma_pow10_sum(x as nat, 0);
        assert(0 <= m * pow10(x as nat)) by (nonlinear_arith)
            requires
                m > 0,
                pow10(x as nat) >= 1,
        ;
    } else if m > 0 && x >= -30 {
        lemma_pow10_sum((-x) as nat, 0);
        let q = pow10((-x) as nat);
        assert(0 <= m / q) by (nonlinear_arith)
            requires
                m > 0,
                q >= 1,
        ;
    }
}

proof fn lemma_natural_positive(s: Seq<char>)
    requires
        natural(s) is Some,
    ensures
        natural(s)->0 >= 0,
    decreases s.len(),
{
    if s.len() > 0 {
        lemma_natural_positive(s.drop_last());
    }
}

} // verus!
