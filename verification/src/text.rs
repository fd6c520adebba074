//! Text as sequences of characters: comparison, search, and the decimal
//! notation of numbers.

use vstd::prelude::*;
use vstd::utf8::encode_utf8;
use vstd::utf8::encode_utf8_decode_utf8;
use crate::fixed::UNIT;
use crate::views::views;

verus! {

broadcast use vstd::seq_lib::group_seq_properties;

/// `String::push` appends one character to the end of the text.
pub assume_specification[ String::push ](s: &mut String, ch: char)
    ensures
        final(s)@ == old(s)@.push(ch),
;

/// Whether two texts hold the same characters.
pub fn same(a: &str, b: &str) -> (r: bool)
    ensures
        r == (a@ == b@),
{
    let x: &[u8] = a.as_bytes();
    let y: &[u8] = b.as_bytes();
    proof {
        encode_utf8_decode_utf8(a@);
        encode_utf8_decode_utf8(b@);
    }
    if x.len() != y.len() {
        return false;
    }
    let mut i: usize = 0;
    while i < x.len()
        invariant
            x@ == encode_utf8(a@),
            y@ == encode_utf8(b@),
            x.len() == y.len(),
            i <= x.len(),
            forall|j: int| 0 <= j < i ==> x@[j] == y@[j],
        decreases x.len() - i,
    {
        if x[i] != y[i] {
            return false;
        }
        i += 1;
    }
    assert(x@ =~= y@);
    true
}

/// The characters of a text.
pub fn chars_of(s: &str) -> (r: Vec<char>)
    ensures
        r@ == s@,
{
    let mut v: Vec<char> = Vec::new();
    for c in it: s.chars()
        invariant
            it.seq() == s@,
            v@ == it.seq().take(it.index()),
    {
        v.push(c);
    }
    v
}

/// The text made of `v[from..to]`.
pub fn text_of(v: &Vec<char>, from: usize, to: usize) -> (r: String)
    requires
        from <= to <= v.len(),
    ensures
        r@ == v@.subrange(from as int, to as int),
{
    let mut s: String = String::new();
    let mut i: usize = from;
    while i < to
        invariant
            from <= i <= to <= v.len(),
            s@ == v@.subrange(from as int, i as int),
        decreases to - i,
    {
        s.push(v[i]);
        i += 1;
        assert(s@ =~= v@.subrange(from as int, i as int));
    }
    s
}

/// One text after another.
pub fn joined(a: &str, b: &str) -> (r: String)
    ensures
        r@ == a@ + b@,
{
    let mut s: String = a.to_owned();
    s.append(b);
    s
}

/// The decimal digit of `d`.
pub open spec fn digit(d: int) -> char {
    (('0' as u32) + d) as u32 as char
}

/// The decimal notation of a natural number.
pub open spec fn decimal(n: nat) -> Seq<char>
    decreases n,
{
    if n < 10 {
        seq![digit(n as int)]
    } else {
        decimal(n / 10).push(digit((n % 10) as int))
    }
}

fn digit_char(d: u8) -> (r: char)
    requires
        d < 10,
    ensures
        r == digit(d as int),
{
    match d {
        0 => '0',
        1 => '1',
        2 => '2',
        3 => '3',
        4 => '4',
        5 => '5',
        6 => '6',
        7 => '7',
        8 => '8',
        _ => '9',
    }
}

/// The decimal notation of a natural number.
pub fn decimal_text(n: u128) -> (r: String)
    ensures
        r@ == decimal(n as nat),
    decreases n,
{
    if n < 10 {
        let mut s: String = String::new();
        s.push(digit_char(n as u8));
        assert(s@ =~= seq![digit(n as int)]);
        s
    } else {
        let mut s: String = decimal_text(n / 10);
        s.push(digit_char((n % 10) as u8));
        s
    }
}

/// The last `k` decimal digits of `n`, with leading zeros.
pub open spec fn padded(n: nat, k: nat) -> Seq<char>
    decreases k,
{
    if k == 0 {
        Seq::empty()
    } else {
        padded(n / 10, (k - 1) as nat).push(digit((n % 10) as int))
    }
}

/// The last `k` decimal digits of `n`, with leading zeros.
pub fn padded_text(n: u128, k: u8) -> (r: String)
    ensures
        r@ == padded(n as nat, k as nat),
    decreases k,
{
    if k == 0 {
        String::new()
    } else {
        let mut s: String = padded_text(n / 10, k - 1);
        s.push(digit_char((n % 10) as u8));
        s
    }
}

/// The digits of a fraction of `n` units in the `k`-th decimal place, without
/// trailing zeros.
pub open spec fn fraction_digits(n: nat, k: nat) -> Seq<char>
    decreases k,
{
    if k == 0 {
        Seq::empty()
    } else if n % 10 == 0 {
        fraction_digits(n / 10, (k - 1) as nat)
    } else {
        padded(n, k)
    }
}

pub(crate) fn fraction_text(n: u128, k: u8) -> (r: String)
    ensures
        r@ == fraction_digits(n as nat, k as nat),
    decreases k,
{
    if k == 0 {
        String::new()
    } else if n % 10 == 0 {
        fraction_text(n / 10, k - 1)
    } else {
        padded_text(n, k)
    }
}

/// The shortest decimal notation of a fixed-point number: no decimal point
/// where the number is whole.
pub open spec fn fixed_notation(x: int) -> Seq<char> {
    let m: nat = (if x < 0 {
        -x
    } else {
        x
    }) as nat;
    let sign: Seq<char> = if x < 0 {
        seq!['-']
    } else {
        Seq::empty()
    };
    let whole: Seq<char> = sign + decimal(m / (UNIT as nat));
    if m % (UNIT as nat) == 0 {
        whole
    } else {
        whole.push('.') + fraction_digits(m % (UNIT as nat), 9)
    }
}

/// The shortest decimal notation of a fixed-point number.
pub fn fixed_text(x: i128) -> (r: String)
    ensures
        r@ == fixed_notation(x as int),
{
    let mut s: String = String::new();
    let m: u128 = if x < 0 {
        s.push('-');
        ((-(x + 1)) as u128) + 1
    } else {
        x as u128
    };
    assert(s@ =~= if x < 0 {
        seq!['-']
    } else {
        Seq::empty()
    });
    s.append(decimal_text(m / 1_000_000_000).as_str());
    if m % 1_000_000_000 != 0 {
        s.push('.');
        s.append(fraction_text(m % 1_000_000_000, 9).as_str());
    }
    s
}

/// `pat` stands in `s` at position `i`.
pub open spec fn matches_at(s: Seq<char>, pat: Seq<char>, i: int) -> bool {
    0 <= i && i + pat.len() <= s.len() && s.subrange(i, i + pat.len()) == pat
}

/// `s` with each occurrence of `pat`, found from the left, replaced by
/// `with`.
pub open spec fn replaced(s: Seq<char>, pat: Seq<char>, with: Seq<char>) -> Seq<char>
    decreases s.len(),
{
    if pat.len() == 0 || s.len() < pat.len() {
        s
    } else if s.take(pat.len() as int) == pat {
        with + replaced(s.skip(pat.len() as int), pat, with)
    } else {
        seq![s[0]] + replaced(s.skip(1), pat, with)
    }
}

/// Whether `pat` stands in `s` at position `i`.
pub fn found_at(s: &Vec<char>, pat: &Vec<char>, i: usize) -> (r: bool)
    requires
        i <= s.len(),
    ensures
        r == matches_at(s@, pat@, i as int),
{
    if s.len() - i < pat.len() {
        return false;
    }
    let mut j: usize = 0;
    while j < pat.len()
        invariant
            i + pat.len() <= s.len(),
            j <= pat.len(),
            forall|k: int| 0 <= k < j ==> s@[i + k] == pat@[k],
        decreases pat.len() - j,
    {
        if s[i + j] != pat[j] {
            assert(s@.subrange(i as int, i + pat@.len())[j as int] != pat@[j as int]);
            return false;
        }
        j += 1;
    }
    assert(s@.subrange(i as int, i + pat@.len()) =~= pat@);
    true
}

/// `text` with each occurrence of `pat` replaced by `with`.
pub fn replace(text: &str, pat: &str, with: &str) -> (r: String)
    requires
        pat@.len() > 0,
    ensures
        r@ == replaced(text@, pat@, with@),
{
    let s: Vec<char> = chars_of(text);
    let p: Vec<char> = chars_of(pat);
    let mut out: String = String::new();
    let mut i: usize = 0;
    while i < s.len()
        invariant
            s@ == text@,
            p@ == pat@,
            p.len() > 0,
            i <= s.len(),
            out@ + replaced(s@.skip(i as int), p@, with@) == replaced(text@, pat@, with@),
        decreases s.len() - i,
    {
        let ghost rest = s@.skip(i as int);
        if found_at(&s, &p, i) {
            proof {
                assert(rest.take(p@.len() as int) =~= s@.subrange(i as int, i + p@.len()));
                assert(rest.skip(p@.len() as int) =~= s@.skip(i + p@.len()));
                assert(out@ + (with@ + replaced(s@.skip(i + p@.len()), p@, with@)) =~= (out@
                    + with@) + replaced(s@.skip(i + p@.len()), p@, with@));
            }
            out.append(with);
            i += p.len();
        } else {
            proof {
                if rest.len() >= p@.len() {
                    assert(rest.take(p@.len() as int) =~= s@.subrange(i as int, i + p@.len()));
                    assert(rest.skip(1) =~= s@.skip(i + 1));
                    assert(out@ + (seq![rest[0]] + replaced(s@.skip(i + 1), p@, with@))
                        =~= out@.push(s@[i as int]) + replaced(s@.skip(i + 1), p@, with@));
                } else {
                    assert(out@ + rest =~= out@.push(s@[i as int]) + s@.skip(i + 1));
                }
            }
            out.push(s[i]);
            i += 1;
        }
    }
    assert(out@ + s@.skip(i as int) =~= out@);
    out
}

/// Whether a list holds a text.
pub fn list_contains(list: &Vec<String>, text: &str) -> (r: bool)
    ensures
        r == views(list@).contains(text@),
{
    let mut i: usize = 0;
    while i < list.len()
        invariant
            i <= list.len(),
            forall|j: int| 0 <= j < i ==> list@[j]@ != text@,
        decreases list.len() - i,
    {
        if same(list[i].as_str(), text) {
            assert(views(list@)[i as int] == text@);
            return true;
        }
        i += 1;
    }
    false
}

/// Code point order of texts, the order of their UTF-8 encodings.
pub open spec fn text_lt(a: Seq<char>, b: Seq<char>) -> bool
    decreases a.len(),
{
    if b.len() == 0 {
        false
    } else if a.len() == 0 {
        true
    } else if a[0] != b[0] {
        (a[0] as u32) < (b[0] as u32)
    } else {
        text_lt(a.skip(1), b.skip(1))
    }
}

pub proof fn lemma_text_lt_irreflexive(a: Seq<char>)
    ensures
        !text_lt(a, a),
    decreases a.len(),
{
    if a.len() > 0 {
        lemma_text_lt_irreflexive(a.skip(1));
    }
}

pub proof fn lemma_text_lt_transitive(a: Seq<char>, b: Seq<char>, c: Seq<char>)
    requires
        text_lt(a, b),
        text_lt(b, c),
    ensures
        text_lt(a, c),
    decreases a.len(),
{
    if a.len() > 0 && a[0] == b[0] && b[0] == c[0] {
        lemma_text_lt_transitive(a.skip(1), b.skip(1), c.skip(1));
    }
}

proof fn lemma_code_points(x: char, y: char)
    requires
        x != y,
    ensures
        x as u32 != y as u32,
{
}

pub proof fn lemma_text_lt_total(a: Seq<char>, b: Seq<char>)
    requires
        a != b,
    ensures
        text_lt(a, b) || text_lt(b, a),
    decreases a.len(),
{
    if a.len() > 0 && b.len() > 0 && a[0] == b[0] {
        if a.skip(1) == b.skip(1) {
            assert(a =~= seq![a[0]] + a.skip(1));
            assert(b =~= seq![b[0]] + b.skip(1));
        }
        lemma_text_lt_total(a.skip(1), b.skip(1));
    } else if a.len() == 0 && b.len() == 0 {
        assert(a =~= b);
    } else if a.len() > 0 && b.len() > 0 {
        lemma_code_points(a[0], b[0]);
    }
}

/// Whether `a` precedes `b` in code point order.
pub fn precedes(a: &str, b: &str) -> (r: bool)
    ensures
        r == text_lt(a@, b@),
{
    let x: Vec<char> = chars_of(a);
    let y: Vec<char> = chars_of(b);
    let mut i: usize = 0;
    proof {
        assert(x@.skip(0) =~= x@);
        assert(y@.skip(0) =~= y@);
    }
    loop
        invariant
            x@ == a@,
            y@ == b@,
            i <= x.len(),
            i <= y.len(),
            text_lt(x@.skip(i as int), y@.skip(i as int)) == text_lt(a@, b@),
        decreases x.len() - i,
    {
        if i >= y.len() {
            return false;
        }
        if i >= x.len() {
            return true;
        }
        if x[i] != y[i] {
            return (x[i] as u32) < (y[i] as u32);
        }
        proof {
            assert(x@.skip(i as int).skip(1) =~= x@.skip(i + 1));
            assert(y@.skip(i as int).skip(1) =~= y@.skip(i + 1));
        }
        i += 1;
    }
}

/// A text without the pattern stays as it is.
pub proof fn law_replaced_absent(s: Seq<char>, pat: Seq<char>, with: Seq<char>)
    requires
        pat.len() > 0,
        forall|i: int| !#[trigger] matches_at(s, pat, i),
    ensures
        replaced(s, pat, with) == s,
    decreases s.len(),
{
    if s.len() >= pat.len() {
        assert(s.take(pat.len() as int) =~= s.subrange(0, pat.len() as int));
        assert(!matches_at(s, pat, 0));
        let rest = s.skip(1);
        assert forall|i: int| !#[trigger] matches_at(rest, pat, i) by {
            assert(!matches_at(s, pat, i + 1));
            if 0 <= i && i + pat.len() <= rest.len() {
                assert(rest.subrange(i, i + pat.len()) =~= s.subrange(i + 1, i + 1 + pat.len()));
            }
        }
        law_replaced_absent(rest, pat, with);
        assert(seq![s[0]] + rest =~= s);
    }
}

/// Where the pattern first stands in a text, at `i`, the text becomes what
/// stands before it, the replacement, and what follows it with the pattern
/// replaced there too.
pub proof fn law_replaced_first(s: Seq<char>, pat: Seq<char>, with: Seq<char>, i: int)
    requires
        pat.len() > 0,
        matches_at(s, pat, i),
        forall|j: int| j < i ==> !#[trigger] matches_at(s, pat, j),
    ensures
        replaced(s, pat, with) == s.take(i) + with + replaced(
            s.skip(i + pat.len()),
            pat,
            with,
        ),
    decreases i,
{
    let n = pat.len() as int;
    assert(s.take(n) =~= s.subrange(0, 0 + n));
    if i == 0 {
        assert(s.take(0) + with =~= with);
        assert(s.skip(0 + n) =~= s.skip(n));
    } else {
        assert(!matches_at(s, pat, 0));
        let rest = s.skip(1);
        assert(rest.subrange(i - 1, i - 1 + n) =~= s.subrange(i, i + n));
        assert forall|j: int| j < i - 1 implies !#[trigger] matches_at(rest, pat, j) by {
            assert(!matches_at(s, pat, j + 1));
            if 0 <= j && j + n <= rest.len() {
                assert(rest.subrange(j, j + n) =~= s.subrange(j + 1, j + 1 + n));
            }
        }
        law_replaced_first(rest, pat, with, i - 1);
        let tail = replaced(s.skip(i + n), pat, with);
        assert(rest.skip(i - 1 + n) =~= s.skip(i + n));
        assert(seq![s[0]] + (rest.take(i - 1) + with + tail) =~= s.take(i) + with + tail);
    }
}

/// Texts are ordered by the first character in which they differ, the smaller
/// code point first, and a text comes before one that goes on from it.
pub proof fn law_text_order(a: Seq<char>, b: Seq<char>, i: int)
    requires
        0 <= i <= a.len(),
        i <= b.len(),
        forall|k: int| 0 <= k < i ==> a[k] == b[k],
    ensures
        i < a.len() && i < b.len() && (a[i] as u32) < (b[i] as u32) ==> text_lt(a, b) && !text_lt(b, a),
        i == a.len() && i < b.len() ==> text_lt(a, b) && !text_lt(b, a),
    decreases i,
{
    if i > 0 {
        let x = a.skip(1);
        let y = b.skip(1);
        assert forall|k: int| 0 <= k < i - 1 implies x[k] == y[k] by {
            assert(x[k] == a[k + 1] && y[k] == b[k + 1]);
        }
        law_text_order(x, y, i - 1);
    }
}

} // verus!
