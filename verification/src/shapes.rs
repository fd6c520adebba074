//! Shapes in files and streams: cached pictures of shapes, and the live
//! source that `vello://` URIs name.

use vstd::prelude::*;
use crate::color::{argb, hex_digit, parse_color, without_hashes};
use crate::document::{ShapeKind, Transform};
use crate::fixed::UNIT;
use crate::ids::lemma_decimal_injective;
use crate::json::{decimal_digit, pow10};
use crate::numbers::{law_fixed_notation, lemma_decimal, lemma_unsigned};
use crate::prefs::lacks;
use crate::raster::{invert, inverted, render_shape, Drawing, SIDE};
use crate::text::{chars_of, decimal, decimal_text, fixed_notation, fixed_text, joined, same,
    text_of};

verus! {

/// The name of a shape.
pub open spec fn shape_name(kind: ShapeKind) -> Seq<char> {
    match kind {
        ShapeKind::Rect => "Rect"@,
        ShapeKind::Circle => "Circle"@,
        ShapeKind::Ellipse => "Ellipse"@,
        ShapeKind::Star => "Star"@,
        ShapeKind::Polygon => "Polygon"@,
        ShapeKind::Line => "Line"@,
        ShapeKind::Arrow => "Arrow"@,
    }
}

fn name_of_shape(kind: ShapeKind) -> (r: &'static str)
    ensures
        r@ == shape_name(kind),
{
    match kind {
        ShapeKind::Rect => "Rect",
        ShapeKind::Circle => "Circle",
        ShapeKind::Ellipse => "Ellipse",
        ShapeKind::Star => "Star",
        ShapeKind::Polygon => "Polygon",
        ShapeKind::Line => "Line",
        ShapeKind::Arrow => "Arrow",
    }
}

/// The size of a shape clip on its canvas: its own, in whole pixels, or 200
/// where it has none.
pub open spec fn side_of(extent: int) -> int {
    if extent > 0 {
        crate::fixed::min(extent / (UNIT as int), u32::MAX as int)
    } else {
        200
    }
}

/// The size that the shape of a clip is drawn at.
pub fn shape_size(transform: &Transform) -> (r: (u32, u32))
    ensures
        r.0 == side_of(transform.width as int),
        r.1 == side_of(transform.height as int),
{
    (side(transform.width), side(transform.height))
}

fn side(extent: i128) -> (r: u32)
    ensures
        r == side_of(extent as int),
{
    if extent > 0 {
        let px: i128 = extent / UNIT;
        if px > 4_294_967_295 {
            4_294_967_295
        } else {
            px as u32
        }
    } else {
        200
    }
}

/// The name of the cached picture of a shape: its kind, color, size, the
/// softness of its edge, and whether it is inverted.
pub open spec fn shape_file_name(
    kind: ShapeKind,
    fill: Seq<char>,
    w: int,
    h: int,
    feather: int,
    inverse: bool,
) -> Seq<char> {
    "shape-"@ + shape_name(kind) + "-"@ + without_hashes(fill) + "-"@ + decimal(w as nat) + "x"@
        + decimal(h as nat) + "-f"@ + fixed_notation(feather) + (if inverse {
        "-inv"@
    } else {
        ""@
    }) + ".png"@
}

/// A color as a number sign and hexadecimal digits.
pub open spec fn hex_fill(fill: Seq<char>) -> bool {
    &&& fill.len() > 0 && fill[0] == '#'
    &&& forall|i: int| 1 <= i < fill.len() ==> hex_digit(#[trigger] fill[i]) is Some
}

/// Two texts that agree up to a character, which neither part before it holds,
/// agree before and behind it.
proof fn lemma_cut(a: Seq<char>, b: Seq<char>, c: char, d: Seq<char>, e: Seq<char>)
    requires
        a + seq![c] + b == d + seq![c] + e,
        lacks(a, c),
        lacks(d, c),
    ensures
        a == d,
        b == e,
{
    let s = a + seq![c] + b;
    assert(s[a.len() as int] == c);
    assert(s[d.len() as int] == c);
    if a.len() < d.len() {
        assert(s[a.len() as int] == d[a.len() as int]);
    } else if d.len() < a.len() {
        assert(s[d.len() as int] == a[d.len() as int]);
    }
    assert(a =~= s.take(a.len() as int));
    assert(d =~= s.take(a.len() as int));
    assert(b =~= s.skip((a.len() + 1) as int));
    assert(e =~= s.skip((a.len() + 1) as int));
}

proof fn lemma_shape_names(a: ShapeKind, b: ShapeKind)
    ensures
        lacks(shape_name(a), '-'),
        shape_name(a) == shape_name(b) ==> a == b,
{
    reveal_strlit("Rect");
    reveal_strlit("Circle");
    reveal_strlit("Ellipse");
    reveal_strlit("Star");
    reveal_strlit("Polygon");
    reveal_strlit("Line");
    reveal_strlit("Arrow");
    if shape_name(a) == shape_name(b) {
        assert(shape_name(a).len() == shape_name(b).len());
        assert(shape_name(a)[0] == shape_name(b)[0]);
    }
}

proof fn lemma_hex_fill(fill: Seq<char>)
    requires
        hex_fill(fill),
    ensures
        without_hashes(fill) == fill.skip(1),
        lacks(fill.skip(1), '-'),
{
    let rest = fill.skip(1);
    assert forall|i: int| 0 <= i < rest.len() implies #[trigger] rest[i] != '-' && rest[i]
        != '#' by {
        assert(hex_digit(fill[i + 1]) is Some);
    }
    reveal_with_fuel(without_hashes, 2);
}

proof fn lemma_decimal_lacks(n: nat)
    requires
        n <= u32::MAX,
    ensures
        lacks(decimal(n), '-'),
        lacks(decimal(n), 'x'),
{
    reveal_with_fuel(pow10, 11);
    assert(pow10(10) == 10_000_000_000);
    lemma_decimal(n, 10);
    assert forall|i: int| 0 <= i < decimal(n).len() implies #[trigger] decimal(n)[i] != '-'
        && decimal(n)[i] != 'x' by {
        assert(decimal_digit(decimal(n)[i]) is Some);
    }
}

/// What the name of a picture ends in: the softness of the edge, and whether
/// the shape is inverted.
pub open spec fn edge_name(feather: int, inverse: bool) -> Seq<char> {
    fixed_notation(feather) + (if inverse {
        "-inv"@
    } else {
        ""@
    }) + ".png"@
}

proof fn lemma_edge_name(f: int, i: bool, g: int, j: bool)
    requires
        crate::fixed::in_range(f),
        crate::fixed::in_range(g),
        edge_name(f, i) == edge_name(g, j),
    ensures
        f == g,
        i == j,
{
    reveal_strlit("-inv");
    reveal_strlit("");
    reveal_strlit(".png");
    let s = edge_name(f, i);
    let a = fixed_notation(f);
    let b = fixed_notation(g);
    lemma_last_digit(f);
    lemma_last_digit(g);
    let n = s.len() - 5;
    if i {
        assert(s[n] == 'v');
    } else {
        assert(s[n] == a.last());
    }
    if j {
        assert(s[n] == 'v');
    } else {
        assert(s[n] == b.last());
    }
    let cut = if i {
        s.len() - 8
    } else {
        s.len() - 4
    };
    assert(a =~= s.take(cut));
    assert(b =~= s.take(cut));
    law_fixed_notation(f, g);
}

proof fn lemma_last_digit(f: int)
    requires
        crate::fixed::in_range(f),
    ensures
        fixed_notation(f).len() > 0,
        decimal_digit(fixed_notation(f).last()) is Some,
{
    if f >= 0 {
        lemma_unsigned(f);
    } else {
        lemma_unsigned(-f);
        assert(fixed_notation(f) =~= seq!['-'] + fixed_notation(-f));
        assert(fixed_notation(f).last() == fixed_notation(-f).last());
    }
}

/// The size and the edge in the name of a picture.
spec fn size_name(w: int, h: int, feather: int, inverse: bool) -> Seq<char> {
    decimal(w as nat) + seq!['x'] + (decimal(h as nat) + seq!['-'] + (seq!['f'] + edge_name(
        feather,
        inverse,
    )))
}

proof fn lemma_name_parts(
    kind: ShapeKind,
    fill: Seq<char>,
    w: int,
    h: int,
    feather: int,
    inverse: bool,
)
    requires
        hex_fill(fill),
    ensures
        shape_file_name(kind, fill, w, h, feather, inverse).skip(6) == shape_name(kind) + seq!['-']
            + (fill.skip(1) + seq!['-'] + size_name(w, h, feather, inverse)),
{
    reveal_strlit("shape-");
    reveal_strlit("-");
    reveal_strlit("x");
    reveal_strlit("-f");
    lemma_hex_fill(fill);
    let inv = if inverse {
        "-inv"@
    } else {
        ""@
    };
    let (a, b, c, d) = (shape_name(kind), fill.skip(1), decimal(w as nat), decimal(h as nat));
    let f = fixed_notation(feather);
    let edge = f + inv + ".png"@;
    let high = d + "-f"@ + edge;
    let size = c + "x"@ + high;
    let rest = a + "-"@ + (b + "-"@ + size);
    lemma_regroup("shape-"@ + a + "-"@ + b + "-"@ + c + "x"@ + d + "-f"@, f, inv, ".png"@);
    lemma_regroup("shape-"@ + a + "-"@ + b + "-"@ + c + "x"@, d, "-f"@, edge);
    lemma_regroup("shape-"@ + a + "-"@ + b + "-"@, c, "x"@, high);
    lemma_regroup("shape-"@ + a + "-"@, b, "-"@, size);
    lemma_regroup("shape-"@, a, "-"@, b + "-"@ + size);
    assert("-"@ =~= seq!['-']);
    assert("x"@ =~= seq!['x']);
    assert(high =~= d + seq!['-'] + (seq!['f'] + edge));
    assert(("shape-"@ + rest).skip(6) =~= rest);
}

proof fn lemma_regroup(a: Seq<char>, b: Seq<char>, c: Seq<char>, d: Seq<char>)
    ensures
        a + b + c + d == a + (b + c + d),
{
    assert(a + b + c + d =~= a + (b + c + d));
}

proof fn lemma_size_name(w: int, h: int, f: int, i: bool, w2: int, h2: int, f2: int, i2: bool)
    requires
        0 <= w <= u32::MAX && 0 <= w2 <= u32::MAX,
        0 <= h <= u32::MAX && 0 <= h2 <= u32::MAX,
        crate::fixed::in_range(f) && crate::fixed::in_range(f2),
        size_name(w, h, f, i) == size_name(w2, h2, f2, i2),
    ensures
        w == w2 && h == h2 && f == f2 && i == i2,
{
    let e = seq!['f'] + edge_name(f, i);
    let e2 = seq!['f'] + edge_name(f2, i2);
    let d = decimal(h as nat) + seq!['-'] + e;
    let d2 = decimal(h2 as nat) + seq!['-'] + e2;
    lemma_decimal_lacks(w as nat);
    lemma_decimal_lacks(w2 as nat);
    lemma_cut(decimal(w as nat), d, 'x', decimal(w2 as nat), d2);
    lemma_decimal_lacks(h as nat);
    lemma_decimal_lacks(h2 as nat);
    lemma_cut(decimal(h as nat), e, '-', decimal(h2 as nat), e2);
    lemma_decimal_injective(w as nat, w2 as nat);
    lemma_decimal_injective(h as nat, h2 as nat);
    assert(edge_name(f, i) =~= e.skip(1));
    assert(edge_name(f2, i2) =~= e2.skip(1));
    lemma_edge_name(f, i, f2, i2);
}

/// Different pictures have different names, if their colors are in hexadecimal
/// notation.
pub proof fn law_shape_file_name(
    kind: ShapeKind,
    fill: Seq<char>,
    w: int,
    h: int,
    feather: int,
    inverse: bool,
    kind2: ShapeKind,
    fill2: Seq<char>,
    w2: int,
    h2: int,
    feather2: int,
    inverse2: bool,
)
    requires
        hex_fill(fill) && hex_fill(fill2),
        0 <= w <= u32::MAX && 0 <= w2 <= u32::MAX,
        0 <= h <= u32::MAX && 0 <= h2 <= u32::MAX,
        crate::fixed::in_range(feather) && crate::fixed::in_range(feather2),
        shape_file_name(kind, fill, w, h, feather, inverse) == shape_file_name(
            kind2,
            fill2,
            w2,
            h2,
            feather2,
            inverse2,
        ),
    ensures
        kind == kind2 && fill == fill2 && w == w2 && h == h2 && feather == feather2 && inverse
            == inverse2,
{
    let size = size_name(w, h, feather, inverse);
    let size2 = size_name(w2, h2, feather2, inverse2);
    lemma_name_parts(kind, fill, w, h, feather, inverse);
    lemma_name_parts(kind2, fill2, w2, h2, feather2, inverse2);
    lemma_hex_fill(fill);
    lemma_hex_fill(fill2);
    lemma_shape_names(kind, kind2);
    lemma_shape_names(kind2, kind);
    lemma_cut(
        shape_name(kind),
        fill.skip(1) + seq!['-'] + size,
        '-',
        shape_name(kind2),
        fill2.skip(1) + seq!['-'] + size2,
    );
    lemma_cut(fill.skip(1), size, '-', fill2.skip(1), size2);
    lemma_size_name(w, h, feather, inverse, w2, h2, feather2, inverse2);
    assert(fill =~= seq!['#'] + fill.skip(1));
    assert(fill2 =~= seq!['#'] + fill2.skip(1));
}

fn strip_hashes(fill: &str) -> (r: String)
    ensures
        r@ == without_hashes(fill@),
{
    let v: Vec<char> = chars_of(fill);
    let mut i: usize = 0;
    assert(v@.skip(0) =~= v@);
    while i < v.len() && v[i] == '#'
        invariant
            v@ == fill@,
            i <= v.len(),
            without_hashes(v@.skip(i as int)) == without_hashes(fill@),
        decreases v.len() - i,
    {
        assert(v@.skip(i as int).skip(1) =~= v@.skip(i + 1));
        i += 1;
    }
    let r: String = text_of(&v, i, v.len());
    assert(r@ =~= v@.skip(i as int));
    r
}

/// The name of the cached picture of a shape.
pub fn shape_file(
    kind: ShapeKind,
    fill: &str,
    width: u32,
    height: u32,
    feather: i128,
    inverse: bool,
) -> (r: String)
    requires
        crate::fixed::in_range(feather as int),
    ensures
        r@ == shape_file_name(
            kind,
            fill@,
            width as int,
            height as int,
            feather as int,
            inverse,
        ),
{
    let mut s: String = joined("shape-", name_of_shape(kind));
    s.append("-");
    s.append(strip_hashes(fill).as_str());
    s.append("-");
    s.append(decimal_text(width as u128).as_str());
    s.append("x");
    s.append(decimal_text(height as u128).as_str());
    s.append("-f");
    s.append(fixed_text(feather).as_str());
    s.append(if inverse {
        "-inv"
    } else {
        ""
    });
    s.append(".png");
    s
}

/// The drawing of an unturned shape.
pub open spec fn drawing(kind: ShapeKind, fill: Seq<char>, width: u32, height: u32) -> Drawing {
    Drawing { kind, argb: argb(fill) as u32, width, height, cos: UNIT, sin: 0 }
}

/// The picture of a shape, and the name of the file it is cached in.
pub fn shape_png(kind: ShapeKind, fill: &str, width: u32, height: u32) -> (r: (String, Vec<u8>))
    requires
        width <= SIDE,
        height <= SIDE,
        width * height * 4 <= u32::MAX,
    ensures
        r.0@ == shape_file_name(kind, fill@, width as int, height as int, 0, false),
        r.1@ == drawing(kind, fill@, width, height).pixels(width * height),
{
    shape_png_maybe_inverted(kind, fill, width, height, 0, false)
}

/// The picture of a shape, as it is or with the painted and unpainted pixels
/// swapped, before its edge is softened; and the name of the file it is cached
/// in.
pub fn shape_png_maybe_inverted(
    kind: ShapeKind,
    fill: &str,
    width: u32,
    height: u32,
    feather: i128,
    inverse: bool,
) -> (r: (String, Vec<u8>))
    requires
        width <= SIDE,
        height <= SIDE,
        width * height * 4 <= u32::MAX,
        crate::fixed::in_range(feather as int),
    ensures
        r.0@ == shape_file_name(
            kind,
            fill@,
            width as int,
            height as int,
            feather as int,
            inverse,
        ),
        r.1@ == ({
            let plain = drawing(kind, fill@, width, height).pixels(width * height);
            if inverse {
                inverted(plain, argb(fill@) as u32, width * height)
            } else {
                plain
            }
        }),
{
    let color: u32 = parse_color(fill);
    let d: Drawing = Drawing { kind, argb: color, width, height, cos: UNIT, sin: 0 };
    assert(d == drawing(kind, fill@, width, height));
    let plain: Vec<u8> = render_shape(&d);
    let name: String = shape_file(kind, fill, width, height, feather, inverse);
    if inverse {
        assert(plain@.len() / 4 == width * height);
        (name, invert(&plain, color))
    } else {
        (name, plain)
    }
}

/// What a URI says: its host, and the pairs of its query.
#[derive(Debug)]
pub struct UriParts {
    pub host: Option<String>,
    pub query: Vec<(String, String)>,
}

#[verifier::ext_equal]
pub struct UriPartsView {
    pub host: Option<Seq<char>>,
    pub query: Seq<(Seq<char>, Seq<char>)>,
}

impl View for UriParts {
    type V = UriPartsView;

    open spec fn view(&self) -> UriPartsView {
        UriPartsView {
            host: crate::document::opt_text(self.host),
            query: Seq::new(
                self.query@.len(),
                |i: int| (self.query@[i].0@, self.query@[i].1@),
            ),
        }
    }
}

/// The host and the query pairs of a URI, as the `url` crate parses it; `None`
/// for a text that is no URI.
pub uninterp spec fn uri_parts(text: Seq<char>) -> Option<UriPartsView>;

/// `url::Url::parse`, with what `Url::host_str` and `Url::query_pairs` say of
/// the URL: all three depend on the text alone.
#[verifier::external_body]
fn parse_uri(text: &str) -> (r: Option<UriParts>)
    ensures
        match r {
            Some(p) => uri_parts(text@) == Some(p@),
            None => uri_parts(text@) is None,
        },
{
    let parsed = url::Url::parse(text).ok()?;
    let host = parsed.host_str().map(str::to_owned);
    let query = parsed.query_pairs().into_owned().collect();
    Some(UriParts { host, query })
}

/// What a live source shows.
#[derive(Debug)]
pub struct Settings {
    pub shape: ShapeKind,
    pub fill: String,
    pub width: u32,
    pub height: u32,
    pub spin: bool,
}

#[verifier::ext_equal]
pub struct SettingsView {
    pub shape: ShapeKind,
    pub fill: Seq<char>,
    pub width: int,
    pub height: int,
    pub spin: bool,
}

impl View for Settings {
    type V = SettingsView;

    open spec fn view(&self) -> SettingsView {
        SettingsView {
            shape: self.shape,
            fill: self.fill@,
            width: self.width as int,
            height: self.height as int,
            spin: self.spin,
        }
    }
}

impl Default for Settings {
    fn default() -> (r: Self)
        ensures
            r@ == (SettingsView {
                shape: ShapeKind::Rect,
                fill: "#5468ff"@,
                width: 200,
                height: 200,
                spin: false,
            }),
    {
        Settings {
            shape: ShapeKind::Rect,
            fill: "#5468ff".to_owned(),
            width: 200,
            height: 200,
            spin: false,
        }
    }
}

/// The shape that a URI's host names; a URI without a host names a rectangle.
pub open spec fn named_shape(host: Option<Seq<char>>) -> Option<ShapeKind> {
    let name = match host {
        Some(h) => h,
        None => "rect"@,
    };
    if name == "rect"@ {
        Some(ShapeKind::Rect)
    } else if name == "circle"@ {
        Some(ShapeKind::Circle)
    } else if name == "ellipse"@ {
        Some(ShapeKind::Ellipse)
    } else if name == "star"@ {
        Some(ShapeKind::Star)
    } else if name == "polygon"@ {
        Some(ShapeKind::Polygon)
    } else if name == "line"@ {
        Some(ShapeKind::Line)
    } else if name == "arrow"@ {
        Some(ShapeKind::Arrow)
    } else {
        None
    }
}

/// The value of decimal digits.
pub open spec fn digits_value(s: Seq<char>) -> Option<int>
    decreases s.len(),
{
    if s.len() == 0 {
        Some(0)
    } else {
        match digits_value(s.drop_last()) {
            Some(v) => if '0' <= s.last() <= '9' {
                Some(10 * v + (s.last() as int - '0' as int))
            } else {
                None
            },
            None => None,
        }
    }
}

/// The whole number, of 32 bits, that a text denotes: digits, with a plus sign
/// before them if need be.
pub open spec fn whole(s: Seq<char>) -> Option<int> {
    let digits = if s.len() > 0 && s[0] == '+' {
        s.skip(1)
    } else {
        s
    };
    match digits_value(digits) {
        Some(v) => if digits.len() > 0 && v <= u32::MAX {
            Some(v)
        } else {
            None
        },
        None => None,
    }
}

proof fn lemma_digits_grow(s: Seq<char>, i: int)
    requires
        0 <= i <= s.len(),
        digits_value(s) is Some,
    ensures
        digits_value(s.take(i)) is Some,
        0 <= digits_value(s.take(i))->0 <= digits_value(s)->0,
    decreases s.len() - i,
{
    if i < s.len() {
        lemma_digits_grow(s, i + 1);
        assert(s.take(i + 1).drop_last() =~= s.take(i));
        lemma_digits_positive(s.take(i));
    } else {
        assert(s.take(i) =~= s);
        lemma_digits_positive(s);
    }
}

proof fn lemma_digits_positive(s: Seq<char>)
    ensures
        digits_value(s) is Some ==> digits_value(s)->0 >= 0,
    decreases s.len(),
{
    if s.len() > 0 {
        lemma_digits_positive(s.drop_last());
    }
}

/// The whole number, of 32 bits, that a text denotes.
pub fn read_whole(text: &str) -> (r: Option<u32>)
    ensures
        match r {
            Some(n) => whole(text@) == Some(n as int),
            None => whole(text@) is None,
        },
{
    let v: Vec<char> = chars_of(text);
    let start: usize = if v.len() > 0 && v[0] == '+' {
        1
    } else {
        0
    };
    let ghost digits = v@.skip(start as int);
    assert(start == 0 ==> digits =~= text@);
    if start >= v.len() {
        return None;
    }
    let mut value: u64 = 0;
    let mut i: usize = start;
    assert(digits.take(0) =~= Seq::empty());
    while i < v.len()
        invariant
            start <= i <= v.len(),
            v@ == text@,
            start < v.len(),
            digits == v@.skip(start as int),
            digits == (if text@.len() > 0 && text@[0] == '+' {
                text@.skip(1)
            } else {
                text@
            }),
            digits_value(digits.take(i - start)) == Some(value as int),
            value <= u32::MAX,
        decreases v.len() - i,
    {
        let c: char = v[i];
        proof {
            assert(digits.take(i - start + 1).drop_last() =~= digits.take(i - start));
            assert(digits.take(i - start + 1).last() == c);
            if digits_value(digits) is Some {
                lemma_digits_grow(digits, i - start + 1);
            }
        }
        if !('0' <= c && c <= '9') {
            return None;
        }
        let next: u64 = 10 * value + (c as u64 - '0' as u64);
        if next > 4_294_967_295 {
            return None;
        }
        value = next;
        i += 1;
    }
    assert(digits.take(i - start) =~= digits);
    Some(value as u32)
}

/// The settings after one query pair. A size that is no number is 200.
pub open spec fn with_pair(s: SettingsView, key: Seq<char>, value: Seq<char>) -> SettingsView {
    if key == "fill"@ {
        SettingsView { fill: value, ..s }
    } else if key == "w"@ {
        SettingsView {
            width: match whole(value) {
                Some(n) => n,
                None => 200,
            },
            ..s
        }
    } else if key == "h"@ {
        SettingsView {
            height: match whole(value) {
                Some(n) => n,
                None => 200,
            },
            ..s
        }
    } else if key == "spin"@ {
        SettingsView { spin: value == "1"@ || value == "true"@, ..s }
    } else {
        s
    }
}

/// The settings after the first `n` query pairs.
pub open spec fn with_pairs(
    s: SettingsView,
    query: Seq<(Seq<char>, Seq<char>)>,
    n: int,
) -> SettingsView
    decreases n,
{
    if n <= 0 {
        s
    } else {
        with_pair(with_pairs(s, query, n - 1), query[n - 1].0, query[n - 1].1)
    }
}

/// Why a URI names no live source.
#[derive(Debug)]
pub enum SourceError {
    /// The text is no URI.
    BadUri,
    /// There is no such shape.
    UnknownShape(String),
}

/// What a URI makes of the settings of a source: the shape that its host
/// names, then what its query pairs say, in order.
pub fn apply_uri(parts: &UriParts, settings: &Settings) -> (r: Result<Settings, SourceError>)
    ensures
        match named_shape(parts@.host) {
            Some(shape) => r is Ok && r->Ok_0@ == with_pairs(
                SettingsView { shape, ..settings@ },
                parts@.query,
                parts@.query.len() as int,
            ),
            None => r matches Err(SourceError::UnknownShape(name)) && parts@.host == Some(name@),
        },
{
    let host: String = match &parts.host {
        Some(h) => h.clone(),
        None => "rect".to_owned(),
    };
    let h: &str = host.as_str();
    let shape: ShapeKind = if same(h, "rect") {
        ShapeKind::Rect
    } else if same(h, "circle") {
        ShapeKind::Circle
    } else if same(h, "ellipse") {
        ShapeKind::Ellipse
    } else if same(h, "star") {
        ShapeKind::Star
    } else if same(h, "polygon") {
        ShapeKind::Polygon
    } else if same(h, "line") {
        ShapeKind::Line
    } else if same(h, "arrow") {
        ShapeKind::Arrow
    } else {
        return Err(SourceError::UnknownShape(host));
    };
    let mut out: Settings = Settings {
        shape,
        fill: settings.fill.clone(),
        width: settings.width,
        height: settings.height,
        spin: settings.spin,
    };
    let ghost base = out@;
    let mut i: usize = 0;
    while i < parts.query.len()
        invariant
            i <= parts.query.len(),
            out@ == with_pairs(base, parts@.query, i as int),
        decreases parts.query.len() - i,
    {
        let key: &str = parts.query[i].0.as_str();
        let value: &str = parts.query[i].1.as_str();
        assert(parts@.query[i as int] == (key@, value@));
        if same(key, "fill") {
            out.fill = value.to_owned();
        } else if same(key, "w") {
            out.width = match read_whole(value) {
                Some(n) => n,
                None => 200,
            };
        } else if same(key, "h") {
            out.height = match read_whole(value) {
                Some(n) => n,
                None => 200,
            };
        } else if same(key, "spin") {
            out.spin = same(value, "1") || same(value, "true");
        }
        i += 1;
    }
    Ok(out)
}

/// What the text of a URI makes of the settings of a source.
pub fn set_uri(uri: &str, settings: &Settings) -> (r: Result<Settings, SourceError>)
    ensures
        match uri_parts(uri@) {
            Some(parts) => match named_shape(parts.host) {
                Some(shape) => r is Ok && r->Ok_0@ == with_pairs(
                    SettingsView { shape, ..settings@ },
                    parts.query,
                    parts.query.len() as int,
                ),
                None => r matches Err(SourceError::UnknownShape(name)) && parts.host == Some(
                    name@,
                ),
            },
            None => r is Err && r->Err_0 is BadUri,
        },
{
    match parse_uri(uri) {
        Some(parts) => apply_uri(&parts, settings),
        None => Err(SourceError::BadUri),
    }
}

/// Frames per second of a live source.
pub const FPS: u64 = 30;

/// Seconds that a live source lasts.
pub const DURATION_SECS: u64 = 3600;

/// The frame that shows at a time, in nanoseconds.
pub fn frame_at(nanos: u64) -> (r: u64)
    ensures
        r == nanos * 30 / 1_000_000_000,
{
    (nanos as u128 * 30 / 1_000_000_000) as u64
}

/// The time that a frame shows at, in nanoseconds; `None` after the end.
pub fn frame_time(frame: u64) -> (r: Option<u64>)
    ensures
        match r {
            Some(t) => frame < DURATION_SECS * FPS && t == frame * 1_000_000_000 / 30,
            None => frame >= DURATION_SECS * FPS,
        },
{
    if frame >= 108_000 {
        None
    } else {
        Some(frame * 1_000_000_000 / 30)
    }
}

/// Seeking to the time of a frame leads to that frame or the one before it,
/// never further back, and never ahead.
pub proof fn law_seek_to_frame(frame: int)
    requires
        0 <= frame,
    ensures
        frame - 1 <= (frame * 1_000_000_000 / 30) * 30 / 1_000_000_000 <= frame,
{
}

proof fn lemma_decimal_value(n: nat)
    ensures
        digits_value(decimal(n)) == Some(n as int),
        decimal(n).len() > 0,
        '0' <= decimal(n)[0] <= '9',
    decreases n,
{
    let s = decimal(n);
    if n < 10 {
        assert(s.drop_last() =~= Seq::empty());
        assert(digits_value(s.drop_last()) == Some(0int));
    } else {
        lemma_decimal_value(n / 10);
        assert(s.drop_last() =~= decimal(n / 10));
    }
}

/// A number written out is read as that number, with or without a plus sign;
/// one of more than 32 bits is not read.
pub proof fn law_whole(n: nat)
    ensures
        n <= u32::MAX ==> whole(decimal(n)) == Some(n as int),
        n <= u32::MAX ==> whole(seq!['+'] + decimal(n)) == Some(n as int),
        n > u32::MAX ==> whole(decimal(n)) is None,
{
    lemma_decimal_value(n);
    let signed = seq!['+'] + decimal(n);
    assert(signed.skip(1) =~= decimal(n));
}

/// A shape is drawn at the whole pixels of the clip's size, or at 200 where it
/// has none.
pub proof fn law_side_of(extent: int)
    ensures
        extent <= 0 ==> side_of(extent) == 200,
        0 < extent < 4_294_967_295_000_000_000 ==> side_of(extent) * 1_000_000_000 <= extent < (
        side_of(extent) + 1) * 1_000_000_000,
{
}

/// Each pair of a query sets one thing and leaves the rest: the color, the
/// width, the height, or whether the shape turns; a size that is no number is
/// 200, and a pair of another name sets nothing.
pub proof fn law_with_pair(s: SettingsView, key: Seq<char>, value: Seq<char>)
    ensures
        ({
            let r = with_pair(s, key, value);
            &&& r.shape == s.shape
            &&& key != "fill"@ ==> r.fill == s.fill
            &&& key == "fill"@ ==> r.fill == value && r.width == s.width && r.height == s.height
                && r.spin == s.spin
            &&& key != "w"@ ==> r.width == s.width
            &&& key == "w"@ && key != "fill"@ ==> (whole(value) is Some ==> r.width
                == whole(value)->0) && (whole(value) is None ==> r.width == 200)
            &&& key != "h"@ ==> r.height == s.height
            &&& key == "h"@ && key != "fill"@ && key != "w"@ ==> (whole(value) is Some ==> r.height
                == whole(value)->0) && (whole(value) is None ==> r.height == 200)
            &&& key != "spin"@ ==> r.spin == s.spin
            &&& key == "spin"@ && key != "fill"@ && key != "w"@ && key != "h"@ ==> (r.spin <==> value
                == "1"@ || value == "true"@)
        }),
{
}

} // verus!
