//! JSON values as plain data, and the numbers in them as fixed-point values.

use vstd::prelude::*;
use serde_json::Value;
use crate::fixed::LIMIT;
use crate::numbers::{close, noted, number, plain, short};
use crate::pieces::raw_level;
use crate::text::{chars_of, same};
use crate::tree::{unrepeated, value_in};
use crate::views::views;

verus! {

broadcast use crate::views::group_views;

/// One level of a JSON value: what an array or object holds is still JSON
/// text.
pub enum Level {
    Null,
    Bool(bool),
    Number(String),
    Text(String),
    Array(Vec<String>),
    Object(Vec<(String, String)>),
}

#[verifier::ext_equal]
pub enum LevelView {
    Null,
    Bool(bool),
    Number(Seq<char>),
    Text(Seq<char>),
    Array(Seq<Seq<char>>),
    Object(Seq<(Seq<char>, Seq<char>)>),
}

impl View for Level {
    type V = LevelView;

    open spec fn view(&self) -> LevelView {
        match *self {
            Level::Null => LevelView::Null,
            Level::Bool(b) => LevelView::Bool(b),
            Level::Number(s) => LevelView::Number(s@),
            Level::Text(s) => LevelView::Text(s@),
            Level::Array(v) => LevelView::Array(views(v@)),
            Level::Object(v) => LevelView::Object(views(v@)),
        }
    }
}

/// The outermost level of the value that a text denotes, as `serde_json`
/// parses it; its complaint for a text that is no JSON.
pub uninterp spec fn json_outcome(text: Seq<char>) -> Result<LevelView, Seq<char>>;

/// The outermost level of the value that a text denotes; `None` for a text that
/// is no JSON.
pub open spec fn json_level(text: Seq<char>) -> Option<LevelView> {
    match json_outcome(text) {
        Ok(l) => Some(l),
        Err(_) => None,
    }
}

/// A notation that, if it denotes a number in range, denotes a short one or is
/// the notation of a document.
pub open spec fn canonical(s: Seq<char>) -> bool {
    fixed_of(s) matches Some(x) ==> short(x) || s == number(x)
}

/// `serde_json::from_str` into a `serde_json::Value`, which depends on the
/// text alone. Scalars are handed over as they are, a number in its decimal
/// notation; the values inside an array or object in theirs; an error as its
/// text. The notation of a number is the shortest one that denotes the same
/// binary floating-point number: one in range that is not short, and so at
/// least the 23rd power of two, has at most nine decimals and no exponent.
#[verifier::external_body]
pub(crate) fn parse_level(text: &str) -> (r: Result<Level, String>)
    ensures
        match r {
            Ok(l) => json_outcome(text@) == Ok::<LevelView, Seq<char>>(l@),
            Err(e) => json_outcome(text@) == Err::<LevelView, Seq<char>>(e@),
        },
        r matches Ok(Level::Number(s)) ==> canonical(s@),
{
    match serde_json::from_str::<Value>(text) {
        Err(e) => Err(e.to_string()),
        Ok(Value::Null) => Ok(Level::Null),
        Ok(Value::Bool(b)) => Ok(Level::Bool(b)),
        Ok(Value::Number(n)) => Ok(Level::Number(n.to_string())),
        Ok(Value::String(s)) => Ok(Level::Text(s)),
        Ok(Value::Array(a)) => Ok(
            Level::Array(a.iter().map(|v| v.to_string()).collect()),
        ),
        Ok(Value::Object(m)) => Ok(
            Level::Object(m.iter().map(|(k, v)| (k.clone(), v.to_string())).collect()),
        ),
    }
}

/// Why a text is no JSON, in the words of `serde_json`.
pub fn json_complaint(text: &str) -> (r: Option<String>)
    ensures
        match r {
            Some(m) => json_outcome(text@) == Err::<LevelView, Seq<char>>(m@),
            None => json_outcome(text@) is Ok,
        },
{
    match parse_level(text) {
        Ok(_) => None,
        Err(e) => Some(e),
    }
}

/// The text of a value, given by its outermost level, as `serde_json` writes it
/// with indentation; `None` where a part is no JSON.
pub uninterp spec fn json_text(level: LevelView) -> Option<Seq<char>>;

/// Levels of nesting that are certain to be read back, below the 127 at which
/// `serde_json` stops.
pub const SHALLOW: u8 = 100;

/// A text that is JSON, of few levels of nesting, and has no key twice in an
/// object.
pub open spec fn sound(text: Seq<char>) -> bool {
    value_in(text, SHALLOW as nat) is Some && unrepeated(value_in(text, SHALLOW as nat)->0)
}

/// The texts of `b` denote the same values as those of `a`.
pub open spec fn same_items(a: Seq<Seq<char>>, b: Seq<Seq<char>>) -> bool {
    a.len() == b.len() && forall|i: int, d: nat|
        0 <= i < a.len() && d <= SHALLOW ==> #[trigger] value_in(b[i], d) == value_in(a[i], d)
}

/// The members of `b` have the same keys as those of `a`, and their texts denote
/// the same values.
pub open spec fn same_members(
    a: Seq<(Seq<char>, Seq<char>)>,
    b: Seq<(Seq<char>, Seq<char>)>,
) -> bool {
    &&& a.len() == b.len()
    &&& forall|i: int| 0 <= i < a.len() ==> (#[trigger] b[i]).0 == a[i].0
    &&& forall|i: int, d: nat|
        0 <= i < a.len() && d <= SHALLOW ==> #[trigger] value_in(b[i].1, d) == value_in(a[i].1, d)
}

/// No two entries have one key.
pub open spec fn keys_differ<T>(m: Seq<(Seq<char>, T)>) -> bool {
    forall|i: int, j: int| 0 <= i < j < m.len() ==> (#[trigger] m[i]).0 != (#[trigger] m[j]).0
}

/// A level and the text that was written for it: reading the text gives the
/// level back. The number that stands in a text is written so again.
pub open spec fn reads_back(level: LevelView, text: Option<Seq<char>>) -> bool {
    match level {
        LevelView::Number(s) => {
            &&& plain(s) ==> text is Some && json_level(text->0) == Some(level)
            &&& noted(s) ==> text is Some && match json_level(text->0) {
                Some(LevelView::Number(t)) => close(s, t) && json_text(
                    LevelView::Number(t),
                ) == text,
                _ => false,
            }
        },
        LevelView::Array(a) => (forall|i: int| 0 <= i < a.len() ==> sound(#[trigger] a[i])) ==> text
            is Some && match raw_level(text->0) {
            Some(LevelView::Array(b)) => same_items(a, b),
            _ => false,
        },
        LevelView::Object(m) => keys_differ(m) && (forall|i: int|
            0 <= i < m.len() ==> sound((#[trigger] m[i]).1)) ==> text is Some && match raw_level(
            text->0,
        ) {
            Some(LevelView::Object(n)) => same_members(m, n),
            _ => false,
        },
        _ => text is Some && json_level(text->0) == Some(level),
    }
}

/// `serde_json::to_string_pretty` of a `serde_json::Value`, which depends on
/// the value alone. A number and the values inside an array or object are
/// handed over as JSON text, which `serde_json::from_str` turns into values.
/// A value can always be written, and reading its text gives it back: with the
/// `float_roundtrip` feature also its numbers, with `preserve_order` its
/// entries in their order. The text is valid JSON, so cutting it at the commas
/// and colons outside of brackets and strings gives texts of its parts; of two
/// entries with one key only the later would be there, so texts in which a key
/// occurs twice are left out. A number keeps its notation if `serde_json`
/// itself has written it so before, or if it is short, which is to say that it
/// has no more decimals than a binary floating-point number of its size tells
/// apart, and is in the notation that `serde_json` uses; another one in range
/// gets the shortest notation of the nearest binary floating-point number,
/// which is less than fifteen billionths off, and keeps that.
#[verifier::external_body]
pub(crate) fn print_level(level: &Level) -> (r: Option<String>)
    ensures
        match r {
            Some(s) => json_text(level@) == Some(s@) && reads_back(level@, Some(s@)),
            None => json_text(level@) is None && reads_back(level@, None),
        },
{
    let value: Value = match level {
        Level::Null => Value::Null,
        Level::Bool(b) => Value::Bool(*b),
        Level::Number(s) => serde_json::from_str(s).ok()?,
        Level::Text(s) => Value::String(s.clone()),
        Level::Array(a) => Value::Array(
            a.iter().map(|t| serde_json::from_str(t).ok()).collect::<Option<_>>()?,
        ),
        Level::Object(m) => Value::Object(
            m.iter()
                .map(|(k, t)| Some((k.clone(), serde_json::from_str(t).ok()?)))
                .collect::<Option<_>>()?,
        ),
    };
    serde_json::to_string_pretty(&value).ok()
}

/// A JSON value. Numbers are kept in their decimal notation.
#[derive(Debug)]
pub enum Json {
    Null,
    Bool(bool),
    Number(String),
    Text(String),
    Array(Vec<Json>),
    Object(Vec<(String, Json)>),
}

/// `j` is the value that `text` denotes, down to `fuel` levels of nesting.
pub open spec fn denotes(text: Seq<char>, j: Json, fuel: nat) -> bool
    decreases fuel, 0nat,
{
    match (json_level(text), j) {
        (Some(LevelView::Null), Json::Null) => true,
        (Some(LevelView::Bool(a)), Json::Bool(b)) => a == b,
        (Some(LevelView::Number(a)), Json::Number(b)) => a == b@,
        (Some(LevelView::Text(a)), Json::Text(b)) => a == b@,
        (Some(LevelView::Array(a)), Json::Array(b)) => fuel > 0 && a.len() == b@.len()
            && items_denote(a, b@, a.len(), (fuel - 1) as nat),
        (Some(LevelView::Object(a)), Json::Object(b)) => fuel > 0 && a.len() == b@.len()
            && members_denote(a, b@, a.len(), (fuel - 1) as nat),
        _ => false,
    }
}

pub open spec fn items_denote(a: Seq<Seq<char>>, b: Seq<Json>, n: nat, fuel: nat) -> bool
    decreases fuel, n,
{
    n == 0 || (items_denote(a, b, (n - 1) as nat, fuel) && denotes(a[n - 1], b[n - 1], fuel))
}

pub open spec fn members_denote(
    a: Seq<(Seq<char>, Seq<char>)>,
    b: Seq<(String, Json)>,
    n: nat,
    fuel: nat,
) -> bool
    decreases fuel, n,
{
    n == 0 || (members_denote(a, b, (n - 1) as nat, fuel) && a[n - 1].0 == b[n - 1].0@ && denotes(
        a[n - 1].1,
        b[n - 1].1,
        fuel,
    ))
}

proof fn lemma_items_denote_push(a: Seq<Seq<char>>, b: Seq<Json>, j: Json, n: nat, fuel: nat)
    requires
        items_denote(a, b, n, fuel),
        n <= b.len(),
    ensures
        items_denote(a, b.push(j), n, fuel),
    decreases n,
{
    if n > 0 {
        lemma_items_denote_push(a, b, j, (n - 1) as nat, fuel);
    }
}

proof fn lemma_members_denote_push(
    a: Seq<(Seq<char>, Seq<char>)>,
    b: Seq<(String, Json)>,
    j: (String, Json),
    n: nat,
    fuel: nat,
)
    requires
        members_denote(a, b, n, fuel),
        n <= b.len(),
    ensures
        members_denote(a, b.push(j), n, fuel),
    decreases n,
{
    if n > 0 {
        lemma_members_denote_push(a, b, j, (n - 1) as nat, fuel);
    }
}

/// A text is JSON of at most `fuel` levels of nesting.
pub open spec fn readable(text: Seq<char>, fuel: nat) -> bool
    decreases fuel, 0nat,
{
    match json_level(text) {
        None => false,
        Some(LevelView::Array(a)) => fuel > 0 && items_readable(a, a.len(), (fuel - 1) as nat),
        Some(LevelView::Object(a)) => fuel > 0 && members_readable(a, a.len(), (fuel - 1) as nat),
        Some(_) => true,
    }
}

pub open spec fn items_readable(a: Seq<Seq<char>>, n: nat, fuel: nat) -> bool
    decreases fuel, n,
{
    n == 0 || (items_readable(a, (n - 1) as nat, fuel) && readable(a[n - 1], fuel))
}

pub open spec fn members_readable(a: Seq<(Seq<char>, Seq<char>)>, n: nat, fuel: nat) -> bool
    decreases fuel, n,
{
    n == 0 || (members_readable(a, (n - 1) as nat, fuel) && readable(a[n - 1].1, fuel))
}

proof fn lemma_unreadable_item(a: Seq<Seq<char>>, i: int, n: nat, fuel: nat)
    requires
        0 <= i < n,
        !readable(a[i], fuel),
    ensures
        !items_readable(a, n, fuel),
    decreases n,
{
    if i < n - 1 {
        lemma_unreadable_item(a, i, (n - 1) as nat, fuel);
    }
}

proof fn lemma_unreadable_member(a: Seq<(Seq<char>, Seq<char>)>, i: int, n: nat, fuel: nat)
    requires
        0 <= i < n,
        !readable(a[i].1, fuel),
    ensures
        !members_readable(a, n, fuel),
    decreases n,
{
    if i < n - 1 {
        lemma_unreadable_member(a, i, (n - 1) as nat, fuel);
    }
}

fn parse_nested(text: &str, fuel: u8) -> (r: Option<Json>)
    ensures
        match r {
            Some(j) => denotes(text@, j, fuel as nat) && readable(text@, fuel as nat),
            None => !readable(text@, fuel as nat),
        },
    decreases fuel,
{
    match parse_level(text) {
        Err(_) => None,
        Ok(Level::Null) => Some(Json::Null),
        Ok(Level::Bool(b)) => Some(Json::Bool(b)),
        Ok(Level::Number(s)) => Some(Json::Number(s)),
        Ok(Level::Text(s)) => Some(Json::Text(s)),
        Ok(Level::Array(items)) => {
            if fuel == 0 {
                return None;
            }
            let ghost a = views(items@);
            let mut out: Vec<Json> = Vec::new();
            let mut i: usize = 0;
            while i < items.len()
                invariant
                    i <= items.len(),
                    fuel > 0,
                    a == views(items@),
                    json_level(text@) == Some(LevelView::Array(a)),
                    out.len() == i,
                    items_denote(a, out@, i as nat, (fuel - 1) as nat),
                    items_readable(a, i as nat, (fuel - 1) as nat),
                decreases items.len() - i,
            {
                assert(a[i as int] == items@[i as int]@);
                match parse_nested(items[i].as_str(), fuel - 1) {
                    Some(j) => {
                        proof {
                            lemma_items_denote_push(a, out@, j, i as nat, (fuel - 1) as nat);
                        }
                        out.push(j);
                    },
                    None => {
                        proof {
                            lemma_unreadable_item(a, i as int, a.len(), (fuel - 1) as nat);
                        }
                        return None;
                    },
                }
                i += 1;
            }
            Some(Json::Array(out))
        },
        Ok(Level::Object(entries)) => {
            if fuel == 0 {
                return None;
            }
            let ghost a = views(entries@);
            let mut out: Vec<(String, Json)> = Vec::new();
            let mut i: usize = 0;
            while i < entries.len()
                invariant
                    i <= entries.len(),
                    fuel > 0,
                    a == views(entries@),
                    json_level(text@) == Some(LevelView::Object(a)),
                    out.len() == i,
                    members_denote(a, out@, i as nat, (fuel - 1) as nat),
                    members_readable(a, i as nat, (fuel - 1) as nat),
                decreases entries.len() - i,
            {
                let entry: &(String, String) = &entries[i];
                assert(a[i as int] == (entry.0@, entry.1@));
                match parse_nested(entry.1.as_str(), fuel - 1) {
                    Some(j) => {
                        let member: (String, Json) = (entry.0.clone(), j);
                        proof {
                            lemma_members_denote_push(
                                a,
                                out@,
                                member,
                                i as nat,
                                (fuel - 1) as nat,
                            );
                        }
                        out.push(member);
                    },
                    None => {
                        proof {
                            lemma_unreadable_member(a, i as int, a.len(), (fuel - 1) as nat);
                        }
                        return None;
                    },
                }
                i += 1;
            }
            Some(Json::Object(out))
        },
    }
}

/// Levels of nesting that the parser follows.
pub const NESTING: u8 = 128;

/// Parse a JSON text.
pub fn parse_json(text: &str) -> (r: Option<Json>)
    ensures
        match r {
            Some(j) => denotes(text@, j, NESTING as nat) && readable(text@, NESTING as nat),
            None => !readable(text@, NESTING as nat),
        },
{
    parse_nested(text, NESTING)
}

impl Json {
    /// The value of a member of an object; `None` for other values and for
    /// objects without such a member.
    pub open spec fn member(self, key: Seq<char>) -> Option<Json> {
        match self {
            Json::Object(v) => first_member(v@, key, 0),
            _ => None,
        }
    }

    /// The value of a member of an object.
    pub fn get(&self, key: &str) -> (r: Option<&Json>)
        ensures
            match r {
                Some(j) => self.member(key@) == Some(*j),
                None => self.member(key@) is None,
            },
    {
        if let Json::Object(v) = self {
            let mut i: usize = 0;
            while i < v.len()
                invariant
                    i <= v.len(),
                    *self == Json::Object(*v),
                    first_member(v@, key@, 0) == first_member(v@, key@, i as int),
                decreases v.len() - i,
            {
                if same(v[i].0.as_str(), key) {
                    return Some(&v[i].1);
                }
                i += 1;
            }
        }
        None
    }

    /// The text of a string value.
    pub fn as_text(&self) -> (r: Option<&String>)
        ensures
            match r {
                Some(s) => self matches Json::Text(t) && t@ == s@,
                None => !(self is Text),
            },
    {
        match self {
            Json::Text(s) => Some(s),
            _ => None,
        }
    }

    /// The items of an array.
    pub fn as_array(&self) -> (r: Option<&Vec<Json>>)
        ensures
            match r {
                Some(v) => *self == Json::Array(*v),
                None => !(self is Array),
            },
    {
        match self {
            Json::Array(v) => Some(v),
            _ => None,
        }
    }

    /// The fixed-point value of a number.
    pub fn as_fixed(&self) -> (r: Option<i128>)
        ensures
            match r {
                Some(x) => self matches Json::Number(s) && fixed_of(s@) == Some(x as int) && -LIMIT
                    <= x <= LIMIT,
                None => !(self matches Json::Number(s) && fixed_of(s@) is Some),
            },
    {
        match self {
            Json::Number(s) => read_fixed(s.as_str()),
            _ => None,
        }
    }

    /// The value of a natural number that fits in 64 bits.
    pub open spec fn as_natural(self) -> Option<int> {
        match self {
            Json::Number(s) => match natural(s@) {
                Some(n) => if s@.len() > 0 && n <= u64::MAX {
                    Some(n)
                } else {
                    None
                },
                None => None,
            },
            _ => None,
        }
    }

    /// The value of a natural number that fits in 64 bits.
    pub fn as_u64(&self) -> (r: Option<u64>)
        ensures
            match r {
                Some(x) => self.as_natural() == Some(x as int),
                None => self.as_natural() is None,
            },
    {
        match self {
            Json::Number(s) => {
                let v: Vec<char> = chars_of(s.as_str());
                assert(v@.subrange(0, v@.len() as int) =~= s@);
                if v.len() == 0 {
                    return None;
                }
                match read_natural(&v, 0, v.len()) {
                    Some(x) => if x <= 18_446_744_073_709_551_615 {
                        Some(x as u64)
                    } else {
                        None
                    },
                    None => None,
                }
            },
            _ => None,
        }
    }
}

/// The first member with the given key, from number `i` on.
pub open spec fn first_member(v: Seq<(String, Json)>, key: Seq<char>, i: int) -> Option<Json>
    decreases v.len() - i,
{
    if i >= v.len() {
        None
    } else if v[i].0@ == key {
        Some(v[i].1)
    } else {
        first_member(v, key, i + 1)
    }
}

/// The value of a decimal digit.
pub open spec fn decimal_digit(c: char) -> Option<int> {
    if '0' <= c <= '9' {
        Some(c as int - '0' as int)
    } else {
        None
    }
}

/// The value of decimal digits, up to 30 of them.
pub open spec fn natural(s: Seq<char>) -> Option<int>
    decreases s.len(),
{
    if s.len() == 0 {
        Some(0)
    } else if s.len() > 30 {
        None
    } else {
        match (natural(s.drop_last()), decimal_digit(s.last())) {
            (Some(v), Some(d)) => Some(10 * v + d),
            _ => None,
        }
    }
}

pub open spec fn pow10(n: nat) -> int
    decreases n,
{
    if n == 0 {
        1
    } else {
        10 * pow10((n - 1) as nat)
    }
}

/// Index of the first of two characters from `i` on; the length if neither
/// occurs.
pub open spec fn first_index(s: Seq<char>, a: char, b: char, i: int) -> int
    decreases s.len() - i,
{
    if i >= s.len() {
        s.len() as int
    } else if s[i] == a || s[i] == b {
        i
    } else {
        first_index(s, a, b, i + 1)
    }
}

/// A power of ten in exponent notation; an absent one counts as 0.
pub open spec fn exponent(s: Seq<char>) -> Option<int> {
    if s.len() == 0 {
        Some(0)
    } else {
        let digits = if s.len() > 1 && (s[1] == '-' || s[1] == '+') {
            s.skip(2)
        } else {
            s.skip(1)
        };
        if digits.len() == 0 || digits.len() > 3 {
            None
        } else {
            match natural(digits) {
                Some(v) => Some(
                    if s.len() > 1 && s[1] == '-' {
                        -v
                    } else {
                        v
                    },
                ),
                None => None,
            }
        }
    }
}

/// `m` times ten to the power `e`, rounded toward zero, if a document may
/// hold it.
pub open spec fn scaled10(m: int, e: int) -> Option<int> {
    if m == 0 {
        Some(0)
    } else if e >= 0 {
        if e <= 17 && m <= LIMIT && m * pow10(e as nat) <= LIMIT {
            Some(m * pow10(e as nat))
        } else {
            None
        }
    } else if e < -30 {
        Some(0)
    } else if m / pow10((-e) as nat) <= LIMIT {
        Some(m / pow10((-e) as nat))
    } else {
        None
    }
}

/// The magnitude that a number's decimal notation denotes, in billionths.
pub open spec fn magnitude(s: Seq<char>) -> Option<int> {
    let e = first_index(s, 'e', 'E', 0);
    let mantissa = s.take(e);
    let dot = first_index(mantissa, '.', '.', 0);
    let whole = mantissa.take(dot);
    let part = if dot < mantissa.len() {
        mantissa.skip(dot + 1)
    } else {
        Seq::empty()
    };
    match (natural(whole + part), exponent(s.skip(e))) {
        (Some(m), Some(x)) => scaled10(m, 9 + x - part.len()),
        _ => None,
    }
}

/// The fixed-point value that a number's decimal notation denotes.
pub open spec fn fixed_of(s: Seq<char>) -> Option<int> {
    if s.len() > 0 && s[0] == '-' {
        match magnitude(s.skip(1)) {
            Some(m) => Some(-m),
            None => None,
        }
    } else {
        magnitude(s)
    }
}

fn digit_of(c: char) -> (r: Option<u8>)
    ensures
        match r {
            Some(d) => decimal_digit(c) == Some(d as int) && d <= 9,
            None => decimal_digit(c) is None,
        },
{
    if '0' <= c && c <= '9' {
        Some(((c as u32) - 48) as u8)
    } else {
        None
    }
}

proof fn lemma_natural_bound(s: Seq<char>)
    requires
        natural(s) is Some,
    ensures
        0 <= natural(s)->0 < pow10(s.len()),
        s.len() <= 30,
    decreases s.len(),
{
    if s.len() > 0 {
        lemma_natural_bound(s.drop_last());
    }
}

proof fn lemma_natural_prefix(s: Seq<char>, i: int)
    requires
        0 <= i <= s.len(),
        natural(s) is Some,
    ensures
        natural(s.take(i)) is Some,
    decreases s.len() - i,
{
    if i < s.len() {
        assert(s.take(i + 1).drop_last() =~= s.take(i));
        lemma_natural_prefix(s, i + 1);
    } else {
        assert(s.take(i) =~= s);
    }
}

proof fn lemma_pow10_30(n: nat)
    requires
        n <= 30,
    ensures
        1 <= pow10(n) <= 1_000_000_000_000_000_000_000_000_000_000,
        n <= 17 ==> pow10(n) <= 100_000_000_000_000_000,
{
    reveal_with_fuel(pow10, 31);
    lemma_pow10_positive(n);
    if n < 30 {
        lemma_pow10_monotone(n, 30);
    }
    if n < 17 {
        lemma_pow10_monotone(n, 17);
    }
    assert(pow10(17) == 100_000_000_000_000_000);
    assert(pow10(30) == 1_000_000_000_000_000_000_000_000_000_000);
}

proof fn lemma_pow10_positive(n: nat)
    ensures
        pow10(n) >= 1,
    decreases n,
{
    if n > 0 {
        lemma_pow10_positive((n - 1) as nat);
    }
}

proof fn lemma_pow10_monotone(a: nat, b: nat)
    requires
        a <= b,
    ensures
        pow10(a) <= pow10(b),
    decreases b,
{
    lemma_pow10_positive(a);
    if a < b {
        lemma_pow10_monotone(a, (b - 1) as nat);
    }
}

pub fn read_natural(v: &Vec<char>, from: usize, to: usize) -> (r: Option<u128>)
    requires
        from <= to <= v.len(),
    ensures
        match r {
            Some(x) => natural(v@.subrange(from as int, to as int)) == Some(x as int) && x
                < 1_000_000_000_000_000_000_000_000_000_000,
            None => natural(v@.subrange(from as int, to as int)) is None,
        },
{
    let ghost s = v@.subrange(from as int, to as int);
    if to - from > 30 {
        return None;
    }
    let mut value: u128 = 0;
    let mut i: usize = from;
    assert(s.take(0) =~= Seq::<char>::empty());
    while i < to
        invariant
            from <= i <= to <= v.len(),
            to - from <= 30,
            s == v@.subrange(from as int, to as int),
            natural(s.take(i - from)) == Some(value as int),
        decreases to - i,
    {
        proof {
            let upto = s.take(i - from + 1);
            assert(upto.drop_last() =~= s.take(i - from));
            assert(upto.last() == v@[i as int]);
            lemma_natural_bound(s.take(i - from));
            lemma_pow10_30((i - from) as nat);
        }
        match digit_of(v[i]) {
            Some(d) => {
                value = 10 * value + d as u128;
            },
            None => {
                proof {
                    if natural(s) is Some {
                        lemma_natural_prefix(s, i - from + 1);
                    }
                }
                return None;
            },
        }
        i += 1;
    }
    proof {
        assert(s.take(i - from) =~= s);
        lemma_natural_bound(s);
        lemma_pow10_30(s.len());
    }
    Some(value)
}

fn power_of_ten(n: u8) -> (r: u128)
    requires
        n <= 30,
    ensures
        r == pow10(n as nat),
        1 <= r <= 1_000_000_000_000_000_000_000_000_000_000,
    decreases n,
{
    proof {
        lemma_pow10_30(n as nat);
    }
    if n == 0 {
        1
    } else {
        10 * power_of_ten(n - 1)
    }
}

fn scale_by(m: u128, e: i32) -> (r: Option<i128>)
    requires
        m < 1_000_000_000_000_000_000_000_000_000_000,
        -100_000 < e < 100_000,
    ensures
        match r {
            Some(x) => scaled10(m as int, e as int) == Some(x as int) && 0 <= x <= LIMIT,
            None => scaled10(m as int, e as int) is None,
        },
{
    if m == 0 {
        return Some(0);
    }
    if e >= 0 {
        if e > 17 || m > 100_000_000_000_000_000 {
            return None;
        }
        proof {
            lemma_pow10_30(e as nat);
        }
        let p: u128 = power_of_ten(e as u8);
        proof {
            assert(m * p <= 10_000_000_000_000_000_000_000_000_000_000_000) by (nonlinear_arith)
                requires
                    0 <= m <= 100_000_000_000_000_000,
                    0 <= p <= 100_000_000_000_000_000,
            ;
        }
        let x: u128 = m * p;
        if x <= 100_000_000_000_000_000 {
            Some(x as i128)
        } else {
            None
        }
    } else if e < -30 {
        Some(0)
    } else {
        let p: u128 = power_of_ten((-e) as u8);
        let x: u128 = m / p;
        if x <= 100_000_000_000_000_000 {
            Some(x as i128)
        } else {
            None
        }
    }
}

fn index_of(v: &Vec<char>, from: usize, to: usize, a: char, b: char) -> (r: usize)
    requires
        from <= to <= v.len(),
    ensures
        from <= r <= to,
        r - from == first_index(v@.subrange(from as int, to as int), a, b, 0),
{
    let ghost s = v@.subrange(from as int, to as int);
    let mut i: usize = from;
    while i < to
        invariant
            from <= i <= to <= v.len(),
            s == v@.subrange(from as int, to as int),
            first_index(s, a, b, 0) == first_index(s, a, b, i - from),
        decreases to - i,
    {
        assert(s[i - from] == v@[i as int]);
        if v[i] == a || v[i] == b {
            return i;
        }
        i += 1;
    }
    i
}

fn read_exponent(v: &Vec<char>, from: usize) -> (r: Option<i32>)
    requires
        from <= v.len(),
    ensures
        match r {
            Some(x) => exponent(v@.skip(from as int)) == Some(x as int) && -1000 < x < 1000,
            None => exponent(v@.skip(from as int)) is None,
        },
{
    let ghost s = v@.skip(from as int);
    if from >= v.len() {
        return Some(0);
    }
    let signed: bool = v.len() - from > 1 && (v[from + 1] == '-' || v[from + 1] == '+');
    let negative: bool = v.len() - from > 1 && v[from + 1] == '-';
    let start: usize = if signed {
        from + 2
    } else {
        from + 1
    };
    proof {
        if v@.len() - from > 1 {
            assert(s[1] == v@[from + 1]);
        }
        assert(v@.subrange(start as int, v@.len() as int) =~= if signed {
            s.skip(2)
        } else {
            s.skip(1)
        });
    }
    if start >= v.len() || v.len() - start > 3 {
        return None;
    }
    match read_natural(v, start, v.len()) {
        Some(x) => {
            proof {
                let digits = v@.subrange(start as int, v@.len() as int);
                lemma_natural_bound(digits);
                lemma_pow10_monotone(digits.len(), 3);
                reveal_with_fuel(pow10, 4);
                assert(pow10(3) == 1000);
            }
            if negative {
                Some(-(x as i32))
            } else {
                Some(x as i32)
            }
        },
        None => None,
    }
}

fn read_magnitude(v: &Vec<char>, from: usize) -> (r: Option<i128>)
    requires
        from <= v.len(),
    ensures
        match r {
            Some(x) => magnitude(v@.skip(from as int)) == Some(x as int) && 0 <= x <= LIMIT,
            None => magnitude(v@.skip(from as int)) is None,
        },
{
    let ghost s = v@.skip(from as int);
    assert(v@.subrange(from as int, v@.len() as int) =~= s);
    let e: usize = index_of(v, from, v.len(), 'e', 'E');
    let ghost mantissa = s.take(e - from);
    assert(v@.subrange(from as int, e as int) =~= mantissa);
    let dot: usize = index_of(v, from, e, '.', '.');
    let mut digits: Vec<char> = Vec::new();
    let mut i: usize = from;
    while i < e
        invariant
            from <= i <= e <= v.len(),
            from <= dot <= e,
            digits@ == v@.subrange(
                from as int,
                if i < dot {
                    i as int
                } else {
                    dot as int
                },
            ) + (if i > dot {
                v@.subrange(dot + 1, i as int)
            } else {
                Seq::empty()
            }),
        decreases e - i,
    {
        if i != dot {
            digits.push(v[i]);
        }
        i += 1;
        assert(digits@ =~= v@.subrange(
            from as int,
            if i < dot {
                i as int
            } else {
                dot as int
            },
        ) + (if i > dot {
            v@.subrange(dot + 1, i as int)
        } else {
            Seq::empty()
        }));
    }
    let ghost whole = mantissa.take(dot - from);
    let ghost part = if dot < e {
        mantissa.skip(dot - from + 1)
    } else {
        Seq::empty()
    };
    proof {
        assert(whole =~= v@.subrange(from as int, dot as int));
        if dot < e {
            assert(part =~= v@.subrange(dot + 1, e as int));
        }
        assert(digits@ =~= whole + part);
        assert(digits@.subrange(0, digits@.len() as int) =~= digits@);
        assert(s.skip(e - from) =~= v@.skip(e as int));
    }
    let m: u128 = match read_natural(&digits, 0, digits.len()) {
        Some(m) => m,
        None => return None,
    };
    let x: i32 = match read_exponent(v, e) {
        Some(x) => x,
        None => return None,
    };
    proof {
        lemma_natural_bound(digits@);
    }
    let places: usize = if dot < e {
        e - dot - 1
    } else {
        0
    };
    assert(places == part.len());
    scale_by(m, 9 + x - places as i32)
}

/// The fixed-point value that a number's decimal notation denotes.
pub fn read_fixed(text: &str) -> (r: Option<i128>)
    ensures
        match r {
            Some(x) => fixed_of(text@) == Some(x as int) && -LIMIT <= x <= LIMIT,
            None => fixed_of(text@) is None,
        },
{
    let v: Vec<char> = chars_of(text);
    assert(v@.skip(0) =~= v@);
    if v.len() > 0 && v[0] == '-' {
        match read_magnitude(&v, 1) {
            Some(m) => Some(-m),
            None => None,
        }
    } else {
        read_magnitude(&v, 0)
    }
}

} // verus!
