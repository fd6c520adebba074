//! JSON values as trees, and what a document's values look like in them.

use vstd::prelude::*;
use crate::fixed::{in_range, LIMIT};
use crate::pieces::{raw_level, split_members, split_parts};
use crate::json::{fixed_of, json_text, keys_differ, parse_level, print_level, read_fixed,
    reads_back, same_items, same_members, sound, Json, Level, LevelView, NESTING, SHALLOW};
use crate::numbers::{close, integer, integer_of, integer_text, lasting, law_number, noted, number,
    number_text, plain, read_integer, short};
use crate::text::{same, text_lt};
use crate::textmap::{sorted_keys, stored, TextMap};
use crate::views::views;

verus! {

broadcast use crate::views::group_views;

/// A JSON value. Numbers are kept in their decimal notation.
#[verifier::ext_equal]
pub enum JsonView {
    Null,
    Bool(bool),
    Number(Seq<char>),
    Text(Seq<char>),
    Array(Seq<JsonView>),
    Object(Seq<(Seq<char>, JsonView)>),
}

pub open spec fn tree(j: Json) -> JsonView
    decreases j,
{
    match j {
        Json::Null => JsonView::Null,
        Json::Bool(b) => JsonView::Bool(b),
        Json::Number(s) => JsonView::Number(s@),
        Json::Text(s) => JsonView::Text(s@),
        Json::Array(v) => JsonView::Array(
            Seq::new(
                v@.len(),
                |i: int|
                    if 0 <= i < v@.len() {
                        tree(v@[i])
                    } else {
                        JsonView::Null
                    },
            ),
        ),
        Json::Object(v) => JsonView::Object(
            Seq::new(
                v@.len(),
                |i: int|
                    if 0 <= i < v@.len() {
                        (v@[i].0@, tree(v@[i].1))
                    } else {
                        (Seq::empty(), JsonView::Null)
                    },
            ),
        ),
    }
}

impl View for Json {
    type V = JsonView;

    open spec fn view(&self) -> JsonView {
        tree(*self)
    }
}

pub proof fn lemma_array(v: Vec<Json>)
    ensures
        Json::Array(v)@ == JsonView::Array(views(v@)),
{
    assert(Json::Array(v)@->Array_0 =~= views(v@));
}

pub proof fn lemma_object(v: Vec<(String, Json)>)
    ensures
        Json::Object(v)@ == JsonView::Object(views(v@)),
{
    assert(Json::Object(v)@->Object_0 =~= views(v@));
}

/// The value that a text denotes, down to `fuel` levels of nesting; `None` for
/// a text that is no JSON or nests deeper.
pub open spec fn value_in(text: Seq<char>, fuel: nat) -> Option<JsonView>
    decreases fuel, 0nat,
{
    match raw_level(text) {
        None => None,
        Some(LevelView::Null) => Some(JsonView::Null),
        Some(LevelView::Bool(b)) => Some(JsonView::Bool(b)),
        Some(LevelView::Number(s)) => Some(JsonView::Number(s)),
        Some(LevelView::Text(s)) => Some(JsonView::Text(s)),
        Some(LevelView::Array(a)) => if fuel == 0 {
            None
        } else {
            match items_of(a, a.len(), (fuel - 1) as nat) {
                Some(v) => Some(JsonView::Array(v)),
                None => None,
            }
        },
        Some(LevelView::Object(m)) => if fuel == 0 {
            None
        } else {
            match entries_of(m, m.len(), (fuel - 1) as nat) {
                Some(v) => Some(JsonView::Object(v)),
                None => None,
            }
        },
    }
}

/// The values that the first `n` of some texts denote.
pub open spec fn items_of(a: Seq<Seq<char>>, n: nat, fuel: nat) -> Option<Seq<JsonView>>
    decreases fuel, n,
{
    if n == 0 {
        Some(Seq::empty())
    } else {
        match (items_of(a, (n - 1) as nat, fuel), value_in(a[n - 1], fuel)) {
            (Some(s), Some(v)) => Some(s.push(v)),
            _ => None,
        }
    }
}

/// The entries with the values that the first `n` of some texts denote.
pub open spec fn entries_of(m: Seq<(Seq<char>, Seq<char>)>, n: nat, fuel: nat) -> Option<
    Seq<(Seq<char>, JsonView)>,
>
    decreases fuel, n,
{
    if n == 0 {
        Some(Seq::empty())
    } else {
        match (entries_of(m, (n - 1) as nat, fuel), value_in(m[n - 1].1, fuel)) {
            (Some(s), Some(v)) => Some(s.push((m[n - 1].0, v))),
            _ => None,
        }
    }
}

proof fn lemma_items_unread(a: Seq<Seq<char>>, k: nat, n: nat, fuel: nat)
    requires
        k <= n,
        items_of(a, k, fuel) is None,
    ensures
        items_of(a, n, fuel) is None,
    decreases n,
{
    if k < n {
        lemma_items_unread(a, k, (n - 1) as nat, fuel);
    }
}

proof fn lemma_entries_unread(m: Seq<(Seq<char>, Seq<char>)>, k: nat, n: nat, fuel: nat)
    requires
        k <= n,
        entries_of(m, k, fuel) is None,
    ensures
        entries_of(m, n, fuel) is None,
    decreases n,
{
    if k < n {
        lemma_entries_unread(m, k, (n - 1) as nat, fuel);
    }
}

fn parse_value(text: &str, fuel: u8) -> (r: Option<Json>)
    ensures
        match r {
            Some(j) => value_in(text@, fuel as nat) == Some(j@) && steady(j@),
            None => value_in(text@, fuel as nat) is None,
        },
    decreases fuel,
{
    match parse_level(text) {
        Err(_) => None,
        Ok(Level::Null) => Some(Json::Null),
        Ok(Level::Bool(b)) => Some(Json::Bool(b)),
        Ok(Level::Number(s)) => Some(Json::Number(s)),
        Ok(Level::Text(s)) => Some(Json::Text(s)),
        Ok(Level::Array(_)) => {
            if fuel == 0 {
                return None;
            }
            let items: Vec<String> = split_parts(text);
            let ghost a = views(items@);
            let mut out: Vec<Json> = Vec::new();
            let mut i: usize = 0;
            assert(views(out@) =~= Seq::empty());
            while i < items.len()
                invariant
                    i <= items.len(),
                    fuel > 0,
                    a == views(items@),
                    raw_level(text@) == Some(LevelView::Array(a)),
                    items_of(a, i as nat, (fuel - 1) as nat) == Some(views(out@)),
                    forall|k: int| 0 <= k < out.len() ==> steady((#[trigger] out@[k])@),
                decreases items.len() - i,
            {
                assert(a[i as int] == items@[i as int]@);
                match parse_value(items[i].as_str(), fuel - 1) {
                    Some(j) => {
                        let ghost was = views(out@);
                        out.push(j);
                        assert(views(out@) =~= was.push(j@));
                    },
                    None => {
                        proof {
                            lemma_items_unread(a, i as nat + 1, a.len(), (fuel - 1) as nat);
                        }
                        return None;
                    },
                }
                i += 1;
            }
            proof {
                lemma_array(out);
            }
            Some(Json::Array(out))
        },
        Ok(Level::Object(_)) => {
            if fuel == 0 {
                return None;
            }
            let entries: Vec<(String, String)> = split_members(text);
            let ghost m = views(entries@);
            let mut out: Vec<(String, Json)> = Vec::new();
            let mut i: usize = 0;
            assert(views(out@) =~= Seq::empty());
            while i < entries.len()
                invariant
                    i <= entries.len(),
                    fuel > 0,
                    m == views(entries@),
                    raw_level(text@) == Some(LevelView::Object(m)),
                    entries_of(m, i as nat, (fuel - 1) as nat) == Some(views(out@)),
                    forall|k: int| 0 <= k < out.len() ==> steady((#[trigger] out@[k]).1@),
                decreases entries.len() - i,
            {
                let member: &(String, String) = &entries[i];
                assert(m[i as int] == (member.0@, member.1@));
                match parse_value(member.1.as_str(), fuel - 1) {
                    Some(j) => {
                        let ghost was = views(out@);
                        let e: (String, Json) = (member.0.clone(), j);
                        out.push(e);
                        assert(views(out@) =~= was.push(e@));
                    },
                    None => {
                        proof {
                            lemma_entries_unread(m, i as nat + 1, m.len(), (fuel - 1) as nat);
                        }
                        return None;
                    },
                }
                i += 1;
            }
            proof {
                lemma_object(out);
            }
            Some(Json::Object(out))
        },
    }
}

/// Parse a JSON text, and keep also the members of an object whose key occurs
/// twice.
pub fn parse_tree(text: &str) -> (r: Option<Json>)
    ensures
        match r {
            Some(j) => value_in(text@, NESTING as nat) == Some(j@) && steady(j@),
            None => value_in(text@, NESTING as nat) is None,
        },
{
    parse_value(text, NESTING)
}

/// The text of a value, as `serde_json` writes it level by level.
pub open spec fn printed(v: JsonView) -> Option<Seq<char>>
    decreases v, 0nat,
{
    match v {
        JsonView::Null => json_text(LevelView::Null),
        JsonView::Bool(b) => json_text(LevelView::Bool(b)),
        JsonView::Number(s) => json_text(LevelView::Number(s)),
        JsonView::Text(s) => json_text(LevelView::Text(s)),
        JsonView::Array(a) => match item_texts(a, a.len()) {
            Some(t) => json_text(LevelView::Array(t)),
            None => None,
        },
        JsonView::Object(m) => match entry_texts(m, m.len()) {
            Some(t) => json_text(LevelView::Object(t)),
            None => None,
        },
    }
}

/// The texts of the first `n` of some values.
pub open spec fn item_texts(a: Seq<JsonView>, n: nat) -> Option<Seq<Seq<char>>>
    decreases a, n,
{
    if n == 0 {
        Some(Seq::empty())
    } else if n > a.len() {
        None
    } else {
        match (item_texts(a, (n - 1) as nat), printed(a[n - 1])) {
            (Some(s), Some(t)) => Some(s.push(t)),
            _ => None,
        }
    }
}

/// The entries with the texts of the first `n` of some values.
pub open spec fn entry_texts(m: Seq<(Seq<char>, JsonView)>, n: nat) -> Option<
    Seq<(Seq<char>, Seq<char>)>,
>
    decreases m, n,
{
    if n == 0 {
        Some(Seq::empty())
    } else if n > m.len() {
        None
    } else {
        match (entry_texts(m, (n - 1) as nat), printed(m[n - 1].1)) {
            (Some(s), Some(t)) => Some(s.push((m[n - 1].0, t))),
            _ => None,
        }
    }
}

proof fn lemma_item_texts_none(a: Seq<JsonView>, k: nat, n: nat)
    requires
        k <= n,
        item_texts(a, k) is None,
    ensures
        item_texts(a, n) is None,
    decreases n,
{
    if k < n {
        lemma_item_texts_none(a, k, (n - 1) as nat);
    }
}

proof fn lemma_entry_texts_none(m: Seq<(Seq<char>, JsonView)>, k: nat, n: nat)
    requires
        k <= n,
        entry_texts(m, k) is None,
    ensures
        entry_texts(m, n) is None,
    decreases n,
{
    if k < n {
        lemma_entry_texts_none(m, k, (n - 1) as nat);
    }
}

/// A value of at most `depth` levels of nesting, its numbers in the notation of
/// a document (and such as last, if `exact` holds), and no key twice in an object.
pub open spec fn calm(v: JsonView, depth: nat, exact: bool) -> bool
    decreases depth,
{
    match v {
        JsonView::Number(s) => plain(s) || !exact && noted(s),
        JsonView::Array(a) => depth > 0 && forall|i: int|
            0 <= i < a.len() ==> calm(#[trigger] a[i], (depth - 1) as nat, exact),
        JsonView::Object(m) => depth > 0 && keys_differ(m) && forall|i: int|
            0 <= i < m.len() ==> calm((#[trigger] m[i]).1, (depth - 1) as nat, exact),
        _ => true,
    }
}

/// The numbers in range of a value are such that they last.
pub open spec fn steady(v: JsonView) -> bool
    decreases v,
{
    match v {
        JsonView::Number(s) => fixed_of(s) matches Some(x) ==> lasting(x),
        JsonView::Array(a) => forall|i: int| 0 <= i < a.len() ==> steady(#[trigger] a[i]),
        JsonView::Object(m) => forall|i: int| 0 <= i < m.len() ==> steady((#[trigger] m[i]).1),
        _ => true,
    }
}

/// No object has a key twice.
pub open spec fn unrepeated(v: JsonView) -> bool
    decreases v,
{
    match v {
        JsonView::Array(a) => forall|i: int| 0 <= i < a.len() ==> unrepeated(#[trigger] a[i]),
        JsonView::Object(m) => keys_differ(m) && forall|i: int|
            0 <= i < m.len() ==> unrepeated((#[trigger] m[i]).1),
        _ => true,
    }
}

/// The values are the same but for numbers in range that do not last, which are
/// others close by.
pub open spec fn near(v: JsonView, w: JsonView) -> bool
    decreases v,
{
    match (v, w) {
        (JsonView::Number(s), JsonView::Number(t)) => (plain(s) ==> s == t) && (noted(s) ==> close(
            s,
            t,
        )),
        (JsonView::Array(a), JsonView::Array(b)) => a.len() == b.len() && forall|i: int|
            0 <= i < a.len() ==> near(#[trigger] a[i], b[i]),
        (JsonView::Object(m), JsonView::Object(n)) => m.len() == n.len() && forall|i: int|
            0 <= i < m.len() ==> (#[trigger] m[i]).0 == n[i].0 && near(m[i].1, n[i].1),
        _ => v == w,
    }
}

/// A text denotes a value near to `v`, which is `v` itself if `exact` holds, and
/// is the text of that value too.
pub open spec fn copied(v: JsonView, text: Option<Seq<char>>, d: nat, exact: bool) -> bool {
    &&& text is Some && value_in(text->0, d) is Some
    &&& near(v, value_in(text->0, d)->0)
    &&& unrepeated(value_in(text->0, d)->0)
    &&& printed(value_in(text->0, d)->0) == text
    &&& exact ==> value_in(text->0, d) == Some(v)
}

/// A text that was written for a value: if the value is calm there is one, which
/// denotes a value near to it, and the value itself if its numbers last.
pub open spec fn kept(v: JsonView, text: Option<Seq<char>>) -> bool {
    forall|d: nat, exact: bool| #[trigger]
        calm(v, d, exact) && d <= SHALLOW ==> copied(v, text, d, exact)
}

/// A text that denotes a value still does so with room for more nesting.
pub proof fn lemma_value_deeper(text: Seq<char>, d: nat, e: nat)
    requires
        value_in(text, d) is Some,
        d <= e,
    ensures
        value_in(text, e) == value_in(text, d),
    decreases d, 1nat, 0nat,
{
    match raw_level(text) {
        Some(LevelView::Array(a)) => {
            lemma_items_deeper(a, a.len(), (d - 1) as nat, (e - 1) as nat);
        },
        Some(LevelView::Object(m)) => {
            lemma_entries_deeper(m, m.len(), (d - 1) as nat, (e - 1) as nat);
        },
        _ => {},
    }
}

proof fn lemma_items_deeper(a: Seq<Seq<char>>, n: nat, d: nat, e: nat)
    requires
        items_of(a, n, d) is Some,
        d <= e,
    ensures
        items_of(a, n, e) == items_of(a, n, d),
    decreases d, 2nat, n,
{
    if n > 0 {
        lemma_items_deeper(a, (n - 1) as nat, d, e);
        lemma_value_deeper(a[n - 1], d, e);
    }
}

proof fn lemma_entries_deeper(m: Seq<(Seq<char>, Seq<char>)>, n: nat, d: nat, e: nat)
    requires
        entries_of(m, n, d) is Some,
        d <= e,
    ensures
        entries_of(m, n, e) == entries_of(m, n, d),
    decreases d, 2nat, n,
{
    if n > 0 {
        lemma_entries_deeper(m, (n - 1) as nat, d, e);
        lemma_value_deeper(m[n - 1].1, d, e);
    }
}

proof fn lemma_items_are(s: Seq<Seq<char>>, w: Seq<JsonView>, n: nat, d: nat)
    requires
        n <= s.len() == w.len(),
        forall|i: int| 0 <= i < n ==> value_in(#[trigger] s[i], d) == Some(w[i]),
    ensures
        items_of(s, n, d) == Some(w.take(n as int)),
    decreases n,
{
    if n > 0 {
        lemma_items_are(s, w, (n - 1) as nat, d);
        assert(value_in(s[n - 1], d) == Some(w[n - 1]));
        assert(w.take(n - 1).push(w[n - 1]) =~= w.take(n as int));
    } else {
        assert(w.take(0) =~= Seq::empty());
    }
}

proof fn lemma_entries_are(
    s: Seq<(Seq<char>, Seq<char>)>,
    w: Seq<(Seq<char>, JsonView)>,
    n: nat,
    d: nat,
)
    requires
        n <= s.len() == w.len(),
        forall|i: int|
            0 <= i < n ==> (#[trigger] s[i]).0 == w[i].0 && value_in(s[i].1, d) == Some(w[i].1),
    ensures
        entries_of(s, n, d) == Some(w.take(n as int)),
    decreases n,
{
    if n > 0 {
        lemma_entries_are(s, w, (n - 1) as nat, d);
        assert(s[n - 1].0 == w[n - 1].0);
        assert(w.take(n - 1).push(w[n - 1]) =~= w.take(n as int));
    } else {
        assert(w.take(0) =~= Seq::empty());
    }
}

proof fn lemma_items_printed(w: Seq<JsonView>, s: Seq<Seq<char>>, n: nat)
    requires
        n <= s.len() == w.len(),
        forall|i: int| 0 <= i < n ==> printed(#[trigger] w[i]) == Some(s[i]),
    ensures
        item_texts(w, n) == Some(s.take(n as int)),
    decreases n,
{
    if n > 0 {
        lemma_items_printed(w, s, (n - 1) as nat);
        assert(printed(w[n - 1]) == Some(s[n - 1]));
        assert(s.take(n - 1).push(s[n - 1]) =~= s.take(n as int));
    } else {
        assert(s.take(0) =~= Seq::empty());
    }
}

proof fn lemma_entries_printed(
    w: Seq<(Seq<char>, JsonView)>,
    s: Seq<(Seq<char>, Seq<char>)>,
    n: nat,
)
    requires
        n <= s.len() == w.len(),
        forall|i: int|
            0 <= i < n ==> (#[trigger] w[i]).0 == s[i].0 && printed(w[i].1) == Some(s[i].1),
    ensures
        entry_texts(w, n) == Some(s.take(n as int)),
    decreases n,
{
    if n > 0 {
        lemma_entries_printed(w, s, (n - 1) as nat);
        assert(w[n - 1].0 == s[n - 1].0);
        assert(s.take(n - 1).push(s[n - 1]) =~= s.take(n as int));
    } else {
        assert(s.take(0) =~= Seq::empty());
    }
}

proof fn lemma_array_kept(a: Seq<JsonView>, s: Seq<Seq<char>>, text: Option<Seq<char>>)
    requires
        a.len() == s.len(),
        forall|i: int| 0 <= i < a.len() ==> kept(a[i], Some(#[trigger] s[i])),
        reads_back(LevelView::Array(s), text),
        json_text(LevelView::Array(s)) == text,
    ensures
        kept(JsonView::Array(a), text),
{
    let v = JsonView::Array(a);
    assert forall|d: nat, exact: bool| #[trigger] calm(v, d, exact) && d <= SHALLOW implies copied(
        v,
        text,
        d,
        exact,
    ) by {
        let e = (d - 1) as nat;
        let w = Seq::new(a.len(), |i: int| value_in(s[i], e)->0);
        assert forall|i: int| 0 <= i < s.len() implies sound(#[trigger] s[i]) && copied(
            a[i],
            Some(s[i]),
            e,
            exact,
        ) by {
            assert(kept(a[i], Some(s[i])));
            assert(v->Array_0[i] == a[i]);
            assert(calm(a[i], e, exact));
            lemma_value_deeper(s[i], e, SHALLOW as nat);
        }
        let b = raw_level(text->0)->0->Array_0;
        assert(same_items(s, b));
        assert forall|i: int| 0 <= i < b.len() implies value_in(#[trigger] b[i], e) == Some(
            w[i],
        ) by {
            assert(sound(s[i]));
            assert(value_in(b[i], e) == value_in(s[i], e));
        }
        lemma_items_are(b, w, a.len(), e);
        assert(w.take(a.len() as int) =~= w);
        assert forall|i: int| 0 <= i < w.len() implies printed(#[trigger] w[i]) == Some(s[i]) by {
            assert(sound(s[i]));
        }
        lemma_items_printed(w, s, a.len());
        assert(s.take(a.len() as int) =~= s);
        assert(value_in(text->0, d) == Some(JsonView::Array(w)));
        assert forall|i: int| 0 <= i < a.len() implies near(#[trigger] a[i], w[i]) by {
            assert(sound(s[i]));
        }
        assert forall|i: int| 0 <= i < w.len() implies unrepeated(#[trigger] w[i]) by {
            assert(sound(s[i]));
        }
        if exact {
            assert forall|i: int| 0 <= i < w.len() implies w[i] == a[i] by {
                assert(sound(s[i]));
            }
            assert(w =~= a);
        }
    }
}

proof fn lemma_object_kept(
    m: Seq<(Seq<char>, JsonView)>,
    s: Seq<(Seq<char>, Seq<char>)>,
    text: Option<Seq<char>>,
)
    requires
        m.len() == s.len(),
        forall|i: int|
            0 <= i < m.len() ==> (#[trigger] s[i]).0 == m[i].0 && kept(m[i].1, Some(s[i].1)),
        reads_back(LevelView::Object(s), text),
        json_text(LevelView::Object(s)) == text,
    ensures
        kept(JsonView::Object(m), text),
{
    let v = JsonView::Object(m);
    assert forall|d: nat, exact: bool| #[trigger] calm(v, d, exact) && d <= SHALLOW implies copied(
        v,
        text,
        d,
        exact,
    ) by {
        let e = (d - 1) as nat;
        let w = Seq::new(m.len(), |i: int| (m[i].0, value_in(s[i].1, e)->0));
        assert forall|i: int| 0 <= i < s.len() implies sound((#[trigger] s[i]).1) && copied(
            m[i].1,
            Some(s[i].1),
            e,
            exact,
        ) by {
            assert(kept(m[i].1, Some(s[i].1)));
            assert(v->Object_0[i] == m[i]);
            assert(calm(m[i].1, e, exact));
            lemma_value_deeper(s[i].1, e, SHALLOW as nat);
        }
        assert forall|i: int, j: int| 0 <= i < j < s.len() implies (#[trigger] s[i]).0 != (
        #[trigger] s[j]).0 by {
            assert(m[i].0 != m[j].0);
        }
        let n = raw_level(text->0)->0->Object_0;
        assert(same_members(s, n));
        assert forall|i: int| 0 <= i < n.len() implies (#[trigger] n[i]).0 == w[i].0 && value_in(
            n[i].1,
            e,
        ) == Some(w[i].1) by {
            assert(sound(s[i].1));
            assert(n[i].0 == s[i].0);
            assert(value_in(n[i].1, e) == value_in(s[i].1, e));
        }
        lemma_entries_are(n, w, m.len(), e);
        assert(w.take(m.len() as int) =~= w);
        assert forall|i: int| 0 <= i < w.len() implies (#[trigger] w[i]).0 == s[i].0 && printed(
            w[i].1,
        ) == Some(s[i].1) by {
            assert(sound(s[i].1));
        }
        lemma_entries_printed(w, s, m.len());
        assert(s.take(m.len() as int) =~= s);
        assert(value_in(text->0, d) == Some(JsonView::Object(w)));
        assert forall|i: int| 0 <= i < m.len() implies (#[trigger] m[i]).0 == w[i].0 && near(
            m[i].1,
            w[i].1,
        ) by {
            assert(sound(s[i].1));
        }
        assert forall|i: int, j: int| 0 <= i < j < w.len() implies (#[trigger] w[i]).0 != (
        #[trigger] w[j]).0 by {
            assert(m[i].0 != m[j].0);
        }
        assert forall|i: int| 0 <= i < w.len() implies unrepeated((#[trigger] w[i]).1) by {
            assert(sound(s[i].1));
        }
        if exact {
            assert forall|i: int| 0 <= i < w.len() implies w[i] == m[i] by {
                assert(sound(s[i].1));
            }
            assert(w =~= m);
        }
    }
}

/// The text of a JSON value, with indentation; `None` where a number is not in
/// JSON's notation. A calm value has a text, and one whose numbers last is what
/// its text denotes.
pub fn print_json(j: &Json) -> (r: Option<String>)
    ensures
        crate::document::opt_text(r) == printed(j@),
        kept(j@, crate::document::opt_text(r)),
    decreases j,
{
    match j {
        Json::Null => print_level(&Level::Null),
        Json::Bool(b) => print_level(&Level::Bool(*b)),
        Json::Number(s) => print_level(&Level::Number(s.clone())),
        Json::Text(s) => print_level(&Level::Text(s.clone())),
        Json::Array(v) => {
            proof {
                lemma_array(*v);
            }
            let ghost a = views(v@);
            let mut out: Vec<String> = Vec::new();
            let mut i: usize = 0;
            assert(views(out@) =~= Seq::empty());
            while i < v.len()
                invariant
                    i <= v.len(),
                    *j == Json::Array(*v),
                    a == views(v@),
                    j@ == JsonView::Array(a),
                    item_texts(a, i as nat) == Some(views(out@)),
                    out.len() == i,
                    forall|k: int| 0 <= k < i ==> kept(a[k], Some(#[trigger] views(out@)[k])),
                decreases v.len() - i,
            {
                assert(a[i as int] == v@[i as int]@);
                match print_json(&v[i]) {
                    Some(t) => {
                        let ghost was = views(out@);
                        out.push(t);
                        assert(views(out@) =~= was.push(t@));
                    },
                    None => {
                        proof {
                            lemma_item_texts_none(a, i as nat + 1, a.len());
                            assert forall|d: nat, exact: bool| #[trigger]
                                calm(j@, d, exact) && d <= SHALLOW implies false by {
                                assert(calm(a[i as int], (d - 1) as nat, exact));
                            }
                        }
                        return None;
                    },
                }
                i += 1;
            }
            let ghost texts = views(out@);
            let r: Option<String> = print_level(&Level::Array(out));
            proof {
                lemma_array_kept(a, texts, crate::document::opt_text(r));
            }
            r
        },
        Json::Object(v) => {
            proof {
                lemma_object(*v);
            }
            let ghost m = views(v@);
            let mut out: Vec<(String, String)> = Vec::new();
            let mut i: usize = 0;
            assert(views(out@) =~= Seq::empty());
            while i < v.len()
                invariant
                    i <= v.len(),
                    *j == Json::Object(*v),
                    m == views(v@),
                    j@ == JsonView::Object(m),
                    entry_texts(m, i as nat) == Some(views(out@)),
                    out.len() == i,
                    forall|k: int|
                        0 <= k < i ==> (#[trigger] views(out@)[k]).0 == m[k].0 && kept(
                            m[k].1,
                            Some(views(out@)[k].1),
                        ),
                decreases v.len() - i,
            {
                assert(m[i as int] == v@[i as int]@);
                match print_json(&v[i].1) {
                    Some(t) => {
                        let e: (String, String) = (v[i].0.clone(), t);
                        let ghost was = views(out@);
                        out.push(e);
                        assert(views(out@) =~= was.push(e@));
                    },
                    None => {
                        proof {
                            lemma_entry_texts_none(m, i as nat + 1, m.len());
                            assert forall|d: nat, exact: bool| #[trigger]
                                calm(j@, d, exact) && d <= SHALLOW implies false by {
                                assert(calm(m[i as int].1, (d - 1) as nat, exact));
                            }
                        }
                        return None;
                    },
                }
                i += 1;
            }
            let ghost texts = views(out@);
            let r: Option<String> = print_level(&Level::Object(out));
            proof {
                lemma_object_kept(m, texts, crate::document::opt_text(r));
            }
            r
        },
    }
}

/// The first entry with the given key.
pub open spec fn entry(m: Seq<(Seq<char>, JsonView)>, key: Seq<char>) -> Option<JsonView>
    decreases m.len(),
{
    if m.len() == 0 {
        None
    } else if m[0].0 == key {
        Some(m[0].1)
    } else {
        entry(m.skip(1), key)
    }
}

/// One entry.
pub open spec fn one(key: Seq<char>, value: JsonView) -> Seq<(Seq<char>, JsonView)> {
    seq![(key, value)]
}

/// An entry that is there if `there` holds.
pub open spec fn maybe(there: bool, key: Seq<char>, value: JsonView) -> Seq<
    (Seq<char>, JsonView),
> {
    if there {
        one(key, value)
    } else {
        Seq::empty()
    }
}

pub broadcast proof fn lemma_entry_concat(
    a: Seq<(Seq<char>, JsonView)>,
    b: Seq<(Seq<char>, JsonView)>,
    key: Seq<char>,
)
    ensures
        #[trigger] entry(a + b, key) == (match entry(a, key) {
            Some(v) => Some(v),
            None => entry(b, key),
        }),
    decreases a.len(),
{
    if a.len() == 0 {
        assert(a + b =~= b);
    } else if a[0].0 != key {
        assert((a + b).skip(1) =~= a.skip(1) + b);
        lemma_entry_concat(a.skip(1), b, key);
    }
}

pub broadcast proof fn lemma_entry_one(key: Seq<char>, value: JsonView, other: Seq<char>)
    ensures
        #[trigger] entry(one(key, value), other) == (if key == other {
            Some(value)
        } else {
            None
        }),
{
    assert(one(key, value).skip(1) =~= Seq::empty());
    assert(entry(Seq::empty(), other) is None);
}

pub broadcast proof fn lemma_entry_maybe(
    there: bool,
    key: Seq<char>,
    value: JsonView,
    other: Seq<char>,
)
    ensures
        #[trigger] entry(maybe(there, key, value), other) == (if there && key == other {
            Some(value)
        } else {
            None
        }),
{
    if there {
        lemma_entry_one(key, value, other);
    }
}

pub broadcast group group_entries {
    lemma_entry_concat,
    lemma_entry_one,
    lemma_entry_maybe,
}

/// The value of a field of a record: under its name in an object, or in its
/// place in an array.
pub open spec fn field(j: JsonView, key: Seq<char>, i: int) -> Option<JsonView> {
    match j {
        JsonView::Object(m) => entry(m, key),
        JsonView::Array(a) => if 0 <= i < a.len() {
            Some(a[i])
        } else {
            None
        },
        _ => None,
    }
}

/// The value can be a record of `n` fields.
pub open spec fn record(j: JsonView, n: int) -> bool {
    match j {
        JsonView::Object(m) => true,
        JsonView::Array(a) => a.len() <= n,
        _ => false,
    }
}

/// A key that occurs at most once, if the value is an object.
pub open spec fn sole(j: JsonView, key: Seq<char>) -> bool {
    match j {
        JsonView::Object(m) => forall|i: int, k: int|
            0 <= i < k < m.len() && (#[trigger] m[i]).0 == key ==> (#[trigger] m[k]).0 != key,
        _ => true,
    }
}

/// In a calm value every key occurs once.
pub proof fn lemma_calm_sole(j: JsonView, d: nat, exact: bool)
    requires
        calm(j, d, exact),
    ensures
        forall|key: Seq<char>| #[trigger] sole(j, key),
{
}

pub fn is_sole(j: &Json, key: &str) -> (r: bool)
    ensures
        r == sole(j@, key@),
{
    match j {
        Json::Object(v) => {
            proof {
                lemma_object(*v);
            }
            let ghost m = views(v@);
            let mut seen: bool = false;
            let ghost mut at: int = 0;
            let mut k: usize = 0;
            while k < v.len()
                invariant
                    k <= v.len(),
                    m == views(v@),
                    j@ == JsonView::Object(m),
                    seen ==> 0 <= at < k && m[at].0 == key@,
                    forall|i: int|
                        0 <= i < k && (#[trigger] m[i]).0 == key@ ==> seen && i == at,
                decreases v.len() - k,
            {
                assert(m[k as int] == (v@[k as int].0@, v@[k as int].1@));
                if same(v[k].0.as_str(), key) {
                    if seen {
                        proof {
                            let k = k as int;
                            let all = j@->Object_0;
                            assert(all[at].0 == key@ && all[k].0 == key@);
                        }
                        return false;
                    }
                    seen = true;
                    proof {
                        at = k as int;
                    }
                }
                k += 1;
            }
            true
        },
        _ => true,
    }
}

/// The name of a variant: a text, or an object with that one name and null.
pub open spec fn variant(j: Option<JsonView>) -> Option<Seq<char>> {
    match j {
        Some(JsonView::Text(s)) => Some(s),
        Some(JsonView::Object(m)) => if m.len() == 1 && m[0].1 is Null {
            Some(m[0].0)
        } else {
            None
        },
        _ => None,
    }
}

pub open spec fn text_in(j: Option<JsonView>) -> Option<Seq<char>> {
    match j {
        Some(JsonView::Text(s)) => Some(s),
        _ => None,
    }
}

/// A text; an absent one is `d`.
pub open spec fn text_or(j: Option<JsonView>, d: Seq<char>) -> Option<Seq<char>> {
    match j {
        None => Some(d),
        _ => text_in(j),
    }
}

/// A text that may be absent or null.
pub open spec fn maybe_text(j: Option<JsonView>) -> Option<Option<Seq<char>>> {
    match j {
        None => Some(None),
        Some(JsonView::Null) => Some(None),
        Some(JsonView::Text(s)) => Some(Some(s)),
        _ => None,
    }
}

pub open spec fn fixed_in(j: Option<JsonView>) -> Option<int> {
    match j {
        Some(JsonView::Number(s)) => fixed_of(s),
        _ => None,
    }
}

/// A fixed-point number; an absent one is `d`.
pub open spec fn fixed_or(j: Option<JsonView>, d: int) -> Option<int> {
    match j {
        None => Some(d),
        _ => fixed_in(j),
    }
}

/// A whole number from `lo` to `hi`.
pub open spec fn whole_in(j: Option<JsonView>, lo: int, hi: int) -> Option<int> {
    match j {
        Some(JsonView::Number(s)) => match integer_of(s) {
            Some(n) => if lo <= n <= hi {
                Some(n)
            } else {
                None
            },
            None => None,
        },
        _ => None,
    }
}

/// A whole number; an absent one is `d`.
pub open spec fn whole_or(j: Option<JsonView>, lo: int, hi: int, d: int) -> Option<int> {
    match j {
        None => Some(d),
        _ => whole_in(j, lo, hi),
    }
}

/// A truth value; an absent one is false.
pub open spec fn flag_in(j: Option<JsonView>) -> Option<bool> {
    match j {
        None => Some(false),
        Some(JsonView::Bool(b)) => Some(b),
        _ => None,
    }
}

pub fn get_field<'a>(j: &'a Json, key: &str, i: usize) -> (r: Option<&'a Json>)
    ensures
        match r {
            Some(x) => field(j@, key@, i as int) == Some(x@),
            None => field(j@, key@, i as int) is None,
        },
{
    match j {
        Json::Object(v) => {
            proof {
                lemma_object(*v);
            }
            let ghost all = views(v@);
            let mut k: usize = 0;
            assert(all.skip(0) =~= all);
            while k < v.len()
                invariant
                    k <= v.len(),
                    all == views(v@),
                    entry(all, key@) == entry(all.skip(k as int), key@),
                    j@ == JsonView::Object(all),
                decreases v.len() - k,
            {
                assert(all.skip(k as int)[0] == v@[k as int]@);
                assert(all.skip(k as int).skip(1) =~= all.skip(k + 1));
                if same(v[k].0.as_str(), key) {
                    return Some(&v[k].1);
                }
                k += 1;
            }
            None
        },
        Json::Array(v) => {
            proof {
                lemma_array(*v);
            }
            if i < v.len() {
                assert(views(v@)[i as int] == v@[i as int]@);
                Some(&v[i])
            } else {
                None
            }
        },
        _ => None,
    }
}

pub fn is_record(j: &Json, n: usize) -> (r: bool)
    ensures
        r == record(j@, n as int),
{
    match j {
        Json::Object(_) => true,
        Json::Array(v) => v.len() <= n,
        _ => false,
    }
}

/// The view of a value that may be absent.
pub open spec fn seen(j: Option<&Json>) -> Option<JsonView> {
    match j {
        Some(x) => Some(x@),
        None => None,
    }
}

pub fn get_variant(j: Option<&Json>) -> (r: Option<String>)
    ensures
        match r {
            Some(s) => variant(seen(j)) == Some(s@),
            None => variant(seen(j)) is None,
        },
{
    match j {
        Some(Json::Text(s)) => Some(s.clone()),
        Some(Json::Object(m)) => {
            proof {
                lemma_object(*m);
            }
            if m.len() != 1 {
                return None;
            }
            assert(views(m@)[0] == m@[0]@);
            match &m[0].1 {
                Json::Null => Some(m[0].0.clone()),
                _ => None,
            }
        },
        _ => None,
    }
}

pub fn get_text(j: Option<&Json>) -> (r: Option<String>)
    ensures
        match r {
            Some(s) => text_in(seen(j)) == Some(s@),
            None => text_in(seen(j)) is None,
        },
{
    match j {
        Some(Json::Text(s)) => Some(s.clone()),
        _ => None,
    }
}

pub fn get_text_or(j: Option<&Json>, d: &str) -> (r: Option<String>)
    ensures
        match r {
            Some(s) => text_or(seen(j), d@) == Some(s@),
            None => text_or(seen(j), d@) is None,
        },
{
    match j {
        None => Some(d.to_owned()),
        _ => get_text(j),
    }
}

pub fn get_maybe_text(j: Option<&Json>) -> (r: Option<Option<String>>)
    ensures
        match r {
            Some(o) => maybe_text(seen(j)) == Some(crate::document::opt_text(o)),
            None => maybe_text(seen(j)) is None,
        },
{
    match j {
        None => Some(None),
        Some(Json::Null) => Some(None),
        Some(Json::Text(s)) => Some(Some(s.clone())),
        _ => None,
    }
}

pub fn get_fixed(j: Option<&Json>) -> (r: Option<i128>)
    ensures
        match r {
            Some(x) => fixed_in(seen(j)) == Some(x as int) && -LIMIT <= x <= LIMIT,
            None => fixed_in(seen(j)) is None,
        },
{
    match j {
        Some(Json::Number(s)) => read_fixed(s.as_str()),
        _ => None,
    }
}

pub fn get_fixed_or(j: Option<&Json>, d: i128) -> (r: Option<i128>)
    ensures
        match r {
            Some(x) => fixed_or(seen(j), d as int) == Some(x as int),
            None => fixed_or(seen(j), d as int) is None,
        },
{
    match j {
        None => Some(d),
        _ => get_fixed(j),
    }
}

pub fn get_whole(j: Option<&Json>, lo: i64, hi: i64) -> (r: Option<i64>)
    ensures
        match r {
            Some(n) => whole_in(seen(j), lo as int, hi as int) == Some(n as int),
            None => whole_in(seen(j), lo as int, hi as int) is None,
        },
{
    match j {
        Some(Json::Number(s)) => match read_integer(s.as_str()) {
            Some(n) => if lo as i128 <= n && n <= hi as i128 {
                Some(n as i64)
            } else {
                None
            },
            None => None,
        },
        _ => None,
    }
}

pub fn get_whole_or(j: Option<&Json>, lo: i64, hi: i64, d: i64) -> (r: Option<i64>)
    ensures
        match r {
            Some(n) => whole_or(seen(j), lo as int, hi as int, d as int) == Some(n as int),
            None => whole_or(seen(j), lo as int, hi as int, d as int) is None,
        },
{
    match j {
        None => Some(d),
        _ => get_whole(j, lo, hi),
    }
}

pub fn get_flag(j: Option<&Json>) -> (r: Option<bool>)
    ensures
        r == flag_in(seen(j)),
{
    match j {
        None => Some(false),
        Some(Json::Bool(b)) => Some(*b),
        _ => None,
    }
}

/// No entries.
pub open spec fn none() -> Seq<(Seq<char>, JsonView)> {
    Seq::empty()
}

/// An object without entries yet.
pub fn nothing() -> (r: Vec<(String, Json)>)
    ensures
        views(r@) == none(),
{
    let v: Vec<(String, Json)> = Vec::new();
    assert(views(v@) =~= none());
    v
}

/// Put an entry at the end of an object, if it is to be there.
pub fn put_if(m: &mut Vec<(String, Json)>, there: bool, key: &str, value: Json)
    ensures
        views(final(m)@) == views(old(m)@) + maybe(there, key@, value@),
{
    if there {
        put(m, key, value);
    } else {
        assert(views(m@) + Seq::empty() =~= views(m@));
    }
}

/// The object with the given entries.
pub fn object(m: Vec<(String, Json)>) -> (r: Json)
    ensures
        r@ == JsonView::Object(views(m@)),
{
    proof {
        lemma_object(m);
    }
    Json::Object(m)
}

/// Put an entry at the end of an object.
pub fn put(m: &mut Vec<(String, Json)>, key: &str, value: Json)
    ensures
        views(final(m)@) == views(old(m)@) + one(key@, value@),
{
    let ghost before = views(m@);
    let e: (String, Json) = (key.to_owned(), value);
    assert(e@ == (key@, value@));
    m.push(e);
    assert(views(m@) =~= before + one(key@, value@));
}

pub fn text_json(s: &str) -> (r: Json)
    ensures
        r@ == JsonView::Text(s@),
{
    Json::Text(s.to_owned())
}

pub fn fixed_json(x: i128) -> (r: Json)
    ensures
        r@ == JsonView::Number(number(x as int)),
{
    Json::Number(number_text(x))
}

pub fn whole_json(n: i64) -> (r: Json)
    ensures
        r@ == JsonView::Number(integer(n as int)),
{
    Json::Number(integer_text(n))
}

/// A value that stands in a document's JSON.
pub trait Stored: View + Sized {
    /// The value that a JSON value stands for.
    spec fn read_in(j: JsonView) -> Option<<Self as View>::V>;

    /// The JSON value that stands for a value.
    spec fn written(v: <Self as View>::V) -> JsonView;

    /// The value can be written and read back: its numbers are in range, and
    /// its maps in order.
    spec fn storable(v: <Self as View>::V) -> bool;

    fn read(j: &Json) -> (r: Option<Self>)
        ensures
            match r {
                Some(x) => Self::read_in(j@) == Some(x@),
                None => Self::read_in(j@) is None,
            },
    ;

    fn write(&self) -> (r: Json)
        ensures
            r@ == Self::written(self@),
    ;

    proof fn lemma_read_back(v: <Self as View>::V)
        requires
            Self::storable(v),
            calm(Self::written(v), Self::levels(), false),
        ensures
            Self::read_in(Self::written(v)) == Some(v),
    ;

    proof fn lemma_read_storable(j: JsonView)
        requires
            Self::read_in(j) is Some,
        ensures
            Self::storable(Self::read_in(j)->0),
    ;

    /// The numbers of the value last.
    spec fn modest(v: <Self as View>::V) -> bool;

    proof fn lemma_read_modest(j: JsonView)
        requires
            Self::read_in(j) is Some,
            steady(j),
        ensures
            Self::modest(Self::read_in(j)->0),
    ;

    /// What is near to the JSON of a value is the JSON of a value.
    proof fn lemma_near(v: <Self as View>::V, w: JsonView) -> (q: <Self as View>::V)
        requires
            Self::storable(v),
            near(Self::written(v), w),
        ensures
            Self::storable(q),
            Self::written(q) == w,
    ;

    /// Levels of nesting of the JSON of a value.
    spec fn levels() -> nat;

    proof fn lemma_calm(v: <Self as View>::V, d: nat, exact: bool)
        requires
            Self::storable(v),
            exact ==> Self::modest(v),
            d >= Self::levels(),
        ensures
            calm(Self::written(v), d, exact),
    ;
}

/// Entries whose keys differ and whose values are calm.
pub open spec fn tidy(m: Seq<(Seq<char>, JsonView)>, d: nat, exact: bool) -> bool {
    keys_differ(m) && forall|i: int| 0 <= i < m.len() ==> calm((#[trigger] m[i]).1, d, exact)
}

proof fn lemma_entry_absent(m: Seq<(Seq<char>, JsonView)>, key: Seq<char>)
    requires
        entry(m, key) is None,
    ensures
        forall|i: int| 0 <= i < m.len() ==> (#[trigger] m[i]).0 != key,
    decreases m.len(),
{
    if m.len() > 0 {
        let rest = m.skip(1);
        lemma_entry_absent(rest, key);
        assert forall|i: int| 0 <= i < m.len() implies (#[trigger] m[i]).0 != key by {
            if i > 0 {
                assert(rest[i - 1] == m[i]);
            }
        }
    }
}

pub broadcast proof fn lemma_tidy_none(d: nat, exact: bool)
    ensures
        #[trigger] tidy(none(), d, exact),
{
}

pub broadcast proof fn lemma_tidy_one(
    m: Seq<(Seq<char>, JsonView)>,
    key: Seq<char>,
    v: JsonView,
    d: nat,
    exact: bool,
)
    requires
        tidy(m, d, exact),
        entry(m, key) is None,
        calm(v, d, exact),
    ensures
        #[trigger] tidy(m + one(key, v), d, exact),
{
    lemma_entry_absent(m, key);
    let all = m + one(key, v);
    assert forall|i: int, j: int| 0 <= i < j < all.len() implies (#[trigger] all[i]).0 != (
    #[trigger] all[j]).0 by {
        assert(all[i] == m[i]);
        if j < m.len() {
            assert(all[j] == m[j]);
        }
    }
    assert forall|i: int| 0 <= i < all.len() implies calm((#[trigger] all[i]).1, d, exact) by {
        if i < m.len() {
            assert(all[i] == m[i]);
        }
    }
}

pub broadcast proof fn lemma_tidy_maybe(
    m: Seq<(Seq<char>, JsonView)>,
    there: bool,
    key: Seq<char>,
    v: JsonView,
    d: nat,
    exact: bool,
)
    requires
        tidy(m, d, exact),
        there ==> entry(m, key) is None && calm(v, d, exact),
    ensures
        #[trigger] tidy(m + maybe(there, key, v), d, exact),
{
    if there {
        lemma_tidy_one(m, key, v, d, exact);
    } else {
        assert(m + Seq::empty() =~= m);
    }
}

pub broadcast proof fn lemma_calm_number(x: int, d: nat, exact: bool)
    requires
        in_range(x),
        exact ==> lasting(x),
    ensures
        #[trigger] calm(JsonView::Number(number(x)), d, exact),
{
    if exact {
        assert(plain(number(x)));
    } else {
        assert(noted(number(x)));
    }
}

pub broadcast proof fn lemma_calm_integer(n: int, d: nat, exact: bool)
    requires
        i64::MIN <= n <= u64::MAX,
    ensures
        #[trigger] calm(JsonView::Number(integer(n)), d, exact),
{
    assert(plain(integer(n)));
}

pub broadcast group group_calm {
    lemma_tidy_none,
    lemma_tidy_one,
    lemma_tidy_maybe,
    lemma_calm_number,
    lemma_calm_integer,
}

/// The entries of two tidy lists that share no key.
pub proof fn lemma_tidy_concat(
    a: Seq<(Seq<char>, JsonView)>,
    b: Seq<(Seq<char>, JsonView)>,
    d: nat,
    exact: bool,
)
    requires
        tidy(a, d, exact),
        tidy(b, d, exact),
        forall|i: int| 0 <= i < a.len() ==> entry(b, (#[trigger] a[i]).0) is None,
    ensures
        tidy(a + b, d, exact),
{
    let all = a + b;
    assert forall|i: int, j: int| 0 <= i < j < all.len() implies (#[trigger] all[i]).0 != (
    #[trigger] all[j]).0 by {
        if i < a.len() {
            assert(all[i] == a[i]);
            lemma_entry_absent(b, a[i].0);
        } else {
            assert(all[i] == b[i - a.len()]);
        }
        if j < a.len() {
            assert(all[j] == a[j]);
        } else {
            assert(all[j] == b[j - a.len()]);
        }
    }
    assert forall|i: int| 0 <= i < all.len() implies calm((#[trigger] all[i]).1, d, exact) by {
        if i < a.len() {
            assert(all[i] == a[i]);
        } else {
            assert(all[i] == b[i - a.len()]);
        }
    }
}

/// An object of tidy entries.
pub proof fn lemma_calm_object(m: Seq<(Seq<char>, JsonView)>, d: nat, exact: bool)
    requires
        d > 0,
        tidy(m, (d - 1) as nat, exact),
    ensures
        calm(JsonView::Object(m), d, exact),
{
    let v = JsonView::Object(m);
    assert(v->Object_0 == m);
}

/// The values that the first `n` of some JSON values stand for.
pub open spec fn list_in<T: Stored>(a: Seq<JsonView>, n: int) -> Option<Seq<T::V>>
    decreases n,
{
    if n <= 0 {
        Some(Seq::empty())
    } else {
        match (list_in::<T>(a, n - 1), T::read_in(a[n - 1])) {
            (Some(s), Some(v)) => Some(s.push(v)),
            _ => None,
        }
    }
}

/// A list.
pub open spec fn items_in<T: Stored>(j: Option<JsonView>) -> Option<Seq<T::V>> {
    match j {
        Some(JsonView::Array(a)) => list_in::<T>(a, a.len() as int),
        _ => None,
    }
}

/// A list; an absent one is empty.
pub open spec fn items_or_none<T: Stored>(j: Option<JsonView>) -> Option<Seq<T::V>> {
    match j {
        None => Some(Seq::empty()),
        _ => items_in::<T>(j),
    }
}

pub open spec fn items_written<T: Stored>(s: Seq<T::V>) -> JsonView {
    JsonView::Array(Seq::new(s.len(), |i: int| T::written(s[i])))
}

pub open spec fn all_storable<T: Stored>(s: Seq<T::V>) -> bool {
    forall|i: int| 0 <= i < s.len() ==> T::storable(#[trigger] s[i])
}

pub open spec fn all_modest<T: Stored>(s: Seq<T::V>) -> bool {
    forall|i: int| 0 <= i < s.len() ==> T::modest(#[trigger] s[i])
}

pub proof fn lemma_items_calm<T: Stored>(s: Seq<T::V>, d: nat, exact: bool)
    requires
        all_storable::<T>(s),
        exact ==> all_modest::<T>(s),
        d > T::levels(),
    ensures
        calm(items_written::<T>(s), d, exact),
{
    let v = items_written::<T>(s);
    let a = v->Array_0;
    assert forall|i: int| 0 <= i < a.len() implies calm(#[trigger] a[i], (d - 1) as nat, exact) by {
        T::lemma_calm(s[i], (d - 1) as nat, exact);
    }
}

proof fn lemma_list_none<T: Stored>(a: Seq<JsonView>, k: int, n: int)
    requires
        0 <= k <= n,
        list_in::<T>(a, k) is None,
    ensures
        list_in::<T>(a, n) is None,
    decreases n,
{
    if k < n {
        lemma_list_none::<T>(a, k, n - 1);
    }
}

pub fn get_items<T: Stored>(j: Option<&Json>) -> (r: Option<Vec<T>>)
    ensures
        match r {
            Some(v) => items_in::<T>(seen(j)) == Some(views(v@)),
            None => items_in::<T>(seen(j)) is None,
        },
{
    match j {
        Some(Json::Array(v)) => {
            proof {
                lemma_array(*v);
            }
            let ghost a = views(v@);
            let mut out: Vec<T> = Vec::new();
            let mut i: usize = 0;
            assert(views(out@) =~= Seq::empty());
            while i < v.len()
                invariant
                    i <= v.len(),
                    a == views(v@),
                    list_in::<T>(a, i as int) == Some(views(out@)),
                    seen(j) == Some(JsonView::Array(a)),
                decreases v.len() - i,
            {
                assert(a[i as int] == v@[i as int]@);
                match T::read(&v[i]) {
                    Some(x) => {
                        out.push(x);
                    },
                    None => {
                        proof {
                            lemma_list_none::<T>(a, i + 1, a.len() as int);
                        }
                        return None;
                    },
                }
                i += 1;
            }
            Some(out)
        },
        _ => None,
    }
}

pub fn get_items_or_none<T: Stored>(j: Option<&Json>) -> (r: Option<Vec<T>>)
    ensures
        match r {
            Some(v) => items_or_none::<T>(seen(j)) == Some(views(v@)),
            None => items_or_none::<T>(seen(j)) is None,
        },
{
    match j {
        None => {
            let v: Vec<T> = Vec::new();
            assert(views(v@) =~= Seq::empty());
            Some(v)
        },
        _ => get_items(j),
    }
}

pub fn items_json<T: Stored>(v: &Vec<T>) -> (r: Json)
    ensures
        r@ == items_written::<T>(views(v@)),
{
    let ghost all = views(v@);
    let ghost wanted = Seq::new(all.len(), |i: int| T::written(all[i]));
    let mut out: Vec<Json> = Vec::new();
    let mut i: usize = 0;
    while i < v.len()
        invariant
            i <= v.len(),
            all == views(v@),
            wanted == Seq::new(all.len(), |i: int| T::written(all[i])),
            views(out@) == wanted.take(i as int),
        decreases v.len() - i,
    {
        assert(all[i as int] == v@[i as int]@);
        let ghost was = views(out@);
        let x: Json = v[i].write();
        out.push(x);
        assert(views(out@) =~= was.push(x@));
        assert(views(out@) =~= wanted.take(i + 1));
        i += 1;
    }
    assert(views(out@) =~= wanted);
    proof {
        lemma_array(out);
    }
    Json::Array(out)
}

proof fn lemma_list_back<T: Stored>(s: Seq<T::V>, n: int)
    requires
        0 <= n <= s.len(),
        all_storable::<T>(s),
    ensures
        list_in::<T>(Seq::new(s.len(), |i: int| T::written(s[i])), n) == Some(s.take(n)),
    decreases n,
{
    if n > 0 {
        lemma_list_back::<T>(s, n - 1);
        T::lemma_calm(s[n - 1], T::levels(), false);
        T::lemma_read_back(s[n - 1]);
        assert(s.take(n - 1).push(s[n - 1]) =~= s.take(n));
    } else {
        assert(s.take(n) =~= Seq::empty());
    }
}

pub proof fn lemma_items_back<T: Stored>(s: Seq<T::V>)
    requires
        all_storable::<T>(s),
    ensures
        items_in::<T>(Some(items_written::<T>(s))) == Some(s),
        items_or_none::<T>(Some(items_written::<T>(s))) == Some(s),
{
    lemma_list_back::<T>(s, s.len() as int);
    assert(s.take(s.len() as int) =~= s);
}

proof fn lemma_list_storable<T: Stored>(a: Seq<JsonView>, n: int)
    requires
        list_in::<T>(a, n) is Some,
    ensures
        all_storable::<T>(list_in::<T>(a, n)->0),
    decreases n,
{
    if n > 0 {
        lemma_list_storable::<T>(a, n - 1);
        T::lemma_read_storable(a[n - 1]);
    }
}

pub proof fn lemma_items_storable<T: Stored>(j: Option<JsonView>)
    ensures
        items_in::<T>(j) is Some ==> all_storable::<T>(items_in::<T>(j)->0),
        items_or_none::<T>(j) is Some ==> all_storable::<T>(items_or_none::<T>(j)->0),
{
    match j {
        Some(JsonView::Array(a)) => {
            if list_in::<T>(a, a.len() as int) is Some {
                lemma_list_storable::<T>(a, a.len() as int);
            }
        },
        _ => {},
    }
}

pub broadcast proof fn lemma_steady_field(j: JsonView, key: Seq<char>, i: int)
    requires
        steady(j),
        field(j, key, i) is Some,
    ensures
        steady((#[trigger] field(j, key, i))->0),
{
    if let JsonView::Object(m) = j {
        lemma_entry_there(m, key);
    }
}

proof fn lemma_entry_there(m: Seq<(Seq<char>, JsonView)>, key: Seq<char>)
    requires
        entry(m, key) is Some,
    ensures
        exists|i: int| 0 <= i < m.len() && (#[trigger] m[i]).1 == entry(m, key)->0,
    decreases m.len(),
{
    if m[0].0 != key {
        let rest = m.skip(1);
        lemma_entry_there(rest, key);
        let i = choose|i: int| 0 <= i < rest.len() && (#[trigger] rest[i]).1 == entry(rest, key)->0;
        assert(m[i + 1] == rest[i]);
    } else {
        assert(m[0].1 == entry(m, key)->0);
    }
}

proof fn lemma_list_modest<T: Stored>(a: Seq<JsonView>, n: int)
    requires
        0 <= n <= a.len(),
        list_in::<T>(a, n) is Some,
        forall|i: int| 0 <= i < a.len() ==> steady(#[trigger] a[i]),
    ensures
        all_modest::<T>(list_in::<T>(a, n)->0),
    decreases n,
{
    if n > 0 {
        lemma_list_modest::<T>(a, n - 1);
        T::lemma_read_modest(a[n - 1]);
    }
}

pub proof fn lemma_items_modest<T: Stored>(j: Option<JsonView>)
    requires
        j is Some ==> steady(j->0),
    ensures
        items_in::<T>(j) is Some ==> all_modest::<T>(items_in::<T>(j)->0),
        items_or_none::<T>(j) is Some ==> all_modest::<T>(items_or_none::<T>(j)->0),
{
    match j {
        Some(JsonView::Array(a)) => {
            if list_in::<T>(a, a.len() as int) is Some {
                lemma_list_modest::<T>(a, a.len() as int);
            }
        },
        _ => {},
    }
}

/// The entries have the same keys and values near to each other.
pub open spec fn near_list(m: Seq<(Seq<char>, JsonView)>, n: Seq<(Seq<char>, JsonView)>) -> bool {
    m.len() == n.len() && forall|i: int|
        0 <= i < m.len() ==> (#[trigger] m[i]).0 == n[i].0 && near(m[i].1, n[i].1)
}

pub proof fn lemma_near_object(m: Seq<(Seq<char>, JsonView)>, w: JsonView) -> (n: Seq<
    (Seq<char>, JsonView),
>)
    requires
        near(JsonView::Object(m), w),
    ensures
        w == JsonView::Object(n),
        near_list(m, n),
{
    w->Object_0
}

pub proof fn lemma_near_none(n: Seq<(Seq<char>, JsonView)>)
    requires
        near_list(none(), n),
    ensures
        n == none(),
{
    assert(n =~= none());
}

pub proof fn lemma_near_concat(
    a: Seq<(Seq<char>, JsonView)>,
    b: Seq<(Seq<char>, JsonView)>,
    n: Seq<(Seq<char>, JsonView)>,
) -> (r: (Seq<(Seq<char>, JsonView)>, Seq<(Seq<char>, JsonView)>))
    requires
        near_list(a + b, n),
    ensures
        n == r.0 + r.1,
        near_list(a, r.0),
        near_list(b, r.1),
{
    let all = a + b;
    let k = a.len() as int;
    let (p, q) = (n.take(k), n.skip(k));
    assert(n =~= p + q);
    assert forall|i: int| 0 <= i < a.len() implies (#[trigger] a[i]).0 == p[i].0 && near(
        a[i].1,
        p[i].1,
    ) by {
        assert(all[i] == a[i]);
    }
    assert forall|i: int| 0 <= i < b.len() implies (#[trigger] b[i]).0 == q[i].0 && near(
        b[i].1,
        q[i].1,
    ) by {
        assert(all[k + i] == b[i]);
    }
    (p, q)
}

pub proof fn lemma_near_one(
    m: Seq<(Seq<char>, JsonView)>,
    key: Seq<char>,
    v: JsonView,
    n: Seq<(Seq<char>, JsonView)>,
) -> (r: (Seq<(Seq<char>, JsonView)>, JsonView))
    requires
        near_list(m + one(key, v), n),
    ensures
        n == r.0 + one(key, r.1),
        near_list(m, r.0),
        near(v, r.1),
{
    let (p, q) = lemma_near_concat(m, one(key, v), n);
    assert(one(key, v)[0] == (key, v));
    assert(q =~= one(key, q[0].1));
    (p, q[0].1)
}

pub proof fn lemma_near_maybe(
    m: Seq<(Seq<char>, JsonView)>,
    there: bool,
    key: Seq<char>,
    v: JsonView,
    n: Seq<(Seq<char>, JsonView)>,
) -> (r: (Seq<(Seq<char>, JsonView)>, JsonView))
    requires
        near_list(m + maybe(there, key, v), n),
    ensures
        n == r.0 + maybe(there, key, r.1),
        near_list(m, r.0),
        there ==> near(v, r.1),
{
    if there {
        lemma_near_one(m, key, v, n)
    } else {
        assert(m + Seq::empty() =~= m);
        assert(n + Seq::empty() =~= n);
        (n, v)
    }
}

pub proof fn lemma_near_number(x: int, w: JsonView) -> (y: int)
    requires
        in_range(x),
        near(JsonView::Number(number(x)), w),
    ensures
        in_range(y),
        -15 <= x - y <= 15,
        short(x) ==> x == y,
        w == JsonView::Number(number(y)),
{
    let s = number(x);
    let t = w->Number_0;
    assert(noted(s));
    if short(x) {
        assert(plain(s));
        x
    } else {
        let (a, b) = choose|a: int, b: int|
            -LIMIT <= a <= LIMIT && -LIMIT <= b <= LIMIT && -15 <= a - b <= 15 && s
                == #[trigger] number(a) && t == #[trigger] number(b);
        law_number(x);
        law_number(a);
        b
    }
}

pub proof fn lemma_near_integer(n: int, w: JsonView)
    requires
        i64::MIN <= n <= u64::MAX,
        near(JsonView::Number(integer(n)), w),
    ensures
        w == JsonView::Number(integer(n)),
{
    assert(plain(integer(n)));
}

pub proof fn lemma_near_items<T: Stored>(s: Seq<T::V>, w: JsonView) -> (q: Seq<T::V>)
    requires
        all_storable::<T>(s),
        near(items_written::<T>(s), w),
    ensures
        all_storable::<T>(q),
        items_written::<T>(q) == w,
        q.len() == s.len(),
{
    let a = items_written::<T>(s)->Array_0;
    let b = w->Array_0;
    let q = Seq::new(s.len(), |i: int| choose|x: T::V| T::storable(x) && T::written(x) == b[i]);
    assert forall|i: int| 0 <= i < s.len() implies T::storable(#[trigger] q[i]) && T::written(q[i])
        == b[i] by {
        assert(near(a[i], b[i]));
        let x = T::lemma_near(s[i], b[i]);
        assert(T::storable(x) && T::written(x) == b[i]);
    }
    assert(items_written::<T>(q)->Array_0 =~= b);
    q
}

pub proof fn lemma_near_map<T: Stored>(s: Seq<(Seq<char>, T::V)>, w: JsonView) -> (q: Seq<
    (Seq<char>, T::V),
>)
    requires
        map_storable::<T>(s),
        near(map_written::<T>(s), w),
    ensures
        map_storable::<T>(q),
        map_written::<T>(q) == w,
{
    let m = map_written::<T>(s)->Object_0;
    let n = w->Object_0;
    let q = Seq::new(
        s.len(),
        |i: int| (s[i].0, choose|x: T::V| T::storable(x) && T::written(x) == n[i].1),
    );
    assert forall|i: int| 0 <= i < s.len() implies T::storable((#[trigger] q[i]).1) && T::written(
        q[i].1,
    ) == n[i].1 && n[i].0 == q[i].0 by {
        assert(m[i].0 == n[i].0 && near(m[i].1, n[i].1));
        assert(T::storable(s[i].1));
        let x = T::lemma_near(s[i].1, n[i].1);
        assert(T::storable(x) && T::written(x) == n[i].1);
    }
    assert forall|i: int, j: int| 0 <= i < j < q.len() implies text_lt(
        #[trigger] q[i].0,
        #[trigger] q[j].0,
    ) by {
        assert(text_lt(s[i].0, s[j].0));
    }
    assert(map_written::<T>(q)->Object_0 =~= n);
    q
}

/// The map that the first `n` entries of an object stand for; of two entries
/// with one key the later counts.
pub open spec fn map_upto<T: Stored>(m: Seq<(Seq<char>, JsonView)>, n: int) -> Option<
    Seq<(Seq<char>, T::V)>,
>
    decreases n,
{
    if n <= 0 {
        Some(Seq::empty())
    } else {
        match (map_upto::<T>(m, n - 1), T::read_in(m[n - 1].1)) {
            (Some(s), Some(v)) => Some(stored(s, m[n - 1].0, v)),
            _ => None,
        }
    }
}

/// A map; an absent one is empty.
pub open spec fn map_in<T: Stored>(j: Option<JsonView>) -> Option<Seq<(Seq<char>, T::V)>> {
    match j {
        None => Some(Seq::empty()),
        Some(JsonView::Object(m)) => map_upto::<T>(m, m.len() as int),
        _ => None,
    }
}

pub open spec fn map_written<T: Stored>(s: Seq<(Seq<char>, T::V)>) -> JsonView {
    JsonView::Object(Seq::new(s.len(), |i: int| (s[i].0, T::written(s[i].1))))
}

pub open spec fn map_storable<T: Stored>(s: Seq<(Seq<char>, T::V)>) -> bool {
    &&& sorted_keys(s)
    &&& forall|i: int| 0 <= i < s.len() ==> T::storable((#[trigger] s[i]).1)
}

pub open spec fn map_modest<T: Stored>(s: Seq<(Seq<char>, T::V)>) -> bool {
    forall|i: int| 0 <= i < s.len() ==> T::modest((#[trigger] s[i]).1)
}

pub proof fn lemma_map_calm<T: Stored>(s: Seq<(Seq<char>, T::V)>, d: nat, exact: bool)
    requires
        map_storable::<T>(s),
        exact ==> map_modest::<T>(s),
        d > T::levels(),
    ensures
        calm(map_written::<T>(s), d, exact),
{
    let m = map_written::<T>(s)->Object_0;
    assert forall|i: int| 0 <= i < m.len() implies calm(
        (#[trigger] m[i]).1,
        (d - 1) as nat,
        exact,
    ) by {
        T::lemma_calm(s[i].1, (d - 1) as nat, exact);
    }
    assert forall|i: int, j: int| 0 <= i < j < m.len() implies (#[trigger] m[i]).0 != (#[trigger]
    m[j]).0 by {
        assert(text_lt(s[i].0, s[j].0));
        crate::text::lemma_text_lt_irreflexive(s[i].0);
    }
    lemma_calm_object(m, d, exact);
}

proof fn lemma_map_none<T: Stored>(m: Seq<(Seq<char>, JsonView)>, k: int, n: int)
    requires
        0 <= k <= n,
        map_upto::<T>(m, k) is None,
    ensures
        map_upto::<T>(m, n) is None,
    decreases n,
{
    if k < n {
        lemma_map_none::<T>(m, k, n - 1);
    }
}

pub fn get_map<T: Stored>(j: Option<&Json>) -> (r: Option<TextMap<T>>)
    ensures
        match r {
            Some(v) => map_in::<T>(seen(j)) == Some(v@) && v.ordered(),
            None => map_in::<T>(seen(j)) is None,
        },
{
    let mut out: TextMap<T> = TextMap::new();
    match j {
        None => Some(out),
        Some(Json::Object(v)) => {
            proof {
                lemma_object(*v);
            }
            let ghost m = views(v@);
            let mut i: usize = 0;
            while i < v.len()
                invariant
                    i <= v.len(),
                    m == views(v@),
                    map_upto::<T>(m, i as int) == Some(out@),
                    out.ordered(),
                    seen(j) == Some(JsonView::Object(m)),
                decreases v.len() - i,
            {
                assert(m[i as int] == v@[i as int]@);
                match T::read(&v[i].1) {
                    Some(x) => {
                        out.insert(v[i].0.clone(), x);
                    },
                    None => {
                        proof {
                            lemma_map_none::<T>(m, i + 1, m.len() as int);
                        }
                        return None;
                    },
                }
                i += 1;
            }
            Some(out)
        },
        _ => None,
    }
}

pub fn map_json<T: Stored>(m: &TextMap<T>) -> (r: Json)
    ensures
        r@ == map_written::<T>(m@),
{
    let ghost all = m@;
    let ghost wanted = Seq::new(all.len(), |i: int| (all[i].0, T::written(all[i].1)));
    let mut out: Vec<(String, Json)> = Vec::new();
    let mut i: usize = 0;
    while i < m.entries.len()
        invariant
            i <= m.entries.len(),
            all == m@,
            wanted == Seq::new(all.len(), |i: int| (all[i].0, T::written(all[i].1))),
            views(out@) == wanted.take(i as int),
        decreases m.entries.len() - i,
    {
        assert(all[i as int] == m.entries@[i as int]@);
        let x: Json = m.entries[i].1.write();
        let ghost was = views(out@);
        put(&mut out, m.entries[i].0.as_str(), x);
        assert(views(out@) =~= was.push(wanted[i as int]));
        assert(views(out@) =~= wanted.take(i + 1));
        i += 1;
    }
    assert(views(out@) =~= wanted);
    proof {
        lemma_object(out);
    }
    Json::Object(out)
}

/// A key behind all others is stored at the end.
proof fn lemma_stored_last<V>(m: Seq<(Seq<char>, V)>, key: Seq<char>, v: V)
    requires
        forall|i: int| 0 <= i < m.len() ==> text_lt((#[trigger] m[i]).0, key),
    ensures
        stored(m, key, v) == m.push((key, v)),
    decreases m.len(),
{
    if m.len() == 0 {
        assert(stored(m, key, v) =~= m.push((key, v)));
    } else {
        assert(text_lt(m[0].0, key));
        assert forall|i: int| 0 <= i < m.skip(1).len() implies text_lt(
            (#[trigger] m.skip(1)[i]).0,
            key,
        ) by {
            assert(text_lt(m[i + 1].0, key));
        }
        lemma_stored_last(m.skip(1), key, v);
        lemma_lt_asymmetric(m[0].0, key);
        assert(stored(m, key, v) =~= m.push((key, v)));
    }
}

proof fn lemma_lt_asymmetric(a: Seq<char>, b: Seq<char>)
    requires
        text_lt(a, b),
    ensures
        !text_lt(b, a),
        a != b,
{
    crate::text::lemma_text_lt_irreflexive(a);
    if text_lt(b, a) {
        crate::text::lemma_text_lt_transitive(a, b, a);
    }
}

proof fn lemma_map_back_upto<T: Stored>(s: Seq<(Seq<char>, T::V)>, n: int)
    requires
        0 <= n <= s.len(),
        map_storable::<T>(s),
    ensures
        map_upto::<T>(Seq::new(s.len(), |i: int| (s[i].0, T::written(s[i].1))), n) == Some(
            s.take(n),
        ),
    decreases n,
{
    if n > 0 {
        lemma_map_back_upto::<T>(s, n - 1);
        assert(T::storable(s[n - 1].1));
        T::lemma_calm(s[n - 1].1, T::levels(), false);
        T::lemma_read_back(s[n - 1].1);
        let before = s.take(n - 1);
        assert forall|i: int| 0 <= i < before.len() implies text_lt(
            (#[trigger] before[i]).0,
            s[n - 1].0,
        ) by {
            assert(text_lt(s[i].0, s[n - 1].0));
        }
        lemma_stored_last(before, s[n - 1].0, s[n - 1].1);
        assert(before.push(s[n - 1]) =~= s.take(n));
    } else {
        assert(s.take(n) =~= Seq::empty());
    }
}

pub proof fn lemma_map_back<T: Stored>(s: Seq<(Seq<char>, T::V)>)
    requires
        map_storable::<T>(s),
    ensures
        map_in::<T>(Some(map_written::<T>(s))) == Some(s),
{
    lemma_map_back_upto::<T>(s, s.len() as int);
    assert(s.take(s.len() as int) =~= s);
}

proof fn lemma_map_storable_upto<T: Stored>(m: Seq<(Seq<char>, JsonView)>, n: int)
    requires
        map_upto::<T>(m, n) is Some,
    ensures
        map_storable::<T>(map_upto::<T>(m, n)->0),
    decreases n,
{
    if n > 0 {
        lemma_map_storable_upto::<T>(m, n - 1);
        T::lemma_read_storable(m[n - 1].1);
        let before = map_upto::<T>(m, n - 1)->0;
        let v = T::read_in(m[n - 1].1)->0;
        let key = m[n - 1].0;
        let after = stored(before, key, v);
        crate::textmap::law_stored_sorted(before, key, v);
        crate::textmap::law_stored_lookup(before, key, v, key);
        lemma_stored_values(before, key, v);
        assert forall|i: int| 0 <= i < after.len() implies T::storable((#[trigger] after[i]).1) by {
            if after[i] != (key, v) {
                let k = choose|k: int| 0 <= k < before.len() && before[k] == after[i];
                assert(T::storable(before[k].1));
            }
        }
    }
}

proof fn lemma_map_modest_upto<T: Stored>(m: Seq<(Seq<char>, JsonView)>, n: int)
    requires
        0 <= n <= m.len(),
        map_upto::<T>(m, n) is Some,
        forall|i: int| 0 <= i < m.len() ==> steady((#[trigger] m[i]).1),
    ensures
        map_modest::<T>(map_upto::<T>(m, n)->0),
    decreases n,
{
    if n > 0 {
        lemma_map_modest_upto::<T>(m, n - 1);
        T::lemma_read_modest(m[n - 1].1);
        let before = map_upto::<T>(m, n - 1)->0;
        let v = T::read_in(m[n - 1].1)->0;
        let key = m[n - 1].0;
        let after = stored(before, key, v);
        lemma_stored_values(before, key, v);
        assert forall|i: int| 0 <= i < after.len() implies T::modest((#[trigger] after[i]).1) by {
            if after[i] != (key, v) {
                let k = choose|k: int| 0 <= k < before.len() && before[k] == after[i];
                assert(T::modest(before[k].1));
            }
        }
    }
}

pub proof fn lemma_stored_values<V>(m: Seq<(Seq<char>, V)>, key: Seq<char>, v: V)
    ensures
        forall|i: int|
            0 <= i < stored(m, key, v).len() ==> #[trigger] stored(m, key, v)[i] == (key, v)
                || exists|k: int| 0 <= k < m.len() && m[k] == stored(m, key, v)[i],
    decreases m.len(),
{
    let s = stored(m, key, v);
    if m.len() > 0 && m[0].0 != key && !text_lt(key, m[0].0) {
        let rest = m.skip(1);
        lemma_stored_values(rest, key, v);
        assert forall|i: int| 0 <= i < s.len() implies #[trigger] s[i] == (key, v) || exists|k: int|
            0 <= k < m.len() && m[k] == s[i] by {
            if i == 0 {
                assert(m[0] == s[0]);
            } else {
                assert(s[i] == stored(rest, key, v)[i - 1]);
                if s[i] != (key, v) {
                    let k = choose|k: int| 0 <= k < rest.len() && rest[k] == s[i];
                    assert(m[k + 1] == s[i]);
                }
            }
        }
    } else if m.len() > 0 && m[0].0 != key {
        assert forall|i: int| 0 <= i < s.len() implies #[trigger] s[i] == (key, v) || exists|k: int|
            0 <= k < m.len() && m[k] == s[i] by {
            if i > 0 {
                assert(m[i - 1] == s[i]);
            }
        }
    } else if m.len() > 0 {
        assert forall|i: int| 0 <= i < s.len() implies #[trigger] s[i] == (key, v) || exists|k: int|
            0 <= k < m.len() && m[k] == s[i] by {
            if i > 0 {
                assert(m[i] == s[i]);
            }
        }
    }
}

pub proof fn lemma_map_storable<T: Stored>(j: Option<JsonView>)
    ensures
        map_in::<T>(j) is Some ==> map_storable::<T>(map_in::<T>(j)->0),
{
    match j {
        Some(JsonView::Object(m)) => {
            if map_upto::<T>(m, m.len() as int) is Some {
                lemma_map_storable_upto::<T>(m, m.len() as int);
            }
        },
        _ => {},
    }
}

pub proof fn lemma_map_modest<T: Stored>(j: Option<JsonView>)
    requires
        j is Some ==> steady(j->0),
    ensures
        map_in::<T>(j) is Some ==> map_modest::<T>(map_in::<T>(j)->0),
{
    match j {
        Some(JsonView::Object(m)) => {
            if map_upto::<T>(m, m.len() as int) is Some {
                lemma_map_modest_upto::<T>(m, m.len() as int);
            }
        },
        _ => {},
    }
}

impl Stored for String {
    open spec fn read_in(j: JsonView) -> Option<Seq<char>> {
        text_in(Some(j))
    }

    open spec fn written(v: Seq<char>) -> JsonView {
        JsonView::Text(v)
    }

    open spec fn storable(v: Seq<char>) -> bool {
        true
    }

    fn read(j: &Json) -> (r: Option<String>) {
        get_text(Some(j))
    }

    fn write(&self) -> (r: Json) {
        text_json(self.as_str())
    }

    proof fn lemma_read_back(v: Seq<char>) {
    }

    proof fn lemma_read_storable(j: JsonView) {
    }

    open spec fn modest(v: Seq<char>) -> bool {
        true
    }

    proof fn lemma_read_modest(j: JsonView) {
    }

    proof fn lemma_near(v: Seq<char>, w: JsonView) -> (q: Seq<char>) {
        v
    }

    open spec fn levels() -> nat {
        0
    }

    proof fn lemma_calm(v: Seq<char>, d: nat, exact: bool) {
    }
}

} // verus!
