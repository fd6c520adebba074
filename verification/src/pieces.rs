//! The parts of a JSON text: the items of an array and the members of an
//! object, each as the text it was given in.

use vstd::prelude::*;
use crate::json::{json_level, parse_level, Level, LevelView};
use crate::text::{chars_of, text_of};
use crate::views::views;
use crate::words::{joined_by, trim, trimmed};

verus! {

broadcast use crate::views::group_views;

/// Where a scan of a JSON text stands: how many brackets are open, whether it
/// is inside a string, and whether a backslash stands before the next
/// character.
pub struct Scan {
    pub depth: int,
    pub quoted: bool,
    pub escaped: bool,
}

/// Outside of all brackets and strings.
pub open spec fn outside() -> Scan {
    Scan { depth: 0, quoted: false, escaped: false }
}

/// Where a scan stands after one more character.
pub open spec fn step(s: Scan, c: char) -> Scan {
    if s.quoted {
        if s.escaped {
            Scan { escaped: false, ..s }
        } else if c == '\\' {
            Scan { escaped: true, ..s }
        } else if c == '"' {
            Scan { quoted: false, ..s }
        } else {
            s
        }
    } else if c == '"' {
        Scan { quoted: true, ..s }
    } else if c == '[' || c == '{' {
        Scan { depth: s.depth + 1, ..s }
    } else if c == ']' || c == '}' {
        Scan { depth: s.depth - 1, ..s }
    } else {
        s
    }
}

/// Index of the first mark, from `i` on, that stands outside of brackets and
/// strings; the length if there is none.
pub open spec fn cut(t: Seq<char>, mark: char, i: int, s: Scan) -> int
    decreases t.len() - i,
{
    if i >= t.len() {
        t.len() as int
    } else if t[i] == mark && s.depth == 0 && !s.quoted {
        i
    } else {
        cut(t, mark, i + 1, step(s, t[i]))
    }
}

/// The parts of a text between its commas outside of brackets and strings.
pub open spec fn pieces(t: Seq<char>) -> Seq<Seq<char>>
    decreases t.len(),
{
    let e = cut(t, ',', 0, outside());
    if 0 <= e < t.len() {
        seq![t.take(e)] + pieces(t.skip(e + 1))
    } else {
        seq![t]
    }
}

/// What stands between the brackets of an array or object.
pub open spec fn inside(text: Seq<char>) -> Seq<char> {
    let t = trimmed(text);
    if t.len() < 2 {
        Seq::empty()
    } else {
        t.subrange(1, t.len() - 1)
    }
}

/// The texts of the items of an array, or of the members of an object.
pub open spec fn parts(text: Seq<char>) -> Seq<Seq<char>> {
    if trimmed(inside(text)).len() == 0 {
        Seq::empty()
    } else {
        pieces(inside(text))
    }
}

/// The key that a string in JSON's notation denotes.
pub open spec fn key_in(text: Seq<char>) -> Seq<char> {
    match json_level(text) {
        Some(LevelView::Text(s)) => s,
        _ => Seq::empty(),
    }
}

/// The key of a member and the text of its value.
pub open spec fn member(t: Seq<char>) -> (Seq<char>, Seq<char>) {
    let e = cut(t, ':', 0, outside());
    if 0 <= e < t.len() {
        (key_in(t.take(e)), t.skip(e + 1))
    } else {
        (Seq::empty(), t)
    }
}

/// The members of an object in their order, also those whose key occurs twice.
pub open spec fn members(text: Seq<char>) -> Seq<(Seq<char>, Seq<char>)> {
    Seq::new(parts(text).len(), |i: int| member(parts(text)[i]))
}

/// The outermost level of the value that a text denotes, its parts in the
/// texts they were given in; `None` for a text that is no JSON.
pub open spec fn raw_level(text: Seq<char>) -> Option<LevelView> {
    match json_level(text) {
        Some(LevelView::Array(_)) => Some(LevelView::Array(parts(text))),
        Some(LevelView::Object(_)) => Some(LevelView::Object(members(text))),
        l => l,
    }
}

fn find_cut(v: &Vec<char>, from: usize, to: usize, mark: char) -> (r: usize)
    requires
        from <= to <= v.len(),
    ensures
        from <= r <= to,
        r == from + cut(v@.subrange(from as int, to as int), mark, 0, outside()),
{
    let ghost t = v@.subrange(from as int, to as int);
    let mut i: usize = from;
    let mut depth: i128 = 0;
    let mut quoted: bool = false;
    let mut escaped: bool = false;
    while i < to
        invariant
            from <= i <= to <= v.len(),
            t == v@.subrange(from as int, to as int),
            -(i - from) <= depth <= i - from,
            cut(t, mark, 0, outside()) == cut(
                t,
                mark,
                i - from,
                Scan { depth: depth as int, quoted, escaped },
            ),
        decreases to - i,
    {
        let c: char = v[i];
        assert(t[i - from] == c);
        if c == mark && depth == 0 && !quoted {
            return i;
        }
        if quoted {
            if escaped {
                escaped = false;
            } else if c == '\\' {
                escaped = true;
            } else if c == '"' {
                quoted = false;
            }
        } else if c == '"' {
            quoted = true;
        } else if c == '[' || c == '{' {
            depth = depth + 1;
        } else if c == ']' || c == '}' {
            depth = depth - 1;
        }
        i += 1;
    }
    i
}

/// The texts of the items of an array, or of the members of an object.
pub fn split_parts(text: &str) -> (r: Vec<String>)
    ensures
        views(r@) == parts(text@),
{
    let mut out: Vec<String> = Vec::new();
    let v: Vec<char> = chars_of(trim(text).as_str());
    assert(views(out@) =~= Seq::empty());
    if v.len() < 2 {
        return out;
    }
    let end: usize = v.len() - 1;
    let inner: String = text_of(&v, 1, end);
    let ghost all = inside(text@);
    assert(inner@ == all);
    if trim(inner.as_str()).as_str().is_empty() {
        return out;
    }
    let mut from: usize = 1;
    assert(all.skip(0) =~= all);
    assert(views(out@) + pieces(all) =~= pieces(all));
    loop
        invariant_except_break
            1 <= from <= end < v.len(),
            all == v@.subrange(1, end as int),
            views(out@) + pieces(all.skip(from - 1)) == pieces(all),
        ensures
            views(out@) == pieces(all),
        decreases end - from,
    {
        let e: usize = find_cut(&v, from, end, ',');
        let ghost rest = all.skip(from - 1);
        let ghost was = views(out@);
        assert(rest =~= v@.subrange(from as int, end as int));
        let piece: String = text_of(&v, from, e);
        out.push(piece);
        assert(views(out@) =~= was.push(piece@));
        if e < end {
            assert(piece@ =~= rest.take(e - from));
            assert(rest.skip(e - from + 1) =~= all.skip(e as int));
            assert(was + (seq![piece@] + pieces(all.skip(e as int))) =~= was.push(piece@) + pieces(
                all.skip(e as int),
            ));
            from = e + 1;
        } else {
            assert(piece@ =~= rest);
            assert(was + seq![rest] =~= was.push(piece@));
            break;
        }
    }
    out
}

fn read_member(text: &str) -> (r: (String, String))
    ensures
        (r.0@, r.1@) == member(text@),
{
    let v: Vec<char> = chars_of(text);
    let e: usize = find_cut(&v, 0, v.len(), ':');
    assert(v@.subrange(0, v@.len() as int) =~= text@);
    if e < v.len() {
        let head: String = text_of(&v, 0, e);
        let tail: String = text_of(&v, e + 1, v.len());
        assert(head@ =~= text@.take(e as int));
        assert(tail@ =~= text@.skip(e + 1));
        match parse_level(head.as_str()) {
            Ok(Level::Text(key)) => (key, tail),
            _ => {
                let none: String = String::new();
                assert(none@ =~= Seq::empty());
                (none, tail)
            },
        }
    } else {
        let none: String = String::new();
        assert(none@ =~= Seq::empty());
        (none, text.to_owned())
    }
}

/// The members of an object in their order, also those whose key occurs twice.
pub fn split_members(text: &str) -> (r: Vec<(String, String)>)
    ensures
        views(r@) == members(text@),
{
    let all: Vec<String> = split_parts(text);
    let mut out: Vec<(String, String)> = Vec::new();
    let mut i: usize = 0;
    assert(views(out@) =~= members(text@).take(0));
    while i < all.len()
        invariant
            i <= all.len(),
            views(all@) == parts(text@),
            views(out@) == members(text@).take(i as int),
        decreases all.len() - i,
    {
        let m: (String, String) = read_member(all[i].as_str());
        let ghost was = views(out@);
        proof {
            assert(all@[i as int]@ == parts(text@)[i as int]);
            assert(m@ == members(text@)[i as int]);
        }
        out.push(m);
        assert(views(out@) =~= was.push(m@));
        assert(members(text@).take(i + 1) =~= members(text@).take(i as int).push(m@));
        i += 1;
    }
    assert(members(text@).take(members(text@).len() as int) =~= members(text@));
    out
}

proof fn lemma_cut(t: Seq<char>, mark: char, i: int, s: Scan)
    requires
        0 <= i <= t.len(),
    ensures
        i <= cut(t, mark, i, s) <= t.len(),
        cut(t, mark, i, s) < t.len() ==> t[cut(t, mark, i, s)] == mark,
    decreases t.len() - i,
{
    if i < t.len() && !(t[i] == mark && s.depth == 0 && !s.quoted) {
        lemma_cut(t, mark, i + 1, step(s, t[i]));
    }
}

proof fn lemma_joined_first(a: Seq<char>, rest: Seq<Seq<char>>)
    requires
        rest.len() > 0,
    ensures
        joined_by(seq![a] + rest, ',') == a.push(',') + joined_by(rest, ','),
    decreases rest.len(),
{
    let all = seq![a] + rest;
    if rest.len() == 1 {
        assert(all.drop_last() =~= seq![a]);
        assert(all.last() == rest[0]);
        assert(joined_by(seq![a], ',') == a);
    } else {
        lemma_joined_first(a, rest.drop_last());
        assert(all.drop_last() =~= seq![a] + rest.drop_last());
        assert(all.last() == rest.last());
        assert(joined_by(all, ',') =~= a.push(',') + joined_by(rest, ','));
    }
}

/// The parts of a text, joined by commas, are the text again.
pub proof fn law_pieces(t: Seq<char>)
    ensures
        pieces(t).len() > 0,
        joined_by(pieces(t), ',') == t,
    decreases t.len(),
{
    let e = cut(t, ',', 0, outside());
    lemma_cut(t, ',', 0, outside());
    if e < t.len() {
        let rest = t.skip(e + 1);
        law_pieces(rest);
        lemma_joined_first(t.take(e), pieces(rest));
        assert(t.take(e).push(',') + rest =~= t);
    }
}

/// A mark in a string parts nothing: what stands between two quotation marks,
/// with none and no backslash between them, is passed over.
pub proof fn law_quoted_passed(t: Seq<char>, mark: char, i: int, j: int, depth: int)
    requires
        0 <= i < j < t.len(),
        t[i] == '"',
        t[j] == '"',
        mark != '"',
        forall|k: int| i < k < j ==> (#[trigger] t[k]) != '"' && t[k] != '\\',
    ensures
        cut(t, mark, i, Scan { depth, quoted: false, escaped: false }) == cut(
            t,
            mark,
            j + 1,
            Scan { depth, quoted: false, escaped: false },
        ),
{
    lemma_quoted(t, mark, i + 1, j, depth);
}

proof fn lemma_quoted(t: Seq<char>, mark: char, i: int, j: int, depth: int)
    requires
        0 <= i <= j < t.len(),
        t[j] == '"',
        mark != '"',
        forall|k: int| i <= k < j ==> (#[trigger] t[k]) != '"' && t[k] != '\\',
    ensures
        cut(t, mark, i, Scan { depth, quoted: true, escaped: false }) == cut(
            t,
            mark,
            j + 1,
            Scan { depth, quoted: false, escaped: false },
        ),
    decreases j - i,
{
    if i < j {
        assert(t[i] != '"');
        lemma_quoted(t, mark, i + 1, j, depth);
    }
}

} // verus!
