//! Filling the parameters of a def into its layers.

use vstd::prelude::*;
use crate::document::{Clip, ClipView, Element, ElementView};
use crate::text::{law_replaced_absent, law_replaced_first, matches_at, replace, replaced};
use crate::textmap::TextMap;
use crate::views::views;

verus! {

broadcast use crate::views::group_views;

/// `{name}`: how a parameter is written.
pub open spec fn braced(name: Seq<char>) -> Seq<char> {
    seq!['{'] + name + seq!['}']
}

/// The text with the first `n` arguments filled in, one after the other.
pub open spec fn filled(text: Seq<char>, args: Seq<(Seq<char>, Seq<char>)>, n: int) -> Seq<char>
    decreases n,
{
    if n <= 0 {
        text
    } else {
        replaced(filled(text, args, n - 1), braced(args[n - 1].0), args[n - 1].1)
    }
}

/// The text with all arguments filled in.
pub open spec fn filled_text(text: Seq<char>, args: Seq<(Seq<char>, Seq<char>)>) -> Seq<char> {
    filled(text, args, args.len() as int)
}

/// The element with the arguments filled into its texts. A nested def gets
/// them through its own arguments.
pub open spec fn filled_element(e: ElementView, args: Seq<(Seq<char>, Seq<char>)>) -> ElementView {
    match e {
        ElementView::Text { text, font, color, align, outline, shadow } => ElementView::Text {
            text: filled_text(text, args),
            font: filled_text(font, args),
            color: filled_text(color, args),
            align,
            outline: match outline {
                Some(o) => Some(filled_text(o, args)),
                None => None,
            },
            shadow,
        },
        ElementView::Video { src, offset, volume, rate } => ElementView::Video {
            src: filled_text(src, args),
            offset,
            volume,
            rate,
        },
        ElementView::Audio { src, offset, volume, rate } => ElementView::Audio {
            src: filled_text(src, args),
            offset,
            volume,
            rate,
        },
        ElementView::Image { src } => ElementView::Image { src: filled_text(src, args) },
        ElementView::Shape { shape, fill } => ElementView::Shape {
            shape,
            fill: filled_text(fill, args),
        },
        ElementView::CompRef { def, args: inner } => ElementView::CompRef {
            def,
            args: Seq::new(
                inner.len(),
                |i: int| (inner[i].0, filled_text(inner[i].1, args)),
            ),
        },
        ElementView::Test => ElementView::Test,
    }
}

/// The text with all arguments filled in.
pub fn fill_text(text: &str, args: &TextMap<String>) -> (r: String)
    ensures
        r@ == filled_text(text@, args@),
{
    let mut s: String = text.to_owned();
    let mut n: usize = 0;
    while n < args.entries.len()
        invariant
            n <= args.entries.len(),
            s@ == filled(text@, args@, n as int),
        decreases args.entries.len() - n,
    {
        let entry: &(String, String) = &args.entries[n];
        assert(args@[n as int] == (entry.0@, entry.1@));
        let mut pat: String = String::new();
        pat.push('{');
        pat.append(entry.0.as_str());
        pat.push('}');
        assert(pat@ =~= braced(entry.0@));
        s = replace(s.as_str(), pat.as_str(), entry.1.as_str());
        n += 1;
    }
    s
}

fn fill_args(inner: &TextMap<String>, args: &TextMap<String>) -> (r: TextMap<String>)
    ensures
        r@ == Seq::new(
            inner@.len(),
            |i: int| (inner@[i].0, filled_text(inner@[i].1, args@)),
        ),
{
    let mut entries: Vec<(String, String)> = Vec::new();
    let mut i: usize = 0;
    while i < inner.entries.len()
        invariant
            i <= inner.entries.len(),
            entries.len() == i,
            forall|j: int|
                0 <= j < i ==> #[trigger] views(entries@)[j] == (
                    inner@[j].0,
                    filled_text(inner@[j].1, args@),
                ),
        decreases inner.entries.len() - i,
    {
        let entry: &(String, String) = &inner.entries[i];
        assert(inner@[i as int] == (entry.0@, entry.1@));
        entries.push((entry.0.clone(), fill_text(entry.1.as_str(), args)));
        i += 1;
    }
    TextMap { entries }
}

/// A def layer with the arguments filled into its texts.
pub fn substitute(clip: &Clip, args: &TextMap<String>) -> (r: Clip)
    ensures
        r@ == (ClipView { element: filled_element(clip@.element, args@), ..clip@ }),
{
    let element: Element = match &clip.element {
        Element::Text { text, font, color, align, outline, shadow } => Element::Text {
            text: fill_text(text.as_str(), args),
            font: fill_text(font.as_str(), args),
            color: fill_text(color.as_str(), args),
            align: *align,
            outline: match outline {
                Some(o) => Some(fill_text(o.as_str(), args)),
                None => None,
            },
            shadow: *shadow,
        },
        Element::Video { src, offset, volume, rate } => Element::Video {
            src: fill_text(src.as_str(), args),
            offset: *offset,
            volume: *volume,
            rate: *rate,
        },
        Element::Audio { src, offset, volume, rate } => Element::Audio {
            src: fill_text(src.as_str(), args),
            offset: *offset,
            volume: *volume,
            rate: *rate,
        },
        Element::Image { src } => Element::Image { src: fill_text(src.as_str(), args) },
        Element::Shape { shape, fill } => Element::Shape {
            shape: *shape,
            fill: fill_text(fill.as_str(), args),
        },
        Element::CompRef { def, args: inner } => Element::CompRef {
            def: def.clone(),
            args: fill_args(inner, args),
        },
        Element::Test => Element::Test,
    };
    assert(element@ =~= filled_element(clip@.element, args@));
    let mut filled_clip: Clip = clip.clone();
    filled_clip.element = element;
    filled_clip
}

/// A text without an opening brace holds no parameter: arguments leave it as
/// it is.
pub proof fn law_filled_plain(text: Seq<char>, args: Seq<(Seq<char>, Seq<char>)>)
    requires
        !text.contains('{'),
    ensures
        filled_text(text, args) == text,
{
    lemma_filled_plain(text, args, args.len() as int);
}

proof fn lemma_filled_plain(text: Seq<char>, args: Seq<(Seq<char>, Seq<char>)>, n: int)
    requires
        !text.contains('{'),
        0 <= n <= args.len(),
    ensures
        filled(text, args, n) == text,
    decreases n,
{
    if n > 0 {
        lemma_filled_plain(text, args, n - 1);
        let pat = braced(args[n - 1].0);
        assert forall|i: int| !#[trigger] matches_at(text, pat, i) by {
            if matches_at(text, pat, i) {
                assert(text.subrange(i, i + pat.len())[0] == pat[0]);
                assert(text[i] == '{');
            }
        }
        law_replaced_absent(text, pat, args[n - 1].1);
    }
}

/// A text with one parameter, `name`, between texts without braces.
pub open spec fn around(before: Seq<char>, name: Seq<char>, after: Seq<char>) -> Seq<char> {
    before + seq!['{'] + name + seq!['}'] + after
}

/// A name, or a value, that could not be taken for a parameter.
pub open spec fn braceless(text: Seq<char>) -> bool {
    !text.contains('{') && !text.contains('}')
}

proof fn lemma_only_match(before: Seq<char>, name: Seq<char>, after: Seq<char>, other: Seq<char>)
    requires
        !before.contains('{'),
        !after.contains('{'),
        braceless(name),
        braceless(other),
    ensures
        forall|i: int| #[trigger]
            matches_at(around(before, name, after), braced(other), i) ==> i == before.len()
                && other == name,
        matches_at(around(before, name, after), braced(name), before.len() as int),
{
    let t = around(before, name, after);
    let pat = braced(other);
    let k = before.len() as int;
    let n = name.len() as int;
    assert forall|i: int| #[trigger] matches_at(t, pat, i) implies i == k && other == name by {
        let found = t.subrange(i, i + pat.len());
        assert(found[0] == '{');
        assert(t[i] == '{');
        if i < k {
            assert(before[i] == '{');
        }
        if k < i <= k + n {
            assert(name[i - k - 1] == '{');
        }
        if i > k + n + 1 {
            assert(after[i - k - n - 2] == '{');
        }
        assert(i == k);
        let m = other.len() as int;
        assert(found[m + 1] == '}');
        assert(t[k + m + 1] == '}');
        if m < n {
            assert(name[m] == '}');
        }
        if n < m {
            assert(t[k + n + 1] == '}');
            assert(found[n + 1] == '}');
            assert(other[n] == '}');
        }
        assert forall|x: int| 0 <= x < n implies other[x] == name[x] by {
            assert(found[x + 1] == pat[x + 1]);
            assert(t[k + x + 1] == name[x]);
        }
        assert(other =~= name);
    }
    let own = braced(name);
    assert(t.subrange(k, k + own.len()) =~= own);
}

/// A parameter becomes the value of the argument of that name, whatever other
/// arguments there are, and what stands around it stays. A parameter that no
/// argument names stays as it is written.
pub proof fn law_filled_parameter(
    before: Seq<char>,
    name: Seq<char>,
    after: Seq<char>,
    args: Seq<(Seq<char>, Seq<char>)>,
    k: int,
)
    requires
        !before.contains('{'),
        !after.contains('{'),
        braceless(name),
        forall|i: int| 0 <= i < args.len() ==> braceless((#[trigger] args[i]).0),
    ensures
        0 <= k < args.len() && args[k].0 == name && !args[k].1.contains('{') && (forall|i: int|
            0 <= i < args.len() && i != k ==> (#[trigger] args[i]).0 != name) ==> filled_text(
            around(before, name, after),
            args,
        ) == before + args[k].1 + after,
        (forall|i: int| 0 <= i < args.len() ==> (#[trigger] args[i]).0 != name) ==> filled_text(
            around(before, name, after),
            args,
        ) == around(before, name, after),
{
    if 0 <= k < args.len() && args[k].0 == name && !args[k].1.contains('{') && (forall|i: int|
        0 <= i < args.len() && i != k ==> (#[trigger] args[i]).0 != name) {
        lemma_filled_before(before, name, after, args, k);
        lemma_filled_from(before, name, after, args, k, args.len() as int);
    }
    if forall|i: int| 0 <= i < args.len() ==> (#[trigger] args[i]).0 != name {
        lemma_filled_before(before, name, after, args, args.len() as int);
    }
}

proof fn lemma_filled_before(
    before: Seq<char>,
    name: Seq<char>,
    after: Seq<char>,
    args: Seq<(Seq<char>, Seq<char>)>,
    n: int,
)
    requires
        !before.contains('{'),
        !after.contains('{'),
        braceless(name),
        0 <= n <= args.len(),
        forall|i: int|
            0 <= i < n ==> braceless((#[trigger] args[i]).0) && args[i].0 != name,
    ensures
        filled(around(before, name, after), args, n) == around(before, name, after),
    decreases n,
{
    if n > 0 {
        lemma_filled_before(before, name, after, args, n - 1);
        lemma_only_match(before, name, after, args[n - 1].0);
        law_replaced_absent(around(before, name, after), braced(args[n - 1].0), args[n - 1].1);
    }
}

proof fn lemma_filled_from(
    before: Seq<char>,
    name: Seq<char>,
    after: Seq<char>,
    args: Seq<(Seq<char>, Seq<char>)>,
    k: int,
    n: int,
)
    requires
        !before.contains('{'),
        !after.contains('{'),
        braceless(name),
        0 <= k < n <= args.len(),
        args[k].0 == name,
        !args[k].1.contains('{'),
        filled(around(before, name, after), args, k) == around(before, name, after),
    ensures
        filled(around(before, name, after), args, n) == before + args[k].1 + after,
    decreases n,
{
    let t = around(before, name, after);
    let done = before + args[k].1 + after;
    let pat = braced(args[n - 1].0);
    if n - 1 == k {
        lemma_only_match(before, name, after, name);
        let i = before.len() as int;
        law_replaced_first(t, pat, args[k].1, i);
        let rest = t.skip(i + pat.len());
        assert(rest =~= after);
        assert forall|j: int| !#[trigger] matches_at(rest, pat, j) by {
            if matches_at(rest, pat, j) {
                assert(rest.subrange(j, j + pat.len())[0] == '{');
                assert(after[j] == '{');
            }
        }
        law_replaced_absent(rest, pat, args[k].1);
        assert(t.take(i) =~= before);
    } else {
        lemma_filled_from(before, name, after, args, k, n - 1);
        assert forall|j: int| !#[trigger] matches_at(done, pat, j) by {
            if matches_at(done, pat, j) {
                assert(done.subrange(j, j + pat.len())[0] == '{');
                assert(done[j] == '{');
                let b = before.len() as int;
                let v = args[k].1;
                if j < b {
                    assert(before[j] == '{');
                } else if j < b + v.len() {
                    assert(v[j - b] == '{');
                } else {
                    assert(after[j - b - v.len()] == '{');
                }
            }
        }
        law_replaced_absent(done, pat, args[n - 1].1);
    }
}

/// Arguments reach every text of an element and nothing else: what a text
/// says, its font, color and outline, where media comes from, what a shape is
/// filled with, and the values handed on to a nested def. Which def that is,
/// numbers and flags stay.
pub proof fn law_filled_everywhere(e: ElementView, args: Seq<(Seq<char>, Seq<char>)>)
    ensures
        match (e, filled_element(e, args)) {
            (
                ElementView::Text { text, font, color, align, outline, shadow },
                ElementView::Text {
                    text: t,
                    font: f,
                    color: c,
                    align: a,
                    outline: o,
                    shadow: s,
                },
            ) => {
                &&& t == filled_text(text, args)
                &&& f == filled_text(font, args)
                &&& c == filled_text(color, args)
                &&& a == align && s == shadow
                &&& outline is Some == o is Some
                &&& o is Some ==> o->0 == filled_text(outline->0, args)
            },
            (
                ElementView::Video { src, offset, volume, rate },
                ElementView::Video { src: s, offset: o, volume: v, rate: r },
            ) => s == filled_text(src, args) && o == offset && v == volume && r == rate,
            (
                ElementView::Audio { src, offset, volume, rate },
                ElementView::Audio { src: s, offset: o, volume: v, rate: r },
            ) => s == filled_text(src, args) && o == offset && v == volume && r == rate,
            (ElementView::Image { src }, ElementView::Image { src: s }) => s == filled_text(
                src,
                args,
            ),
            (ElementView::Shape { shape, fill }, ElementView::Shape { shape: s, fill: f }) => s
                == shape && f == filled_text(fill, args),
            (
                ElementView::CompRef { def, args: inner },
                ElementView::CompRef { def: d, args: outer },
            ) => {
                &&& d == def
                &&& outer.len() == inner.len()
                &&& forall|i: int|
                    0 <= i < inner.len() ==> (#[trigger] outer[i]).0 == inner[i].0 && outer[i].1
                        == filled_text(inner[i].1, args)
            },
            (ElementView::Test, ElementView::Test) => true,
            _ => false,
        },
{
}

} // verus!
