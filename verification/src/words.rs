//! Trimming, splitting and searching texts.

use vstd::prelude::*;
use crate::text::{chars_of, found_at, text_of};
use crate::views::views;

verus! {

broadcast use crate::views::group_views;

/// A character with the Unicode property `White_Space`.
pub open spec fn white_space(c: char) -> bool {
    ||| '\u{9}' <= c <= '\u{d}'
    ||| c == ' '
    ||| c == '\u{85}'
    ||| c == '\u{a0}'
    ||| c == '\u{1680}'
    ||| '\u{2000}' <= c <= '\u{200a}'
    ||| c == '\u{2028}'
    ||| c == '\u{2029}'
    ||| c == '\u{202f}'
    ||| c == '\u{205f}'
    ||| c == '\u{3000}'
}

/// `char::is_whitespace` tells whether a character has the Unicode property
/// `White_Space`.
pub assume_specification[ char::is_whitespace ](c: char) -> (r: bool)
    ensures
        r == white_space(c),
;

/// The text without its leading white space.
pub open spec fn trimmed_start(s: Seq<char>) -> Seq<char>
    decreases s.len(),
{
    if s.len() > 0 && white_space(s[0]) {
        trimmed_start(s.skip(1))
    } else {
        s
    }
}

/// The text without its trailing white space.
pub open spec fn trimmed_end(s: Seq<char>) -> Seq<char>
    decreases s.len(),
{
    if s.len() > 0 && white_space(s.last()) {
        trimmed_end(s.drop_last())
    } else {
        s
    }
}

/// The text without leading and trailing white space.
pub open spec fn trimmed(s: Seq<char>) -> Seq<char> {
    trimmed_end(trimmed_start(s))
}

/// The text without leading and trailing white space.
pub fn trim(text: &str) -> (r: String)
    ensures
        r@ == trimmed(text@),
{
    let v: Vec<char> = chars_of(text);
    let mut i: usize = 0;
    assert(v@.skip(0) =~= v@);
    while i < v.len() && v[i].is_whitespace()
        invariant
            v@ == text@,
            i <= v.len(),
            trimmed_start(v@.skip(i as int)) == trimmed_start(text@),
        decreases v.len() - i,
    {
        assert(v@.skip(i as int).skip(1) =~= v@.skip(i + 1));
        i += 1;
    }
    let ghost rest = v@.skip(i as int);
    assert(rest == trimmed_start(text@));
    let mut n: usize = v.len();
    assert(v@.subrange(i as int, n as int) =~= rest);
    while n > i && v[n - 1].is_whitespace()
        invariant
            i <= n <= v.len(),
            trimmed_end(v@.subrange(i as int, n as int)) == trimmed(text@),
        decreases n,
    {
        proof {
            let s = v@.subrange(i as int, n as int);
            assert(s.last() == v@[n - 1]);
            assert(s.drop_last() =~= v@.subrange(i as int, n - 1));
        }
        n -= 1;
    }
    proof {
        let s = v@.subrange(i as int, n as int);
        if s.len() > 0 {
            assert(s.last() == v@[n - 1]);
        }
    }
    text_of(&v, i, n)
}

/// The text begins with `prefix`.
pub open spec fn begins_with(s: Seq<char>, prefix: Seq<char>) -> bool {
    prefix.len() <= s.len() && s.take(prefix.len() as int) == prefix
}

/// What follows `prefix`, if the text begins with it.
pub fn after_prefix(text: &str, prefix: &str) -> (r: Option<String>)
    ensures
        match r {
            Some(rest) => begins_with(text@, prefix@) && rest@ == text@.skip(prefix@.len() as int),
            None => !begins_with(text@, prefix@),
        },
{
    let s: Vec<char> = chars_of(text);
    let p: Vec<char> = chars_of(prefix);
    if found_at(&s, &p, 0) {
        assert(s@.subrange(0, p@.len() as int) =~= s@.take(p@.len() as int));
        let rest: String = text_of(&s, p.len(), s.len());
        assert(rest@ =~= text@.skip(prefix@.len() as int));
        Some(rest)
    } else {
        proof {
            if begins_with(text@, prefix@) {
                assert(s@.subrange(0, p@.len() as int) =~= s@.take(p@.len() as int));
            }
        }
        None
    }
}

/// The lines of a text: it is cut after every line feed; a line feed at the
/// end opens no further line, and a carriage return before a line feed is
/// dropped.
pub open spec fn lines_of(s: Seq<char>) -> Seq<Seq<char>>
    decreases s.len(),
{
    let n = line_feed(s, 0);
    if s.len() == 0 {
        Seq::empty()
    } else if 0 <= n < s.len() {
        seq![without_return(s.take(n))] + lines_of(s.skip(n + 1))
    } else {
        seq![s]
    }
}

/// Index of the first line feed from `i` on; the length if there is none.
pub open spec fn line_feed(s: Seq<char>, i: int) -> int
    decreases s.len() - i,
{
    if i >= s.len() {
        s.len() as int
    } else if s[i] == '\n' {
        i
    } else {
        line_feed(s, i + 1)
    }
}

pub open spec fn without_return(s: Seq<char>) -> Seq<char> {
    if s.len() > 0 && s.last() == '\r' {
        s.drop_last()
    } else {
        s
    }
}

proof fn lemma_line_feed(s: Seq<char>, i: int)
    requires
        0 <= i <= s.len(),
    ensures
        i <= line_feed(s, i) <= s.len(),
    decreases s.len() - i,
{
    if i < s.len() && s[i] != '\n' {
        lemma_line_feed(s, i + 1);
    }
}

proof fn lemma_line_feed_skip(s: Seq<char>, from: int, i: int)
    requires
        0 <= from,
        0 <= i,
        from + i <= s.len(),
    ensures
        line_feed(s.skip(from), i) == line_feed(s, from + i) - from,
    decreases s.len() - from - i,
{
    if from + i < s.len() {
        assert(s.skip(from)[i] == s[from + i]);
        if s[from + i] != '\n' {
            lemma_line_feed_skip(s, from, i + 1);
        }
    }
}

/// The lines of a text.
pub fn split_lines(text: &str) -> (r: Vec<String>)
    ensures
        views(r@) == lines_of(text@),
{
    let v: Vec<char> = chars_of(text);
    let mut out: Vec<String> = Vec::new();
    let mut from: usize = 0;
    proof {
        assert(v@.skip(0) =~= v@);
        assert(views(out@) + lines_of(v@) =~= lines_of(v@));
    }
    while from < v.len()
        invariant
            v@ == text@,
            from <= v.len(),
            views(out@) + lines_of(v@.skip(from as int)) == lines_of(text@),
        decreases v.len() - from,
    {
        let ghost rest = v@.skip(from as int);
        let mut n: usize = from;
        while n < v.len() && v[n] != '\n'
            invariant
                from <= n <= v.len(),
                line_feed(v@, from as int) == line_feed(v@, n as int),
            decreases v.len() - n,
        {
            n += 1;
        }
        proof {
            lemma_line_feed(v@, n as int);
            lemma_line_feed_skip(v@, from as int, 0);
            assert(line_feed(rest, 0) == n - from);
        }
        let mut end: usize = n;
        if n < v.len() && n > from && v[n - 1] == '\r' {
            end = n - 1;
        }
        let line: String = text_of(&v, from, end);
        proof {
            if n >= v@.len() {
                assert(line@ =~= rest);
                assert(lines_of(rest) =~= seq![rest]);
                assert(views(out@).push(line@) + lines_of(v@.skip(v@.len() as int)) =~= views(out@)
                    + lines_of(rest));
            } else {
                let head = rest.take(n - from);
                assert(head =~= v@.subrange(from as int, n as int));
                if n > from {
                    assert(head.last() == v@[n - 1]);
                }
                assert(line@ =~= without_return(head));
                assert(rest.skip(n - from + 1) =~= v@.skip(n + 1));
                assert(views(out@).push(line@) + lines_of(v@.skip(n + 1)) =~= views(out@) + (seq![
                    line@,
                ] + lines_of(v@.skip(n + 1))));
            }
        }
        out.push(line);
        from = if n < v.len() {
            n + 1
        } else {
            n
        };
    }
    assert(v@.skip(from as int).len() == 0);
    assert(views(out@) + lines_of(v@.skip(from as int)) =~= views(out@));
    out
}

/// The pieces of a text between the occurrences of a separator; one more than
/// there are separators.
pub open spec fn split_by(s: Seq<char>, sep: char) -> Seq<Seq<char>>
    decreases s.len(),
{
    if s.len() == 0 {
        seq![Seq::empty()]
    } else {
        let before = split_by(s.drop_last(), sep);
        if s.last() == sep {
            before.push(Seq::empty())
        } else {
            before.drop_last().push(before.last().push(s.last()))
        }
    }
}

pub proof fn lemma_split_some(s: Seq<char>, sep: char)
    ensures
        split_by(s, sep).len() > 0,
    decreases s.len(),
{
    if s.len() > 0 {
        lemma_split_some(s.drop_last(), sep);
    }
}

/// The pieces of a text between the occurrences of a separator.
pub fn split_text(text: &str, sep: char) -> (r: Vec<String>)
    ensures
        views(r@) == split_by(text@, sep),
{
    let v: Vec<char> = chars_of(text);
    let mut out: Vec<String> = Vec::new();
    let mut piece: String = String::new();
    let mut i: usize = 0;
    assert(v@.take(0) =~= Seq::empty());
    assert(views(out@).push(piece@) =~= split_by(v@.take(0), sep));
    while i < v.len()
        invariant
            i <= v.len(),
            v@ == text@,
            views(out@).push(piece@) == split_by(v@.take(i as int), sep),
        decreases v.len() - i,
    {
        proof {
            assert(v@.take(i + 1).drop_last() =~= v@.take(i as int));
            assert(v@.take(i + 1).last() == v@[i as int]);
            assert(views(out@).push(piece@).drop_last() =~= views(out@));
        }
        if v[i] == sep {
            out.push(piece);
            piece = String::new();
            assert(views(out@).push(piece@) =~= split_by(v@.take(i + 1), sep));
        } else {
            piece.push(v[i]);
            assert(views(out@).push(piece@) =~= split_by(v@.take(i + 1), sep));
        }
        i += 1;
    }
    assert(v@.take(i as int) =~= text@);
    out.push(piece);
    out
}

/// A text before the first separator is the first piece.
pub proof fn lemma_split_head(a: Seq<char>, b: Seq<char>, sep: char)
    requires
        forall|i: int| 0 <= i < a.len() ==> #[trigger] a[i] != sep,
    ensures
        split_by(a + seq![sep] + b, sep) == seq![a] + split_by(b, sep),
        split_by(a, sep) == seq![a],
    decreases a.len() + b.len(),
{
    let s = a + seq![sep] + b;
    if b.len() > 0 {
        lemma_split_head(a, b.drop_last(), sep);
        lemma_split_some(b.drop_last(), sep);
        assert(s.drop_last() =~= a + seq![sep] + b.drop_last());
        assert(s.last() == b.last());
        let x = split_by(b.drop_last(), sep);
        assert((seq![a] + x).last() == x.last());
        assert((seq![a] + x).drop_last() =~= seq![a] + x.drop_last());
        assert(split_by(s, sep) =~= seq![a] + split_by(b, sep));
        lemma_split_whole(a, sep);
    } else {
        lemma_split_whole(a, sep);
        assert(s =~= a.push(sep));
        assert(s.drop_last() =~= a);
        assert(split_by(s, sep) =~= seq![a] + split_by(b, sep));
    }
}

proof fn lemma_split_whole(a: Seq<char>, sep: char)
    requires
        forall|i: int| 0 <= i < a.len() ==> #[trigger] a[i] != sep,
    ensures
        split_by(a, sep) == seq![a],
    decreases a.len(),
{
    if a.len() > 0 {
        lemma_split_whole(a.drop_last(), sep);
        assert(a.last() == a[a.len() - 1]);
        assert(a.drop_last().push(a.last()) =~= a);
        assert(split_by(a, sep) =~= seq![a]);
    } else {
        assert(a =~= Seq::empty());
    }
}

/// A character with the case of `A` to `Z` taken away.
pub open spec fn lower_char(c: char) -> char {
    if 'A' <= c <= 'Z' {
        ((c as u32) + 32) as u32 as char
    } else {
        c
    }
}

/// A character with the letters `a` to `z` raised to capitals.
pub open spec fn upper_char(c: char) -> char {
    if 'a' <= c <= 'z' {
        ((c as u32) - 32) as u32 as char
    } else {
        c
    }
}

/// A text with its ASCII letters in lower case.
pub open spec fn lowered(s: Seq<char>) -> Seq<char> {
    s.map_values(|c: char| lower_char(c))
}

/// A character with the case of `A` to `Z` taken away.
pub fn lower(c: char) -> (r: char)
    ensures
        r == lower_char(c),
{
    if 'A' <= c && c <= 'Z' {
        ((c as u8) + 32) as char
    } else {
        c
    }
}

/// A character with the letters `a` to `z` raised to capitals.
pub fn upper(c: char) -> (r: char)
    ensures
        r == upper_char(c),
{
    if 'a' <= c && c <= 'z' {
        ((c as u8) - 32) as char
    } else {
        c
    }
}

/// A text with its ASCII letters in lower case.
pub fn lower_text(text: &str) -> (r: String)
    ensures
        r@ == lowered(text@),
{
    let v: Vec<char> = chars_of(text);
    let mut s: String = String::new();
    let mut i: usize = 0;
    while i < v.len()
        invariant
            i <= v.len(),
            v@ == text@,
            s@ == lowered(text@.take(i as int)),
        decreases v.len() - i,
    {
        s.push(lower(v[i]));
        i += 1;
        assert(s@ =~= lowered(text@.take(i as int)));
    }
    assert(text@.take(i as int) =~= text@);
    s
}

/// All characters of a text are white space.
pub open spec fn blank_text(s: Seq<char>) -> bool {
    forall|i: int| 0 <= i < s.len() ==> white_space(#[trigger] s[i])
}

/// A trimmed text neither begins nor ends with white space, and is what is
/// left of the text between white space.
pub proof fn law_trimmed(s: Seq<char>)
    ensures
        trimmed(s).len() > 0 ==> !white_space(trimmed(s)[0]) && !white_space(trimmed(s).last()),
        trimmed(s).len() == 0 ==> blank_text(s),
        exists|a: Seq<char>, b: Seq<char>|
            #![trigger a + trimmed(s) + b]
            s == a + trimmed(s) + b && blank_text(a) && blank_text(b),
{
    let t = trimmed_start(s);
    lemma_start_trimmed(s);
    lemma_end_trimmed(t);
    let a = choose|a: Seq<char>| #![trigger a + t] s == a + t && blank_text(a);
    let b = choose|b: Seq<char>| #![trigger trimmed(s) + b] t == trimmed(s) + b && blank_text(b);
    assert(s =~= a + trimmed(s) + b);
    if trimmed(s).len() > 0 {
        assert(trimmed(s)[0] == t[0]);
    } else {
        assert forall|i: int| 0 <= i < s.len() implies white_space(#[trigger] s[i]) by {
            if i < a.len() {
                assert(a[i] == s[i]);
            } else {
                assert(b[i - a.len()] == s[i]);
            }
        }
    }
}

proof fn lemma_start_trimmed(s: Seq<char>)
    ensures
        trimmed_start(s).len() > 0 ==> !white_space(trimmed_start(s)[0]),
        exists|a: Seq<char>| #![trigger a + trimmed_start(s)] s == a + trimmed_start(s)
            && blank_text(a),
    decreases s.len(),
{
    if s.len() > 0 && white_space(s[0]) {
        let rest = s.skip(1);
        lemma_start_trimmed(rest);
        let t = trimmed_start(s);
        let a = choose|a: Seq<char>| #![trigger a + t] rest == a + t && blank_text(a);
        let more = seq![s[0]] + a;
        assert(s =~= seq![s[0]] + rest);
        assert(blank_text(more));
        assert(s =~= more + trimmed_start(s));
    } else {
        let none = Seq::<char>::empty();
        assert(blank_text(none));
        assert(s =~= none + trimmed_start(s));
    }
}

proof fn lemma_end_trimmed(s: Seq<char>)
    ensures
        trimmed_end(s).len() > 0 ==> !white_space(trimmed_end(s).last()),
        exists|b: Seq<char>| #![trigger trimmed_end(s) + b] s == trimmed_end(s) + b
            && blank_text(b),
    decreases s.len(),
{
    if s.len() > 0 && white_space(s.last()) {
        let rest = s.drop_last();
        lemma_end_trimmed(rest);
        let t = trimmed_end(s);
        let b = choose|b: Seq<char>| #![trigger t + b] rest == t + b && blank_text(b);
        let more = b.push(s.last());
        assert(s =~= rest.push(s.last()));
        assert(blank_text(more));
        assert(s =~= trimmed_end(s) + more);
    } else {
        let none = Seq::<char>::empty();
        assert(blank_text(none));
        assert(s =~= trimmed_end(s) + none);
    }
}

/// Texts joined by a character.
pub open spec fn joined_by(parts: Seq<Seq<char>>, sep: char) -> Seq<char>
    decreases parts.len(),
{
    if parts.len() == 0 {
        Seq::empty()
    } else if parts.len() == 1 {
        parts[0]
    } else {
        joined_by(parts.drop_last(), sep).push(sep) + parts.last()
    }
}

/// No piece of a split text holds the separator, and the pieces joined by it
/// are the text again.
pub proof fn law_split_by(s: Seq<char>, sep: char)
    ensures
        split_by(s, sep).len() > 0,
        forall|i: int| 0 <= i < split_by(s, sep).len() ==> !(#[trigger] split_by(s, sep)[i]).contains(
            sep,
        ),
        joined_by(split_by(s, sep), sep) == s,
    decreases s.len(),
{
    let parts = split_by(s, sep);
    if s.len() == 0 {
        assert(parts[0] =~= s);
    } else {
        let before = split_by(s.drop_last(), sep);
        law_split_by(s.drop_last(), sep);
        assert(s =~= s.drop_last().push(s.last()));
        if s.last() == sep {
            assert(parts.drop_last() =~= before);
            assert(joined_by(parts, sep) =~= s);
        } else {
            assert(parts.drop_last() =~= before.drop_last());
            assert(!before.last().contains(sep));
            assert forall|i: int| 0 <= i < parts.len() implies !(#[trigger] parts[i]).contains(
                sep,
            ) by {
                if i < before.len() - 1 {
                    assert(parts[i] == before[i]);
                } else {
                    let last = before.last();
                    assert(parts[i] == last.push(s.last()));
                    if parts[i].contains(sep) {
                        let k = choose|k: int| 0 <= k < parts[i].len() && parts[i][k] == sep;
                        assert(last[k] == sep);
                    }
                }
            }
            assert(joined_by(parts, sep) =~= joined_by(before, sep).push(s.last()));
        }
    }
}

/// Lowering a letter and raising it again are each other's opposites, and
/// both leave everything but ASCII letters alone.
pub proof fn law_letter_case(c: char)
    ensures
        'A' <= c <= 'Z' ==> lower_char(c) as u32 - c as u32 == 'a' as u32 - 'A' as u32
            && upper_char(lower_char(c)) == c,
        'a' <= c <= 'z' ==> c as u32 - upper_char(c) as u32 == 'a' as u32 - 'A' as u32
            && lower_char(upper_char(c)) == c,
        !('A' <= c <= 'Z') ==> lower_char(c) == c,
        !('a' <= c <= 'z') ==> upper_char(c) == c,
{
}

} // verus!
