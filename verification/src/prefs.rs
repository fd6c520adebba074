//! The preferences file, one `key=value` to a line, and the list of recent
//! projects.

use vstd::prelude::*;
use crate::fixed::in_range;
use crate::json::{first_index, fixed_of, read_fixed};
use crate::text::{chars_of, fixed_notation, fixed_text, joined, same, text_of};
use crate::views::{collected, lemma_collected_member, lemma_collected_step, views};
use crate::words::{after_prefix, begins_with, line_feed, lines_of, split_lines, trim, trimmed,
    trimmed_start, white_space, without_return};

verus! {

broadcast use crate::views::group_views;

/// What the lines that set a preference begin with.
pub open spec fn prefix_of(key: Seq<char>) -> Seq<char> {
    key + "="@
}

/// The value that a line gives to a preference, if it sets that one.
pub open spec fn value_in(line: Seq<char>, key: Seq<char>) -> Option<Seq<char>> {
    let t = trimmed(line);
    if begins_with(t, prefix_of(key)) {
        Some(t.skip(prefix_of(key).len() as int))
    } else {
        None
    }
}

/// The value of a preference: that of the first line that sets it.
pub open spec fn pref(lines: Seq<Seq<char>>, key: Seq<char>) -> Option<Seq<char>>
    decreases lines.len(),
{
    if lines.len() == 0 {
        None
    } else {
        match pref(lines.drop_last(), key) {
            Some(v) => Some(v),
            None => value_in(lines.last(), key),
        }
    }
}

/// The lines that stay when a preference is set: neither blank nor setting
/// that one.
pub open spec fn keeper(key: Seq<char>) -> spec_fn(Seq<char>) -> Option<Seq<char>> {
    |line: Seq<char>|
        if trimmed(line).len() > 0 && value_in(line, key) is None {
            Some(line)
        } else {
            None
        }
}

/// The lines of the file after a preference has been set.
pub open spec fn set_lines(
    lines: Seq<Seq<char>>,
    key: Seq<char>,
    value: Seq<char>,
) -> Seq<Seq<char>> {
    collected(lines, keeper(key)).push(prefix_of(key) + value)
}

/// The text of lines, each closed by a line feed.
pub open spec fn unlines(lines: Seq<Seq<char>>) -> Seq<char>
    decreases lines.len(),
{
    if lines.len() == 0 {
        Seq::empty()
    } else {
        lines[0] + seq!['\n'] + unlines(lines.skip(1))
    }
}

/// The text of the file after a preference has been set.
pub open spec fn set_text(text: Seq<char>, key: Seq<char>, value: Seq<char>) -> Seq<char> {
    unlines(set_lines(lines_of(text), key, value))
}

/// The value of a preference in the text of the file.
pub fn pref_value(text: &str, key: &str) -> (r: Option<String>)
    ensures
        match r {
            Some(v) => pref(lines_of(text@), key@) == Some(v@),
            None => pref(lines_of(text@), key@) is None,
        },
{
    let lines: Vec<String> = split_lines(text);
    let prefix: String = joined(key, "=");
    let mut found: Option<String> = None;
    let mut i: usize = 0;
    let ghost all = lines_of(text@);
    while i < lines.len()
        invariant
            i <= lines.len(),
            views(lines@) == all,
            prefix@ == prefix_of(key@),
            match found {
                Some(v) => pref(all.take(i as int), key@) == Some(v@),
                None => pref(all.take(i as int), key@) is None,
            },
        decreases lines.len() - i,
    {
        proof {
            assert(all.take(i + 1).drop_last() =~= all.take(i as int));
            assert(all.take(i + 1).last() == lines@[i as int]@);
        }
        if found.is_none() {
            let line: String = trim(lines[i].as_str());
            found = after_prefix(line.as_str(), prefix.as_str());
        }
        i += 1;
    }
    assert(all.take(i as int) =~= all);
    found
}

fn unlines_text(lines: &Vec<String>) -> (r: String)
    ensures
        r@ == unlines(views(lines@)),
{
    let mut s: String = String::new();
    let mut i: usize = 0;
    let ghost all = views(lines@);
    assert(all.skip(0) =~= all);
    assert(s@ + unlines(all) =~= unlines(all));
    while i < lines.len()
        invariant
            i <= lines.len(),
            all == views(lines@),
            s@ + unlines(all.skip(i as int)) == unlines(all),
        decreases lines.len() - i,
    {
        let ghost before = s@;
        s.append(lines[i].as_str());
        s.push('\n');
        proof {
            let rest = all.skip(i as int);
            assert(rest[0] == lines@[i as int]@);
            assert(rest.skip(1) =~= all.skip(i + 1));
            assert(s@ + unlines(all.skip(i + 1)) =~= before + (rest[0] + seq!['\n'] + unlines(
                all.skip(i + 1),
            )));
        }
        i += 1;
    }
    assert(unlines(all.skip(i as int)) =~= Seq::empty());
    assert(s@ =~= unlines(all));
    s
}

/// Set one preference in the text of the file, keeping every other line that
/// is not blank.
pub fn prefs_set(text: &str, key: &str, value: &str) -> (r: String)
    ensures
        r@ == set_text(text@, key@, value@),
{
    let lines: Vec<String> = split_lines(text);
    let prefix: String = joined(key, "=");
    let mut out: Vec<String> = Vec::new();
    let mut i: usize = 0;
    let ghost all = lines_of(text@);
    assert(views(out@) =~= collected(all.take(0), keeper(key@)));
    while i < lines.len()
        invariant
            i <= lines.len(),
            views(lines@) == all,
            prefix@ == prefix_of(key@),
            views(out@) == collected(all.take(i as int), keeper(key@)),
        decreases lines.len() - i,
    {
        proof {
            lemma_collected_step(all, keeper(key@), i as int);
            assert(all[i as int] == lines@[i as int]@);
        }
        let line: String = trim(lines[i].as_str());
        if !line.as_str().is_empty() && after_prefix(line.as_str(), prefix.as_str()).is_none() {
            out.push(lines[i].clone());
        }
        i += 1;
    }
    assert(all.take(i as int) =~= all);
    out.push(joined(prefix.as_str(), value));
    unlines_text(&out)
}

/// No character of a text is `c`.
pub open spec fn lacks(s: Seq<char>, c: char) -> bool {
    forall|i: int| 0 <= i < s.len() ==> #[trigger] s[i] != c
}

/// A key that a line can be found by.
pub open spec fn proper_key(key: Seq<char>) -> bool {
    key.len() > 0 && !white_space(key[0]) && lacks(key, '=') && lacks(key, '\n')
}

/// A value that a line can hold: it has no line feed and does not end in
/// white space.
pub open spec fn proper_value(value: Seq<char>) -> bool {
    lacks(value, '\n') && (value.len() > 0 ==> !white_space(value.last()))
}

pub proof fn lemma_set_value(key: Seq<char>, value: Seq<char>)
    requires
        proper_key(key),
        proper_value(value),
    ensures
        value_in(prefix_of(key) + value, key) == Some(value),
{
    reveal_strlit("=");
    let line = prefix_of(key) + value;
    assert(line[0] == key[0]);
    assert(trimmed_start(line) == line);
    assert(line.last() == if value.len() > 0 {
        value.last()
    } else {
        '='
    });
    assert(trimmed(line) == line);
    assert(line.take(prefix_of(key).len() as int) =~= prefix_of(key));
    assert(line.skip(prefix_of(key).len() as int) =~= value);
}

proof fn lemma_two_prefixes(t: Seq<char>, a: Seq<char>, b: Seq<char>)
    requires
        lacks(a, '='),
        lacks(b, '='),
        begins_with(t, prefix_of(a)),
        begins_with(t, prefix_of(b)),
    ensures
        a == b,
{
    reveal_strlit("=");
    let x = prefix_of(a);
    let y = prefix_of(b);
    assert(t.take(x.len() as int)[a.len() as int] == '=');
    assert(t.take(y.len() as int)[b.len() as int] == '=');
    if a.len() < b.len() {
        assert(t.take(y.len() as int)[a.len() as int] == b[a.len() as int]);
    } else if b.len() < a.len() {
        assert(t.take(x.len() as int)[b.len() as int] == a[b.len() as int]);
    } else {
        assert forall|i: int| 0 <= i < a.len() implies a[i] == b[i] by {
            assert(t.take(x.len() as int)[i] == a[i]);
            assert(t.take(y.len() as int)[i] == b[i]);
        }
        assert(a =~= b);
    }
}

proof fn lemma_kept_lines(lines: Seq<Seq<char>>, key: Seq<char>, other: Seq<char>)
    requires
        lacks(key, '='),
        lacks(other, '='),
    ensures
        pref(collected(lines, keeper(key)), key) is None,
        other != key ==> pref(collected(lines, keeper(key)), other) == pref(lines, other),
    decreases lines.len(),
{
    reveal_strlit("=");
    if lines.len() > 0 {
        let rest = lines.drop_last();
        let line = lines.last();
        lemma_kept_lines(rest, key, other);
        let kept = collected(rest, keeper(key));
        match keeper(key)(line) {
            Some(l) => {
                assert(kept.push(l).drop_last() =~= kept);
            },
            None => {
                if value_in(line, other) is Some && other != key {
                    assert(trimmed(line).len() > 0);
                    lemma_two_prefixes(trimmed(line), key, other);
                }
            },
        }
    }
}

/// A preference that has been set has the value it was set to, and every
/// other preference keeps its own.
pub proof fn law_pref_set(
    lines: Seq<Seq<char>>,
    key: Seq<char>,
    value: Seq<char>,
    other: Seq<char>,
)
    requires
        proper_key(key),
        proper_value(value),
        lacks(other, '='),
    ensures
        pref(set_lines(lines, key, value), key) == Some(value),
        other != key ==> pref(set_lines(lines, key, value), other) == pref(lines, other),
{
    lemma_kept_lines(lines, key, other);
    lemma_set_value(key, value);
    let kept = collected(lines, keeper(key));
    let line = prefix_of(key) + value;
    assert(kept.push(line).drop_last() =~= kept);
    if other != key && value_in(line, other) is Some {
        reveal_strlit("=");
        assert(trimmed_start(line) == line);
        assert(trimmed(line) == line);
        assert(line.take(prefix_of(key).len() as int) =~= prefix_of(key));
        lemma_two_prefixes(line, key, other);
    }
}

pub proof fn lemma_trim_push(s: Seq<char>, c: char)
    requires
        white_space(c),
    ensures
        trimmed(s.push(c)) == trimmed(s),
    decreases s.len(),
{
    if s.len() > 0 && white_space(s[0]) {
        lemma_trim_push(s.skip(1), c);
        assert(s.push(c).skip(1) =~= s.skip(1).push(c));
    } else if s.len() > 0 {
        assert(trimmed_start(s.push(c)) == s.push(c));
        assert(s.push(c).drop_last() =~= s);
    } else {
        assert(s.push(c).skip(1) =~= s);
    }
}

pub proof fn lemma_without_return(line: Seq<char>, key: Seq<char>)
    ensures
        value_in(without_return(line), key) == value_in(line, key),
{
    if line.len() > 0 && line.last() == '\r' {
        assert(line.drop_last().push('\r') =~= line);
        lemma_trim_push(line.drop_last(), '\r');
    }
}

proof fn lemma_feed_after(s: Seq<char>, l: Seq<char>, rest: Seq<char>, i: int)
    requires
        s == l + seq!['\n'] + rest,
        lacks(l, '\n'),
        0 <= i <= l.len(),
    ensures
        line_feed(s, i) == l.len(),
    decreases l.len() - i,
{
    if i < l.len() {
        assert(s[i] == l[i]);
        lemma_feed_after(s, l, rest, i + 1);
    } else {
        assert(s[i] == '\n');
    }
}

/// No line holds a line feed.
pub open spec fn unbroken(lines: Seq<Seq<char>>) -> bool {
    forall|i: int| 0 <= i < lines.len() ==> lacks(#[trigger] lines[i], '\n')
}

pub proof fn lemma_lines_unlines(lines: Seq<Seq<char>>)
    requires
        unbroken(lines),
    ensures
        lines_of(unlines(lines)) == lines.map_values(|l: Seq<char>| without_return(l)),
    decreases lines.len(),
{
    let f = |l: Seq<char>| without_return(l);
    if lines.len() > 0 {
        let rest = lines.skip(1);
        assert(unbroken(rest)) by {
            assert forall|i: int| 0 <= i < rest.len() implies lacks(#[trigger] rest[i], '\n') by {
                assert(rest[i] == lines[i + 1]);
            }
        }
        lemma_lines_unlines(rest);
        let s = unlines(lines);
        lemma_feed_after(s, lines[0], unlines(rest), 0);
        assert(s.take(lines[0].len() as int) =~= lines[0]);
        assert(s.skip(lines[0].len() as int + 1) =~= unlines(rest));
        assert(lines.map_values(f) =~= seq![without_return(lines[0])] + rest.map_values(f));
    } else {
        assert(lines.map_values(f) =~= Seq::empty());
        assert(lines_of(unlines(lines)) =~= Seq::empty());
    }
}

proof fn lemma_pref_without_returns(lines: Seq<Seq<char>>, key: Seq<char>)
    ensures
        pref(lines.map_values(|l: Seq<char>| without_return(l)), key) == pref(lines, key),
    decreases lines.len(),
{
    let f = |l: Seq<char>| without_return(l);
    if lines.len() > 0 {
        lemma_pref_without_returns(lines.drop_last(), key);
        lemma_without_return(lines.last(), key);
        assert(lines.map_values(f).drop_last() =~= lines.drop_last().map_values(f));
    }
}

proof fn lemma_before_feed(s: Seq<char>, i: int, j: int)
    requires
        0 <= i <= j < line_feed(s, i),
        i <= s.len(),
    ensures
        j < s.len(),
        s[j] != '\n',
    decreases j - i,
{
    if i < j {
        lemma_before_feed(s, i + 1, j);
    }
}

pub proof fn lemma_lines_unbroken(s: Seq<char>)
    ensures
        unbroken(lines_of(s)),
    decreases s.len(),
{
    let n = line_feed(s, 0);
    if s.len() > 0 {
        assert forall|j: int| 0 <= j < n && j < s.len() implies #[trigger] s[j] != '\n' by {
            lemma_before_feed(s, 0, j);
        }
        if 0 <= n < s.len() {
            let rest = lines_of(s.skip(n + 1));
            lemma_lines_unbroken(s.skip(n + 1));
            let first = without_return(s.take(n));
            assert(lacks(first, '\n')) by {
                assert forall|i: int| 0 <= i < first.len() implies #[trigger] first[i] != '\n' by {
                    assert(first[i] == s[i]);
                }
            }
            assert forall|i: int| 0 <= i < lines_of(s).len() implies lacks(
                #[trigger] lines_of(s)[i],
                '\n',
            ) by {
                if i > 0 {
                    assert(lines_of(s)[i] == rest[i - 1]);
                }
            }
        } else {
            lemma_feed_end(s, 0);
            assert(lines_of(s) =~= seq![s]);
        }
    }
}

proof fn lemma_feed_end(s: Seq<char>, i: int)
    requires
        0 <= i <= s.len(),
    ensures
        i <= line_feed(s, i) <= s.len(),
    decreases s.len() - i,
{
    if i < s.len() && s[i] != '\n' {
        lemma_feed_end(s, i + 1);
    }
}

pub proof fn lemma_kept_unbroken(lines: Seq<Seq<char>>, key: Seq<char>)
    requires
        unbroken(lines),
    ensures
        unbroken(collected(lines, keeper(key))),
    decreases lines.len(),
{
    if lines.len() > 0 {
        let rest = lines.drop_last();
        assert forall|i: int| 0 <= i < rest.len() implies lacks(#[trigger] rest[i], '\n') by {
            assert(rest[i] == lines[i]);
        }
        lemma_kept_unbroken(rest, key);
        assert(lacks(lines[lines.len() - 1], '\n'));
    }
}

/// The lines of the file after a preference has been set, read back from its
/// text, are the lines that were written but for a carriage return at the end.
pub proof fn lemma_set_unbroken(text: Seq<char>, key: Seq<char>, value: Seq<char>)
    requires
        proper_key(key),
        proper_value(value),
    ensures
        unbroken(set_lines(lines_of(text), key, value)),
        lines_of(set_text(text, key, value)) == set_lines(lines_of(text), key, value).map_values(
            |l: Seq<char>| without_return(l),
        ),
{
    let lines = lines_of(text);
    let new = set_lines(lines, key, value);
    lemma_lines_unbroken(text);
    lemma_kept_unbroken(lines, key);
    assert(unbroken(new)) by {
        reveal_strlit("=");
        let line = prefix_of(key) + value;
        assert(lacks(line, '\n')) by {
            assert forall|i: int| 0 <= i < line.len() implies #[trigger] line[i] != '\n' by {
                if i < key.len() {
                    assert(line[i] == key[i]);
                } else if i > key.len() {
                    assert(line[i] == value[i - key.len() - 1]);
                }
            }
        }
        let kept = collected(lines, keeper(key));
        assert forall|i: int| 0 <= i < new.len() implies lacks(#[trigger] new[i], '\n') by {
            if i < kept.len() {
                assert(new[i] == kept[i]);
            }
        }
    }
    lemma_lines_unlines(new);
}

/// What holds of the lines holds of the file: after a preference has been set
/// in its text, reading the text gives the value it was set to, and every
/// other preference as before.
pub proof fn law_prefs_file(
    text: Seq<char>,
    key: Seq<char>,
    value: Seq<char>,
    other: Seq<char>,
)
    requires
        proper_key(key),
        proper_value(value),
        lacks(other, '='),
    ensures
        pref(lines_of(set_text(text, key, value)), key) == Some(value),
        other != key ==> pref(lines_of(set_text(text, key, value)), other) == pref(
            lines_of(text),
            other,
        ),
{
    let lines = lines_of(text);
    let new = set_lines(lines, key, value);
    lemma_set_unbroken(text, key, value);
    lemma_pref_without_returns(new, key);
    lemma_pref_without_returns(new, other);
    law_pref_set(lines, key, value, other);
}

/// The part of a number's notation before its exponent.
pub open spec fn before_exponent(s: Seq<char>) -> Seq<char> {
    s.take(first_index(s, 'e', 'E', 0))
}

pub open spec fn has_digit(s: Seq<char>) -> bool {
    exists|i: int| 0 <= i < s.len() && '0' <= #[trigger] s[i] <= '9'
}

/// The number that a preference's value denotes: a sign, digits with a
/// decimal point, and an exponent, of which only some digits must be there.
pub open spec fn number_of(s: Seq<char>) -> Option<int> {
    let unsigned = if s.len() > 0 && (s[0] == '+' || s[0] == '-') {
        s.skip(1)
    } else {
        s
    };
    if !has_digit(before_exponent(unsigned)) || (unsigned.len() > 0 && unsigned[0] == '-') {
        None
    } else if s[0] == '-' {
        match fixed_of(unsigned) {
            Some(x) => Some(-x),
            None => None,
        }
    } else {
        fixed_of(unsigned)
    }
}

fn any_digit(v: &Vec<char>) -> (r: bool)
    ensures
        r == has_digit(before_exponent(v@)),
{
    let mut i: usize = 0;
    let mut seen: bool = false;
    let ghost e = first_index(v@, 'e', 'E', 0);
    while i < v.len() && v[i] != 'e' && v[i] != 'E'
        invariant
            i <= v.len(),
            e == first_index(v@, 'e', 'E', 0),
            e == first_index(v@, 'e', 'E', i as int),
            seen == exists|j: int| 0 <= j < i && '0' <= #[trigger] v@[j] <= '9',
        decreases v.len() - i,
    {
        if '0' <= v[i] && v[i] <= '9' {
            seen = true;
        }
        i += 1;
    }
    assert(e == i);
    proof {
        let head = before_exponent(v@);
        assert(head =~= v@.take(i as int));
        assert forall|j: int| 0 <= j < i implies #[trigger] v@[j] == head[j] by {}
        if has_digit(head) {
            let j = choose|j: int| 0 <= j < head.len() && '0' <= #[trigger] head[j] <= '9';
            assert('0' <= v@[j] <= '9');
        }
    }
    seen
}

/// The number that a preference's value denotes.
pub fn read_number(text: &str) -> (r: Option<i128>)
    ensures
        match r {
            Some(x) => number_of(text@) == Some(x as int),
            None => number_of(text@) is None,
        },
{
    let v: Vec<char> = chars_of(text);
    let signed: bool = v.len() > 0 && (v[0] == '+' || v[0] == '-');
    let from: usize = if signed {
        1
    } else {
        0
    };
    let rest: String = text_of(&v, from, v.len());
    assert(signed ==> rest@ =~= text@.skip(1));
    assert(!signed ==> rest@ =~= text@);
    let digits: Vec<char> = chars_of(rest.as_str());
    if !any_digit(&digits) || (digits.len() > 0 && digits[0] == '-') {
        return None;
    }
    proof {
        let head = before_exponent(rest@);
        let j = choose|j: int| 0 <= j < head.len() && '0' <= #[trigger] head[j] <= '9';
        assert(0 <= j < head.len());
        if rest@.len() == 0 {
            assert(head.len() == 0);
        }
        assert(v.len() > 0);
    }
    match read_fixed(rest.as_str()) {
        Some(x) => if v[0] == '-' {
            Some(-x)
        } else {
            Some(x)
        },
        None => None,
    }
}

/// Scale of the preview: the preference, or one half.
pub fn preview_scale(text: &str) -> (r: i128)
    ensures
        r == (match pref(lines_of(text@), "preview_scale"@) {
            Some(v) => match number_of(v) {
                Some(x) => x,
                None => 500_000_000,
            },
            None => 500_000_000,
        }),
{
    match pref_value(text, "preview_scale") {
        Some(v) => match read_number(v.as_str()) {
            Some(x) => x,
            None => 500_000_000,
        },
        None => 500_000_000,
    }
}

/// Set the scale of the preview.
pub fn prefs_set_preview_scale(text: &str, value: i128) -> (r: String)
    requires
        in_range(value as int),
    ensures
        r@ == set_text(text@, "preview_scale"@, fixed_notation(value as int)),
{
    prefs_set(text, "preview_scale", fixed_text(value).as_str())
}

/// Which of the choices full, half, quarter a preview scale stands for.
pub fn quality_choice(scale: i128) -> (r: u32)
    ensures
        r == (if scale >= 990_000_000 {
            0u32
        } else if scale >= 490_000_000 {
            1u32
        } else {
            2u32
        }),
{
    if scale >= 990_000_000 {
        0
    } else if scale >= 490_000_000 {
        1
    } else {
        2
    }
}

/// The preview scale that one of the choices full, half, quarter stands for.
pub fn quality_scale(choice: u32) -> (r: i128)
    ensures
        r == (if choice == 0 {
            1_000_000_000i128
        } else if choice == 2 {
            250_000_000i128
        } else {
            500_000_000i128
        }),
{
    if choice == 0 {
        1_000_000_000
    } else if choice == 2 {
        250_000_000
    } else {
        500_000_000
    }
}

/// Font family of new texts and built-in templates.
pub open spec fn font_family(text: Seq<char>) -> Seq<char> {
    match pref(lines_of(text), "default_font_family"@) {
        Some(v) => if v.len() > 0 {
            v
        } else {
            "Sans"@
        },
        None => "Sans"@,
    }
}

/// Font family of new texts and built-in templates: the preference, or
/// `Sans`.
pub fn prefs_default_font_family(text: &str) -> (r: String)
    ensures
        r@ == font_family(text@),
{
    match pref_value(text, "default_font_family") {
        Some(v) => if v.as_str().is_empty() {
            "Sans".to_owned()
        } else {
            v
        },
        None => "Sans".to_owned(),
    }
}

/// Set the font family of new texts.
pub fn prefs_set_default_font_family(text: &str, value: &str) -> (r: String)
    ensures
        r@ == set_text(text@, "default_font_family"@, value@),
{
    prefs_set(text, "default_font_family", value)
}

/// A font description names the family `Sans` first: it is that word, alone,
/// before white space, or before the comma of a list of families.
pub open spec fn names_sans(description: Seq<char>) -> bool {
    begins_with(description, "Sans"@) && (description.len() == 4 || description[4] == ','
        || white_space(description[4]))
}

/// A font description with the family `Sans` replaced by `family`; other
/// descriptions stay.
pub open spec fn with_family(description: Seq<char>, family: Seq<char>) -> Seq<char> {
    if names_sans(description) {
        family + description.skip(4)
    } else {
        description
    }
}

/// Rewrite a font description's leading family to the preferred one, such as
/// `Sans Bold 32` to `Verdana Bold 32`. A description of another family stays
/// as it is.
pub fn apply_default_font_family(description: &str, text: &str) -> (r: String)
    ensures
        r@ == with_family(description@, font_family(text@)),
{
    let family: String = prefs_default_font_family(text);
    proof {
        reveal_strlit("Sans");
    }
    if same(family.as_str(), "Sans") {
        proof {
            if names_sans(description@) {
                assert(description@.take(4) + description@.skip(4) =~= description@);
            }
        }
        return description.to_owned();
    }
    match after_prefix(description, "Sans") {
        Some(rest) => {
            proof {
                assert(rest@ == description@.skip(4));
            }
            if rest.as_str().is_empty() {
                return joined(family.as_str(), rest.as_str());
            }
            let next: char = rest.as_str().get_char(0);
            if next == ',' || next.is_whitespace() {
                joined(family.as_str(), rest.as_str())
            } else {
                description.to_owned()
            }
        },
        None => description.to_owned(),
    }
}

/// Some line, trimmed, is exactly `wanted`.
pub open spec fn has_line(lines: Seq<Seq<char>>, wanted: Seq<char>) -> bool {
    exists|i: int| 0 <= i < lines.len() && trimmed(#[trigger] lines[i]) == wanted
}

fn any_line(text: &str, wanted: &str) -> (r: bool)
    ensures
        r == has_line(lines_of(text@), wanted@),
{
    let lines: Vec<String> = split_lines(text);
    let ghost all = lines_of(text@);
    let mut i: usize = 0;
    while i < lines.len()
        invariant
            i <= lines.len(),
            all == lines_of(text@),
            views(lines@) == all,
            forall|j: int| 0 <= j < i ==> trimmed(#[trigger] all[j]) != wanted@,
        decreases lines.len() - i,
    {
        let line: String = trim(lines[i].as_str());
        if same(line.as_str(), wanted) {
            assert(trimmed(all[i as int]) == wanted@);
            return true;
        }
        i += 1;
    }
    false
}

/// Whether previews use lightweight copies of the media; on unless disabled.
pub fn prefs_use_proxies(text: &str) -> (r: bool)
    ensures
        r == !has_line(lines_of(text@), "use_proxies=false"@),
{
    !any_line(text, "use_proxies=false")
}

fn flag_text(value: bool) -> (r: String)
    ensures
        r@ == (if value {
            "true"@
        } else {
            "false"@
        }),
{
    if value {
        "true".to_owned()
    } else {
        "false".to_owned()
    }
}

/// Switch the use of lightweight copies on or off.
pub fn prefs_set_use_proxies(text: &str, value: bool) -> (r: String)
    ensures
        r@ == set_text(
            text@,
            "use_proxies"@,
            if value {
                "true"@
            } else {
                "false"@
            },
        ),
{
    prefs_set(text, "use_proxies", flag_text(value).as_str())
}

/// Whether the editor shows its script panel; off unless enabled.
pub fn prefs_show_script(text: &str) -> (r: bool)
    ensures
        r == has_line(lines_of(text@), "show_script=true"@),
{
    any_line(text, "show_script=true")
}

/// Show or hide the script panel.
pub fn prefs_set_show_script(text: &str, value: bool) -> (r: String)
    ensures
        r@ == set_text(
            text@,
            "show_script"@,
            if value {
                "true"@
            } else {
                "false"@
            },
        ),
{
    prefs_set(text, "show_script", flag_text(value).as_str())
}

/// Most entries that the list of recent projects holds.
pub const RECENTS: usize = 8;

/// The first entries of a list, as many as the list of recent projects
/// holds.
pub open spec fn cut_recents(s: Seq<Seq<char>>) -> Seq<Seq<char>> {
    if s.len() > RECENTS {
        s.take(RECENTS as int)
    } else {
        s
    }
}

/// The entries whose files exist, from number `i` on.
pub open spec fn existing(lines: Seq<Seq<char>>, present: Seq<bool>, i: int) -> Seq<Seq<char>>
    decreases lines.len() - i,
{
    if i >= lines.len() {
        Seq::empty()
    } else if i < present.len() && present[i] {
        seq![lines[i]] + existing(lines, present, i + 1)
    } else {
        existing(lines, present, i + 1)
    }
}

/// The recent projects that still exist, at most eight. `present[i]` tells
/// whether the file of entry `i` exists.
pub fn load_recents(entries: &Vec<String>, present: &Vec<bool>) -> (r: Vec<String>)
    ensures
        views(r@) == cut_recents(existing(views(entries@), present@, 0)),
{
    let mut out: Vec<String> = Vec::new();
    let ghost all = views(entries@);
    let mut i: usize = 0;
    assert(views(out@) + existing(all, present@, 0) =~= existing(all, present@, 0));
    while i < entries.len() && out.len() < RECENTS
        invariant
            i <= entries.len(),
            all == views(entries@),
            out@.len() <= RECENTS,
            views(out@) + existing(all, present@, i as int) == existing(all, present@, 0),
        decreases entries.len() - i,
    {
        let ghost before = views(out@);
        if i < present.len() && present[i] {
            out.push(entries[i].clone());
            assert(views(out@) + existing(all, present@, i + 1) =~= before + (seq![all[i as int]]
                + existing(all, present@, i + 1)));
        }
        i += 1;
    }
    proof {
        let e = existing(all, present@, 0);
        if out@.len() >= RECENTS {
            assert(e.take(RECENTS as int) =~= views(out@));
            assert(cut_recents(e) =~= views(out@));
        } else {
            assert(existing(all, present@, i as int) =~= Seq::empty());
            assert(e =~= views(out@));
        }
    }
    out
}

pub open spec fn unlike(path: Seq<char>) -> spec_fn(Seq<char>) -> Option<Seq<char>> {
    |p: Seq<char>|
        if p == path {
            None
        } else {
            Some(p)
        }
}

/// The list of recent projects with `path` at its head.
pub open spec fn remembered(entries: Seq<Seq<char>>, path: Seq<char>) -> Seq<Seq<char>> {
    cut_recents(seq![path] + collected(entries, unlike(path)))
}

/// Put a project at the head of the list of recent projects.
pub fn remember_recent(entries: &Vec<String>, path: &str) -> (r: Vec<String>)
    requires
        entries@.len() < usize::MAX,
    ensures
        views(r@) == remembered(views(entries@), path@),
{
    let mut out: Vec<String> = Vec::new();
    out.push(path.to_owned());
    let ghost all = views(entries@);
    let mut i: usize = 0;
    assert(views(out@) =~= seq![path@] + collected(all.take(0), unlike(path@)));
    while i < entries.len()
        invariant
            i <= entries.len(),
            all == views(entries@),
            views(out@) == seq![path@] + collected(all.take(i as int), unlike(path@)),
            out@.len() <= i + 1,
        decreases entries.len() - i,
    {
        proof {
            lemma_collected_step(all, unlike(path@), i as int);
        }
        if !same(entries[i].as_str(), path) {
            out.push(entries[i].clone());
            assert(views(out@) =~= seq![path@] + collected(all.take(i + 1), unlike(path@)));
        }
        i += 1;
    }
    assert(all.take(i as int) =~= all);
    let ghost full = views(out@);
    if out.len() > RECENTS {
        out.truncate(RECENTS);
        assert(views(out@) =~= full.take(RECENTS as int));
    }
    out
}

/// The project opened last heads the list, which holds it once and never more
/// than eight entries.
pub proof fn law_remembered(entries: Seq<Seq<char>>, path: Seq<char>)
    ensures
        remembered(entries, path).len() <= RECENTS,
        remembered(entries, path)[0] == path,
        forall|i: int|
            1 <= i < remembered(entries, path).len() ==> #[trigger] remembered(entries, path)[i]
                != path,
        entries.no_duplicates() ==> remembered(entries, path).no_duplicates(),
{
    let rest = collected(entries, unlike(path));
    let r = remembered(entries, path);
    assert forall|i: int| 1 <= i < r.len() implies #[trigger] r[i] != path by {
        lemma_collected_member(entries, unlike(path), i - 1);
        assert(r[i] == rest[i - 1]);
    }
    if entries.no_duplicates() {
        lemma_unlike_distinct(entries, path);
        assert forall|i: int, j: int| 0 <= i < r.len() && 0 <= j < r.len() && i != j implies r[i]
            != r[j] by {
            if i == 0 {
                assert(r[j] != path);
            } else if j == 0 {
                assert(r[i] != path);
            } else {
                assert(r[i] == rest[i - 1]);
                assert(r[j] == rest[j - 1]);
            }
        }
    }
}

proof fn lemma_unlike_distinct(entries: Seq<Seq<char>>, path: Seq<char>)
    requires
        entries.no_duplicates(),
    ensures
        collected(entries, unlike(path)).no_duplicates(),
    decreases entries.len(),
{
    if entries.len() > 0 {
        let rest = entries.drop_last();
        lemma_unlike_distinct(rest, path);
        let kept = collected(rest, unlike(path));
        assert forall|k: int| 0 <= k < kept.len() implies kept[k] != entries.last() by {
            lemma_collected_member(rest, unlike(path), k);
            let i = choose|i: int|
                0 <= i < rest.len() && unlike(path)(#[trigger] rest[i]) == Some(kept[k]);
            assert(rest[i] == entries[i]);
        }
    }
}

/// The text of a list of recent projects: the entries with line feeds between
/// them.
pub open spec fn recents_lines(entries: Seq<Seq<char>>, n: int) -> Seq<char>
    decreases n,
{
    if n <= 0 {
        Seq::empty()
    } else if n == 1 {
        entries[0]
    } else {
        recents_lines(entries, n - 1) + seq!['\n'] + entries[n - 1]
    }
}

/// The text that a list of recent projects is kept as.
pub fn recents_text(entries: &Vec<String>) -> (r: String)
    ensures
        r@ == recents_lines(views(entries@), entries@.len() as int),
{
    let mut s: String = String::new();
    let mut i: usize = 0;
    while i < entries.len()
        invariant
            i <= entries.len(),
            s@ == recents_lines(views(entries@), i as int),
        decreases entries.len() - i,
    {
        if i > 0 {
            s.push('\n');
        }
        s.append(entries[i].as_str());
        proof {
            let all = views(entries@);
            if i == 0 {
                assert(s@ =~= all[0]);
            } else {
                assert(s@ =~= recents_lines(all, i as int) + seq!['\n'] + all[i as int]);
            }
        }
        i += 1;
    }
    s
}

/// Of the recent projects those stay whose files exist, in order, and no more
/// than eight.
pub proof fn law_existing(lines: Seq<Seq<char>>, present: Seq<bool>, i: int)
    requires
        0 <= i <= lines.len(),
        lines.len() == present.len(),
    ensures
        cut_recents(lines).len() <= 8,
        lines.len() <= 8 ==> cut_recents(lines) == lines,
        forall|k: int| 0 <= k < cut_recents(lines).len() ==> cut_recents(lines)[k] == lines[k],
        forall|k: int|
            i <= k < lines.len() && #[trigger] present[k] ==> existing(lines, present, i).contains(
                lines[k],
            ),
        forall|j: int|
            0 <= j < existing(lines, present, i).len() ==> exists|k: int|
                i <= k < lines.len() && #[trigger] present[k] && lines[k] == #[trigger] existing(
                    lines,
                    present,
                    i,
                )[j],
    decreases lines.len() - i,
{
    if i < lines.len() {
        law_existing(lines, present, i + 1);
        let rest = existing(lines, present, i + 1);
        let all = existing(lines, present, i);
        assert forall|k: int| i <= k < lines.len() && #[trigger] present[k] implies all.contains(
            lines[k],
        ) by {
            if k == i {
                assert(all[0] == lines[k]);
            } else {
                let x = choose|x: int| 0 <= x < rest.len() && rest[x] == lines[k];
                if present[i] {
                    assert(all[x + 1] == lines[k]);
                } else {
                    assert(all[x] == lines[k]);
                }
            }
        }
        assert forall|j: int| 0 <= j < all.len() implies exists|k: int|
            i <= k < lines.len() && #[trigger] present[k] && lines[k] == #[trigger] all[j] by {
            if present[i] {
                if j == 0 {
                    assert(present[i] && lines[i] == all[j]);
                } else {
                    assert(all[j] == rest[j - 1]);
                }
            } else {
                assert(all[j] == rest[j]);
            }
        }
    }
}

} // verus!
