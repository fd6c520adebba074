//! Which shortcut triggers which action: the defaults, the layouts of
//! well-known editors, and the choices kept in the preferences.

use vstd::prelude::*;
use crate::json::first_index;
use crate::keys::{all_actions, code_of, combo_of, is_ctrl, is_shift, lower_code, name_of, notation,
    parts_upto, pressed, Action, Combo, KeyEntryView, KeyTable, VOID_SYMBOL};
use crate::prefs::{keeper, lacks, law_prefs_file, lemma_set_unbroken, lemma_set_value,
    lemma_trim_push, lemma_without_return, pref, prefix_of, prefs_set, proper_key, proper_value,
    set_lines, set_text, value_in};
use crate::text::{chars_of, joined, same, text_of};
use crate::views::{collected, views};
use crate::words::{lemma_split_head, lines_of, lowered, split_by, split_lines, trim, trimmed,
    trimmed_end, trimmed_start, white_space, without_return};

verus! {

broadcast use crate::views::group_views;

/// The shortcuts of one editor, by its name.
#[derive(Debug)]
pub struct Preset {
    pub name: String,
    pub bindings: Vec<(Action, String)>,
}

#[verifier::ext_equal]
pub struct PresetView {
    pub name: Seq<char>,
    pub bindings: Seq<(Action, Seq<char>)>,
}

impl View for Preset {
    type V = PresetView;

    open spec fn view(&self) -> PresetView {
        PresetView {
            name: self.name@,
            bindings: Seq::new(
                self.bindings@.len(),
                |i: int| (self.bindings@[i].0, self.bindings@[i].1@),
            ),
        }
    }
}

/// A full set of shortcuts, of which only those to split and to delete differ
/// between editors.
pub open spec fn layout(split: Seq<char>, delete: Seq<char>) -> Seq<(Action, Seq<char>)> {
    seq![
        (Action::PlayPause, "space"@),
        (Action::StepBack, "Left"@),
        (Action::StepForward, "Right"@),
        (Action::GoStart, "Home"@),
        (Action::GoEnd, "End"@),
        (Action::Split, split),
        (Action::RippleDelete, delete),
        (Action::Undo, "ctrl+z"@),
        (Action::Redo, "ctrl+shift+z"@),
    ]
}

/// The shortcuts of this editor.
pub open spec fn defaults() -> Seq<(Action, Seq<char>)> {
    layout("s"@, "Delete"@)
}

/// The layouts to choose from. Where another editor's plain delete leaves a
/// gap, its ripple delete is taken.
pub open spec fn preset_list() -> Seq<PresetView> {
    seq![
        PresetView { name: "Dualcut (default)"@, bindings: defaults() },
        PresetView {
            name: "Adobe Premiere Pro"@,
            bindings: layout("ctrl+k"@, "shift+Delete"@),
        },
        PresetView { name: "DaVinci Resolve"@, bindings: layout("ctrl+b"@, "shift+Delete"@) },
        PresetView { name: "Final Cut Pro"@, bindings: layout("ctrl+b"@, "Delete"@) },
        PresetView { name: "iMovie"@, bindings: layout("ctrl+b"@, "Delete"@) },
    ]
}

/// The shortcut that a list has for an action, from number `i` on.
pub open spec fn listed(
    bindings: Seq<(Action, Seq<char>)>,
    action: Action,
    i: int,
) -> Option<Seq<char>>
    decreases bindings.len() - i,
{
    if i >= bindings.len() {
        None
    } else if bindings[i].0 == action {
        Some(bindings[i].1)
    } else {
        listed(bindings, action, i + 1)
    }
}

fn make(name: &str, split: &str, delete: &str) -> (r: Preset)
    ensures
        r@ == (PresetView { name: name@, bindings: layout(split@, delete@) }),
{
    let mut v: Vec<(Action, String)> = Vec::new();
    v.push((Action::PlayPause, "space".to_owned()));
    v.push((Action::StepBack, "Left".to_owned()));
    v.push((Action::StepForward, "Right".to_owned()));
    v.push((Action::GoStart, "Home".to_owned()));
    v.push((Action::GoEnd, "End".to_owned()));
    v.push((Action::Split, split.to_owned()));
    v.push((Action::RippleDelete, delete.to_owned()));
    v.push((Action::Undo, "ctrl+z".to_owned()));
    v.push((Action::Redo, "ctrl+shift+z".to_owned()));
    let p: Preset = Preset { name: name.to_owned(), bindings: v };
    assert(p@.bindings =~= layout(split@, delete@));
    p
}

/// The shortcuts of this editor.
pub fn default_preset() -> (r: Preset)
    ensures
        r@ == preset_list()[0],
{
    make("Dualcut (default)", "s", "Delete")
}

/// The layouts to choose from.
pub fn presets() -> (r: Vec<Preset>)
    ensures
        views(r@) == preset_list(),
{
    let mut v: Vec<Preset> = Vec::new();
    v.push(default_preset());
    v.push(make("Adobe Premiere Pro", "ctrl+k", "shift+Delete"));
    v.push(make("DaVinci Resolve", "ctrl+b", "shift+Delete"));
    v.push(make("Final Cut Pro", "ctrl+b", "Delete"));
    v.push(make("iMovie", "ctrl+b", "Delete"));
    assert(views(v@) =~= preset_list());
    v
}

/// Every layout has a shortcut for every action.
pub proof fn law_presets_complete(i: int, action: Action)
    requires
        0 <= i < preset_list().len(),
    ensures
        listed(preset_list()[i].bindings, action, 0) is Some,
{
    reveal_with_fuel(listed, 10);
    assert(preset_list().len() == 5);
    let b = preset_list()[i].bindings;
    assert(b.len() == 9);
    assert(b[0].0 == Action::PlayPause);
    assert(b[1].0 == Action::StepBack);
    assert(b[2].0 == Action::StepForward);
    assert(b[3].0 == Action::GoStart);
    assert(b[4].0 == Action::GoEnd);
    assert(b[5].0 == Action::Split);
    assert(b[6].0 == Action::RippleDelete);
    assert(b[7].0 == Action::Undo);
    assert(b[8].0 == Action::Redo);
}

/// The preference that holds the shortcut of an action.
pub open spec fn pref_key(action: Action) -> Seq<char> {
    "key."@ + action.key_text()
}

/// The shortcut that a line of the preferences gives to an action.
pub open spec fn bound_by(t: Seq<KeyEntryView>, line: Seq<char>, key: Seq<char>) -> Option<Combo> {
    let n = first_index(line, '=', '=', 0);
    if n < line.len() && trimmed(line.take(n)) == key {
        combo_of(t, trimmed(line.skip(n + 1)))
    } else {
        None
    }
}

/// The shortcut that the preferences give to an action: that of the first
/// line that gives it a readable one.
pub open spec fn bound_in(
    t: Seq<KeyEntryView>,
    lines: Seq<Seq<char>>,
    key: Seq<char>,
) -> Option<Combo>
    decreases lines.len(),
{
    if lines.len() == 0 {
        None
    } else {
        match bound_in(t, lines.drop_last(), key) {
            Some(c) => Some(c),
            None => bound_by(t, lines.last(), key),
        }
    }
}

/// The default shortcut of an action.
pub open spec fn default_combo(t: Seq<KeyEntryView>, action: Action) -> Option<Combo> {
    match listed(defaults(), action, 0) {
        Some(s) => combo_of(t, s),
        None => None,
    }
}

/// The shortcut of an action: the preference, the default, or none that can
/// be pressed.
pub open spec fn binding_of(t: Seq<KeyEntryView>, text: Seq<char>, action: Action) -> Combo {
    match bound_in(t, lines_of(text), pref_key(action)) {
        Some(c) => c,
        None => match default_combo(t, action) {
            Some(c) => c,
            None => Combo { key: VOID_SYMBOL, ctrl: false, shift: false },
        },
    }
}

fn bound_by_line(line: &str, key: &str, table: &KeyTable) -> (r: Option<Combo>)
    ensures
        r == bound_by(table@, line@, key@),
{
    let v: Vec<char> = chars_of(line);
    let mut n: usize = 0;
    while n < v.len() && v[n] != '='
        invariant
            n <= v.len(),
            v@ == line@,
            first_index(line@, '=', '=', 0) == first_index(line@, '=', '=', n as int),
        decreases v.len() - n,
    {
        n += 1;
    }
    if n >= v.len() {
        return None;
    }
    let head: String = text_of(&v, 0, n);
    assert(head@ =~= line@.take(n as int));
    if !same(trim(head.as_str()).as_str(), key) {
        return None;
    }
    let tail: String = text_of(&v, n + 1, v.len());
    assert(tail@ =~= line@.skip(n + 1));
    Combo::parse(trim(tail.as_str()).as_str(), table)
}

fn listed_in(bindings: &Vec<(Action, String)>, action: Action) -> (r: Option<String>)
    ensures
        ({
            let all = Seq::new(bindings@.len(), |i: int| (bindings@[i].0, bindings@[i].1@));
            match r {
                Some(s) => listed(all, action, 0) == Some(s@),
                None => listed(all, action, 0) is None,
            }
        }),
{
    let ghost all = Seq::new(bindings@.len(), |i: int| (bindings@[i].0, bindings@[i].1@));
    let mut i: usize = 0;
    while i < bindings.len()
        invariant
            i <= bindings.len(),
            all == Seq::new(bindings@.len(), |i: int| (bindings@[i].0, bindings@[i].1@)),
            listed(all, action, 0) == listed(all, action, i as int),
        decreases bindings.len() - i,
    {
        if bindings[i].0 == action {
            return Some(bindings[i].1.clone());
        }
        i += 1;
    }
    None
}

/// The shortcut of an action, given the text of the preferences file.
pub fn binding(text: &str, action: Action, table: &KeyTable) -> (r: Combo)
    ensures
        r == binding_of(table@, text@, action),
{
    let lines: Vec<String> = split_lines(text);
    let ghost all = lines_of(text@);
    let key: String = joined("key.", action.key());
    let mut found: Option<Combo> = None;
    let mut i: usize = 0;
    while i < lines.len()
        invariant
            i <= lines.len(),
            views(lines@) == all,
            key@ == pref_key(action),
            found == bound_in(table@, all.take(i as int), key@),
        decreases lines.len() - i,
    {
        proof {
            assert(all.take(i + 1).drop_last() =~= all.take(i as int));
            assert(all.take(i + 1).last() == lines@[i as int]@);
        }
        if found.is_none() {
            found = bound_by_line(lines[i].as_str(), key.as_str(), table);
        }
        i += 1;
    }
    assert(all.take(i as int) =~= all);
    match found {
        Some(c) => c,
        None => {
            let preset: Preset = default_preset();
            match listed_in(&preset.bindings, action) {
                Some(s) => match Combo::parse(s.as_str(), table) {
                    Some(c) => c,
                    None => Combo::new(VOID_SYMBOL, false, false),
                },
                None => Combo::new(VOID_SYMBOL, false, false),
            }
        },
    }
}

/// Keep a shortcut for an action in the text of the preferences file.
pub fn set_binding(text: &str, action: Action, combo: Combo, table: &KeyTable) -> (r: String)
    ensures
        r@ == set_text(text@, pref_key(action), notation(table@, combo)),
{
    prefs_set(text, joined("key.", action.key()).as_str(), combo.format(table).as_str())
}

/// The shortcut that a layout gives to an action, or the default if it has
/// none.
pub open spec fn preset_combo(
    t: Seq<KeyEntryView>,
    bindings: Seq<(Action, Seq<char>)>,
    action: Action,
) -> Option<Combo> {
    match listed(bindings, action, 0) {
        Some(s) => combo_of(t, s),
        None => default_combo(t, action),
    }
}

/// The preferences after the first `n` actions have got the shortcuts of a
/// layout.
pub open spec fn preset_text(
    t: Seq<KeyEntryView>,
    text: Seq<char>,
    bindings: Seq<(Action, Seq<char>)>,
    n: int,
) -> Seq<char>
    decreases n,
{
    if n <= 0 {
        text
    } else {
        let before = preset_text(t, text, bindings, n - 1);
        let action = all_actions()[n - 1];
        match preset_combo(t, bindings, action) {
            Some(c) => set_text(before, pref_key(action), notation(t, c)),
            None => before,
        }
    }
}

/// Take over all shortcuts of a layout, also for the actions that it does not
/// mention, so that no earlier choice stays behind.
pub fn apply_preset(text: &str, preset: &Preset, table: &KeyTable) -> (r: String)
    ensures
        r@ == preset_text(table@, text@, preset@.bindings, 9),
{
    let actions: Vec<Action> = Action::all();
    let fallback: Preset = default_preset();
    let mut out: String = text.to_owned();
    let mut i: usize = 0;
    while i < actions.len()
        invariant
            i <= actions.len(),
            actions@ == all_actions(),
            fallback@ == preset_list()[0],
            out@ == preset_text(table@, text@, preset@.bindings, i as int),
        decreases actions.len() - i,
    {
        let action: Action = actions[i];
        let combo: Option<Combo> = match listed_in(&preset.bindings, action) {
            Some(s) => Combo::parse(s.as_str(), table),
            None => match listed_in(&fallback.bindings, action) {
                Some(s) => Combo::parse(s.as_str(), table),
                None => None,
            },
        };
        match combo {
            Some(c) => {
                out = set_binding(out.as_str(), action, c, table);
            },
            None => {},
        }
        i += 1;
    }
    out
}

/// The action that a key press triggers, from action `i` on.
pub open spec fn triggered(
    t: Seq<KeyEntryView>,
    text: Seq<char>,
    key: u32,
    ctrl: bool,
    shift: bool,
    i: int,
) -> Option<Action>
    decreases all_actions().len() - i,
{
    if i >= all_actions().len() {
        None
    } else if pressed(t, binding_of(t, text, all_actions()[i]), key, ctrl, shift) {
        Some(all_actions()[i])
    } else {
        triggered(t, text, key, ctrl, shift, i + 1)
    }
}

/// The action that a key press triggers, given the text of the preferences
/// file.
pub fn action_for(text: &str, key: u32, ctrl: bool, shift: bool, table: &KeyTable) -> (r: Option<
    Action,
>)
    ensures
        r == triggered(table@, text@, key, ctrl, shift, 0),
{
    let actions: Vec<Action> = Action::all();
    let mut i: usize = 0;
    while i < actions.len()
        invariant
            i <= actions.len(),
            actions@ == all_actions(),
            triggered(table@, text@, key, ctrl, shift, 0) == triggered(
                table@,
                text@,
                key,
                ctrl,
                shift,
                i as int,
            ),
        decreases actions.len() - i,
    {
        if binding(text, actions[i], table).matches(key, ctrl, shift, table) {
            return Some(actions[i]);
        }
        i += 1;
    }
    None
}

/// A key name that can stand in a shortcut's notation.
pub open spec fn plain_name(n: Seq<char>) -> bool {
    &&& n.len() > 0
    &&& lacks(n, '+')
    &&& lacks(n, '\n')
    &&& !white_space(n[0])
    &&& !white_space(n.last())
    &&& !is_ctrl(n)
    &&& !is_shift(n)
}

/// A key in lower case whose name leads back to it.
pub open spec fn nameable(t: Seq<KeyEntryView>, code: u32) -> bool {
    match name_of(t, code) {
        Some(n) => plain_name(n) && code_of(t, n) == Some(code) && lower_code(t, code) == code,
        None => false,
    }
}

proof fn lemma_trim_plain(n: Seq<char>)
    requires
        n.len() > 0,
        !white_space(n[0]),
        !white_space(n.last()),
    ensures
        trimmed(n) == n,
{
    assert(trimmed_start(n) == n);
}

proof fn lemma_modifiers()
    ensures
        trimmed("ctrl"@) == "ctrl"@,
        trimmed("shift"@) == "shift"@,
        is_ctrl("ctrl"@),
        !is_ctrl("shift"@),
        is_shift("shift"@),
        lacks("ctrl"@, '+'),
        lacks("shift"@, '+'),
        "ctrl+"@ == "ctrl"@ + seq!['+'],
        "shift+"@ == "shift"@ + seq!['+'],
{
    reveal_strlit("ctrl");
    reveal_strlit("shift");
    reveal_strlit("cmd");
    reveal_strlit("primary");
    reveal_strlit("ctrl+");
    reveal_strlit("shift+");
    lemma_trim_plain("ctrl"@);
    lemma_trim_plain("shift"@);
    assert(lowered("ctrl"@) =~= "ctrl"@);
    assert(lowered("shift"@) =~= "shift"@);
    assert(lowered("shift"@).len() == 5);
    assert("ctrl+"@ =~= "ctrl"@ + seq!['+']);
    assert("shift+"@ =~= "shift"@ + seq!['+']);
}

/// A shortcut is read back from its notation, if its key has a plain name.
pub proof fn law_combo_notation(t: Seq<KeyEntryView>, c: Combo)
    requires
        nameable(t, c.key),
    ensures
        combo_of(t, notation(t, c)) == Some(c),
{
    let n = name_of(t, c.key)->0;
    let s = notation(t, c);
    lemma_modifiers();
    lemma_trim_plain(n);
    lemma_split_head(n, Seq::empty(), '+');
    reveal_with_fuel(parts_upto, 4);
    let shifted = "shift"@ + seq!['+'] + n;
    lemma_split_head("shift"@, n, '+');
    if c.ctrl && c.shift {
        lemma_split_head("ctrl"@, shifted, '+');
        assert(s =~= "ctrl"@ + seq!['+'] + shifted);
        assert(split_by(s, '+') =~= seq!["ctrl"@, "shift"@, n]);
    } else if c.ctrl {
        lemma_split_head("ctrl"@, n, '+');
        assert(s =~= "ctrl"@ + seq!['+'] + n);
        assert(split_by(s, '+') =~= seq!["ctrl"@, n]);
    } else if c.shift {
        assert(s =~= shifted);
        assert(split_by(s, '+') =~= seq!["shift"@, n]);
    } else {
        assert(s =~= n);
        assert(split_by(s, '+') =~= seq![n]);
    }
}

/// What a line says before its first equals sign.
pub open spec fn key_in(line: Seq<char>) -> Option<Seq<char>> {
    let n = first_index(line, '=', '=', 0);
    if n < line.len() {
        Some(trimmed(line.take(n)))
    } else {
        None
    }
}

/// Lines that name `key` have the equals sign directly behind it.
pub open spec fn tidy(lines: Seq<Seq<char>>, key: Seq<char>) -> bool {
    forall|i: int|
        0 <= i < lines.len() && key_in(#[trigger] lines[i]) == Some(key) ==> value_in(
            lines[i],
            key,
        ) is Some
}

proof fn lemma_first_index(s: Seq<char>, i: int, n: int)
    requires
        0 <= i <= n <= s.len(),
        forall|j: int| i <= j < n ==> #[trigger] s[j] != '=',
        n < s.len() ==> s[n] == '=',
    ensures
        first_index(s, '=', '=', i) == n,
    decreases n - i,
{
    if i < n {
        lemma_first_index(s, i + 1, n);
    }
}

proof fn lemma_first_index_bounds(s: Seq<char>, i: int)
    requires
        0 <= i <= s.len(),
    ensures
        i <= first_index(s, '=', '=', i) <= s.len(),
        forall|j: int| i <= j < first_index(s, '=', '=', i) ==> #[trigger] s[j] != '=',
        first_index(s, '=', '=', i) < s.len() ==> s[first_index(s, '=', '=', i)] == '=',
    decreases s.len() - i,
{
    if i < s.len() && s[i] != '=' {
        lemma_first_index_bounds(s, i + 1);
    }
}

/// Number of leading white space characters.
proof fn lemma_leading(s: Seq<char>) -> (k: int)
    ensures
        0 <= k <= s.len(),
        trimmed_start(s) == s.skip(k),
        forall|i: int| 0 <= i < k ==> white_space(#[trigger] s[i]),
    decreases s.len(),
{
    if s.len() > 0 && white_space(s[0]) {
        let k = lemma_leading(s.skip(1));
        assert(s.skip(1).skip(k) =~= s.skip(k + 1));
        assert forall|i: int| 0 <= i < k + 1 implies white_space(#[trigger] s[i]) by {
            if i > 0 {
                assert(s.skip(1)[i - 1] == s[i]);
            }
        }
        k + 1
    } else {
        assert(s.skip(0) =~= s);
        0
    }
}

proof fn lemma_trim_after_white(ws: Seq<char>, y: Seq<char>)
    requires
        forall|i: int| 0 <= i < ws.len() ==> white_space(#[trigger] ws[i]),
        y.len() > 0,
        !white_space(y[0]),
        !white_space(y.last()),
    ensures
        trimmed(ws + y) == y,
    decreases ws.len(),
{
    if ws.len() > 0 {
        assert((ws + y).skip(1) =~= ws.skip(1) + y);
        assert((ws + y)[0] == ws[0]);
        assert forall|i: int| 0 <= i < ws.skip(1).len() implies white_space(
            #[trigger] ws.skip(1)[i],
        ) by {
            assert(ws.skip(1)[i] == ws[i + 1]);
        }
        lemma_trim_after_white(ws.skip(1), y);
    } else {
        assert(ws + y =~= y);
        lemma_trim_plain(y);
    }
}

proof fn lemma_trimmed_end_prefix(s: Seq<char>)
    ensures
        trimmed_end(s).len() <= s.len(),
        trimmed_end(s) == s.take(trimmed_end(s).len() as int),
        forall|i: int| trimmed_end(s).len() <= i < s.len() ==> white_space(#[trigger] s[i]),
    decreases s.len(),
{
    if s.len() > 0 && white_space(s.last()) {
        lemma_trimmed_end_prefix(s.drop_last());
        let e = trimmed_end(s);
        assert(s.take(e.len() as int) =~= s.drop_last().take(e.len() as int));
        assert forall|i: int| e.len() <= i < s.len() implies white_space(#[trigger] s[i]) by {
            if i < s.len() - 1 {
                assert(s.drop_last()[i] == s[i]);
            }
        }
    } else {
        assert(s.take(s.len() as int) =~= s);
    }
}

/// A key whose first and last characters are no white space.
pub open spec fn firm_key(key: Seq<char>) -> bool {
    proper_key(key) && !white_space(key.last())
}

proof fn lemma_value_names(line: Seq<char>, key: Seq<char>)
    requires
        firm_key(key),
        value_in(line, key) is Some,
    ensures
        key_in(line) == Some(key),
{
    reveal_strlit("=");
    let k = lemma_leading(line);
    let x = line.skip(k);
    lemma_trimmed_end_prefix(x);
    let t = trimmed(line);
    let p = prefix_of(key);
    assert(t == x.take(t.len() as int));
    let n = k + key.len();
    assert forall|i: int| 0 <= i < p.len() implies line[k + i] == #[trigger] p[i] by {
        assert(t.take(p.len() as int)[i] == t[i]);
        assert(t[i] == x[i]);
    }
    assert(line[n] == p[key.len() as int]);
    assert forall|j: int| 0 <= j < n implies #[trigger] line[j] != '=' by {
        if j >= k {
            assert(line[k + (j - k)] == p[j - k]);
            assert(p[j - k] == key[j - k]);
        }
    }
    lemma_first_index(line, 0, n);
    let ws = line.take(k);
    assert(line.take(n) =~= ws + key) by {
        assert forall|j: int| 0 <= j < n implies line.take(n)[j] == (ws + key)[j] by {
            if j >= k {
                assert(line[k + (j - k)] == p[j - k]);
            }
        }
    }
    assert forall|i: int| 0 <= i < ws.len() implies white_space(#[trigger] ws[i]) by {
        assert(ws[i] == line[i]);
    }
    lemma_trim_after_white(ws, key);
}

proof fn lemma_blank_names_nothing(line: Seq<char>)
    requires
        trimmed(line).len() == 0,
    ensures
        key_in(line) is None,
{
    let k = lemma_leading(line);
    let x = line.skip(k);
    lemma_trimmed_end_prefix(x);
    lemma_first_index_bounds(line, 0);
    let n = first_index(line, '=', '=', 0);
    if n < line.len() {
        if n >= k {
            assert(x[n - k] == line[n]);
        }
    }
}

proof fn lemma_kept_bindings(
    t: Seq<KeyEntryView>,
    lines: Seq<Seq<char>>,
    key: Seq<char>,
    other: Seq<char>,
)
    requires
        firm_key(key),
        tidy(lines, key),
        tidy(lines, other),
    ensures
        bound_in(t, collected(lines, keeper(key)), key) is None,
        other != key ==> bound_in(t, collected(lines, keeper(key)), other) == bound_in(
            t,
            lines,
            other,
        ),
        tidy(collected(lines, keeper(key)), key),
        tidy(collected(lines, keeper(key)), other),
    decreases lines.len(),
{
    if lines.len() > 0 {
        let rest = lines.drop_last();
        let line = lines.last();
        assert(line == lines[lines.len() - 1]);
        assert forall|i: int| 0 <= i < rest.len() implies #[trigger] rest[i] == lines[i] by {}
        lemma_kept_bindings(t, rest, key, other);
        let kept = collected(rest, keeper(key));
        match keeper(key)(line) {
            Some(l) => {
                assert(kept.push(l).drop_last() =~= kept);
                assert forall|i: int| 0 <= i < kept.push(l).len() implies (#[trigger] kept.push(
                    l,
                )[i] == kept[i] || i == kept.len()) by {}
            },
            None => {
                if value_in(line, key) is Some {
                    lemma_value_names(line, key);
                } else {
                    lemma_blank_names_nothing(line);
                }
            },
        }
    }
}

proof fn lemma_new_line(t: Seq<KeyEntryView>, key: Seq<char>, value: Seq<char>)
    requires
        firm_key(key),
        proper_value(value),
        value.len() > 0,
        !white_space(value[0]),
    ensures
        key_in(prefix_of(key) + value) == Some(key),
        bound_by(t, prefix_of(key) + value, key) == combo_of(t, value),
{
    reveal_strlit("=");
    let line = prefix_of(key) + value;
    lemma_set_value(key, value);
    lemma_value_names(line, key);
    lemma_first_index(line, 0, key.len() as int);
    assert(line.skip(key.len() as int + 1) =~= value);
    lemma_trim_plain(value);
}

proof fn lemma_returns_bind_nothing(t: Seq<KeyEntryView>, line: Seq<char>, key: Seq<char>)
    ensures
        bound_by(t, without_return(line), key) == bound_by(t, line, key),
        key_in(without_return(line)) == key_in(line),
        value_in(without_return(line), key) == value_in(line, key),
{
    lemma_without_return(line, key);
    if line.len() > 0 && line.last() == '\r' {
        let short = line.drop_last();
        lemma_first_index_bounds(line, 0);
        let n = first_index(line, '=', '=', 0);
        assert(short == without_return(line));
        if n < line.len() {
            assert(n < short.len());
            lemma_first_index(short, 0, n);
            assert(short.take(n) =~= line.take(n));
            let tail = short.skip(n + 1);
            assert(tail.push('\r') =~= line.skip(n + 1));
            lemma_trim_push(tail, '\r');
        } else {
            lemma_first_index(short, 0, short.len() as int);
        }
    }
}

proof fn lemma_returns_bind(t: Seq<KeyEntryView>, lines: Seq<Seq<char>>, key: Seq<char>)
    ensures
        bound_in(t, lines.map_values(|l: Seq<char>| without_return(l)), key) == bound_in(
            t,
            lines,
            key,
        ),
        tidy(lines, key) ==> tidy(lines.map_values(|l: Seq<char>| without_return(l)), key),
    decreases lines.len(),
{
    let f = |l: Seq<char>| without_return(l);
    let mapped = lines.map_values(f);
    if lines.len() > 0 {
        lemma_returns_bind(t, lines.drop_last(), key);
        lemma_returns_bind_nothing(t, lines.last(), key);
        assert(mapped.drop_last() =~= lines.drop_last().map_values(f));
    }
    if tidy(lines, key) {
        assert forall|i: int|
            0 <= i < mapped.len() && key_in(#[trigger] mapped[i]) == Some(key) implies value_in(
            mapped[i],
            key,
        ) is Some by {
            lemma_returns_bind_nothing(t, lines[i], key);
            assert(mapped[i] == without_return(lines[i]));
        }
    }
}

proof fn lemma_set_bindings(
    t: Seq<KeyEntryView>,
    text: Seq<char>,
    key: Seq<char>,
    value: Seq<char>,
    other: Seq<char>,
)
    requires
        firm_key(key),
        proper_value(value),
        value.len() > 0,
        !white_space(value[0]),
        combo_of(t, value) is Some,
        tidy(lines_of(text), key),
        tidy(lines_of(text), other),
    ensures
        bound_in(t, lines_of(set_text(text, key, value)), key) == combo_of(t, value),
        other != key ==> bound_in(t, lines_of(set_text(text, key, value)), other) == bound_in(
            t,
            lines_of(text),
            other,
        ),
        tidy(lines_of(set_text(text, key, value)), key),
        tidy(lines_of(set_text(text, key, value)), other),
{
    let lines = lines_of(text);
    let new = set_lines(lines, key, value);
    let kept = collected(lines, keeper(key));
    let line = prefix_of(key) + value;
    lemma_kept_bindings(t, lines, key, other);
    lemma_new_line(t, key, value);
    lemma_set_value(key, value);
    lemma_set_unbroken(text, key, value);
    assert(new.drop_last() =~= kept);
    assert forall|i: int| 0 <= i < new.len() implies (#[trigger] new[i] == kept[i] || (i
        == kept.len() && new[i] == line)) by {}
    assert(tidy(new, key));
    assert(tidy(new, other));
    lemma_returns_bind(t, new, key);
    lemma_returns_bind(t, new, other);
}

proof fn lemma_pref_keys(a: Action, b: Action)
    ensures
        firm_key(pref_key(a)),
        a != b ==> pref_key(a) != pref_key(b),
{
    reveal_strlit("key.");
    reveal_strlit("play_pause");
    reveal_strlit("step_back");
    reveal_strlit("step_forward");
    reveal_strlit("go_start");
    reveal_strlit("go_end");
    reveal_strlit("split");
    reveal_strlit("ripple_delete");
    reveal_strlit("undo");
    reveal_strlit("redo");
    let x = pref_key(a);
    let y = pref_key(b);
    assert(x[4] == a.key_text()[0]);
    assert(y[4] == b.key_text()[0]);
    assert(x.last() == a.key_text().last());
}

proof fn lemma_notation_proper(t: Seq<KeyEntryView>, c: Combo)
    requires
        nameable(t, c.key),
    ensures
        proper_value(notation(t, c)),
        notation(t, c).len() > 0,
        !white_space(notation(t, c)[0]),
{
    reveal_strlit("ctrl+");
    reveal_strlit("shift+");
    let n = name_of(t, c.key)->0;
    let s = notation(t, c);
    let a = if c.ctrl {
        "ctrl+"@
    } else {
        Seq::empty()
    };
    let b = if c.shift {
        "shift+"@
    } else {
        Seq::empty()
    };
    assert(s == a + b + n);
    assert(s.last() == n.last());
    assert forall|i: int| 0 <= i < s.len() implies #[trigger] s[i] != '\n' by {
        if i < a.len() {
            assert(s[i] == a[i]);
        } else if i < a.len() + b.len() {
            assert(s[i] == b[i - a.len()]);
        } else {
            assert(s[i] == n[i - a.len() - b.len()]);
        }
    }
    if c.ctrl {
        assert(s[0] == a[0]);
    } else if c.shift {
        assert(s[0] == b[0]);
    } else {
        assert(s[0] == n[0]);
    }
}

/// A shortcut that has been set for an action is the action's shortcut from
/// then on, and every other action keeps its own. Lines that put white space
/// between a preference and its equals sign are left out: they are read but
/// never replaced.
pub proof fn law_binding_set(
    t: Seq<KeyEntryView>,
    text: Seq<char>,
    action: Action,
    combo: Combo,
    other: Action,
)
    requires
        nameable(t, combo.key),
        tidy(lines_of(text), pref_key(action)),
        tidy(lines_of(text), pref_key(other)),
    ensures
        ({
            let new = set_text(text, pref_key(action), notation(t, combo));
            &&& binding_of(t, new, action) == combo
            &&& other != action ==> binding_of(t, new, other) == binding_of(t, text, other)
            &&& tidy(lines_of(new), pref_key(action))
            &&& tidy(lines_of(new), pref_key(other))
        }),
{
    lemma_pref_keys(action, other);
    law_combo_notation(t, combo);
    lemma_notation_proper(t, combo);
    lemma_set_bindings(t, text, pref_key(action), notation(t, combo), pref_key(other));
}

/// The shortcuts of a layout that can be read have plain key names.
pub open spec fn layout_nameable(t: Seq<KeyEntryView>, bindings: Seq<(Action, Seq<char>)>) -> bool {
    forall|a: Action|
        match #[trigger] preset_combo(t, bindings, a) {
            Some(c) => nameable(t, c.key),
            None => true,
        }
}

/// Every preference for a shortcut has its equals sign directly behind it.
pub open spec fn all_tidy(lines: Seq<Seq<char>>) -> bool {
    forall|a: Action| #[trigger] tidy(lines, pref_key(a))
}

proof fn lemma_action_index(action: Action) -> (i: int)
    ensures
        0 <= i < 9,
        all_actions()[i] == action,
        forall|j: int| 0 <= j < 9 && j != i ==> #[trigger] all_actions()[j] != action,
{
    let s = all_actions();
    assert(s.len() == 9);
    match action {
        Action::PlayPause => 0,
        Action::StepBack => 1,
        Action::StepForward => 2,
        Action::GoStart => 3,
        Action::GoEnd => 4,
        Action::Split => 5,
        Action::RippleDelete => 6,
        Action::Undo => 7,
        Action::Redo => 8,
    }
}

proof fn lemma_preset_upto(
    t: Seq<KeyEntryView>,
    text: Seq<char>,
    bindings: Seq<(Action, Seq<char>)>,
    n: int,
    action: Action,
    at: int,
)
    requires
        0 <= n <= 9,
        layout_nameable(t, bindings),
        all_tidy(lines_of(text)),
        0 <= at < 9,
        all_actions()[at] == action,
        forall|j: int| 0 <= j < 9 && j != at ==> #[trigger] all_actions()[j] != action,
    ensures
        all_tidy(lines_of(preset_text(t, text, bindings, n))),
        at < n ==> match preset_combo(t, bindings, action) {
            Some(c) => binding_of(t, preset_text(t, text, bindings, n), action) == c,
            None => binding_of(t, preset_text(t, text, bindings, n), action) == binding_of(
                t,
                text,
                action,
            ),
        },
        at >= n ==> binding_of(t, preset_text(t, text, bindings, n), action) == binding_of(
            t,
            text,
            action,
        ),
    decreases n,
{
    if n > 0 {
        lemma_preset_upto(t, text, bindings, n - 1, action, at);
        let before = preset_text(t, text, bindings, n - 1);
        let a = all_actions()[n - 1];
        match preset_combo(t, bindings, a) {
            Some(c) => {
                let new = preset_text(t, text, bindings, n);
                assert(tidy(lines_of(before), pref_key(a)));
                assert forall|b: Action| #[trigger] tidy(lines_of(new), pref_key(b)) by {
                    assert(tidy(lines_of(before), pref_key(b)));
                    law_binding_set(t, before, a, c, b);
                }
                assert(tidy(lines_of(before), pref_key(action)));
                law_binding_set(t, before, a, c, action);
            },
            None => {},
        }
    }
}

/// After a layout has been taken over, every action has the layout's
/// shortcut, or the default one if the layout does not mention it: no earlier
/// choice stays behind.
pub proof fn law_preset_applied(
    t: Seq<KeyEntryView>,
    text: Seq<char>,
    bindings: Seq<(Action, Seq<char>)>,
    action: Action,
)
    requires
        layout_nameable(t, bindings),
        all_tidy(lines_of(text)),
        preset_combo(t, bindings, action) is Some,
    ensures
        Some(binding_of(t, preset_text(t, text, bindings, 9), action)) == preset_combo(
            t,
            bindings,
            action,
        ),
{
    let at = lemma_action_index(action);
    lemma_preset_upto(t, text, bindings, 9, action, at);
}

proof fn lemma_preset_keeps(
    t: Seq<KeyEntryView>,
    text: Seq<char>,
    bindings: Seq<(Action, Seq<char>)>,
    n: int,
    other: Seq<char>,
)
    requires
        0 <= n <= 9,
        layout_nameable(t, bindings),
        lacks(other, '='),
        forall|a: Action| other != #[trigger] pref_key(a),
    ensures
        pref(lines_of(preset_text(t, text, bindings, n)), other) == pref(lines_of(text), other),
    decreases n,
{
    if n > 0 {
        lemma_preset_keeps(t, text, bindings, n - 1, other);
        let before = preset_text(t, text, bindings, n - 1);
        let a = all_actions()[n - 1];
        if let Some(c) = preset_combo(t, bindings, a) {
            lemma_pref_keys(a, a);
            lemma_notation_proper(t, c);
            law_prefs_file(before, pref_key(a), notation(t, c), other);
        }
    }
}

/// Taking over a layout leaves every preference alone that is no shortcut.
pub proof fn law_preset_keeps(
    t: Seq<KeyEntryView>,
    text: Seq<char>,
    bindings: Seq<(Action, Seq<char>)>,
    other: Seq<char>,
)
    requires
        layout_nameable(t, bindings),
        lacks(other, '='),
        forall|a: Action| other != #[trigger] pref_key(a),
    ensures
        pref(lines_of(preset_text(t, text, bindings, 9)), other) == pref(lines_of(text), other),
{
    lemma_preset_keeps(t, text, bindings, 9, other);
}

/// A key press triggers an action exactly where it is the shortcut of one, and
/// of several the first.
pub proof fn law_triggered(
    t: Seq<KeyEntryView>,
    text: Seq<char>,
    key: u32,
    ctrl: bool,
    shift: bool,
    i: int,
)
    requires
        0 <= i <= all_actions().len(),
    ensures
        match triggered(t, text, key, ctrl, shift, i) {
            Some(a) => exists|k: int|
                i <= k < all_actions().len() && a == #[trigger] all_actions()[k] && pressed(
                    t,
                    binding_of(t, text, a),
                    key,
                    ctrl,
                    shift,
                ) && forall|j: int|
                    i <= j < k ==> !pressed(
                        t,
                        binding_of(t, text, #[trigger] all_actions()[j]),
                        key,
                        ctrl,
                        shift,
                    ),
            None => forall|k: int|
                i <= k < all_actions().len() ==> !pressed(
                    t,
                    binding_of(t, text, #[trigger] all_actions()[k]),
                    key,
                    ctrl,
                    shift,
                ),
        },
    decreases all_actions().len() - i,
{
    if i < all_actions().len() {
        law_triggered(t, text, key, ctrl, shift, i + 1);
        assert(all_actions()[i] == all_actions()[i]);
    }
}

} // verus!
