//! Keyboard shortcuts: the actions they trigger, their notation, and the
//! layouts of well-known editors.

use vstd::prelude::*;
use crate::text::{chars_of, same};
use crate::views::views;
use crate::words::{lower_text, lowered, split_by, split_text, trim, trimmed, upper, upper_char};

verus! {

broadcast use crate::views::group_views;

/// What a shortcut can trigger.
#[derive(Debug, Clone, Copy, PartialEq, Eq, Hash, Structural)]
pub enum Action {
    PlayPause,
    StepBack,
    StepForward,
    GoStart,
    GoEnd,
    Split,
    RippleDelete,
    Undo,
    Redo,
}

/// All actions, in the order in which a key press looks for its action.
pub open spec fn all_actions() -> Seq<Action> {
    seq![
        Action::PlayPause,
        Action::StepBack,
        Action::StepForward,
        Action::GoStart,
        Action::GoEnd,
        Action::Split,
        Action::RippleDelete,
        Action::Undo,
        Action::Redo,
    ]
}

impl Action {
    /// The name of an action in the preferences.
    pub open spec fn key_text(self) -> Seq<char> {
        match self {
            Action::PlayPause => "play_pause"@,
            Action::StepBack => "step_back"@,
            Action::StepForward => "step_forward"@,
            Action::GoStart => "go_start"@,
            Action::GoEnd => "go_end"@,
            Action::Split => "split"@,
            Action::RippleDelete => "ripple_delete"@,
            Action::Undo => "undo"@,
            Action::Redo => "redo"@,
        }
    }

    /// The name of an action for people.
    pub open spec fn label_text(self) -> Seq<char> {
        match self {
            Action::PlayPause => "Play / Pause"@,
            Action::StepBack => "Step one frame back"@,
            Action::StepForward => "Step one frame forward"@,
            Action::GoStart => "Go to start"@,
            Action::GoEnd => "Go to end"@,
            Action::Split => "Split clip at playhead"@,
            Action::RippleDelete => "Delete selected clip (ripple)"@,
            Action::Undo => "Undo"@,
            Action::Redo => "Redo"@,
        }
    }

    /// All actions.
    pub fn all() -> (r: Vec<Action>)
        ensures
            r@ == all_actions(),
    {
        let mut v: Vec<Action> = Vec::new();
        v.push(Action::PlayPause);
        v.push(Action::StepBack);
        v.push(Action::StepForward);
        v.push(Action::GoStart);
        v.push(Action::GoEnd);
        v.push(Action::Split);
        v.push(Action::RippleDelete);
        v.push(Action::Undo);
        v.push(Action::Redo);
        assert(v@ =~= all_actions());
        v
    }

    /// The name of an action in the preferences.
    pub fn key(self) -> (r: &'static str)
        ensures
            r@ == self.key_text(),
    {
        match self {
            Action::PlayPause => "play_pause",
            Action::StepBack => "step_back",
            Action::StepForward => "step_forward",
            Action::GoStart => "go_start",
            Action::GoEnd => "go_end",
            Action::Split => "split",
            Action::RippleDelete => "ripple_delete",
            Action::Undo => "undo",
            Action::Redo => "redo",
        }
    }

    /// The name of an action for people.
    pub fn label(self) -> (r: &'static str)
        ensures
            r@ == self.label_text(),
    {
        match self {
            Action::PlayPause => "Play / Pause",
            Action::StepBack => "Step one frame back",
            Action::StepForward => "Step one frame forward",
            Action::GoStart => "Go to start",
            Action::GoEnd => "Go to end",
            Action::Split => "Split clip at playhead",
            Action::RippleDelete => "Delete selected clip (ripple)",
            Action::Undo => "Undo",
            Action::Redo => "Redo",
        }
    }
}

/// A key of the keyboard: a name, its code, and the code of its lower-case
/// form (its own for keys without case).
#[derive(Debug)]
pub struct KeyEntry {
    pub name: String,
    pub code: u32,
    pub lower: u32,
}

#[verifier::ext_equal]
pub struct KeyEntryView {
    pub name: Seq<char>,
    pub code: u32,
    pub lower: u32,
}

impl View for KeyEntry {
    type V = KeyEntryView;

    open spec fn view(&self) -> KeyEntryView {
        KeyEntryView { name: self.name@, code: self.code, lower: self.lower }
    }
}

/// The keys that the windowing system knows.
#[derive(Debug)]
pub struct KeyTable {
    pub entries: Vec<KeyEntry>,
}

impl View for KeyTable {
    type V = Seq<KeyEntryView>;

    open spec fn view(&self) -> Seq<KeyEntryView> {
        views(self.entries@)
    }
}

/// Code of the key that no keyboard has.
pub const VOID_SYMBOL: u32 = 0xff_ffff;

/// The code of the key with the given name, from entry `i` on.
pub open spec fn code_from(t: Seq<KeyEntryView>, name: Seq<char>, i: int) -> Option<u32>
    decreases t.len() - i,
{
    if i >= t.len() {
        None
    } else if t[i].name == name {
        Some(t[i].code)
    } else {
        code_from(t, name, i + 1)
    }
}

/// The entry of the key with the given code, from entry `i` on.
pub open spec fn entry_from(t: Seq<KeyEntryView>, code: u32, i: int) -> Option<KeyEntryView>
    decreases t.len() - i,
{
    if i >= t.len() {
        None
    } else if t[i].code == code {
        Some(t[i])
    } else {
        entry_from(t, code, i + 1)
    }
}

/// The code of the key with the given name.
pub open spec fn code_of(t: Seq<KeyEntryView>, name: Seq<char>) -> Option<u32> {
    code_from(t, name, 0)
}

/// The name of the key with the given code.
pub open spec fn name_of(t: Seq<KeyEntryView>, code: u32) -> Option<Seq<char>> {
    match entry_from(t, code, 0) {
        Some(e) => Some(e.name),
        None => None,
    }
}

/// The code of the lower-case form of a key.
pub open spec fn lower_code(t: Seq<KeyEntryView>, code: u32) -> u32 {
    match entry_from(t, code, 0) {
        Some(e) => e.lower,
        None => code,
    }
}

impl KeyTable {
    /// The code of the key with the given name.
    pub fn code(&self, name: &str) -> (r: Option<u32>)
        ensures
            r == code_of(self@, name@),
    {
        let mut i: usize = 0;
        while i < self.entries.len()
            invariant
                i <= self.entries.len(),
                code_of(self@, name@) == code_from(self@, name@, i as int),
            decreases self.entries.len() - i,
        {
            if same(self.entries[i].name.as_str(), name) {
                return Some(self.entries[i].code);
            }
            i += 1;
        }
        None
    }

    fn entry(&self, code: u32) -> (r: Option<&KeyEntry>)
        ensures
            match r {
                Some(e) => entry_from(self@, code, 0) == Some(e@),
                None => entry_from(self@, code, 0) is None,
            },
    {
        let mut i: usize = 0;
        while i < self.entries.len()
            invariant
                i <= self.entries.len(),
                entry_from(self@, code, 0) == entry_from(self@, code, i as int),
            decreases self.entries.len() - i,
        {
            if self.entries[i].code == code {
                return Some(&self.entries[i]);
            }
            i += 1;
        }
        None
    }

    /// The name of the key with the given code.
    pub fn name(&self, code: u32) -> (r: Option<String>)
        ensures
            match r {
                Some(n) => name_of(self@, code) == Some(n@),
                None => name_of(self@, code) is None,
            },
    {
        match self.entry(code) {
            Some(e) => Some(e.name.clone()),
            None => None,
        }
    }

    /// The code of the lower-case form of a key.
    pub fn to_lower(&self, code: u32) -> (r: u32)
        ensures
            r == lower_code(self@, code),
    {
        match self.entry(code) {
            Some(e) => e.lower,
            None => code,
        }
    }
}

/// A key with the modifiers held down with it.
#[derive(Debug, Clone, Copy, PartialEq, Eq, Hash, Structural)]
pub struct Combo {
    pub key: u32,
    pub ctrl: bool,
    pub shift: bool,
}

/// What the parts of a shortcut's notation say.
pub struct Parts {
    pub ctrl: bool,
    pub shift: bool,
    pub key: Seq<char>,
}

/// A word for the control key.
pub open spec fn is_ctrl(word: Seq<char>) -> bool {
    lowered(word) == "ctrl"@ || lowered(word) == "cmd"@ || lowered(word) == "primary"@
}

/// A word for the shift key.
pub open spec fn is_shift(word: Seq<char>) -> bool {
    lowered(word) == "shift"@
}

/// What the first `n` parts of a shortcut's notation say; the last part that
/// is no modifier names the key.
pub open spec fn parts_upto(parts: Seq<Seq<char>>, n: int) -> Parts
    decreases n,
{
    if n <= 0 {
        Parts { ctrl: false, shift: false, key: Seq::empty() }
    } else {
        let before = parts_upto(parts, n - 1);
        let part = trimmed(parts[n - 1]);
        if is_ctrl(part) {
            Parts { ctrl: true, ..before }
        } else if is_shift(part) {
            Parts { shift: true, ..before }
        } else {
            Parts { key: part, ..before }
        }
    }
}

/// The shortcut that a notation such as `ctrl+shift+z` denotes. A key name is
/// looked up as it stands, then in lower case; letters count in lower case.
pub open spec fn combo_of(t: Seq<KeyEntryView>, s: Seq<char>) -> Option<Combo> {
    let parts = split_by(s, '+');
    let p = parts_upto(parts, parts.len() as int);
    let code = match code_of(t, p.key) {
        Some(c) => Some(c),
        None => code_of(t, lowered(p.key)),
    };
    match code {
        Some(c) => Some(Combo { key: lower_code(t, c), ctrl: p.ctrl, shift: p.shift }),
        None => None,
    }
}

/// The notation of a shortcut, in the form that it is read in.
pub open spec fn notation(t: Seq<KeyEntryView>, c: Combo) -> Seq<char> {
    (if c.ctrl {
        "ctrl+"@
    } else {
        Seq::empty()
    }) + (if c.shift {
        "shift+"@
    } else {
        Seq::empty()
    }) + match name_of(t, c.key) {
        Some(n) => n,
        None => "?"@,
    }
}

/// The name of a key on display: a single letter is a capital.
pub open spec fn shown_name(name: Option<Seq<char>>) -> Seq<char> {
    match name {
        Some(n) => if n == "space"@ {
            "Space"@
        } else if n.len() == 1 {
            seq![upper_char(n[0])]
        } else {
            n
        },
        None => "?"@,
    }
}

/// A shortcut on display, such as `Ctrl+Shift+Z`.
pub open spec fn shown(t: Seq<KeyEntryView>, c: Combo) -> Seq<char> {
    (if c.ctrl {
        "Ctrl+"@
    } else {
        Seq::empty()
    }) + (if c.shift {
        "Shift+"@
    } else {
        Seq::empty()
    }) + shown_name(name_of(t, c.key))
}

/// A shortcut in the toolkit's accelerator syntax, such as `<Ctrl>Z`.
pub open spec fn accelerator(t: Seq<KeyEntryView>, c: Combo) -> Seq<char> {
    (if c.ctrl {
        "<Ctrl>"@
    } else {
        Seq::empty()
    }) + (if c.shift {
        "<Shift>"@
    } else {
        Seq::empty()
    }) + match name_of(t, c.key) {
        Some(n) => if n.len() == 1 {
            seq![upper_char(n[0])]
        } else {
            n
        },
        None => Seq::empty(),
    }
}

/// Whether a key press with these modifiers is the shortcut.
pub open spec fn pressed(t: Seq<KeyEntryView>, c: Combo, key: u32, ctrl: bool, shift: bool) -> bool {
    lower_code(t, key) == lower_code(t, c.key) && ctrl == c.ctrl && shift == c.shift
}

fn capital(name: &str) -> (r: String)
    requires
        name@.len() == 1,
    ensures
        r@ == seq![upper_char(name@[0])],
{
    let v: Vec<char> = chars_of(name);
    let mut s: String = String::new();
    s.push(upper(v[0]));
    assert(s@ =~= seq![upper_char(name@[0])]);
    s
}

fn with_modifiers(c: Combo, ctrl: &str, shift: &str, key: &str) -> (r: String)
    ensures
        r@ == (if c.ctrl {
            ctrl@
        } else {
            Seq::empty()
        }) + (if c.shift {
            shift@
        } else {
            Seq::empty()
        }) + key@,
{
    let mut s: String = String::new();
    if c.ctrl {
        s.append(ctrl);
    }
    if c.shift {
        s.append(shift);
    }
    s.append(key);
    assert(s@ =~= (if c.ctrl {
        ctrl@
    } else {
        Seq::empty()
    }) + (if c.shift {
        shift@
    } else {
        Seq::empty()
    }) + key@);
    s
}

fn single(name: &str) -> (r: bool)
    ensures
        r == (name@.len() == 1),
{
    chars_of(name).len() == 1
}

impl Combo {
    /// A key with modifiers.
    pub fn new(key: u32, ctrl: bool, shift: bool) -> (r: Combo)
        ensures
            r == (Combo { key, ctrl, shift }),
    {
        Combo { key, ctrl, shift }
    }

    /// Parse a shortcut such as `ctrl+shift+z` or `space`.
    pub fn parse(s: &str, table: &KeyTable) -> (r: Option<Combo>)
        ensures
            r == combo_of(table@, s@),
    {
        let parts: Vec<String> = split_text(s, '+');
        let ghost all = split_by(s@, '+');
        let mut ctrl: bool = false;
        let mut shift: bool = false;
        let mut key: String = String::new();
        let mut i: usize = 0;
        while i < parts.len()
            invariant
                i <= parts.len(),
                views(parts@) == all,
                ctrl == parts_upto(all, i as int).ctrl,
                shift == parts_upto(all, i as int).shift,
                key@ == parts_upto(all, i as int).key,
            decreases parts.len() - i,
        {
            let part: String = trim(parts[i].as_str());
            let word: String = lower_text(part.as_str());
            assert(part@ == trimmed(all[i as int]));
            if same(word.as_str(), "ctrl") || same(word.as_str(), "cmd") || same(
                word.as_str(),
                "primary",
            ) {
                ctrl = true;
            } else if same(word.as_str(), "shift") {
                shift = true;
            } else {
                key = part;
            }
            i += 1;
        }
        let code: Option<u32> = match table.code(key.as_str()) {
            Some(c) => Some(c),
            None => table.code(lower_text(key.as_str()).as_str()),
        };
        match code {
            Some(c) => Some(Combo { key: table.to_lower(c), ctrl, shift }),
            None => None,
        }
    }

    /// The notation of a shortcut, in the form that [`Combo::parse`] reads.
    pub fn format(self, table: &KeyTable) -> (r: String)
        ensures
            r@ == notation(table@, self),
    {
        let name: String = match table.name(self.key) {
            Some(n) => n,
            None => "?".to_owned(),
        };
        with_modifiers(self, "ctrl+", "shift+", name.as_str())
    }

    /// A shortcut for people to read, such as `Ctrl+Shift+Z`.
    pub fn display(self, table: &KeyTable) -> (r: String)
        ensures
            r@ == shown(table@, self),
    {
        let name: String = match table.name(self.key) {
            Some(n) => if same(n.as_str(), "space") {
                "Space".to_owned()
            } else if single(n.as_str()) {
                capital(n.as_str())
            } else {
                n
            },
            None => "?".to_owned(),
        };
        with_modifiers(self, "Ctrl+", "Shift+", name.as_str())
    }

    /// A shortcut in the toolkit's accelerator syntax, such as `<Ctrl>Z`.
    pub fn gtk_accel(self, table: &KeyTable) -> (r: String)
        ensures
            r@ == accelerator(table@, self),
    {
        let name: String = match table.name(self.key) {
            Some(n) => if single(n.as_str()) {
                capital(n.as_str())
            } else {
                n
            },
            None => String::new(),
        };
        with_modifiers(self, "<Ctrl>", "<Shift>", name.as_str())
    }

    /// Whether a key press with these modifiers is the shortcut.
    pub fn matches(self, key: u32, ctrl: bool, shift: bool, table: &KeyTable) -> (r: bool)
        ensures
            r == pressed(table@, self, key, ctrl, shift),
    {
        table.to_lower(key) == table.to_lower(self.key) && ctrl == self.ctrl && shift == self.shift
    }
}

/// A shortcut is pressed by its own key with just its own modifiers: with
/// another modifier held, or one of its own not held, it is not.
pub proof fn law_pressed(t: Seq<KeyEntryView>, c: Combo, key: u32, ctrl: bool, shift: bool)
    ensures
        pressed(t, c, c.key, c.ctrl, c.shift),
        pressed(t, c, key, ctrl, shift) ==> ctrl == c.ctrl && shift == c.shift && pressed(
            t,
            Combo { key, ctrl, shift },
            c.key,
            c.ctrl,
            c.shift,
        ),
        pressed(t, c, key, ctrl, shift) ==> !pressed(t, c, key, !ctrl, shift) && !pressed(
            t,
            c,
            key,
            ctrl,
            !shift,
        ),
{
}

/// A key is found by its name and by its code under the first entry that has
/// it; without an entry it has no name and stands for itself in lower case.
pub proof fn law_key_table(t: Seq<KeyEntryView>, i: int, code: u32)
    ensures
        0 <= i < t.len() && (forall|j: int| 0 <= j < i ==> (#[trigger] t[j]).name != t[i].name)
            ==> code_of(t, t[i].name) == Some(t[i].code),
        0 <= i < t.len() && (forall|j: int| 0 <= j < i ==> (#[trigger] t[j]).code != t[i].code)
            ==> name_of(t, t[i].code) == Some(t[i].name) && lower_code(t, t[i].code) == t[i].lower,
        (forall|j: int| 0 <= j < t.len() ==> (#[trigger] t[j]).code != code) ==> name_of(t, code)
            is None && lower_code(t, code) == code,
{
    if 0 <= i < t.len() && (forall|j: int| 0 <= j < i ==> (#[trigger] t[j]).name != t[i].name) {
        lemma_code_at(t, 0, i);
    }
    if 0 <= i < t.len() && (forall|j: int| 0 <= j < i ==> (#[trigger] t[j]).code != t[i].code) {
        lemma_entry_at(t, 0, i);
    }
    if forall|j: int| 0 <= j < t.len() ==> (#[trigger] t[j]).code != code {
        lemma_no_entry(t, 0, code);
    }
}

proof fn lemma_code_at(t: Seq<KeyEntryView>, k: int, i: int)
    requires
        0 <= k <= i < t.len(),
        forall|j: int| 0 <= j < i ==> (#[trigger] t[j]).name != t[i].name,
    ensures
        code_from(t, t[i].name, k) == Some(t[i].code),
    decreases i - k,
{
    if k < i {
        lemma_code_at(t, k + 1, i);
    }
}

proof fn lemma_entry_at(t: Seq<KeyEntryView>, k: int, i: int)
    requires
        0 <= k <= i < t.len(),
        forall|j: int| 0 <= j < i ==> (#[trigger] t[j]).code != t[i].code,
    ensures
        entry_from(t, t[i].code, k) == Some(t[i]),
    decreases i - k,
{
    if k < i {
        lemma_entry_at(t, k + 1, i);
    }
}

proof fn lemma_no_entry(t: Seq<KeyEntryView>, k: int, code: u32)
    requires
        0 <= k,
        forall|j: int| 0 <= j < t.len() ==> (#[trigger] t[j]).code != code,
    ensures
        entry_from(t, code, k) is None,
    decreases t.len() - k,
{
    if k < t.len() {
        lemma_no_entry(t, k + 1, code);
    }
}

} // verus!
