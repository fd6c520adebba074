//! The edit history of a session: what was changed, by whom, and how to get
//! back to it.

use vstd::prelude::*;
use crate::counts::{clip_count, count_clips, law_id_count};
use crate::document::{Project, ProjectView};
use crate::json::{natural, Json, NESTING};
use crate::numbers::{integer, lemma_decimal};
use crate::text::{decimal, decimal_text, same};
use crate::timeline::total_duration;
use crate::tree::{calm, lemma_calm_object, lemma_object, lemma_value_deeper, none, nothing, object,
    one, parse_tree, print_json, printed, put, text_json, tidy, value_in, JsonView};
use crate::validate::{all_ids, valid};
use crate::views::views;

verus! {

broadcast use crate::views::group_views;

/// Who made an edit.
#[derive(Debug, Clone, Copy, PartialEq, Eq, Structural)]
pub enum EditSource {
    /// The editor itself.
    Gui,
    /// An agent, through the HTTP interface.
    Agent,
    /// Somebody who changed the project file on disk.
    ExternalFile,
}

/// A number of clips: `1 clip`, `2 clips`.
pub open spec fn clips_text(n: nat) -> Seq<char> {
    decimal(n) + " clip"@ + (if n == 1 {
        ""@
    } else {
        "s"@
    })
}

/// A coarse description of what tells two documents apart.
pub open spec fn summary_of(prev: ProjectView, new: ProjectView) -> Seq<char> {
    let before = clip_count(prev);
    let after = clip_count(new);
    let change = total_duration(new.scenes) - total_duration(prev.scenes);
    if after > before {
        "Added "@ + clips_text((after - before) as nat)
    } else if after < before {
        "Removed "@ + clips_text((before - after) as nat)
    } else if new.scenes.len() > prev.scenes.len() {
        "Added scene"@
    } else if new.scenes.len() < prev.scenes.len() {
        "Removed scene"@
    } else if new.overlays.len() > prev.overlays.len() {
        "Added overlay track"@
    } else if new.overlays.len() < prev.overlays.len() {
        "Removed overlay track"@
    } else if new.defs.len() != prev.defs.len() {
        "Edited templates"@
    } else if change > 1_000_000 || change < -1_000_000 {
        "Changed timing"@
    } else {
        "Edited project"@
    }
}

fn counted(label: &str, n: u64) -> (r: String)
    ensures
        r@ == label@ + clips_text(n as nat),
{
    let mut s: String = label.to_owned();
    s.append(decimal_text(n as u128).as_str());
    s.append(" clip");
    s.append(if n == 1 {
        ""
    } else {
        "s"
    });
    assert(s@ =~= label@ + clips_text(n as nat));
    s
}

/// A coarse description of what tells two documents apart: it counts clips,
/// scenes, tracks and defs, then looks at the duration.
pub fn diff_summary(prev: &Project, new: &Project) -> (r: String)
    requires
        all_ids(prev@).len() <= u64::MAX,
        all_ids(new@).len() <= u64::MAX,
        prev@.fits(16),
        new@.fits(16),
    ensures
        r@ == summary_of(prev@, new@),
{
    proof {
        law_id_count(prev@);
        law_id_count(new@);
    }
    let before: u64 = count_clips(prev).unwrap();
    let after: u64 = count_clips(new).unwrap();
    if after > before {
        return counted("Added ", after - before);
    }
    if after < before {
        return counted("Removed ", before - after);
    }
    if new.scenes.len() > prev.scenes.len() {
        return "Added scene".to_owned();
    }
    if new.scenes.len() < prev.scenes.len() {
        return "Removed scene".to_owned();
    }
    if new.overlays.len() > prev.overlays.len() {
        return "Added overlay track".to_owned();
    }
    if new.overlays.len() < prev.overlays.len() {
        return "Removed overlay track".to_owned();
    }
    if new.defs.entries.len() != prev.defs.entries.len() {
        return "Edited templates".to_owned();
    }
    let change: i128 = new.duration() - prev.duration();
    if change > 1_000_000 || change < -1_000_000 {
        return "Changed timing".to_owned();
    }
    "Edited project".to_owned()
}

/// An edit that can be gone back on: the document as it was before, who made
/// the edit, what it was, and when (seconds since the epoch).
#[derive(Debug)]
pub struct HistoryEntry {
    pub snapshot: Project,
    pub source: EditSource,
    pub summary: String,
    pub at: u64,
}

#[verifier::ext_equal]
pub struct EntryView {
    pub snapshot: ProjectView,
    pub source: EditSource,
    pub summary: Seq<char>,
    pub at: int,
}

impl View for HistoryEntry {
    type V = EntryView;

    open spec fn view(&self) -> EntryView {
        EntryView {
            snapshot: self.snapshot@,
            source: self.source,
            summary: self.summary@,
            at: self.at as int,
        }
    }
}

/// An editing session: the document at hand, whether it has a file, the edits
/// that can be undone (oldest first) and the documents that can be redone.
#[derive(Debug)]
pub struct Session {
    pub project: Option<Project>,
    pub saved: bool,
    pub selected: Option<String>,
    pub history: Vec<HistoryEntry>,
    pub redo: Vec<Project>,
}

#[verifier::ext_equal]
pub struct SessionView {
    pub project: Option<ProjectView>,
    pub saved: bool,
    pub selected: Option<Seq<char>>,
    pub history: Seq<EntryView>,
    pub redo: Seq<ProjectView>,
}

pub open spec fn doc_view(p: Option<Project>) -> Option<ProjectView> {
    match p {
        Some(p) => Some(p@),
        None => None,
    }
}

impl View for Session {
    type V = SessionView;

    open spec fn view(&self) -> SessionView {
        SessionView {
            project: doc_view(self.project),
            saved: self.saved,
            selected: crate::document::opt_text(self.selected),
            history: views(self.history@),
            redo: views(self.redo@),
        }
    }
}

/// The document of a session, kept on the redo list.
pub open spec fn kept(s: SessionView) -> Seq<ProjectView> {
    match s.project {
        Some(p) => s.redo.push(p),
        None => s.redo,
    }
}

/// The session after an edit of its document has been put on record. An edit
/// of nothing is not recorded.
pub open spec fn recorded(s: SessionView, source: EditSource, summary: Seq<char>, at: int) -> SessionView {
    match s.project {
        Some(p) => SessionView {
            history: s.history.push(EntryView { snapshot: p, source, summary, at }),
            redo: Seq::empty(),
            ..s
        },
        None => s,
    }
}

/// The session after one step back, its document not yet replaced.
pub open spec fn stepped_back(s: SessionView) -> SessionView {
    if s.saved && s.history.len() > 0 {
        SessionView { history: s.history.drop_last(), redo: kept(s), ..s }
    } else {
        s
    }
}

/// The document that a step back leads to.
pub open spec fn undone(s: SessionView) -> Option<ProjectView> {
    if s.saved && s.history.len() > 0 && valid(s.history.last().snapshot) {
        Some(s.history.last().snapshot)
    } else {
        None
    }
}

/// The session after one step forward, its document not yet replaced.
pub open spec fn stepped_forward(s: SessionView, at: int) -> SessionView {
    if s.saved && s.redo.len() > 0 {
        SessionView {
            redo: s.redo.drop_last(),
            history: match s.project {
                Some(p) => s.history.push(
                    EntryView { snapshot: p, source: EditSource::Gui, summary: "Redo"@, at },
                ),
                None => s.history,
            },
            ..s
        }
    } else {
        s
    }
}

/// The document that a step forward leads to.
pub open spec fn redone(s: SessionView) -> Option<ProjectView> {
    if s.saved && s.redo.len() > 0 && valid(s.redo.last()) {
        Some(s.redo.last())
    } else {
        None
    }
}

/// The session after a jump to entry `i` of the history, its document not yet
/// replaced.
pub open spec fn jumped(s: SessionView, i: int) -> SessionView {
    if s.saved && 0 <= i < s.history.len() {
        SessionView { history: s.history.take(i), redo: kept(s), ..s }
    } else {
        s
    }
}

/// The document that a jump to entry `i` leads to.
pub open spec fn jump_target(s: SessionView, i: int) -> Option<ProjectView> {
    if s.saved && 0 <= i < s.history.len() && valid(s.history[i].snapshot) {
        Some(s.history[i].snapshot)
    } else {
        None
    }
}

/// The session with `p` as its document.
pub open spec fn adopted(s: SessionView, p: ProjectView) -> SessionView {
    SessionView { project: Some(p), ..s }
}

/// A session that starts afresh, its document still to come.
pub open spec fn restarted(s: SessionView, saved: bool) -> SessionView {
    SessionView { saved, selected: None, history: Seq::empty(), redo: Seq::empty(), ..s }
}

impl Session {
    /// Start afresh, as opening a file or asking for a new project does: the
    /// history goes, and nothing is selected.
    pub fn restart(&mut self, saved: bool)
        ensures
            final(self)@ == restarted(old(self)@, saved),
    {
        self.saved = saved;
        self.selected = None;
        self.history = Vec::new();
        self.redo = Vec::new();
        assert(views(self.history@) =~= Seq::empty());
        assert(views(self.redo@) =~= Seq::empty());
    }

    /// Take `project` as the document of the session.
    pub fn adopt(&mut self, project: Project)
        ensures
            final(self)@ == adopted(old(self)@, project@),
    {
        self.project = Some(project);
    }

    /// Put an edit on record, before its result is adopted: the document as
    /// it was can be gone back to, and what was undone before is forgotten.
    pub fn record(&mut self, source: EditSource, summary: String, at: u64)
        ensures
            final(self)@ == recorded(old(self)@, source, summary@, at as int),
    {
        match &self.project {
            Some(p) => {
                let snapshot: Project = p.clone();
                self.history.push(HistoryEntry { snapshot, source, summary, at });
                self.redo = Vec::new();
                assert(views(self.redo@) =~= Seq::empty());
            },
            None => {},
        }
    }

    /// Put an edit of the editor itself on record, with a summary of what it
    /// changes.
    pub fn commit(&mut self, next: &Project, at: u64)
        requires
            all_ids(next@).len() <= u64::MAX,
            next@.fits(16),
            match old(self)@.project {
                Some(p) => all_ids(p).len() <= u64::MAX && p.fits(16),
                None => true,
            },
        ensures
            final(self)@ == (match old(self)@.project {
                Some(p) => recorded(old(self)@, EditSource::Gui, summary_of(p, next@), at as int),
                None => old(self)@,
            }),
    {
        let summary: Option<String> = match &self.project {
            Some(p) => Some(diff_summary(p, next)),
            None => None,
        };
        match summary {
            Some(text) => self.record(EditSource::Gui, text, at),
            None => {},
        }
    }

    /// The document as it is, kept to be redone.
    fn keep(&mut self)
        ensures
            final(self)@ == (SessionView { redo: kept(old(self)@), ..old(self)@ }),
    {
        match &self.project {
            Some(p) => {
                let copy: Project = p.clone();
                self.redo.push(copy);
            },
            None => {},
        }
    }

    /// One step back: the document to return to, if there is a file to write
    /// it to, an edit to undo, and the document as it was is valid.
    pub fn undo(&mut self) -> (r: Option<Project>)
        ensures
            final(self)@ == stepped_back(old(self)@),
            doc_view(r) == undone(old(self)@),
    {
        if !self.saved {
            return None;
        }
        let ghost before = self@;
        match self.history.pop() {
            Some(entry) => {
                assert(views(self.history@) =~= before.history.drop_last());
                self.keep();
                if entry.snapshot.validate().is_ok() {
                    Some(entry.snapshot)
                } else {
                    None
                }
            },
            None => None,
        }
    }

    /// One step forward again.
    pub fn redo(&mut self, at: u64) -> (r: Option<Project>)
        ensures
            final(self)@ == stepped_forward(old(self)@, at as int),
            doc_view(r) == redone(old(self)@),
    {
        if !self.saved {
            return None;
        }
        let ghost before = self@;
        match self.redo.pop() {
            Some(next) => {
                assert(views(self.redo@) =~= before.redo.drop_last());
                match &self.project {
                    Some(p) => {
                        let snapshot: Project = p.clone();
                        self.history.push(
                            HistoryEntry {
                                snapshot,
                                source: EditSource::Gui,
                                summary: "Redo".to_owned(),
                                at,
                            },
                        );
                    },
                    None => {},
                }
                if next.validate().is_ok() {
                    Some(next)
                } else {
                    None
                }
            },
            None => None,
        }
    }

    /// Straight to the document as it was before entry `index` of the
    /// history; that entry and all later ones leave the history.
    pub fn jump_to_history(&mut self, index: usize) -> (r: Option<Project>)
        ensures
            final(self)@ == jumped(old(self)@, index as int),
            doc_view(r) == jump_target(old(self)@, index as int),
    {
        if !self.saved || index >= self.history.len() {
            return None;
        }
        let ghost before = self@;
        let snapshot: Project = self.history[index].snapshot.clone();
        self.history.truncate(index);
        assert(views(self.history@) =~= before.history.take(index as int));
        self.keep();
        if snapshot.validate().is_ok() {
            Some(snapshot)
        } else {
            None
        }
    }
}

/// Undoing a recorded edit gives back the document as it was before the edit,
/// and redoing gives the edited document again.
pub proof fn law_undo_redo(
    s: SessionView,
    next: ProjectView,
    source: EditSource,
    summary: Seq<char>,
    at: int,
)
    requires
        s.saved,
        s.project is Some,
        valid(s.project->0),
        valid(next),
    ensures
        ({
            let edited = adopted(recorded(s, source, summary, at), next);
            let back = adopted(stepped_back(edited), s.project->0);
            &&& undone(edited) == s.project
            &&& back.history == s.history
            &&& back.project == s.project
            &&& redone(back) == Some(next)
        }),
{
    let edited = adopted(recorded(s, source, summary, at), next);
    assert(edited.history.drop_last() =~= s.history);
    assert(stepped_back(edited).redo.last() == next);
}

/// A recorded edit leaves nothing to redo.
pub proof fn law_edit_clears_redo(s: SessionView, source: EditSource, summary: Seq<char>, at: int)
    requires
        s.project is Some,
    ensures
        recorded(s, source, summary, at).redo.len() == 0,
        redone(recorded(s, source, summary, at)) is None,
{
}

/// Jumping to the latest entry of the history is one step back.
pub proof fn law_jump_to_latest(s: SessionView)
    requires
        s.history.len() > 0,
    ensures
        jumped(s, s.history.len() - 1) == stepped_back(s),
        jump_target(s, s.history.len() - 1) == undone(s),
{
    assert(s.history.take(s.history.len() - 1) =~= s.history.drop_last());
}

/// Stepping back from any session with a file, then forward, restores its
/// document and leaves the same number of edits to undo.
pub proof fn law_back_and_forward(s: SessionView, at: int)
    requires
        s.saved,
        s.project is Some,
        valid(s.project->0),
        s.history.len() > 0,
        valid(s.history.last().snapshot),
    ensures
        ({
            let back = adopted(stepped_back(s), undone(s)->0);
            let again = adopted(stepped_forward(back, at), redone(back)->0);
            &&& again.project == s.project
            &&& again.redo == s.redo
            &&& again.history.len() == s.history.len()
            &&& again.history.last().snapshot == s.history.last().snapshot
        }),
{
    let back = adopted(stepped_back(s), undone(s)->0);
    assert(back.redo.drop_last() =~= s.redo);
}

/// The last entry with the given key: the one that counts.
pub open spec fn latest(m: Seq<(Seq<char>, JsonView)>, key: Seq<char>) -> Option<JsonView>
    decreases m.len(),
{
    if m.len() == 0 {
        None
    } else if m.last().0 == key {
        Some(m.last().1)
    } else {
        latest(m.drop_last(), key)
    }
}

fn last_member<'a>(j: &'a Json, key: &str) -> (r: Option<&'a Json>)
    ensures
        match r {
            Some(x) => j@ is Object && latest(j@->Object_0, key@) == Some(x@),
            None => j@ is Object ==> latest(j@->Object_0, key@) is None,
        },
{
    let v: &Vec<(String, Json)> = match j {
        Json::Object(v) => v,
        _ => return None,
    };
    proof {
        lemma_object(*v);
    }
    let ghost m = views(v@);
    let mut n: usize = v.len();
    assert(m.take(n as int) =~= m);
    while n > 0
        invariant
            n <= v.len(),
            m == views(v@),
            j@ == JsonView::Object(m),
            latest(m, key@) == latest(m.take(n as int), key@),
        decreases n,
    {
        n -= 1;
        proof {
            assert(m.take(n + 1).last() == m[n as int]);
            assert(m[n as int] == (v@[n as int].0@, v@[n as int].1@));
            assert(m.take(n + 1).drop_last() =~= m.take(n as int));
        }
        if same(v[n].0.as_str(), key) {
            return Some(&v[n].1);
        }
    }
    None
}

/// What a marker says of the edit that it announces: it is heeded if it is at
/// most five seconds old.
pub open spec fn marker_summary(marker: JsonView, now: int) -> Option<Seq<char>> {
    match marker {
        JsonView::Object(m) => match latest(m, "at_unix_ms"@) {
            Some(JsonView::Number(s)) => match natural(s) {
                Some(ms) => if s.len() == 0 || ms > u64::MAX || now - ms > 5000 {
                    None
                } else {
                    match latest(m, "summary"@) {
                        Some(JsonView::Text(t)) => Some(t),
                        _ => Some("Agent edit"@),
                    }
                },
                None => None,
            },
            _ => None,
        },
        _ => None,
    }
}

/// The edit that a marker announces, `now` milliseconds after the epoch.
pub fn marker_edit(marker: &Json, now: u64) -> (r: Option<(EditSource, String)>)
    ensures
        match r {
            Some((source, summary)) => source == EditSource::Agent && marker_summary(
                marker@,
                now as int,
            ) == Some(summary@),
            None => marker_summary(marker@, now as int) is None,
        },
{
    let ms: u64 = match last_member(marker, "at_unix_ms") {
        Some(at) => match at.as_u64() {
            Some(ms) => ms,
            None => return None,
        },
        None => return None,
    };
    if now > ms && now - ms > 5000 {
        return None;
    }
    match last_member(marker, "summary") {
        Some(s) => match s.as_text() {
            Some(text) => Some((EditSource::Agent, text.clone())),
            None => Some((EditSource::Agent, "Agent edit".to_owned())),
        },
        None => Some((EditSource::Agent, "Agent edit".to_owned())),
    }
}

/// The edit that the text of a marker file announces.
pub fn agent_edit(text: &str, now: u64) -> (r: Option<(EditSource, String)>)
    ensures
        match r {
            Some((source, summary)) => source == EditSource::Agent && value_in(
                text@,
                NESTING as nat,
            ) is Some && marker_summary(value_in(text@, NESTING as nat)->0, now as int) == Some(
                summary@,
            ),
            None => match value_in(text@, NESTING as nat) {
                Some(j) => marker_summary(j, now as int) is None,
                None => true,
            },
        },
{
    match parse_tree(text) {
        Some(j) => marker_edit(&j, now),
        None => None,
    }
}

/// The marker of an edit.
pub open spec fn marker(summary: Seq<char>, at: int) -> JsonView {
    JsonView::Object(
        none() + one("summary"@, JsonView::Text(summary)) + one(
            "at_unix_ms"@,
            JsonView::Number(integer(at)),
        ),
    )
}

/// The text of the marker that announces an edit of an agent, `at` milliseconds
/// after the epoch.
pub fn marker_text(summary: &str, at: u64) -> (r: String)
    ensures
        Some(r@) == printed(marker(summary@, at as int)),
        value_in(r@, NESTING as nat) == Some(marker(summary@, at as int)),
{
    broadcast use {crate::tree::group_calm, crate::tree::group_entries};

    let mut m: Vec<(String, Json)> = nothing();
    put(&mut m, "summary", text_json(summary));
    put(&mut m, "at_unix_ms", Json::Number(decimal_text(at as u128)));
    let j: Json = object(m);
    let r: Option<String> = print_json(&j);
    proof {
        lemma_marker_words();
        assert(integer(at as int) == decimal(at as nat));
        assert(j@ == marker(summary@, at as int));
        assert(tidy(j@->Object_0, 0, true));
        lemma_calm_object(j@->Object_0, 1, true);
        assert(calm(j@, 1, true));
        lemma_value_deeper(r->0@, 1, NESTING as nat);
    }
    r.unwrap()
}

proof fn lemma_marker_words()
    ensures
        "summary"@ != "at_unix_ms"@,
{
    reveal_strlit("summary");
    reveal_strlit("at_unix_ms");
    assert("summary"@.len() != "at_unix_ms"@.len());
}

/// What an agent announces is what the history shows: a marker that is at most
/// five seconds old stands for its edit, and an older one for none.
pub proof fn law_marker(summary: Seq<char>, at: int, now: int)
    requires
        0 <= at <= u64::MAX,
    ensures
        marker_summary(marker(summary, at), now) == (if now - at > 5000 {
            None
        } else {
            Some(summary)
        }),
{
    broadcast use crate::tree::group_entries;

    lemma_marker_words();
    let m = marker(summary, at)->Object_0;
    assert(m.drop_last() =~= none() + one("summary"@, JsonView::Text(summary)));
    assert(m.drop_last().last() == ("summary"@, JsonView::Text(summary)));
    reveal_with_fuel(latest, 3);
    reveal_with_fuel(crate::json::pow10, 21);
    lemma_decimal(at as nat, 20);
}

/// A summary names the first thing that differs, in the order clips, scenes,
/// overlay tracks, templates, length; where none of these does, it says just
/// that the project was edited.
pub proof fn law_summary(prev: ProjectView, new: ProjectView)
    ensures
        ({
            let s = summary_of(prev, new);
            let more = clip_count(new) - clip_count(prev);
            let longer = total_duration(new.scenes) - total_duration(prev.scenes);
            let counts = more == 0 && new.scenes.len() == prev.scenes.len() && new.overlays.len()
                == prev.overlays.len() && new.defs.len() == prev.defs.len();
            &&& more == 1 ==> s == "Added "@ + (decimal(1) + " clip"@ + ""@)
            &&& more > 1 ==> s == "Added "@ + (decimal(more as nat) + " clip"@ + "s"@)
            &&& more == -1 ==> s == "Removed "@ + (decimal(1) + " clip"@ + ""@)
            &&& more < -1 ==> s == "Removed "@ + (decimal((-more) as nat) + " clip"@ + "s"@)
            &&& counts && -1_000_000 <= longer <= 1_000_000 ==> s == "Edited project"@
            &&& counts && !(-1_000_000 <= longer <= 1_000_000) ==> s == "Changed timing"@
        }),
{
}

/// Recording an edit keeps the document as it was before, last in the
/// history, with who made the edit, when, and what it was.
pub proof fn law_recorded(s: SessionView, source: EditSource, summary: Seq<char>, at: int)
    ensures
        ({
            let r = recorded(s, source, summary, at);
            &&& s.project is Some ==> {
                &&& r.history.len() == s.history.len() + 1
                &&& r.history.last().snapshot == s.project->0
                &&& r.history.last().source == source
                &&& r.history.last().summary == summary
                &&& r.history.last().at == at
                &&& forall|i: int|
                    0 <= i < s.history.len() ==> #[trigger] r.history[i] == s.history[i]
            }
            &&& s.project is None ==> r == s
            &&& r.project == s.project && r.saved == s.saved && r.selected == s.selected
        }),
{
}

/// Starting afresh forgets the history, what could be redone and what was
/// selected.
pub proof fn law_restarted(s: SessionView, saved: bool)
    ensures
        restarted(s, saved).history.len() == 0,
        restarted(s, saved).redo.len() == 0,
        restarted(s, saved).selected is None,
        restarted(s, saved).saved == saved,
        restarted(s, saved).project == s.project,
{
}

} // verus!
