//! What the scene form changes: length, transition and order of the scenes.

use vstd::prelude::*;
use crate::document::{Project, ProjectView, Scene, SceneView, Transition, TransitionKind};
use crate::text::same;
use crate::views::views;

verus! {

broadcast use crate::views::group_views;

/// Index of the first scene with the given id; the number of scenes if there
/// is none.
pub open spec fn scene_index(scenes: Seq<SceneView>, id: Seq<char>) -> int
    decreases scenes.len(),
{
    if scenes.len() == 0 || scenes[0].id == id {
        0
    } else {
        1 + scene_index(scenes.skip(1), id)
    }
}

proof fn lemma_scene_index(scenes: Seq<SceneView>, id: Seq<char>)
    ensures
        0 <= scene_index(scenes, id) <= scenes.len(),
        scene_index(scenes, id) < scenes.len() ==> scenes[scene_index(scenes, id)].id == id,
        forall|i: int| 0 <= i < scene_index(scenes, id) ==> (#[trigger] scenes[i]).id != id,
    decreases scenes.len(),
{
    if scenes.len() > 0 && scenes[0].id != id {
        lemma_scene_index(scenes.skip(1), id);
        assert forall|i: int| 0 <= i < scene_index(scenes, id) implies (#[trigger] scenes[i]).id
            != id by {
            if i > 0 {
                assert(scenes.skip(1)[i - 1] == scenes[i]);
            }
        }
    }
}

/// The scene with the given id.
pub fn find_scene(project: &Project, id: &str) -> (r: Option<usize>)
    ensures
        match r {
            Some(s) => s < project.scenes.len() && s == scene_index(project@.scenes, id@),
            None => scene_index(project@.scenes, id@) == project@.scenes.len(),
        },
{
    let ghost all = project@.scenes;
    let mut i: usize = 0;
    assert(all.skip(0) =~= all);
    while i < project.scenes.len()
        invariant
            i <= project.scenes.len(),
            all == project@.scenes,
            scene_index(all, id@) == i + scene_index(all.skip(i as int), id@),
        decreases project.scenes.len() - i,
    {
        assert(all.skip(i as int)[0].id == project.scenes@[i as int].id@);
        if same(project.scenes[i].id.as_str(), id) {
            return Some(i);
        }
        assert(all.skip(i as int).skip(1) =~= all.skip(i + 1));
        i += 1;
    }
    None
}

/// The document with what `f` makes of the scene with the given id.
pub open spec fn scene_edited(
    p: ProjectView,
    id: Seq<char>,
    f: spec_fn(SceneView) -> SceneView,
) -> ProjectView {
    let s = scene_index(p.scenes, id);
    if s < p.scenes.len() {
        ProjectView { scenes: p.scenes.update(s, f(p.scenes[s])), ..p }
    } else {
        p
    }
}

/// Set the length of a scene.
pub fn set_scene_duration(project: &mut Project, id: &str, duration: i128)
    ensures
        final(project)@ == scene_edited(
            old(project)@,
            id@,
            |s: SceneView| SceneView { duration: duration as int, ..s },
        ),
{
    let ghost p = project@;
    if let Some(s) = find_scene(project, id) {
        project.scenes[s].duration = duration;
        assert(project@.scenes =~= p.scenes.update(s as int, project@.scenes[s as int]));
    }
}

/// The transition that a choice stands for: 0 for none, then crossfade, wipe
/// from the left, wipe from the top, box, iris, and clock for all others.
pub open spec fn transition_of(choice: u32, duration: i128) -> Option<Transition> {
    if choice == 0 {
        None
    } else {
        Some(
            Transition {
                kind: if choice == 1 {
                    TransitionKind::Crossfade
                } else if choice == 2 {
                    TransitionKind::WipeLr
                } else if choice == 3 {
                    TransitionKind::WipeTb
                } else if choice == 4 {
                    TransitionKind::BoxWipe
                } else if choice == 5 {
                    TransitionKind::Iris
                } else {
                    TransitionKind::Clock
                },
                duration,
            },
        )
    }
}

/// The transition that a choice stands for.
pub fn choose_transition(choice: u32, duration: i128) -> (r: Option<Transition>)
    ensures
        r == transition_of(choice, duration),
{
    if choice == 0 {
        return None;
    }
    let kind: TransitionKind = match choice {
        1 => TransitionKind::Crossfade,
        2 => TransitionKind::WipeLr,
        3 => TransitionKind::WipeTb,
        4 => TransitionKind::BoxWipe,
        5 => TransitionKind::Iris,
        _ => TransitionKind::Clock,
    };
    Some(Transition { kind, duration })
}

/// The choice that stands for a transition, and the length that the form
/// shows for it: half a second if there is none.
pub fn transition_choice(transition: Option<Transition>) -> (r: (u32, i128))
    ensures
        transition_of(r.0, r.1) == transition,
        transition is None ==> r.1 == 500_000_000,
        r.0 <= 6,
{
    match transition {
        None => (0, 500_000_000),
        Some(t) => {
            let k: u32 = match t.kind {
                TransitionKind::Crossfade => 1,
                TransitionKind::WipeLr => 2,
                TransitionKind::WipeTb => 3,
                TransitionKind::BoxWipe => 4,
                TransitionKind::Iris => 5,
                TransitionKind::Clock => 6,
            };
            (k, t.duration)
        },
    }
}

/// Set the transition into a scene. The first scene has none to set.
pub fn set_transition(project: &mut Project, id: &str, choice: u32, duration: i128)
    ensures
        final(project)@ == if scene_index(old(project)@.scenes, id@) == 0 {
            old(project)@
        } else {
            scene_edited(
                old(project)@,
                id@,
                |s: SceneView| SceneView { transition: transition_of(choice, duration), ..s },
            )
        },
{
    let ghost p = project@;
    if let Some(s) = find_scene(project, id) {
        if s > 0 {
            project.scenes[s].transition = choose_transition(choice, duration);
            assert(project@.scenes =~= p.scenes.update(s as int, project@.scenes[s as int]));
        }
    }
}

/// The scenes with two of them exchanged.
pub open spec fn exchanged(scenes: Seq<SceneView>, a: int, b: int) -> Seq<SceneView> {
    scenes.update(a, scenes[b]).update(b, scenes[a])
}

/// The document with a scene moved one place earlier or later; unchanged at
/// either end.
pub open spec fn moved_scene(p: ProjectView, id: Seq<char>, later: bool) -> ProjectView {
    let s = scene_index(p.scenes, id);
    let t = if later {
        s + 1
    } else {
        s - 1
    };
    if s < p.scenes.len() && 0 <= t < p.scenes.len() {
        ProjectView { scenes: exchanged(p.scenes, s, t), ..p }
    } else {
        p
    }
}

/// Move a scene one place earlier or later; `false` at either end.
pub fn move_scene(project: &mut Project, id: &str, later: bool) -> (r: bool)
    ensures
        final(project)@ == moved_scene(old(project)@, id@, later),
        r == ({
            let s = scene_index(old(project)@.scenes, id@);
            s < old(project)@.scenes.len() && if later {
                s + 1 < old(project)@.scenes.len()
            } else {
                s > 0
            }
        }),
{
    let ghost p = project@;
    match find_scene(project, id) {
        Some(s) => {
            if (later && s + 1 >= project.scenes.len()) || (!later && s == 0) {
                return false;
            }
            let t: usize = if later {
                s + 1
            } else {
                s - 1
            };
            let a: Scene = project.scenes[s].clone();
            let b: Scene = project.scenes[t].clone();
            project.scenes.set(s, b);
            project.scenes.set(t, a);
            assert(project@.scenes =~= exchanged(p.scenes, s as int, t as int));
            true
        },
        None => false,
    }
}

/// Moving a scene later and then earlier again gives back the document, if
/// its id is the scene's own.
pub proof fn law_scene_back(p: ProjectView, id: Seq<char>)
    requires
        scene_index(p.scenes, id) + 1 < p.scenes.len(),
        forall|i: int, j: int|
            0 <= i < p.scenes.len() && 0 <= j < p.scenes.len() && i != j ==> (
            #[trigger] p.scenes[i]).id != (#[trigger] p.scenes[j]).id,
    ensures
        moved_scene(moved_scene(p, id, true), id, false) == p,
{
    let s = scene_index(p.scenes, id);
    lemma_scene_index(p.scenes, id);
    let q = moved_scene(p, id, true);
    lemma_scene_index(q.scenes, id);
    let k = scene_index(q.scenes, id);
    assert(q.scenes[s + 1] == p.scenes[s]);
    assert(q.scenes[s] == p.scenes[s + 1]);
    if k < s {
        assert(q.scenes[k] == p.scenes[k]);
    } else if k == s {
        assert(p.scenes[s + 1].id != p.scenes[s].id);
    }
    assert(k == s + 1);
    assert(exchanged(q.scenes, s + 1, s) =~= p.scenes);
}

/// Scenes that are moved keep their layers: the scenes of the document are
/// the same, in another order.
pub proof fn law_scene_moved_keeps(p: ProjectView, id: Seq<char>, later: bool)
    ensures
        moved_scene(p, id, later).scenes.to_multiset() == p.scenes.to_multiset(),
        moved_scene(p, id, later).overlays == p.overlays,
        moved_scene(p, id, later).defs == p.defs,
{
    let s = scene_index(p.scenes, id);
    let t = if later {
        s + 1
    } else {
        s - 1
    };
    lemma_scene_index(p.scenes, id);
    if s < p.scenes.len() && 0 <= t < p.scenes.len() {
        let m = p.scenes.to_multiset();
        broadcast use vstd::seq_lib::group_to_multiset_ensures;
        let one = p.scenes.update(s, p.scenes[t]);
        vstd::seq_lib::to_multiset_update(p.scenes, s, p.scenes[t]);
        vstd::seq_lib::to_multiset_update(one, t, p.scenes[s]);
        assert(one[t] == p.scenes[t]);
        assert(m.contains(p.scenes[s]));
        assert(m.contains(p.scenes[t]));
        assert(exchanged(p.scenes, s, t).to_multiset() =~= m);
    }
}

/// A scene moved changes places with its neighbour on that side; all other
/// scenes stay. At either end, or without such a scene, nothing moves.
pub proof fn law_scene_moved(p: ProjectView, s: int, later: bool)
    requires
        0 <= s < p.scenes.len(),
        forall|i: int| 0 <= i < s ==> (#[trigger] p.scenes[i]).id != p.scenes[s].id,
    ensures
        ({
            let q = moved_scene(p, p.scenes[s].id, later);
            let t = if later {
                s + 1
            } else {
                s - 1
            };
            &&& q.scenes.len() == p.scenes.len()
            &&& 0 <= t < p.scenes.len() ==> q.scenes[t] == p.scenes[s] && q.scenes[s]
                == p.scenes[t]
            &&& 0 <= t < p.scenes.len() ==> forall|i: int|
                0 <= i < p.scenes.len() && i != s && i != t ==> #[trigger] q.scenes[i]
                    == p.scenes[i]
            &&& !(0 <= t < p.scenes.len()) ==> q == p
        }),
{
    lemma_scene_index(p.scenes, p.scenes[s].id);
    let k = scene_index(p.scenes, p.scenes[s].id);
    if k > s {
        assert(p.scenes[s].id != p.scenes[s].id);
    }
}

/// Each choice but the first stands for a transition of its own kind, of the
/// length given; the first stands for none.
pub proof fn law_transition_choice(a: u32, b: u32, duration: i128)
    requires
        a < b <= 6,
    ensures
        transition_of(a, duration) is None <==> a == 0,
        transition_of(b, duration) is Some && transition_of(b, duration)->0.duration == duration,
        a > 0 ==> transition_of(a, duration)->0.kind != transition_of(b, duration)->0.kind,
        transition_of(1, duration)->0.kind == TransitionKind::Crossfade,
{
}

/// Editing the scene of an id changes that scene alone, the first of several.
pub proof fn law_scene_edited(
    p: ProjectView,
    s: int,
    f: spec_fn(SceneView) -> SceneView,
    i: int,
)
    requires
        0 <= s < p.scenes.len(),
        forall|k: int| 0 <= k < s ==> (#[trigger] p.scenes[k]).id != p.scenes[s].id,
    ensures
        ({
            let q = scene_edited(p, p.scenes[s].id, f);
            &&& q.scenes.len() == p.scenes.len()
            &&& q.scenes[s] == f(p.scenes[s])
            &&& 0 <= i < p.scenes.len() && i != s ==> q.scenes[i] == p.scenes[i]
            &&& q.overlays == p.overlays && q.defs == p.defs && q.meta == p.meta
        }),
{
    lemma_scene_index(p.scenes, p.scenes[s].id);
    let k = scene_index(p.scenes, p.scenes[s].id);
    if k > s {
        assert(p.scenes[s].id != p.scenes[s].id);
    }
}

} // verus!
