//! Blank projects, and the templates that come with the editor.

use vstd::prelude::*;
use crate::cycles::acyclic;
use crate::document::{CompDef, CompDefView, Meta, MetaView, OverlayTrackView, Project, ProjectView,
    Scene, SceneView};
use crate::fixed::UNIT;
use crate::json::NESTING;
use crate::textmap::TextMap;
use crate::tree::{get_map, map_in, parse_tree, value_in};
use crate::validate::{all_ids, clip_ids, scene_ids, track_ids, valid};
use crate::views::views;

verus! {

broadcast use crate::views::group_views;

/// The scene that every new project opens with: five empty seconds.
pub open spec fn first_scene() -> SceneView {
    SceneView {
        id: "scene-1"@,
        name: Seq::empty(),
        duration: 5 * UNIT,
        transition: None,
        layers: Seq::empty(),
    }
}

/// A blank project: a canvas, thirty frames a second, and one empty scene.
pub open spec fn blank_project(title: Seq<char>, width: int, height: int) -> ProjectView {
    ProjectView {
        meta: MetaView { title, width, height, fps: 30 },
        library: Seq::empty(),
        defs: Seq::empty(),
        scenes: seq![first_scene()],
        overlays: Seq::empty(),
        scene_lanes: Seq::empty(),
    }
}

/// The defs that a JSON text holds, by name; `None` where it holds none.
pub fn starter_defs(text: &str) -> (r: Option<TextMap<CompDef>>)
    ensures
        match value_in(text@, NESTING as nat) {
            Some(j) => match (r, map_in::<CompDef>(Some(j))) {
                (Some(m), Some(defs)) => m@ == defs && m.ordered(),
                (None, None) => true,
                _ => false,
            },
            None => r is None,
        },
{
    match parse_tree(text) {
        Some(j) => get_map(Some(&j)),
        None => None,
    }
}

/// A blank project of 1920 by 1080 pixels.
pub fn new_project(title: &str) -> (r: Project)
    ensures
        r@ == blank_project(title@, 1920, 1080),
        valid(r@),
        r@.fits(1),
{
    new_project_sized(title, 1920, 1080)
}

/// A blank project with a canvas of the given size, such as 1080 by 1920 for
/// vertical video.
pub fn new_project_sized(title: &str, width: i32, height: i32) -> (r: Project)
    ensures
        r@ == blank_project(title@, width as int, height as int),
        valid(r@) <==> width > 0 && height > 0,
        r@.fits(1),
{
    let scene: Scene = Scene {
        id: "scene-1".to_owned(),
        name: String::new(),
        duration: 5_000_000_000,
        transition: None,
        layers: Vec::new(),
    };
    assert(scene@.layers =~= Seq::empty());
    assert(scene@ == first_scene());
    let mut scenes: Vec<Scene> = Vec::new();
    scenes.push(scene);
    let project: Project = Project {
        meta: Meta { title: title.to_owned(), width, height, fps: 30 },
        library: Vec::new(),
        defs: TextMap::new(),
        scenes,
        overlays: Vec::new(),
        scene_lanes: Vec::new(),
    };
    assert(project@.scenes =~= seq![first_scene()]);
    assert(project@.library =~= Seq::empty());
    assert(project@.overlays =~= Seq::empty());
    proof {
        law_blank_valid(title@, width as int, height as int);
    }
    project
}

/// A blank project is a valid document exactly when its canvas has a positive
/// size, and it lasts five seconds.
pub proof fn law_blank_valid(title: Seq<char>, width: int, height: int)
    ensures
        valid(blank_project(title, width, height)) <==> width > 0 && height > 0,
        crate::timeline::total_duration(blank_project(title, width, height).scenes) == 5 * UNIT,
{
    let p = blank_project(title, width, height);
    reveal_strlit("scene-1");
    let none = Seq::<OverlayTrackView>::empty();
    assert(track_ids(none, 0) == Seq::<Seq<char>>::empty());
    assert(scene_ids(p.scenes, 1) == Seq::<Seq<char>>::empty());
    assert(clip_ids(first_scene().layers, 0) == Seq::<Seq<char>>::empty());
    assert(scene_ids(p.scenes, 0) =~= seq!["scene-1"@]);
    assert(all_ids(p) =~= seq!["scene-1"@]);
    assert(acyclic(Seq::<(Seq<char>, CompDefView)>::empty())) by {
        assert forall|path: Seq<Seq<char>>| crate::cycles::is_chain(
            Seq::<(Seq<char>, CompDefView)>::empty(),
            path,
        ) implies false by {}
    }
}

} // verus!
