//! What makes a whole document valid.

use vstd::prelude::*;
use crate::cycles::{acyclic, cycle_fault, find_cycle, law_cycle_fault};
use crate::document::{Clip, ClipView, CompDef, CompDefView, OverlayTrack, OverlayTrackView};
use crate::document::{Project, ProjectView, Scene, SceneView};
use crate::faults::{clip_fault, clip_ok, law_clip_fault, ErrorView, Fault, ValidateError};
use crate::text::list_contains;
use crate::textmap::TextMap;
use crate::views::views;

verus! {

broadcast use crate::views::group_views;

/// How far a scan has come: the ids met so far, or the first fault.
pub ghost enum Scan {
    Seen(Seq<Seq<char>>),
    Faulty(ErrorView),
}

/// One more id; `empty` is the fault of an empty one.
pub open spec fn scan_id(seen: Seq<Seq<char>>, id: Seq<char>, empty: Fault) -> Scan {
    if id.len() == 0 {
        Scan::Faulty(ErrorView { fault: empty, id, detail: Seq::empty() })
    } else if seen.contains(id) {
        Scan::Faulty(ErrorView { fault: Fault::DuplicateId, id, detail: Seq::empty() })
    } else {
        Scan::Seen(seen.push(id))
    }
}

/// The clips from number `i` on: each one's id, then the clip itself.
pub open spec fn scan_clips(
    seen: Seq<Seq<char>>,
    clips: Seq<ClipView>,
    defs: Seq<(Seq<char>, CompDefView)>,
    i: int,
) -> Scan
    decreases clips.len() - i,
{
    if i >= clips.len() {
        Scan::Seen(seen)
    } else {
        match scan_id(seen, clips[i].id, Fault::EmptyClipId) {
            Scan::Faulty(e) => Scan::Faulty(e),
            Scan::Seen(s) => match clip_fault(clips[i], defs) {
                Some(e) => Scan::Faulty(e),
                None => scan_clips(s, clips, defs, i + 1),
            },
        }
    }
}

/// What is wrong with the length of a scene or its transition.
pub open spec fn scene_fault(s: SceneView) -> Option<ErrorView> {
    if s.duration <= 0 {
        Some(ErrorView { fault: Fault::SceneDuration, id: s.id, detail: Seq::empty() })
    } else {
        match s.transition {
            Some(t) => if t.duration <= 0 || t.duration >= s.duration {
                Some(ErrorView { fault: Fault::TransitionDuration, id: s.id, detail: Seq::empty() })
            } else {
                None
            },
            None => None,
        }
    }
}

/// The scenes from number `i` on: id, length, then the layers.
pub open spec fn scan_scenes(
    seen: Seq<Seq<char>>,
    scenes: Seq<SceneView>,
    defs: Seq<(Seq<char>, CompDefView)>,
    i: int,
) -> Scan
    decreases scenes.len() - i,
{
    if i >= scenes.len() {
        Scan::Seen(seen)
    } else {
        match scan_id(seen, scenes[i].id, Fault::EmptySceneId) {
            Scan::Faulty(e) => Scan::Faulty(e),
            Scan::Seen(s) => match scene_fault(scenes[i]) {
                Some(e) => Scan::Faulty(e),
                None => match scan_clips(s, scenes[i].layers, defs, 0) {
                    Scan::Faulty(e) => Scan::Faulty(e),
                    Scan::Seen(t) => scan_scenes(t, scenes, defs, i + 1),
                },
            },
        }
    }
}

/// The overlay tracks from number `i` on: id, then the clips.
pub open spec fn scan_tracks(
    seen: Seq<Seq<char>>,
    tracks: Seq<OverlayTrackView>,
    defs: Seq<(Seq<char>, CompDefView)>,
    i: int,
) -> Scan
    decreases tracks.len() - i,
{
    if i >= tracks.len() {
        Scan::Seen(seen)
    } else {
        match scan_id(seen, tracks[i].id, Fault::EmptyTrackId) {
            Scan::Faulty(e) => Scan::Faulty(e),
            Scan::Seen(s) => match scan_clips(s, tracks[i].clips, defs, 0) {
                Scan::Faulty(e) => Scan::Faulty(e),
                Scan::Seen(t) => scan_tracks(t, tracks, defs, i + 1),
            },
        }
    }
}

/// The first fault among the layers of a def, from layer `i` on. Their ids
/// are not unique: they become part of the id of an instance.
pub open spec fn layers_fault(
    layers: Seq<ClipView>,
    defs: Seq<(Seq<char>, CompDefView)>,
    i: int,
) -> Option<ErrorView>
    decreases layers.len() - i,
{
    if i >= layers.len() {
        None
    } else {
        match clip_fault(layers[i], defs) {
            Some(e) => Some(e),
            None => layers_fault(layers, defs, i + 1),
        }
    }
}

/// The first fault among the layers of the defs, from def `i` on.
pub open spec fn defs_fault(defs: Seq<(Seq<char>, CompDefView)>, i: int) -> Option<ErrorView>
    decreases defs.len() - i,
{
    if i >= defs.len() {
        None
    } else {
        match layers_fault(defs[i].1.layers, defs, 0) {
            Some(e) => Some(e),
            None => defs_fault(defs, i + 1),
        }
    }
}

/// The first fault of a document.
pub open spec fn project_fault(p: ProjectView) -> Option<ErrorView> {
    if p.meta.width <= 0 || p.meta.height <= 0 || p.meta.fps <= 0 {
        Some(ErrorView { fault: Fault::Meta, id: Seq::empty(), detail: Seq::empty() })
    } else {
        match scan_scenes(Seq::empty(), p.scenes, p.defs, 0) {
            Scan::Faulty(e) => Some(e),
            Scan::Seen(s) => match scan_tracks(s, p.overlays, p.defs, 0) {
                Scan::Faulty(e) => Some(e),
                Scan::Seen(t) => match defs_fault(p.defs, 0) {
                    Some(e) => Some(e),
                    None => cycle_fault(p.defs, 0),
                },
            },
        }
    }
}

/// The ids of clips, from number `i` on.
pub open spec fn clip_ids(clips: Seq<ClipView>, i: int) -> Seq<Seq<char>>
    decreases clips.len() - i,
{
    if i >= clips.len() {
        Seq::empty()
    } else {
        seq![clips[i].id] + clip_ids(clips, i + 1)
    }
}

/// The ids of scenes and their layers, from scene `i` on.
pub open spec fn scene_ids(scenes: Seq<SceneView>, i: int) -> Seq<Seq<char>>
    decreases scenes.len() - i,
{
    if i >= scenes.len() {
        Seq::empty()
    } else {
        seq![scenes[i].id] + clip_ids(scenes[i].layers, 0) + scene_ids(scenes, i + 1)
    }
}

/// The ids of overlay tracks and their clips, from track `i` on.
pub open spec fn track_ids(tracks: Seq<OverlayTrackView>, i: int) -> Seq<Seq<char>>
    decreases tracks.len() - i,
{
    if i >= tracks.len() {
        Seq::empty()
    } else {
        seq![tracks[i].id] + clip_ids(tracks[i].clips, 0) + track_ids(tracks, i + 1)
    }
}

/// All ids of a document.
pub open spec fn all_ids(p: ProjectView) -> Seq<Seq<char>> {
    scene_ids(p.scenes, 0) + track_ids(p.overlays, 0)
}

/// Every id names something, and no two things share one.
pub open spec fn ids_ok(ids: Seq<Seq<char>>) -> bool {
    ids.no_duplicates() && forall|i: int| 0 <= i < ids.len() ==> (#[trigger] ids[i]).len() > 0
}

pub open spec fn clips_ok(clips: Seq<ClipView>, defs: Seq<(Seq<char>, CompDefView)>) -> bool {
    forall|i: int| 0 <= i < clips.len() ==> clip_ok(#[trigger] clips[i], defs)
}

/// A valid document.
pub open spec fn valid(p: ProjectView) -> bool {
    &&& p.meta.width > 0 && p.meta.height > 0 && p.meta.fps > 0
    &&& ids_ok(all_ids(p))
    &&& forall|i: int|
        0 <= i < p.scenes.len() ==> scene_fault(#[trigger] p.scenes[i]) is None && clips_ok(
            p.scenes[i].layers,
            p.defs,
        )
    &&& forall|i: int| 0 <= i < p.overlays.len() ==> clips_ok((#[trigger] p.overlays[i]).clips, p.defs)
    &&& forall|i: int| 0 <= i < p.defs.len() ==> clips_ok((#[trigger] p.defs[i]).1.layers, p.defs)
    &&& acyclic(p.defs)
}

proof fn lemma_ids_split(seen: Seq<Seq<char>>, id: Seq<char>, rest: Seq<Seq<char>>)
    requires
        ids_ok(seen),
    ensures
        ids_ok(seen + (seq![id] + rest)) <==> id.len() > 0 && !seen.contains(id) && ids_ok(
            seen.push(id) + rest,
        ),
        id.len() > 0 && !seen.contains(id) ==> ids_ok(seen.push(id)),
{
    let whole = seen + (seq![id] + rest);
    assert(whole =~= seen.push(id) + rest);
    assert(whole[seen.len() as int] == id);
    if seen.contains(id) {
        let k = choose|k: int| 0 <= k < seen.len() && seen[k] == id;
        assert(whole[k] == whole[seen.len() as int]);
    }
}

proof fn lemma_ids_prefix(a: Seq<Seq<char>>, b: Seq<Seq<char>>)
    requires
        ids_ok(a + b),
    ensures
        ids_ok(a),
{
    assert forall|i: int, j: int| 0 <= i < a.len() && 0 <= j < a.len() && i != j implies a[i]
        != a[j] by {
        assert((a + b)[i] == a[i]);
        assert((a + b)[j] == a[j]);
    }
    assert forall|i: int| 0 <= i < a.len() implies (#[trigger] a[i]).len() > 0 by {
        assert((a + b)[i] == a[i]);
    }
}

/// The scan of clips sees their ids in order and stops at nothing exactly
/// when the ids stay unique and the clips are sound.
proof fn lemma_scan_clips(
    seen: Seq<Seq<char>>,
    clips: Seq<ClipView>,
    defs: Seq<(Seq<char>, CompDefView)>,
    i: int,
)
    requires
        ids_ok(seen),
        0 <= i <= clips.len(),
    ensures
        scan_clips(seen, clips, defs, i) is Seen <==> ids_ok(seen + clip_ids(clips, i))
            && forall|k: int| i <= k < clips.len() ==> clip_ok(#[trigger] clips[k], defs),
        scan_clips(seen, clips, defs, i) is Seen ==> scan_clips(seen, clips, defs, i)->Seen_0
            == seen + clip_ids(clips, i),
    decreases clips.len() - i,
{
    let ids = clip_ids(clips, i);
    if i >= clips.len() {
        assert(seen + ids =~= seen);
    } else {
        let rest = clip_ids(clips, i + 1);
        lemma_ids_split(seen, clips[i].id, rest);
        law_clip_fault(clips[i], defs);
        if clips[i].id.len() > 0 && !seen.contains(clips[i].id) {
            lemma_scan_clips(seen.push(clips[i].id), clips, defs, i + 1);
            assert(seen + ids =~= seen.push(clips[i].id) + rest);
        }
    }
}

proof fn lemma_scan_scenes(
    seen: Seq<Seq<char>>,
    scenes: Seq<SceneView>,
    defs: Seq<(Seq<char>, CompDefView)>,
    i: int,
)
    requires
        ids_ok(seen),
        0 <= i <= scenes.len(),
    ensures
        scan_scenes(seen, scenes, defs, i) is Seen <==> ids_ok(seen + scene_ids(scenes, i))
            && forall|k: int|
            i <= k < scenes.len() ==> scene_fault(#[trigger] scenes[k]) is None && clips_ok(
                scenes[k].layers,
                defs,
            ),
        scan_scenes(seen, scenes, defs, i) is Seen ==> scan_scenes(seen, scenes, defs, i)->Seen_0
            == seen + scene_ids(scenes, i),
    decreases scenes.len() - i,
{
    let ids = scene_ids(scenes, i);
    if i >= scenes.len() {
        assert(seen + ids =~= seen);
    } else {
        let s = scenes[i];
        let inner = clip_ids(s.layers, 0);
        let rest = scene_ids(scenes, i + 1);
        lemma_ids_split(seen, s.id, inner + rest);
        assert(seen + ids =~= seen + (seq![s.id] + (inner + rest)));
        if s.id.len() > 0 && !seen.contains(s.id) {
            let with_scene = seen.push(s.id);
            assert(seen + ids =~= with_scene + (inner + rest));
            assert(with_scene + (inner + rest) =~= (with_scene + inner) + rest);
            lemma_scan_clips(with_scene, s.layers, defs, 0);
            if ids_ok(seen + ids) {
                lemma_ids_prefix(with_scene + inner, rest);
            }
            if ids_ok(with_scene + inner) {
                lemma_scan_scenes(with_scene + inner, scenes, defs, i + 1);
            }
            assert(clips_ok(s.layers, defs) <==> forall|k: int|
                0 <= k < s.layers.len() ==> clip_ok(#[trigger] s.layers[k], defs));
        }
    }
}

proof fn lemma_scan_tracks(
    seen: Seq<Seq<char>>,
    tracks: Seq<OverlayTrackView>,
    defs: Seq<(Seq<char>, CompDefView)>,
    i: int,
)
    requires
        ids_ok(seen),
        0 <= i <= tracks.len(),
    ensures
        scan_tracks(seen, tracks, defs, i) is Seen <==> ids_ok(seen + track_ids(tracks, i))
            && forall|k: int|
            i <= k < tracks.len() ==> clips_ok((#[trigger] tracks[k]).clips, defs),
        scan_tracks(seen, tracks, defs, i) is Seen ==> scan_tracks(seen, tracks, defs, i)->Seen_0
            == seen + track_ids(tracks, i),
    decreases tracks.len() - i,
{
    let ids = track_ids(tracks, i);
    if i >= tracks.len() {
        assert(seen + ids =~= seen);
    } else {
        let s = tracks[i];
        let inner = clip_ids(s.clips, 0);
        let rest = track_ids(tracks, i + 1);
        lemma_ids_split(seen, s.id, inner + rest);
        assert(seen + ids =~= seen + (seq![s.id] + (inner + rest)));
        if s.id.len() > 0 && !seen.contains(s.id) {
            let with_track = seen.push(s.id);
            assert(seen + ids =~= with_track + (inner + rest));
            assert(with_track + (inner + rest) =~= (with_track + inner) + rest);
            lemma_scan_clips(with_track, s.clips, defs, 0);
            if ids_ok(seen + ids) {
                lemma_ids_prefix(with_track + inner, rest);
            }
            if ids_ok(with_track + inner) {
                lemma_scan_tracks(with_track + inner, tracks, defs, i + 1);
            }
            assert(clips_ok(s.clips, defs) <==> forall|k: int|
                0 <= k < s.clips.len() ==> clip_ok(#[trigger] s.clips[k], defs));
        }
    }
}

proof fn lemma_layers_fault(
    layers: Seq<ClipView>,
    defs: Seq<(Seq<char>, CompDefView)>,
    i: int,
)
    requires
        0 <= i <= layers.len(),
    ensures
        layers_fault(layers, defs, i) is None <==> forall|k: int|
            i <= k < layers.len() ==> clip_ok(#[trigger] layers[k], defs),
    decreases layers.len() - i,
{
    if i < layers.len() {
        law_clip_fault(layers[i], defs);
        lemma_layers_fault(layers, defs, i + 1);
    }
}

proof fn lemma_defs_fault(defs: Seq<(Seq<char>, CompDefView)>, i: int)
    requires
        0 <= i <= defs.len(),
    ensures
        defs_fault(defs, i) is None <==> forall|k: int|
            i <= k < defs.len() ==> clips_ok((#[trigger] defs[k]).1.layers, defs),
    decreases defs.len() - i,
{
    if i < defs.len() {
        lemma_layers_fault(defs[i].1.layers, defs, 0);
        lemma_defs_fault(defs, i + 1);
        let layers = defs[i].1.layers;
        assert(clips_ok(layers, defs) <==> forall|k: int|
            0 <= k < layers.len() ==> clip_ok(#[trigger] layers[k], defs));
    }
}

/// A document is accepted exactly when it is valid: unique non-empty ids,
/// sound scenes and clips, and no def that reaches itself.
pub proof fn law_project_fault(p: ProjectView)
    ensures
        project_fault(p) is None <==> valid(p),
{
    let none = Seq::<Seq<char>>::empty();
    let a = scene_ids(p.scenes, 0);
    let b = track_ids(p.overlays, 0);
    lemma_scan_scenes(none, p.scenes, p.defs, 0);
    assert(none + a =~= a);
    assert(all_ids(p) == a + b);
    if ids_ok(all_ids(p)) {
        lemma_ids_prefix(a, b);
    }
    if ids_ok(a) {
        lemma_scan_tracks(a, p.overlays, p.defs, 0);
    }
    lemma_defs_fault(p.defs, 0);
    law_cycle_fault(p.defs);
}

fn check_id(ids: &mut Vec<String>, id: &String, empty: Fault) -> (r: Result<(), ValidateError>)
    ensures
        match r {
            Ok(()) => scan_id(views(old(ids)@), id@, empty) == Scan::Seen(views(final(ids)@)),
            Err(e) => scan_id(views(old(ids)@), id@, empty) == Scan::Faulty(e@),
        },
{
    if id.as_str().is_empty() {
        return Err(ValidateError::of(empty, id.as_str()));
    }
    if list_contains(ids, id.as_str()) {
        return Err(ValidateError::of(Fault::DuplicateId, id.as_str()));
    }
    ids.push(id.clone());
    Ok(())
}

fn check_clips(ids: &mut Vec<String>, clips: &Vec<Clip>, defs: &TextMap<CompDef>) -> (r: Result<
    (),
    ValidateError,
>)
    ensures
        match r {
            Ok(()) => scan_clips(views(old(ids)@), views(clips@), defs@, 0) == Scan::Seen(
                views(final(ids)@),
            ),
            Err(e) => scan_clips(views(old(ids)@), views(clips@), defs@, 0) == Scan::Faulty(e@),
        },
{
    let ghost start = views(ids@);
    let mut i: usize = 0;
    while i < clips.len()
        invariant
            start == views(old(ids)@),
            i <= clips.len(),
            scan_clips(start, views(clips@), defs@, 0) == scan_clips(
                views(ids@),
                views(clips@),
                defs@,
                i as int,
            ),
        decreases clips.len() - i,
    {
        assert(views(clips@)[i as int] == clips@[i as int]@);
        check_id(ids, &clips[i].id, Fault::EmptyClipId)?;
        clips[i].validate(defs)?;
        i += 1;
    }
    Ok(())
}

impl Scene {
    fn length_fault(&self) -> (r: Option<ValidateError>)
        ensures
            match r {
                Some(e) => scene_fault(self@) == Some(e@),
                None => scene_fault(self@) is None,
            },
    {
        if self.duration <= 0 {
            return Some(ValidateError::of(Fault::SceneDuration, self.id.as_str()));
        }
        if let Some(t) = &self.transition {
            if t.duration <= 0 || t.duration >= self.duration {
                return Some(ValidateError::of(Fault::TransitionDuration, self.id.as_str()));
            }
        }
        None
    }
}

impl Project {
    fn check_scenes(&self, ids: &mut Vec<String>) -> (r: Result<(), ValidateError>)
        ensures
            match r {
                Ok(()) => scan_scenes(views(old(ids)@), self@.scenes, self@.defs, 0) == Scan::Seen(
                    views(final(ids)@),
                ),
                Err(e) => scan_scenes(views(old(ids)@), self@.scenes, self@.defs, 0)
                    == Scan::Faulty(e@),
            },
    {
        let ghost start = views(ids@);
        let mut i: usize = 0;
        while i < self.scenes.len()
            invariant
                start == views(old(ids)@),
                i <= self.scenes.len(),
                scan_scenes(start, self@.scenes, self@.defs, 0) == scan_scenes(
                    views(ids@),
                    self@.scenes,
                    self@.defs,
                    i as int,
                ),
            decreases self.scenes.len() - i,
        {
            let scene: &Scene = &self.scenes[i];
            assert(self@.scenes[i as int] == scene@);
            check_id(ids, &scene.id, Fault::EmptySceneId)?;
            if let Some(e) = scene.length_fault() {
                return Err(e);
            }
            check_clips(ids, &scene.layers, &self.defs)?;
            i += 1;
        }
        Ok(())
    }

    fn check_tracks(&self, ids: &mut Vec<String>) -> (r: Result<(), ValidateError>)
        ensures
            match r {
                Ok(()) => scan_tracks(views(old(ids)@), self@.overlays, self@.defs, 0)
                    == Scan::Seen(views(final(ids)@)),
                Err(e) => scan_tracks(views(old(ids)@), self@.overlays, self@.defs, 0)
                    == Scan::Faulty(e@),
            },
    {
        let ghost start = views(ids@);
        let mut i: usize = 0;
        while i < self.overlays.len()
            invariant
                start == views(old(ids)@),
                i <= self.overlays.len(),
                scan_tracks(start, self@.overlays, self@.defs, 0) == scan_tracks(
                    views(ids@),
                    self@.overlays,
                    self@.defs,
                    i as int,
                ),
            decreases self.overlays.len() - i,
        {
            let track: &OverlayTrack = &self.overlays[i];
            assert(self@.overlays[i as int] == track@);
            check_id(ids, &track.id, Fault::EmptyTrackId)?;
            check_clips(ids, &track.clips, &self.defs)?;
            i += 1;
        }
        Ok(())
    }

    fn check_defs(&self) -> (r: Result<(), ValidateError>)
        ensures
            match r {
                Ok(()) => defs_fault(self@.defs, 0) is None,
                Err(e) => defs_fault(self@.defs, 0) == Some(e@),
            },
    {
        let mut i: usize = 0;
        while i < self.defs.entries.len()
            invariant
                i <= self.defs.entries.len(),
                defs_fault(self@.defs, 0) == defs_fault(self@.defs, i as int),
            decreases self.defs.entries.len() - i,
        {
            let layers: &Vec<Clip> = &self.defs.entries[i].1.layers;
            assert(self@.defs[i as int].1.layers == views(layers@));
            let mut k: usize = 0;
            while k < layers.len()
                invariant
                    i < self.defs.entries.len(),
                    k <= layers.len(),
                    self@.defs[i as int].1.layers == views(layers@),
                    defs_fault(self@.defs, 0) == defs_fault(self@.defs, i as int),
                    layers_fault(views(layers@), self@.defs, 0) == layers_fault(
                        views(layers@),
                        self@.defs,
                        k as int,
                    ),
                decreases layers.len() - k,
            {
                assert(views(layers@)[k as int] == layers@[k as int]@);
                layers[k].validate(&self.defs)?;
                k += 1;
            }
            i += 1;
        }
        Ok(())
    }

    /// Check the whole document; the first fault found is the error.
    pub fn validate(&self) -> (r: Result<(), ValidateError>)
        ensures
            r is Ok <==> valid(self@),
            match r {
                Ok(()) => project_fault(self@) is None,
                Err(e) => project_fault(self@) == Some(e@),
            },
    {
        proof {
            law_project_fault(self@);
        }
        if self.meta.width <= 0 || self.meta.height <= 0 || self.meta.fps <= 0 {
            return Err(ValidateError::of(Fault::Meta, String::new().as_str()));
        }
        let mut ids: Vec<String> = Vec::new();
        self.check_scenes(&mut ids)?;
        self.check_tracks(&mut ids)?;
        self.check_defs()?;
        match find_cycle(&self.defs) {
            Some(e) => Err(e),
            None => Ok(()),
        }
    }
}

/// A scene is accepted if it lasts, and if its transition lasts too but not as
/// long as the scene itself.
pub proof fn law_sound_scene(s: SceneView)
    ensures
        scene_fault(s) is None <==> s.duration > 0 && (s.transition is Some ==> 0
            < s.transition->0.duration < s.duration),
        s.duration <= 0 ==> scene_fault(s) is Some && scene_fault(s)->0.fault
            == Fault::SceneDuration,
        scene_fault(s) is Some ==> scene_fault(s)->0.id == s.id,
{
}

/// In a valid document every scene, track and clip has an id, and none has
/// another's.
pub proof fn law_valid_ids(p: ProjectView, s: int, i: int, t: int, k: int)
    requires
        valid(p),
    ensures
        0 <= s < p.scenes.len() ==> p.scenes[s].id.len() > 0,
        0 <= s < p.scenes.len() && 0 <= i < p.scenes[s].layers.len() ==> p.scenes[s].layers[i].id.len()
            > 0,
        0 <= t < p.overlays.len() && 0 <= k < p.overlays[t].clips.len()
            ==> p.overlays[t].clips[k].id.len() > 0,
        0 <= s < p.scenes.len() && 0 <= i < p.scenes[s].layers.len() && 0 <= t < p.overlays.len()
            && 0 <= k < p.overlays[t].clips.len() ==> p.scenes[s].layers[i].id
            != p.overlays[t].clips[k].id,
        0 <= i < k && 0 <= s < p.scenes.len() && k < p.scenes[s].layers.len()
            ==> p.scenes[s].layers[i].id != p.scenes[s].layers[k].id,
{
    let a = scene_ids(p.scenes, 0);
    let b = track_ids(p.overlays, 0);
    let all = all_ids(p);
    if 0 <= s < p.scenes.len() {
        let x = lemma_scene_id(p.scenes, 0, s, -1);
        assert(all[x] == a[x]);
    }
    if 0 <= s < p.scenes.len() && 0 <= i < p.scenes[s].layers.len() {
        let x = lemma_scene_id(p.scenes, 0, s, i);
        assert(all[x] == a[x]);
        if 0 <= t < p.overlays.len() && 0 <= k < p.overlays[t].clips.len() {
            let y = lemma_track_id(p.overlays, 0, t, k);
            assert(all[a.len() + y] == b[y]);
        }
        if i < k < p.scenes[s].layers.len() {
            let y = lemma_scene_id(p.scenes, 0, s, k);
            assert(all[y] == a[y]);
            lemma_scene_id_order(p.scenes, 0, s, i, k);
        }
    }
    if 0 <= t < p.overlays.len() && 0 <= k < p.overlays[t].clips.len() {
        let y = lemma_track_id(p.overlays, 0, t, k);
        assert(all[a.len() + y] == b[y]);
    }
}

/// Where the id of layer `k` of scene `s` stands among the ids from scene `i`
/// on; where that of the scene itself stands for `k` below 0.
spec fn scene_id_at(scenes: Seq<SceneView>, i: int, s: int, k: int) -> int
    decreases s - i,
{
    if i >= s {
        1 + k
    } else {
        1 + scenes[i].layers.len() + scene_id_at(scenes, i + 1, s, k)
    }
}

proof fn lemma_clip_id(clips: Seq<ClipView>, i: int)
    requires
        0 <= i <= clips.len(),
    ensures
        clip_ids(clips, i).len() == clips.len() - i,
        forall|k: int| 0 <= k < clips.len() - i ==> #[trigger] clip_ids(clips, i)[k] == clips[i + k].id,
    decreases clips.len() - i,
{
    if i < clips.len() {
        lemma_clip_id(clips, i + 1);
        assert forall|k: int| 0 <= k < clips.len() - i implies #[trigger] clip_ids(clips, i)[k]
            == clips[i + k].id by {
            if k > 0 {
                assert(clip_ids(clips, i)[k] == clip_ids(clips, i + 1)[k - 1]);
            }
        }
    }
}

proof fn lemma_scene_id(scenes: Seq<SceneView>, i: int, s: int, k: int) -> (x: int)
    requires
        0 <= i <= s < scenes.len(),
        -1 <= k < scenes[s].layers.len(),
    ensures
        x == scene_id_at(scenes, i, s, k),
        0 <= x < scene_ids(scenes, i).len(),
        scene_ids(scenes, i)[x] == (if k < 0 {
            scenes[s].id
        } else {
            scenes[s].layers[k].id
        }),
    decreases s - i,
{
    lemma_clip_id(scenes[i].layers, 0);
    if i == s {
        1 + k
    } else {
        let y = lemma_scene_id(scenes, i + 1, s, k);
        assert(scene_ids(scenes, i)[1 + scenes[i].layers.len() + y] == scene_ids(
            scenes,
            i + 1,
        )[y]);
        1 + scenes[i].layers.len() + y
    }
}

proof fn lemma_scene_id_order(scenes: Seq<SceneView>, i: int, s: int, a: int, b: int)
    requires
        0 <= i <= s < scenes.len(),
        a < b,
    ensures
        scene_id_at(scenes, i, s, a) < scene_id_at(scenes, i, s, b),
    decreases s - i,
{
    if i < s {
        lemma_scene_id_order(scenes, i + 1, s, a, b);
    }
}

proof fn lemma_track_id(tracks: Seq<OverlayTrackView>, i: int, s: int, k: int) -> (x: int)
    requires
        0 <= i <= s < tracks.len(),
        0 <= k < tracks[s].clips.len(),
    ensures
        0 <= x < track_ids(tracks, i).len(),
        track_ids(tracks, i)[x] == tracks[s].clips[k].id,
    decreases s - i,
{
    lemma_clip_id(tracks[i].clips, 0);
    if i == s {
        1 + k
    } else {
        let y = lemma_track_id(tracks, i + 1, s, k);
        assert(track_ids(tracks, i)[1 + tracks[i].clips.len() + y] == track_ids(tracks, i + 1)[y]);
        1 + tracks[i].clips.len() + y
    }
}

} // verus!
