//! Where scenes and clips stand in time, and how clips are found by id.

use vstd::prelude::*;
use crate::document::{Clip, ClipView, OverlayTrackView, Project, ProjectView, Scene, SceneView};
use crate::fixed::{larger, max, HORIZON, LIMIT, TENTH};
use crate::text::same;
use crate::validate::valid;
use crate::views::views;

verus! {

broadcast use {crate::views::group_views, vstd::seq_lib::group_seq_properties};

/// Sum of the durations of the scenes before scene `i`, less the overlaps of
/// the transitions up to it.
pub open spec fn raw_offset(scenes: Seq<SceneView>, i: int) -> int
    decreases i,
{
    if i <= 0 {
        0
    } else {
        raw_offset(scenes, i - 1) + scenes[i - 1].duration - scenes[i].overlap()
    }
}

/// Absolute start time of scene `i`.
pub open spec fn offset_of(scenes: Seq<SceneView>, i: int) -> int {
    max(raw_offset(scenes, i), 0)
}

/// Total duration: where the last scene ends.
pub open spec fn total_duration(scenes: Seq<SceneView>) -> int {
    if scenes.len() == 0 {
        0
    } else {
        offset_of(scenes, scenes.len() - 1) + scenes[scenes.len() - 1].duration
    }
}

pub proof fn lemma_offset_bound(scenes: Seq<SceneView>, i: int)
    requires
        0 <= i < scenes.len() || i == 0,
        i <= usize::MAX,
        forall|k: int| 0 <= k < scenes.len() ==> (#[trigger] scenes[k]).fits(16),
    ensures
        -3_200_000_000_000_000_000 * i <= raw_offset(scenes, i) <= 3_200_000_000_000_000_000 * i,
        -HORIZON <= raw_offset(scenes, i) <= HORIZON,
    decreases i,
{
    if i > 0 {
        lemma_offset_bound(scenes, i - 1);
        assert(scenes[i - 1].fits(16));
        assert(scenes[i].fits(16));
    }
    assert(usize::MAX <= 18_446_744_073_709_551_615);
}

/// Index of the first clip with the given id; the number of clips if there is
/// none.
pub open spec fn position(clips: Seq<ClipView>, id: Seq<char>) -> int
    decreases clips.len(),
{
    if clips.len() == 0 || clips[0].id == id {
        0
    } else {
        1 + position(clips.skip(1), id)
    }
}

/// Some clip has the given id.
pub open spec fn holds(clips: Seq<ClipView>, id: Seq<char>) -> bool {
    position(clips, id) < clips.len()
}

pub proof fn lemma_position(clips: Seq<ClipView>, id: Seq<char>)
    ensures
        0 <= position(clips, id) <= clips.len(),
        holds(clips, id) ==> clips[position(clips, id)].id == id,
        forall|j: int| 0 <= j < position(clips, id) ==> (#[trigger] clips[j]).id != id,
        holds(clips, id) <==> exists|j: int| 0 <= j < clips.len() && (#[trigger] clips[j]).id == id,
    decreases clips.len(),
{
    if clips.len() > 0 && clips[0].id != id {
        let rest = clips.skip(1);
        lemma_position(rest, id);
        assert forall|j: int| 0 <= j < position(clips, id) implies (#[trigger] clips[j]).id
            != id by {
            if j > 0 {
                assert(clips[j] == rest[j - 1]);
            }
        }
    }
}

/// The first index with a given id is the position.
pub proof fn lemma_position_is(clips: Seq<ClipView>, id: Seq<char>, i: int)
    requires
        0 <= i < clips.len(),
        clips[i].id == id,
        forall|j: int| 0 <= j < i ==> (#[trigger] clips[j]).id != id,
    ensures
        position(clips, id) == i,
{
    lemma_position(clips, id);
}

pub proof fn lemma_position_none(clips: Seq<ClipView>, id: Seq<char>)
    requires
        forall|j: int| 0 <= j < clips.len() ==> (#[trigger] clips[j]).id != id,
    ensures
        position(clips, id) == clips.len(),
{
    lemma_position(clips, id);
}

/// Index of the first scene that holds a clip with the given id.
pub open spec fn scene_position(scenes: Seq<SceneView>, id: Seq<char>) -> int
    decreases scenes.len(),
{
    if scenes.len() == 0 || holds(scenes[0].layers, id) {
        0
    } else {
        1 + scene_position(scenes.skip(1), id)
    }
}

/// Index of the first overlay track that holds a clip with the given id.
pub open spec fn track_position(tracks: Seq<OverlayTrackView>, id: Seq<char>) -> int
    decreases tracks.len(),
{
    if tracks.len() == 0 || holds(tracks[0].clips, id) {
        0
    } else {
        1 + track_position(tracks.skip(1), id)
    }
}

pub proof fn lemma_scene_position(scenes: Seq<SceneView>, id: Seq<char>)
    ensures
        0 <= scene_position(scenes, id) <= scenes.len(),
        scene_position(scenes, id) < scenes.len() ==> holds(
            scenes[scene_position(scenes, id)].layers,
            id,
        ),
        forall|j: int|
            0 <= j < scene_position(scenes, id) ==> !holds((#[trigger] scenes[j]).layers, id),
    decreases scenes.len(),
{
    if scenes.len() > 0 && !holds(scenes[0].layers, id) {
        let rest = scenes.skip(1);
        lemma_scene_position(rest, id);
        assert forall|j: int| 0 <= j < scene_position(scenes, id) implies !holds(
            (#[trigger] scenes[j]).layers,
            id,
        ) by {
            if j > 0 {
                assert(scenes[j] == rest[j - 1]);
            }
        }
    }
}

pub proof fn lemma_track_position(tracks: Seq<OverlayTrackView>, id: Seq<char>)
    ensures
        0 <= track_position(tracks, id) <= tracks.len(),
        track_position(tracks, id) < tracks.len() ==> holds(
            tracks[track_position(tracks, id)].clips,
            id,
        ),
        forall|j: int|
            0 <= j < track_position(tracks, id) ==> !holds((#[trigger] tracks[j]).clips, id),
    decreases tracks.len(),
{
    if tracks.len() > 0 && !holds(tracks[0].clips, id) {
        let rest = tracks.skip(1);
        lemma_track_position(rest, id);
        assert forall|j: int| 0 <= j < track_position(tracks, id) implies !holds(
            (#[trigger] tracks[j]).clips,
            id,
        ) by {
            if j > 0 {
                assert(tracks[j] == rest[j - 1]);
            }
        }
    }
}

/// Where a clip stands in a document.
pub ghost enum Spot {
    Layer { scene: int, index: int },
    Overlay { track: int, index: int },
    Absent,
}

/// The first clip with the given id: scenes come before overlay tracks.
pub open spec fn spot_of(p: ProjectView, id: Seq<char>) -> Spot {
    let s = scene_position(p.scenes, id);
    let t = track_position(p.overlays, id);
    if s < p.scenes.len() {
        Spot::Layer { scene: s, index: position(p.scenes[s].layers, id) }
    } else if t < p.overlays.len() {
        Spot::Overlay { track: t, index: position(p.overlays[t].clips, id) }
    } else {
        Spot::Absent
    }
}

/// The first clip with the given id, if the document has one.
pub open spec fn found(p: ProjectView, id: Seq<char>) -> Option<ClipView> {
    match spot_of(p, id) {
        Spot::Layer { scene, index } => Some(p.scenes[scene].layers[index]),
        Spot::Overlay { track, index } => Some(p.overlays[track].clips[index]),
        Spot::Absent => None,
    }
}

/// The document with other layers in one scene.
pub open spec fn with_layers(p: ProjectView, scene: int, layers: Seq<ClipView>) -> ProjectView {
    ProjectView {
        scenes: p.scenes.update(scene, SceneView { layers, ..p.scenes[scene] }),
        ..p
    }
}

/// The document with other clips on one overlay track.
pub open spec fn with_track(p: ProjectView, track: int, clips: Seq<ClipView>) -> ProjectView {
    ProjectView {
        overlays: p.overlays.update(track, OverlayTrackView { clips, ..p.overlays[track] }),
        ..p
    }
}

/// The document with another clip at a spot.
pub open spec fn with_clip(p: ProjectView, spot: Spot, c: ClipView) -> ProjectView {
    match spot {
        Spot::Layer { scene, index } => with_layers(
            p,
            scene,
            p.scenes[scene].layers.update(index, c),
        ),
        Spot::Overlay { track, index } => with_track(
            p,
            track,
            p.overlays[track].clips.update(index, c),
        ),
        Spot::Absent => p,
    }
}

/// The length that a clip takes up: its own duration, or the rest of the
/// scene for a scene layer without one (never below a tenth of a second).
pub open spec fn effective(c: ClipView, scene_duration: Option<int>) -> int {
    if c.duration > 0 {
        c.duration
    } else {
        match scene_duration {
            Some(d) => max(d - c.start, TENTH as int),
            None => c.duration,
        }
    }
}

/// The largest number of layers of a scene.
pub open spec fn max_layers(scenes: Seq<SceneView>) -> int
    decreases scenes.len(),
{
    if scenes.len() == 0 {
        0
    } else {
        max(max_layers(scenes.drop_last()), scenes.last().layers.len() as int)
    }
}

/// The index of the first clip with the given id.
pub fn position_in(clips: &Vec<Clip>, id: &str) -> (r: Option<usize>)
    ensures
        match r {
            Some(i) => i == position(views(clips@), id@) && i < clips.len(),
            None => position(views(clips@), id@) == clips.len(),
        },
{
    let mut i: usize = 0;
    while i < clips.len()
        invariant
            i <= clips.len(),
            forall|j: int| 0 <= j < i ==> (#[trigger] views(clips@)[j]).id != id@,
        decreases clips.len() - i,
    {
        if same(clips[i].id.as_str(), id) {
            proof {
                lemma_position_is(views(clips@), id@, i as int);
            }
            return Some(i);
        }
        i += 1;
    }
    proof {
        lemma_position_none(views(clips@), id@);
    }
    None
}

/// The index of the first scene that holds a clip with the given id.
pub fn scene_with(project: &Project, id: &str) -> (r: Option<usize>)
    ensures
        match r {
            Some(i) => i == scene_position(project@.scenes, id@) && i < project.scenes.len(),
            None => scene_position(project@.scenes, id@) == project.scenes.len(),
        },
{
    let ghost scenes = project@.scenes;
    let mut i: usize = 0;
    proof {
        lemma_scene_position(scenes, id@);
    }
    while i < project.scenes.len()
        invariant
            scenes == project@.scenes,
            i <= project.scenes.len(),
            forall|j: int| 0 <= j < i ==> !holds((#[trigger] scenes[j]).layers, id@),
        decreases project.scenes.len() - i,
    {
        if position_in(&project.scenes[i].layers, id).is_some() {
            proof {
                lemma_scene_position(scenes, id@);
                assert(holds(scenes[i as int].layers, id@));
            }
            return Some(i);
        }
        assert(!holds(scenes[i as int].layers, id@));
        i += 1;
    }
    None
}

/// The index of the first overlay track that holds a clip with the given id.
pub fn track_with(project: &Project, id: &str) -> (r: Option<usize>)
    ensures
        match r {
            Some(i) => i == track_position(project@.overlays, id@) && i < project.overlays.len(),
            None => track_position(project@.overlays, id@) == project.overlays.len(),
        },
{
    let ghost tracks = project@.overlays;
    let mut i: usize = 0;
    proof {
        lemma_track_position(tracks, id@);
    }
    while i < project.overlays.len()
        invariant
            tracks == project@.overlays,
            i <= project.overlays.len(),
            forall|j: int| 0 <= j < i ==> !holds((#[trigger] tracks[j]).clips, id@),
        decreases project.overlays.len() - i,
    {
        if position_in(&project.overlays[i].clips, id).is_some() {
            proof {
                lemma_track_position(tracks, id@);
                assert(holds(tracks[i as int].clips, id@));
            }
            return Some(i);
        }
        assert(!holds(tracks[i as int].clips, id@));
        i += 1;
    }
    None
}

/// Find a clip anywhere in the project by id.
pub fn find_clip<'a>(project: &'a Project, id: &str) -> (r: Option<&'a Clip>)
    ensures
        match r {
            Some(c) => found(project@, id@) == Some(c@),
            None => found(project@, id@) is None,
        },
{
    if let Some(s) = scene_with(project, id) {
        proof {
            lemma_scene_position(project@.scenes, id@);
        }
        return match position_in(&project.scenes[s].layers, id) {
            Some(i) => Some(&project.scenes[s].layers[i]),
            None => None,
        };
    }
    if let Some(t) = track_with(project, id) {
        proof {
            lemma_track_position(project@.overlays, id@);
        }
        return match position_in(&project.overlays[t].clips, id) {
            Some(i) => Some(&project.overlays[t].clips[i]),
            None => None,
        };
    }
    None
}

/// Find a clip anywhere in the project by id, to change it.
pub fn find_clip_mut<'a>(project: &'a mut Project, id: &str) -> (r: Option<&'a mut Clip>)
    ensures
        match r {
            Some(c) => found(old(project)@, id@) == Some(c@) && final(project)@ == with_clip(
                old(project)@,
                spot_of(old(project)@, id@),
                final(c)@,
            ),
            None => found(old(project)@, id@) is None && final(project)@ == old(project)@,
        },
{
    if let Some(s) = scene_with(project, id) {
        proof {
            lemma_scene_position(project@.scenes, id@);
        }
        if let Some(i) = position_in(&project.scenes[s].layers, id) {
            return Some(&mut project.scenes[s].layers[i]);
        }
        return None;
    }
    if let Some(t) = track_with(project, id) {
        proof {
            lemma_track_position(project@.overlays, id@);
        }
        if let Some(i) = position_in(&project.overlays[t].clips, id) {
            return Some(&mut project.overlays[t].clips[i]);
        }
        return None;
    }
    None
}

/// The effective duration of a clip. For a scene layer, a duration of 0 or
/// less fills the rest of the scene; overlay clips and clips without a parent
/// scene return their raw duration.
pub fn effective_duration(clip: &Clip, scene: Option<&Scene>) -> (r: i128)
    requires
        clip@.fits(16),
        scene is Some ==> scene->0@.fits(16),
    ensures
        r == effective(
            clip@,
            match scene {
                Some(s) => Some(s@.duration),
                None => None,
            },
        ),
{
    if clip.duration > 0 {
        clip.duration
    } else {
        match scene {
            Some(s) => larger(s.duration - clip.start, TENTH),
            None => clip.duration,
        }
    }
}

impl Project {
    /// Absolute start time of a scene by index (transition overlaps pull
    /// scenes earlier).
    pub fn scene_offset(&self, index: usize) -> (r: i128)
        requires
            index < self.scenes.len() || index == 0,
            self@.fits(16),
        ensures
            r == offset_of(self@.scenes, index as int),
            0 <= r <= HORIZON,
    {
        let mut offset: i128 = 0;
        let mut i: usize = 0;
        proof {
            lemma_offset_bound(self@.scenes, index as int);
        }
        while i < index
            invariant
                i <= index,
                index < self.scenes.len() || index == 0,
                self@.fits(16),
                offset == raw_offset(self@.scenes, i as int),
            decreases index - i,
        {
            proof {
                lemma_offset_bound(self@.scenes, i as int);
                lemma_offset_bound(self@.scenes, i + 1);
                assert(self@.scenes[i as int] == self.scenes@[i as int]@);
                assert(self@.scenes[i + 1] == self.scenes@[i + 1]@);
                assert(self@.scenes[i as int].fits(16));
                assert(self@.scenes[i + 1].fits(16));
            }
            let overlap: i128 = match &self.scenes[i + 1].transition {
                Some(t) => t.duration,
                None => 0,
            };
            offset = offset + self.scenes[i].duration - overlap;
            i += 1;
        }
        larger(offset, 0)
    }

    /// Total duration in seconds. Scenes are sequential; a transition
    /// overlaps a scene with its predecessor, shortening the total.
    pub fn duration(&self) -> (r: i128)
        requires
            self@.fits(16),
        ensures
            r == total_duration(self@.scenes),
            -16 * LIMIT <= r <= HORIZON + 16 * LIMIT,
    {
        let n: usize = self.scenes.len();
        if n == 0 {
            0
        } else {
            assert(self@.scenes[n - 1].fits(16));
            self.scene_offset(n - 1) + self.scenes[n - 1].duration
        }
    }
}

/// The largest number of layers of a scene.
pub fn layer_slots(project: &Project) -> (r: usize)
    ensures
        r == max_layers(project@.scenes),
{
    let mut most: usize = 0;
    let mut i: usize = 0;
    while i < project.scenes.len()
        invariant
            i <= project.scenes.len(),
            most == max_layers(project@.scenes.take(i as int)),
        decreases project.scenes.len() - i,
    {
        let n: usize = project.scenes[i].layers.len();
        proof {
            let upto = project@.scenes.take(i + 1);
            assert(upto.drop_last() =~= project@.scenes.take(i as int));
            assert(upto.last().layers.len() == n);
        }
        if n > most {
            most = n;
        }
        i += 1;
    }
    assert(project@.scenes.take(i as int) =~= project@.scenes);
    most
}

/// A timeline lane: scene layer slots first (0..max layers), then overlay
/// tracks. Mirrors the editor strip's row order.
pub fn lane_count(project: &Project) -> (r: usize)
    requires
        max_layers(project@.scenes) + project@.overlays.len() <= usize::MAX,
    ensures
        r == max_layers(project@.scenes) + project@.overlays.len(),
{
    layer_slots(project) + project.overlays.len()
}

/// The clips whose id is not the given one, in order.
pub open spec fn without(clips: Seq<ClipView>, id: Seq<char>) -> Seq<ClipView>
    decreases clips.len(),
{
    if clips.len() == 0 {
        clips
    } else if clips[0].id == id {
        without(clips.skip(1), id)
    } else {
        seq![clips[0]] + without(clips.skip(1), id)
    }
}

/// The document without any clip of the given id.
pub open spec fn removed(p: ProjectView, id: Seq<char>) -> ProjectView {
    ProjectView {
        scenes: Seq::new(
            p.scenes.len(),
            |i: int| SceneView { layers: without(p.scenes[i].layers, id), ..p.scenes[i] },
        ),
        overlays: Seq::new(
            p.overlays.len(),
            |i: int| OverlayTrackView { clips: without(p.overlays[i].clips, id), ..p.overlays[i] },
        ),
        ..p
    }
}

fn drop_id(clips: &mut Vec<Clip>, id: &str)
    ensures
        views(final(clips)@) == without(views(old(clips)@), id@),
{
    let ghost before = views(clips@);
    let mut i: usize = 0;
    let ghost mut done: int = 0;
    assert(before.skip(0) =~= before);
    assert(views(clips@).take(0) + without(before, id@) =~= without(before, id@));
    while i < clips.len()
        invariant
            0 <= done <= before.len(),
            i <= clips.len(),
            views(clips@).skip(i as int) == before.skip(done),
            views(clips@).take(i as int) + without(before.skip(done), id@) == without(before, id@),
        decreases clips.len() - i,
    {
        let ghost rest = before.skip(done);
        proof {
            assert(rest[0] == views(clips@).skip(i as int)[0]);
            assert(rest[0] == clips@[i as int]@);
            assert(rest.len() == views(clips@).skip(i as int).len());
            assert(rest.skip(1) =~= before.skip(done + 1));
        }
        if same(clips[i].id.as_str(), id) {
            proof {
                assert(views(clips@).remove(i as int).skip(i as int) =~= views(clips@).skip(
                    i as int,
                ).skip(1));
                assert(views(clips@).remove(i as int).take(i as int) =~= views(clips@).take(
                    i as int,
                ));
            }
            let _gone: Clip = clips.remove(i);
        } else {
            proof {
                assert(views(clips@).take(i + 1) =~= views(clips@).take(i as int).push(rest[0]));
                assert(views(clips@).take(i as int) + (seq![rest[0]] + without(
                    rest.skip(1),
                    id@,
                )) =~= views(clips@).take(i + 1) + without(rest.skip(1), id@));
                assert(views(clips@).skip(i + 1) =~= views(clips@).skip(i as int).skip(1));
            }
            i += 1;
        }
        proof {
            done = done + 1;
        }
    }
    proof {
        assert(views(clips@).skip(i as int).len() == 0);
        assert(before.skip(done).len() == 0);
        assert(views(clips@).take(i as int) =~= views(clips@));
        assert(views(clips@) + without(before.skip(done), id@) =~= views(clips@));
    }
}

/// Remove every clip with the given id from scenes and overlay tracks.
pub fn remove_clip(project: &mut Project, id: &str)
    ensures
        final(project)@ == removed(old(project)@, id@),
        valid(old(project)@) ==> valid(final(project)@),
{
    let ghost before = project@;
    let mut i: usize = 0;
    while i < project.scenes.len()
        invariant
            i <= project.scenes.len(),
            project@.scenes.len() == before.scenes.len(),
            project@ == (ProjectView { scenes: project@.scenes, ..before }),
            forall|j: int|
                0 <= j < i ==> #[trigger] project@.scenes[j] == (SceneView {
                    layers: without(before.scenes[j].layers, id@),
                    ..before.scenes[j]
                }),
            forall|j: int|
                i <= j < before.scenes.len() ==> #[trigger] project@.scenes[j] == before.scenes[j],
        decreases project.scenes.len() - i,
    {
        assert(project@.scenes[i as int] == before.scenes[i as int]);
        drop_id(&mut project.scenes[i].layers, id);
        i += 1;
    }
    assert(project@.scenes =~= removed(before, id@).scenes);
    let mut k: usize = 0;
    while k < project.overlays.len()
        invariant
            k <= project.overlays.len(),
            project@.overlays.len() == before.overlays.len(),
            project@ == (ProjectView {
                scenes: removed(before, id@).scenes,
                overlays: project@.overlays,
                ..before
            }),
            forall|j: int|
                0 <= j < k ==> #[trigger] project@.overlays[j] == (OverlayTrackView {
                    clips: without(before.overlays[j].clips, id@),
                    ..before.overlays[j]
                }),
            forall|j: int|
                k <= j < before.overlays.len() ==> #[trigger] project@.overlays[j]
                    == before.overlays[j],
        decreases project.overlays.len() - k,
    {
        assert(project@.overlays[k as int] == before.overlays[k as int]);
        drop_id(&mut project.overlays[k].clips, id);
        k += 1;
    }
    assert(project@.overlays =~= removed(before, id@).overlays);
    proof {
        if valid(before) {
            crate::laws::law_removed_valid(before, id@);
        }
    }
}

pub proof fn lemma_without(clips: Seq<ClipView>, id: Seq<char>)
    ensures
        forall|j: int| 0 <= j < without(clips, id).len() ==> (#[trigger] without(clips, id)[j]).id != id,
        !holds(clips, id) ==> without(clips, id) == clips,
    decreases clips.len(),
{
    if clips.len() > 0 {
        let rest = clips.skip(1);
        lemma_without(rest, id);
        lemma_position(clips, id);
        lemma_position(rest, id);
        if clips[0].id != id {
            assert forall|j: int| 0 <= j < without(clips, id).len() implies (#[trigger] without(
                clips,
                id,
            )[j]).id != id by {
                if j > 0 {
                    assert(without(clips, id)[j] == without(rest, id)[j - 1]);
                }
            }
            assert(clips =~= seq![clips[0]] + rest);
        }
    }
}

/// A removed clip is found no more, and removing an id that no clip has
/// leaves the document as it is.
pub proof fn law_removed_is_gone(p: ProjectView, id: Seq<char>)
    ensures
        found(removed(p, id), id) is None,
        found(p, id) is None ==> removed(p, id) == p,
{
    let q = removed(p, id);
    assert forall|i: int| 0 <= i < q.scenes.len() implies !holds(
        (#[trigger] q.scenes[i]).layers,
        id,
    ) by {
        lemma_without(p.scenes[i].layers, id);
        lemma_position_none(q.scenes[i].layers, id);
    }
    assert forall|i: int| 0 <= i < q.overlays.len() implies !holds(
        (#[trigger] q.overlays[i]).clips,
        id,
    ) by {
        lemma_without(p.overlays[i].clips, id);
        lemma_position_none(q.overlays[i].clips, id);
    }
    lemma_scene_position(q.scenes, id);
    lemma_track_position(q.overlays, id);
    lemma_scene_position(p.scenes, id);
    lemma_track_position(p.overlays, id);
    if found(p, id) is None {
        assert forall|i: int| 0 <= i < p.scenes.len() implies #[trigger] q.scenes[i]
            == p.scenes[i] by {
            lemma_without(p.scenes[i].layers, id);
            assert(!holds(p.scenes[i].layers, id));
        }
        assert forall|i: int| 0 <= i < p.overlays.len() implies #[trigger] q.overlays[i]
            == p.overlays[i] by {
            lemma_without(p.overlays[i].clips, id);
            assert(!holds(p.overlays[i].clips, id));
        }
        assert(q.scenes =~= p.scenes);
        assert(q.overlays =~= p.overlays);
    }
}

/// The document after the scene of a clip was grown to hold it.
pub open spec fn grown(p: ProjectView, id: Seq<char>) -> ProjectView {
    let s = scene_position(p.scenes, id);
    if s >= p.scenes.len() {
        p
    } else {
        let scene = p.scenes[s];
        let c = scene.layers[position(scene.layers, id)];
        let needed = content_end_of(c);
        ProjectView {
            scenes: p.scenes.update(
                s,
                SceneView { duration: max(scene.duration, needed), ..scene },
            ),
            ..p
        }
    }
}

/// Where a clip's content ends; a clip without a duration counts a tenth of a
/// second.
pub open spec fn content_end_of(c: ClipView) -> int {
    c.start + if c.duration > 0 {
        c.duration
    } else {
        TENTH as int
    }
}

/// Where a clip's content ends.
pub fn content_end(clip: &Clip) -> (r: i128)
    requires
        clip@.fits(16),
    ensures
        r == content_end_of(clip@),
{
    clip.start + if clip.duration > 0 {
        clip.duration
    } else {
        TENTH
    }
}

/// Grow a scene's duration so a scene-layer clip (by id) fits, if it doesn't
/// already. No-op for overlay clips (already unbounded) or if the clip
/// already fits.
pub fn grow_scene_for_clip(project: &mut Project, id: &str)
    requires
        old(project)@.fits(16),
    ensures
        final(project)@ == grown(old(project)@, id@),
{
    let ghost before = project@;
    if let Some(s) = scene_with(project, id) {
        proof {
            lemma_scene_position(before.scenes, id@);
            assert(before.scenes[s as int].fits(16));
        }
        if let Some(i) = position_in(&project.scenes[s].layers, id) {
            assert(before.scenes[s as int].layers[i as int].fits(16));
            let needed: i128 = content_end(&project.scenes[s].layers[i]);
            if needed > project.scenes[s].duration {
                project.scenes[s].duration = needed;
            } else {
                assert(before.scenes =~= grown(before, id@).scenes);
            }
        }
    }
}

/// Growing a scene for a clip never shrinks it, makes the clip fit, and
/// changes nothing else.
pub proof fn law_grown_fits(p: ProjectView, id: Seq<char>)
    ensures
        ({
            let s = scene_position(p.scenes, id);
            let q = grown(p, id);
            &&& s < p.scenes.len() ==> q.scenes[s].duration >= p.scenes[s].duration
                && content_end_of(q.scenes[s].layers[position(q.scenes[s].layers, id)])
                <= q.scenes[s].duration && q.scenes[s].layers == p.scenes[s].layers
            &&& q.scenes.len() == p.scenes.len()
            &&& forall|i: int| 0 <= i < p.scenes.len() && i != s ==> q.scenes[i] == p.scenes[i]
            &&& q.overlays == p.overlays && q.defs == p.defs
        }),
{
    lemma_scene_position(p.scenes, id);
}

/// The first scene starts at 0. Each further scene starts where the one
/// before it ends, earlier by the length of its transition if it has one, but
/// never before 0; the document lasts until the last scene ends.
pub proof fn law_scene_follows(scenes: Seq<SceneView>, i: int)
    requires
        0 <= i < scenes.len(),
        forall|k: int|
            0 < k < scenes.len() ==> match (#[trigger] scenes[k]).transition {
                Some(t) => t.duration <= scenes[k - 1].duration,
                None => scenes[k - 1].duration >= 0,
            },
    ensures
        i == 0 ==> offset_of(scenes, i) == 0,
        i > 0 ==> offset_of(scenes, i - 1) + scenes[i - 1].duration == match scenes[i].transition {
            Some(t) => offset_of(scenes, i) + t.duration,
            None => offset_of(scenes, i),
        },
        i + 1 == scenes.len() ==> total_duration(scenes) == offset_of(scenes, i)
            + scenes[i].duration,
    decreases i,
{
    if i > 0 {
        assert(scenes[i].transition == scenes[i].transition);
        lemma_raw_offset(scenes, i - 1);
        lemma_raw_offset(scenes, i);
    }
}

proof fn lemma_raw_offset(scenes: Seq<SceneView>, i: int)
    requires
        0 <= i < scenes.len(),
        forall|k: int|
            0 < k < scenes.len() ==> match (#[trigger] scenes[k]).transition {
                Some(t) => t.duration <= scenes[k - 1].duration,
                None => scenes[k - 1].duration >= 0,
            },
    ensures
        raw_offset(scenes, i) >= 0,
    decreases i,
{
    if i > 0 {
        lemma_raw_offset(scenes, i - 1);
        assert(scenes[i].transition == scenes[i].transition);
    }
}

/// A clip lasts as long as it says. Where it says nothing, a scene layer ends
/// with its scene, or a tenth of a second after it starts if that comes later.
pub proof fn law_effective_length(c: ClipView, scene: int)
    ensures
        c.duration > 0 ==> effective(c, Some(scene)) == c.duration && effective(c, None)
            == c.duration,
        c.duration <= 0 && scene >= c.start + 100_000_000 ==> c.start + effective(c, Some(scene))
            == scene,
        c.duration <= 0 && scene < c.start + 100_000_000 ==> effective(c, Some(scene))
            == 100_000_000,
        effective(c, None) == c.duration,
        effective(c, Some(scene)) > 0,
{
}

/// A clip is found wherever in the document it stands, and what is found has
/// the id asked for. Scene layers come before overlay clips.
pub proof fn law_found(p: ProjectView, id: Seq<char>, s: int, i: int)
    ensures
        match found(p, id) {
            Some(c) => {
                &&& c.id == id
                &&& (exists|a: int, b: int|
                    0 <= a < p.scenes.len() && 0 <= b < p.scenes[a].layers.len()
                        && #[trigger] p.scenes[a].layers[b] == c) || (exists|a: int, b: int|
                    0 <= a < p.overlays.len() && 0 <= b < p.overlays[a].clips.len()
                        && #[trigger] p.overlays[a].clips[b] == c)
            },
            None => true,
        },
        0 <= s < p.scenes.len() && 0 <= i < p.scenes[s].layers.len() && p.scenes[s].layers[i].id
            == id ==> found(p, id) is Some && exists|a: int, b: int|
            0 <= a <= s && 0 <= b < p.scenes[a].layers.len() && (a == s ==> b <= i)
                && #[trigger] p.scenes[a].layers[b] == found(p, id)->0,
        0 <= s < p.overlays.len() && 0 <= i < p.overlays[s].clips.len()
            && p.overlays[s].clips[i].id == id ==> found(p, id) is Some,
{
    lemma_scene_position(p.scenes, id);
    lemma_track_position(p.overlays, id);
    let a = scene_position(p.scenes, id);
    let t = track_position(p.overlays, id);
    if a < p.scenes.len() {
        lemma_position(p.scenes[a].layers, id);
        let b = position(p.scenes[a].layers, id);
        assert(p.scenes[a].layers[b] == found(p, id)->0);
    } else if t < p.overlays.len() {
        lemma_position(p.overlays[t].clips, id);
        let b = position(p.overlays[t].clips, id);
        assert(p.overlays[t].clips[b] == found(p, id)->0);
    }
    if 0 <= s < p.scenes.len() && 0 <= i < p.scenes[s].layers.len() && p.scenes[s].layers[i].id
        == id {
        lemma_position(p.scenes[s].layers, id);
        assert(holds(p.scenes[s].layers, id));
    }
    if 0 <= s < p.overlays.len() && 0 <= i < p.overlays[s].clips.len()
        && p.overlays[s].clips[i].id == id {
        lemma_position(p.overlays[s].clips, id);
        assert(holds(p.overlays[s].clips, id));
    }
}

proof fn lemma_without_filter(clips: Seq<ClipView>, id: Seq<char>)
    ensures
        without(clips, id) == clips.filter(|c: ClipView| c.id != id),
    decreases clips.len(),
{
    let keep = |c: ClipView| c.id != id;
    if clips.len() == 0 {
        reveal(Seq::filter);
        assert(clips.filter(keep) =~= clips);
    } else {
        let first = seq![clips[0]];
        let rest = clips.skip(1);
        lemma_without_filter(rest, id);
        assert(clips =~= first + rest);
        Seq::filter_distributes_over_add(first, rest, keep);
        assert(first.filter(keep) =~= if keep(clips[0]) {
            first
        } else {
            Seq::empty()
        }) by {
            reveal(Seq::filter);
            assert(first.drop_last() =~= Seq::empty());
            assert(first.drop_last().filter(keep) =~= Seq::empty());
        }
    }
}

/// Removing an id takes every clip of that id out of every scene and every
/// track, and leaves the other clips, in order, and all else as it was.
pub proof fn law_removed_keeps_others(p: ProjectView, id: Seq<char>)
    ensures
        removed(p, id).scenes.len() == p.scenes.len(),
        removed(p, id).overlays.len() == p.overlays.len(),
        forall|s: int|
            #![trigger removed(p, id).scenes[s]]
            0 <= s < p.scenes.len() ==> removed(p, id).scenes[s] == (SceneView {
                layers: p.scenes[s].layers.filter(|c: ClipView| c.id != id),
                ..p.scenes[s]
            }),
        forall|t: int|
            #![trigger removed(p, id).overlays[t]]
            0 <= t < p.overlays.len() ==> removed(p, id).overlays[t] == (OverlayTrackView {
                clips: p.overlays[t].clips.filter(|c: ClipView| c.id != id),
                ..p.overlays[t]
            }),
        removed(p, id).defs == p.defs,
        removed(p, id).meta == p.meta,
        removed(p, id).scene_lanes == p.scene_lanes,
{
    assert forall|s: int| 0 <= s < p.scenes.len() implies #[trigger] removed(p, id).scenes[s] == (
    SceneView {
        layers: p.scenes[s].layers.filter(|c: ClipView| c.id != id),
        ..p.scenes[s]
    }) by {
        lemma_without_filter(p.scenes[s].layers, id);
    }
    assert forall|t: int| 0 <= t < p.overlays.len() implies #[trigger] removed(p, id).overlays[t]
        == (OverlayTrackView {
        clips: p.overlays[t].clips.filter(|c: ClipView| c.id != id),
        ..p.overlays[t]
    }) by {
        lemma_without_filter(p.overlays[t].clips, id);
    }
}

/// A scene grows for a layer just as far as it must: to where the layer ends,
/// if that is later, and a layer without a duration asks for a tenth of a
/// second. A clip that is no scene layer asks for nothing.
pub proof fn law_grown_just_enough(p: ProjectView, id: Seq<char>, s: int, i: int)
    requires
        0 <= s < p.scenes.len(),
    ensures
        grown(p, id).scenes.len() == p.scenes.len(),
        (forall|a: int, b: int|
            0 <= a < p.scenes.len() && 0 <= b < p.scenes[a].layers.len() ==> (
            #[trigger] p.scenes[a].layers[b]).id != id) ==> grown(p, id) == p,
        0 <= i < p.scenes[s].layers.len() && p.scenes[s].layers[i].id == id && (forall|b: int|
            0 <= b < i ==> (#[trigger] p.scenes[s].layers[b]).id != id) && (forall|a: int, b: int|
            0 <= a < s && 0 <= b < p.scenes[a].layers.len() ==> (
            #[trigger] p.scenes[a].layers[b]).id != id) ==> {
            let c = p.scenes[s].layers[i];
            let end = if c.duration > 0 {
                c.start + c.duration
            } else {
                c.start + 100_000_000
            };
            let after = grown(p, id).scenes[s].duration;
            &&& end <= p.scenes[s].duration ==> after == p.scenes[s].duration
            &&& end > p.scenes[s].duration ==> after == end
        },
{
    lemma_scene_position(p.scenes, id);
    let at = scene_position(p.scenes, id);
    if at < p.scenes.len() {
        lemma_position(p.scenes[at].layers, id);
        assert(p.scenes[at].layers[position(p.scenes[at].layers, id)].id == id);
    }
    if 0 <= i < p.scenes[s].layers.len() && p.scenes[s].layers[i].id == id {
        lemma_position(p.scenes[s].layers, id);
        assert(holds(p.scenes[s].layers, id));
        if forall|b: int| 0 <= b < i ==> (#[trigger] p.scenes[s].layers[b]).id != id {
            lemma_position_is(p.scenes[s].layers, id, i);
        }
    }
}

/// No scene has more layers than the largest number says, and one has that
/// many, unless there is none.
pub proof fn law_max_layers(scenes: Seq<SceneView>, i: int)
    ensures
        max_layers(scenes) >= 0,
        0 <= i < scenes.len() ==> scenes[i].layers.len() <= max_layers(scenes),
        max_layers(scenes) == 0 || exists|k: int|
            0 <= k < scenes.len() && (#[trigger] scenes[k]).layers.len() == max_layers(scenes),
    decreases scenes.len(),
{
    if scenes.len() > 0 {
        let rest = scenes.drop_last();
        law_max_layers(rest, i);
        assert(scenes[scenes.len() - 1] == scenes.last());
        if max_layers(scenes) == max_layers(rest) && max_layers(rest) > 0 {
            let k = choose|k: int|
                0 <= k < rest.len() && (#[trigger] rest[k]).layers.len() == max_layers(rest);
            assert(scenes[k] == rest[k]);
        }
    }
}

} // verus!
