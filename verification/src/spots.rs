//! How edits move the places at which clips are found.

use vstd::prelude::*;
use crate::document::{ClipView, OverlayTrackView, ProjectView, SceneView};
use crate::split::{left_part, right_part, split_id, split_list, split_project};
use crate::split::{cut_of, split_length};
use crate::timeline::{found, holds, lemma_position, lemma_position_is, lemma_scene_position};
use crate::timeline::{lemma_track_position, position, spot_of, with_layers, with_track, Spot};
use crate::validate::{all_ids, clip_ids, scene_ids, track_ids};

verus! {

/// The first scene that holds an id decides where it is found.
pub proof fn lemma_spot_layer(q: ProjectView, x: Seq<char>, s: int, i: int)
    requires
        0 <= s < q.scenes.len(),
        forall|j: int| 0 <= j < s ==> !holds((#[trigger] q.scenes[j]).layers, x),
        position(q.scenes[s].layers, x) == i,
        0 <= i < q.scenes[s].layers.len(),
    ensures
        spot_of(q, x) == (Spot::Layer { scene: s, index: i }),
        found(q, x) == Some(q.scenes[s].layers[i]),
{
    lemma_scene_position(q.scenes, x);
    assert(holds(q.scenes[s].layers, x));
}

/// An id that no scene holds is found on the first track that holds it.
pub proof fn lemma_spot_overlay(q: ProjectView, x: Seq<char>, t: int, i: int)
    requires
        forall|j: int| 0 <= j < q.scenes.len() ==> !holds((#[trigger] q.scenes[j]).layers, x),
        0 <= t < q.overlays.len(),
        forall|j: int| 0 <= j < t ==> !holds((#[trigger] q.overlays[j]).clips, x),
        position(q.overlays[t].clips, x) == i,
        0 <= i < q.overlays[t].clips.len(),
    ensures
        spot_of(q, x) == (Spot::Overlay { track: t, index: i }),
        found(q, x) == Some(q.overlays[t].clips[i]),
{
    lemma_scene_position(q.scenes, x);
    lemma_track_position(q.overlays, x);
    assert(holds(q.overlays[t].clips, x));
}

/// What it means that a clip is found at a spot.
pub proof fn lemma_spot(p: ProjectView, x: Seq<char>)
    ensures
        match spot_of(p, x) {
            Spot::Layer { scene, index } => {
                &&& 0 <= scene < p.scenes.len()
                &&& 0 <= index < p.scenes[scene].layers.len()
                &&& position(p.scenes[scene].layers, x) == index
                &&& p.scenes[scene].layers[index].id == x
                &&& forall|j: int| 0 <= j < scene ==> !holds((#[trigger] p.scenes[j]).layers, x)
            },
            Spot::Overlay { track, index } => {
                &&& 0 <= track < p.overlays.len()
                &&& 0 <= index < p.overlays[track].clips.len()
                &&& position(p.overlays[track].clips, x) == index
                &&& p.overlays[track].clips[index].id == x
                &&& forall|j: int|
                    0 <= j < p.scenes.len() ==> !holds((#[trigger] p.scenes[j]).layers, x)
                &&& forall|j: int| 0 <= j < track ==> !holds((#[trigger] p.overlays[j]).clips, x)
            },
            Spot::Absent => {
                &&& forall|j: int|
                    0 <= j < p.scenes.len() ==> !holds((#[trigger] p.scenes[j]).layers, x)
                &&& forall|j: int|
                    0 <= j < p.overlays.len() ==> !holds((#[trigger] p.overlays[j]).clips, x)
            },
        },
        found(p, x) is None <==> spot_of(p, x) is Absent,
{
    lemma_scene_position(p.scenes, x);
    lemma_track_position(p.overlays, x);
    match spot_of(p, x) {
        Spot::Layer { scene, index } => {
            lemma_position(p.scenes[scene].layers, x);
        },
        Spot::Overlay { track, index } => {
            lemma_position(p.overlays[track].clips, x);
        },
        Spot::Absent => {},
    }
}

/// In a list with a clip split, the old id stays in place and the new one
/// follows it.
pub proof fn lemma_split_list(
    clips: Seq<ClipView>,
    id: Seq<char>,
    cut: int,
    length: int,
    new: Seq<char>,
)
    requires
        holds(clips, id),
        !holds(clips, new),
    ensures
        ({
            let k = position(clips, id);
            let after = split_list(clips, k, cut, length, new);
            &&& id != new
            &&& position(after, id) == k
            &&& after[k] == left_part(clips[k], cut)
            &&& position(after, new) == k + 1
            &&& after[k + 1] == right_part(clips[k], cut, length, new)
            &&& after.len() == clips.len() + 1
            &&& forall|x: Seq<char>|
                x != id && x != new ==> (holds(after, x) <==> #[trigger] holds(clips, x))
            &&& forall|x: Seq<char>|
                #![trigger position(after, x)]
                holds(clips, x) && position(clips, x) < k ==> position(after, x) == position(
                    clips,
                    x,
                ) && after[position(clips, x)] == clips[position(clips, x)]
        }),
{
    let k = position(clips, id);
    let after = split_list(clips, k, cut, length, new);
    lemma_position(clips, id);
    lemma_position(clips, new);
    assert(after[k] == left_part(clips[k], cut));
    assert(after[k + 1] == right_part(clips[k], cut, length, new));
    assert forall|j: int| 0 <= j < k implies after[j] == clips[j] by {}
    lemma_position_is(after, id, k);
    assert forall|j: int| 0 <= j < k + 1 implies (#[trigger] after[j]).id != new by {
        if j < k {
            assert(after[j] == clips[j]);
        }
    }
    lemma_position_is(after, new, k + 1);
    assert forall|x: Seq<char>| x != id && x != new implies (holds(after, x)
        <==> #[trigger] holds(clips, x)) by {
        lemma_position(after, x);
        lemma_position(clips, x);
        if holds(clips, x) {
            let j = position(clips, x);
            if j < k {
                assert(after[j].id == x);
            } else {
                assert(after[j + 1].id == x);
            }
        }
        if holds(after, x) {
            let j = position(after, x);
            if j < k {
                assert(clips[j].id == x);
            } else {
                assert(j > k + 1);
                assert(clips[j - 1].id == x);
            }
        }
    }
    assert forall|x: Seq<char>|
        #![trigger position(after, x)]
        holds(clips, x) && position(clips, x) < k implies position(after, x) == position(clips, x)
        && after[position(clips, x)] == clips[position(clips, x)] by {
        lemma_position(clips, x);
        let j = position(clips, x);
        assert(after[j] == clips[j]);
        assert forall|m: int| 0 <= m < j implies (#[trigger] after[m]).id != x by {
            assert(after[m] == clips[m]);
        }
        lemma_position_is(after, x, j);
    }
}

/// After a split the old clip is found where it was, cut short, and the new
/// clip is found right behind it.
pub proof fn lemma_split_spots(p: ProjectView, id: Seq<char>, t: int)
    requires
        found(p, id) is Some,
        found(p, split_id(p, id)) is None,
    ensures
        ({
            let q = split_project(p, id, t);
            let new = split_id(p, id);
            let c = found(p, id)->0;
            let cut = cut_of(p, id, t);
            &&& spot_of(q, id) == spot_of(p, id)
            &&& found(q, id) == Some(left_part(c, cut))
            &&& spot_of(q, new) == next_spot(spot_of(p, id))
            &&& found(q, new) == Some(
                right_part(c, cut, split_length(p, spot_of(p, id), c), new),
            )
            &&& all_ids(q).len() == all_ids(p).len() + 1
        }),
{
    let q = split_project(p, id, t);
    let new = split_id(p, id);
    let c = found(p, id)->0;
    let cut = cut_of(p, id, t);
    let length = split_length(p, spot_of(p, id), c);
    lemma_spot(p, id);
    lemma_spot(p, new);
    match spot_of(p, id) {
        Spot::Layer { scene, index } => {
            let clips = p.scenes[scene].layers;
            assert(!holds(clips, new));
            lemma_split_list(clips, id, cut, length, new);
            lemma_spot_layer(q, id, scene, index);
            lemma_spot_layer(q, new, scene, index + 1);
            lemma_layers_id_count(p, scene, q.scenes[scene].layers);
        },
        Spot::Overlay { track, index } => {
            let clips = p.overlays[track].clips;
            assert(!holds(clips, new));
            lemma_split_list(clips, id, cut, length, new);
            lemma_spot_overlay(q, id, track, index);
            lemma_spot_overlay(q, new, track, index + 1);
            lemma_track_id_count(p, track, q.overlays[track].clips);
        },
        Spot::Absent => {},
    }
}

/// The place behind a spot.
pub open spec fn next_spot(s: Spot) -> Spot {
    match s {
        Spot::Layer { scene, index } => Spot::Layer { scene, index: index + 1 },
        Spot::Overlay { track, index } => Spot::Overlay { track, index: index + 1 },
        Spot::Absent => Spot::Absent,
    }
}

/// A split leaves a clip alone that stands before the split one in the same
/// list.
pub proof fn lemma_split_keeps(p: ProjectView, id: Seq<char>, t: int, x: Seq<char>)
    requires
        found(p, id) is Some,
        found(p, split_id(p, id)) is None,
        spot_of(p, id) == next_spot(spot_of(p, x)),
    ensures
        spot_of(split_project(p, id, t), x) == spot_of(p, x),
        found(split_project(p, id, t), x) == found(p, x),
{
    let q = split_project(p, id, t);
    let new = split_id(p, id);
    let c = found(p, id)->0;
    let cut = cut_of(p, id, t);
    let length = split_length(p, spot_of(p, id), c);
    lemma_spot(p, id);
    lemma_spot(p, new);
    lemma_spot(p, x);
    match spot_of(p, x) {
        Spot::Layer { scene, index } => {
            let clips = p.scenes[scene].layers;
            assert(!holds(clips, new));
            lemma_split_list(clips, id, cut, length, new);
            assert(position(q.scenes[scene].layers, x) == index);
            lemma_spot_layer(q, x, scene, index);
        },
        Spot::Overlay { track, index } => {
            let clips = p.overlays[track].clips;
            assert(!holds(clips, new));
            lemma_split_list(clips, id, cut, length, new);
            assert(position(q.overlays[track].clips, x) == index);
            lemma_spot_overlay(q, x, track, index);
        },
        Spot::Absent => {},
    }
}

pub proof fn lemma_clip_ids_len(clips: Seq<ClipView>, i: int)
    requires
        0 <= i <= clips.len(),
    ensures
        clip_ids(clips, i).len() == clips.len() - i,
    decreases clips.len() - i,
{
    if i < clips.len() {
        lemma_clip_ids_len(clips, i + 1);
    }
}

proof fn lemma_scene_ids_len(
    scenes: Seq<SceneView>,
    s: int,
    layers: Seq<ClipView>,
    i: int,
)
    requires
        0 <= i <= scenes.len(),
        0 <= s < scenes.len(),
    ensures
        ({
            let other = scenes.update(s, SceneView { layers, ..scenes[s] });
            scene_ids(other, i).len() == scene_ids(scenes, i).len() + if i <= s {
                layers.len() - scenes[s].layers.len()
            } else {
                0
            }
        }),
    decreases scenes.len() - i,
{
    if i < scenes.len() {
        lemma_scene_ids_len(scenes, s, layers, i + 1);
        lemma_clip_ids_len(layers, 0);
        lemma_clip_ids_len(scenes[i].layers, 0);
    }
}

proof fn lemma_track_ids_len(
    tracks: Seq<OverlayTrackView>,
    s: int,
    clips: Seq<ClipView>,
    i: int,
)
    requires
        0 <= i <= tracks.len(),
        0 <= s < tracks.len(),
    ensures
        ({
            let other = tracks.update(s, OverlayTrackView { clips, ..tracks[s] });
            track_ids(other, i).len() == track_ids(tracks, i).len() + if i <= s {
                clips.len() - tracks[s].clips.len()
            } else {
                0
            }
        }),
    decreases tracks.len() - i,
{
    if i < tracks.len() {
        lemma_track_ids_len(tracks, s, clips, i + 1);
        lemma_clip_ids_len(clips, 0);
        lemma_clip_ids_len(tracks[i].clips, 0);
    }
}

pub proof fn lemma_layers_id_count(p: ProjectView, s: int, layers: Seq<ClipView>)
    requires
        0 <= s < p.scenes.len(),
    ensures
        all_ids(with_layers(p, s, layers)).len() == all_ids(p).len() + layers.len()
            - p.scenes[s].layers.len(),
{
    lemma_scene_ids_len(p.scenes, s, layers, 0);
}

pub proof fn lemma_track_id_count(p: ProjectView, t: int, clips: Seq<ClipView>)
    requires
        0 <= t < p.overlays.len(),
    ensures
        all_ids(with_track(p, t, clips)).len() == all_ids(p).len() + clips.len()
            - p.overlays[t].clips.len(),
{
    lemma_track_ids_len(p.overlays, t, clips, 0);
}

} // verus!
