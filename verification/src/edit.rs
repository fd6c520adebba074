//! Edits that move, remove or copy clips.

use vstd::prelude::*;
use crate::document::{Clip, ClipView, CompDef, CompDefView, Element, ElementView};
use crate::document::{OverlayTrack, OverlayTrackView, Project, ProjectView, SceneView};
use crate::document::Transform;
use crate::error::{EditError, EditErrorView};
use crate::fixed::{clamped, larger, max, min, smaller, HORIZON, TENTH, UNIT};
use crate::text::{decimal, decimal_text, joined, same};
use crate::textmap::{lookup, stored};
use crate::timeline::{content_end, content_end_of, find_clip, found, lane_count, layer_slots};
use crate::timeline::{lemma_position, lemma_scene_position, lemma_track_position, max_layers};
use crate::timeline::{offset_of, position, position_in, scene_position, scene_with, spot_of};
use crate::timeline::{track_position, track_with, with_clip, with_layers, with_track, Spot};
use crate::validate::{project_fault, valid};
use crate::views::{collected, lemma_collected_step, views};

verus! {

broadcast use crate::views::group_views;

/// The clips that start at or after `from`, moved `by` earlier but never
/// before 0; the others stay.
pub open spec fn pulled(clips: Seq<ClipView>, from: int, by: int) -> Seq<ClipView> {
    Seq::new(
        clips.len(),
        |i: int|
            if clips[i].start >= from {
                ClipView { start: max(clips[i].start - by, 0), ..clips[i] }
            } else {
                clips[i]
            },
    )
}

/// Where the content of a scene ends, never before a tenth of a second.
pub open spec fn content_end_all(clips: Seq<ClipView>) -> int
    decreases clips.len(),
{
    if clips.len() == 0 {
        TENTH as int
    } else {
        max(content_end_all(clips.drop_last()), content_end_of(clips.last()))
    }
}

/// The document after a ripple delete: an overlay clip pulls everything after
/// it on its track left; a scene clip shrinks its scene toward the remaining
/// content.
pub open spec fn rippled(p: ProjectView, id: Seq<char>) -> ProjectView {
    let t = track_position(p.overlays, id);
    let s = scene_position(p.scenes, id);
    if t < p.overlays.len() {
        let clips = p.overlays[t].clips;
        let gone = clips[position(clips, id)];
        with_track(
            p,
            t,
            pulled(clips.remove(position(clips, id)), gone.start, max(gone.duration, 0)),
        )
    } else if s < p.scenes.len() {
        let scene = p.scenes[s];
        let gone = scene.layers[position(scene.layers, id)];
        let rest = scene.layers.remove(position(scene.layers, id));
        let span = if gone.duration > 0 {
            gone.duration
        } else {
            max(scene.duration - gone.start, 0)
        };
        ProjectView {
            scenes: p.scenes.update(
                s,
                SceneView {
                    layers: rest,
                    duration: max(scene.duration - span, content_end_all(rest)),
                    ..scene
                },
            ),
            ..p
        }
    } else {
        p
    }
}

/// Where the content of a scene ends, never before a tenth of a second.
pub fn content_end_in(clips: &Vec<Clip>) -> (r: i128)
    requires
        crate::document::clips_fit(views(clips@), 16),
    ensures
        r == content_end_all(views(clips@)),
        TENTH <= r,
{
    let mut end: i128 = TENTH;
    let mut i: usize = 0;
    let ghost all = views(clips@);
    assert(all.take(0) =~= Seq::<ClipView>::empty());
    while i < clips.len()
        invariant
            i <= clips.len(),
            all == views(clips@),
            crate::document::clips_fit(all, 16),
            end == content_end_all(all.take(i as int)),
            TENTH <= end,
        decreases clips.len() - i,
    {
        proof {
            assert(all[i as int].fits(16));
            assert(all.take(i + 1).drop_last() =~= all.take(i as int));
            assert(all.take(i + 1).last() == all[i as int]);
        }
        end = larger(end, content_end(&clips[i]));
        i += 1;
    }
    assert(all.take(i as int) =~= all);
    end
}

fn pull(clips: &mut Vec<Clip>, from: i128, by: i128)
    requires
        crate::document::clips_fit(views(old(clips)@), 16),
        crate::fixed::within(by as int, 16),
    ensures
        views(final(clips)@) == pulled(views(old(clips)@), from as int, by as int),
{
    let ghost before = views(clips@);
    let mut i: usize = 0;
    while i < clips.len()
        invariant
            i <= clips.len(),
            clips@.len() == before.len(),
            crate::document::clips_fit(before, 16),
            crate::fixed::within(by as int, 16),
            forall|j: int|
                0 <= j < i ==> #[trigger] views(clips@)[j] == pulled(
                    before,
                    from as int,
                    by as int,
                )[j],
            forall|j: int| i <= j < before.len() ==> #[trigger] views(clips@)[j] == before[j],
        decreases clips.len() - i,
    {
        proof {
            assert(views(clips@)[i as int] == before[i as int]);
            assert(before[i as int].fits(16));
        }
        let start: i128 = clips[i].start;
        if start >= from {
            clips[i].start = larger(start - by, 0);
        }
        i += 1;
    }
    assert(views(clips@) =~= pulled(before, from as int, by as int));
}

/// Ripple delete: remove the clip and close the gap it leaves.
pub fn ripple_delete(project: &mut Project, id: &str) -> (r: Result<(), EditError>)
    requires
        old(project)@.fits(16),
    ensures
        final(project)@ == rippled(old(project)@, id@),
        match r {
            Ok(()) => found(old(project)@, id@) is Some,
            Err(e) => e is NoClip && found(old(project)@, id@) is None,
        },
{
    let ghost before = project@;
    proof {
        lemma_scene_position(before.scenes, id@);
        lemma_track_position(before.overlays, id@);
    }
    if let Some(t) = track_with(project, id) {
        if let Some(pos) = position_in(&project.overlays[t].clips, id) {
            proof {
                lemma_fit_removed(before.overlays[t as int].clips, pos as int);
                assert(before.overlays[t as int].clips[pos as int].fits(16));
            }
            let removed: Clip = project.overlays[t].clips.remove(pos);
            pull(&mut project.overlays[t].clips, removed.start, larger(removed.duration, 0));
            assert(project@.overlays =~= rippled(before, id@).overlays);
            return Ok(());
        }
    }
    if let Some(s) = scene_with(project, id) {
        if let Some(pos) = position_in(&project.scenes[s].layers, id) {
            proof {
                assert(before.scenes[s as int].fits(16));
                lemma_fit_removed(before.scenes[s as int].layers, pos as int);
                assert(before.scenes[s as int].layers[pos as int].fits(16));
            }
            let removed: Clip = project.scenes[s].layers.remove(pos);
            let duration: i128 = project.scenes[s].duration;
            let span: i128 = if removed.duration > 0 {
                removed.duration
            } else {
                larger(duration - removed.start, 0)
            };
            let end: i128 = content_end_in(&project.scenes[s].layers);
            project.scenes[s].duration = larger(duration - span, end);
            assert(project@.scenes =~= rippled(before, id@).scenes);
            return Ok(());
        }
    }
    Err(EditError::NoClip)
}

proof fn lemma_fit_removed(clips: Seq<ClipView>, i: int)
    requires
        crate::document::clips_fit(clips, 16),
        0 <= i < clips.len(),
    ensures
        crate::document::clips_fit(clips.remove(i), 16),
{
    let rest = clips.remove(i);
    assert forall|j: int| 0 <= j < rest.len() implies (#[trigger] rest[j]).fits(16) by {
        if j < i {
            assert(rest[j] == clips[j]);
        } else {
            assert(rest[j] == clips[j + 1]);
        }
    }
}

/// Id and name of the track that holds detached audio.
pub open spec fn detached_track(clips: Seq<ClipView>) -> OverlayTrackView {
    OverlayTrackView {
        id: "detached-audio"@,
        muted: false,
        hidden: false,
        locked: false,
        name: "Detached audio"@,
        clips,
    }
}

/// Index of the first overlay track with the given id.
pub open spec fn track_index(tracks: Seq<OverlayTrackView>, id: Seq<char>) -> int
    decreases tracks.len(),
{
    if tracks.len() == 0 || tracks[0].id == id {
        0
    } else {
        1 + track_index(tracks.skip(1), id)
    }
}

pub proof fn lemma_track_index(tracks: Seq<OverlayTrackView>, id: Seq<char>)
    ensures
        0 <= track_index(tracks, id) <= tracks.len(),
        track_index(tracks, id) < tracks.len() ==> tracks[track_index(tracks, id)].id == id,
        forall|j: int| 0 <= j < track_index(tracks, id) ==> (#[trigger] tracks[j]).id != id,
    decreases tracks.len(),
{
    if tracks.len() > 0 && tracks[0].id != id {
        let rest = tracks.skip(1);
        lemma_track_index(rest, id);
        assert forall|j: int| 0 <= j < track_index(tracks, id) implies (#[trigger] tracks[j]).id
            != id by {
            if j > 0 {
                assert(tracks[j] == rest[j - 1]);
            }
        }
    }
}

pub fn track_at(project: &Project, id: &str) -> (r: Option<usize>)
    ensures
        match r {
            Some(i) => i == track_index(project@.overlays, id@) && i < project.overlays.len(),
            None => track_index(project@.overlays, id@) == project.overlays.len(),
        },
{
    let ghost tracks = project@.overlays;
    let mut i: usize = 0;
    proof {
        lemma_track_index(tracks, id@);
    }
    while i < project.overlays.len()
        invariant
            tracks == project@.overlays,
            i <= project.overlays.len(),
            forall|j: int| 0 <= j < i ==> (#[trigger] tracks[j]).id != id@,
        decreases project.overlays.len() - i,
    {
        assert(tracks[i as int] == project.overlays@[i as int]@);
        if same(project.overlays[i].id.as_str(), id) {
            proof {
                lemma_track_index(tracks, id@);
            }
            return Some(i);
        }
        i += 1;
    }
    None
}

/// The document with a clip at the end of the track of detached audio, which
/// is added if it is missing.
pub open spec fn with_detached(p: ProjectView, c: ClipView) -> ProjectView {
    let t = track_index(p.overlays, "detached-audio"@);
    if t < p.overlays.len() {
        with_track(p, t, p.overlays[t].clips.push(c))
    } else {
        ProjectView { overlays: p.overlays.push(detached_track(seq![c])), ..p }
    }
}

/// The independent audio clip made of a video clip that starts at `start`.
pub open spec fn audio_of(c: ClipView, start: int) -> ClipView {
    ClipView {
        id: c.id + "-audio"@,
        start,
        duration: c.duration,
        element: ElementView::Audio {
            src: c.element->Video_src,
            offset: c.element->Video_offset,
            volume: c.element->Video_volume,
            rate: UNIT as int,
        },
        transform: Transform::plain(),
        animations: Seq::empty(),
        effects: Seq::empty(),
    }
}

/// A video clip with its own sound silenced.
pub open spec fn silenced(c: ClipView) -> ClipView {
    ClipView {
        element: ElementView::Video {
            src: c.element->Video_src,
            offset: c.element->Video_offset,
            volume: 0,
            rate: c.element->Video_rate,
        },
        ..c
    }
}

/// Where a clip starts on the timeline.
pub open spec fn absolute_start(p: ProjectView, id: Seq<char>) -> int {
    match spot_of(p, id) {
        Spot::Layer { scene, index } => offset_of(p.scenes, scene) + found(p, id)->0.start,
        _ => found(p, id)->0.start,
    }
}

/// The document after the audio of a video clip was detached.
pub open spec fn detached(p: ProjectView, id: Seq<char>) -> ProjectView {
    let c = found(p, id)->0;
    with_detached(
        with_clip(p, spot_of(p, id), silenced(c)),
        audio_of(c, absolute_start(p, id)),
    )
}

/// Silence a video clip's embedded audio and give it an independent audio
/// clip on the "detached-audio" overlay track. Returns the new clip's id.
pub fn detach_audio(project: &mut Project, id: &str) -> (r: Option<String>)
    requires
        old(project)@.fits(16),
    ensures
        match r {
            Some(new_id) => {
                &&& found(old(project)@, id@) is Some
                &&& found(old(project)@, id@)->0.element is Video
                &&& new_id@ == id@ + "-audio"@
                &&& final(project)@ == detached(old(project)@, id@)
            },
            None => {
                &&& final(project)@ == old(project)@
                &&& found(old(project)@, id@) is None || !(found(old(project)@, id@)->0.element
                    is Video)
            },
        },
{
    let ghost before = project@;
    proof {
        lemma_scene_position(before.scenes, id@);
        lemma_track_position(before.overlays, id@);
    }
    let scene: Option<usize> = scene_with(project, id);
    let track: Option<usize> = track_with(project, id);
    let index: usize = match scene {
        Some(s) => match position_in(&project.scenes[s].layers, id) {
            Some(i) => i,
            None => 0,
        },
        None => match track {
            Some(t) => match position_in(&project.overlays[t].clips, id) {
                Some(i) => i,
                None => 0,
            },
            None => return None,
        },
    };
    proof {
        match spot_of(before, id@) {
            Spot::Layer { scene: s, index: i } => {
                assert(before.scenes[s].fits(16));
                assert(before.scenes[s].layers[i].fits(16));
                lemma_position(before.scenes[s].layers, id@);
            },
            Spot::Overlay { track: t, index: i } => {
                assert(before.overlays[t].clips[i].fits(16));
                lemma_position(before.overlays[t].clips, id@);
            },
            Spot::Absent => {},
        }
    }
    let base: i128 = match scene {
        Some(s) => project.scene_offset(s),
        None => 0,
    };
    let clip: &Clip = match scene {
        Some(s) => &project.scenes[s].layers[index],
        None => &project.overlays[track.unwrap()].clips[index],
    };
    assert(found(before, id@) == Some(clip@));
    let (quiet, audio): (Element, Element) = match &clip.element {
        Element::Video { src, offset, volume, rate } => (
            Element::Video { src: src.clone(), offset: *offset, volume: 0, rate: *rate },
            Element::Audio { src: src.clone(), offset: *offset, volume: *volume, rate: UNIT },
        ),
        _ => return None,
    };
    let new_id: String = joined(id, "-audio");
    let sound: Clip = Clip {
        id: new_id.clone(),
        start: base + clip.start,
        duration: clip.duration,
        element: audio,
        transform: Transform { x: 0, y: 0, width: 0, height: 0, opacity: UNIT },
        animations: Vec::new(),
        effects: Vec::new(),
    };
    assert(sound@ == audio_of(found(before, id@)->0, absolute_start(before, id@)));
    match scene {
        Some(s) => {
            project.scenes[s].layers[index].element = quiet;
        },
        None => {
            project.overlays[track.unwrap()].clips[index].element = quiet;
        },
    }
    let ghost middle = with_clip(before, spot_of(before, id@), silenced(found(before, id@)->0));
    proof {
        assert(project@.scenes =~= middle.scenes);
        assert(project@.overlays =~= middle.overlays);
    }
    match track_at(project, "detached-audio") {
        Some(t) => {
            project.overlays[t].clips.push(sound);
        },
        None => {
            let mut clips: Vec<Clip> = Vec::new();
            clips.push(sound);
            assert(views(clips@) =~= seq![sound@]);
            project.overlays.push(
                OverlayTrack {
                    id: "detached-audio".to_owned(),
                    muted: false,
                    hidden: false,
                    locked: false,
                    name: "Detached audio".to_owned(),
                    clips,
                },
            );
        },
    }
    proof {
        let after = detached(before, id@);
        assert(project@.overlays =~= after.overlays);
        assert(project@.scenes =~= after.scenes);
    }
    Some(new_id)
}

pub open spec fn finder(p: ProjectView) -> spec_fn(Seq<char>) -> Option<ClipView> {
    |id: Seq<char>| found(p, id)
}

/// The clips with the given ids, in the order of the ids; ids that no clip
/// has are passed over.
pub open spec fn selected(p: ProjectView, ids: Seq<Seq<char>>) -> Seq<ClipView> {
    collected(ids, finder(p))
}

/// The earliest start of some clips.
pub open spec fn earliest(clips: Seq<ClipView>) -> int
    decreases clips.len(),
{
    if clips.len() <= 1 {
        clips[0].start
    } else {
        min(earliest(clips.drop_last()), clips.last().start)
    }
}

/// The clips moved so that the earliest starts at 0.
pub open spec fn from_zero(clips: Seq<ClipView>) -> Seq<ClipView> {
    Seq::new(
        clips.len(),
        |i: int| ClipView { start: clips[i].start - earliest(clips), ..clips[i] },
    )
}

/// The document with the given clips saved as a def.
pub open spec fn with_def(p: ProjectView, ids: Seq<Seq<char>>, name: Seq<char>) -> ProjectView {
    ProjectView {
        defs: stored(
            p.defs,
            name,
            CompDefView { params: Seq::empty(), layers: from_zero(selected(p, ids)) },
        ),
        ..p
    }
}

/// Why clips cannot be saved as a def.
pub open spec fn save_refusal(
    p: ProjectView,
    ids: Seq<Seq<char>>,
    name: Seq<char>,
) -> Option<EditErrorView> {
    let clips = selected(p, ids);
    if name.len() == 0 {
        Some(EditErrorView::EmptyName)
    } else if lookup(p.defs, name) is Some {
        Some(EditErrorView::DefExists)
    } else if clips.len() == 0 {
        Some(EditErrorView::NothingSelected)
    } else if exists|i: int| 0 <= i < clips.len() && (#[trigger] clips[i]).element is CompRef {
        Some(EditErrorView::NestedDef)
    } else {
        None
    }
}

pub proof fn lemma_found_fits(p: ProjectView, id: Seq<char>, n: int)
    requires
        p.fits(n),
        found(p, id) is Some,
    ensures
        found(p, id)->0.fits(n),
        found(p, id)->0.id == id,
{
    lemma_scene_position(p.scenes, id);
    lemma_track_position(p.overlays, id);
    match spot_of(p, id) {
        Spot::Layer { scene, index } => {
            lemma_position(p.scenes[scene].layers, id);
            assert(p.scenes[scene].fits(n));
            assert(p.scenes[scene].layers[index].fits(n));
        },
        Spot::Overlay { track, index } => {
            lemma_position(p.overlays[track].clips, id);
            assert(p.overlays[track].clips[index].fits(n));
        },
        Spot::Absent => {},
    }
}

/// Save the given clips as a reusable def named `name` (clips stay in place;
/// the def gets copies with starts normalized so the earliest is 0). The
/// document is validated afterwards; a fault found then, which was in the
/// document before, is reported with the def in place.
pub fn save_as_def(project: &mut Project, ids: &Vec<String>, name: &str) -> (r: Result<
    (),
    EditError,
>)
    requires
        old(project)@.fits(16),
        old(project).defs.ordered(),
    ensures
        final(project).defs.ordered(),
        match save_refusal(old(project)@, views(ids@), name@) {
            Some(e) => r is Err && r->Err_0@ == e && final(project)@ == old(project)@,
            None => {
                let after = with_def(old(project)@, views(ids@), name@);
                &&& final(project)@ == after
                &&& r is Ok <==> valid(after)
                &&& valid(old(project)@) ==> r is Ok
                &&& match r {
                    Ok(()) => true,
                    Err(e) => project_fault(after) is Some && e@ == EditErrorView::Invalid(
                        project_fault(after)->0,
                    ),
                }
            },
        },
{
    if name.is_empty() {
        return Err(EditError::EmptyName);
    }
    if project.defs.contains_key(name) {
        return Err(EditError::DefExists);
    }
    let ghost before = project@;
    let ghost wanted = views(ids@);
    let ghost f = finder(before);
    let mut clips: Vec<Clip> = Vec::new();
    let mut nested: bool = false;
    let mut earliest_start: i128 = 0;
    let mut i: usize = 0;
    while i < ids.len()
        invariant
            i <= ids.len(),
            before == project@,
            before.fits(16),
            wanted == views(ids@),
            f == finder(before),
            views(clips@) == collected(wanted.take(i as int), f),
            nested <==> exists|j: int|
                0 <= j < clips@.len() && (#[trigger] views(clips@)[j]).element is CompRef,
            clips@.len() > 0 ==> earliest_start == earliest(views(clips@)),
            crate::document::clips_fit(views(clips@), 16),
            crate::fixed::within(earliest_start as int, 16),
        decreases ids.len() - i,
    {
        proof {
            lemma_collected_step(wanted, f, i as int);
            assert(wanted[i as int] == ids@[i as int]@);
        }
        if let Some(c) = find_clip(project, ids[i].as_str()) {
            proof {
                lemma_found_fits(before, wanted[i as int], 16);
            }
            let copy: Clip = c.clone();
            let ghost old_views = views(clips@);
            let is_ref: bool = match &copy.element {
                Element::CompRef { def, args } => true,
                _ => false,
            };
            earliest_start =
            if clips.len() == 0 {
                copy.start
            } else {
                smaller(earliest_start, copy.start)
            };
            clips.push(copy);
            proof {
                let now = views(clips@);
                assert(now == old_views.push(copy@));
                assert(now.last() == copy@);
                assert(now.drop_last() =~= old_views);
                if is_ref {
                    assert(now[now.len() - 1].element is CompRef);
                }
                if nested {
                    let j = choose|j: int|
                        0 <= j < old_views.len() && (#[trigger] old_views[j]).element is CompRef;
                    assert(now[j] == old_views[j]);
                }
                if exists|j: int| 0 <= j < now.len() && (#[trigger] now[j]).element is CompRef {
                    let j = choose|j: int|
                        0 <= j < now.len() && (#[trigger] now[j]).element is CompRef;
                    if j < old_views.len() {
                        assert(old_views[j] == now[j]);
                    }
                }
                assert forall|j: int| 0 <= j < now.len() implies (#[trigger] now[j]).fits(16) by {
                    if j < old_views.len() {
                        assert(now[j] == old_views[j]);
                    }
                }
            }
            nested = nested || is_ref;
        }
        i += 1;
    }
    assert(wanted.take(i as int) =~= wanted);
    if clips.len() == 0 {
        return Err(EditError::NothingSelected);
    }
    if nested {
        return Err(EditError::NestedDef);
    }
    let ghost chosen = views(clips@);
    let mut k: usize = 0;
    while k < clips.len()
        invariant
            k <= clips.len(),
            clips@.len() == chosen.len(),
            chosen.len() > 0,
            earliest_start == earliest(chosen),
            crate::document::clips_fit(chosen, 16),
            crate::fixed::within(earliest_start as int, 16),
            forall|j: int| 0 <= j < k ==> #[trigger] views(clips@)[j] == from_zero(chosen)[j],
            forall|j: int| k <= j < chosen.len() ==> #[trigger] views(clips@)[j] == chosen[j],
        decreases clips.len() - k,
    {
        proof {
            assert(views(clips@)[k as int] == chosen[k as int]);
            assert(chosen[k as int].fits(16));
        }
        let start: i128 = clips[k].start;
        clips[k].start = start - earliest_start;
        k += 1;
    }
    assert(views(clips@) =~= from_zero(chosen));
    let params: Vec<String> = Vec::new();
    project.defs.insert(name.to_owned(), CompDef { params, layers: clips });
    assert(project@ == with_def(before, wanted, name@));
    proof {
        if valid(before) {
            crate::laws::law_saved_def_valid(before, wanted, name@);
        }
    }
    match project.validate() {
        Ok(()) => Ok(()),
        Err(e) => Err(EditError::Invalid(e)),
    }
}

/// The document without the first clip that has the given id.
pub open spec fn lifted(p: ProjectView, id: Seq<char>) -> ProjectView {
    match spot_of(p, id) {
        Spot::Layer { scene, index } => with_layers(p, scene, p.scenes[scene].layers.remove(index)),
        Spot::Overlay { track, index } => with_track(
            p,
            track,
            p.overlays[track].clips.remove(index),
        ),
        Spot::Absent => p,
    }
}

/// The last scene, below scene `n`, that has begun at time `t`; the first
/// scene if none has.
pub open spec fn scene_at(scenes: Seq<SceneView>, t: int, n: int) -> int
    decreases n,
{
    if n <= 0 {
        0
    } else if t >= offset_of(scenes, n - 1) {
        n - 1
    } else {
        scene_at(scenes, t, n - 1)
    }
}

/// The invisible clip that fills an empty slot of a scene.
pub open spec fn slot_pad(id: Seq<char>, n: nat) -> ClipView {
    ClipView {
        id: id + "-slotpad-"@ + decimal(n),
        start: 0,
        duration: TENTH as int,
        element: ElementView::Test,
        transform: Transform { x: 0, y: 0, width: 0, height: 0, opacity: 0 },
        animations: Seq::empty(),
        effects: Seq::empty(),
    }
}

/// The layers with pads up to the given number of slots.
pub open spec fn padded_layers(
    layers: Seq<ClipView>,
    id: Seq<char>,
    slots: nat,
) -> Seq<ClipView>
    decreases slots,
{
    if layers.len() >= slots {
        layers
    } else {
        let fewer = padded_layers(layers, id, (slots - 1) as nat);
        fewer.push(slot_pad(id, fewer.len()))
    }
}

/// The document after a clip was dropped on a scene layer slot at time `t`.
pub open spec fn dropped_on_layer(p: ProjectView, c: ClipView, lane: nat, t: int) -> ProjectView {
    let s = scene_at(p.scenes, t, p.scenes.len() as int);
    let scene = p.scenes[s];
    let start = clamped(t - offset_of(p.scenes, s), 0, max(scene.duration - TENTH, 0));
    let layers = padded_layers(scene.layers, c.id, lane);
    with_layers(p, s, layers.insert(lane as int, ClipView { start, ..c }))
}

/// The document after a clip was moved to a lane at time `t`.
pub open spec fn moved(p: ProjectView, id: Seq<char>, lane: nat, t: int) -> ProjectView {
    let c = found(p, id)->0;
    let q = lifted(p, id);
    let slots = max_layers(p.scenes);
    if lane < slots {
        dropped_on_layer(q, c, lane, t)
    } else {
        let track = lane - slots;
        with_track(
            q,
            track,
            q.overlays[track].clips.push(ClipView { start: max(t, 0), ..c }),
        )
    }
}

pub proof fn lemma_padded_len(layers: Seq<ClipView>, id: Seq<char>, slots: nat)
    ensures
        padded_layers(layers, id, slots).len() == max(layers.len() as int, slots as int),
    decreases slots,
{
    if layers.len() < slots {
        lemma_padded_len(layers, id, (slots - 1) as nat);
    }
}

pub proof fn lemma_offsets_ignore_layers(a: Seq<SceneView>, b: Seq<SceneView>, i: int)
    requires
        a.len() == b.len(),
        i < a.len(),
        forall|k: int|
            0 <= k < a.len() ==> (#[trigger] a[k]).duration == b[k].duration && a[k].transition
                == b[k].transition,
    ensures
        offset_of(a, i) == offset_of(b, i),
    decreases i,
{
    lemma_raw_offsets_ignore_layers(a, b, i);
}

proof fn lemma_raw_offsets_ignore_layers(a: Seq<SceneView>, b: Seq<SceneView>, i: int)
    requires
        a.len() == b.len(),
        i < a.len(),
        forall|k: int|
            0 <= k < a.len() ==> (#[trigger] a[k]).duration == b[k].duration && a[k].transition
                == b[k].transition,
    ensures
        crate::timeline::raw_offset(a, i) == crate::timeline::raw_offset(b, i),
    decreases i,
{
    if i > 0 {
        lemma_raw_offsets_ignore_layers(a, b, i - 1);
        assert(a[i - 1].duration == b[i - 1].duration);
        assert(a[i].transition == b[i].transition);
    }
}

fn lift(project: &mut Project, id: &str) -> (r: Option<Clip>)
    ensures
        match r {
            Some(c) => found(old(project)@, id@) == Some(c@),
            None => found(old(project)@, id@) is None,
        },
        final(project)@ == lifted(old(project)@, id@),
        final(project).scenes.len() == old(project).scenes.len(),
        final(project).overlays.len() == old(project).overlays.len(),
{
    let ghost before = project@;
    proof {
        lemma_scene_position(before.scenes, id@);
        lemma_track_position(before.overlays, id@);
    }
    if let Some(s) = scene_with(project, id) {
        if let Some(pos) = position_in(&project.scenes[s].layers, id) {
            let c: Clip = project.scenes[s].layers.remove(pos);
            assert(project@.scenes =~= lifted(before, id@).scenes);
            return Some(c);
        }
        return None;
    }
    if let Some(t) = track_with(project, id) {
        if let Some(pos) = position_in(&project.overlays[t].clips, id) {
            let c: Clip = project.overlays[t].clips.remove(pos);
            assert(project@.overlays =~= lifted(before, id@).overlays);
            return Some(c);
        }
        return None;
    }
    None
}

/// The last scene that has begun at time `t`; the first one if none has.
pub fn scene_index_at(project: &Project, t: i128) -> (r: usize)
    requires
        project@.fits(16),
    ensures
        r == scene_at(project@.scenes, t as int, project@.scenes.len() as int),
        project.scenes.len() > 0 ==> r < project.scenes.len(),
{
    let mut n: usize = project.scenes.len();
    while n > 0
        invariant
            n <= project.scenes.len(),
            project@.fits(16),
            scene_at(project@.scenes, t as int, n as int) == scene_at(
                project@.scenes,
                t as int,
                project@.scenes.len() as int,
            ),
        decreases n,
    {
        if t >= project.scene_offset(n - 1) {
            return n - 1;
        }
        n -= 1;
    }
    0
}

fn pad_slots(layers: &mut Vec<Clip>, id: &str, slots: usize)
    ensures
        views(final(layers)@) == padded_layers(views(old(layers)@), id@, slots as nat),
{
    let ghost before = views(layers@);
    while layers.len() < slots
        invariant
            before.len() <= layers@.len(),
            views(layers@) == padded_layers(before, id@, layers@.len()),
            layers@.len() <= slots || layers@.len() == before.len(),
        decreases slots - layers.len(),
    {
        let n: usize = layers.len();
        let mut pad_id: String = joined(id, "-slotpad-");
        pad_id.append(decimal_text(n as u128).as_str());
        let pad: Clip = Clip {
            id: pad_id,
            start: 0,
            duration: TENTH,
            element: Element::Test,
            transform: Transform { x: 0, y: 0, width: 0, height: 0, opacity: 0 },
            animations: Vec::new(),
            effects: Vec::new(),
        };
        assert(pad@ == slot_pad(id@, n as nat));
        layers.push(pad);
        assert(layers@.len() - 1 == n);
    }
}

proof fn lemma_lifted_fits(p: ProjectView, id: Seq<char>)
    requires
        p.fits(16),
    ensures
        lifted(p, id).fits(16),
{
    lemma_scene_position(p.scenes, id);
    lemma_track_position(p.overlays, id);
    let q = lifted(p, id);
    match spot_of(p, id) {
        Spot::Layer { scene, index } => {
            lemma_position(p.scenes[scene].layers, id);
            assert(p.scenes[scene].fits(16));
            lemma_fit_removed(p.scenes[scene].layers, index);
            assert forall|i: int| 0 <= i < q.scenes.len() implies (#[trigger] q.scenes[i]).fits(
                16,
            ) by {
                assert(p.scenes[i].fits(16));
            }
        },
        Spot::Overlay { track, index } => {
            lemma_position(p.overlays[track].clips, id);
            lemma_fit_removed(p.overlays[track].clips, index);
            assert forall|i: int| 0 <= i < q.overlays.len() implies crate::document::clips_fit(
                (#[trigger] q.overlays[i]).clips,
                16,
            ) by {
                assert(crate::document::clips_fit(p.overlays[i].clips, 16));
            }
        },
        Spot::Absent => {},
    }
}

/// Move a clip to another lane, keeping its on-screen absolute time. Scene
/// layer targets re-anchor scene-relative (the scene containing `abs_start`);
/// overlay targets store absolute time. The document is validated afterwards;
/// a fault found then is reported with the clip in its new place.
pub fn move_clip_to_lane(project: &mut Project, id: &str, lane: usize, abs_start: i128) -> (r:
    Result<(), EditError>)
    requires
        old(project)@.fits(16),
        -HORIZON <= abs_start <= HORIZON,
        max_layers(old(project)@.scenes) + old(project)@.overlays.len() <= usize::MAX,
    ensures
        if lane >= max_layers(old(project)@.scenes) + old(project)@.overlays.len() {
            r is Err && r->Err_0 is LaneOutOfRange && final(project)@ == old(project)@
        } else if found(old(project)@, id@) is None {
            r is Err && r->Err_0 is NoClip && final(project)@ == old(project)@
        } else {
            let after = moved(old(project)@, id@, lane as nat, abs_start as int);
            &&& final(project)@ == after
            &&& r is Ok <==> valid(after)
            &&& match r {
                Ok(()) => true,
                Err(e) => project_fault(after) is Some && e@ == EditErrorView::Invalid(
                    project_fault(after)->0,
                ),
            }
        },
{
    let ghost before = project@;
    let slots: usize = layer_slots(project);
    if lane >= lane_count(project) {
        return Err(EditError::LaneOutOfRange);
    }
    let mut clip: Clip = match lift(project, id) {
        Some(c) => c,
        None => return Err(EditError::NoClip),
    };
    let ghost c = found(before, id@)->0;
    let ghost q = lifted(before, id@);
    proof {
        lemma_lifted_fits(before, id@);
        lemma_found_fits(before, id@, 16);
    }
    if lane < slots {
        proof {
            if before.scenes.len() == 0 {
                assert(max_layers(before.scenes) == 0);
            }
        }
        let index: usize = scene_index_at(project, abs_start);
        let offset: i128 = project.scene_offset(index);
        assert(q.scenes[index as int].fits(16));
        let room: i128 = larger(project.scenes[index].duration - TENTH, 0);
        let local: i128 = abs_start - offset;
        clip.start =
        if local < 0 {
            0
        } else if local > room {
            room
        } else {
            local
        };
        proof {
            lemma_padded_len(q.scenes[index as int].layers, id@, lane as nat);
        }
        pad_slots(&mut project.scenes[index].layers, id, lane);
        project.scenes[index].layers.insert(lane, clip);
        proof {
            let after = moved(before, id@, lane as nat, abs_start as int);
            assert(project@.scenes =~= after.scenes);
        }
    } else {
        let track: usize = lane - slots;
        clip.start = larger(abs_start, 0);
        project.overlays[track].clips.push(clip);
        proof {
            let after = moved(before, id@, lane as nat, abs_start as int);
            assert(project@.overlays =~= after.overlays);
        }
    }
    match project.validate() {
        Ok(()) => Ok(()),
        Err(e) => Err(EditError::Invalid(e)),
    }
}

/// The scene at a time is the last one that has begun by then, and the first
/// scene before any has.
pub proof fn law_scene_at(scenes: Seq<SceneView>, t: int, n: int)
    requires
        0 < n <= scenes.len(),
    ensures
        0 <= scene_at(scenes, t, n) < n,
        t >= 0 ==> offset_of(scenes, scene_at(scenes, t, n)) <= t,
        forall|k: int| scene_at(scenes, t, n) < k < n ==> t < #[trigger] offset_of(scenes, k),
    decreases n,
{
    if n > 1 && t < offset_of(scenes, n - 1) {
        law_scene_at(scenes, t, n - 1);
    }
    assert(scene_at(scenes, t, 0) == 0);
}

/// A scene layer starts its own start after its scene does, an overlay clip
/// at its own start.
pub proof fn law_absolute_start(p: ProjectView, id: Seq<char>)
    requires
        found(p, id) is Some,
    ensures
        match spot_of(p, id) {
            Spot::Layer { scene, index } => absolute_start(p, id) - offset_of(p.scenes, scene)
                == p.scenes[scene].layers[index].start,
            Spot::Overlay { track, index } => absolute_start(p, id)
                == p.overlays[track].clips[index].start,
            Spot::Absent => false,
        },
{
}

/// The sound taken off a video clip plays what the clip played: the same
/// stretch of the same media at the same volume and normal speed, for as long.
/// The clip itself goes on as before, but silent.
pub proof fn law_sound_and_picture(c: ClipView, start: int)
    requires
        c.element is Video,
    ensures
        ({
            let a = audio_of(c, start);
            let v = silenced(c);
            &&& a.id == c.id + "-audio"@
            &&& a.start == start && a.duration == c.duration
            &&& a.element matches ElementView::Audio { src, offset, volume, rate } && src
                == c.element->Video_src && offset == c.element->Video_offset && volume
                == c.element->Video_volume && rate == 1_000_000_000
            &&& a.animations.len() == 0 && a.effects.len() == 0
            &&& crate::adjust::silenced(c.element, v.element)
            &&& v.id == c.id && v.start == c.start && v.duration == c.duration
            &&& v.transform == c.transform && v.animations == c.animations && v.effects
                == c.effects
        }),
{
}

/// Where the content of a layer ends: after its duration, or after a tenth of
/// a second if it has none.
pub open spec fn ends_at(c: ClipView) -> int {
    if c.duration > 0 {
        c.start + c.duration
    } else {
        c.start + 100_000_000
    }
}

pub proof fn lemma_content_end_all(clips: Seq<ClipView>)
    ensures
        content_end_all(clips) >= 100_000_000,
        forall|i: int|
            0 <= i < clips.len() ==> ends_at(#[trigger] clips[i]) <= content_end_all(clips),
        content_end_all(clips) == 100_000_000 || exists|i: int|
            0 <= i < clips.len() && ends_at(#[trigger] clips[i]) == content_end_all(clips),
    decreases clips.len(),
{
    if clips.len() > 0 {
        let rest = clips.drop_last();
        lemma_content_end_all(rest);
        assert(clips[clips.len() - 1] == clips.last());
        assert forall|i: int| 0 <= i < clips.len() implies ends_at(#[trigger] clips[i])
            <= content_end_all(clips) by {
            if i < rest.len() {
                assert(clips[i] == rest[i]);
            }
        }
        if content_end_all(clips) == content_end_all(rest) && content_end_all(rest)
            != 100_000_000 {
            let i = choose|i: int|
                0 <= i < rest.len() && ends_at(#[trigger] rest[i]) == content_end_all(rest);
            assert(clips[i] == rest[i]);
        }
    }
}

/// A ripple delete of a scene layer shortens its scene by the layer's length,
/// or by what was left of the scene if the layer had none, but not so far as
/// to cut off another layer, nor below a tenth of a second.
pub proof fn law_scene_shrinks(p: ProjectView, id: Seq<char>)
    requires
        spot_of(p, id) is Layer,
        track_position(p.overlays, id) == p.overlays.len(),
    ensures
        ({
            let s = spot_of(p, id)->Layer_scene;
            let i = spot_of(p, id)->Layer_index;
            let gone = p.scenes[s].layers[i];
            let rest = p.scenes[s].layers.remove(i);
            let was = p.scenes[s].duration;
            let now = rippled(p, id).scenes[s].duration;
            let wanted = if gone.duration > 0 {
                was - gone.duration
            } else if gone.start < was {
                gone.start
            } else {
                was
            };
            &&& rippled(p, id).scenes[s].layers == rest
            &&& now >= wanted && now >= 100_000_000
            &&& forall|k: int| 0 <= k < rest.len() ==> ends_at(#[trigger] rest[k]) <= now
            &&& now == wanted || now == 100_000_000 || exists|k: int|
                0 <= k < rest.len() && ends_at(#[trigger] rest[k]) == now
            &&& forall|k: int|
                0 <= k < p.scenes.len() && k != s ==> #[trigger] rippled(p, id).scenes[k]
                    == p.scenes[k]
            &&& rippled(p, id).scenes.len() == p.scenes.len()
            &&& rippled(p, id).overlays == p.overlays
        }),
{
    lemma_scene_position(p.scenes, id);
    let s = spot_of(p, id)->Layer_scene;
    lemma_position(p.scenes[s].layers, id);
    let rest = p.scenes[s].layers.remove(spot_of(p, id)->Layer_index);
    lemma_content_end_all(rest);
}

/// A clip dropped on a scene layer stands on that very layer of the scene at
/// the time, from that time on as far as the scene leaves it a tenth of a
/// second. Layers above it stay; those from it on move one down, and layers
/// that the scene lacked are filled with something that shows nothing.
pub proof fn law_dropped_on_layer(p: ProjectView, c: ClipView, lane: nat, t: int)
    requires
        p.scenes.len() > 0,
    ensures
        ({
            let s = scene_at(p.scenes, t, p.scenes.len() as int);
            let before = p.scenes[s].layers;
            let after = dropped_on_layer(p, c, lane, t).scenes[s].layers;
            let put = after[lane as int];
            let wanted = t - offset_of(p.scenes, s);
            let last = p.scenes[s].duration - 100_000_000;
            &&& 0 <= wanted <= last ==> put.start == wanted
            &&& wanted < 0 ==> put.start == 0
            &&& wanted > last && last >= 0 ==> put.start == last
            &&& last < 0 ==> put.start == 0
            &&& put == (ClipView { start: put.start, ..c })
            &&& after.len() == (if before.len() >= lane {
                before.len() + 1
            } else {
                lane + 1
            })
            &&& forall|k: int|
                0 <= k < lane && k < before.len() ==> #[trigger] after[k] == before[k]
            &&& forall|k: int| lane <= k < before.len() ==> after[k + 1] == #[trigger] before[k]
            &&& forall|k: int|
                before.len() <= k < lane ==> (#[trigger] after[k]).transform.opacity == 0
                    && after[k].element is Test
        }),
{
    let s = scene_at(p.scenes, t, p.scenes.len() as int);
    law_scene_at(p.scenes, t, p.scenes.len() as int);
    let before = p.scenes[s].layers;
    let full = padded_layers(before, c.id, lane);
    lemma_padded(before, c.id, lane);
    let after = dropped_on_layer(p, c, lane, t).scenes[s].layers;
    assert forall|k: int| lane <= k < before.len() implies after[k + 1] == #[trigger] before[k] by {
        assert(full[k] == before[k]);
    }
    assert forall|k: int| 0 <= k < lane && k < before.len() implies #[trigger] after[k]
        == before[k] by {
        assert(full[k] == before[k]);
    }
    assert forall|k: int| before.len() <= k < lane implies (#[trigger] after[k]).transform.opacity
        == 0 && after[k].element is Test by {
        assert(full[k].transform.opacity == 0);
    }
}

proof fn lemma_padded(layers: Seq<ClipView>, id: Seq<char>, slots: nat)
    ensures
        padded_layers(layers, id, slots).len() == max(layers.len() as int, slots as int),
        forall|k: int|
            0 <= k < layers.len() ==> #[trigger] padded_layers(layers, id, slots)[k] == layers[k],
        forall|k: int|
            layers.len() <= k < slots ==> (#[trigger] padded_layers(
                layers,
                id,
                slots,
            )[k]).transform.opacity == 0 && padded_layers(layers, id, slots)[k].element is Test,
    decreases slots,
{
    if layers.len() < slots {
        lemma_padded(layers, id, (slots - 1) as nat);
    }
}

/// A clip moved to an overlay lane goes last on that track, from the time
/// asked for, or from 0.
pub proof fn law_moved_to_track(p: ProjectView, id: Seq<char>, lane: nat, t: int)
    requires
        found(p, id) is Some,
        max_layers(p.scenes) <= lane < max_layers(p.scenes) + p.overlays.len(),
        spot_of(p, id) is Layer || spot_of(p, id) is Overlay,
    ensures
        ({
            let track = lane - max_layers(p.scenes);
            let put = moved(p, id, lane, t).overlays[track].clips.last();
            &&& put == (ClipView { start: put.start, ..found(p, id)->0 })
            &&& t >= 0 ==> put.start == t
            &&& t < 0 ==> put.start == 0
        }),
{
    lemma_scene_position(p.scenes, id);
    lemma_track_position(p.overlays, id);
    let q = lifted(p, id);
    assert(q.overlays.len() == p.overlays.len());
    let track = lane - max_layers(p.scenes);
    let put = ClipView { start: max(t, 0), ..found(p, id)->0 };
    assert(moved(p, id, lane, t).overlays[track].clips == q.overlays[track].clips.push(put));
}

/// Selected clips are those found under the ids that are asked for, in their
/// order; ids of no clip are passed over.
pub proof fn law_selected(p: ProjectView, ids: Seq<Seq<char>>)
    ensures
        ({
            let there = ids.filter(|id: Seq<char>| found(p, id) is Some);
            &&& selected(p, ids).len() == there.len()
            &&& forall|i: int|
                0 <= i < there.len() ==> #[trigger] selected(p, ids)[i] == found(p, there[i])->0
        }),
{
    let keep = |id: Seq<char>| found(p, id) is Some;
    crate::views::lemma_collected_filter(ids, finder(p), keep);
    let there = ids.filter(keep);
    assert forall|i: int| 0 <= i < there.len() implies #[trigger] selected(p, ids)[i] == found(
        p,
        there[i],
    )->0 by {
        assert(finder(p)(there[i]) == Some(selected(p, ids)[i]));
    }
}

} // verus!
