//! Splicing the silent stretches out of a clip.

use vstd::prelude::*;
use crate::document::{clips_fit, AnimView, Clip, ClipView, Element, ElementView};
use crate::document::{Project, ProjectView, SceneView};
use crate::edit::{content_end_all, content_end_in, pulled, ripple_delete, rippled};
use crate::error::{EditError, EditErrorView};
use crate::fixed::{eased, larger, lemma_eased_bounds, lemma_mix_bounds, max, min};
use crate::fixed::{progress, smaller, within, HORIZON, LIMIT, UNIT};
use crate::ids::{lemma_free_exists, lemma_free_id};
use crate::split::{anim_after, anim_before, anims_after, anims_before, base_time, cut_of};
use crate::split::{cuts_inside, keyframe_after, keyframe_before, left_part, lemma_clip_fits};
use crate::split::{lemma_clips_fit, right_part, split_clip, split_id, split_length, split_list};
use crate::split::{split_project, tween_at};
use crate::spots::{lemma_layers_id_count, lemma_split_keeps, lemma_split_spots, lemma_spot};
use crate::spots::{lemma_spot_layer, lemma_spot_overlay, lemma_track_id_count, next_spot};
use crate::timeline::{find_clip, found, holds, lemma_position};
use crate::timeline::{lemma_position_is, lemma_scene_position, lemma_track_position, offset_of};
use crate::timeline::{position, position_in, raw_offset, scene_position, scene_with, spot_of};
use crate::timeline::{track_position, track_with, with_layers, with_track, Spot};
use crate::validate::all_ids;
use crate::views::{collected, lemma_collected_member, lemma_collected_step, views};

verus! {

broadcast use crate::views::group_views;

/// Ranges as pairs of mathematical integers.
pub open spec fn pairs(v: Seq<(i128, i128)>) -> Seq<(int, int)> {
    Seq::new(v.len(), |i: int| (v[i].0 as int, v[i].1 as int))
}

/// A range put behind every range that starts no later.
pub open spec fn placed(s: Seq<(int, int)>, r: (int, int)) -> Seq<(int, int)>
    decreases s.len(),
{
    if s.len() == 0 || s.last().0 <= r.0 {
        s.push(r)
    } else {
        placed(s.drop_last(), r).push(s.last())
    }
}

/// The ranges in order of their starts; those that start together stay in
/// their order.
pub open spec fn by_start(s: Seq<(int, int)>) -> Seq<(int, int)>
    decreases s.len(),
{
    if s.len() == 0 {
        s
    } else {
        placed(by_start(s.drop_last()), s.last())
    }
}

/// The part of a media range that a clip plays, on the timeline. `base` is
/// where the clip starts there.
pub open spec fn on_timeline(c: ClipView, base: int, r: (int, int)) -> Option<(int, int)> {
    let offset = crate::ramp::media_offset(c.element)->0;
    let s = max(r.0, offset);
    let e = if c.duration > 0 {
        min(r.1, offset + c.duration)
    } else {
        r.1
    };
    if e > s {
        Some((base + (s - offset), base + (e - offset)))
    } else {
        None
    }
}

pub open spec fn timeline_mapper(c: ClipView, base: int) -> spec_fn((int, int)) -> Option<
    (int, int),
> {
    |r: (int, int)| on_timeline(c, base, r)
}

/// Clips of which the `n` from position `from` on start earlier by `span`.
pub open spec fn moved_up(clips: Seq<ClipView>, from: int, n: int, span: int) -> Seq<ClipView> {
    Seq::new(
        clips.len(),
        |j: int|
            if from <= j < from + n {
                ClipView { start: max(clips[j].start - span, 0), ..clips[j] }
            } else {
                clips[j]
            },
    )
}

/// The document after the piece `tail` of a scene layer was taken out and the
/// `pieces` that stand behind it moved up by `span`; the scene shrinks to its
/// content.
pub open spec fn gap_closed(p: ProjectView, tail: Seq<char>, pieces: int, span: int) -> ProjectView {
    let s = scene_position(p.scenes, tail);
    if s >= p.scenes.len() {
        p
    } else {
        let scene = p.scenes[s];
        let at = position(scene.layers, tail);
        let layers = moved_up(scene.layers.remove(at), at, pieces, span);
        ProjectView {
            scenes: p.scenes.update(
                s,
                SceneView { layers, duration: content_end_all(layers), ..scene },
            ),
            ..p
        }
    }
}

/// The document after one stretch of a clip was cut out, and whether it was.
/// A stretch whose ends do not fall inside the clip is left in, and nothing
/// changes. The clip has `later` pieces that were split off it before; they
/// stand behind it in their order, and move up with the rest of it.
pub open spec fn cut_out(p: ProjectView, id: Seq<char>, r: (int, int), later: int) -> (
    ProjectView,
    bool,
) {
    if found(p, id) is None || !cuts_inside(p, id, r.0) {
        (p, false)
    } else {
        let p1 = split_project(p, id, r.0);
        let tail = split_id(p, id);
        if !cuts_inside(p1, tail, r.1) {
            (p, false)
        } else {
            let p2 = split_project(p1, tail, r.1);
            if track_position(p2.overlays, tail) < p2.overlays.len() {
                (rippled(p2, tail), true)
            } else {
                (gap_closed(p2, tail, later + 1, r.1 - r.0), true)
            }
        }
    }
}

/// The document after the stretches from number `i` on were cut out, the last
/// one first, and how many were.
pub open spec fn cut_all(
    p: ProjectView,
    id: Seq<char>,
    ranges: Seq<(int, int)>,
    i: int,
) -> (ProjectView, int)
    decreases ranges.len() - i,
{
    if i >= ranges.len() {
        (p, 0)
    } else {
        let later = cut_all(p, id, ranges, i + 1);
        let here = cut_out(later.0, id, ranges[i], later.1);
        (
            here.0,
            later.1 + if here.1 {
                1int
            } else {
                0
            },
        )
    }
}

/// The stretches of the timeline that the silent ranges of a clip's media
/// take up, in order.
pub open spec fn stretches(p: ProjectView, id: Seq<char>, silent: Seq<(int, int)>) -> Seq<
    (int, int),
> {
    let c = found(p, id)->0;
    let base = base_time(p, spot_of(p, id)) + c.start;
    by_start(collected(silent, timeline_mapper(c, base)))
}

/// Why silence cannot be removed from a clip.
pub open spec fn silence_refusal(p: ProjectView, id: Seq<char>) -> Option<EditErrorView> {
    match found(p, id) {
        None => Some(EditErrorView::NoClip),
        Some(c) => match media_rate(c.element) {
            None => Some(EditErrorView::NoMedia),
            Some(rate) => if -1000 <= rate - UNIT <= 1000 {
                None
            } else {
                Some(EditErrorView::RateNotNormal)
            },
        },
    }
}

/// The playback rate of an element, if it plays media.
pub open spec fn media_rate(e: ElementView) -> Option<int> {
    match e {
        ElementView::Video { src, offset, volume, rate } => Some(rate),
        ElementView::Audio { src, offset, volume, rate } => Some(rate),
        _ => None,
    }
}

proof fn lemma_tween_bounds(a: AnimView, t: int, n: int)
    requires
        a.fits(n),
        1 <= n <= 8,
    ensures
        within(tween_at(a, t), n),
{
    if a.end > a.start {
        let e = eased(a.easing, progress(t, a.start, a.end));
        lemma_eased_bounds(a.easing, progress(t, a.start, a.end));
        lemma_mix_bounds(a.to - a.from, e);
    }
}

proof fn lemma_before_fits(a: AnimView, cut: int, n: int)
    requires
        a.fits(n),
        1 <= n <= 8,
        within(cut, n),
        anim_before(a, cut) is Some,
    ensures
        anim_before(a, cut)->0.fits(n),
{
    lemma_tween_bounds(a, cut, n);
    if a.keyframes.len() > 0 {
        let kept = collected(a.keyframes, keyframe_before(cut));
        assert forall|i: int| 0 <= i < kept.len() implies within((#[trigger] kept[i]).t, n)
            && within(kept[i].value, n) by {
            lemma_collected_member(a.keyframes, keyframe_before(cut), i);
        }
    }
}

proof fn lemma_after_fits(a: AnimView, cut: int, n: int)
    requires
        a.fits(n),
        n == 2 || n == 4,
        0 < cut <= 2 * LIMIT,
        anim_after(a, cut) is Some,
    ensures
        anim_after(a, cut)->0.fits(n + 2),
{
    lemma_tween_bounds(a, cut, n);
    if a.keyframes.len() > 0 {
        let kept = collected(a.keyframes, keyframe_after(cut));
        assert forall|i: int| 0 <= i < kept.len() implies within((#[trigger] kept[i]).t, n + 2)
            && within(kept[i].value, n + 2) by {
            lemma_collected_member(a.keyframes, keyframe_after(cut), i);
            let j = choose|j: int|
                0 <= j < a.keyframes.len() && keyframe_after(cut)(#[trigger] a.keyframes[j])
                    == Some(kept[i]);
            assert(within(a.keyframes[j].t, n));
        }
    }
}

proof fn lemma_left_fits(c: ClipView, cut: int, n: int)
    requires
        c.fits(n),
        1 <= n <= 8,
        within(cut, n),
    ensures
        left_part(c, cut).fits(n),
{
    let l = left_part(c, cut);
    assert forall|i: int| 0 <= i < l.animations.len() implies (#[trigger] l.animations[i]).fits(
        n,
    ) by {
        lemma_collected_member(c.animations, anims_before(cut), i);
        let j = choose|j: int|
            0 <= j < c.animations.len() && anims_before(cut)(#[trigger] c.animations[j]) == Some(
                l.animations[i],
            );
        lemma_before_fits(c.animations[j], cut, n);
    }
}

proof fn lemma_right_fits(c: ClipView, cut: int, length: int, id: Seq<char>, n: int)
    requires
        c.fits(n),
        n == 2 || n == 4,
        0 < cut < length <= 2 * LIMIT,
    ensures
        right_part(c, cut, length, id).fits(n + 2),
{
    let r = right_part(c, cut, length, id);
    lemma_clip_fits(c, n, n + 2);
    assert forall|i: int| 0 <= i < r.animations.len() implies (#[trigger] r.animations[i]).fits(
        n + 2,
    ) by {
        lemma_collected_member(c.animations, anims_after(cut), i);
        let j = choose|j: int|
            0 <= j < c.animations.len() && anims_after(cut)(#[trigger] c.animations[j]) == Some(
                r.animations[i],
            );
        lemma_after_fits(c.animations[j], cut, n);
    }
}

/// Bounds that hold while stretches are cut out of a document that fits.
pub open spec fn settled(p: ProjectView) -> bool {
    &&& forall|i: int|
        0 <= i < p.scenes.len() ==> within((#[trigger] p.scenes[i]).duration, 12) && within(
            p.scenes[i].overlap(),
            12,
        ) && clips_fit(p.scenes[i].layers, 6)
    &&& forall|i: int| 0 <= i < p.overlays.len() ==> clips_fit((#[trigger] p.overlays[i]).clips, 6)
    &&& forall|i: int| 0 <= i < p.defs.len() ==> clips_fit((#[trigger] p.defs[i]).1.layers, 16)
}

proof fn lemma_settled_start(p: ProjectView)
    requires
        p.fits(1),
    ensures
        settled(p),
{
    assert forall|i: int| 0 <= i < p.scenes.len() implies within(
        (#[trigger] p.scenes[i]).duration,
        12,
    ) && within(p.scenes[i].overlap(), 12) && clips_fit(p.scenes[i].layers, 6) by {
        assert(p.scenes[i].fits(1));
        lemma_clips_fit(p.scenes[i].layers, 1, 6);
    }
    assert forall|i: int| 0 <= i < p.overlays.len() implies clips_fit(
        (#[trigger] p.overlays[i]).clips,
        6,
    ) by {
        lemma_clips_fit(p.overlays[i].clips, 1, 6);
    }
    assert forall|i: int| 0 <= i < p.defs.len() implies clips_fit(
        (#[trigger] p.defs[i]).1.layers,
        16,
    ) by {
        lemma_clips_fit(p.defs[i].1.layers, 1, 16);
    }
}

proof fn lemma_settled_fits(p: ProjectView)
    requires
        settled(p),
    ensures
        p.fits(16),
{
    assert forall|i: int| 0 <= i < p.scenes.len() implies (#[trigger] p.scenes[i]).fits(16) by {
        lemma_clips_fit(p.scenes[i].layers, 6, 16);
    }
    assert forall|i: int| 0 <= i < p.overlays.len() implies clips_fit(
        (#[trigger] p.overlays[i]).clips,
        16,
    ) by {
        lemma_clips_fit(p.overlays[i].clips, 6, 16);
    }
}

proof fn lemma_settled_layers(p: ProjectView, s: int, scene: SceneView)
    requires
        settled(p),
        0 <= s < p.scenes.len(),
        within(scene.duration, 12),
        scene.transition == p.scenes[s].transition,
        clips_fit(scene.layers, 6),
    ensures
        settled(ProjectView { scenes: p.scenes.update(s, scene), ..p }),
{
    let q = ProjectView { scenes: p.scenes.update(s, scene), ..p };
    assert forall|i: int| 0 <= i < q.scenes.len() implies within(
        (#[trigger] q.scenes[i]).duration,
        12,
    ) && within(q.scenes[i].overlap(), 12) && clips_fit(q.scenes[i].layers, 6) by {
        assert(within(p.scenes[i].overlap(), 12));
    }
}

proof fn lemma_settled_track(p: ProjectView, t: int, clips: Seq<ClipView>)
    requires
        settled(p),
        0 <= t < p.overlays.len(),
        clips_fit(clips, 6),
    ensures
        settled(with_track(p, t, clips)),
{
    let q = with_track(p, t, clips);
    assert forall|i: int| 0 <= i < q.overlays.len() implies clips_fit(
        (#[trigger] q.overlays[i]).clips,
        6,
    ) by {
        assert(clips_fit(p.overlays[i].clips, 6));
    }
}

proof fn lemma_split_list_fits(
    clips: Seq<ClipView>,
    k: int,
    cut: int,
    length: int,
    new: Seq<char>,
    n: int,
)
    requires
        clips_fit(clips, 6),
        0 <= k < clips.len(),
        clips[k].fits(n),
        n == 2 || n == 4,
        0 < cut < length <= 2 * LIMIT,
    ensures
        clips_fit(split_list(clips, k, cut, length, new), 6),
{
    let after = split_list(clips, k, cut, length, new);
    lemma_left_fits(clips[k], cut, n);
    lemma_clip_fits(left_part(clips[k], cut), n, 6);
    lemma_right_fits(clips[k], cut, length, new, n);
    lemma_clip_fits(right_part(clips[k], cut, length, new), n + 2, 6);
    assert forall|j: int| 0 <= j < after.len() implies (#[trigger] after[j]).fits(6) by {
        if j < k {
            assert(after[j] == clips[j]);
        } else if j > k + 1 {
            assert(after[j] == clips[j - 1]);
        }
    }
}

/// A split keeps a document settled.
proof fn lemma_split_settled(p: ProjectView, id: Seq<char>, t: int, n: int)
    requires
        settled(p),
        found(p, id) is Some,
        found(p, id)->0.fits(n),
        n == 2 || n == 4,
        cuts_inside(p, id, t),
        split_length(p, spot_of(p, id), found(p, id)->0) <= 2 * LIMIT,
    ensures
        settled(split_project(p, id, t)),
{
    let c = found(p, id)->0;
    let cut = cut_of(p, id, t);
    let length = split_length(p, spot_of(p, id), c);
    lemma_spot(p, id);
    match spot_of(p, id) {
        Spot::Layer { scene, index } => {
            let layers = split_list(p.scenes[scene].layers, index, cut, length, split_id(p, id));
            lemma_split_list_fits(
                p.scenes[scene].layers,
                index,
                cut,
                length,
                split_id(p, id),
                n,
            );
            lemma_settled_layers(p, scene, SceneView { layers, ..p.scenes[scene] });
        },
        Spot::Overlay { track, index } => {
            let clips = split_list(p.overlays[track].clips, index, cut, length, split_id(p, id));
            lemma_split_list_fits(
                p.overlays[track].clips,
                index,
                cut,
                length,
                split_id(p, id),
                n,
            );
            lemma_settled_track(p, track, clips);
        },
        Spot::Absent => {},
    }
}

proof fn lemma_removed_fits(clips: Seq<ClipView>, k: int)
    requires
        clips_fit(clips, 6),
        0 <= k < clips.len(),
    ensures
        clips_fit(clips.remove(k), 6),
{
    let rest = clips.remove(k);
    assert forall|j: int| 0 <= j < rest.len() implies (#[trigger] rest[j]).fits(6) by {
        if j < k {
            assert(rest[j] == clips[j]);
        } else {
            assert(rest[j] == clips[j + 1]);
        }
    }
}

proof fn lemma_pulled_fits(clips: Seq<ClipView>, from: int, by: int)
    requires
        clips_fit(clips, 6),
        by >= 0,
    ensures
        clips_fit(pulled(clips, from, by), 6),
{
    let after = pulled(clips, from, by);
    assert forall|j: int| 0 <= j < after.len() implies (#[trigger] after[j]).fits(6) by {
        assert(clips[j].fits(6));
    }
}

proof fn lemma_content_end_bound(clips: Seq<ClipView>)
    requires
        clips_fit(clips, 6),
    ensures
        within(content_end_all(clips), 12),
    decreases clips.len(),
{
    if clips.len() > 0 {
        let rest = clips.drop_last();
        assert(clips[clips.len() - 1].fits(6));
        assert forall|j: int| 0 <= j < rest.len() implies (#[trigger] rest[j]).fits(6) by {
            assert(rest[j] == clips[j]);
        }
        lemma_content_end_bound(rest);
    }
}

/// Some numbered id is free, so the id of a split is one that no clip has.
pub proof fn lemma_split_id_free(p: ProjectView, id: Seq<char>)
    ensures
        found(p, split_id(p, id)) is None,
{
    let n = lemma_free_exists(p, id + "-"@, 2, 2);
    lemma_free_id(p, id + "-"@, 2, n);
}

/// Where a clip stands whose second half is being cut out: it stays in place
/// and is not touched when the piece behind it is taken out.
proof fn lemma_taken_out(p: ProjectView, x: Seq<char>, tail: Seq<char>, pieces: int, span: int)
    requires
        settled(p),
        found(p, x) is Some,
        found(p, tail) is Some,
        x != tail,
        spot_of(p, tail) == next_spot(spot_of(p, x)),
        found(p, x)->0.start < found(p, tail)->0.start,
        found(p, tail)->0.duration > 0,
        span > 0,
    ensures
        spot_of(p, x) is Overlay ==> {
            let q = rippled(p, tail);
            &&& settled(q)
            &&& track_position(p.overlays, tail) < p.overlays.len()
            &&& found(q, x) == found(p, x)
            &&& spot_of(q, x) == spot_of(p, x)
            &&& all_ids(q).len() == all_ids(p).len() - 1
        },
        spot_of(p, x) is Layer && track_position(p.overlays, tail) >= p.overlays.len() ==> {
            let q = gap_closed(p, tail, pieces, span);
            &&& settled(q)
            &&& found(q, x) == found(p, x)
            &&& spot_of(q, x) == spot_of(p, x)
            &&& all_ids(q).len() == all_ids(p).len() - 1
        },
{
    lemma_spot(p, x);
    lemma_spot(p, tail);
    lemma_scene_position(p.scenes, tail);
    lemma_track_position(p.overlays, tail);
    match spot_of(p, x) {
        Spot::Overlay { track, index } => {
            let q = rippled(p, tail);
            let clips = p.overlays[track].clips;
            assert(track_position(p.overlays, tail) == track);
            let gone = clips[index + 1];
            let rest = clips.remove(index + 1);
            let after_clips = pulled(rest, gone.start, max(gone.duration, 0));
            lemma_removed_fits(clips, index + 1);
            lemma_pulled_fits(rest, gone.start, max(gone.duration, 0));
            lemma_settled_track(p, track, after_clips);
            lemma_position(clips, x);
            assert(rest[index] == clips[index]);
            assert(after_clips[index] == clips[index]);
            assert forall|j: int| 0 <= j < index implies (#[trigger] after_clips[j]).id != x by {
                assert(rest[j] == clips[j]);
                assert(clips[j].id != x);
            }
            lemma_position_is(after_clips, x, index);
            lemma_spot_overlay(q, x, track, index);
            lemma_track_id_count(p, track, after_clips);
        },
        Spot::Layer { scene, index } => {
            if track_position(p.overlays, tail) >= p.overlays.len() {
                let q = gap_closed(p, tail, pieces, span);
                let clips = p.scenes[scene].layers;
                assert(scene_position(p.scenes, tail) == scene);
                let rest = clips.remove(index + 1);
                lemma_removed_fits(clips, index + 1);
                let layers = q.scenes[scene].layers;
                assert forall|j: int| 0 <= j < layers.len() implies (#[trigger] layers[j]).fits(
                    6,
                ) by {
                    assert(rest[j].fits(6));
                }
                lemma_content_end_bound(layers);
                lemma_settled_layers(p, scene, q.scenes[scene]);
                lemma_position(clips, x);
                assert(rest[index] == clips[index]);
                assert forall|j: int| 0 <= j < index implies (#[trigger] layers[j]).id != x by {
                    assert(rest[j] == clips[j]);
                    assert(clips[j].id != x);
                }
                lemma_position_is(layers, x, index);
                lemma_spot_layer(q, x, scene, index);
                lemma_layers_id_count(p, scene, layers);
                let r = with_layers(p, scene, layers);
                lemma_ids_ignore_length(r.scenes, q.scenes, 0);
            }
        },
        Spot::Absent => {},
    }
}

proof fn lemma_ids_ignore_length(a: Seq<SceneView>, b: Seq<SceneView>, i: int)
    requires
        a.len() == b.len(),
        0 <= i <= a.len(),
        forall|k: int|
            0 <= k < a.len() ==> (#[trigger] a[k]).id == b[k].id && a[k].layers == b[k].layers,
    ensures
        crate::validate::scene_ids(a, i) == crate::validate::scene_ids(b, i),
    decreases a.len() - i,
{
    if i < a.len() {
        lemma_ids_ignore_length(a, b, i + 1);
        assert(a[i].id == b[i].id);
    }
}

/// The clip that stretches are cut out of: in reach of further cuts, or in a
/// document that is still as it was.
pub open spec fn cuttable(p: ProjectView, id: Seq<char>) -> bool {
    &&& settled(p)
    &&& found(p, id) is Some
    &&& found(p, id)->0.fits(2)
    &&& split_length(p, spot_of(p, id), found(p, id)->0) <= 2 * LIMIT
}

/// Cutting out a stretch keeps the rest of the clip cuttable, and adds two
/// ids at most.
proof fn lemma_cut_out(p: ProjectView, id: Seq<char>, r: (int, int), later: int)
    requires
        cuttable(p, id),
        r.0 < r.1,
    ensures
        cuttable(cut_out(p, id, r, later).0, id),
        all_ids(cut_out(p, id, r, later).0).len() <= all_ids(p).len() + 1,
        cuts_inside(p, id, r.0) ==> {
            let p1 = split_project(p, id, r.0);
            let tail = split_id(p, id);
            &&& settled(p1)
            &&& found(p1, tail) is Some
            &&& found(p1, tail)->0.fits(4)
            &&& all_ids(p1).len() == all_ids(p).len() + 1
            &&& cuts_inside(p1, tail, r.1) ==> {
                let p2 = split_project(p1, tail, r.1);
                &&& settled(p2)
                &&& found(p2, tail) is Some
                &&& spot_of(p2, tail) == next_spot(spot_of(p, id))
                &&& (spot_of(p, id) is Layer ==> track_position(p2.overlays, tail)
                    >= p2.overlays.len())
            }
        },
{
    if cuts_inside(p, id, r.0) {
        let c = found(p, id)->0;
        let spot = spot_of(p, id);
        let cut = cut_of(p, id, r.0);
        let length = split_length(p, spot, c);
        let p1 = split_project(p, id, r.0);
        let tail = split_id(p, id);
        lemma_split_id_free(p, id);
        lemma_split_spots(p, id, r.0);
        lemma_split_settled(p, id, r.0, 2);
        lemma_left_fits(c, cut, 2);
        lemma_right_fits(c, cut, length, tail, 2);
        lemma_spot(p, id);
        lemma_spot(p1, tail);
        lemma_spot(p, tail);
        assert(cuttable(p1, id));
        if cuts_inside(p1, tail, r.1) {
            let p2 = split_project(p1, tail, r.1);
            let after = split_id(p1, tail);
            lemma_split_id_free(p1, tail);
            lemma_split_spots(p1, tail, r.1);
            lemma_split_settled(p1, tail, r.1, 4);
            lemma_split_keeps(p1, tail, r.1, id);
            assert(found(p1, id) is Some && found(p1, after) is None);
            lemma_spot(p2, tail);
            if spot is Layer {
                lemma_track_position(p2.overlays, tail);
                lemma_track_position(p.overlays, tail);
                assert(p2.overlays == p.overlays);
                assert(forall|j: int|
                    0 <= j < p.overlays.len() ==> !holds((#[trigger] p.overlays[j]).clips, tail));
            }
            lemma_taken_out(p2, id, tail, later + 1, r.1 - r.0);
        }
    }
}

fn place(v: &mut Vec<(i128, i128)>, r: (i128, i128))
    ensures
        pairs(final(v)@) == placed(pairs(old(v)@), (r.0 as int, r.1 as int)),
{
    let ghost before = pairs(v@);
    let ghost item = (r.0 as int, r.1 as int);
    let mut i: usize = v.len();
    proof {
        assert(before.take(i as int) =~= before);
        assert(placed(before, item) + before.skip(i as int) =~= placed(before, item));
    }
    while i > 0 && v[i - 1].0 > r.0
        invariant
            i <= v.len(),
            before == pairs(v@),
            item == (r.0 as int, r.1 as int),
            placed(before, item) == placed(before.take(i as int), item) + before.skip(i as int),
        decreases i,
    {
        proof {
            let upto = before.take(i as int);
            assert(upto.last() == before[i - 1]);
            assert(upto.drop_last() =~= before.take(i - 1));
            assert(placed(before.take(i - 1), item).push(before[i - 1]) + before.skip(i as int)
                =~= placed(before.take(i - 1), item) + before.skip(i - 1));
        }
        i -= 1;
    }
    proof {
        let upto = before.take(i as int);
        if i > 0 {
            assert(upto.last() == before[i - 1]);
        }
        assert(upto.push(item) + before.skip(i as int) =~= before.insert(i as int, item));
    }
    v.insert(i, r);
    assert(pairs(v@) =~= before.insert(i as int, item));
}

/// Splice out the stretches of a clip's own media that fall within
/// `silent_ranges` (media-relative seconds), closing the gap left behind.
/// Only clips at normal playback rate are supported. Returns how many ranges
/// were actually removed: a range outside the clip's used media is skipped,
/// and so is one whose ends do not fall inside the clip.
///
/// Overlay clips ripple the whole track; scene layers are independent lanes
/// stacked in time, so there only the edited clip's own later pieces are
/// shifted and the scene shrinks to fit; other layers keep their timing.
pub fn remove_silence(project: &mut Project, id: &str, silent_ranges: &Vec<(i128, i128)>) -> (r:
    Result<usize, EditError>)
    requires
        old(project)@.fits(1),
        forall|i: int|
            0 <= i < silent_ranges@.len() ==> within((#[trigger] silent_ranges@[i]).0 as int, 1)
                && within(silent_ranges@[i].1 as int, 1),
        all_ids(old(project)@).len() + silent_ranges@.len() < u64::MAX - 4,
    ensures
        match silence_refusal(old(project)@, id@) {
            Some(e) => r is Err && r->Err_0@ == e && final(project)@ == old(project)@,
            None => {
                let ranges = stretches(old(project)@, id@, pairs(silent_ranges@));
                &&& r is Ok
                &&& r->Ok_0 == cut_all(old(project)@, id@, ranges, 0).1
                &&& final(project)@ == cut_all(old(project)@, id@, ranges, 0).0
            },
        },
{
    let ghost before = project@;
    proof {
        lemma_spot(before, id@);
        lemma_settled_start(before);
        lemma_settled_fits(before);
    }
    let scene: Option<usize> = scene_with(project, id);
    let base: i128 = match scene {
        Some(s) => {
            proof {
                lemma_small_offset(before.scenes, s as int);
            }
            project.scene_offset(s)
        },
        None => 0,
    };
    let clip: &Clip = match find_clip(project, id) {
        Some(c) => c,
        None => return Err(EditError::NoClip),
    };
    let ghost c = clip@;
    proof {
        lemma_scene_position(before.scenes, id@);
        match spot_of(before, id@) {
            Spot::Layer { scene: s, index } => {
                assert(before.scenes[s].fits(1));
                assert(before.scenes[s].layers[index].fits(1));
            },
            Spot::Overlay { track, index } => {
                assert(before.overlays[track].clips[index].fits(1));
            },
            Spot::Absent => {},
        }
        lemma_clip_fits(c, 1, 2);
    }
    let (offset, rate): (i128, i128) = match &clip.element {
        Element::Video { src, offset, volume, rate } => (*offset, *rate),
        Element::Audio { src, offset, volume, rate } => (*offset, *rate),
        _ => return Err(EditError::NoMedia),
    };
    if rate - UNIT > 1000 || rate - UNIT < -1000 {
        return Err(EditError::RateNotNormal);
    }
    let start: i128 = base + clip.start;
    let duration: i128 = clip.duration;
    let ghost mapper = timeline_mapper(c, start as int);
    let ghost silent = pairs(silent_ranges@);
    let mut ranges: Vec<(i128, i128)> = Vec::new();
    let mut i: usize = 0;
    assert(pairs(ranges@) =~= Seq::<(int, int)>::empty());
    while i < silent_ranges.len()
        invariant
            i <= silent_ranges.len(),
            forall|j: int|
                0 <= j < silent_ranges@.len() ==> within(
                    (#[trigger] silent_ranges@[j]).0 as int,
                    1,
                ) && within(silent_ranges@[j].1 as int, 1),
            silent == pairs(silent_ranges@),
            mapper == timeline_mapper(c, start as int),
            crate::ramp::media_offset(c.element) == Some(offset as int),
            c.duration == duration,
            within(offset as int, 1),
            within(duration as int, 1),
            -40_000_000_000_000_000_000_000_000_000_000_000_000 <= start
                <= 40_000_000_000_000_000_000_000_000_000_000_000_000,
            pairs(ranges@) == by_start(collected(silent.take(i as int), mapper)),
            forall|j: int|
                0 <= j < ranges@.len() ==> (#[trigger] ranges@[j]).0 < ranges@[j].1 && -HORIZON
                    <= ranges@[j].0 && ranges@[j].1 <= HORIZON,
            ranges@.len() <= i,
        decreases silent_ranges.len() - i,
    {
        let (ms, me): (i128, i128) = silent_ranges[i];
        proof {
            lemma_collected_step(silent, mapper, i as int);
            assert(silent[i as int] == (ms as int, me as int));
            assert(within(silent_ranges@[i as int].0 as int, 1));
        }
        let s: i128 = larger(ms, offset);
        let e: i128 = if duration > 0 {
            smaller(me, offset + duration)
        } else {
            me
        };
        if e > s {
            let ghost earlier = ranges@;
            let item: (i128, i128) = (start + (s - offset), start + (e - offset));
            proof {
                let so_far = collected(silent.take(i as int), mapper);
                let now = so_far.push((item.0 as int, item.1 as int));
                assert(now.drop_last() =~= so_far);
            }
            place(&mut ranges, item);
            proof {
                lemma_placed_members(pairs(earlier), (item.0 as int, item.1 as int));
                assert forall|j: int| 0 <= j < ranges@.len() implies (#[trigger] ranges@[j]).0
                    < ranges@[j].1 && -HORIZON <= ranges@[j].0 && ranges@[j].1 <= HORIZON by {
                    let x = pairs(ranges@)[j];
                    assert(x == placed(pairs(earlier), (item.0 as int, item.1 as int))[j]);
                    if x != (item.0 as int, item.1 as int) {
                        let k = choose|k: int| 0 <= k < pairs(earlier).len() && pairs(earlier)[k] == x;
                        assert(earlier[k].0 < earlier[k].1);
                    }
                }
            }
        }
        i += 1;
    }
    assert(silent.take(i as int) =~= silent);
    let ghost todo = stretches(before, id@, silent);
    assert(pairs(ranges@) == todo);
    proof {
        assert(cuttable(before, id@));
    }
    let mut removed: usize = 0;
    let mut n: usize = ranges.len();
    while n > 0
        invariant
            n <= ranges.len(),
            todo == pairs(ranges@),
            forall|j: int|
                0 <= j < ranges@.len() ==> (#[trigger] ranges@[j]).0 < ranges@[j].1 && -HORIZON
                    <= ranges@[j].0 && ranges@[j].1 <= HORIZON,
            cuttable(project@, id@),
            all_ids(project@).len() <= all_ids(before).len() + (ranges@.len() - n),
            all_ids(before).len() + ranges@.len() < u64::MAX - 4,
            project@ == cut_all(before, id@, todo, n as int).0,
            removed == cut_all(before, id@, todo, n as int).1,
            removed <= ranges@.len() - n,
        decreases n,
    {
        n -= 1;
        let (from, to): (i128, i128) = ranges[n];
        let ghost p = project@;
        let ghost range = (from as int, to as int);
        proof {
            assert(todo[n as int] == range);
            lemma_cut_out(p, id@, range, removed as int);
            lemma_settled_fits(p);
            lemma_clip_fits(found(p, id@)->0, 2, 4);
        }
        if cut_one(project, id, from, to, removed) {
            removed += 1;
        }
    }
    Ok(removed)
}

proof fn lemma_placed_members(s: Seq<(int, int)>, r: (int, int))
    ensures
        forall|j: int|
            0 <= j < placed(s, r).len() ==> (#[trigger] placed(s, r)[j]) == r || exists|k: int|
                0 <= k < s.len() && s[k] == placed(s, r)[j],
        placed(s, r).len() == s.len() + 1,
    decreases s.len(),
{
    if s.len() > 0 && s.last().0 > r.0 {
        let rest = s.drop_last();
        lemma_placed_members(rest, r);
        assert forall|j: int| 0 <= j < placed(s, r).len() implies (#[trigger] placed(s, r)[j]) == r
            || exists|k: int| 0 <= k < s.len() && s[k] == placed(s, r)[j] by {
            if j < placed(rest, r).len() {
                assert(placed(s, r)[j] == placed(rest, r)[j]);
                if placed(rest, r)[j] != r {
                    let k = choose|k: int| 0 <= k < rest.len() && rest[k] == placed(rest, r)[j];
                    assert(s[k] == placed(s, r)[j]);
                }
            } else {
                assert(s[s.len() - 1] == placed(s, r)[j]);
            }
        }
    } else {
        assert forall|j: int| 0 <= j < placed(s, r).len() implies (#[trigger] placed(s, r)[j]) == r
            || exists|k: int| 0 <= k < s.len() && s[k] == placed(s, r)[j] by {
            if j < s.len() {
                assert(s[j] == placed(s, r)[j]);
            }
        }
    }
}

pub proof fn lemma_small_offset(scenes: Seq<SceneView>, i: int)
    requires
        0 <= i < scenes.len(),
        i <= usize::MAX,
        forall|k: int| 0 <= k < scenes.len() ==> (#[trigger] scenes[k]).fits(1),
    ensures
        -200_000_000_000_000_000 * i <= raw_offset(scenes, i) <= 200_000_000_000_000_000 * i,
        offset_of(scenes, i) <= 4_000_000_000_000_000_000_000_000_000_000_000_000,
    decreases i,
{
    if i > 0 {
        lemma_small_offset(scenes, i - 1);
        assert(scenes[i - 1].fits(1));
        assert(scenes[i].fits(1));
    }
    assert(usize::MAX <= 18_446_744_073_709_551_615);
}

/// Move the `n` clips from position `from` on up by `span`.
fn move_up(clips: &mut Vec<Clip>, from: usize, n: usize, span: i128)
    requires
        clips_fit(views(old(clips)@), 6),
        -2 * HORIZON <= span <= 2 * HORIZON,
    ensures
        views(final(clips)@) == moved_up(views(old(clips)@), from as int, n as int, span as int),
{
    let ghost before = views(clips@);
    let mut j: usize = from;
    while j < clips.len() && j - from < n
        invariant
            from <= j,
            j - from <= n,
            clips@.len() == before.len(),
            clips_fit(before, 6),
            -2 * HORIZON <= span <= 2 * HORIZON,
            j <= clips@.len() || j == from,
            views(clips@) == moved_up(before, from as int, j - from, span as int),
        decreases clips@.len() - j,
    {
        assert(before[j as int].fits(6));
        assert(views(clips@)[j as int] == before[j as int]);
        let start: i128 = clips[j].start;
        clips[j].start = larger(start - span, 0);
        j += 1;
        assert(views(clips@) =~= moved_up(before, from as int, j - from, span as int));
    }
    assert(views(clips@) =~= moved_up(before, from as int, n as int, span as int));
}

/// Cut one stretch of the timeline out of a clip that has `later` pieces
/// behind it.
fn cut_one(project: &mut Project, id: &str, from: i128, to: i128, later: usize) -> (r: bool)
    requires
        cuttable(old(project)@, id@),
        from < to,
        -HORIZON <= from,
        to <= HORIZON,
        later < usize::MAX,
        all_ids(old(project)@).len() < u64::MAX - 4,
    ensures
        (final(project)@, r) == cut_out(
            old(project)@,
            id@,
            (from as int, to as int),
            later as int,
        ),
        cuttable(final(project)@, id@),
        all_ids(final(project)@).len() <= all_ids(old(project)@).len() + 1,
{
    let ghost p = project@;
    proof {
        lemma_cut_out(p, id@, (from as int, to as int), later as int);
        lemma_settled_fits(p);
        lemma_clip_fits(found(p, id@)->0, 2, 4);
    }
    let whole: Project = project.clone();
    let tail: String = match split_clip(project, id, from) {
        Ok(t) => t,
        Err(_) => return false,
    };
    let ghost p1 = project@;
    proof {
        lemma_settled_fits(p1);
    }
    if split_clip(project, tail.as_str(), to).is_err() {
        *project = whole;
        return false;
    }
    let ghost p2 = project@;
    proof {
        lemma_settled_fits(p2);
        lemma_scene_position(p2.scenes, tail@);
        lemma_track_position(p2.overlays, tail@);
        lemma_spot(p2, tail@);
    }
    if track_with(project, tail.as_str()).is_some() {
        let _done: Result<(), EditError> = ripple_delete(project, tail.as_str());
        return true;
    }
    if let Some(s) = scene_with(project, tail.as_str()) {
        if let Some(pos) = position_in(&project.scenes[s].layers, tail.as_str()) {
            let _gone: Clip = project.scenes[s].layers.remove(pos);
            let ghost rest = views(project.scenes@[s as int].layers@);
            assert(rest == p2.scenes[s as int].layers.remove(pos as int));
            proof {
                lemma_removed_fits(p2.scenes[s as int].layers, pos as int);
            }
            move_up(&mut project.scenes[s].layers, pos, later + 1, to - from);
            let ghost layers = views(project.scenes@[s as int].layers@);
            proof {
                assert forall|j: int| 0 <= j < layers.len() implies (#[trigger] layers[j]).fits(
                    6,
                ) by {
                    assert(rest[j].fits(6));
                }
                lemma_clips_fit(layers, 6, 16);
            }
            let end: i128 = content_end_in(&project.scenes[s].layers);
            project.scenes[s].duration = end;
            assert(project@.scenes =~= gap_closed(p2, tail@, later + 1, to - from).scenes);
        }
    }
    true
}

proof fn lemma_placed_sorted(s: Seq<(int, int)>, r: (int, int))
    requires
        forall|i: int, j: int| 0 <= i < j < s.len() ==> (#[trigger] s[i]).0 <= (#[trigger] s[j]).0,
    ensures
        forall|i: int, j: int|
            0 <= i < j < placed(s, r).len() ==> (#[trigger] placed(s, r)[i]).0 <= (
            #[trigger] placed(s, r)[j]).0,
        placed(s, r).to_multiset() == s.to_multiset().insert(r),
    decreases s.len(),
{
    broadcast use vstd::seq_lib::group_to_multiset_ensures;

    let after = placed(s, r);
    if s.len() > 0 && s.last().0 > r.0 {
        let rest = s.drop_last();
        lemma_placed_sorted(rest, r);
        lemma_placed_members(rest, r);
        let inner = placed(rest, r);
        assert forall|i: int, j: int| 0 <= i < j < after.len() implies (#[trigger] after[i]).0 <= (
        #[trigger] after[j]).0 by {
            if j == after.len() - 1 {
                assert(after[i] == inner[i]);
                if inner[i] != r {
                    let k = choose|k: int| 0 <= k < rest.len() && rest[k] == inner[i];
                    assert(s[k].0 <= s[s.len() - 1].0);
                }
            } else {
                assert(after[i] == inner[i] && after[j] == inner[j]);
            }
        }
        assert(s =~= rest.push(s.last()));
    }
}

/// The stretches are taken in order of their starts, and none is lost or
/// added by the ordering.
pub proof fn law_by_start(s: Seq<(int, int)>)
    ensures
        forall|i: int, j: int|
            0 <= i < j < by_start(s).len() ==> (#[trigger] by_start(s)[i]).0 <= (
            #[trigger] by_start(s)[j]).0,
        by_start(s).to_multiset() == s.to_multiset(),
    decreases s.len(),
{
    broadcast use vstd::seq_lib::group_to_multiset_ensures;

    if s.len() > 0 {
        law_by_start(s.drop_last());
        lemma_placed_sorted(by_start(s.drop_last()), s.last());
        assert(s =~= s.drop_last().push(s.last()));
    }
}

/// Silence is removed from any clip that plays media at normal speed, give or
/// take a millionth, and from no other.
pub proof fn law_silence_refused(p: ProjectView, id: Seq<char>)
    ensures
        found(p, id) is None <==> silence_refusal(p, id) == Some(EditErrorView::NoClip),
        found(p, id) is Some ==> match found(p, id)->0.element {
            ElementView::Video { src, offset, volume, rate } => (silence_refusal(p, id) is None
                <==> 999_999_000 <= rate <= 1_000_001_000) && silence_refusal(p, id) != Some(
                EditErrorView::NoMedia,
            ),
            ElementView::Audio { src, offset, volume, rate } => (silence_refusal(p, id) is None
                <==> 999_999_000 <= rate <= 1_000_001_000) && silence_refusal(p, id) != Some(
                EditErrorView::NoMedia,
            ),
            _ => silence_refusal(p, id) == Some(EditErrorView::NoMedia),
        },
{
}

/// Closing the gap that a piece leaves takes that piece out, moves the pieces
/// behind it up by its length and no other layer, and ends the scene where its
/// last layer ends.
pub proof fn law_gap_closed(p: ProjectView, tail: Seq<char>, pieces: int, span: int, k: int)
    requires
        scene_position(p.scenes, tail) < p.scenes.len(),
        pieces >= 0,
    ensures
        ({
            let s = scene_position(p.scenes, tail);
            let at = position(p.scenes[s].layers, tail);
            let left = p.scenes[s].layers.remove(at);
            let q = gap_closed(p, tail, pieces, span);
            let layers = q.scenes[s].layers;
            &&& layers.len() == left.len()
            &&& 0 <= k < left.len() && at <= k < at + pieces && left[k].start >= span
                ==> layers[k] == (ClipView { start: left[k].start - span, ..left[k] })
            &&& 0 <= k < left.len() && !(at <= k < at + pieces) ==> layers[k] == left[k]
            &&& 0 <= k < layers.len() ==> crate::edit::ends_at(layers[k]) <= q.scenes[s].duration
            &&& q.scenes[s].duration >= 100_000_000
            &&& q.scenes[s].duration == 100_000_000 || exists|j: int|
                0 <= j < layers.len() && crate::edit::ends_at(#[trigger] layers[j])
                    == q.scenes[s].duration
            &&& q.scenes.len() == p.scenes.len() && q.overlays == p.overlays
        }),
{
    let s = scene_position(p.scenes, tail);
    crate::timeline::lemma_scene_position(p.scenes, tail);
    crate::timeline::lemma_position(p.scenes[s].layers, tail);
    let layers = gap_closed(p, tail, pieces, span).scenes[s].layers;
    crate::edit::lemma_content_end_all(layers);
}

} // verus!
