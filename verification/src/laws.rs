//! Laws of the editing operations.

use vstd::prelude::*;
use crate::cycles::{acyclic, def_of, is_chain, linked};
use crate::desilence::{by_start, cut_all, cut_out, law_by_start, lemma_split_id_free, moved_up,
    stretches, timeline_mapper};
use crate::document::{AnimView, ClipView, CompDefView, ElementView, KeyframeView, ProjectView};
use crate::document::{OverlayTrackView, SceneView};
use crate::drag::{shifted_project, trimmed_project, Drag};
use crate::edit::{absolute_start, audio_of, content_end_all, detached, earliest, finder, from_zero,
    lemma_offsets_ignore_layers, lifted, moved, padded_layers, pulled, rippled, save_refusal,
    scene_at, selected, silenced, slot_pad, track_index, with_def};
use crate::fixed::{eased, law_ease_endpoints, law_mix_endpoints, law_mix_share, law_progress, max,
    progress, LIMIT, TENTH, TWENTIETH, UNIT};
use crate::faults::{clip_ok, in_order, rate_anim_fault, window_fault};
use crate::ids::lemma_found_id;
use crate::integrity::{first, inserted, lemma_clip_in, lemma_clip_out, lemma_first_insert,
    lemma_first_remove, lemma_first_update, lemma_found_first, lemma_found_layers,
    lemma_found_track, lemma_inserted_ok, lemma_same_ids, lemma_scene_swapped, lemma_taken_out,
    lemma_track_swapped};
use crate::inspector::edited;
use crate::medialib::put_in;
use crate::split::{anim_after, anim_before, anims_after, anims_before, cut_of, cuts_inside,
    keyframe_after, keyframe_before, left_part, right_part, split_id, split_length, split_list,
    split_project, tween_at};
use crate::spots::{lemma_split_spots, lemma_spot, lemma_spot_layer, lemma_spot_overlay};
use crate::textmap::{law_stored_lookup, lookup, stored};
use crate::timeline::{content_end_of, found, grown, holds, law_removed_is_gone, lemma_position,
    lemma_position_is, lemma_without, max_layers, offset_of, position, raw_offset, removed, spot_of,
    total_duration, track_position, without, Spot};
use crate::tree::lemma_stored_values;
use crate::validate::{all_ids, clip_ids, clips_ok, ids_ok, scene_fault, track_ids, valid};
use crate::views::{collected, lemma_collected_filter, lemma_collected_member};

verus! {

proof fn lemma_before_order(k: Seq<KeyframeView>, cut: int)
    requires
        in_order(k),
    ensures
        in_order(collected(k, keyframe_before(cut))),
    decreases k.len(),
{
    let f = keyframe_before(cut);
    if k.len() > 0 {
        let rest = k.drop_last();
        assert(in_order(rest)) by {
            assert forall|i: int, j: int| 0 <= i < j < rest.len() implies (#[trigger] rest[i]).t
                < (#[trigger] rest[j]).t by {
                assert(k[i].t < k[j].t);
            }
        }
        lemma_before_order(rest, cut);
        let kept = collected(rest, f);
        assert forall|i: int| 0 <= i < kept.len() implies (#[trigger] kept[i]).t < k.last().t by {
            lemma_collected_member(rest, f, i);
            let m = choose|m: int| 0 <= m < rest.len() && f(#[trigger] rest[m]) == Some(kept[i]);
            assert(k[m].t < k[k.len() - 1].t);
        }
    }
}

proof fn lemma_after_order(k: Seq<KeyframeView>, cut: int)
    requires
        in_order(k),
    ensures
        in_order(collected(k, keyframe_after(cut))),
    decreases k.len(),
{
    let f = keyframe_after(cut);
    if k.len() > 0 {
        let rest = k.drop_last();
        assert(in_order(rest)) by {
            assert forall|i: int, j: int| 0 <= i < j < rest.len() implies (#[trigger] rest[i]).t
                < (#[trigger] rest[j]).t by {
                assert(k[i].t < k[j].t);
            }
        }
        lemma_after_order(rest, cut);
        let kept = collected(rest, f);
        assert forall|i: int| 0 <= i < kept.len() implies (#[trigger] kept[i]).t < k.last().t
            - cut by {
            lemma_collected_member(rest, f, i);
            let m = choose|m: int| 0 <= m < rest.len() && f(#[trigger] rest[m]) == Some(kept[i]);
            assert(k[m].t < k[k.len() - 1].t);
        }
    }
}

proof fn lemma_before_ok(a: AnimView, cut: int)
    requires
        window_fault(a) is None,
        rate_anim_fault(a) is None,
        anim_before(a, cut) is Some,
    ensures
        window_fault(anim_before(a, cut)->0) is None,
        rate_anim_fault(anim_before(a, cut)->0) is None,
{
    if a.keyframes.len() > 0 {
        lemma_before_order(a.keyframes, cut);
        let f = keyframe_before(cut);
        let kept = collected(a.keyframes, f);
        assert forall|i: int| 0 <= i < kept.len() && a.property
            == crate::document::AnimProperty::Rate implies crate::faults::rate_ok(
            (#[trigger] kept[i]).value,
        ) by {
            lemma_collected_member(a.keyframes, f, i);
            let m = choose|m: int|
                0 <= m < a.keyframes.len() && f(#[trigger] a.keyframes[m]) == Some(kept[i]);
            assert(crate::faults::rate_ok(a.keyframes[m].value));
        }
    }
}

proof fn lemma_after_ok(a: AnimView, cut: int)
    requires
        window_fault(a) is None,
        rate_anim_fault(a) is None,
        anim_after(a, cut) is Some,
    ensures
        window_fault(anim_after(a, cut)->0) is None,
        rate_anim_fault(anim_after(a, cut)->0) is None,
{
    if a.keyframes.len() > 0 {
        lemma_after_order(a.keyframes, cut);
        let f = keyframe_after(cut);
        let kept = collected(a.keyframes, f);
        assert forall|i: int| 0 <= i < kept.len() && a.property
            == crate::document::AnimProperty::Rate implies crate::faults::rate_ok(
            (#[trigger] kept[i]).value,
        ) by {
            lemma_collected_member(a.keyframes, f, i);
            let m = choose|m: int|
                0 <= m < a.keyframes.len() && f(#[trigger] a.keyframes[m]) == Some(kept[i]);
            assert(crate::faults::rate_ok(a.keyframes[m].value));
        }
    }
}

proof fn lemma_halves_ok(
    c: ClipView,
    cut: int,
    length: int,
    id: Seq<char>,
    defs: Seq<(Seq<char>, CompDefView)>,
)
    requires
        clip_ok(c, defs),
        0 < cut < length,
    ensures
        clip_ok(left_part(c, cut), defs),
        clip_ok(right_part(c, cut, length, id), defs),
{
    let l = left_part(c, cut);
    let r = right_part(c, cut, length, id);
    assert forall|i: int| 0 <= i < l.animations.len() implies window_fault(
        #[trigger] l.animations[i],
    ) is None && rate_anim_fault(l.animations[i]) is None by {
        let f = anims_before(cut);
        lemma_collected_member(c.animations, f, i);
        let m = choose|m: int|
            0 <= m < c.animations.len() && f(#[trigger] c.animations[m]) == Some(l.animations[i]);
        assert(window_fault(c.animations[m]) is None);
        lemma_before_ok(c.animations[m], cut);
    }
    assert forall|i: int| 0 <= i < r.animations.len() implies window_fault(
        #[trigger] r.animations[i],
    ) is None && rate_anim_fault(r.animations[i]) is None by {
        let f = anims_after(cut);
        lemma_collected_member(c.animations, f, i);
        let m = choose|m: int|
            0 <= m < c.animations.len() && f(#[trigger] c.animations[m]) == Some(r.animations[i]);
        assert(window_fault(c.animations[m]) is None);
        lemma_after_ok(c.animations[m], cut);
    }
}

proof fn lemma_split_ids(clips: Seq<ClipView>, k: int, cut: int, length: int, id: Seq<char>)
    requires
        0 <= k < clips.len(),
    ensures
        inserted(clip_ids(clips, 0), clip_ids(split_list(clips, k, cut, length, id), 0), id),
{
    let cutshort = clips.update(k, left_part(clips[k], cut));
    lemma_same_ids(clips, cutshort);
    lemma_clip_in(cutshort, k + 1, right_part(clips[k], cut, length, id));
}

proof fn lemma_split_clips_ok(
    clips: Seq<ClipView>,
    k: int,
    cut: int,
    length: int,
    id: Seq<char>,
    defs: Seq<(Seq<char>, CompDefView)>,
)
    requires
        0 <= k < clips.len(),
        clips_ok(clips, defs),
        0 < cut < length,
    ensures
        clips_ok(split_list(clips, k, cut, length, id), defs),
{
    let after = split_list(clips, k, cut, length, id);
    assert(clip_ok(clips[k], defs));
    lemma_halves_ok(clips[k], cut, length, id, defs);
    assert forall|i: int| 0 <= i < after.len() implies clip_ok(#[trigger] after[i], defs) by {
        if i < k {
            assert(after[i] == clips[i]);
        } else if i > k + 1 {
            assert(after[i] == clips[i - 1]);
        }
    }
}

/// Splitting a clip of a valid document leaves a valid document, unless the
/// new clip's id is that of a scene or a track.
pub proof fn law_split_valid(p: ProjectView, id: Seq<char>, t: int)
    requires
        valid(p),
        found(p, id) is Some,
        cuts_inside(p, id, t),
        !all_ids(p).contains(split_id(p, id)),
    ensures
        valid(split_project(p, id, t)),
{
    let q = split_project(p, id, t);
    let new = split_id(p, id);
    let cut = cut_of(p, id, t);
    let length = split_length(p, spot_of(p, id), found(p, id)->0);
    lemma_split_ids_ok(p, id, t);
    lemma_spot(p, id);
    match spot_of(p, id) {
        Spot::Layer { scene, index } => {
            lemma_split_clips_ok(p.scenes[scene].layers, index, cut, length, new, p.defs);
            assert forall|i: int| 0 <= i < q.scenes.len() implies scene_fault(
                #[trigger] q.scenes[i],
            ) is None && clips_ok(q.scenes[i].layers, q.defs) by {
                assert(scene_fault(p.scenes[i]) is None);
            }
        },
        Spot::Overlay { track, index } => {
            lemma_split_clips_ok(p.overlays[track].clips, index, cut, length, new, p.defs);
            assert forall|i: int| 0 <= i < q.overlays.len() implies clips_ok(
                (#[trigger] q.overlays[i]).clips,
                q.defs,
            ) by {
                assert(clips_ok(p.overlays[i].clips, p.defs));
            }
        },
        Spot::Absent => {},
    }
}

/// A split keeps ids unique.
proof fn lemma_split_ids_ok(p: ProjectView, id: Seq<char>, t: int)
    requires
        ids_ok(all_ids(p)),
        found(p, id) is Some,
        !all_ids(p).contains(split_id(p, id)),
    ensures
        ids_ok(all_ids(split_project(p, id, t))),
{
    let q = split_project(p, id, t);
    let new = split_id(p, id);
    let cut = cut_of(p, id, t);
    let length = split_length(p, spot_of(p, id), found(p, id)->0);
    reveal_strlit("-");
    lemma_spot(p, id);
    match spot_of(p, id) {
        Spot::Layer { scene, index } => {
            lemma_split_ids(p.scenes[scene].layers, index, cut, length, new);
            lemma_scene_swapped(p, q, scene);
        },
        Spot::Overlay { track, index } => {
            lemma_split_ids(p.overlays[track].clips, index, cut, length, new);
            lemma_track_swapped(p, q, track);
        },
        Spot::Absent => {},
    }
    lemma_inserted_ok(all_ids(p), all_ids(q), new);
}

/// When a clip starts on the timeline: a clip of a scene is timed from where
/// the scene begins.
pub open spec fn timeline_start(p: ProjectView, id: Seq<char>) -> int {
    let start = found(p, id)->0.start;
    match spot_of(p, id) {
        Spot::Layer { scene, index } => offset_of(p.scenes, scene) + start,
        _ => start,
    }
}

/// A clip can be split where both halves get more than a twentieth of a second,
/// and nowhere else. A clip without a duration reaches to the end of its scene.
pub proof fn law_split_where(p: ProjectView, id: Seq<char>, t: int)
    requires
        found(p, id) is Some,
    ensures
        ({
            let c = found(p, id)->0;
            let from = timeline_start(p, id);
            let scene_end = match spot_of(p, id) {
                Spot::Layer { scene, index } => Some(
                    offset_of(p.scenes, scene) + p.scenes[scene].duration,
                ),
                _ => None,
            };
            let to = if c.duration > 0 {
                Some(from + c.duration)
            } else {
                scene_end
            };
            to matches Some(to) ==> (cuts_inside(p, id, t) <==> t - from > 50_000_000 && to
                - t > 50_000_000)
        }),
{
}

/// The time into its media at which a clip starts.
pub open spec fn media_offset(e: ElementView) -> int {
    match e {
        ElementView::Video { src, offset, volume, rate } => offset,
        ElementView::Audio { src, offset, volume, rate } => offset,
        _ => 0,
    }
}

pub open spec fn plays_media(e: ElementView) -> bool {
    e is Video || e is Audio
}

/// The halves of a split clip take up the time of the whole, without a gap:
/// the second starts where the first ends, in time and in its media; every
/// other clip stays as it is. The cut stands at the time it was asked for, and
/// both halves look and sound as the whole did.
pub proof fn law_split_parts(p: ProjectView, id: Seq<char>, t: int, other: Seq<char>)
    requires
        found(p, id) is Some,
        found(p, split_id(p, id)) is None,
        cuts_inside(p, id, t),
        other != id,
        other != split_id(p, id),
    ensures
        ({
            let q = split_project(p, id, t);
            let whole = found(p, id)->0;
            let l = found(q, id);
            let r = found(q, split_id(p, id));
            &&& l is Some && r is Some
            &&& l->0.start == whole.start
            &&& r->0.start == l->0.start + l->0.duration
            &&& l->0.duration + r->0.duration == split_length(p, spot_of(p, id), whole)
            &&& timeline_start(p, id) + l->0.duration == t
            &&& l->0.element == whole.element
            &&& l->0.transform == whole.transform && l->0.effects == whole.effects
            &&& r->0.transform == whole.transform && r->0.effects == whole.effects
            &&& plays_media(whole.element) ==> media_offset(r->0.element) == media_offset(
                l->0.element,
            ) + l->0.duration
            &&& match whole.element {
                ElementView::Video { src, offset, volume, rate } => r->0.element
                    == (ElementView::Video { src, offset: offset + l->0.duration, volume, rate }),
                ElementView::Audio { src, offset, volume, rate } => r->0.element
                    == (ElementView::Audio { src, offset: offset + l->0.duration, volume, rate }),
                e => r->0.element == e,
            }
            &&& found(q, other) == found(p, other)
        }),
{
    let q = split_project(p, id, t);
    let new = split_id(p, id);
    let cut = cut_of(p, id, t);
    let c = found(p, id)->0;
    let length = split_length(p, spot_of(p, id), c);
    lemma_split_spots(p, id, t);
    lemma_spot(p, id);
    match spot_of(p, id) {
        Spot::Layer { scene, index } => {
            let clips = p.scenes[scene].layers;
            lemma_first_update(clips, index, left_part(c, cut), other);
            lemma_first_insert(
                clips.update(index, left_part(c, cut)),
                index + 1,
                right_part(c, cut, length, new),
                other,
            );
            lemma_found_layers(p, scene, split_list(clips, index, cut, length, new), other);
        },
        Spot::Overlay { track, index } => {
            let clips = p.overlays[track].clips;
            lemma_first_update(clips, index, left_part(c, cut), other);
            lemma_first_insert(
                clips.update(index, left_part(c, cut)),
                index + 1,
                right_part(c, cut, length, new),
                other,
            );
            lemma_found_track(p, track, split_list(clips, index, cut, length, new), other);
        },
        Spot::Absent => {},
    }
}

/// A tween that a split falls into is divided without a jump: the first half
/// ends, and the second begins, with the value that the tween has there.
pub proof fn law_split_tween(a: AnimView, cut: int)
    requires
        a.keyframes.len() == 0,
        a.start < cut < a.end,
    ensures
        anim_before(a, cut) is Some,
        anim_after(a, cut) is Some,
        anim_before(a, cut)->0.from == a.from,
        anim_before(a, cut)->0.start == a.start,
        anim_before(a, cut)->0.to == tween_at(a, cut),
        anim_before(a, cut)->0.end == cut,
        anim_after(a, cut)->0.from == tween_at(a, cut),
        anim_after(a, cut)->0.start == 0,
        anim_after(a, cut)->0.to == a.to,
        anim_after(a, cut)->0.end == a.end - cut,
{
}

/// The keyframes timed from `by` earlier.
pub open spec fn timed_from(keyframes: Seq<KeyframeView>, by: int) -> Seq<KeyframeView> {
    keyframes.map_values(|k: KeyframeView| KeyframeView { t: k.t + by, ..k })
}

/// An animation that has a share in the time before `cut`: two keyframes by
/// then, or a window that has begun.
pub open spec fn begun(cut: int) -> spec_fn(AnimView) -> bool {
    |a: AnimView|
        if a.keyframes.len() > 0 {
            a.keyframes.filter(|k: KeyframeView| k.t <= cut).len() >= 2
        } else {
            a.start < cut
        }
}

/// An animation that has a share in the time after `cut`: two keyframes from
/// then on, or a window that has not ended.
pub open spec fn unfinished(cut: int) -> spec_fn(AnimView) -> bool {
    |a: AnimView|
        if a.keyframes.len() > 0 {
            a.keyframes.filter(|k: KeyframeView| k.t >= cut).len() >= 2
        } else {
            a.end > cut
        }
}

/// `b` shows what `a` does up to `cut`.
pub open spec fn shows_until(a: AnimView, b: AnimView, cut: int) -> bool {
    &&& b.property == a.property && b.easing == a.easing
    &&& b.keyframes == a.keyframes.filter(|k: KeyframeView| k.t <= cut)
    &&& b.start == a.start && b.from == a.from
    &&& a.keyframes.len() > 0 || a.end <= cut ==> b.end == a.end && b.to == a.to
    &&& a.keyframes.len() == 0 && a.end > cut ==> b.end == cut && b.to == tween_at(a, cut)
}

/// `b`, begun at `cut`, shows what `a` does from then on.
pub open spec fn shows_from(a: AnimView, b: AnimView, cut: int) -> bool {
    &&& b.property == a.property && b.easing == a.easing && b.to == a.to
    &&& timed_from(b.keyframes, cut) == a.keyframes.filter(|k: KeyframeView| k.t >= cut)
    &&& a.keyframes.len() > 0 ==> b.start == a.start && b.end == a.end && b.from == a.from
    &&& a.keyframes.len() == 0 ==> b.end + cut == a.end
    &&& a.keyframes.len() == 0 && a.start >= cut ==> b.start + cut == a.start && b.from == a.from
    &&& a.keyframes.len() == 0 && a.start < cut ==> b.start == 0 && b.from == tween_at(a, cut)
}

proof fn lemma_keyframes_before(k: Seq<KeyframeView>, cut: int)
    ensures
        collected(k, keyframe_before(cut)) == k.filter(|x: KeyframeView| x.t <= cut),
{
    let keep = |x: KeyframeView| x.t <= cut;
    lemma_collected_filter(k, keyframe_before(cut), keep);
    assert(collected(k, keyframe_before(cut)) =~= k.filter(keep));
}

proof fn lemma_keyframes_after(k: Seq<KeyframeView>, cut: int)
    ensures
        timed_from(collected(k, keyframe_after(cut)), cut) == k.filter(
            |x: KeyframeView| x.t >= cut,
        ),
{
    let keep = |x: KeyframeView| x.t >= cut;
    lemma_collected_filter(k, keyframe_after(cut), keep);
    assert(timed_from(collected(k, keyframe_after(cut)), cut) =~= k.filter(keep));
}

/// A split divides the animations between the halves: each half has those that
/// have a share in its time, in their order. The keyframes up to the cut stay
/// in the first half where they were, and those from the cut on are met in the
/// second half at the time, and with the value and easing, that they had in
/// the whole; a tween that straddles the cut is divided there.
pub proof fn law_split_animations(p: ProjectView, id: Seq<char>, t: int)
    requires
        found(p, id) is Some,
        found(p, split_id(p, id)) is None,
    ensures
        ({
            let q = split_project(p, id, t);
            let whole = found(p, id)->0.animations;
            let l = found(q, id)->0;
            let r = found(q, split_id(p, id))->0;
            let early = whole.filter(begun(l.duration));
            let late = whole.filter(unfinished(l.duration));
            &&& l.animations.len() == early.len()
            &&& forall|j: int|
                0 <= j < early.len() ==> shows_until(early[j], #[trigger] l.animations[j], l.duration)
            &&& r.animations.len() == late.len()
            &&& forall|j: int|
                0 <= j < late.len() ==> shows_from(late[j], #[trigger] r.animations[j], l.duration)
        }),
{
    let c = found(p, id)->0;
    let cut = cut_of(p, id, t);
    lemma_split_spots(p, id, t);
    assert forall|a: AnimView| #![trigger anims_before(cut)(a)] #![trigger begun(cut)(a)] begun(
        cut,
    )(a) <==> anims_before(cut)(a) is Some by {
        lemma_keyframes_before(a.keyframes, cut);
    }
    assert forall|a: AnimView|
        #![trigger anims_after(cut)(a)]
        #![trigger unfinished(cut)(a)]
        unfinished(cut)(a) <==> anims_after(cut)(a) is Some by {
        lemma_keyframes_after(a.keyframes, cut);
    }
    lemma_collected_filter(c.animations, anims_before(cut), begun(cut));
    lemma_collected_filter(c.animations, anims_after(cut), unfinished(cut));
    let left = collected(c.animations, anims_before(cut));
    let right = collected(c.animations, anims_after(cut));
    assert forall|j: int| 0 <= j < left.len() implies shows_until(
        c.animations.filter(begun(cut))[j],
        #[trigger] left[j],
        cut,
    ) by {
        let a = c.animations.filter(begun(cut))[j];
        assert(anims_before(cut)(a) == Some(left[j]));
        lemma_keyframes_before(a.keyframes, cut);
        lemma_no_keyframes(a.keyframes, |k: KeyframeView| k.t <= cut);
    }
    assert forall|j: int| 0 <= j < right.len() implies shows_from(
        c.animations.filter(unfinished(cut))[j],
        #[trigger] right[j],
        cut,
    ) by {
        let a = c.animations.filter(unfinished(cut))[j];
        assert(anims_after(cut)(a) == Some(right[j]));
        lemma_keyframes_after(a.keyframes, cut);
        lemma_no_keyframes(a.keyframes, |k: KeyframeView| k.t >= cut);
        if a.keyframes.len() == 0 {
            assert(timed_from(right[j].keyframes, cut) =~= a.keyframes);
        }
    }
}

proof fn lemma_no_keyframes(k: Seq<KeyframeView>, keep: spec_fn(KeyframeView) -> bool)
    ensures
        k.len() == 0 ==> k.filter(keep) == k,
{
    reveal(Seq::filter);
}

/// No keyframe from the cut on is lost or moved by a split: if it is not the
/// only one of its animation, the second half has it, timed from the cut.
pub proof fn law_split_keyframe(p: ProjectView, id: Seq<char>, t: int, m: int, i: int, n: int)
    requires
        found(p, id) is Some,
        found(p, split_id(p, id)) is None,
        0 <= m < found(p, id)->0.animations.len(),
        ({
            let k = found(p, id)->0.animations[m].keyframes;
            let l = found(split_project(p, id, t), id)->0;
            &&& 0 <= i < k.len() && 0 <= n < k.len() && i != n
            &&& k[i].t >= l.duration && k[n].t >= l.duration
        }),
    ensures
        ({
            let q = split_project(p, id, t);
            let a = found(p, id)->0.animations[m];
            let k = a.keyframes[i];
            let l = found(q, id)->0;
            let r = found(q, split_id(p, id))->0;
            exists|j: int|
                0 <= j < r.animations.len() && (#[trigger] r.animations[j]).property == a.property
                    && r.animations[j].keyframes.contains(
                    KeyframeView { t: k.t - l.duration, ..k },
                )
        }),
{
    let q = split_project(p, id, t);
    let c = found(p, id)->0;
    let a = c.animations[m];
    let cut = found(q, id)->0.duration;
    let r = found(q, split_id(p, id))->0;
    law_split_animations(p, id, t);
    let keep = |k: KeyframeView| k.t >= cut;
    lemma_two_kept(a.keyframes, keep, i, n);
    assert(unfinished(cut)(a));
    c.animations.lemma_filter_contains(unfinished(cut), m);
    let late = c.animations.filter(unfinished(cut));
    let j = choose|j: int| 0 <= j < late.len() && late[j] == a;
    let b = r.animations[j];
    assert(shows_from(late[j], b, cut));
    a.keyframes.lemma_filter_contains(keep, i);
    let kept = a.keyframes.filter(keep);
    let x = choose|x: int| 0 <= x < kept.len() && kept[x] == a.keyframes[i];
    assert(timed_from(b.keyframes, cut)[x] == kept[x]);
    assert(b.keyframes[x] == (KeyframeView { t: a.keyframes[i].t - cut, ..a.keyframes[i] }));
}

proof fn lemma_two_kept(
    k: Seq<KeyframeView>,
    keep: spec_fn(KeyframeView) -> bool,
    i: int,
    n: int,
)
    requires
        0 <= i < k.len(),
        0 <= n < k.len(),
        i != n,
        keep(k[i]),
        keep(k[n]),
    ensures
        k.filter(keep).len() >= 2,
    decreases k.len(),
{
    reveal(Seq::filter);
    let rest = k.drop_last();
    if i < rest.len() && n < rest.len() {
        lemma_two_kept(rest, keep, i, n);
    } else {
        let other = if i < rest.len() {
            i
        } else {
            n
        };
        rest.lemma_filter_contains(keep, other);
        assert(rest.filter(keep).len() >= 1);
    }
}

/// What a tween shows: its first value until its window begins, its last from
/// the end of the window on, and between them the eased share of the way.
pub proof fn law_tween_value(a: AnimView, t: int)
    requires
        a.start < a.end,
    ensures
        t <= a.start ==> tween_at(a, t) == a.from,
        t >= a.end ==> tween_at(a, t) == a.to,
        ({
            let e = eased(a.easing, progress(t, a.start, a.end));
            0 <= (a.to - a.from) * e - (tween_at(a, t) - a.from) * UNIT < UNIT
        }),
{
    law_progress(t, a.start, a.end);
    law_ease_endpoints(a.easing);
    law_mix_endpoints(a.from, a.to);
    law_mix_share(a.from, a.to, eased(a.easing, progress(t, a.start, a.end)));
}

/// Halves of a split clip show a tween as the whole did: exactly so if the
/// tween lies on one side of the cut, and at the cut and from its end on if it
/// straddles the cut.
pub proof fn law_split_plays(a: AnimView, b: AnimView, cut: int, t: int)
    requires
        a.keyframes.len() == 0,
        a.start < a.end,
        t >= 0,
    ensures
        shows_from(a, b, cut) && a.start >= cut ==> tween_at(b, t) == tween_at(a, t + cut),
        shows_from(a, b, cut) && a.start < cut < a.end ==> tween_at(b, 0) == tween_at(a, cut) && (t
            + cut >= a.end ==> tween_at(b, t) == tween_at(a, t + cut)),
        shows_until(a, b, cut) && a.end <= cut ==> tween_at(b, t) == tween_at(a, t),
        shows_until(a, b, cut) && a.start < cut < a.end ==> tween_at(b, cut) == tween_at(a, cut) && (
        t <= a.start ==> tween_at(b, t) == tween_at(a, t)),
{
    law_tween_value(a, t);
    law_tween_value(a, t + cut);
    if b.start < b.end {
        law_tween_value(b, 0);
        law_tween_value(b, t);
        law_tween_value(b, cut);
    }
}

proof fn lemma_absent(p: ProjectView, x: Seq<char>)
    requires
        !all_ids(p).contains(x),
    ensures
        found(p, x) is None,
{
    if found(p, x) is Some {
        lemma_found_id(p, x);
    }
}

/// A clip taken out of a document with unique ids is gone, and every other
/// clip is still there.
proof fn lemma_lifted(p: ProjectView, id: Seq<char>, other: Seq<char>)
    requires
        ids_ok(all_ids(p)),
        found(p, id) is Some,
        other != id,
    ensures
        ids_ok(all_ids(lifted(p, id))),
        inserted(all_ids(lifted(p, id)), all_ids(p), id),
        !all_ids(lifted(p, id)).contains(id),
        found(lifted(p, id), id) is None,
        found(lifted(p, id), other) == found(p, other),
{
    let q = lifted(p, id);
    lemma_spot(p, id);
    match spot_of(p, id) {
        Spot::Layer { scene, index } => {
            let clips = p.scenes[scene].layers;
            lemma_clip_out(clips, index);
            lemma_scene_swapped(q, p, scene);
            lemma_first_remove(clips, index, other);
            lemma_found_layers(p, scene, clips.remove(index), other);
        },
        Spot::Overlay { track, index } => {
            let clips = p.overlays[track].clips;
            lemma_clip_out(clips, index);
            lemma_track_swapped(q, p, track);
            lemma_first_remove(clips, index, other);
            lemma_found_track(p, track, clips.remove(index), other);
        },
        Spot::Absent => {},
    }
    lemma_taken_out(all_ids(p), all_ids(q), id);
    lemma_absent(q, id);
}

proof fn lemma_removed_ok(clips: Seq<ClipView>, k: int, defs: Seq<(Seq<char>, CompDefView)>)
    requires
        clips_ok(clips, defs),
        0 <= k < clips.len(),
    ensures
        clips_ok(clips.remove(k), defs),
{
    let after = clips.remove(k);
    assert forall|i: int| 0 <= i < after.len() implies clip_ok(#[trigger] after[i], defs) by {
        if i < k {
            assert(after[i] == clips[i]);
        } else {
            assert(after[i] == clips[i + 1]);
        }
    }
}

proof fn lemma_pulled(clips: Seq<ClipView>, from: int, by: int, x: Seq<char>)
    ensures
        clip_ids(pulled(clips, from, by), 0) == clip_ids(clips, 0),
        first(pulled(clips, from, by), x) == (match first(clips, x) {
            Some(c) => Some(pulled_clip(c, from, by)),
            None => None,
        }),
{
    let after = pulled(clips, from, by);
    lemma_same_ids(after, clips);
    lemma_position(clips, x);
    lemma_position(after, x);
    let k = position(clips, x);
    if holds(clips, x) {
        assert(after[k].id == x);
        assert forall|j: int| 0 <= j < k implies (#[trigger] after[j]).id != x by {
            assert(clips[j].id != x);
        }
        lemma_position_is(after, x, k);
    } else if holds(after, x) {
        assert(clips[position(after, x)].id == x);
    }
}

/// A clip moved `by` earlier, if it starts at or after `from`.
pub open spec fn pulled_clip(c: ClipView, from: int, by: int) -> ClipView {
    if c.start >= from {
        ClipView { start: max(c.start - by, 0), ..c }
    } else {
        c
    }
}

/// With unique ids, only the list where a clip is found holds its id.
proof fn lemma_one_place(p: ProjectView, x: Seq<char>)
    requires
        ids_ok(all_ids(p)),
        found(p, x) is Some,
    ensures
        match spot_of(p, x) {
            Spot::Layer { scene, index } => {
                &&& forall|j: int|
                    0 <= j < p.scenes.len() && j != scene ==> !holds(
                        (#[trigger] p.scenes[j]).layers,
                        x,
                    )
                &&& forall|j: int|
                    0 <= j < p.overlays.len() ==> !holds((#[trigger] p.overlays[j]).clips, x)
                &&& !holds(p.scenes[scene].layers.remove(index), x)
            },
            Spot::Overlay { track, index } => {
                &&& forall|j: int|
                    0 <= j < p.overlays.len() && j != track ==> !holds(
                        (#[trigger] p.overlays[j]).clips,
                        x,
                    )
                &&& !holds(p.overlays[track].clips.remove(index), x)
            },
            Spot::Absent => true,
        },
{
    let q = lifted(p, x);
    lemma_lifted(p, x, x + x + seq![' ']);
    lemma_spot(p, x);
    lemma_spot(q, x);
    match spot_of(p, x) {
        Spot::Layer { scene, index } => {
            assert forall|j: int| 0 <= j < p.scenes.len() && j != scene implies !holds(
                (#[trigger] p.scenes[j]).layers,
                x,
            ) by {
                assert(q.scenes[j] == p.scenes[j]);
            }
            assert(q.scenes[scene].layers == p.scenes[scene].layers.remove(index));
        },
        Spot::Overlay { track, index } => {
            assert forall|j: int| 0 <= j < p.overlays.len() && j != track implies !holds(
                (#[trigger] p.overlays[j]).clips,
                x,
            ) by {
                assert(q.overlays[j] == p.overlays[j]);
            }
            assert(q.overlays[track].clips == p.overlays[track].clips.remove(index));
        },
        Spot::Absent => {},
    }
}

/// The ids of two clips of one overlay track.
pub open spec fn share_track(p: ProjectView, a: Seq<char>, b: Seq<char>) -> bool {
    spot_of(p, a) is Overlay && spot_of(p, b) is Overlay && spot_of(p, a)->Overlay_track
        == spot_of(p, b)->Overlay_track
}

/// A ripple delete takes the clip out of a document. The clips on the same
/// overlay track that start no earlier move up by its length; all others stay
/// as they are.
pub proof fn law_rippled(p: ProjectView, id: Seq<char>, other: Seq<char>)
    requires
        ids_ok(all_ids(p)),
        found(p, id) is Some,
        other != id,
    ensures
        ids_ok(all_ids(rippled(p, id))),
        found(rippled(p, id), id) is None,
        found(rippled(p, id), other) == (if share_track(p, id, other) {
            Some(
                pulled_clip(
                    found(p, other)->0,
                    found(p, id)->0.start,
                    max(found(p, id)->0.duration, 0),
                ),
            )
        } else {
            found(p, other)
        }),
{
    let q = lifted(p, id);
    let r = rippled(p, id);
    lemma_lifted(p, id, other);
    lemma_one_place(p, id);
    lemma_spot(p, id);
    lemma_spot(p, other);
    crate::timeline::lemma_scene_position(p.scenes, id);
    crate::timeline::lemma_track_position(p.overlays, id);
    match spot_of(p, id) {
        Spot::Layer { scene, index } => {
            lemma_scene_swapped(q, r, scene);
            lemma_found_first(q, r, id);
            lemma_found_first(q, r, other);
        },
        Spot::Overlay { track, index } => {
            let clips = p.overlays[track].clips;
            let rest = clips.remove(index);
            let gone = found(p, id)->0;
            let by = max(gone.duration, 0);
            lemma_pulled(rest, gone.start, by, id);
            lemma_pulled(rest, gone.start, by, other);
            lemma_track_swapped(q, r, track);
            lemma_found_first(q, r, id);
            lemma_first_remove(clips, index, other);
            if found(p, other) is Some {
                lemma_one_place(p, other);
            }
            if share_track(p, id, other) {
                assert(first(rest, other) == found(p, other));
                lemma_position(r.overlays[track].clips, other);
                lemma_spot_overlay(r, other, track, position(r.overlays[track].clips, other));
            } else {
                assert(first(clips, other) is None);
                lemma_found_first(p, r, other);
            }
        },
        Spot::Absent => {},
    }
}

/// A ripple delete leaves a valid document, as long as the scene of the clip
/// stays longer than its transition.
pub proof fn law_rippled_valid(p: ProjectView, id: Seq<char>)
    requires
        valid(p),
        found(p, id) is Some,
        match spot_of(p, id) {
            Spot::Layer { scene, index } => match p.scenes[scene].transition {
                Some(t) => t.duration < rippled(p, id).scenes[scene].duration,
                None => true,
            },
            _ => true,
        },
    ensures
        valid(rippled(p, id)),
{
    let r = rippled(p, id);
    law_rippled(p, id, id + id + seq![' ']);
    lemma_one_place(p, id);
    lemma_spot(p, id);
    crate::timeline::lemma_scene_position(p.scenes, id);
    crate::timeline::lemma_track_position(p.overlays, id);
    match spot_of(p, id) {
        Spot::Layer { scene, index } => {
            lemma_removed_ok(p.scenes[scene].layers, index, p.defs);
            lemma_content_end(p.scenes[scene].layers.remove(index));
            assert forall|i: int| 0 <= i < r.scenes.len() implies scene_fault(
                #[trigger] r.scenes[i],
            ) is None && clips_ok(r.scenes[i].layers, r.defs) by {
                assert(scene_fault(p.scenes[i]) is None);
            }
        },
        Spot::Overlay { track, index } => {
            let rest = p.overlays[track].clips.remove(index);
            lemma_removed_ok(p.overlays[track].clips, index, p.defs);
            assert forall|i: int| 0 <= i < r.overlays.len() implies clips_ok(
                (#[trigger] r.overlays[i]).clips,
                r.defs,
            ) by {
                assert(clips_ok(p.overlays[i].clips, p.defs));
                if i == track {
                    let after = r.overlays[i].clips;
                    assert forall|k: int| 0 <= k < after.len() implies clip_ok(
                        #[trigger] after[k],
                        r.defs,
                    ) by {
                        assert(clip_ok(rest[k], p.defs));
                    }
                }
            }
        },
        Spot::Absent => {},
    }
}

proof fn lemma_content_end(clips: Seq<ClipView>)
    ensures
        content_end_all(clips) >= TENTH,
    decreases clips.len(),
{
    if clips.len() > 0 {
        lemma_content_end(clips.drop_last());
    }
}

/// Where no id stands in the way, detaching the sound of a video clip leaves
/// a valid document: the clip is silent, a clip of its own plays the same
/// sound at the same time, and every other clip stays as it is.
pub proof fn law_detached(p: ProjectView, id: Seq<char>, other: Seq<char>)
    requires
        valid(p),
        found(p, id) is Some,
        found(p, id)->0.element is Video,
        !all_ids(p).contains(id + "-audio"@),
        track_index(p.overlays, "detached-audio"@) == p.overlays.len() ==> !all_ids(p).contains(
            "detached-audio"@,
        ) && id + "-audio"@ != "detached-audio"@,
        other != id,
        other != id + "-audio"@,
    ensures
        valid(detached(p, id)),
        found(detached(p, id), id) == Some(silenced(found(p, id)->0)),
        found(detached(p, id), id + "-audio"@) == Some(
            audio_of(found(p, id)->0, absolute_start(p, id)),
        ),
        found(detached(p, id), other) == found(p, other),
{
    let c = found(p, id)->0;
    let sound = audio_of(c, absolute_start(p, id));
    let new = id + "-audio"@;
    let f = |x: ClipView| silenced(x);
    let m = edited(p, id, f);
    let q = detached(p, id);
    reveal_strlit("-audio");
    reveal_strlit("detached-audio");
    assert(new.len() != id.len());
    lemma_found_ok(p, id);
    law_edited(p, id, f, other);
    law_edited(p, id, f, new);
    lemma_absent(p, new);
    crate::edit::lemma_track_index(p.overlays, "detached-audio"@);
    assert(track_index(m.overlays, "detached-audio"@) == track_index(
        p.overlays,
        "detached-audio"@,
    )) by {
        lemma_spot(p, id);
        lemma_same_track_index(p.overlays, m.overlays, "detached-audio"@);
    }
    assert(clip_ok(sound, p.defs));
    let t = track_index(m.overlays, "detached-audio"@);
    lemma_spot(p, id);
    assert(m.overlays.len() == p.overlays.len());
    if t < m.overlays.len() {
        let clips = m.overlays[t].clips;
        assert(clips.push(sound) =~= clips.insert(clips.len() as int, sound));
        lemma_clip_in(clips, clips.len() as int, sound);
        lemma_track_swapped(m, q, t);
        lemma_inserted_ok(all_ids(m), all_ids(q), new);
        lemma_first_insert(clips, clips.len() as int, sound, id);
        lemma_first_insert(clips, clips.len() as int, sound, other);
        lemma_found_track(m, t, clips.push(sound), id);
        lemma_found_track(m, t, clips.push(sound), other);
        lemma_spot(m, new);
        lemma_position(clips, new);
        lemma_position(clips.push(sound), new);
        assert(clips.push(sound)[clips.len() as int].id == new);
        assert forall|j: int| 0 <= j < clips.len() implies (#[trigger] clips.push(sound)[j]).id
            != new by {
            assert(clips[j].id != new);
        }
        lemma_position_is(clips.push(sound), new, clips.len() as int);
        assert forall|j: int| 0 <= j < t implies !holds((#[trigger] q.overlays[j]).clips, new) by {
            assert(q.overlays[j] == m.overlays[j]);
        }
        lemma_spot_overlay(q, new, t, clips.len() as int);
        assert forall|i: int| 0 <= i < q.overlays.len() implies clips_ok(
            (#[trigger] q.overlays[i]).clips,
            q.defs,
        ) by {
            assert(clips_ok(m.overlays[i].clips, m.defs));
        }
    } else {
        lemma_track_added(m, q, sound, id);
        lemma_track_added(m, q, sound, other);
        lemma_track_added(m, q, sound, new);
        assert forall|i: int| 0 <= i < q.overlays.len() implies clips_ok(
            (#[trigger] q.overlays[i]).clips,
            q.defs,
        ) by {
            if i < m.overlays.len() {
                assert(clips_ok(m.overlays[i].clips, m.defs));
            }
        }
    }
    assert forall|i: int| 0 <= i < q.scenes.len() implies scene_fault(#[trigger] q.scenes[i]) is None
        && clips_ok(q.scenes[i].layers, q.defs) by {
        assert(scene_fault(m.scenes[i]) is None);
    }
}

/// Every clip of a valid document is sound.
proof fn lemma_found_ok(p: ProjectView, id: Seq<char>)
    requires
        valid(p),
        found(p, id) is Some,
    ensures
        clip_ok(found(p, id)->0, p.defs),
        found(p, id)->0.id == id,
        id.len() > 0,
{
    lemma_spot(p, id);
    match spot_of(p, id) {
        Spot::Layer { scene, index } => {
            assert(scene_fault(p.scenes[scene]) is None);
            assert(clips_ok(p.scenes[scene].layers, p.defs));
        },
        Spot::Overlay { track, index } => {
            assert(clips_ok(p.overlays[track].clips, p.defs));
        },
        Spot::Absent => {},
    }
    lemma_found_id(p, id);
}

/// Editing one clip, under the id it has, changes that clip alone: it is found
/// as edited, every other clip stays as it is, and so do all ids; the document
/// stays valid if the clip does.
pub proof fn law_edited(
    p: ProjectView,
    id: Seq<char>,
    f: spec_fn(ClipView) -> ClipView,
    other: Seq<char>,
)
    requires
        found(p, id) is Some,
        f(found(p, id)->0).id == id,
        other != id,
    ensures
        all_ids(edited(p, id, f)) == all_ids(p),
        spot_of(edited(p, id, f), id) == spot_of(p, id),
        found(edited(p, id, f), id) == Some(f(found(p, id)->0)),
        found(edited(p, id, f), other) == found(p, other),
        valid(p) && clip_ok(f(found(p, id)->0), p.defs) ==> valid(edited(p, id, f)),
{
    let s = f(found(p, id)->0);
    let q = edited(p, id, f);
    lemma_spot(p, id);
    match spot_of(p, id) {
        Spot::Layer { scene, index } => {
            let clips = p.scenes[scene].layers;
            let after = clips.update(index, s);
            lemma_same_ids(clips, after);
            lemma_scene_swapped(p, q, scene);
            lemma_first_update(clips, index, s, other);
            lemma_found_layers(p, scene, after, other);
            assert forall|j: int| 0 <= j < index implies (#[trigger] after[j]).id != id by {
                lemma_position(clips, id);
                assert(clips[j].id != id);
            }
            lemma_position_is(after, id, index);
            assert forall|j: int| 0 <= j < scene implies !holds(
                (#[trigger] q.scenes[j]).layers,
                id,
            ) by {
                assert(q.scenes[j] == p.scenes[j]);
            }
            lemma_spot_layer(q, id, scene, index);
            if valid(p) && clip_ok(s, p.defs) {
                assert forall|i: int| 0 <= i < q.scenes.len() implies scene_fault(
                    #[trigger] q.scenes[i],
                ) is None && clips_ok(q.scenes[i].layers, q.defs) by {
                    assert(scene_fault(p.scenes[i]) is None);
                }
            }
        },
        Spot::Overlay { track, index } => {
            let clips = p.overlays[track].clips;
            let after = clips.update(index, s);
            lemma_same_ids(clips, after);
            lemma_track_swapped(p, q, track);
            lemma_first_update(clips, index, s, other);
            lemma_found_track(p, track, after, other);
            assert forall|j: int| 0 <= j < index implies (#[trigger] after[j]).id != id by {
                lemma_position(clips, id);
                assert(clips[j].id != id);
            }
            lemma_position_is(after, id, index);
            assert forall|j: int| 0 <= j < track implies !holds(
                (#[trigger] q.overlays[j]).clips,
                id,
            ) by {
                assert(q.overlays[j] == p.overlays[j]);
            }
            lemma_spot_overlay(q, id, track, index);
            if valid(p) && clip_ok(s, p.defs) {
                assert forall|i: int| 0 <= i < q.overlays.len() implies clips_ok(
                    (#[trigger] q.overlays[i]).clips,
                    q.defs,
                ) by {
                    assert(clips_ok(p.overlays[i].clips, p.defs));
                }
            }
        },
        Spot::Absent => {},
    }
}

/// A scene layer dragged in time, or by its end, still fits in its scene: the
/// scene has grown as far as needed.
pub proof fn law_dragged_fits(p: ProjectView, id: Seq<char>, d: Drag)
    requires
        spot_of(p, id) is Layer,
        d.base is Some,
    ensures
        ({
            let s = spot_of(p, id)->Layer_scene;
            let q = trimmed_project(p, id, d);
            let r = shifted_project(p, id, d);
            &&& spot_of(q, id) == spot_of(p, id)
            &&& found(q, id)->0.duration == d.trimmed_length(p)
            &&& content_end_of(found(q, id)->0) <= q.scenes[s].duration
            &&& q.scenes[s].duration >= p.scenes[s].duration
            &&& spot_of(r, id) == spot_of(p, id)
            &&& found(r, id)->0.start == max(d.landing(p) - d.base->0, 0)
            &&& content_end_of(found(r, id)->0) <= r.scenes[s].duration
            &&& r.scenes[s].duration >= p.scenes[s].duration
        }),
{
    let f = |c: ClipView| ClipView { duration: d.trimmed_length(p), ..c };
    let start = max(d.landing(p) - d.base->0, 0);
    let g = |c: ClipView| ClipView { start, ..c };
    lemma_spot(p, id);
    lemma_dragged(p, id, f);
    lemma_dragged(p, id, g);
}

proof fn lemma_dragged(p: ProjectView, id: Seq<char>, f: spec_fn(ClipView) -> ClipView)
    requires
        spot_of(p, id) is Layer,
        f(found(p, id)->0).id == id,
    ensures
        ({
            let s = spot_of(p, id)->Layer_scene;
            let q = grown(edited(p, id, f), id);
            &&& spot_of(q, id) == spot_of(p, id)
            &&& found(q, id) == Some(f(found(p, id)->0))
            &&& content_end_of(f(found(p, id)->0)) <= q.scenes[s].duration
            &&& q.scenes[s].duration >= p.scenes[s].duration
        }),
{
    let m = edited(p, id, f);
    let q = grown(m, id);
    let s = spot_of(p, id)->Layer_scene;
    lemma_spot(p, id);
    law_edited(p, id, f, id + id + seq![' ']);
    lemma_spot(m, id);
    crate::timeline::lemma_scene_position(m.scenes, id);
    crate::timeline::law_grown_fits(m, id);
    assert forall|j: int| 0 <= j < s implies !holds((#[trigger] q.scenes[j]).layers, id) by {
        assert(q.scenes[j] == m.scenes[j]);
    }
    lemma_spot_layer(q, id, s, spot_of(m, id)->Layer_index);
}

proof fn lemma_earliest(clips: Seq<ClipView>)
    requires
        clips.len() > 0,
    ensures
        forall|i: int| 0 <= i < clips.len() ==> earliest(clips) <= (#[trigger] clips[i]).start,
        exists|i: int| 0 <= i < clips.len() && (#[trigger] clips[i]).start == earliest(clips),
    decreases clips.len(),
{
    if clips.len() > 1 {
        let rest = clips.drop_last();
        lemma_earliest(rest);
        let k = choose|k: int| 0 <= k < rest.len() && (#[trigger] rest[k]).start == earliest(rest);
        assert(clips[k].start == earliest(rest));
        assert(clips[clips.len() - 1] == clips.last());
        assert forall|i: int| 0 <= i < clips.len() implies earliest(clips) <= (
        #[trigger] clips[i]).start by {
            if i < rest.len() {
                assert(rest[i] == clips[i]);
            }
        }
    } else {
        assert(clips[0].start == earliest(clips));
    }
}

/// In a saved def the earliest clip starts at 0 and the others as long after
/// it as they did; the clips themselves stay where they are.
pub proof fn law_saved_def(p: ProjectView, ids: Seq<Seq<char>>, name: Seq<char>, i: int, j: int)
    requires
        0 <= i < selected(p, ids).len(),
        0 <= j < selected(p, ids).len(),
    ensures
        ({
            let q = with_def(p, ids, name);
            let from = selected(p, ids);
            let layers = lookup(q.defs, name)->0.layers;
            &&& q.scenes == p.scenes && q.overlays == p.overlays
            &&& lookup(q.defs, name) is Some
            &&& layers.len() == from.len()
            &&& layers[i].start >= 0
            &&& layers[i].start - layers[j].start == from[i].start - from[j].start
            &&& layers[i].id == from[i].id && layers[i].element == from[i].element
            &&& exists|k: int| 0 <= k < layers.len() && (#[trigger] layers[k]).start == 0
        }),
{
    let from = selected(p, ids);
    let def = crate::document::CompDefView { params: Seq::empty(), layers: from_zero(from) };
    lemma_earliest(from);
    crate::textmap::law_stored_lookup(p.defs, name, def, name);
    let k = choose|k: int| 0 <= k < from.len() && (#[trigger] from[k]).start == earliest(from);
    assert(def.layers[k].start == 0);
}

proof fn lemma_without_one(clips: Seq<ClipView>, k: int, id: Seq<char>)
    requires
        0 <= k < clips.len(),
        clips[k].id == id,
        !holds(clips.remove(k), id),
    ensures
        without(clips, id) == clips.remove(k),
    decreases clips.len(),
{
    let rest = clips.skip(1);
    let left = clips.remove(k);
    lemma_position(left, id);
    if k == 0 {
        assert(left =~= rest);
        lemma_without(rest, id);
    } else {
        assert(left[0] == clips[0]);
        if holds(rest.remove(k - 1), id) {
            lemma_position(rest.remove(k - 1), id);
            let j = position(rest.remove(k - 1), id);
            assert(left[j + 1] == rest.remove(k - 1)[j]);
            lemma_holds_at(left, id, j + 1);
        }
        if clips[0].id == id {
            lemma_holds_at(left, id, 0);
        }
        lemma_without_one(rest, k - 1, id);
        assert(seq![clips[0]] + rest.remove(k - 1) =~= left);
    }
}

proof fn lemma_holds_at(clips: Seq<ClipView>, id: Seq<char>, j: int)
    requires
        0 <= j < clips.len(),
        clips[j].id == id,
    ensures
        holds(clips, id),
{
    lemma_position(clips, id);
}

/// Removing a clip leaves a valid document.
pub proof fn law_removed_valid(p: ProjectView, id: Seq<char>)
    requires
        valid(p),
    ensures
        valid(removed(p, id)),
{
    let r = removed(p, id);
    if found(p, id) is None {
        law_removed_is_gone(p, id);
    } else {
        let q = lifted(p, id);
        lemma_lifted(p, id, id + id + seq![' ']);
        lemma_one_place(p, id);
        lemma_spot(p, id);
        match spot_of(p, id) {
            Spot::Layer { scene, index } => {
                lemma_without_one(p.scenes[scene].layers, index, id);
                lemma_removed_ok(p.scenes[scene].layers, index, p.defs);
            },
            Spot::Overlay { track, index } => {
                lemma_without_one(p.overlays[track].clips, index, id);
                lemma_removed_ok(p.overlays[track].clips, index, p.defs);
                crate::timeline::lemma_scene_position(p.scenes, id);
            },
            Spot::Absent => {},
        }
        assert forall|i: int| 0 <= i < p.scenes.len() implies #[trigger] r.scenes[i]
            == q.scenes[i] by {
            lemma_without(p.scenes[i].layers, id);
        }
        assert forall|i: int| 0 <= i < p.overlays.len() implies #[trigger] r.overlays[i]
            == q.overlays[i] by {
            lemma_without(p.overlays[i].clips, id);
        }
        assert(r.scenes =~= q.scenes);
        assert(r.overlays =~= q.overlays);
        assert forall|i: int| 0 <= i < r.scenes.len() implies scene_fault(#[trigger] r.scenes[i])
            is None && clips_ok(r.scenes[i].layers, r.defs) by {
            assert(scene_fault(p.scenes[i]) is None);
        }
        assert forall|i: int| 0 <= i < r.overlays.len() implies clips_ok(
            (#[trigger] r.overlays[i]).clips,
            r.defs,
        ) by {
            assert(clips_ok(p.overlays[i].clips, p.defs));
        }
    }
}

proof fn lemma_more_defs(
    clips: Seq<ClipView>,
    defs: Seq<(Seq<char>, CompDefView)>,
    name: Seq<char>,
    def: CompDefView,
)
    requires
        clips_ok(clips, defs),
    ensures
        clips_ok(clips, stored(defs, name, def)),
{
    assert forall|i: int| 0 <= i < clips.len() implies clip_ok(
        #[trigger] clips[i],
        stored(defs, name, def),
    ) by {
        assert(clip_ok(clips[i], defs));
        if let ElementView::CompRef { def: d, args } = clips[i].element {
            law_stored_lookup(defs, name, def, d);
        }
    }
}

proof fn lemma_new_def_acyclic(
    defs: Seq<(Seq<char>, CompDefView)>,
    name: Seq<char>,
    def: CompDefView,
)
    requires
        acyclic(defs),
        lookup(defs, name) is None,
        forall|i: int| 0 <= i < defs.len() ==> clips_ok((#[trigger] defs[i]).1.layers, defs),
        forall|i: int| 0 <= i < def.layers.len() ==> def_of(#[trigger] def.layers[i]) is None,
    ensures
        acyclic(stored(defs, name, def)),
{
    let more = stored(defs, name, def);
    law_stored_lookup(defs, name, def, name);
    assert forall|path: Seq<Seq<char>>| #[trigger] is_chain(more, path) implies
        path.no_duplicates() by {
        assert forall|i: int| 0 <= i < path.len() - 1 implies path[i] != name && path[i + 1] != name
            && linked(defs, path, i) by {
            assert(linked(more, path, i));
            law_stored_lookup(defs, name, def, path[i]);
            lemma_lookup_there(defs, path[i]);
            let d = lookup(more, path[i])->0;
            let k = choose|k: int|
                0 <= k < d.layers.len() && def_of(#[trigger] d.layers[k]) == Some(path[i + 1]);
            if path[i] == name {
                assert(def_of(def.layers[k]) is None);
            }
            let n = choose|n: int| 0 <= n < defs.len() && (#[trigger] defs[n]).1 == d;
            assert(clips_ok(defs[n].1.layers, defs));
            assert(clip_ok(d.layers[k], defs));
        }
        if path.len() > 1 {
            assert(linked(defs, path, 0));
            assert(is_chain(defs, path));
        }
    }
}

proof fn lemma_lookup_there(m: Seq<(Seq<char>, CompDefView)>, key: Seq<char>)
    ensures
        lookup(m, key) is Some ==> exists|i: int|
            0 <= i < m.len() && (#[trigger] m[i]).1 == lookup(m, key)->0,
    decreases m.len(),
{
    if m.len() > 0 && m[0].0 != key {
        let rest = m.skip(1);
        lemma_lookup_there(rest, key);
        if lookup(rest, key) is Some {
            let i = choose|i: int|
                0 <= i < rest.len() && (#[trigger] rest[i]).1 == lookup(rest, key)->0;
            assert(m[i + 1] == rest[i]);
        }
    } else if m.len() > 0 {
        assert(m[0].1 == lookup(m, key)->0);
    }
}

/// Saving clips as a def, where that is not refused, leaves a valid document.
pub proof fn law_saved_def_valid(p: ProjectView, ids: Seq<Seq<char>>, name: Seq<char>)
    requires
        valid(p),
        save_refusal(p, ids, name) is None,
    ensures
        valid(with_def(p, ids, name)),
{
    let q = with_def(p, ids, name);
    let from = selected(p, ids);
    let def = CompDefView { params: Seq::empty(), layers: from_zero(from) };
    lemma_earliest(from);
    assert forall|i: int| 0 <= i < def.layers.len() implies clip_ok(
        #[trigger] def.layers[i],
        p.defs,
    ) && def_of(def.layers[i]) is None by {
        lemma_collected_member(ids, finder(p), i);
        assert(!(from[i].element is CompRef));
        let k = choose|k: int| 0 <= k < ids.len() && finder(p)(#[trigger] ids[k]) == Some(from[i]);
        lemma_found_ok(p, ids[k]);
        assert(earliest(from) <= from[i].start);
    }
    lemma_more_defs(def.layers, p.defs, name, def);
    lemma_new_def_acyclic(p.defs, name, def);
    assert forall|i: int| 0 <= i < q.scenes.len() implies scene_fault(#[trigger] q.scenes[i])
        is None && clips_ok(q.scenes[i].layers, q.defs) by {
        assert(scene_fault(p.scenes[i]) is None);
        lemma_more_defs(p.scenes[i].layers, p.defs, name, def);
    }
    assert forall|i: int| 0 <= i < q.overlays.len() implies clips_ok(
        (#[trigger] q.overlays[i]).clips,
        q.defs,
    ) by {
        lemma_more_defs(p.overlays[i].clips, p.defs, name, def);
    }
    lemma_stored_values(p.defs, name, def);
    assert forall|i: int| 0 <= i < q.defs.len() implies clips_ok(
        (#[trigger] q.defs[i]).1.layers,
        q.defs,
    ) by {
        if q.defs[i] != (name, def) {
            let k = choose|k: int| 0 <= k < p.defs.len() && p.defs[k] == q.defs[i];
            assert(clips_ok(p.defs[k].1.layers, p.defs));
            lemma_more_defs(p.defs[k].1.layers, p.defs, name, def);
        }
    }
}

proof fn lemma_same_track_index(
    a: Seq<OverlayTrackView>,
    b: Seq<OverlayTrackView>,
    id: Seq<char>,
)
    requires
        a.len() == b.len(),
        forall|j: int| 0 <= j < a.len() ==> (#[trigger] b[j]).id == a[j].id,
    ensures
        track_index(a, id) == track_index(b, id),
    decreases a.len(),
{
    if a.len() > 0 && a[0].id != id {
        assert(b[0].id == a[0].id);
        assert forall|j: int| 0 <= j < a.skip(1).len() implies (#[trigger] b.skip(1)[j]).id
            == a.skip(1)[j].id by {
            assert(b[j + 1].id == a[j + 1].id);
        }
        lemma_same_track_index(a.skip(1), b.skip(1), id);
    } else if a.len() > 0 {
        assert(b[0].id == a[0].id);
    }
}

proof fn lemma_track_ids_push(tracks: Seq<OverlayTrackView>, t: OverlayTrackView, i: int)
    requires
        0 <= i <= tracks.len(),
    ensures
        track_ids(tracks.push(t), i) == track_ids(tracks, i) + (seq![t.id] + clip_ids(t.clips, 0)),
    decreases tracks.len() - i,
{
    let after = tracks.push(t);
    let tail = seq![t.id] + clip_ids(t.clips, 0);
    if i < tracks.len() {
        lemma_track_ids_push(tracks, t, i + 1);
        assert(after[i] == tracks[i]);
        assert(track_ids(after, i) =~= track_ids(tracks, i) + tail);
    } else {
        assert(after[i] == t);
        assert(track_ids(after, i + 1) =~= Seq::empty());
        assert(track_ids(after, i) =~= track_ids(tracks, i) + tail);
    }
}

/// A new track with one new clip.
proof fn lemma_track_added(m: ProjectView, q: ProjectView, sound: ClipView, x: Seq<char>)
    requires
        ids_ok(all_ids(m)),
        q == (ProjectView {
            overlays: m.overlays.push(crate::edit::detached_track(seq![sound])),
            ..m
        }),
        sound.id.len() > 0,
        !all_ids(m).contains(sound.id),
        !all_ids(m).contains("detached-audio"@),
        sound.id != "detached-audio"@,
    ensures
        ids_ok(all_ids(q)),
        x != sound.id ==> found(q, x) == found(m, x),
        x == sound.id ==> found(q, x) == Some(sound),
{
    let t = crate::edit::detached_track(seq![sound]);
    let n = m.overlays.len() as int;
    reveal_strlit("detached-audio");
    lemma_track_ids_push(m.overlays, t, 0);
    crate::integrity::lemma_clip_ids_are(seq![sound], 0);
    let a = all_ids(m);
    let b = all_ids(q);
    assert(b =~= a.push("detached-audio"@).push(sound.id)) by {
        assert(clip_ids(seq![sound], 0) =~= seq![sound.id]);
    }
    assert(ids_ok(b)) by {
        assert forall|i: int| 0 <= i < b.len() implies (#[trigger] b[i]).len() > 0 by {
            if i < a.len() {
                assert(b[i] == a[i]);
            }
        }
        assert forall|i: int, j: int| 0 <= i < b.len() && 0 <= j < b.len() && i != j implies b[i]
            != b[j] by {
            if i < a.len() {
                assert(b[i] == a[i]);
                assert(a.contains(a[i]));
            }
            if j < a.len() {
                assert(b[j] == a[j]);
                assert(a.contains(a[j]));
            }
        }
    }
    lemma_spot(m, x);
    lemma_absent(m, sound.id);
    lemma_spot(m, sound.id);
    lemma_position(seq![sound], x);
    assert(q.overlays[n] == t);
    assert forall|j: int| 0 <= j < n implies #[trigger] q.overlays[j] == m.overlays[j] by {}
    if x == sound.id {
        lemma_position_is(seq![sound], x, 0);
        lemma_spot_overlay(q, x, n, 0);
    } else {
        assert(!holds(seq![sound], x)) by {
            if holds(seq![sound], x) {
                assert(seq![sound][position(seq![sound], x)].id == x);
            }
        }
        lemma_spot(q, x);
        match spot_of(m, x) {
            Spot::Layer { scene, index } => {
                lemma_spot_layer(q, x, scene, index);
            },
            Spot::Overlay { track, index } => {
                assert(q.overlays[track] == m.overlays[track]);
                lemma_spot_overlay(q, x, track, index);
            },
            Spot::Absent => {
                match spot_of(q, x) {
                    Spot::Overlay { track, index } => {
                        assert(holds(q.overlays[track].clips, x));
                    },
                    _ => {},
                }
            },
        }
    }
}

/// Where no transition is longer than the scene before it, scenes follow each
/// other without a gap: each starts where its predecessor ends, less the
/// overlap of its transition, and the total is where the last one ends.
pub proof fn law_scenes_contiguous(scenes: Seq<SceneView>, i: int)
    requires
        0 <= i < scenes.len(),
        forall|k: int|
            0 < k < scenes.len() ==> (#[trigger] scenes[k]).overlap() <= scenes[k - 1].duration,
    ensures
        offset_of(scenes, 0) == 0,
        i > 0 ==> offset_of(scenes, i) == offset_of(scenes, i - 1) + scenes[i - 1].duration
            - scenes[i].overlap(),
        i == scenes.len() - 1 ==> total_duration(scenes) == offset_of(scenes, i)
            + scenes[i].duration,
{
    lemma_raw_positive(scenes, i);
    if i > 0 {
        lemma_raw_positive(scenes, i - 1);
    }
}

proof fn lemma_raw_positive(scenes: Seq<SceneView>, i: int)
    requires
        0 <= i < scenes.len(),
        forall|k: int|
            0 < k < scenes.len() ==> (#[trigger] scenes[k]).overlap() <= scenes[k - 1].duration,
    ensures
        raw_offset(scenes, i) >= 0,
    decreases i,
{
    if i > 0 {
        lemma_raw_positive(scenes, i - 1);
        assert(scenes[i].overlap() <= scenes[i - 1].duration);
    }
}

/// The ids of the pads that a move may add.
pub open spec fn is_pad_id(id: Seq<char>, x: Seq<char>) -> bool {
    exists|n: nat| x == #[trigger] slot_pad(id, n).id
}

proof fn lemma_padded_first(layers: Seq<ClipView>, id: Seq<char>, slots: nat, x: Seq<char>)
    requires
        !is_pad_id(id, x),
    ensures
        first(padded_layers(layers, id, slots), x) == first(layers, x),
    decreases slots,
{
    if layers.len() < slots {
        let fewer = padded_layers(layers, id, (slots - 1) as nat);
        let pad = slot_pad(id, fewer.len());
        lemma_padded_first(layers, id, (slots - 1) as nat, x);
        assert(fewer.push(pad) =~= fewer.insert(fewer.len() as int, pad));
        lemma_first_insert(fewer, fewer.len() as int, pad, x);
    }
}

proof fn lemma_not_pad(id: Seq<char>)
    ensures
        !is_pad_id(id, id),
{
    reveal_strlit("-slotpad-");
    assert forall|n: nat| id != #[trigger] slot_pad(id, n).id by {
        assert(slot_pad(id, n).id.len() >= id.len() + 9);
    }
}

proof fn lemma_scene_at(scenes: Seq<SceneView>, t: int, n: int)
    requires
        0 <= n <= scenes.len(),
        scenes.len() > 0,
    ensures
        0 <= scene_at(scenes, t, n) < scenes.len(),
        t >= 0 && n > 0 ==> offset_of(scenes, scene_at(scenes, t, n)) <= t,
    decreases n,
{
    if n > 0 {
        lemma_scene_at(scenes, t, n - 1);
    }
}

/// A clip moved to another lane is shown from the time asked for, in the
/// scene that has begun by then as long as the scene has a tenth of a second
/// left; every other clip stays as it is.
pub proof fn law_moved(p: ProjectView, id: Seq<char>, lane: nat, t: int, other: Seq<char>)
    requires
        ids_ok(all_ids(p)),
        found(p, id) is Some,
        lane < max_layers(p.scenes) + p.overlays.len(),
        t >= 0,
        lane < max_layers(p.scenes) ==> p.scenes.len() > 0 && ({
            let s = scene_at(p.scenes, t, p.scenes.len() as int);
            t <= offset_of(p.scenes, s) + p.scenes[s].duration - TENTH
        }),
        other != id,
        !is_pad_id(id, other),
    ensures
        found(moved(p, id, lane, t), id) is Some,
        absolute_start(moved(p, id, lane, t), id) == t,
        found(moved(p, id, lane, t), id)->0 == (ClipView {
            start: found(moved(p, id, lane, t), id)->0.start,
            ..found(p, id)->0
        }),
        found(moved(p, id, lane, t), other) == found(p, other),
{
    let c = found(p, id)->0;
    let q = lifted(p, id);
    let r = moved(p, id, lane, t);
    let slots = max_layers(p.scenes);
    lemma_lifted(p, id, other);
    lemma_spot(p, id);
    lemma_spot(q, id);
    lemma_not_pad(id);
    if lane < slots {
        assert forall|k: int| 0 <= k < p.scenes.len() implies (#[trigger] p.scenes[k]).duration
            == q.scenes[k].duration && p.scenes[k].transition == q.scenes[k].transition by {}
        lemma_same_scene_at(p.scenes, q.scenes, t, p.scenes.len() as int);
        let s = scene_at(q.scenes, t, q.scenes.len() as int);
        lemma_scene_at(p.scenes, t, p.scenes.len() as int);
        lemma_offsets_ignore_layers(p.scenes, q.scenes, s);
        let scene = q.scenes[s];
        let start = t - offset_of(q.scenes, s);
        let layers = padded_layers(scene.layers, id, lane);
        let put = ClipView { start, ..c };
        crate::edit::lemma_padded_len(scene.layers, id, lane);
        lemma_padded_first(scene.layers, id, lane, id);
        lemma_padded_first(scene.layers, id, lane, other);
        lemma_first_insert(layers, lane as int, put, other);
        lemma_found_layers(q, s, layers.insert(lane as int, put), other);
        let after = layers.insert(lane as int, put);
        lemma_position(layers, id);
        assert(first(layers, id) is None);
        assert(after[lane as int].id == id);
        assert forall|j: int| 0 <= j < lane implies (#[trigger] after[j]).id != id by {
            assert(layers[j].id != id);
        }
        lemma_position_is(after, id, lane as int);
        assert forall|j: int| 0 <= j < s implies !holds((#[trigger] r.scenes[j]).layers, id) by {
            assert(r.scenes[j] == q.scenes[j]);
        }
        lemma_spot_layer(r, id, s, lane as int);
        assert forall|k: int| 0 <= k < q.scenes.len() implies (#[trigger] q.scenes[k]).duration
            == r.scenes[k].duration && q.scenes[k].transition == r.scenes[k].transition by {}
        lemma_offsets_ignore_layers(q.scenes, r.scenes, s);
    } else {
        let track = lane - slots;
        let clips = q.overlays[track].clips;
        let put = ClipView { start: max(t, 0), ..c };
        let after = clips.push(put);
        assert(after =~= clips.insert(clips.len() as int, put));
        lemma_first_insert(clips, clips.len() as int, put, other);
        lemma_found_track(q, track, after, other);
        lemma_position(clips, id);
        assert forall|j: int| 0 <= j < clips.len() implies (#[trigger] after[j]).id != id by {
            assert(clips[j].id != id);
        }
        lemma_position_is(after, id, clips.len() as int);
        assert forall|j: int| 0 <= j < track implies !holds(
            (#[trigger] r.overlays[j]).clips,
            id,
        ) by {
            assert(r.overlays[j] == q.overlays[j]);
        }
        lemma_spot_overlay(r, id, track, clips.len() as int);
    }
}

proof fn lemma_same_scene_at(a: Seq<SceneView>, b: Seq<SceneView>, t: int, n: int)
    requires
        a.len() == b.len(),
        0 <= n <= a.len(),
        forall|k: int|
            0 <= k < a.len() ==> (#[trigger] a[k]).duration == b[k].duration && a[k].transition
                == b[k].transition,
    ensures
        scene_at(a, t, n) == scene_at(b, t, n),
    decreases n,
{
    if n > 0 {
        lemma_same_scene_at(a, b, t, n - 1);
        lemma_offsets_ignore_layers(a, b, n - 1);
    }
}

/// Where no id stands in the way, a clip put on the timeline leaves a valid
/// document: it is found in the scene at that time, shown from then on as far
/// as the scene goes, and every other clip stays as it is.
pub proof fn law_put_in(
    p: ProjectView,
    t: int,
    id: Seq<char>,
    element: ElementView,
    on_top: bool,
    other: Seq<char>,
)
    requires
        valid(p),
        p.scenes.len() > 0,
        id.len() > 0,
        !all_ids(p).contains(id),
        crate::faults::media_rate_ok(element),
        element matches ElementView::CompRef { def, args } ==> lookup(p.defs, def) is Some,
        other != id,
    ensures
        valid(put_in(p, t, id, element, on_top)),
        found(put_in(p, t, id, element, on_top), id) is Some,
        found(put_in(p, t, id, element, on_top), id)->0.element == element,
        found(put_in(p, t, id, element, on_top), other) == found(p, other),
        ({
            let s = scene_at(p.scenes, t, p.scenes.len() as int);
            0 <= t <= offset_of(p.scenes, s) + p.scenes[s].duration - TENTH ==> absolute_start(
                put_in(p, t, id, element, on_top),
                id,
            ) == t
        }),
{
    let q = put_in(p, t, id, element, on_top);
    let s = scene_at(p.scenes, t, p.scenes.len() as int);
    let c = crate::medialib::plain_clip(id, crate::medialib::start_in(p, s, t), element);
    let layers = p.scenes[s].layers;
    let k = if on_top {
        0
    } else {
        layers.len() as int
    };
    lemma_scene_at(p.scenes, t, p.scenes.len() as int);
    lemma_absent(p, id);
    lemma_spot(p, id);
    let after = layers.insert(k, c);
    assert(q.scenes[s].layers =~= after);
    lemma_clip_in(layers, k, c);
    lemma_scene_swapped(p, q, s);
    lemma_inserted_ok(all_ids(p), all_ids(q), id);
    lemma_first_insert(layers, k, c, other);
    lemma_found_layers(p, s, q.scenes[s].layers, other);
    lemma_position(layers, id);
    assert forall|j: int| 0 <= j < k implies (#[trigger] after[j]).id != id by {
        assert(layers[j].id != id);
    }
    lemma_position_is(after, id, k);
    assert forall|j: int| 0 <= j < s implies !holds((#[trigger] q.scenes[j]).layers, id) by {
        assert(q.scenes[j] == p.scenes[j]);
    }
    lemma_spot_layer(q, id, s, k);
    assert forall|i: int| 0 <= i < q.scenes.len() implies scene_fault(#[trigger] q.scenes[i]) is None
        && clips_ok(q.scenes[i].layers, q.defs) by {
        assert(scene_fault(p.scenes[i]) is None);
        if i == s {
            assert forall|j: int| 0 <= j < after.len() implies clip_ok(
                #[trigger] after[j],
                q.defs,
            ) by {
                if j < k {
                    assert(after[j] == layers[j]);
                } else if j > k {
                    assert(after[j] == layers[j - 1]);
                }
            }
        }
    }
    assert forall|j: int| 0 <= j < p.scenes.len() implies (#[trigger] p.scenes[j]).duration
        == q.scenes[j].duration && p.scenes[j].transition == q.scenes[j].transition by {}
    lemma_offsets_ignore_layers(p.scenes, q.scenes, s);
}

/// What cutting a stretch out of a clip makes of its scene: the clip keeps the
/// part before the stretch, the part behind it follows, and that part and the
/// later pieces move up.
proof fn lemma_cut_layers(p: ProjectView, id: Seq<char>, r: (int, int), later: int)
    requires
        found(p, id) is Some,
        spot_of(p, id) is Layer,
        cuts_inside(p, id, r.0),
        cuts_inside(split_project(p, id, r.0), split_id(p, id), r.1),
    ensures
        ({
            let q = cut_out(p, id, r, later).0;
            let p1 = split_project(p, id, r.0);
            let s = spot_of(p, id)->Layer_scene;
            let index = spot_of(p, id)->Layer_index;
            let c = found(p, id)->0;
            let cut = cut_of(p, id, r.0);
            let rest = found(p1, split_id(p, id))->0;
            let span = r.1 - r.0;
            let behind = right_part(rest, span, rest.duration, split_id(p1, split_id(p, id)));
            &&& cut_out(p, id, r, later).1
            &&& q.overlays == p.overlays
            &&& q.scenes.len() == p.scenes.len()
            &&& forall|j: int|
                0 <= j < p.scenes.len() && j != s ==> (#[trigger] q.scenes[j]) == p.scenes[j]
            &&& q.scenes[s].transition == p.scenes[s].transition
            &&& q.scenes[s].layers == moved_up(
                p.scenes[s].layers.update(index, left_part(c, cut)).insert(index + 1, behind),
                index + 1,
                later + 1,
                span,
            )
            &&& rest.start == c.start + cut
            &&& rest.duration == split_length(p, spot_of(p, id), c) - cut
            &&& rest.element == crate::split::advanced(c.element, cut)
            &&& 0 < cut
            &&& 0 < span < rest.duration
        }),
{
    let p1 = split_project(p, id, r.0);
    let tail = split_id(p, id);
    let p2 = split_project(p1, tail, r.1);
    let after = split_id(p1, tail);
    let span = r.1 - r.0;
    lemma_split_id_free(p, id);
    lemma_split_id_free(p1, tail);
    lemma_split_spots(p, id, r.0);
    lemma_split_spots(p1, tail, r.1);
    lemma_spot(p, id);
    lemma_spot(p1, tail);
    lemma_spot(p2, tail);
    let s = spot_of(p, id)->Layer_scene;
    let index = spot_of(p, id)->Layer_index;
    let layers = p.scenes[s].layers;
    let c = found(p, id)->0;
    let cut = cut_of(p, id, r.0);
    let rest = found(p1, tail)->0;
    assert forall|j: int| 0 <= j < p.scenes.len() implies (#[trigger] p.scenes[j]).duration
        == p1.scenes[j].duration && p.scenes[j].transition == p1.scenes[j].transition by {}
    lemma_offsets_ignore_layers(p.scenes, p1.scenes, s);
    assert(rest == right_part(c, cut, split_length(p, spot_of(p, id), c), tail));
    assert(cut_of(p1, tail, r.1) == span);
    crate::timeline::lemma_track_position(p2.overlays, tail);
    crate::timeline::lemma_track_position(p.overlays, tail);
    crate::timeline::lemma_scene_position(p2.scenes, tail);
    lemma_spot(p, tail);
    assert(p2.overlays == p.overlays);
    assert(track_position(p2.overlays, tail) >= p2.overlays.len()) by {
        assert forall|j: int| 0 <= j < p.overlays.len() implies !holds(
            (#[trigger] p.overlays[j]).clips,
            tail,
        ) by {}
    }
    let behind = right_part(rest, span, rest.duration, after);
    let list = layers.update(index, left_part(c, cut)).insert(index + 1, behind);
    assert(p2.scenes[s].layers.remove(index + 1) =~= list);
}

/// The `n` clips behind a clip of a scene follow it without a gap, each where
/// the one before it ends.
pub open spec fn back_to_back(p: ProjectView, id: Seq<char>, n: int) -> bool {
    match spot_of(p, id) {
        Spot::Layer { scene, index } => {
            let layers = p.scenes[scene].layers;
            &&& 0 <= n < layers.len() - index
            &&& forall|k: int|
                index <= k < index + n ==> (#[trigger] layers[k]).duration > 0 && layers[k
                    + 1].start == layers[k].start + layers[k].duration
        },
        _ => false,
    }
}

proof fn lemma_later_starts(layers: Seq<ClipView>, index: int, k: int)
    requires
        0 <= index <= k < layers.len(),
        layers[index].start >= 0,
        forall|i: int|
            index <= i < k ==> (#[trigger] layers[i]).duration > 0 && layers[i + 1].start
                == layers[i].start + layers[i].duration,
    ensures
        layers[k].start >= layers[index].start,
    decreases k - index,
{
    if k > index {
        lemma_later_starts(layers, index, k - 1);
        assert(layers[k - 1].duration > 0);
    }
}

/// Cutting a stretch out of a clip keeps it and its later pieces back to back,
/// with one piece more.
proof fn lemma_cut_joined(p: ProjectView, id: Seq<char>, r: (int, int), later: int)
    requires
        found(p, id) is Some,
        found(p, id)->0.start >= 0,
        back_to_back(p, id, later),
        cuts_inside(p, id, r.0),
        cuts_inside(split_project(p, id, r.0), split_id(p, id), r.1),
    ensures
        ({
            let q = cut_out(p, id, r, later).0;
            &&& spot_of(q, id) == spot_of(p, id)
            &&& found(q, id) == Some(left_part(found(p, id)->0, cut_of(p, id, r.0)))
            &&& back_to_back(q, id, later + 1)
        }),
{
    let q = cut_out(p, id, r, later).0;
    let p1 = split_project(p, id, r.0);
    let s = spot_of(p, id)->Layer_scene;
    let index = spot_of(p, id)->Layer_index;
    let layers = p.scenes[s].layers;
    let c = found(p, id)->0;
    let cut = cut_of(p, id, r.0);
    let span = r.1 - r.0;
    let rest = found(p1, split_id(p, id))->0;
    let behind = right_part(rest, span, rest.duration, split_id(p1, split_id(p, id)));
    lemma_cut_layers(p, id, r, later);
    lemma_spot(p, id);
    let list = layers.update(index, left_part(c, cut)).insert(index + 1, behind);
    let now = q.scenes[s].layers;
    lemma_position(layers, id);
    assert(now[index] == left_part(c, cut));
    assert forall|j: int| 0 <= j < index implies (#[trigger] now[j]).id != id by {
        assert(now[j] == layers[j]);
    }
    lemma_position_is(now, id, index);
    assert forall|j: int| 0 <= j < s implies !holds((#[trigger] q.scenes[j]).layers, id) by {
        assert(q.scenes[j] == p.scenes[j]);
    }
    lemma_spot_layer(q, id, s, index);
    assert forall|k: int| index <= k < index + later + 1 implies (#[trigger] now[k]).duration > 0
        && now[k + 1].start == now[k].start + now[k].duration by {
        if k == index {
            assert(now[k + 1].start == max(behind.start - span, 0));
        } else if k == index + 1 {
            assert(now[k].duration == behind.duration);
            if later > 0 {
                assert(layers[index].duration > 0);
                assert(now[k + 1].start == max(layers[index + 1].start - span, 0));
            }
        } else {
            assert(list[k] == layers[k - 1]);
            assert(list[k + 1] == layers[k]);
            assert(layers[k - 1].duration > 0);
            lemma_later_starts(layers, index + 1, k - 1);
            assert(layers[index + 1].start == layers[index].start + layers[index].duration);
        }
    }
}

/// Cutting a stretch out of a clip takes exactly that stretch: what is left
/// of the clip ends where the stretch began, the rest of it follows without a
/// gap, in its media the length of the stretch further on, and the piece
/// between them is gone. On a scene, its later pieces stay back to back, and
/// every other clip stays as it is.
pub proof fn law_cut_out(p: ProjectView, id: Seq<char>, r: (int, int), later: int, other: Seq<char>)
    requires
        ids_ok(all_ids(p)),
        found(p, id) is Some,
        found(p, id)->0.start >= 0,
        spot_of(p, id) is Layer ==> back_to_back(p, id, later),
        cuts_inside(p, id, r.0),
        !all_ids(p).contains(split_id(p, id)),
        cuts_inside(split_project(p, id, r.0), split_id(p, id), r.1),
        !all_ids(split_project(p, id, r.0)).contains(
            split_id(split_project(p, id, r.0), split_id(p, id)),
        ),
        other != id,
        other != split_id(p, id),
        other != split_id(split_project(p, id, r.0), split_id(p, id)),
    ensures
        ({
            let q = cut_out(p, id, r, later).0;
            let whole = found(p, id)->0;
            let tail = split_id(p, id);
            let after = split_id(split_project(p, id, r.0), tail);
            let l = found(q, id);
            let n = found(q, after);
            &&& cut_out(p, id, r, later).1
            &&& found(q, tail) is None
            &&& l is Some && n is Some
            &&& l->0.start == whole.start
            &&& l->0.duration == cut_of(p, id, r.0)
            &&& n->0.start == l->0.start + l->0.duration
            &&& l->0.duration + (r.1 - r.0) + n->0.duration == split_length(
                p,
                spot_of(p, id),
                whole,
            )
            &&& plays_media(whole.element) ==> media_offset(l->0.element) == media_offset(
                whole.element,
            ) && media_offset(n->0.element) == media_offset(whole.element) + l->0.duration + (r.1
                - r.0)
            &&& spot_of(p, id) is Layer ==> back_to_back(q, id, later + 1)
            &&& spot_of(p, id) is Layer ==> found(q, other) == (if follows(p, id, later, other) {
                let moved = found(p, other)->0;
                Some(ClipView { start: max(moved.start - (r.1 - r.0), 0), ..moved })
            } else {
                found(p, other)
            })
        }),
{
    let p1 = split_project(p, id, r.0);
    let tail = split_id(p, id);
    let p2 = split_project(p1, tail, r.1);
    let after = split_id(p1, tail);
    lemma_absent(p, tail);
    lemma_absent(p1, after);
    lemma_split_spots(p, id, r.0);
    lemma_split_ids_ok(p, id, r.0);
    lemma_split_spots(p1, tail, r.1);
    lemma_split_ids_ok(p1, tail, r.1);
    law_split_parts(p, id, r.0, other);
    law_split_parts(p1, tail, r.1, other);
    law_split_parts(p1, tail, r.1, id);
    lemma_spot(p, id);
    lemma_spot(p2, tail);
    lemma_spot(p2, id);
    lemma_spot(p2, after);
    crate::spots::lemma_split_keeps(p1, tail, r.1, id);
    match spot_of(p, id) {
        Spot::Layer { scene, index } => {
            lemma_cut_layers(p, id, r, later);
            lemma_cut_joined(p, id, r, later);
            lemma_cut_places(p, id, r, later, other);
        },
        Spot::Overlay { track, index } => {
            crate::timeline::lemma_track_position(p2.overlays, tail);
            law_rippled(p2, tail, id);
            law_rippled(p2, tail, after);
        },
        Spot::Absent => {},
    }
}

/// A clip is one of the `n` behind another on a scene.
pub open spec fn follows(p: ProjectView, id: Seq<char>, n: int, other: Seq<char>) -> bool {
    match (spot_of(p, id), spot_of(p, other)) {
        (Spot::Layer { scene: s, index: i }, Spot::Layer { scene: t, index: j }) => s == t && i < j
            <= i + n,
        _ => false,
    }
}

/// Where the clips of a scene are found after a stretch was cut out of one.
proof fn lemma_cut_places(
    p: ProjectView,
    id: Seq<char>,
    r: (int, int),
    later: int,
    other: Seq<char>,
)
    requires
        ids_ok(all_ids(p)),
        found(p, id) is Some,
        spot_of(p, id) is Layer,
        later >= 0,
        cuts_inside(p, id, r.0),
        cuts_inside(split_project(p, id, r.0), split_id(p, id), r.1),
        other != id,
        other != split_id(p, id),
        other != split_id(split_project(p, id, r.0), split_id(p, id)),
    ensures
        ({
            let q = cut_out(p, id, r, later).0;
            let p1 = split_project(p, id, r.0);
            let tail = split_id(p, id);
            let after = split_id(p1, tail);
            let span = r.1 - r.0;
            let rest = found(p1, tail)->0;
            let behind = right_part(rest, span, rest.duration, after);
            &&& found(q, tail) is None
            &&& found(q, after) == Some(
                ClipView { start: max(behind.start - span, 0), ..behind },
            )
            &&& found(q, other) == (if follows(p, id, later, other) {
                let moved = found(p, other)->0;
                Some(ClipView { start: max(moved.start - span, 0), ..moved })
            } else {
                found(p, other)
            })
        }),
{
    let q = cut_out(p, id, r, later).0;
    let p1 = split_project(p, id, r.0);
    let tail = split_id(p, id);
    let after = split_id(p1, tail);
    let s = spot_of(p, id)->Layer_scene;
    let index = spot_of(p, id)->Layer_index;
    let layers = p.scenes[s].layers;
    let c = found(p, id)->0;
    let cut = cut_of(p, id, r.0);
    let span = r.1 - r.0;
    let rest = found(p1, tail)->0;
    let behind = right_part(rest, span, rest.duration, after);
    lemma_cut_layers(p, id, r, later);
    lemma_split_id_free(p, id);
    lemma_split_id_free(p1, tail);
    lemma_split_spots(p, id, r.0);
    lemma_spot(p, id);
    lemma_spot(p, tail);
    lemma_spot(p1, tail);
    lemma_spot(p1, after);
    lemma_spot(p1, id);
    let list = layers.update(index, left_part(c, cut)).insert(index + 1, behind);
    let now = q.scenes[s].layers;
    assert(after != id && after != tail);
    // The ids of the scene.
    assert forall|j: int| 0 <= j < now.len() implies (#[trigger] now[j]).id == list[j].id by {}
    let split = p1.scenes[s].layers;
    assert forall|j: int| 0 <= j < layers.len() implies (#[trigger] layers[j]).id != tail
        && layers[j].id != after by {
        assert(!holds(layers, tail));
        lemma_position(layers, tail);
        assert(!holds(split, after));
        lemma_position(split, after);
        if j <= index {
            assert(split[j].id == layers[j].id);
        } else {
            assert(split[j + 1] == layers[j]);
        }
    }
    // The part behind the stretch.
    assert forall|j: int| 0 <= j < index + 1 implies (#[trigger] now[j]).id != after by {
        assert(now[j].id == list[j].id);
        assert(list[j].id == layers[j].id);
    }
    assert(now[index + 1].id == after);
    lemma_position_is(now, after, index + 1);
    assert forall|j: int| 0 <= j < s implies !holds((#[trigger] q.scenes[j]).layers, after) by {
        assert(q.scenes[j] == p.scenes[j]);
        assert(p1.scenes[j] == p.scenes[j]);
    }
    lemma_spot_layer(q, after, s, index + 1);
    // The stretch.
    assert(!holds(now, tail)) by {
        lemma_position(now, tail);
        if holds(now, tail) {
            let j = position(now, tail);
            assert(now[j].id == list[j].id);
            if j <= index {
                assert(list[j].id == layers[j].id);
            } else if j > index + 1 {
                assert(list[j] == layers[j - 1]);
            }
        }
    }
    lemma_spot(q, tail);
    assert forall|j: int| 0 <= j < q.scenes.len() implies !holds(
        (#[trigger] q.scenes[j]).layers,
        tail,
    ) by {
        if j != s {
            assert(q.scenes[j] == p.scenes[j]);
        }
    }
    // Any other clip.
    lemma_spot(p, other);
    lemma_position(layers, other);
    let at = position(layers, other);
    if holds(layers, other) {
        assert(at != index);
        let to = if at < index {
            at
        } else {
            at + 1
        };
        assert(list[to] == layers[at]);
        assert forall|j: int| 0 <= j < to implies (#[trigger] now[j]).id != other by {
            assert(now[j].id == list[j].id);
            if j <= index {
                assert(list[j].id == layers[j].id);
            } else if j > index + 1 {
                assert(list[j] == layers[j - 1]);
            }
        }
        lemma_position_is(now, other, to);
        lemma_one_place(p, other);
        assert(spot_of(p, other) == (Spot::Layer { scene: s, index: at }));
        assert forall|j: int| 0 <= j < s implies !holds((#[trigger] q.scenes[j]).layers, other) by {
            assert(q.scenes[j] == p.scenes[j]);
        }
        lemma_spot_layer(q, other, s, to);
    } else {
        assert(!holds(now, other)) by {
            lemma_position(now, other);
            if holds(now, other) {
                let j = position(now, other);
                assert(now[j].id == list[j].id);
                if j <= index {
                    assert(list[j].id == layers[j].id);
                    assert(holds(layers, other));
                } else if j > index + 1 {
                    assert(list[j] == layers[j - 1]);
                    assert(holds(layers, other));
                }
            }
        }
        assert forall|j: int| 0 <= j < p.scenes.len() implies first(
            (#[trigger] p.scenes[j]).layers,
            other,
        ) == first(q.scenes[j].layers, other) by {
            if j != s {
                assert(q.scenes[j] == p.scenes[j]);
            }
        }
        lemma_found_first(p, q, other);
    }
}

/// Removing silence from a clip of a scene leaves no gap: however many
/// stretches are cut out, what is left of the clip starts where the clip did,
/// and its pieces follow it back to back, one for each stretch.
pub proof fn law_silence_closed(p: ProjectView, id: Seq<char>, ranges: Seq<(int, int)>, i: int)
    requires
        0 <= i <= ranges.len(),
        found(p, id) is Some,
        found(p, id)->0.start >= 0,
        spot_of(p, id) is Layer,
    ensures
        ({
            let q = cut_all(p, id, ranges, i).0;
            &&& spot_of(q, id) == spot_of(p, id)
            &&& found(q, id) is Some
            &&& found(q, id)->0.start == found(p, id)->0.start
            &&& back_to_back(q, id, cut_all(p, id, ranges, i).1)
        }),
    decreases ranges.len() - i,
{
    if i < ranges.len() {
        law_silence_closed(p, id, ranges, i + 1);
        let (m, n) = cut_all(p, id, ranges, i + 1);
        let r = ranges[i];
        if cuts_inside(m, id, r.0) && cuts_inside(split_project(m, id, r.0), split_id(m, id), r.1) {
            lemma_cut_joined(m, id, r, n);
            lemma_cut_layers(m, id, r, n);
        }
    } else {
        lemma_spot(p, id);
    }
}

/// The scene or track list in which a clip is found.
pub open spec fn list_of(p: ProjectView, id: Seq<char>) -> Seq<ClipView> {
    match spot_of(p, id) {
        Spot::Layer { scene, index } => p.scenes[scene].layers,
        Spot::Overlay { track, index } => p.overlays[track].clips,
        Spot::Absent => Seq::empty(),
    }
}

/// The clip that stands `k` places behind a clip.
pub open spec fn behind(p: ProjectView, id: Seq<char>, k: int) -> ClipView {
    match spot_of(p, id) {
        Spot::Layer { scene, index } => p.scenes[scene].layers[index + k],
        Spot::Overlay { track, index } => p.overlays[track].clips[index + k],
        Spot::Absent => found(p, id)->0,
    }
}

/// How long a clip plays: one without a duration to the end of its scene, or
/// to the largest time on an overlay track.
pub open spec fn play_length(p: ProjectView, id: Seq<char>, c: ClipView) -> int {
    if c.duration > 0 {
        c.duration
    } else {
        match spot_of(p, id) {
            Spot::Layer { scene, index } => max(p.scenes[scene].duration - c.start, 0),
            _ => max(LIMIT - c.start, 0),
        }
    }
}

/// The piece `k` places behind a clip, or for 0 the clip itself, plays the time
/// `m` of the media.
pub open spec fn plays(p: ProjectView, id: Seq<char>, k: int, m: int) -> bool {
    let c = behind(p, id, k);
    media_offset(c.element) <= m < media_offset(c.element) + play_length(p, id, c)
}

/// The clip or one of the `n` pieces behind it plays the time `m` of the media.
pub open spec fn heard(p: ProjectView, id: Seq<char>, n: int, m: int) -> bool {
    exists|k: int| 0 <= k <= n && #[trigger] plays(p, id, k, m)
}

/// A clip and the `n` pieces behind it follow each other, on the timeline
/// without a gap and in the media never backward.
pub open spec fn in_pieces(p: ProjectView, id: Seq<char>, n: int) -> bool {
    &&& found(p, id) is Some
    &&& 0 <= n < list_of(p, id).len() - spot_index(p, id)
    &&& forall|k: int| 1 <= k <= n ==> (#[trigger] behind(p, id, k)).duration > 0
    &&& forall|k: int, j: int|
        0 <= k < j <= n ==> media_offset((#[trigger] behind(p, id, k)).element) + play_length(
            p,
            id,
            behind(p, id, k),
        ) <= media_offset((#[trigger] behind(p, id, j)).element)
    &&& forall|k: int, j: int|
        0 <= k < n && j == k + 1 ==> (#[trigger] behind(p, id, j)).start == (#[trigger] behind(
            p,
            id,
            k,
        )).start + play_length(p, id, behind(p, id, k))
}

/// Place of a clip in its list.
pub open spec fn spot_index(p: ProjectView, id: Seq<char>) -> int {
    match spot_of(p, id) {
        Spot::Layer { scene, index } => index,
        Spot::Overlay { track, index } => index,
        Spot::Absent => 0,
    }
}

proof fn lemma_pieces_order(p: ProjectView, id: Seq<char>, n: int, k: int)
    requires
        in_pieces(p, id, n),
        1 <= k <= n,
    ensures
        behind(p, id, k).start >= found(p, id)->0.start + play_length(p, id, found(p, id)->0),
    decreases k,
{
    lemma_spot(p, id);
    assert(behind(p, id, 0) == found(p, id)->0);
    assert(behind(p, id, k).start == behind(p, id, k - 1).start + play_length(
        p,
        id,
        behind(p, id, k - 1),
    ));
    if k > 1 {
        lemma_pieces_order(p, id, n, k - 1);
    }
}

/// What cutting a stretch out of a clip makes of the clip and its pieces.
#[verifier::rlimit(40)]
proof fn lemma_cut_list(p: ProjectView, id: Seq<char>, r: (int, int), later: int)
    requires
        in_pieces(p, id, later),
        cuts_inside(p, id, r.0),
        cuts_inside(split_project(p, id, r.0), split_id(p, id), r.1),
    ensures
        ({
            let q = cut_out(p, id, r, later).0;
            let c = found(p, id)->0;
            let cut = r.0 - timeline_start(p, id);
            let span = r.1 - r.0;
            let next = behind(q, id, 1);
            &&& cut_out(p, id, r, later).1
            &&& spot_of(q, id) == spot_of(p, id)
            &&& found(q, id) == Some(left_part(c, cut))
            &&& timeline_start(q, id) == timeline_start(p, id)
            &&& list_of(q, id).len() == list_of(p, id).len() + 1
            &&& TWENTIETH < cut && TWENTIETH < span && cut + span < play_length(p, id, c)
                - TWENTIETH
            &&& next.element == crate::split::advanced(c.element, cut + span)
            &&& next.duration == play_length(p, id, c) - cut - span
            &&& next.start == max(c.start + cut, 0)
            &&& forall|k: int|
                2 <= k <= later + 1 ==> (#[trigger] behind(q, id, k)).element == behind(
                    p,
                    id,
                    k - 1,
                ).element && behind(q, id, k).duration == behind(p, id, k - 1).duration && behind(
                    q,
                    id,
                    k,
                ).start == max(behind(p, id, k - 1).start - span, 0)
        }),
{
    let q = cut_out(p, id, r, later).0;
    let p1 = split_project(p, id, r.0);
    let tail = split_id(p, id);
    let p2 = split_project(p1, tail, r.1);
    let after = split_id(p1, tail);
    let c = found(p, id)->0;
    let cut = cut_of(p, id, r.0);
    let span = r.1 - r.0;
    lemma_split_id_free(p, id);
    lemma_split_id_free(p1, tail);
    lemma_split_spots(p, id, r.0);
    lemma_split_spots(p1, tail, r.1);
    lemma_spot(p, id);
    lemma_spot(p1, tail);
    lemma_spot(p2, tail);
    let rest = found(p1, tail)->0;
    let part = right_part(rest, span, rest.duration, after);
    match spot_of(p, id) {
        Spot::Layer { scene, index } => {
            lemma_cut_layers(p, id, r, later);
            let layers = p.scenes[scene].layers;
            let list = layers.update(index, left_part(c, cut)).insert(index + 1, part);
            let now = q.scenes[scene].layers;
            lemma_position(layers, id);
            assert(now[index] == left_part(c, cut));
            assert forall|j: int| 0 <= j < index implies (#[trigger] now[j]).id != id by {
                assert(now[j] == layers[j]);
            }
            lemma_position_is(now, id, index);
            assert forall|j: int| 0 <= j < scene implies !holds(
                (#[trigger] q.scenes[j]).layers,
                id,
            ) by {
                assert(q.scenes[j] == p.scenes[j]);
            }
            lemma_spot_layer(q, id, scene, index);
            lemma_offset_of_earlier(p.scenes, q.scenes, scene);
            lemma_offset_of_earlier(p.scenes, p1.scenes, scene);
            assert(now[index + 1] == (ClipView { start: max(part.start - span, 0), ..part }));
            assert forall|k: int| 2 <= k <= later + 1 implies (#[trigger] behind(q, id, k)).element
                == behind(p, id, k - 1).element && behind(q, id, k).duration == behind(
                p,
                id,
                k - 1,
            ).duration && behind(q, id, k).start == max(behind(p, id, k - 1).start - span, 0) by {
                assert(list[index + k] == layers[index + k - 1]);
            }
        },
        Spot::Overlay { track, index } => {
            crate::timeline::lemma_track_position(p2.overlays, tail);
            let clips = p.overlays[track].clips;
            let c1 = p1.overlays[track].clips;
            let c2 = p2.overlays[track].clips;
            let left = left_part(rest, span);
            assert(c1 == split_list(clips, index, cut, split_length(p, spot_of(p, id), c), tail));
            assert(cut_of(p1, tail, r.1) == span);
            assert(c2 == split_list(c1, index + 1, span, rest.duration, after));
            assert(track_position(p2.overlays, tail) == track) by {
                assert(holds(c2, tail));
            }
            assert(position(c2, tail) == index + 1);
            let list = clips.update(index, left_part(c, cut)).insert(index + 1, part);
            assert(c2.remove(index + 1) =~= list);
            assert(c2[index + 1] == left);
            let now = q.overlays[track].clips;
            assert(now == pulled(list, left.start, span));
            lemma_position(clips, id);
            assert(list[index] == left_part(c, cut));
            assert forall|j: int| 0 <= j < index implies (#[trigger] now[j]).id != id by {
                assert(list[j] == clips[j]);
            }
            lemma_position_is(now, id, index);
            assert forall|j: int| 0 <= j < q.scenes.len() implies !holds(
                (#[trigger] q.scenes[j]).layers,
                id,
            ) by {
                assert(q.scenes[j] == p.scenes[j]);
            }
            assert forall|j: int| 0 <= j < track implies !holds(
                (#[trigger] q.overlays[j]).clips,
                id,
            ) by {
                assert(q.overlays[j] == p.overlays[j]);
            }
            lemma_spot_overlay(q, id, track, index);
            assert(now[index + 1] == (ClipView { start: max(part.start - span, 0), ..part }));
            assert forall|k: int| 2 <= k <= later + 1 implies (#[trigger] behind(q, id, k)).element
                == behind(p, id, k - 1).element && behind(q, id, k).duration == behind(
                p,
                id,
                k - 1,
            ).duration && behind(q, id, k).start == max(behind(p, id, k - 1).start - span, 0) by {
                assert(list[index + k] == clips[index + k - 1]);
                lemma_pieces_order(p, id, later, k - 1);
            }
        },
        Spot::Absent => {},
    }
}

proof fn lemma_offset_of_earlier(a: Seq<SceneView>, b: Seq<SceneView>, i: int)
    requires
        0 <= i < a.len(),
        a.len() == b.len(),
        forall|j: int|
            0 <= j < i ==> (#[trigger] a[j]).duration == b[j].duration && a[j].transition
                == b[j].transition,
        a[i].transition == b[i].transition,
    ensures
        raw_offset(a, i) == raw_offset(b, i),
    decreases i,
{
    if i > 0 {
        lemma_offset_of_earlier(a, b, i - 1);
        assert(a[i - 1].duration == b[i - 1].duration);
    }
}

/// Cutting a stretch out of a clip silences its media and no other.
proof fn lemma_cut_heard(p: ProjectView, id: Seq<char>, r: (int, int), later: int)
    requires
        in_pieces(p, id, later),
        found(p, id)->0.start >= 0,
        plays_media(found(p, id)->0.element),
        cuts_inside(p, id, r.0),
        cuts_inside(split_project(p, id, r.0), split_id(p, id), r.1),
    ensures
        ({
            let q = cut_out(p, id, r, later).0;
            let c = found(p, id)->0;
            let from = media_offset(c.element) + (r.0 - timeline_start(p, id));
            &&& in_pieces(q, id, later + 1)
            &&& forall|m: int| #[trigger]
                heard(q, id, later + 1, m) <==> heard(p, id, later, m) && !(from <= m < from + (r.1
                    - r.0))
        }),
{
    let q = cut_out(p, id, r, later).0;
    let c = found(p, id)->0;
    let cut = r.0 - timeline_start(p, id);
    let span = r.1 - r.0;
    let o = media_offset(c.element);
    let length = play_length(p, id, c);
    lemma_cut_list(p, id, r, later);
    lemma_spot(p, id);
    lemma_spot(q, id);
    assert(behind(p, id, 0) == c);
    let head = behind(q, id, 0);
    assert(head == found(q, id)->0);
    let next = behind(q, id, 1);
    assert(media_offset(next.element) == o + cut + span);
    assert forall|k: int| 1 <= k <= later implies (#[trigger] behind(p, id, k)).start >= c.start
        + length && media_offset(behind(p, id, k).element) >= o + length by {
        lemma_pieces_order(p, id, later, k);
        assert(media_offset(behind(p, id, 0).element) + length <= media_offset(
            behind(p, id, k).element,
        ));
    }
    assert forall|k: int, j: int| 0 <= k < j <= later + 1 implies media_offset(
        (#[trigger] behind(q, id, k)).element,
    ) + play_length(q, id, behind(q, id, k)) <= media_offset(
        (#[trigger] behind(q, id, j)).element,
    ) by {
        if j > 1 {
            assert(behind(q, id, j).element == behind(p, id, j - 1).element);
            assert(behind(p, id, j - 1).start >= c.start);
            if k > 1 {
                assert(behind(p, id, k - 1).duration > 0);
                assert(behind(q, id, k).element == behind(p, id, k - 1).element);
            }
        }
    }
    assert forall|k: int, j: int| 0 <= k < later + 1 && j == k + 1 implies (#[trigger] behind(
        q,
        id,
        j,
    )).start == (#[trigger] behind(q, id, k)).start + play_length(q, id, behind(q, id, k)) by {
        if k >= 1 {
            let (a, b) = (behind(p, id, k - 1), behind(p, id, k));
            assert(b.start == a.start + play_length(p, id, a));
            assert(b.start >= c.start + length);
            if k > 1 {
                assert(a.duration > 0);
                assert(a.start >= c.start + length);
            }
        }
    }
    assert forall|k: int| 1 <= k <= later + 1 implies (#[trigger] behind(q, id, k)).duration
        > 0 by {
        if k > 1 {
            assert(behind(p, id, k - 1).duration > 0);
        }
    }
    let from = o + cut;
    assert forall|m: int| #[trigger] heard(q, id, later + 1, m) <==> heard(p, id, later, m) && !(
    from <= m < from + span) by {
        if heard(q, id, later + 1, m) {
            let k = choose|k: int| 0 <= k <= later + 1 && #[trigger] plays(q, id, k, m);
            if k <= 1 {
                assert(plays(p, id, 0, m));
            } else {
                assert(behind(p, id, k - 1).duration > 0);
                assert(behind(q, id, k).element == behind(p, id, k - 1).element);
                assert(plays(p, id, k - 1, m));
            }
        }
        if heard(p, id, later, m) && !(from <= m < from + span) {
            let k = choose|k: int| 0 <= k <= later && #[trigger] plays(p, id, k, m);
            if k == 0 {
                if m < from {
                    assert(plays(q, id, 0, m));
                } else {
                    assert(plays(q, id, 1, m));
                }
            } else {
                assert(behind(p, id, k).duration > 0);
                assert(behind(q, id, k + 1).element == behind(p, id, k).element);
                assert(plays(q, id, k + 1, m));
            }
        }
    }
}

/// Where the time `m` of its media stands on the timeline, in a clip of normal
/// rate.
pub open spec fn timeline_time(p: ProjectView, id: Seq<char>, m: int) -> int {
    timeline_start(p, id) + (m - media_offset(found(p, id)->0.element))
}

proof fn lemma_all_heard(p: ProjectView, id: Seq<char>, ranges: Seq<(int, int)>, i: int)
    requires
        0 <= i <= ranges.len(),
        found(p, id) is Some,
        found(p, id)->0.start >= 0,
        plays_media(found(p, id)->0.element),
    ensures
        ({
            let (q, n) = cut_all(p, id, ranges, i);
            &&& in_pieces(q, id, n)
            &&& found(q, id)->0.start == found(p, id)->0.start
            &&& found(q, id)->0.element == found(p, id)->0.element
            &&& spot_of(q, id) == spot_of(p, id)
            &&& timeline_start(q, id) == timeline_start(p, id)
            &&& forall|m: int| #[trigger] heard(q, id, n, m) ==> heard(p, id, 0, m)
            &&& forall|m: int|
                heard(p, id, 0, m) && (forall|j: int|
                    i <= j < ranges.len() ==> !((#[trigger] ranges[j]).0 <= timeline_time(p, id, m)
                        < ranges[j].1)) ==> #[trigger] heard(q, id, n, m)
        }),
    decreases ranges.len() - i,
{
    if i < ranges.len() {
        lemma_all_heard(p, id, ranges, i + 1);
        let (m, n) = cut_all(p, id, ranges, i + 1);
        let r = ranges[i];
        if cuts_inside(m, id, r.0) && cuts_inside(split_project(m, id, r.0), split_id(m, id), r.1) {
            lemma_cut_list(m, id, r, n);
            lemma_cut_heard(m, id, r, n);
            let q = cut_all(p, id, ranges, i).0;
            assert forall|x: int| #[trigger] heard(q, id, n + 1, x) implies heard(p, id, 0, x) by {
                assert(heard(m, id, n, x));
            }
            assert forall|x: int|
                heard(p, id, 0, x) && (forall|j: int|
                    i <= j < ranges.len() ==> !((#[trigger] ranges[j]).0 <= timeline_time(p, id, x)
                        < ranges[j].1)) implies #[trigger] heard(q, id, n + 1, x) by {
                assert(heard(m, id, n, x));
                assert(!(ranges[i].0 <= timeline_time(p, id, x) < ranges[i].1));
            }
        }
    } else {
        lemma_spot(p, id);
    }
}

proof fn lemma_stretch_from(p: ProjectView, id: Seq<char>, silent: Seq<(int, int)>, j: int)
    requires
        0 <= j < stretches(p, id, silent).len(),
        found(p, id) is Some,
        plays_media(found(p, id)->0.element),
    ensures
        exists|i: int|
            0 <= i < silent.len() && crate::desilence::on_timeline(
                found(p, id)->0,
                timeline_start(p, id),
                #[trigger] silent[i],
            ) == Some(stretches(p, id, silent)[j]),
{
    let c = found(p, id)->0;
    let mapper = timeline_mapper(c, timeline_start(p, id));
    let some = collected(silent, mapper);
    law_by_start(some);
    let x = by_start(some)[j];
    assert(by_start(some).contains(x));
    by_start(some).to_multiset_ensures();
    some.to_multiset_ensures();
    assert(some.to_multiset().count(x) > 0);
    assert(some.contains(x));
    let k = choose|k: int| 0 <= k < some.len() && some[k] == x;
    lemma_collected_member(silent, mapper, k);
    let i = choose|i: int| 0 <= i < silent.len() && mapper(#[trigger] silent[i]) == Some(some[k]);
    assert(crate::desilence::on_timeline(c, timeline_start(p, id), silent[i]) == Some(x));
}

/// Removing silence takes nothing but silence: whatever the clip played before
/// and no silent range of its media holds is still played, by the clip or one
/// of its pieces, and nothing else is played that was not. The clip and its
/// pieces follow each other without a gap.
pub proof fn law_silence_only(p: ProjectView, id: Seq<char>, silent: Seq<(int, int)>, m: int)
    requires
        found(p, id) is Some,
        found(p, id)->0.start >= 0,
        plays_media(found(p, id)->0.element),
    ensures
        ({
            let (q, n) = cut_all(p, id, stretches(p, id, silent), 0);
            &&& in_pieces(q, id, n)
            &&& timeline_start(q, id) == timeline_start(p, id)
            &&& heard(q, id, n, m) ==> heard(p, id, 0, m)
            &&& heard(p, id, 0, m) && (forall|i: int|
                0 <= i < silent.len() ==> !((#[trigger] silent[i]).0 <= m < silent[i].1))
                ==> heard(q, id, n, m)
        }),
{
    let ranges = stretches(p, id, silent);
    lemma_all_heard(p, id, ranges, 0);
    if forall|i: int| 0 <= i < silent.len() ==> !((#[trigger] silent[i]).0 <= m < silent[i].1) {
        assert forall|j: int| 0 <= j < ranges.len() implies !((#[trigger] ranges[j]).0
            <= timeline_time(p, id, m) < ranges[j].1) by {
            lemma_stretch_from(p, id, silent, j);
            let i = choose|i: int|
                0 <= i < silent.len() && crate::desilence::on_timeline(
                    found(p, id)->0,
                    timeline_start(p, id),
                    #[trigger] silent[i],
                ) == Some(ranges[j]);
            assert(!(silent[i].0 <= m < silent[i].1));
        }
    }
}

/// Where the second end of a stretch can be cut, once the first was.
proof fn lemma_second_cut(p: ProjectView, id: Seq<char>, r: (int, int))
    requires
        found(p, id) is Some,
        cuts_inside(p, id, r.0),
    ensures
        cuts_inside(split_project(p, id, r.0), split_id(p, id), r.1) <==> TWENTIETH < r.1 - r.0
            < play_length(p, id, found(p, id)->0) - (r.0 - timeline_start(p, id)) - TWENTIETH,
{
    let p1 = split_project(p, id, r.0);
    let tail = split_id(p, id);
    lemma_split_id_free(p, id);
    lemma_split_spots(p, id, r.0);
    lemma_spot(p, id);
    if let Spot::Layer { scene, index } = spot_of(p, id) {
        lemma_offset_of_earlier(p.scenes, p1.scenes, scene);
    }
}

/// Stretches of the timeline inside a clip, in order, each longer than a
/// twentieth of a second and further than that from the next and from the ends
/// of the clip.
spec fn spaced(p: ProjectView, id: Seq<char>, ranges: Seq<(int, int)>) -> bool {
    let from = timeline_start(p, id);
    let to = from + play_length(p, id, found(p, id)->0);
    &&& forall|j: int|
        0 <= j < ranges.len() ==> from + TWENTIETH < (#[trigger] ranges[j]).0 && ranges[j].0
            + TWENTIETH < ranges[j].1 && ranges[j].1 + TWENTIETH < to
    &&& forall|j: int, k: int|
        0 <= j < k < ranges.len() ==> (#[trigger] ranges[j]).1 + TWENTIETH < (
        #[trigger] ranges[k]).0
}

proof fn lemma_all_gone(p: ProjectView, id: Seq<char>, ranges: Seq<(int, int)>, i: int)
    requires
        0 <= i <= ranges.len(),
        found(p, id) is Some,
        found(p, id)->0.start >= 0,
        plays_media(found(p, id)->0.element),
        spaced(p, id, ranges),
    ensures
        ({
            let (q, n) = cut_all(p, id, ranges, i);
            &&& n == ranges.len() - i
            &&& play_length(q, id, found(q, id)->0) == (if i < ranges.len() {
                ranges[i].0 - timeline_start(p, id)
            } else {
                play_length(p, id, found(p, id)->0)
            })
            &&& forall|m: int, j: int|
                i <= j < ranges.len() && (#[trigger] ranges[j]).0 <= timeline_time(p, id, m)
                    < ranges[j].1 ==> !#[trigger] heard(q, id, n, m)
        }),
    decreases ranges.len() - i,
{
    lemma_all_heard(p, id, ranges, i);
    if i < ranges.len() {
        lemma_all_heard(p, id, ranges, i + 1);
        lemma_all_gone(p, id, ranges, i + 1);
        let (m, n) = cut_all(p, id, ranges, i + 1);
        let r = ranges[i];
        assert(ranges[i].0 + TWENTIETH < ranges[i].1);
        if i + 1 < ranges.len() {
            assert(ranges[i].1 + TWENTIETH < ranges[i + 1].0);
        }
        assert(cuts_inside(m, id, r.0));
        lemma_second_cut(m, id, r);
        lemma_cut_list(m, id, r, n);
        lemma_cut_heard(m, id, r, n);
        let q = cut_all(p, id, ranges, i).0;
        assert forall|x: int, j: int|
            i <= j < ranges.len() && (#[trigger] ranges[j]).0 <= timeline_time(p, id, x)
                < ranges[j].1 implies !#[trigger] heard(q, id, n + 1, x) by {
            if j > i {
                assert(!heard(m, id, n, x));
            }
        }
    }
}

proof fn lemma_collected_all<A, B>(s: Seq<A>, f: spec_fn(A) -> Option<B>)
    requires
        forall|i: int| 0 <= i < s.len() ==> f(#[trigger] s[i]) is Some,
    ensures
        collected(s, f).len() == s.len(),
        forall|i: int| 0 <= i < s.len() ==> f(s[i]) == Some(#[trigger] collected(s, f)[i]),
    decreases s.len(),
{
    if s.len() > 0 {
        let rest = s.drop_last();
        assert forall|i: int| 0 <= i < rest.len() implies f(#[trigger] rest[i]) is Some by {
            assert(rest[i] == s[i]);
        }
        lemma_collected_all(rest, f);
        assert(f(s[s.len() - 1]) is Some);
        assert forall|i: int| 0 <= i < s.len() implies f(s[i]) == Some(
            #[trigger] collected(s, f)[i],
        ) by {
            if i < rest.len() {
                assert(collected(s, f)[i] == collected(rest, f)[i]);
                assert(rest[i] == s[i]);
            }
        }
    }
}

/// Silent ranges of the media that a clip plays, each longer than a twentieth
/// of a second and further than that from the others and from the ends of what
/// the clip plays.
pub open spec fn apart(p: ProjectView, id: Seq<char>, silent: Seq<(int, int)>) -> bool {
    let c = found(p, id)->0;
    let from = media_offset(c.element);
    let to = from + play_length(p, id, c);
    &&& forall|i: int|
        0 <= i < silent.len() ==> from + TWENTIETH < (#[trigger] silent[i]).0 && silent[i].0
            + TWENTIETH < silent[i].1 && silent[i].1 + TWENTIETH < to
    &&& forall|i: int, j: int|
        0 <= i < silent.len() && 0 <= j < silent.len() && i != j ==> (#[trigger] silent[i]).1
            + TWENTIETH < (#[trigger] silent[j]).0 || silent[j].1 + TWENTIETH < silent[i].0
}

proof fn lemma_spaced(p: ProjectView, id: Seq<char>, silent: Seq<(int, int)>)
    requires
        found(p, id) is Some,
        plays_media(found(p, id)->0.element),
        apart(p, id, silent),
    ensures
        spaced(p, id, stretches(p, id, silent)),
        stretches(p, id, silent).len() == silent.len(),
        forall|i: int|
            0 <= i < silent.len() ==> stretches(p, id, silent).contains(
                (
                    timeline_time(p, id, (#[trigger] silent[i]).0),
                    timeline_time(p, id, silent[i].1),
                ),
            ),
{
    let c = found(p, id)->0;
    let mapper = timeline_mapper(c, timeline_start(p, id));
    let some = collected(silent, mapper);
    let ranges = stretches(p, id, silent);
    assert forall|i: int| 0 <= i < silent.len() implies mapper(#[trigger] silent[i]) == Some(
        (timeline_time(p, id, silent[i].0), timeline_time(p, id, silent[i].1)),
    ) by {
        assert(silent[i].0 + TWENTIETH < silent[i].1);
    }
    lemma_collected_all(silent, mapper);
    law_by_start(some);
    some.to_multiset_ensures();
    ranges.to_multiset_ensures();
    assert(ranges.len() == some.len());
    assert forall|i: int, j: int| 0 <= i < some.len() && 0 <= j < some.len() && i != j implies some[i]
        != some[j] by {
        assert(silent[i].1 + TWENTIETH < silent[j].0 || silent[j].1 + TWENTIETH < silent[i].0);
        assert(mapper(silent[i]) == Some(some[i]));
        assert(mapper(silent[j]) == Some(some[j]));
        assert(silent[i].0 + TWENTIETH < silent[i].1);
        assert(silent[j].0 + TWENTIETH < silent[j].1);
    }
    some.lemma_multiset_has_no_duplicates();
    ranges.lemma_multiset_has_no_duplicates_conv();
    assert forall|i: int| 0 <= i < silent.len() implies ranges.contains(
        (timeline_time(p, id, (#[trigger] silent[i]).0), timeline_time(p, id, silent[i].1)),
    ) by {
        assert(mapper(silent[i]) == Some(some[i]));
        assert(some.contains(some[i]));
        assert(ranges.to_multiset().count(some[i]) > 0);
    }
    assert forall|j: int| 0 <= j < ranges.len() implies exists|i: int|
        0 <= i < silent.len() && #[trigger] ranges[j] == (
            timeline_time(p, id, (#[trigger] silent[i]).0),
            timeline_time(p, id, silent[i].1),
        ) by {
        lemma_stretch_from(p, id, silent, j);
        let i = choose|i: int|
            0 <= i < silent.len() && crate::desilence::on_timeline(
                c,
                timeline_start(p, id),
                #[trigger] silent[i],
            ) == Some(ranges[j]);
        assert(mapper(silent[i]) == Some(ranges[j]));
    }
    assert forall|j: int| 0 <= j < ranges.len() implies timeline_start(p, id) + TWENTIETH < (
    #[trigger] ranges[j]).0 && ranges[j].0 + TWENTIETH < ranges[j].1 && ranges[j].1 + TWENTIETH
        < timeline_start(p, id) + play_length(p, id, c) by {
        let i = choose|i: int|
            0 <= i < silent.len() && ranges[j] == (
                timeline_time(p, id, (#[trigger] silent[i]).0),
                timeline_time(p, id, silent[i].1),
            );
        assert(silent[i].0 + TWENTIETH < silent[i].1);
    }
    assert forall|j: int, k: int| 0 <= j < k < ranges.len() implies (#[trigger] ranges[j]).1
        + TWENTIETH < (#[trigger] ranges[k]).0 by {
        let a = choose|i: int|
            0 <= i < silent.len() && ranges[j] == (
                timeline_time(p, id, (#[trigger] silent[i]).0),
                timeline_time(p, id, silent[i].1),
            );
        let b = choose|i: int|
            0 <= i < silent.len() && ranges[k] == (
                timeline_time(p, id, (#[trigger] silent[i]).0),
                timeline_time(p, id, silent[i].1),
            );
        assert(ranges[j] != ranges[k]);
        assert(a != b);
        assert(ranges[j].0 <= ranges[k].0);
        assert(silent[a].1 + TWENTIETH < silent[b].0 || silent[b].1 + TWENTIETH < silent[a].0);
        assert(silent[b].0 + TWENTIETH < silent[b].1);
    }
}

/// Silence that lies well inside what a clip plays is removed, all of it: of
/// the media that the clip played, exactly what no silent range holds is left,
/// and each range leaves one more piece.
pub proof fn law_silence_gone(p: ProjectView, id: Seq<char>, silent: Seq<(int, int)>, m: int)
    requires
        found(p, id) is Some,
        found(p, id)->0.start >= 0,
        plays_media(found(p, id)->0.element),
        apart(p, id, silent),
    ensures
        ({
            let (q, n) = cut_all(p, id, stretches(p, id, silent), 0);
            &&& n == silent.len()
            &&& heard(q, id, n, m) <==> heard(p, id, 0, m) && (forall|i: int|
                0 <= i < silent.len() ==> !((#[trigger] silent[i]).0 <= m < silent[i].1))
        }),
{
    let ranges = stretches(p, id, silent);
    let (q, n) = cut_all(p, id, ranges, 0);
    lemma_spaced(p, id, silent);
    lemma_all_gone(p, id, ranges, 0);
    law_silence_only(p, id, silent, m);
    assert forall|i: int| 0 <= i < silent.len() && (#[trigger] silent[i]).0 <= m
        < silent[i].1 implies !heard(q, id, n, m) by {
        let x = (timeline_time(p, id, silent[i].0), timeline_time(p, id, silent[i].1));
        assert(ranges.contains(x));
        let j = choose|j: int| 0 <= j < ranges.len() && ranges[j] == x;
        assert(ranges[j].0 <= timeline_time(p, id, m) < ranges[j].1);
    }
}

/// A clip dragged in the preview changes its place in the picture alone, to
/// where the drag leads, and every other clip stays as it is.
pub proof fn law_dragged_clip(
    p: ProjectView,
    id: Seq<char>,
    at: (int, int),
    d: (int, int),
    scale: int,
    other: Seq<char>,
)
    requires
        found(p, id) is Some,
        other != id,
    ensures
        ({
            let q = crate::snap::dragged_project(p, id, at, d, scale);
            let c = found(p, id)->0;
            let r = found(q, id)->0;
            &&& spot_of(q, id) == spot_of(p, id)
            &&& r.transform.x == crate::snap::dragged(at.0, d.0, scale) as i128
            &&& r.transform.y == crate::snap::dragged(at.1, d.1, scale) as i128
            &&& r.transform.width == c.transform.width && r.transform.height == c.transform.height
                && r.transform.opacity == c.transform.opacity
            &&& r == (ClipView { transform: r.transform, ..c })
            &&& found(q, other) == found(p, other)
        }),
{
    let x = crate::snap::dragged(at.0, d.0, scale) as i128;
    let y = crate::snap::dragged(at.1, d.1, scale) as i128;
    let f = |c: ClipView|
        ClipView { transform: crate::document::Transform { x, y, ..c.transform }, ..c };
    lemma_spot(p, id);
    law_edited(p, id, f, other);
    assert(crate::snap::dragged_project(p, id, at, d, scale) == edited(p, id, f));
}

} // verus!
