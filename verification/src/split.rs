//! Splitting a clip in two at a point in time.

use vstd::prelude::*;
use crate::document::{Anim, AnimView, Clip, ClipView, Element, ElementView, Keyframe};
use crate::document::{KeyframeView, Project, ProjectView};
use crate::error::EditError;
use crate::fixed::{ease, eased, fraction, larger, max, mix, mixed, progress, within, HORIZON};
use crate::fixed::{LIMIT, TWENTIETH};
use crate::ids::{free_id, fresh_id};
use crate::text::joined;
use crate::timeline::{found, lemma_scene_position, lemma_track_position, offset_of};
use crate::timeline::{position_in, scene_with, spot_of, track_with, with_layers, with_track, Spot};
use crate::validate::all_ids;
use crate::views::{collected, lemma_collected_step, views};

verus! {

broadcast use crate::views::group_views;

/// The value of a tween at time `t`: eased from `from` to `to` over its
/// window, held at either end.
pub open spec fn tween_at(a: AnimView, t: int) -> int {
    if a.end <= a.start {
        a.to
    } else {
        mixed(a.from, a.to, eased(a.easing, progress(t, a.start, a.end)))
    }
}

/// The share of a keyframe that falls at or before `cut`.
pub open spec fn keyframe_before(cut: int) -> spec_fn(KeyframeView) -> Option<KeyframeView> {
    |k: KeyframeView|
        if k.t <= cut {
            Some(k)
        } else {
            None
        }
}

/// The share of a keyframe that falls at or after `cut`, timed from `cut`.
pub open spec fn keyframe_after(cut: int) -> spec_fn(KeyframeView) -> Option<KeyframeView> {
    |k: KeyframeView|
        if k.t >= cut {
            Some(KeyframeView { t: k.t - cut, ..k })
        } else {
            None
        }
}

/// The share of an animation in the time before `cut`: a straddling tween
/// ends there with the value it has reached.
pub open spec fn anim_before(a: AnimView, cut: int) -> Option<AnimView> {
    if a.keyframes.len() > 0 {
        let kept = collected(a.keyframes, keyframe_before(cut));
        if kept.len() < 2 {
            None
        } else {
            Some(AnimView { keyframes: kept, ..a })
        }
    } else if a.start >= cut {
        None
    } else if a.end > cut {
        Some(AnimView { to: tween_at(a, cut), end: cut, ..a })
    } else {
        Some(a)
    }
}

/// The share of an animation in the time after `cut`, timed from `cut`: a
/// straddling tween starts there with the value it has reached.
pub open spec fn anim_after(a: AnimView, cut: int) -> Option<AnimView> {
    if a.keyframes.len() > 0 {
        let kept = collected(a.keyframes, keyframe_after(cut));
        if kept.len() < 2 {
            None
        } else {
            Some(AnimView { keyframes: kept, ..a })
        }
    } else if a.end <= cut {
        None
    } else if a.start < cut {
        Some(AnimView { from: tween_at(a, cut), start: 0, end: a.end - cut, ..a })
    } else {
        Some(AnimView { start: a.start - cut, end: a.end - cut, ..a })
    }
}

pub open spec fn anims_before(cut: int) -> spec_fn(AnimView) -> Option<AnimView> {
    |a: AnimView| anim_before(a, cut)
}

pub open spec fn anims_after(cut: int) -> spec_fn(AnimView) -> Option<AnimView> {
    |a: AnimView| anim_after(a, cut)
}

/// The element with its media started `by` later.
pub open spec fn advanced(e: ElementView, by: int) -> ElementView {
    match e {
        ElementView::Video { src, offset, volume, rate } => ElementView::Video {
            src,
            offset: offset + by,
            volume,
            rate,
        },
        ElementView::Audio { src, offset, volume, rate } => ElementView::Audio {
            src,
            offset: offset + by,
            volume,
            rate,
        },
        _ => e,
    }
}

/// What stays of a clip before `cut`.
pub open spec fn left_part(c: ClipView, cut: int) -> ClipView {
    ClipView { duration: cut, animations: collected(c.animations, anims_before(cut)), ..c }
}

/// The new clip that takes over at `cut` from a clip of length `length`.
pub open spec fn right_part(c: ClipView, cut: int, length: int, id: Seq<char>) -> ClipView {
    ClipView {
        id,
        start: c.start + cut,
        duration: length - cut,
        element: advanced(c.element, cut),
        animations: collected(c.animations, anims_after(cut)),
        ..c
    }
}

/// The length of a clip that is to be split: a clip without a duration runs
/// to the end of its scene, or on without end on an overlay track.
pub open spec fn split_length(p: ProjectView, spot: Spot, c: ClipView) -> int {
    if c.duration > 0 {
        c.duration
    } else {
        match spot {
            Spot::Layer { scene, index } => max(p.scenes[scene].duration - c.start, 0),
            _ => max(LIMIT - c.start, 0),
        }
    }
}

/// Where time 0 of a clip's container stands on the timeline.
pub open spec fn base_time(p: ProjectView, spot: Spot) -> int {
    match spot {
        Spot::Layer { scene, index } => offset_of(p.scenes, scene),
        _ => 0,
    }
}

/// Where a split at timeline time `t` cuts the clip, from its start.
pub open spec fn cut_of(p: ProjectView, id: Seq<char>, t: int) -> int {
    t - base_time(p, spot_of(p, id)) - found(p, id)->0.start
}

/// The split point keeps a twentieth of a second from either end.
pub open spec fn cuts_inside(p: ProjectView, id: Seq<char>, t: int) -> bool {
    let cut = cut_of(p, id, t);
    let length = split_length(p, spot_of(p, id), found(p, id)->0);
    TWENTIETH < cut < length - TWENTIETH
}

/// The id of the new clip.
pub open spec fn split_id(p: ProjectView, id: Seq<char>) -> Seq<char> {
    free_id(p, id + "-"@, 2)
}

/// The clips with the one at `index` split.
pub open spec fn split_list(
    clips: Seq<ClipView>,
    index: int,
    cut: int,
    length: int,
    id: Seq<char>,
) -> Seq<ClipView> {
    clips.update(index, left_part(clips[index], cut)).insert(
        index + 1,
        right_part(clips[index], cut, length, id),
    )
}

/// The document after a split: the new clip stands next to the old one.
pub open spec fn split_project(p: ProjectView, id: Seq<char>, t: int) -> ProjectView {
    let spot = spot_of(p, id);
    let c = found(p, id)->0;
    let cut = cut_of(p, id, t);
    let length = split_length(p, spot, c);
    match spot {
        Spot::Layer { scene, index } => with_layers(
            p,
            scene,
            split_list(p.scenes[scene].layers, index, cut, length, split_id(p, id)),
        ),
        Spot::Overlay { track, index } => with_track(
            p,
            track,
            split_list(p.overlays[track].clips, index, cut, length, split_id(p, id)),
        ),
        Spot::Absent => p,
    }
}

impl Anim {
    /// The value of a tween at time `t`.
    pub fn value_at(&self, t: i128) -> (r: i128)
        requires
            self@.fits(4),
            within(t as int, 32),
        ensures
            r == tween_at(self@, t as int),
            within(r as int, 4),
    {
        if self.end <= self.start {
            return self.to;
        }
        let p: i128 = fraction(t, self.start, self.end);
        mix(self.from, self.to, ease(self.easing, p))
    }

    fn before(&self, cut: i128) -> (r: Option<Anim>)
        requires
            self@.fits(4),
            within(cut as int, 32),
        ensures
            match r {
                Some(a) => anim_before(self@, cut as int) == Some(a@),
                None => anim_before(self@, cut as int) is None,
            },
    {
        let mut a: Anim = self.clone();
        if self.keyframes.len() > 0 {
            let mut kept: Vec<Keyframe> = Vec::new();
            let mut i: usize = 0;
            let ghost all = views(self.keyframes@);
            let ghost f = keyframe_before(cut as int);
            while i < self.keyframes.len()
                invariant
                    i <= self.keyframes.len(),
                    all == views(self.keyframes@),
                    f == keyframe_before(cut as int),
                    views(kept@) == collected(all.take(i as int), f),
                decreases self.keyframes.len() - i,
            {
                let k: Keyframe = self.keyframes[i];
                proof {
                    lemma_collected_step(all, f, i as int);
                }
                if k.t <= cut {
                    kept.push(k);
                }
                i += 1;
            }
            assert(all.take(i as int) =~= all);
            if kept.len() < 2 {
                return None;
            }
            a.keyframes = kept;
            return Some(a);
        }
        if self.start >= cut {
            return None;
        }
        if self.end > cut {
            a.to = self.value_at(cut);
            a.end = cut;
        }
        Some(a)
    }

    fn after(&self, cut: i128) -> (r: Option<Anim>)
        requires
            self@.fits(4),
            within(cut as int, 32),
        ensures
            match r {
                Some(a) => anim_after(self@, cut as int) == Some(a@),
                None => anim_after(self@, cut as int) is None,
            },
    {
        let mut a: Anim = self.clone();
        if self.keyframes.len() > 0 {
            let mut kept: Vec<Keyframe> = Vec::new();
            let mut i: usize = 0;
            let ghost all = views(self.keyframes@);
            let ghost f = keyframe_after(cut as int);
            while i < self.keyframes.len()
                invariant
                    i <= self.keyframes.len(),
                    self@.fits(4),
                    within(cut as int, 32),
                    all == views(self.keyframes@),
                    f == keyframe_after(cut as int),
                    views(kept@) == collected(all.take(i as int), f),
                decreases self.keyframes.len() - i,
            {
                let k: Keyframe = self.keyframes[i];
                proof {
                    lemma_collected_step(all, f, i as int);
                    assert(within(self@.keyframes[i as int].t, 4));
                }
                if k.t >= cut {
                    kept.push(Keyframe { t: k.t - cut, value: k.value, easing: k.easing });
                }
                i += 1;
            }
            assert(all.take(i as int) =~= all);
            if kept.len() < 2 {
                return None;
            }
            a.keyframes = kept;
            return Some(a);
        }
        if self.end <= cut {
            return None;
        }
        if self.start < cut {
            a.from = self.value_at(cut);
            a.start = 0;
        } else {
            a.start = self.start - cut;
        }
        a.end = self.end - cut;
        Some(a)
    }
}

/// Both halves of a clip, cut at `cut`.
fn halves(clip: &Clip, cut: i128, length: i128, id: String) -> (r: (Clip, Clip))
    requires
        clip@.fits(4),
        0 < cut < length,
        within(length as int, 20),
    ensures
        r.0@ == left_part(clip@, cut as int),
        r.1@ == right_part(clip@, cut as int, length as int, id@),
{
    let mut left_anims: Vec<Anim> = Vec::new();
    let mut right_anims: Vec<Anim> = Vec::new();
    let ghost all = views(clip.animations@);
    let ghost fl = anims_before(cut as int);
    let ghost fr = anims_after(cut as int);
    let mut i: usize = 0;
    while i < clip.animations.len()
        invariant
            i <= clip.animations.len(),
            clip@.fits(4),
            within(cut as int, 32),
            all == views(clip.animations@),
            fl == anims_before(cut as int),
            fr == anims_after(cut as int),
            views(left_anims@) == collected(all.take(i as int), fl),
            views(right_anims@) == collected(all.take(i as int), fr),
        decreases clip.animations.len() - i,
    {
        proof {
            lemma_collected_step(all, fl, i as int);
            lemma_collected_step(all, fr, i as int);
            assert(clip@.animations[i as int].fits(4));
        }
        if let Some(a) = clip.animations[i].before(cut) {
            left_anims.push(a);
        }
        if let Some(a) = clip.animations[i].after(cut) {
            right_anims.push(a);
        }
        i += 1;
    }
    assert(all.take(i as int) =~= all);
    let mut left: Clip = clip.clone();
    left.duration = cut;
    left.animations = left_anims;
    let element: Element = match &clip.element {
        Element::Video { src, offset, volume, rate } => Element::Video {
            src: src.clone(),
            offset: *offset + cut,
            volume: *volume,
            rate: *rate,
        },
        Element::Audio { src, offset, volume, rate } => Element::Audio {
            src: src.clone(),
            offset: *offset + cut,
            volume: *volume,
            rate: *rate,
        },
        other => other.clone(),
    };
    let mut right: Clip = clip.clone();
    right.id = id;
    right.start = clip.start + cut;
    right.duration = length - cut;
    right.element = element;
    right.animations = right_anims;
    (left, right)
}

/// Split a clip at an absolute timeline time. The clip keeps the left
/// side; a new clip (returned id) takes the right, with media offsets advanced
/// and animations divided between the halves.
pub fn split_clip(project: &mut Project, id: &str, abs_time: i128) -> (r: Result<String, EditError>)
    requires
        old(project)@.fits(16),
        found(old(project)@, id@) is Some ==> found(old(project)@, id@)->0.fits(4),
        -HORIZON <= abs_time <= HORIZON,
        all_ids(old(project)@).len() < u64::MAX - 2,
    ensures
        match r {
            Ok(new_id) => {
                &&& found(old(project)@, id@) is Some
                &&& cuts_inside(old(project)@, id@, abs_time as int)
                &&& new_id@ == split_id(old(project)@, id@)
                &&& found(old(project)@, new_id@) is None
                &&& final(project)@ == split_project(old(project)@, id@, abs_time as int)
            },
            Err(EditError::NoClip) => found(old(project)@, id@) is None && final(project)@ == old(
                project,
            )@,
            Err(EditError::SplitOutside) => found(old(project)@, id@) is Some && !cuts_inside(
                old(project)@,
                id@,
                abs_time as int,
            ) && final(project)@ == old(project)@,
            Err(_) => false,
        },
{
    let ghost before = project@;
    let scene: Option<usize> = scene_with(project, id);
    let track: Option<usize> = track_with(project, id);
    proof {
        lemma_scene_position(before.scenes, id@);
        lemma_track_position(before.overlays, id@);
    }
    let (base, span): (i128, i128) = match scene {
        Some(s) => {
            assert(before.scenes[s as int].fits(16));
            (project.scene_offset(s), project.scenes[s].duration)
        },
        None => {
            if track.is_none() {
                return Err(EditError::NoClip);
            }
            (0, LIMIT)
        },
    };
    let new_id: String = fresh_id(project, joined(id, "-").as_str(), 2);
    let index: usize = match scene {
        Some(s) => match position_in(&project.scenes[s].layers, id) {
            Some(i) => i,
            None => 0,
        },
        None => match position_in(&project.overlays[track.unwrap()].clips, id) {
            Some(i) => i,
            None => 0,
        },
    };
    let clip: &Clip = match scene {
        Some(s) => &project.scenes[s].layers[index],
        None => &project.overlays[track.unwrap()].clips[index],
    };
    assert(found(before, id@) == Some(clip@));
    let length: i128 = if clip.duration > 0 {
        clip.duration
    } else {
        larger(span - clip.start, 0)
    };
    let cut: i128 = abs_time - base - clip.start;
    if cut <= TWENTIETH || cut >= length - TWENTIETH {
        return Err(EditError::SplitOutside);
    }
    let (left, right): (Clip, Clip) = halves(clip, cut, length, new_id.clone());
    match scene {
        Some(s) => {
            project.scenes[s].layers.set(index, left);
            project.scenes[s].layers.insert(index + 1, right);
        },
        None => {
            let t: usize = track.unwrap();
            project.overlays[t].clips.set(index, left);
            project.overlays[t].clips.insert(index + 1, right);
        },
    }
    proof {
        let after = split_project(before, id@, abs_time as int);
        assert(project@.scenes =~= after.scenes);
        assert(project@.overlays =~= after.overlays);
    }
    Ok(new_id)
}

pub proof fn lemma_clip_fits(c: ClipView, a: int, b: int)
    requires
        c.fits(a),
        0 <= a <= b,
    ensures
        c.fits(b),
{
    assert(a * LIMIT <= b * LIMIT) by (nonlinear_arith)
        requires
            a <= b,
    ;
    assert forall|i: int| 0 <= i < c.animations.len() implies (#[trigger] c.animations[i]).fits(
        b,
    ) by {
        assert(c.animations[i].fits(a));
    }
    assert forall|i: int| 0 <= i < c.effects.len() implies (#[trigger] c.effects[i]).fits(b) by {
        assert(c.effects[i].fits(a));
    }
}

pub proof fn lemma_clips_fit(clips: Seq<ClipView>, a: int, b: int)
    requires
        crate::document::clips_fit(clips, a),
        0 <= a <= b,
    ensures
        crate::document::clips_fit(clips, b),
{
    assert forall|i: int| 0 <= i < clips.len() implies (#[trigger] clips[i]).fits(b) by {
        lemma_clip_fits(clips[i], a, b);
    }
}

} // verus!
