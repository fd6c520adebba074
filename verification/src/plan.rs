//! Putting the plan of a whole document together.

use vstd::prelude::*;
use crate::adjust::{adjust, adjusted, lane_state, on_lane};
use crate::compile::{add_clip, clip_slot_depth, clips_plan, defs_expandable, expandable};
use crate::compile::{expanded, in_scene, layer_total, overlay_clip_plan, scaled, scene_clip_plan};
use crate::compile::{scene_plan, scenes_plan, slot_base, slot_count, slot_width};
use crate::compile::{track_plan, tracks_plan, widest, widest_layer, wipe_views, wipes_upto};
use crate::compile::{expanded_layers, instance, slot_depth, slot_depths};
use crate::compile::{Plan, PlannedClip, PlannedView, Wipe};
use crate::cycles::{acyclic, def_of};
use crate::document::{clips_fit, Clip, ClipView, CompDefView, OverlayTrack, Project, ProjectView};
use crate::document::{Scene, SceneView, TransitionKind};
use crate::faults::{clip_ok, rate_anim_fault, ValidateError};
use crate::fixed::{min, within, HORIZON, LIMIT, UNIT};
use crate::nesting::law_slot_depth;
use crate::ramp::{lemma_rate_index, ramp, rate_index, rate_keyframes};
use crate::split::lemma_clips_fit;
use crate::textmap::lookup;
use crate::timeline::{effective_duration, layer_slots, max_layers, offset_of};
use crate::validate::{clips_ok, project_fault, valid};
use crate::views::views;

verus! {

broadcast use crate::views::group_views;

proof fn lemma_widest(defs: Seq<(Seq<char>, CompDefView)>, clips: Seq<ClipView>, n: nat)
    ensures
        widest(defs, clips, n) >= 1,
    decreases n,
{
    if n > 0 {
        lemma_widest(defs, clips, (n - 1) as nat);
    }
}

proof fn lemma_widest_layer(p: ProjectView, li: int, n: nat)
    ensures
        widest_layer(p, li, n) >= 1,
    decreases n,
{
    if n > 0 {
        lemma_widest_layer(p, li, (n - 1) as nat);
    }
}

proof fn lemma_slot_width(p: ProjectView, i: int)
    ensures
        slot_width(p, i) >= 1,
{
    if i < p.overlays.len() {
        lemma_widest(p.defs, p.overlays[i].clips, p.overlays[i].clips.len());
    } else {
        lemma_widest_layer(p, i - p.overlays.len(), p.scenes.len());
    }
}

proof fn lemma_slot_base(p: ProjectView, i: int, j: int)
    requires
        0 <= i <= j,
    ensures
        slot_base(p, i) <= slot_base(p, j),
        j <= slot_base(p, j),
    decreases j,
{
    if j > 0 {
        lemma_slot_width(p, j - 1);
        if i < j {
            lemma_slot_base(p, i, j - 1);
        } else {
            lemma_slot_base(p, 0, j - 1);
        }
    }
}

proof fn lemma_max_layers(scenes: Seq<SceneView>, s: int)
    requires
        0 <= s < scenes.len(),
    ensures
        scenes[s].layers.len() <= max_layers(scenes),
    decreases scenes.len(),
{
    if s < scenes.len() - 1 {
        assert(scenes.drop_last()[s] == scenes[s]);
        lemma_max_layers(scenes.drop_last(), s);
    }
}

proof fn lemma_max_layers_natural(scenes: Seq<SceneView>)
    ensures
        max_layers(scenes) >= 0,
    decreases scenes.len(),
{
    if scenes.len() > 0 {
        lemma_max_layers_natural(scenes.drop_last());
    }
}

fn widest_of(project: &Project, clips: &Vec<Clip>) -> (r: usize)
    ensures
        r == min(
            widest(project@.defs, views(clips@), views(clips@).len()),
            usize::MAX as int,
        ),
{
    let mut most: usize = 1;
    let mut n: usize = 0;
    while n < clips.len()
        invariant
            n <= clips.len(),
            most == min(widest(project@.defs, views(clips@), n as nat), usize::MAX as int),
        decreases clips.len() - n,
    {
        assert(views(clips@)[n as int] == clips@[n as int]@);
        let one: usize = clip_slot_depth(project, &clips[n]);
        if one > most {
            most = one;
        }
        n += 1;
    }
    most
}

fn widest_in_layer(project: &Project, li: usize) -> (r: usize)
    ensures
        r == min(widest_layer(project@, li as int, project@.scenes.len()), usize::MAX as int),
{
    let mut most: usize = 1;
    let mut n: usize = 0;
    while n < project.scenes.len()
        invariant
            n <= project.scenes.len(),
            most == min(widest_layer(project@, li as int, n as nat), usize::MAX as int),
        decreases project.scenes.len() - n,
    {
        let scene: &Scene = &project.scenes[n];
        assert(project@.scenes[n as int] == scene@);
        if li < scene.layers.len() {
            assert(views(scene.layers@)[li as int] == scene.layers@[li as int]@);
            let one: usize = clip_slot_depth(project, &scene.layers[li]);
            if one > most {
                most = one;
            }
        }
        n += 1;
    }
    most
}

/// First engine layer of each slot, and the number of all of them.
fn bases(project: &Project) -> (r: Vec<usize>)
    requires
        layer_total(project@) <= usize::MAX,
    ensures
        r@.len() == slot_count(project@) + 1,
        forall|i: int| 0 <= i < r@.len() ==> #[trigger] r@[i] == slot_base(project@, i),
{
    let ghost p = project@;
    let slots: usize = layer_slots(project);
    let lanes: usize = if slots > 1 {
        slots
    } else {
        1
    };
    let overlays: usize = project.overlays.len();
    proof {
        lemma_max_layers_natural(p.scenes);
        lemma_slot_base(p, 0, slot_count(p));
    }
    let mut r: Vec<usize> = Vec::new();
    r.push(0);
    let mut i: usize = 0;
    while i < overlays + lanes
        invariant
            p == project@,
            overlays == p.overlays.len(),
            overlays + lanes == slot_count(p),
            slot_count(p) <= usize::MAX,
            layer_total(p) <= usize::MAX,
            i <= overlays + lanes,
            r@.len() == i + 1,
            forall|j: int| 0 <= j <= i ==> #[trigger] r@[j] == slot_base(p, j),
        decreases overlays + lanes - i,
    {
        let width: usize = if i < overlays {
            assert(p.overlays[i as int] == project.overlays@[i as int]@);
            widest_of(project, &project.overlays[i].clips)
        } else {
            widest_in_layer(project, i - overlays)
        };
        proof {
            lemma_slot_base(p, i + 1, slot_count(p));
            lemma_slot_base(p, 0, i as int);
            assert(slot_base(p, i + 1) == slot_base(p, i as int) + slot_width(p, i as int));
        }
        let next: usize = r[i] + width;
        r.push(next);
        i += 1;
    }
    r
}

/// Whether the engine layers of a plan can be counted on this machine.
pub fn layers_countable(project: &Project) -> (r: bool)
    ensures
        r == (layer_total(adjusted(project@)) < usize::MAX),
{
    let q: Project = adjust(project);
    let ghost p = q@;
    let slots: usize = layer_slots(&q);
    let lanes: usize = if slots > 1 {
        slots
    } else {
        1
    };
    let overlays: usize = q.overlays.len();
    proof {
        lemma_max_layers_natural(p.scenes);
        lemma_slot_base(p, 0, slot_count(p));
    }
    let count: usize = match overlays.checked_add(lanes) {
        Some(n) => n,
        None => return false,
    };
    let mut total: usize = 0;
    let mut i: usize = 0;
    while i < count
        invariant
            p == q@,
            p == adjusted(project@),
            overlays == p.overlays.len(),
            count == slot_count(p),
            i <= count,
            total == slot_base(p, i as int),
        decreases count - i,
    {
        let width: usize = if i < overlays {
            assert(p.overlays[i as int] == q.overlays@[i as int]@);
            widest_of(&q, &q.overlays[i].clips)
        } else {
            widest_in_layer(&q, i - overlays)
        };
        proof {
            lemma_slot_base(p, i + 1, slot_count(p));
            assert(slot_base(p, i + 1) == slot_base(p, i as int) + slot_width(p, i as int));
        }
        proof {
            lemma_slot_base(p, 0, i as int);
        }
        total =
        match total.checked_add(width) {
            Some(t) => t,
            None => return false,
        };
        if width == usize::MAX {
            return false;
        }
        i += 1;
    }
    total < usize::MAX
}

proof fn lemma_lane_expandable(c: ClipView, defs: Seq<(Seq<char>, CompDefView)>, m: bool, h: bool)
    requires
        c.fits(1),
        clip_ok(c, defs),
    ensures
        expandable(on_lane(c, m, h)),
        on_lane(c, m, h).fits(1),
{
    let a = on_lane(c, m, h);
    crate::split::lemma_clip_fits(a, 1, 4);
    lemma_rate_index(c.animations);
    let i = rate_index(c.animations);
    if i < c.animations.len() {
        assert(rate_anim_fault(c.animations[i]) is None);
        let k = rate_keyframes(a);
        assert(k == c.animations[i].keyframes);
        assert forall|j: int| 0 <= j < k.len() implies -10 * UNIT <= (#[trigger] k[j]).value <= 10
            * UNIT by {
            assert(crate::faults::rate_ok(c.animations[i].keyframes[j].value));
        }
    }
}

/// The document with mute and hide applied is as well behaved as the document
/// itself.
proof fn lemma_adjusted_expandable(p: ProjectView)
    requires
        valid(p),
        p.fits(1),
    ensures
        adjusted(p).fits(1),
        adjusted(p).fits(16),
        defs_expandable(adjusted(p).defs),
        forall|t: int, k: int|
            0 <= t < p.overlays.len() && 0 <= k < p.overlays[t].clips.len() ==> expandable(
                #[trigger] adjusted(p).overlays[t].clips[k],
            ),
        forall|s: int, k: int|
            0 <= s < p.scenes.len() && 0 <= k < p.scenes[s].layers.len() ==> expandable(
                #[trigger] adjusted(p).scenes[s].layers[k],
            ),
{
    let q = adjusted(p);
    assert forall|i: int, k: int|
        0 <= i < p.defs.len() && 0 <= k < p.defs[i].1.layers.len() implies ({
        let c = #[trigger] p.defs[i].1.layers[k];
        expandable(c) && within(c.start, 1) && within(c.duration, 1)
    }) by {
        let c = p.defs[i].1.layers[k];
        assert(clips_fit(p.defs[i].1.layers, 1));
        assert(clips_ok(p.defs[i].1.layers, p.defs));
        assert(c.fits(1));
        lemma_lane_expandable(c, p.defs, false, false);
        assert(on_lane(c, false, false) == c);
    }
    assert forall|t: int| 0 <= t < p.overlays.len() implies clips_fit(
        (#[trigger] q.overlays[t]).clips,
        1,
    ) && forall|k: int|
        0 <= k < p.overlays[t].clips.len() ==> expandable(#[trigger] q.overlays[t].clips[k]) by {
        let track = p.overlays[t];
        assert(clips_fit(track.clips, 1));
        assert(clips_ok(track.clips, p.defs));
        assert forall|k: int| 0 <= k < track.clips.len() implies expandable(
            #[trigger] q.overlays[t].clips[k],
        ) && q.overlays[t].clips[k].fits(1) by {
            assert(track.clips[k].fits(1));
            lemma_lane_expandable(track.clips[k], p.defs, track.muted, track.hidden);
        }
    }
    assert forall|s: int| 0 <= s < p.scenes.len() implies (#[trigger] q.scenes[s]).fits(1)
        && forall|k: int|
        0 <= k < p.scenes[s].layers.len() ==> expandable(#[trigger] q.scenes[s].layers[k]) by {
        let scene = p.scenes[s];
        assert(scene.fits(1));
        assert(clips_ok(scene.layers, p.defs));
        assert forall|k: int| 0 <= k < scene.layers.len() implies expandable(
            #[trigger] q.scenes[s].layers[k],
        ) && q.scenes[s].layers[k].fits(1) by {
            assert(scene.layers[k].fits(1));
            let state = lane_state(p.scene_lanes, k);
            lemma_lane_expandable(scene.layers[k], p.defs, state.0, state.1);
        }
    }
    lemma_project_fits(q, 1, 16);
}

pub proof fn lemma_project_fits(p: ProjectView, a: int, b: int)
    requires
        p.fits(a),
        0 <= a <= b,
    ensures
        p.fits(b),
{
    assert(a * LIMIT <= b * LIMIT) by (nonlinear_arith)
        requires
            a <= b,
    ;
    assert forall|i: int| 0 <= i < p.scenes.len() implies (#[trigger] p.scenes[i]).fits(b) by {
        assert(p.scenes[i].fits(a));
        lemma_clips_fit(p.scenes[i].layers, a, b);
    }
    assert forall|i: int| 0 <= i < p.overlays.len() implies clips_fit(
        (#[trigger] p.overlays[i]).clips,
        b,
    ) by {
        lemma_clips_fit(p.overlays[i].clips, a, b);
    }
    assert forall|i: int| 0 <= i < p.defs.len() implies clips_fit(
        (#[trigger] p.defs[i]).1.layers,
        b,
    ) by {
        lemma_clips_fit(p.defs[i].1.layers, a, b);
    }
}

fn plan_tracks(q: &Project, at: &Vec<usize>) -> (r: Vec<PlannedClip>)
    requires
        q@.fits(1),
        defs_expandable(q@.defs),
        forall|t: int, k: int|
            0 <= t < q@.overlays.len() && 0 <= k < q@.overlays[t].clips.len() ==> expandable(
                #[trigger] q@.overlays[t].clips[k],
            ),
        at@.len() == slot_count(q@) + 1,
        forall|i: int| 0 <= i < at@.len() ==> #[trigger] at@[i] == slot_base(q@, i),
    ensures
        views(r@) == tracks_plan(q@, q@.overlays.len()),
{
    let ghost p = q@;
    let mut out: Vec<PlannedClip> = Vec::new();
    let mut t: usize = 0;
    proof {
        lemma_max_layers_natural(p.scenes);
    }
    while t < q.overlays.len()
        invariant
            p == q@,
            t <= q.overlays.len(),
            max_layers(p.scenes) >= 0,
            p.fits(1),
            defs_expandable(p.defs),
            forall|i: int, k: int|
                0 <= i < p.overlays.len() && 0 <= k < p.overlays[i].clips.len() ==> expandable(
                    #[trigger] p.overlays[i].clips[k],
                ),
            at@.len() == slot_count(p) + 1,
            forall|i: int| 0 <= i < at@.len() ==> #[trigger] at@[i] == slot_base(p, i),
            views(out@) == tracks_plan(p, t as nat),
        decreases q.overlays.len() - t,
    {
        let track: &OverlayTrack = &q.overlays[t];
        let ghost so_far = views(out@);
        proof {
            assert(p.overlays[t as int] == track@);
            lemma_slot_width(p, t as int);
            assert(slot_base(p, t + 1) == slot_base(p, t as int) + slot_width(p, t as int));
            assert(at@[t as int] == slot_base(p, t as int));
            assert(at@[t + 1] == slot_base(p, t + 1));
        }
        let base: usize = at[t];
        let width: usize = at[t + 1] - at[t];
        let mut k: usize = 0;
        assert(so_far + track_plan(p, t as int, 0) =~= so_far);
        while k < track.clips.len()
            invariant
                p == q@,
                t < q.overlays.len(),
                k <= track.clips.len(),
                p.overlays[t as int] == track@,
                p.fits(1),
                defs_expandable(p.defs),
                forall|i: int, k: int|
                    0 <= i < p.overlays.len() && 0 <= k < p.overlays[i].clips.len() ==> expandable(
                        #[trigger] p.overlays[i].clips[k],
                    ),
                base == slot_base(p, t as int),
                width == slot_width(p, t as int),
                width >= 1,
                base + width <= usize::MAX,
                views(out@) == so_far + track_plan(p, t as int, k as nat),
            decreases track.clips.len() - k,
        {
            let clip: &Clip = &track.clips[k];
            proof {
                assert(p.overlays[t as int].clips[k as int] == clip@);
                assert(clips_fit(p.overlays[t as int].clips, 1));
                assert(clip@.fits(1));
            }
            let ghost before = views(out@);
            add_clip(&mut out, &q.defs, clip, 0, base, width, q.defs.entries.len());
            proof {
                let one = overlay_clip_plan(p, t as int, k as int);
                assert((so_far + track_plan(p, t as int, k as nat)) + one =~= so_far + (track_plan(
                    p,
                    t as int,
                    k as nat,
                ) + one));
            }
            k += 1;
        }
        t += 1;
    }
    out
}

fn plan_scenes(q: &Project, at: &Vec<usize>, out: &mut Vec<PlannedClip>)
    requires
        q@.fits(1),
        q@.fits(16),
        defs_expandable(q@.defs),
        forall|s: int, k: int|
            0 <= s < q@.scenes.len() && 0 <= k < q@.scenes[s].layers.len() ==> expandable(
                #[trigger] q@.scenes[s].layers[k],
            ),
        at@.len() == slot_count(q@) + 1,
        forall|i: int| 0 <= i < at@.len() ==> #[trigger] at@[i] == slot_base(q@, i),
    ensures
        views(final(out)@) == views(old(out)@) + scenes_plan(q@, q@.scenes.len()),
{
    let ghost p = q@;
    let ghost start = views(out@);
    let overlays: usize = q.overlays.len();
    let mut s: usize = 0;
    assert(start + scenes_plan(p, 0) =~= start);
    while s < q.scenes.len()
        invariant
            p == q@,
            s <= q.scenes.len(),
            overlays == p.overlays.len(),
            p.fits(1),
            p.fits(16),
            defs_expandable(p.defs),
            forall|i: int, k: int|
                0 <= i < p.scenes.len() && 0 <= k < p.scenes[i].layers.len() ==> expandable(
                    #[trigger] p.scenes[i].layers[k],
                ),
            at@.len() == slot_count(p) + 1,
            forall|i: int| 0 <= i < at@.len() ==> #[trigger] at@[i] == slot_base(p, i),
            views(out@) == start + scenes_plan(p, s as nat),
        decreases q.scenes.len() - s,
    {
        let scene: &Scene = &q.scenes[s];
        let offset: i128 = q.scene_offset(s);
        let ghost so_far = views(out@);
        let mut k: usize = 0;
        proof {
            assert(p.scenes[s as int] == scene@);
            assert(p.scenes[s as int].fits(1));
            assert(p.scenes[s as int].fits(16));
            lemma_max_layers(p.scenes, s as int);
            assert(so_far + scene_plan(p, s as int, 0) =~= so_far);
        }
        while k < scene.layers.len()
            invariant
                p == q@,
                s < q.scenes.len(),
                k <= scene.layers.len(),
                overlays == p.overlays.len(),
                p.scenes[s as int] == scene@,
                scene@.fits(1),
                scene@.fits(16),
                p.fits(1),
                scene@.layers.len() <= max_layers(p.scenes),
                offset == offset_of(p.scenes, s as int),
                0 <= offset <= HORIZON,
                defs_expandable(p.defs),
                forall|i: int, k: int|
                    0 <= i < p.scenes.len() && 0 <= k < p.scenes[i].layers.len() ==> expandable(
                        #[trigger] p.scenes[i].layers[k],
                    ),
                at@.len() == slot_count(p) + 1,
                forall|i: int| 0 <= i < at@.len() ==> #[trigger] at@[i] == slot_base(p, i),
                views(out@) == so_far + scene_plan(p, s as int, k as nat),
            decreases scene.layers.len() - k,
        {
            let count: usize = at.len();
            let slot: usize = overlays + k;
            proof {
                assert(p.scenes[s as int].layers[k as int] == scene.layers@[k as int]@);
                assert(scene@.layers[k as int].fits(1));
                assert(scene@.layers[k as int].fits(16));
                lemma_slot_width(p, slot as int);
                assert(slot_base(p, slot + 1) == slot_base(p, slot as int) + slot_width(
                    p,
                    slot as int,
                ));
                assert(at@[slot as int] == slot_base(p, slot as int));
                assert(at@[slot + 1] == slot_base(p, slot + 1));
            }
            let base: usize = at[slot];
            let width: usize = at[slot + 1] - at[slot];
            let mut clip: Clip = scene.layers[k].clone();
            clip.duration = effective_duration(&scene.layers[k], Some(scene));
            proof {
                assert(clip@ == in_scene(scene@.layers[k as int], scene@));
                lemma_same_curves(scene@.layers[k as int], clip@);
            }
            add_clip(out, &q.defs, &clip, offset, base, width, q.defs.entries.len());
            proof {
                let one = scene_clip_plan(p, s as int, k as int);
                assert((so_far + scene_plan(p, s as int, k as nat)) + one =~= so_far + (scene_plan(
                    p,
                    s as int,
                    k as nat,
                ) + one));
            }
            k += 1;
        }
        proof {
            let one = scene_plan(p, s as int, p.scenes[s as int].layers.len());
            assert((start + scenes_plan(p, s as nat)) + one =~= start + (scenes_plan(p, s as nat)
                + one));
        }
        s += 1;
    }
}

proof fn lemma_same_curves(a: ClipView, b: ClipView)
    requires
        expandable(a),
        b.element == a.element,
        b.animations == a.animations,
    ensures
        expandable(b),
{
    assert(rate_keyframes(b) == rate_keyframes(a));
}

fn plan_wipes(q: &Project) -> (r: Vec<Wipe>)
    requires
        q@.fits(16),
    ensures
        wipe_views(r@) == wipes_upto(q@.scenes, q@.scenes.len() as int),
{
    let ghost p = q@;
    let mut out: Vec<Wipe> = Vec::new();
    let mut n: usize = 1;
    assert(wipe_views(out@) =~= Seq::<(int, int, TransitionKind)>::empty());
    if q.scenes.len() == 0 {
        return out;
    }
    while n < q.scenes.len()
        invariant
            p == q@,
            p.fits(16),
            1 <= n <= q.scenes.len(),
            wipe_views(out@) == wipes_upto(p.scenes, n as int),
        decreases q.scenes.len() - n,
    {
        proof {
            assert(p.scenes[n as int] == q.scenes@[n as int]@);
            assert(p.scenes[n as int].fits(16));
        }
        if let Some(t) = &q.scenes[n].transition {
            if t.kind != TransitionKind::Crossfade {
                let start: i128 = q.scene_offset(n);
                let wipe: Wipe = Wipe { start, end: start + t.duration, kind: t.kind };
                let ghost before = wipe_views(out@);
                out.push(wipe);
                assert(wipe_views(out@) =~= before.push(
                    (wipe.start as int, wipe.end as int, wipe.kind),
                ));
            }
        }
        n += 1;
    }
    out
}

/// A frame dimension scaled by `scale`: whole, even, and 2 at least.
pub fn scaled_size(dim: i32, scale: i128) -> (r: i32)
    requires
        within(scale as int, 1),
    ensures
        r == scaled(dim as int, scale as int),
        r >= 2,
        r % 2 == 0,
{
    proof {
        assert(-300_000_000_000_000_000_000_000_000 <= dim * scale
            <= 300_000_000_000_000_000_000_000_000) by (nonlinear_arith)
            requires
                -2_147_483_648 <= dim <= 2_147_483_647,
                -100_000_000_000_000_000 <= scale <= 100_000_000_000_000_000,
        ;
    }
    let product: i128 = (dim as i128) * scale;
    let x: i128 = crate::fixed::floor_div(product, UNIT);
    let y: i32 = if x > 2_147_483_647 {
        2_147_483_647
    } else if x < 2 {
        2
    } else {
        x as i32
    };
    y - y % 2
}

/// Compile with the frame size restricted to `scale` times the project's:
/// previews render faster at half or quarter size while exports keep using
/// [`compile`] at full quality. The document itself is not changed.
pub fn compile_scaled(project: &Project, scale: i128) -> (r: Result<Plan, ValidateError>)
    requires
        project@.fits(1),
        within(scale as int, 1),
        layer_total(adjusted(project@)) < usize::MAX,
    ensures
        r is Ok <==> valid(project@),
        match r {
            Err(e) => project_fault(project@) == Some(e@),
            Ok(plan) => {
                let p = adjusted(project@);
                &&& plan.width == scaled(p.meta.width, scale as int)
                &&& plan.height == scaled(p.meta.height, scale as int)
                &&& plan.fps == p.meta.fps
                &&& plan.layers == layer_total(p)
                &&& views(plan.clips@) == clips_plan(p)
                &&& wipe_views(plan.wipes@) == wipes_upto(p.scenes, p.scenes.len() as int)
            },
        },
{
    match project.validate() {
        Ok(()) => {},
        Err(e) => return Err(e),
    }
    let q: Project = adjust(project);
    proof {
        lemma_adjusted_expandable(project@);
        lemma_max_layers_natural(q@.scenes);
    }
    let at: Vec<usize> = bases(&q);
    let mut clips: Vec<PlannedClip> = plan_tracks(&q, &at);
    plan_scenes(&q, &at, &mut clips);
    let wipes: Vec<Wipe> = plan_wipes(&q);
    Ok(
        Plan {
            width: scaled_size(q.meta.width, scale),
            height: scaled_size(q.meta.height, scale),
            fps: q.meta.fps,
            layers: at[at.len() - 1],
            clips,
            wipes,
        },
    )
}

/// Compile at full quality.
pub fn compile(project: &Project) -> (r: Result<Plan, ValidateError>)
    requires
        project@.fits(1),
        layer_total(adjusted(project@)) < usize::MAX,
    ensures
        r is Ok <==> valid(project@),
        match r {
            Err(e) => project_fault(project@) == Some(e@),
            Ok(plan) => {
                let p = adjusted(project@);
                &&& plan.width == scaled(p.meta.width, UNIT as int)
                &&& plan.height == scaled(p.meta.height, UNIT as int)
                &&& plan.fps == p.meta.fps
                &&& plan.layers == layer_total(p)
                &&& views(plan.clips@) == clips_plan(p)
                &&& wipe_views(plan.wipes@) == wipes_upto(p.scenes, p.scenes.len() as int)
            },
        },
{
    compile_scaled(project, UNIT)
}

proof fn lemma_expanded_within(
    defs: Seq<(Seq<char>, CompDefView)>,
    c: ClipView,
    offset: int,
    base: int,
    width: int,
    fuel: nat,
)
    requires
        width >= 1,
    ensures
        forall|i: int|
            0 <= i < expanded(defs, c, offset, base, width, fuel).len() ==> base <= (
            #[trigger] expanded(defs, c, offset, base, width, fuel)[i]).layer < base + width,
    decreases fuel, 1nat, 0nat,
{
    match ramp(c) {
        Some(segments) => {},
        None => match def_of(c) {
            None => {},
            Some(d) => {
                if fuel > 0 && lookup(defs, d) is Some {
                    let def = lookup(defs, d)->0;
                    lemma_layers_within(
                        defs,
                        c,
                        def.layers,
                        def.layers.len(),
                        offset,
                        base,
                        width,
                        (fuel - 1) as nat,
                    );
                }
            },
        },
    }
}

proof fn lemma_layers_within(
    defs: Seq<(Seq<char>, CompDefView)>,
    c: ClipView,
    layers: Seq<ClipView>,
    n: nat,
    offset: int,
    base: int,
    width: int,
    fuel: nat,
)
    requires
        width >= 1,
    ensures
        forall|i: int|
            0 <= i < expanded_layers(defs, c, layers, n, offset, base, width, fuel).len() ==> base
                <= (#[trigger] expanded_layers(
                defs,
                c,
                layers,
                n,
                offset,
                base,
                width,
                fuel,
            )[i]).layer < base + width,
    decreases fuel, 2nat, n,
{
    if n > 0 {
        let skip = min(slot_depths(defs, layers, (n - 1) as nat) as int, width - 1);
        lemma_layers_within(defs, c, layers, (n - 1) as nat, offset, base, width, fuel);
        lemma_expanded_within(
            defs,
            instance(c, layers[n - 1]),
            offset,
            base + skip,
            width - skip,
            fuel,
        );
    }
}

/// A plan stacks its clips as the document does: every clip lies on one of
/// the plan's engine layers, an overlay clip above any scene clip, and of two
/// clips of one scene the one that comes first above the other.
pub proof fn law_stacking(p: ProjectView, t: int, k: int, s: int, l: int, m: int)
    requires
        0 <= t < p.overlays.len(),
        0 <= k < p.overlays[t].clips.len(),
        0 <= s < p.scenes.len(),
        0 <= l < m < p.scenes[s].layers.len(),
    ensures
        forall|i: int, j: int|
            #![trigger overlay_clip_plan(p, t, k)[i], scene_clip_plan(p, s, l)[j]]
            0 <= i < overlay_clip_plan(p, t, k).len() && 0 <= j < scene_clip_plan(p, s, l).len()
                ==> 0 <= overlay_clip_plan(p, t, k)[i].layer < scene_clip_plan(p, s, l)[j].layer,
        forall|i: int, j: int|
            #![trigger scene_clip_plan(p, s, l)[i], scene_clip_plan(p, s, m)[j]]
            0 <= i < scene_clip_plan(p, s, l).len() && 0 <= j < scene_clip_plan(p, s, m).len()
                ==> scene_clip_plan(p, s, l)[i].layer < scene_clip_plan(p, s, m)[j].layer
                < layer_total(p),
{
    let n = p.overlays.len();
    lemma_max_layers(p.scenes, s);
    lemma_slot_width(p, t);
    lemma_slot_width(p, n + l);
    lemma_slot_width(p, n + m);
    lemma_slot_base(p, 0, t);
    lemma_slot_base(p, t + 1, n + l);
    lemma_slot_base(p, n + l + 1, n + m);
    lemma_slot_base(p, n + m + 1, slot_count(p));
    assert(slot_base(p, t + 1) == slot_base(p, t) + slot_width(p, t));
    assert(slot_base(p, n + l + 1) == slot_base(p, n + l) + slot_width(p, n + l));
    assert(slot_base(p, n + m + 1) == slot_base(p, n + m) + slot_width(p, n + m));
    lemma_expanded_within(
        p.defs,
        p.overlays[t].clips[k],
        0,
        slot_base(p, t),
        slot_width(p, t),
        p.defs.len(),
    );
    lemma_expanded_within(
        p.defs,
        in_scene(p.scenes[s].layers[l], p.scenes[s]),
        offset_of(p.scenes, s),
        slot_base(p, n + l),
        slot_width(p, n + l),
        p.defs.len(),
    );
    lemma_expanded_within(
        p.defs,
        in_scene(p.scenes[s].layers[m], p.scenes[s]),
        offset_of(p.scenes, s),
        slot_base(p, n + m),
        slot_width(p, n + m),
        p.defs.len(),
    );
}

/// Time `t`, which is not negative, in microseconds: the whole ones in it.
pub open spec fn at_micros(us: int, t: int) -> bool {
    us * 1000 <= t < us * 1000 + 1000
}

/// A time that an engine clock can show.
pub open spec fn showable(t: int) -> bool {
    0 <= t < 18_446_744_073_709_551_615_000
}

/// A scene layer that is neither an instance of a def nor speeds up or slows
/// down is planned once: at the start of its scene plus its own start, for as
/// long as it lasts, and otherwise as it stands in the document.
pub proof fn law_layer_planned(p: ProjectView, s: int, k: int)
    requires
        0 <= s < p.scenes.len(),
        0 <= k < p.scenes[s].layers.len(),
        !(p.scenes[s].layers[k].element is CompRef),
        ramp(p.scenes[s].layers[k]) is None,
    ensures
        scene_clip_plan(p, s, k).len() == 1,
        ({
            let c = p.scenes[s].layers[k];
            let q = scene_clip_plan(p, s, k)[0];
            let t = offset_of(p.scenes, s) + c.start;
            &&& showable(t) ==> at_micros(q.start_us, t)
            &&& t < 0 ==> q.start_us == 0
            &&& c.duration > 0 ==> q.clip == c && (showable(c.duration) ==> at_micros(
                q.duration_us,
                c.duration,
            ))
            &&& c.duration <= 0 && c.start + 100_000_000 <= p.scenes[s].duration ==> {
                let rest = p.scenes[s].duration - c.start;
                &&& q.clip == (ClipView { duration: rest, ..c })
                &&& showable(rest) ==> at_micros(q.duration_us, rest)
            }
        }),
{
    let c = in_scene(p.scenes[s].layers[k], p.scenes[s]);
    let d = p.scenes[s].layers[k];
    assert(rate_keyframes(c) == rate_keyframes(d));
    assert(ramp(c) is None);
    assert(def_of(c) is None);
    if d.duration > 0 {
        assert(c == d);
    }
}

/// An overlay clip that is neither an instance of a def nor speeds up or slows
/// down is planned once, as it stands: at its own start, for its own duration,
/// or for a second where it has none.
pub proof fn law_overlay_planned(p: ProjectView, t: int, k: int)
    requires
        0 <= t < p.overlays.len(),
        0 <= k < p.overlays[t].clips.len(),
        !(p.overlays[t].clips[k].element is CompRef),
        ramp(p.overlays[t].clips[k]) is None,
    ensures
        overlay_clip_plan(p, t, k).len() == 1,
        ({
            let c = p.overlays[t].clips[k];
            let q = overlay_clip_plan(p, t, k)[0];
            &&& q.clip == c
            &&& showable(c.start) ==> at_micros(q.start_us, c.start)
            &&& c.start < 0 ==> q.start_us == 0
            &&& c.duration > 0 && showable(c.duration) ==> at_micros(q.duration_us, c.duration)
            &&& c.duration <= 0 ==> q.duration_us == 1_000_000
        }),
{
    assert(def_of(p.overlays[t].clips[k]) is None);
}

/// A def layer in an instance keeps its distance from where the def begins,
/// and lasts as long as it says, or to the end of the instance if it says
/// nothing. Its id names the instance and the layer; the instance's own
/// placement, animations and effects do not come into it.
pub proof fn law_instance(c: ClipView, layer: ClipView)
    ensures
        ({
            let r = instance(c, layer);
            &&& r.start - c.start == layer.start
            &&& layer.duration > 0 ==> r.duration == layer.duration
            &&& layer.duration <= 0 ==> r.start + r.duration == c.start + c.duration
            &&& r.id == c.id + "/"@ + layer.id
            &&& r.transform == layer.transform
            &&& r.animations == layer.animations
            &&& r.effects == layer.effects
        }),
{
}

proof fn lemma_track_plan(p: ProjectView, t: int, k: int, n: nat)
    requires
        0 <= k < n,
    ensures
        exists|i: int|
            0 <= i && i + overlay_clip_plan(p, t, k).len() <= track_plan(p, t, n).len()
                && #[trigger] track_plan(p, t, n).subrange(i, i + overlay_clip_plan(p, t, k).len())
                == overlay_clip_plan(p, t, k),
    decreases n,
{
    let part = overlay_clip_plan(p, t, k);
    let before = track_plan(p, t, (n - 1) as nat);
    let all = track_plan(p, t, n);
    if k == n - 1 {
        let i = before.len() as int;
        assert(all.subrange(i, i + part.len()) =~= part);
    } else {
        lemma_track_plan(p, t, k, (n - 1) as nat);
        let i = choose|i: int|
            0 <= i && i + part.len() <= before.len() && #[trigger] before.subrange(
                i,
                i + part.len(),
            ) == part;
        assert(all.subrange(i, i + part.len()) =~= before.subrange(i, i + part.len()));
    }
}

proof fn lemma_tracks_plan(p: ProjectView, t: int, n: nat)
    requires
        0 <= t < n,
    ensures
        exists|i: int|
            0 <= i && i + track_plan(p, t, p.overlays[t].clips.len()).len() <= tracks_plan(
                p,
                n,
            ).len() && #[trigger] tracks_plan(p, n).subrange(
                i,
                i + track_plan(p, t, p.overlays[t].clips.len()).len(),
            ) == track_plan(p, t, p.overlays[t].clips.len()),
    decreases n,
{
    let part = track_plan(p, t, p.overlays[t].clips.len());
    let before = tracks_plan(p, (n - 1) as nat);
    let all = tracks_plan(p, n);
    if t == n - 1 {
        let i = before.len() as int;
        assert(all.subrange(i, i + part.len()) =~= part);
    } else {
        lemma_tracks_plan(p, t, (n - 1) as nat);
        let i = choose|i: int|
            0 <= i && i + part.len() <= before.len() && #[trigger] before.subrange(
                i,
                i + part.len(),
            ) == part;
        assert(all.subrange(i, i + part.len()) =~= before.subrange(i, i + part.len()));
    }
}

proof fn lemma_scene_plan(p: ProjectView, s: int, k: int, n: nat)
    requires
        0 <= k < n,
    ensures
        exists|i: int|
            0 <= i && i + scene_clip_plan(p, s, k).len() <= scene_plan(p, s, n).len()
                && #[trigger] scene_plan(p, s, n).subrange(i, i + scene_clip_plan(p, s, k).len())
                == scene_clip_plan(p, s, k),
    decreases n,
{
    let part = scene_clip_plan(p, s, k);
    let before = scene_plan(p, s, (n - 1) as nat);
    let all = scene_plan(p, s, n);
    if k == n - 1 {
        let i = before.len() as int;
        assert(all.subrange(i, i + part.len()) =~= part);
    } else {
        lemma_scene_plan(p, s, k, (n - 1) as nat);
        let i = choose|i: int|
            0 <= i && i + part.len() <= before.len() && #[trigger] before.subrange(
                i,
                i + part.len(),
            ) == part;
        assert(all.subrange(i, i + part.len()) =~= before.subrange(i, i + part.len()));
    }
}

proof fn lemma_scenes_plan(p: ProjectView, s: int, n: nat)
    requires
        0 <= s < n,
    ensures
        exists|i: int|
            0 <= i && i + scene_plan(p, s, p.scenes[s].layers.len()).len() <= scenes_plan(
                p,
                n,
            ).len() && #[trigger] scenes_plan(p, n).subrange(
                i,
                i + scene_plan(p, s, p.scenes[s].layers.len()).len(),
            ) == scene_plan(p, s, p.scenes[s].layers.len()),
    decreases n,
{
    let part = scene_plan(p, s, p.scenes[s].layers.len());
    let before = scenes_plan(p, (n - 1) as nat);
    let all = scenes_plan(p, n);
    if s == n - 1 {
        let i = before.len() as int;
        assert(all.subrange(i, i + part.len()) =~= part);
    } else {
        lemma_scenes_plan(p, s, (n - 1) as nat);
        let i = choose|i: int|
            0 <= i && i + part.len() <= before.len() && #[trigger] before.subrange(
                i,
                i + part.len(),
            ) == part;
        assert(all.subrange(i, i + part.len()) =~= before.subrange(i, i + part.len()));
    }
}

proof fn lemma_in_part<A>(all: Seq<A>, part: Seq<A>, i: int, j: int)
    requires
        0 <= i,
        i + part.len() <= all.len(),
        all.subrange(i, i + part.len()) == part,
        0 <= j < part.len(),
    ensures
        all.contains(part[j]),
{
    assert(part[j] == all[i + j]);
}

/// The plan of a document leaves no clip out: what any layer of any scene and
/// any clip of any track comes to is in it.
pub proof fn law_plan_complete(p: ProjectView, a: int, k: int, j: int)
    ensures
        0 <= a < p.scenes.len() && 0 <= k < p.scenes[a].layers.len() && 0 <= j < scene_clip_plan(
            p,
            a,
            k,
        ).len() ==> clips_plan(p).contains(scene_clip_plan(p, a, k)[j]),
        0 <= a < p.overlays.len() && 0 <= k < p.overlays[a].clips.len() && 0 <= j
            < overlay_clip_plan(p, a, k).len() ==> clips_plan(p).contains(
            overlay_clip_plan(p, a, k)[j],
        ),
{
    let tracks = tracks_plan(p, p.overlays.len());
    let scenes = scenes_plan(p, p.scenes.len());
    let all = clips_plan(p);
    if 0 <= a < p.scenes.len() && 0 <= k < p.scenes[a].layers.len() && 0 <= j < scene_clip_plan(
        p,
        a,
        k,
    ).len() {
        let part = scene_clip_plan(p, a, k);
        let mid = scene_plan(p, a, p.scenes[a].layers.len());
        lemma_scene_plan(p, a, k, p.scenes[a].layers.len());
        lemma_scenes_plan(p, a, p.scenes.len());
        let i = choose|i: int|
            0 <= i && i + part.len() <= mid.len() && #[trigger] mid.subrange(i, i + part.len())
                == part;
        lemma_in_part(mid, part, i, j);
        let m = choose|m: int| 0 <= m < mid.len() && mid[m] == part[j];
        let h = choose|h: int|
            0 <= h && h + mid.len() <= scenes.len() && #[trigger] scenes.subrange(
                h,
                h + mid.len(),
            ) == mid;
        lemma_in_part(scenes, mid, h, m);
        let x = choose|x: int| 0 <= x < scenes.len() && scenes[x] == part[j];
        assert(all[tracks.len() + x] == part[j]);
    }
    if 0 <= a < p.overlays.len() && 0 <= k < p.overlays[a].clips.len() && 0 <= j
        < overlay_clip_plan(p, a, k).len() {
        let part = overlay_clip_plan(p, a, k);
        let mid = track_plan(p, a, p.overlays[a].clips.len());
        lemma_track_plan(p, a, k, p.overlays[a].clips.len());
        lemma_tracks_plan(p, a, p.overlays.len());
        let i = choose|i: int|
            0 <= i && i + part.len() <= mid.len() && #[trigger] mid.subrange(i, i + part.len())
                == part;
        lemma_in_part(mid, part, i, j);
        let m = choose|m: int| 0 <= m < mid.len() && mid[m] == part[j];
        let h = choose|h: int|
            0 <= h && h + mid.len() <= tracks.len() && #[trigger] tracks.subrange(
                h,
                h + mid.len(),
            ) == mid;
        lemma_in_part(tracks, mid, h, m);
        let x = choose|x: int| 0 <= x < tracks.len() && tracks[x] == part[j];
        assert(all[x] == part[j]);
    }
}

/// The wipe `w` is that of the transition into scene `i`: from where the scene
/// starts, for as long as the transition lasts.
pub open spec fn wiped(scenes: Seq<SceneView>, i: int, w: (int, int, TransitionKind)) -> bool {
    match scenes[i].transition {
        Some(t) => t.kind == w.2 && t.kind != TransitionKind::Crossfade && w.0 == offset_of(
            scenes,
            i,
        ) && w.1 - w.0 == t.duration,
        None => false,
    }
}

/// The wipe is that of the transition into one of the first `n` scenes.
pub open spec fn wiped_below(
    scenes: Seq<SceneView>,
    n: int,
    w: (int, int, TransitionKind),
) -> bool {
    exists|i: int| 0 < i < n && #[trigger] wiped(scenes, i, w)
}

/// A scene boundary is wiped exactly where the later scene asks for a
/// transition other than a crossfade.
pub proof fn law_wipes(scenes: Seq<SceneView>, n: int)
    requires
        0 <= n <= scenes.len(),
    ensures
        forall|i: int|
            #![trigger scenes[i]]
            0 < i < n && scenes[i].transition is Some && scenes[i].transition->0.kind
                != TransitionKind::Crossfade ==> exists|j: int|
                0 <= j < wipes_upto(scenes, n).len() && #[trigger] wiped(
                    scenes,
                    i,
                    wipes_upto(scenes, n)[j],
                ),
        forall|j: int|
            0 <= j < wipes_upto(scenes, n).len() ==> wiped_below(
                scenes,
                n,
                #[trigger] wipes_upto(scenes, n)[j],
            ),
    decreases n,
{
    if n > 1 {
        law_wipes(scenes, n - 1);
        let before = wipes_upto(scenes, n - 1);
        let all = wipes_upto(scenes, n);
        assert forall|i: int|
            #![trigger scenes[i]]
            0 < i < n && scenes[i].transition is Some && scenes[i].transition->0.kind
                != TransitionKind::Crossfade implies exists|j: int|
            0 <= j < all.len() && #[trigger] wiped(scenes, i, all[j]) by {
            if i < n - 1 {
                let j = choose|j: int| 0 <= j < before.len() && #[trigger] wiped(
                    scenes,
                    i,
                    before[j],
                );
                assert(wiped(scenes, i, all[j]));
            } else {
                assert(wiped(scenes, i, all[before.len() as int]));
            }
        }
        assert forall|j: int| 0 <= j < all.len() implies wiped_below(
            scenes,
            n,
            #[trigger] all[j],
        ) by {
            if j < before.len() {
                assert(all[j] == before[j]);
                assert(wiped_below(scenes, n - 1, before[j]));
                let i = choose|i: int| 0 < i < n - 1 && #[trigger] wiped(scenes, i, before[j]);
                assert(wiped(scenes, i, all[j]));
            } else {
                assert(wiped(scenes, n - 1, all[j]));
            }
        }
    } else {
        assert(wipes_upto(scenes, n).len() == 0);
    }
}

/// A scaled frame dimension is even, at least 2, and otherwise within two
/// pixels below the exact product.
pub proof fn law_scaled(dim: int, scale: int)
    ensures
        scaled(dim, scale) % 2 == 0,
        2 <= scaled(dim, scale) <= 2_147_483_647,
        2 * UNIT <= dim * scale < 2_147_483_647 * UNIT ==> scaled(dim, scale) * UNIT <= dim * scale
            < (scaled(dim, scale) + 2) * UNIT,
{
    let m = dim * scale;
    assert(UNIT == 1_000_000_000);
    let x = m / 1_000_000_000;
    assert(1_000_000_000 * x <= m < 1_000_000_000 * x + 1_000_000_000);
}

proof fn lemma_depth_of_instance(defs: Seq<(Seq<char>, CompDefView)>, c: ClipView, layer: ClipView)
    ensures
        slot_depth(defs, instance(c, layer)) == slot_depth(defs, layer),
{
    assert(def_of(instance(c, layer)) == def_of(layer));
}

proof fn lemma_depth_one(defs: Seq<(Seq<char>, CompDefView)>, c: ClipView)
    ensures
        slot_depth(defs, c) >= 1,
{
}

proof fn lemma_depths_grow(
    defs: Seq<(Seq<char>, CompDefView)>,
    layers: Seq<ClipView>,
    i: nat,
    j: nat,
)
    requires
        i <= j <= layers.len(),
    ensures
        slot_depths(defs, layers, i) + (j - i) <= slot_depths(defs, layers, j),
        i < j ==> slot_depths(defs, layers, i) + slot_depth(defs, layers[i as int]) <= slot_depths(
            defs,
            layers,
            j,
        ),
    decreases j - i,
{
    if i < j {
        lemma_depths_grow(defs, layers, i, (j - 1) as nat);
        lemma_depth_one(defs, layers[j - 1]);
    }
}

proof fn lemma_within_depth(
    defs: Seq<(Seq<char>, CompDefView)>,
    c: ClipView,
    offset: int,
    base: int,
    width: int,
    fuel: nat,
)
    requires
        acyclic(defs),
        width >= 1,
    ensures
        forall|i: int|
            0 <= i < expanded(defs, c, offset, base, width, fuel).len() ==> (#[trigger] expanded(
                defs,
                c,
                offset,
                base,
                width,
                fuel,
            )[i]).layer < base + slot_depth(defs, c),
    decreases fuel, 1nat, 0nat,
{
    law_slot_depth(defs, c);
    lemma_depth_one(defs, c);
    match ramp(c) {
        Some(segments) => {},
        None => match def_of(c) {
            None => {},
            Some(d) => {
                if fuel > 0 && lookup(defs, d) is Some {
                    let def = lookup(defs, d)->0;
                    lemma_layers_within_depth(
                        defs,
                        c,
                        def.layers,
                        def.layers.len(),
                        offset,
                        base,
                        width,
                        (fuel - 1) as nat,
                    );
                }
            },
        },
    }
}

proof fn lemma_layers_within_depth(
    defs: Seq<(Seq<char>, CompDefView)>,
    c: ClipView,
    layers: Seq<ClipView>,
    n: nat,
    offset: int,
    base: int,
    width: int,
    fuel: nat,
)
    requires
        acyclic(defs),
        width >= 1,
        n <= layers.len(),
    ensures
        forall|i: int|
            0 <= i < expanded_layers(defs, c, layers, n, offset, base, width, fuel).len() ==> (
            #[trigger] expanded_layers(defs, c, layers, n, offset, base, width, fuel)[i]).layer
                < base + slot_depths(defs, layers, n),
    decreases fuel, 2nat, n,
{
    if n > 0 {
        let skip = min(slot_depths(defs, layers, (n - 1) as nat) as int, width - 1);
        lemma_layers_within_depth(defs, c, layers, (n - 1) as nat, offset, base, width, fuel);
        lemma_within_depth(
            defs,
            instance(c, layers[n - 1]),
            offset,
            base + skip,
            width - skip,
            fuel,
        );
        lemma_depth_of_instance(defs, c, layers[n - 1]);
    }
}

/// What layer `i` of a def comes to in an instance of it that has the engine
/// layers from `base` on: the layers before it take up those that they need.
pub open spec fn layer_part(
    defs: Seq<(Seq<char>, CompDefView)>,
    c: ClipView,
    layers: Seq<ClipView>,
    i: int,
    offset: int,
    base: int,
    width: int,
) -> Seq<PlannedView> {
    let above = slot_depths(defs, layers, i as nat) as int;
    expanded(defs, instance(c, layers[i]), offset, base + above, width - above, defs.len())
}

proof fn lemma_layers_have(
    defs: Seq<(Seq<char>, CompDefView)>,
    c: ClipView,
    layers: Seq<ClipView>,
    n: nat,
    i: int,
    offset: int,
    base: int,
    width: int,
    k: int,
)
    requires
        0 <= i < n <= layers.len(),
        slot_depths(defs, layers, n) <= width,
        0 <= k < layer_part(defs, c, layers, i, offset, base, width).len(),
    ensures
        expanded_layers(defs, c, layers, n, offset, base, width, defs.len()).contains(
            layer_part(defs, c, layers, i, offset, base, width)[k],
        ),
    decreases n,
{
    let before = expanded_layers(
        defs,
        c,
        layers,
        (n - 1) as nat,
        offset,
        base,
        width,
        defs.len(),
    );
    let all = expanded_layers(defs, c, layers, n, offset, base, width, defs.len());
    let part = layer_part(defs, c, layers, i, offset, base, width);
    lemma_depths_grow(defs, layers, (n - 1) as nat, n);
    if i == n - 1 {
        assert(all[before.len() + k] == part[k]);
    } else {
        lemma_layers_have(defs, c, layers, (n - 1) as nat, i, offset, base, width, k);
        let x = choose|x: int| 0 <= x < before.len() && before[x] == part[k];
        assert(all[x] == part[k]);
    }
}

/// An instance of a def shows every layer of the def, each on engine layers of
/// its own: of two layers the one that comes first lies above the other, all
/// that it comes to above all that the other comes to.
pub proof fn law_def_layers_stacked(
    defs: Seq<(Seq<char>, CompDefView)>,
    c: ClipView,
    i: int,
    j: int,
    offset: int,
    base: int,
    width: int,
)
    requires
        acyclic(defs),
        c.element is CompRef,
        lookup(defs, c.element->CompRef_def) is Some,
        0 <= i < j < lookup(defs, c.element->CompRef_def)->0.layers.len(),
        width >= slot_depth(defs, c),
    ensures
        ({
            let layers = lookup(defs, c.element->CompRef_def)->0.layers;
            let all = expanded(defs, c, offset, base, width, defs.len());
            let a = layer_part(defs, c, layers, i, offset, base, width);
            let b = layer_part(defs, c, layers, j, offset, base, width);
            &&& forall|k: int| 0 <= k < a.len() ==> all.contains(#[trigger] a[k])
            &&& forall|k: int| 0 <= k < b.len() ==> all.contains(#[trigger] b[k])
            &&& forall|k: int, l: int|
                0 <= k < a.len() && 0 <= l < b.len() ==> base <= (#[trigger] a[k]).layer < (
                #[trigger] b[l]).layer < base + width
        }),
{
    let layers = lookup(defs, c.element->CompRef_def)->0.layers;
    let n = layers.len();
    let above_i = slot_depths(defs, layers, i as nat) as int;
    let above_j = slot_depths(defs, layers, j as nat) as int;
    assert(ramp(c) is None);
    law_slot_depth(defs, c);
    crate::nesting::law_expanded(defs, c, offset, base, width);
    lemma_depths_grow(defs, layers, i as nat, j as nat);
    lemma_depths_grow(defs, layers, j as nat, n);
    lemma_depth_one(defs, layers[j]);
    let a = layer_part(defs, c, layers, i, offset, base, width);
    let b = layer_part(defs, c, layers, j, offset, base, width);
    let all = expanded(defs, c, offset, base, width, defs.len());
    assert forall|k: int| 0 <= k < a.len() implies all.contains(#[trigger] a[k]) by {
        lemma_layers_have(defs, c, layers, n, i, offset, base, width, k);
    }
    assert forall|k: int| 0 <= k < b.len() implies all.contains(#[trigger] b[k]) by {
        lemma_layers_have(defs, c, layers, n, j, offset, base, width, k);
    }
    let x = instance(c, layers[i]);
    let y = instance(c, layers[j]);
    lemma_within_depth(defs, x, offset, base + above_i, width - above_i, defs.len());
    lemma_expanded_within(defs, x, offset, base + above_i, width - above_i, defs.len());
    lemma_expanded_within(defs, y, offset, base + above_j, width - above_j, defs.len());
    lemma_depth_of_instance(defs, c, layers[i]);
}

proof fn lemma_widest_of(
    defs: Seq<(Seq<char>, CompDefView)>,
    clips: Seq<ClipView>,
    n: nat,
    k: int,
)
    requires
        0 <= k < n <= clips.len(),
    ensures
        slot_depth(defs, clips[k]) <= widest(defs, clips, n),
    decreases n,
{
    if k < n - 1 {
        lemma_widest_of(defs, clips, (n - 1) as nat, k);
    }
}

proof fn lemma_widest_layer_of(p: ProjectView, li: int, n: nat, s: int)
    requires
        0 <= s < n <= p.scenes.len(),
        0 <= li < p.scenes[s].layers.len(),
    ensures
        slot_depth(p.defs, p.scenes[s].layers[li]) <= widest_layer(p, li, n),
    decreases n,
{
    if s < n - 1 {
        lemma_widest_layer_of(p, li, (n - 1) as nat, s);
    }
}

/// Every clip has the engine layers that it needs.
pub proof fn law_room_for_all(p: ProjectView, a: int, k: int)
    ensures
        0 <= a < p.overlays.len() && 0 <= k < p.overlays[a].clips.len() ==> slot_depth(
            p.defs,
            p.overlays[a].clips[k],
        ) <= slot_width(p, a),
        0 <= a < p.scenes.len() && 0 <= k < p.scenes[a].layers.len() ==> slot_depth(
            p.defs,
            p.scenes[a].layers[k],
        ) <= slot_width(p, p.overlays.len() + k),
{
    if 0 <= a < p.overlays.len() && 0 <= k < p.overlays[a].clips.len() {
        lemma_widest_of(p.defs, p.overlays[a].clips, p.overlays[a].clips.len(), k);
    }
    if 0 <= a < p.scenes.len() && 0 <= k < p.scenes[a].layers.len() {
        lemma_widest_layer_of(p, k, p.scenes.len(), a);
    }
}

/// A planned clip is part of what layer `k` of scene `s` comes to.
pub open spec fn from_layer(p: ProjectView, c: PlannedView, s: int, k: int) -> bool {
    &&& 0 <= s < p.scenes.len()
    &&& 0 <= k < p.scenes[s].layers.len()
    &&& scene_clip_plan(p, s, k).contains(c)
}

/// A planned clip is part of what clip `k` of track `t` comes to.
pub open spec fn from_overlay(p: ProjectView, c: PlannedView, t: int, k: int) -> bool {
    &&& 0 <= t < p.overlays.len()
    &&& 0 <= k < p.overlays[t].clips.len()
    &&& overlay_clip_plan(p, t, k).contains(c)
}

proof fn lemma_from_track(p: ProjectView, t: int, n: nat, i: int) -> (k: int)
    requires
        0 <= t < p.overlays.len(),
        n <= p.overlays[t].clips.len(),
        0 <= i < track_plan(p, t, n).len(),
    ensures
        from_overlay(p, track_plan(p, t, n)[i], t, k),
    decreases n,
{
    let before = track_plan(p, t, (n - 1) as nat);
    let part = overlay_clip_plan(p, t, n - 1);
    if i < before.len() {
        lemma_from_track(p, t, (n - 1) as nat, i)
    } else {
        assert(part[i - before.len()] == track_plan(p, t, n)[i]);
        n - 1
    }
}

proof fn lemma_from_tracks(p: ProjectView, n: nat, i: int) -> (at: (int, int))
    requires
        n <= p.overlays.len(),
        0 <= i < tracks_plan(p, n).len(),
    ensures
        from_overlay(p, tracks_plan(p, n)[i], at.0, at.1),
    decreases n,
{
    let before = tracks_plan(p, (n - 1) as nat);
    if i < before.len() {
        lemma_from_tracks(p, (n - 1) as nat, i)
    } else {
        let len = p.overlays[n - 1].clips.len();
        let k = lemma_from_track(p, n - 1, len, i - before.len());
        (n - 1, k)
    }
}

proof fn lemma_from_scene(p: ProjectView, s: int, n: nat, i: int) -> (k: int)
    requires
        0 <= s < p.scenes.len(),
        n <= p.scenes[s].layers.len(),
        0 <= i < scene_plan(p, s, n).len(),
    ensures
        from_layer(p, scene_plan(p, s, n)[i], s, k),
    decreases n,
{
    let before = scene_plan(p, s, (n - 1) as nat);
    let part = scene_clip_plan(p, s, n - 1);
    if i < before.len() {
        lemma_from_scene(p, s, (n - 1) as nat, i)
    } else {
        assert(part[i - before.len()] == scene_plan(p, s, n)[i]);
        n - 1
    }
}

proof fn lemma_from_scenes(p: ProjectView, n: nat, i: int) -> (at: (int, int))
    requires
        n <= p.scenes.len(),
        0 <= i < scenes_plan(p, n).len(),
    ensures
        from_layer(p, scenes_plan(p, n)[i], at.0, at.1),
    decreases n,
{
    let before = scenes_plan(p, (n - 1) as nat);
    if i < before.len() {
        lemma_from_scenes(p, (n - 1) as nat, i)
    } else {
        let len = p.scenes[n - 1].layers.len();
        let k = lemma_from_scene(p, n - 1, len, i - before.len());
        (n - 1, k)
    }
}

/// A plan holds nothing that no clip of the document comes to.
pub proof fn law_plan_only(p: ProjectView, i: int)
    requires
        0 <= i < clips_plan(p).len(),
    ensures
        (exists|t: int, k: int| #[trigger] from_overlay(p, clips_plan(p)[i], t, k)) || (exists|
            s: int,
            k: int,
        | #[trigger]
            from_layer(p, clips_plan(p)[i], s, k)),
{
    let tracks = tracks_plan(p, p.overlays.len());
    if i < tracks.len() {
        let at = lemma_from_tracks(p, p.overlays.len(), i);
        assert(from_overlay(p, clips_plan(p)[i], at.0, at.1));
    } else {
        let at = lemma_from_scenes(p, p.scenes.len(), i - tracks.len());
        assert(from_layer(p, clips_plan(p)[i], at.0, at.1));
    }
}

} // verus!
