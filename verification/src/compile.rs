//! Compiling a document into a flat plan for a timeline engine.
//!
//! The engine stacks layers, topmost first: overlay tracks, then scene layer
//! slots. Each slot takes as many engine layers as its deepest def expansion
//! needs. Scenes are laid out sequentially; scene clips get their scene's
//! offset added. Overlay clips keep absolute times and freely cross cuts.

use vstd::prelude::*;
use crate::cycles::def_of;
use crate::document::{Clip, ClipView, CompDef, CompDefView, Element};
use crate::document::{ElementView, Project, ProjectView, SceneView};
use crate::document::TransitionKind;
use crate::fixed::{max, micros_of, min, within, HORIZON, LIMIT, UNIT};
use crate::ramp::{curves_fit, expand_rate_ramp, ramp, rate_index, rate_keyframes, rates_bounded};
use crate::substitute::{filled_element, substitute};
use crate::text::joined;
use crate::textmap::{lookup, TextMap};
use crate::timeline::{effective, max_layers, offset_of};
use crate::views::views;

verus! {

broadcast use crate::views::group_views;

/// Engine layers that a clip needs: 1, or for an instance the sum of what the
/// layers of its def need. `fuel` bounds the nesting.
pub open spec fn depth(defs: Seq<(Seq<char>, CompDefView)>, c: ClipView, fuel: nat) -> nat
    decreases fuel, 0nat,
{
    match def_of(c) {
        Some(d) => if fuel == 0 {
            1
        } else {
            match lookup(defs, d) {
                Some(def) => {
                    let sum = depth_sum(defs, def.layers, def.layers.len(), (fuel - 1) as nat);
                    if sum == 0 {
                        1
                    } else {
                        sum
                    }
                },
                None => 1,
            }
        },
        None => 1,
    }
}

pub open spec fn depth_sum(
    defs: Seq<(Seq<char>, CompDefView)>,
    layers: Seq<ClipView>,
    n: nat,
    fuel: nat,
) -> nat
    decreases fuel, n,
{
    if n == 0 {
        0
    } else {
        depth_sum(defs, layers, (n - 1) as nat, fuel) + depth(defs, layers[n - 1], fuel)
    }
}

/// Engine layers that a clip needs. Nesting is no deeper than there are defs.
pub open spec fn slot_depth(defs: Seq<(Seq<char>, CompDefView)>, c: ClipView) -> nat {
    depth(defs, c, defs.len())
}

/// Engine layers that the first `n` layers of a def need.
pub open spec fn slot_depths(
    defs: Seq<(Seq<char>, CompDefView)>,
    layers: Seq<ClipView>,
    n: nat,
) -> nat {
    depth_sum(defs, layers, n, defs.len())
}

/// A clip of the plan: it goes on engine layer `layer`.
#[verifier::ext_equal]
pub struct PlannedView {
    pub layer: int,
    pub start_us: int,
    pub duration_us: int,
    pub clip: ClipView,
}

/// A clip of the plan: no instance of a def, and without an animated rate.
/// `start_us` and `duration_us` are its place on the timeline, microseconds.
#[derive(Debug)]
pub struct PlannedClip {
    pub layer: usize,
    pub start_us: u64,
    pub duration_us: u64,
    pub clip: Clip,
}

impl View for PlannedClip {
    type V = PlannedView;

    open spec fn view(&self) -> PlannedView {
        PlannedView {
            layer: self.layer as int,
            start_us: self.start_us as int,
            duration_us: self.duration_us as int,
            clip: self.clip@,
        }
    }
}

/// Whole microseconds, held to what an engine clock can show.
pub open spec fn clock(t: int) -> int {
    min(micros_of(t), u64::MAX as int)
}

/// A clip as it stands on engine layer `layer`, its container's time 0 being
/// at `offset`. A clip without a duration plays for a second.
pub open spec fn single(c: ClipView, offset: int, layer: int) -> PlannedView {
    PlannedView {
        layer,
        start_us: clock(offset + c.start),
        duration_us: clock(
            if c.duration > 0 {
                c.duration
            } else {
                UNIT as int
            },
        ),
        clip: c,
    }
}

pub open spec fn singles(clips: Seq<ClipView>, offset: int, layer: int) -> Seq<PlannedView> {
    Seq::new(clips.len(), |i: int| single(clips[i], offset, layer))
}

/// A def layer as part of the instance `c`: parameters filled in, timed with
/// the instance, and filling the rest of it where it has no duration.
pub open spec fn instance(c: ClipView, layer: ClipView) -> ClipView {
    ClipView {
        id: c.id + "/"@ + layer.id,
        start: layer.start + c.start,
        duration: if layer.duration <= 0 {
            c.duration - layer.start
        } else {
            layer.duration
        },
        element: filled_element(layer.element, c.element->CompRef_args),
        ..layer
    }
}

/// The plan of one clip in a slot of `width` engine layers from `base` on.
/// A rate curve becomes a run of clips, an instance the clips of its def, each
/// def layer on engine layers of its own as far as the slot has them.
pub open spec fn expanded(
    defs: Seq<(Seq<char>, CompDefView)>,
    c: ClipView,
    offset: int,
    base: int,
    width: int,
    fuel: nat,
) -> Seq<PlannedView>
    decreases fuel, 0nat,
{
    match ramp(c) {
        Some(segments) => singles(segments, offset, base),
        None => match def_of(c) {
            None => seq![single(c, offset, base)],
            Some(d) => if fuel == 0 {
                Seq::empty()
            } else {
                match lookup(defs, d) {
                    None => Seq::empty(),
                    Some(def) => expanded_layers(
                        defs,
                        c,
                        def.layers,
                        def.layers.len(),
                        offset,
                        base,
                        width,
                        (fuel - 1) as nat,
                    ),
                }
            },
        },
    }
}

pub open spec fn expanded_layers(
    defs: Seq<(Seq<char>, CompDefView)>,
    c: ClipView,
    layers: Seq<ClipView>,
    n: nat,
    offset: int,
    base: int,
    width: int,
    fuel: nat,
) -> Seq<PlannedView>
    decreases fuel, n,
{
    if n == 0 {
        Seq::empty()
    } else {
        let skip = min(slot_depths(defs, layers, (n - 1) as nat) as int, width - 1);
        expanded_layers(defs, c, layers, (n - 1) as nat, offset, base, width, fuel) + expanded(
            defs,
            instance(c, layers[n - 1]),
            offset,
            base + skip,
            width - skip,
            fuel,
        )
    }
}

/// The deepest of the first `n` clips; an empty list takes one engine layer.
pub open spec fn widest(
    defs: Seq<(Seq<char>, CompDefView)>,
    clips: Seq<ClipView>,
    n: nat,
) -> int
    decreases n,
{
    if n == 0 {
        1
    } else {
        max(
            widest(defs, clips, (n - 1) as nat),
            slot_depth(defs, clips[n - 1]) as int,
        )
    }
}

/// The deepest layer number `li` of the first `n` scenes.
pub open spec fn widest_layer(p: ProjectView, li: int, n: nat) -> int
    decreases n,
{
    if n == 0 {
        1
    } else {
        let before = widest_layer(p, li, (n - 1) as nat);
        let layers = p.scenes[n - 1].layers;
        if li < layers.len() {
            max(before, slot_depth(p.defs, layers[li]) as int)
        } else {
            before
        }
    }
}

/// The number of slots: overlay tracks, then scene layers (one at least).
pub open spec fn slot_count(p: ProjectView) -> int {
    p.overlays.len() + max(max_layers(p.scenes), 1)
}

/// Engine layers of slot `i`.
pub open spec fn slot_width(p: ProjectView, i: int) -> int {
    if i < p.overlays.len() {
        widest(p.defs, p.overlays[i].clips, p.overlays[i].clips.len())
    } else {
        widest_layer(p, i - p.overlays.len(), p.scenes.len())
    }
}

/// First engine layer of slot `i`.
pub open spec fn slot_base(p: ProjectView, i: int) -> int
    decreases i,
{
    if i <= 0 {
        0
    } else {
        slot_base(p, i - 1) + slot_width(p, i - 1)
    }
}

/// Engine layers of the whole plan.
pub open spec fn layer_total(p: ProjectView) -> int {
    slot_base(p, slot_count(p))
}

/// A scene layer with its duration filled in.
pub open spec fn in_scene(c: ClipView, s: SceneView) -> ClipView {
    ClipView { duration: effective(c, Some(s.duration)), ..c }
}

/// The plan of clip `k` of overlay track `t`.
pub open spec fn overlay_clip_plan(p: ProjectView, t: int, k: int) -> Seq<PlannedView> {
    expanded(
        p.defs,
        p.overlays[t].clips[k],
        0,
        slot_base(p, t),
        slot_width(p, t),
        p.defs.len(),
    )
}

/// The plan of layer `k` of scene `s`.
pub open spec fn scene_clip_plan(p: ProjectView, s: int, k: int) -> Seq<PlannedView> {
    expanded(
        p.defs,
        in_scene(p.scenes[s].layers[k], p.scenes[s]),
        offset_of(p.scenes, s),
        slot_base(p, p.overlays.len() + k),
        slot_width(p, p.overlays.len() + k),
        p.defs.len(),
    )
}

pub open spec fn track_plan(p: ProjectView, t: int, n: nat) -> Seq<PlannedView>
    decreases n,
{
    if n == 0 {
        Seq::empty()
    } else {
        track_plan(p, t, (n - 1) as nat) + overlay_clip_plan(p, t, n - 1)
    }
}

pub open spec fn tracks_plan(p: ProjectView, n: nat) -> Seq<PlannedView>
    decreases n,
{
    if n == 0 {
        Seq::empty()
    } else {
        tracks_plan(p, (n - 1) as nat) + track_plan(p, n - 1, p.overlays[n - 1].clips.len())
    }
}

pub open spec fn scene_plan(p: ProjectView, s: int, n: nat) -> Seq<PlannedView>
    decreases n,
{
    if n == 0 {
        Seq::empty()
    } else {
        scene_plan(p, s, (n - 1) as nat) + scene_clip_plan(p, s, n - 1)
    }
}

pub open spec fn scenes_plan(p: ProjectView, n: nat) -> Seq<PlannedView>
    decreases n,
{
    if n == 0 {
        Seq::empty()
    } else {
        scenes_plan(p, (n - 1) as nat) + scene_plan(p, n - 1, p.scenes[n - 1].layers.len())
    }
}

/// All clips of the plan, the overlay tracks' first.
pub open spec fn clips_plan(p: ProjectView) -> Seq<PlannedView> {
    tracks_plan(p, p.overlays.len()) + scenes_plan(p, p.scenes.len())
}

/// A scene boundary whose transition is a wipe: crossfades that fall inside
/// the window become wipes of the given kind.
#[derive(Debug, Clone, Copy, PartialEq, Eq, Structural)]
pub struct Wipe {
    pub start: i128,
    pub end: i128,
    pub kind: TransitionKind,
}

/// The wipes at the boundaries before scene `n`.
pub open spec fn wipes_upto(scenes: Seq<SceneView>, n: int) -> Seq<(int, int, TransitionKind)>
    decreases n,
{
    if n <= 1 {
        Seq::empty()
    } else {
        let before = wipes_upto(scenes, n - 1);
        match scenes[n - 1].transition {
            Some(t) => if t.kind == TransitionKind::Crossfade {
                before
            } else {
                before.push(
                    (
                        offset_of(scenes, n - 1),
                        offset_of(scenes, n - 1) + t.duration,
                        t.kind,
                    ),
                )
            },
            None => before,
        }
    }
}

pub open spec fn wipe_views(w: Seq<Wipe>) -> Seq<(int, int, TransitionKind)> {
    Seq::new(w.len(), |i: int| (w[i].start as int, w[i].end as int, w[i].kind))
}

/// A frame dimension scaled by `scale`: whole, even, and 2 at least.
pub open spec fn scaled(dim: int, scale: int) -> int {
    let x = max(min((dim * scale) / (UNIT as int), i32::MAX as int), 2);
    x - x % 2
}

/// What a timeline engine needs to play a document.
#[derive(Debug)]
pub struct Plan {
    pub width: i32,
    pub height: i32,
    pub fps: i32,
    /// Number of engine layers.
    pub layers: usize,
    pub clips: Vec<PlannedClip>,
    pub wipes: Vec<Wipe>,
}

/// Engine layers that a clip needs, held to the machine's range.
fn clip_depth(defs: &TextMap<CompDef>, clip: &Clip, fuel: usize) -> (r: usize)
    ensures
        r == min(depth(defs@, clip@, fuel as nat) as int, usize::MAX as int),
    decreases fuel,
{
    if let Element::CompRef { def, args } = &clip.element {
        if fuel == 0 {
            return 1;
        }
        if let Some(d) = defs.get(def.as_str()) {
            let mut sum: usize = 0;
            let mut n: usize = 0;
            let ghost layers = views(d.layers@);
            while n < d.layers.len()
                invariant
                    n <= d.layers.len(),
                    fuel > 0,
                    layers == views(d.layers@),
                    sum == min(
                        depth_sum(defs@, layers, n as nat, (fuel - 1) as nat) as int,
                        usize::MAX as int,
                    ),
                decreases d.layers.len() - n,
            {
                assert(layers[n as int] == d.layers@[n as int]@);
                let one: usize = clip_depth(defs, &d.layers[n], fuel - 1);
                sum =
                match sum.checked_add(one) {
                    Some(s) => s,
                    None => usize::MAX,
                };
                n += 1;
            }
            return if sum == 0 {
                1
            } else {
                sum
            };
        }
    }
    1
}

/// Engine layers that a clip needs: 1, or for an instance the sum of its
/// def's layers' needs, held to the machine's range.
pub fn clip_slot_depth(project: &Project, clip: &Clip) -> (r: usize)
    ensures
        r == min(slot_depth(project@.defs, clip@) as int, usize::MAX as int),
{
    clip_depth(&project.defs, clip, project.defs.entries.len())
}

fn micros(t: i128) -> (r: u64)
    ensures
        r == clock(t as int),
{
    if t <= 0 {
        return 0;
    }
    let us: i128 = t / 1000;
    if us > 18_446_744_073_709_551_615 {
        u64::MAX
    } else {
        us as u64
    }
}

/// A clip that can be expanded: its numbers are in reach and its rate curve
/// is one that can be played.
pub open spec fn expandable(c: ClipView) -> bool {
    curves_fit(c) && rates_bounded(c)
}

pub open spec fn defs_expandable(defs: Seq<(Seq<char>, CompDefView)>) -> bool {
    forall|i: int, k: int|
        0 <= i < defs.len() && 0 <= k < defs[i].1.layers.len() ==> {
            let c = #[trigger] defs[i].1.layers[k];
            expandable(c) && within(c.start, 1) && within(c.duration, 1)
        }
}

proof fn lemma_lookup_member(defs: Seq<(Seq<char>, CompDefView)>, key: Seq<char>) -> (i: int)
    requires
        lookup(defs, key) is Some,
    ensures
        0 <= i < defs.len(),
        defs[i].0 == key,
        defs[i].1 == lookup(defs, key)->0,
    decreases defs.len(),
{
    if defs[0].0 == key {
        0
    } else {
        let j = lemma_lookup_member(defs.skip(1), key);
        assert(defs.skip(1)[j] == defs[j + 1]);
        j + 1
    }
}

/// Filling in arguments leaves the numbers of a clip alone.
proof fn lemma_instance_expandable(c: ClipView, layer: ClipView)
    requires
        expandable(layer),
    ensures
        expandable(instance(c, layer)),
{
    let s = instance(c, layer);
    assert(s.animations == layer.animations);
    assert(rate_keyframes(s) == rate_keyframes(layer));
}

fn push_single(out: &mut Vec<PlannedClip>, clip: Clip, offset: i128, layer: usize)
    requires
        -HORIZON <= offset <= HORIZON,
        -HORIZON <= clip.start <= HORIZON,
    ensures
        views(final(out)@) == views(old(out)@).push(single(clip@, offset as int, layer as int)),
{
    let start_us: u64 = micros(offset + clip.start);
    let duration_us: u64 = micros(
        if clip.duration > 0 {
            clip.duration
        } else {
            UNIT
        },
    );
    out.push(PlannedClip { layer, start_us, duration_us, clip });
}

proof fn lemma_level_bound(x: int, level: int)
    requires
        within(x, level),
        0 <= level <= usize::MAX + 2,
    ensures
        -1_844_674_407_370_955_161_800_000_000_000_000_000 <= x
            <= 1_844_674_407_370_955_161_800_000_000_000_000_000,
{
    assert(usize::MAX <= 18_446_744_073_709_551_615);
    assert(level * LIMIT <= 18_446_744_073_709_551_617 * LIMIT) by (nonlinear_arith)
        requires
            level <= 18_446_744_073_709_551_617,
            LIMIT >= 0,
    ;
}

proof fn lemma_next_level(x: int, y: int, level: int)
    requires
        within(x, level),
        within(y, 1),
        level >= 1,
    ensures
        within(x + y, level + 1),
        within(x - y, level + 1),
        within(y, level + 1),
{
    assert((level + 1) * LIMIT == level * LIMIT + LIMIT) by (nonlinear_arith);
    assert(level * LIMIT >= 0) by (nonlinear_arith)
        requires
            level >= 1,
            LIMIT >= 0,
    ;
}

/// Expand one clip into the plan.
pub fn add_clip(
    out: &mut Vec<PlannedClip>,
    defs: &TextMap<CompDef>,
    clip: &Clip,
    offset: i128,
    base: usize,
    width: usize,
    fuel: usize,
)
    requires
        -HORIZON <= offset <= HORIZON,
        width >= 1,
        base + width <= usize::MAX,
        fuel <= defs.entries@.len(),
        defs_expandable(defs@),
        expandable(clip@),
        within(clip@.start, defs.entries@.len() - fuel + 2),
        within(clip@.duration, defs.entries@.len() - fuel + 2),
    ensures
        views(final(out)@) == views(old(out)@) + expanded(
            defs@,
            clip@,
            offset as int,
            base as int,
            width as int,
            fuel as nat,
        ),
    decreases fuel,
{
    let ghost start = views(out@);
    let ghost level = defs.entries@.len() - fuel + 2;
    let count: usize = defs.entries.len();
    proof {
        lemma_level_bound(clip@.start, level);
        lemma_level_bound(clip@.duration, level);
    }
    if let Some(mut segments) = expand_rate_ramp(clip) {
        let ghost all = views(segments@);
        let mut i: usize = 0;
        assert(start + singles(all.take(0), offset as int, base as int) =~= start);
        proof {
            lemma_segment_starts(clip@);
        }
        while i < segments.len()
            invariant
                i <= segments.len(),
                all == views(segments@),
                -HORIZON <= offset <= HORIZON,
                forall|j: int|
                    0 <= j < all.len() ==> -HORIZON <= (#[trigger] all[j]).start <= HORIZON,
                views(out@) == start + singles(all.take(i as int), offset as int, base as int),
            decreases segments.len() - i,
        {
            let seg: Clip = segments[i].clone();
            assert(all[i as int] == seg@);
            push_single(out, seg, offset, base);
            assert(start + singles(all.take(i + 1), offset as int, base as int) =~= (start
                + singles(all.take(i as int), offset as int, base as int)).push(
                single(all[i as int], offset as int, base as int),
            ));
            i += 1;
        }
        assert(all.take(i as int) =~= all);
        return ;
    }
    if let Element::CompRef { def, args } = &clip.element {
        if fuel == 0 {
            assert(start + Seq::<PlannedView>::empty() =~= start);
            return ;
        }
        if let Some(d) = defs.get(def.as_str()) {
            let ghost layers = views(d.layers@);
            let ghost at = lemma_lookup_member(defs@, def@);
            let mut skip: usize = 0;
            let mut n: usize = 0;
            assert(start + Seq::<PlannedView>::empty() =~= start);
            while n < d.layers.len()
                invariant
                    n <= d.layers.len(),
                    0 < fuel <= defs.entries@.len(),
                    count == defs.entries@.len(),
                    level == count - fuel + 2,
                    layers == views(d.layers@),
                    0 <= at < defs@.len(),
                    defs@[at].1.layers == layers,
                    -HORIZON <= offset <= HORIZON,
                    width >= 1,
                    base + width <= usize::MAX,
                    defs_expandable(defs@),
                    within(clip@.start, level),
                    within(clip@.duration, level),
                    clip@.element == (ElementView::CompRef { def: def@, args: args@ }),
                    skip == min(slot_depths(defs@, layers, n as nat) as int, usize::MAX as int),
                    views(out@) == start + expanded_layers(
                        defs@,
                        clip@,
                        layers,
                        n as nat,
                        offset as int,
                        base as int,
                        width as int,
                        (fuel - 1) as nat,
                    ),
                decreases d.layers.len() - n,
            {
                let layer: &Clip = &d.layers[n];
                proof {
                    assert(layers[n as int] == layer@);
                    assert(defs@[at].1.layers[n as int] == layer@);
                    lemma_instance_expandable(clip@, layer@);
                    lemma_level_bound(clip@.start, level);
                    lemma_level_bound(clip@.duration, level);
                    lemma_next_level(clip@.start, layer@.start, level);
                    lemma_next_level(clip@.duration, layer@.start, level);
                    lemma_next_level(clip@.duration, layer@.duration, level);
                }
                let mut sub: Clip = substitute(layer, args);
                let mut id: String = joined(clip.id.as_str(), "/");
                id.append(sub.id.as_str());
                sub.id = id;
                sub.start = layer.start + clip.start;
                if layer.duration <= 0 {
                    sub.duration = clip.duration - layer.start;
                }
                assert(sub@ == instance(clip@, layer@));
                let by: usize = if skip < width - 1 {
                    skip
                } else {
                    width - 1
                };
                let ghost so_far = views(out@);
                add_clip(out, defs, &sub, offset, base + by, width - by, fuel - 1);
                proof {
                    let next = expanded(
                        defs@,
                        sub@,
                        offset as int,
                        base + by,
                        width - by,
                        (fuel - 1) as nat,
                    );
                    let done = expanded_layers(
                        defs@,
                        clip@,
                        layers,
                        n as nat,
                        offset as int,
                        base as int,
                        width as int,
                        (fuel - 1) as nat,
                    );
                    assert((start + done) + next =~= start + (done + next));
                }
                let one: usize = clip_depth(defs, layer, count);
                skip =
                match skip.checked_add(one) {
                    Some(s) => s,
                    None => usize::MAX,
                };
                n += 1;
            }
        }
        else {
            assert(start + Seq::<PlannedView>::empty() =~= start);
        }
        return ;
    }
    push_single(out, clip.clone(), offset, base);
    assert(start.push(single(clip@, offset as int, base as int)) =~= start + seq![
        single(clip@, offset as int, base as int),
    ]);
}

/// The segments of a rate curve start within reach of their clip.
proof fn lemma_segment_starts(c: ClipView)
    requires
        ramp(c) is Some,
        curves_fit(c),
        -1_844_674_407_370_955_161_800_000_000_000_000_000 <= c.start
            <= 1_844_674_407_370_955_161_800_000_000_000_000_000,
    ensures
        forall|j: int|
            0 <= j < ramp(c)->0.len() ==> -HORIZON <= (#[trigger] ramp(c)->0[j]).start <= HORIZON,
{
    let k = rate_keyframes(c);
    crate::ramp::lemma_rate_index(c.animations);
    assert(c.animations[rate_index(c.animations)].fits(4));
    lemma_segment_starts_upto(c, k.len() - 1);
}

proof fn lemma_segment_starts_upto(c: ClipView, n: int)
    requires
        n < rate_keyframes(c).len(),
        forall|i: int|
            0 <= i < rate_keyframes(c).len() ==> within((#[trigger] rate_keyframes(c)[i]).t, 4),
        -1_844_674_407_370_955_161_800_000_000_000_000_000 <= c.start
            <= 1_844_674_407_370_955_161_800_000_000_000_000_000,
    ensures
        forall|j: int|
            0 <= j < crate::ramp::segments(c, rate_keyframes(c), n).len() ==> -HORIZON <= (
            #[trigger] crate::ramp::segments(c, rate_keyframes(c), n)[j]).start <= HORIZON,
    decreases n,
{
    let k = rate_keyframes(c);
    if n > 0 {
        lemma_segment_starts_upto(c, n - 1);
        assert(within(k[n - 1].t, 4));
        let fewer = crate::ramp::segments(c, k, n - 1);
        let all = crate::ramp::segments(c, k, n);
        assert forall|j: int| 0 <= j < all.len() implies -HORIZON <= (#[trigger] all[j]).start
            <= HORIZON by {
            if j < fewer.len() {
                assert(all[j] == fewer[j]);
            }
        }
    }
}

} // verus!
