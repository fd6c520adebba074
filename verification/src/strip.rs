//! The timeline strip: its lanes, where clips stand on them, and the ruler.

use vstd::prelude::*;
use crate::document::{Clip, ClipView, LaneMeta, OverlayTrack, OverlayTrackView, Project,
    ProjectView, Scene};
use crate::edit::{scene_at, scene_index_at, track_index};
use crate::fixed::{floor_div, larger, max, min, smaller, within, HORIZON, UNIT};
use crate::text::{decimal, decimal_text, joined};
use crate::timeline::{effective, effective_duration, layer_slots, max_layers, offset_of,
    total_duration};
use crate::views::views;

verus! {

broadcast use crate::views::group_views;

/// Least zoom, in pixels per second.
pub const LEAST_ZOOM: i128 = 8_000_000_000;

/// Greatest zoom, in pixels per second.
pub const MOST_ZOOM: i128 = 240_000_000_000;

/// A zoom held between its bounds.
pub fn zoom(pps: i128) -> (r: i128)
    ensures
        r == crate::fixed::clamped(pps as int, LEAST_ZOOM as int, MOST_ZOOM as int),
        8_000_000_000 <= r <= 240_000_000_000,
        8_000_000_000 <= pps <= 240_000_000_000 ==> r == pps,
{
    if pps < LEAST_ZOOM {
        LEAST_ZOOM
    } else if pps > MOST_ZOOM {
        MOST_ZOOM
    } else {
        pps
    }
}

/// The whole pixels that a length of time takes up.
pub open spec fn pixels_of(t: int, pps: int) -> int {
    max(min(t * pps / 1_000_000_000_000_000_000, i32::MAX as int), i32::MIN as int)
}

proof fn lemma_pixels(t: int, pps: int)
    requires
        within(t, 48),
        LEAST_ZOOM <= pps <= MOST_ZOOM,
    ensures
        -HORIZON <= t * pps <= HORIZON,
{
    assert(-1_200_000_000_000_000_000_000_000_000_000 <= t * pps && t * pps
        <= 1_200_000_000_000_000_000_000_000_000_000) by (nonlinear_arith)
        requires
            -4_800_000_000_000_000_000 <= t <= 4_800_000_000_000_000_000,
            8_000_000_000 <= pps <= 240_000_000_000,
    ;
}

fn to_pixels(t: i128, pps: i128) -> (r: i32)
    requires
        within(t as int, 48),
        LEAST_ZOOM <= pps <= MOST_ZOOM,
    ensures
        r == pixels_of(t as int, pps as int),
{
    proof {
        lemma_pixels(t as int, pps as int);
    }
    let px: i128 = floor_div(t * pps, 1_000_000_000_000_000_000);
    if px > 2_147_483_647 {
        2_147_483_647
    } else if px < -2_147_483_648 {
        -2_147_483_648
    } else {
        px as i32
    }
}

/// The width of a clip's button, at least thirty pixels.
pub open spec fn button_width(duration: int, pps: int) -> int {
    max(pixels_of(duration, pps), 30)
}

/// A clip on a lane: its absolute start and its length, and the start of its
/// scene if it is a scene layer.
#[derive(Debug)]
pub struct LaneClip {
    pub id: String,
    pub start: i128,
    pub duration: i128,
    pub base: Option<i128>,
    pub width: i32,
}

#[verifier::ext_equal]
pub struct LaneClipView {
    pub id: Seq<char>,
    pub start: int,
    pub duration: int,
    pub base: Option<i128>,
    pub width: int,
}

impl View for LaneClip {
    type V = LaneClipView;

    open spec fn view(&self) -> LaneClipView {
        LaneClipView {
            id: self.id@,
            start: self.start as int,
            duration: self.duration as int,
            base: self.base,
            width: self.width as int,
        }
    }
}

/// A lane of the strip.
#[derive(Debug)]
pub struct Lane {
    pub label: String,
    pub overlay: bool,
    pub locked: bool,
    pub hidden: bool,
    pub muted: bool,
    pub clips: Vec<LaneClip>,
}

#[verifier::ext_equal]
pub struct LaneView {
    pub label: Seq<char>,
    pub overlay: bool,
    pub locked: bool,
    pub hidden: bool,
    pub muted: bool,
    pub clips: Seq<LaneClipView>,
}

impl View for Lane {
    type V = LaneView;

    open spec fn view(&self) -> LaneView {
        LaneView {
            label: self.label@,
            overlay: self.overlay,
            locked: self.locked,
            hidden: self.hidden,
            muted: self.muted,
            clips: views(self.clips@),
        }
    }
}

/// Layer `li` of scene `s` on its lane.
pub open spec fn layer_clip(p: ProjectView, s: int, li: int, pps: int) -> LaneClipView {
    let scene = p.scenes[s];
    let c = scene.layers[li];
    let offset = offset_of(p.scenes, s);
    let duration = effective(c, Some(scene.duration));
    LaneClipView {
        id: c.id,
        start: offset + c.start,
        duration,
        base: Some(offset as i128),
        width: button_width(duration, pps),
    }
}

/// Layer `li` of the first `n` scenes, where they have one.
pub open spec fn layer_clips(p: ProjectView, li: int, pps: int, n: int) -> Seq<LaneClipView>
    decreases n,
{
    if n <= 0 {
        Seq::empty()
    } else {
        let before = layer_clips(p, li, pps, n - 1);
        if li < p.scenes[n - 1].layers.len() {
            before.push(layer_clip(p, n - 1, li, pps))
        } else {
            before
        }
    }
}

/// The state of a layer's lane; a missing one is plain.
pub open spec fn lane_meta(p: ProjectView, li: int) -> LaneMeta {
    if 0 <= li < p.scene_lanes.len() {
        p.scene_lanes[li]
    } else {
        LaneMeta { locked: false, muted: false, hidden: false }
    }
}

/// The lane of layer `li`.
pub open spec fn layer_lane(p: ProjectView, li: int, pps: int) -> LaneView {
    let meta = lane_meta(p, li);
    LaneView {
        label: "Layer "@ + decimal((li + 1) as nat),
        overlay: false,
        locked: meta.locked,
        hidden: meta.hidden,
        muted: meta.muted,
        clips: layer_clips(p, li, pps, p.scenes.len() as int),
    }
}

/// A clip of an overlay track on its lane.
pub open spec fn overlay_clip(c: ClipView, pps: int) -> LaneClipView {
    LaneClipView {
        id: c.id,
        start: c.start,
        duration: c.duration,
        base: None,
        width: button_width(c.duration, pps),
    }
}

/// The lane of an overlay track, under its name or else its id.
pub open spec fn overlay_lane(t: OverlayTrackView, pps: int) -> LaneView {
    LaneView {
        label: if t.name.len() == 0 {
            t.id
        } else {
            t.name
        },
        overlay: true,
        locked: t.locked,
        hidden: t.hidden,
        muted: t.muted,
        clips: t.clips.map_values(|c: ClipView| overlay_clip(c, pps)),
    }
}

/// Number of layer lanes: there is one even without any layer.
pub open spec fn layer_lanes(p: ProjectView) -> int {
    max(max_layers(p.scenes), 1)
}

/// The lanes of the strip: the layers, then the overlay tracks.
pub open spec fn lanes(p: ProjectView, pps: int) -> Seq<LaneView> {
    Seq::new(layer_lanes(p) as nat, |li: int| layer_lane(p, li, pps)) + Seq::new(
        p.overlays.len(),
        |t: int| overlay_lane(p.overlays[t], pps),
    )
}

fn make_layer_lane(project: &Project, li: usize, pps: i128) -> (r: Lane)
    requires
        project@.fits(16),
        LEAST_ZOOM <= pps <= MOST_ZOOM,
    ensures
        r@ == layer_lane(project@, li as int, pps as int),
{
    let meta: LaneMeta = if li < project.scene_lanes.len() {
        project.scene_lanes[li]
    } else {
        LaneMeta { locked: false, muted: false, hidden: false }
    };
    let mut clips: Vec<LaneClip> = Vec::new();
    let mut s: usize = 0;
    assert(views(clips@) =~= Seq::empty());
    while s < project.scenes.len()
        invariant
            s <= project.scenes.len(),
            project@.fits(16),
            LEAST_ZOOM <= pps <= MOST_ZOOM,
            views(clips@) == layer_clips(project@, li as int, pps as int, s as int),
        decreases project.scenes.len() - s,
    {
        let scene: &Scene = &project.scenes[s];
        assert(project@.scenes[s as int].fits(16));
        if li < scene.layers.len() {
            let clip: &Clip = &scene.layers[li];
            assert(project@.scenes[s as int].layers[li as int].fits(16));
            let offset: i128 = project.scene_offset(s);
            let duration: i128 = effective_duration(clip, Some(scene));
            let px: i32 = to_pixels(duration, pps);
            clips.push(
                LaneClip {
                    id: clip.id.clone(),
                    start: offset + clip.start,
                    duration,
                    base: Some(offset),
                    width: if px > 30 {
                        px
                    } else {
                        30
                    },
                },
            );
        }
        s += 1;
    }
    Lane {
        label: joined("Layer ", decimal_text(li as u128 + 1).as_str()),
        overlay: false,
        locked: meta.locked,
        hidden: meta.hidden,
        muted: meta.muted,
        clips,
    }
}

fn make_overlay_lane(track: &OverlayTrack, pps: i128) -> (r: Lane)
    requires
        crate::document::clips_fit(track@.clips, 16),
        LEAST_ZOOM <= pps <= MOST_ZOOM,
    ensures
        r@ == overlay_lane(track@, pps as int),
{
    let mut clips: Vec<LaneClip> = Vec::new();
    let ghost all = track@.clips;
    let ghost f = |c: ClipView| overlay_clip(c, pps as int);
    let mut i: usize = 0;
    assert(views(clips@) =~= all.take(0).map_values(f));
    while i < track.clips.len()
        invariant
            i <= track.clips.len(),
            all == track@.clips,
            f == |c: ClipView| overlay_clip(c, pps as int),
            crate::document::clips_fit(all, 16),
            LEAST_ZOOM <= pps <= MOST_ZOOM,
            views(clips@) == all.take(i as int).map_values(f),
        decreases track.clips.len() - i,
    {
        let clip: &Clip = &track.clips[i];
        assert(all[i as int].fits(16));
        let px: i32 = to_pixels(clip.duration, pps);
        clips.push(
            LaneClip {
                id: clip.id.clone(),
                start: clip.start,
                duration: clip.duration,
                base: None,
                width: if px > 30 {
                    px
                } else {
                    30
                },
            },
        );
        assert(views(clips@) =~= all.take(i + 1).map_values(f));
        i += 1;
    }
    assert(all.take(i as int) =~= all);
    Lane {
        label: if track.name.as_str().is_empty() {
            track.id.clone()
        } else {
            track.name.clone()
        },
        overlay: true,
        locked: track.locked,
        hidden: track.hidden,
        muted: track.muted,
        clips,
    }
}

/// The lanes of the strip at the given zoom: the layers of the scenes, at
/// least one, then the overlay tracks.
pub fn strip_lanes(project: &Project, pps: i128) -> (r: Vec<Lane>)
    requires
        project@.fits(16),
        LEAST_ZOOM <= pps <= MOST_ZOOM,
        layer_lanes(project@) + project@.overlays.len() <= usize::MAX,
    ensures
        views(r@) == lanes(project@, pps as int),
{
    let slots: usize = layer_slots(project);
    let count: usize = if slots > 1 {
        slots
    } else {
        1
    };
    let mut out: Vec<Lane> = Vec::new();
    let mut li: usize = 0;
    let ghost layers = Seq::new(
        layer_lanes(project@) as nat,
        |li: int| layer_lane(project@, li, pps as int),
    );
    assert(views(out@) =~= layers.take(0));
    while li < count
        invariant
            li <= count,
            count == layer_lanes(project@),
            project@.fits(16),
            LEAST_ZOOM <= pps <= MOST_ZOOM,
            layers == Seq::new(
                layer_lanes(project@) as nat,
                |li: int| layer_lane(project@, li, pps as int),
            ),
            views(out@) == layers.take(li as int),
        decreases count - li,
    {
        out.push(make_layer_lane(project, li, pps));
        assert(views(out@) =~= layers.take(li + 1));
        li += 1;
    }
    assert(layers.take(li as int) =~= layers);
    let ghost tracks = Seq::new(
        project@.overlays.len(),
        |t: int| overlay_lane(project@.overlays[t], pps as int),
    );
    let mut t: usize = 0;
    assert(views(out@) =~= layers + tracks.take(0));
    while t < project.overlays.len()
        invariant
            t <= project.overlays.len(),
            project@.fits(16),
            LEAST_ZOOM <= pps <= MOST_ZOOM,
            tracks == Seq::new(
                project@.overlays.len(),
                |t: int| overlay_lane(project@.overlays[t], pps as int),
            ),
            views(out@) == layers + tracks.take(t as int),
        decreases project.overlays.len() - t,
    {
        assert(crate::document::clips_fit(project@.overlays[t as int].clips, 16));
        out.push(make_overlay_lane(&project.overlays[t], pps));
        assert(views(out@) =~= layers + tracks.take(t + 1));
        t += 1;
    }
    assert(tracks.take(t as int) =~= tracks);
    out
}

proof fn lemma_layer_shown(p: ProjectView, s: int, li: int, pps: int, n: int)
    requires
        0 <= s < n <= p.scenes.len(),
        0 <= li < p.scenes[s].layers.len(),
    ensures
        layer_clips(p, li, pps, n).contains(layer_clip(p, s, li, pps)),
    decreases n,
{
    let before = layer_clips(p, li, pps, n - 1);
    let all = layer_clips(p, li, pps, n);
    if s == n - 1 {
        assert(all[before.len() as int] == layer_clip(p, s, li, pps));
    } else {
        lemma_layer_shown(p, s, li, pps, n - 1);
        let k = choose|k: int| 0 <= k < before.len() && before[k] == layer_clip(p, s, li, pps);
        assert(all[k] == before[k]);
    }
}

proof fn lemma_most_layers(p: ProjectView, s: int)
    requires
        0 <= s < p.scenes.len(),
    ensures
        p.scenes[s].layers.len() <= max_layers(p.scenes),
{
    lemma_most_layers_in(p.scenes, s);
}

proof fn lemma_most_layers_in(scenes: Seq<crate::document::SceneView>, s: int)
    requires
        0 <= s < scenes.len(),
    ensures
        scenes[s].layers.len() <= max_layers(scenes),
    decreases scenes.len(),
{
    if s < scenes.len() - 1 {
        lemma_most_layers_in(scenes.drop_last(), s);
    }
}

/// Every layer of every scene stands on the lane of its slot, at its absolute
/// time, and every clip of every overlay track on the lane of its track.
pub proof fn law_strip_shows_all(p: ProjectView, pps: int, s: int, i: int)
    ensures
        0 <= s < p.scenes.len() && 0 <= i < p.scenes[s].layers.len() ==> i < layer_lanes(p)
            && lanes(p, pps)[i].clips.contains(layer_clip(p, s, i, pps)),
        0 <= s < p.overlays.len() && 0 <= i < p.overlays[s].clips.len() ==> lanes(
            p,
            pps,
        )[layer_lanes(p) + s].clips[i] == overlay_clip(p.overlays[s].clips[i], pps),
{
    if 0 <= s < p.scenes.len() && 0 <= i < p.scenes[s].layers.len() {
        lemma_most_layers(p, s);
        lemma_layer_shown(p, s, i, pps, p.scenes.len() as int);
    }
}

/// What can be switched on a lane.
#[derive(Debug, Clone, Copy, PartialEq, Eq, Structural)]
pub enum LaneToggle {
    Lock,
    Hide,
    Mute,
}

pub open spec fn toggled(m: LaneMeta, kind: LaneToggle, active: bool) -> LaneMeta {
    match kind {
        LaneToggle::Lock => LaneMeta { locked: active, ..m },
        LaneToggle::Hide => LaneMeta { hidden: active, ..m },
        LaneToggle::Mute => LaneMeta { muted: active, ..m },
    }
}

/// The lane states, with plain ones added up to `n`.
pub open spec fn extended(lanes: Seq<LaneMeta>, n: nat) -> Seq<LaneMeta> {
    if lanes.len() >= n {
        lanes
    } else {
        lanes + Seq::new(
            (n - lanes.len()) as nat,
            |i: int| LaneMeta { locked: false, muted: false, hidden: false },
        )
    }
}

/// Switch something on the lane of layer `li`.
pub fn toggle_layer(project: &mut Project, li: usize, kind: LaneToggle, active: bool)
    requires
        li < usize::MAX,
    ensures
        ({
            let lanes = extended(old(project)@.scene_lanes, (li + 1) as nat);
            final(project)@ == ProjectView {
                scene_lanes: lanes.update(li as int, toggled(lanes[li as int], kind, active)),
                ..old(project)@
            }
        }),
{
    let ghost before = project@.scene_lanes;
    while project.scene_lanes.len() <= li
        invariant
            project@ == (ProjectView {
                scene_lanes: project.scene_lanes@,
                ..old(project)@
            }),
            before.len() <= project.scene_lanes@.len(),
            project.scene_lanes@.len() <= before.len() || project.scene_lanes@.len() <= li + 1,
            before == old(project)@.scene_lanes,
            project.scene_lanes@ == extended(before, project.scene_lanes@.len()),
            li < usize::MAX,
        decreases li + 1 - project.scene_lanes.len(),
    {
        project.scene_lanes.push(LaneMeta { locked: false, muted: false, hidden: false });
        assert(project.scene_lanes@ =~= extended(before, project.scene_lanes@.len()));
    }
    assert(project.scene_lanes@ =~= extended(before, (li + 1) as nat));
    let mut lane: LaneMeta = project.scene_lanes[li];
    match kind {
        LaneToggle::Lock => {
            lane.locked = active;
        },
        LaneToggle::Hide => {
            lane.hidden = active;
        },
        LaneToggle::Mute => {
            lane.muted = active;
        },
    }
    project.scene_lanes.set(li, lane);
}

pub open spec fn toggled_track(t: OverlayTrackView, kind: LaneToggle, active: bool) -> OverlayTrackView {
    match kind {
        LaneToggle::Lock => OverlayTrackView { locked: active, ..t },
        LaneToggle::Hide => OverlayTrackView { hidden: active, ..t },
        LaneToggle::Mute => OverlayTrackView { muted: active, ..t },
    }
}

/// Switch something on an overlay track; `false` if there is no such track.
pub fn toggle_track(project: &mut Project, id: &str, kind: LaneToggle, active: bool) -> (r: bool)
    ensures
        ({
            let p = old(project)@;
            let t = track_index(p.overlays, id@);
            &&& r == (t < p.overlays.len())
            &&& final(project)@ == if r {
                ProjectView {
                    overlays: p.overlays.update(t, toggled_track(p.overlays[t], kind, active)),
                    ..p
                }
            } else {
                p
            }
        }),
{
    let ghost p = project@;
    match crate::edit::track_at(project, id) {
        Some(t) => {
            match kind {
                LaneToggle::Lock => {
                    project.overlays[t].locked = active;
                },
                LaneToggle::Hide => {
                    project.overlays[t].hidden = active;
                },
                LaneToggle::Mute => {
                    project.overlays[t].muted = active;
                },
            }
            assert(project@.overlays =~= p.overlays.update(
                t as int,
                toggled_track(p.overlays[t as int], kind, active),
            ));
            true
        },
        None => false,
    }
}

/// The time under a point of the ruler.
pub open spec fn ruler_time(x: int, pps: int) -> int {
    max(x * UNIT / pps, 0)
}

/// What a click on the ruler does: where it seeks to, and the scene that it
/// selects.
pub fn ruler_click(project: &Project, x: i128, pps: i128) -> (r: (i128, String))
    requires
        project@.fits(16),
        project@.scenes.len() > 0,
        within(x as int, 1),
        LEAST_ZOOM <= pps <= MOST_ZOOM,
    ensures
        ({
            let t = ruler_time(x as int, pps as int);
            &&& r.0 == min(t, total_duration(project@.scenes))
            &&& r.1@ == "scene:"@ + project@.scenes[scene_at(
                project@.scenes,
                t,
                project@.scenes.len() as int,
            )].id
        }),
{
    let t: i128 = larger(floor_div(x * UNIT, pps), 0);
    let s: usize = scene_index_at(project, t);
    (smaller(t, project.duration()), joined("scene:", project.scenes[s].id.as_str()))
}

/// The scene that a selection names, if it names one.
pub fn selected_scene(selected: &str) -> (r: Option<String>)
    ensures
        match r {
            Some(id) => selected@ == "scene:"@ + id@,
            None => !crate::words::begins_with(selected@, "scene:"@),
        },
{
    let r: Option<String> = crate::words::after_prefix(selected, "scene:");
    proof {
        if let Some(id) = &r {
            assert(selected@ =~= selected@.take("scene:"@.len() as int) + id@);
        }
    }
    r
}

/// A length of time takes up its pixels at the zoom, cut off to whole ones.
pub proof fn law_pixels_of(t: int, pps: int)
    requires
        -2_147_483_648_000_000_000_000_000_000 <= t * pps < 2_147_483_648_000_000_000_000_000_000,
    ensures
        pixels_of(t, pps) * 1_000_000_000_000_000_000 <= t * pps < (pixels_of(t, pps) + 1)
            * 1_000_000_000_000_000_000,
{
}

/// A point of the ruler stands for the time whose pixels lie to its left, and
/// for 0 left of the ruler's start.
pub proof fn law_ruler_time(x: int, pps: int)
    requires
        pps > 0,
    ensures
        x >= 0 ==> ruler_time(x, pps) * pps <= x * 1_000_000_000 < (ruler_time(x, pps) + 1) * pps,
        x < 0 ==> ruler_time(x, pps) == 0,
{
    let m = x * UNIT;
    let q = m / pps;
    vstd::arithmetic::div_mod::lemma_fundamental_div_mod(m, pps);
    vstd::arithmetic::div_mod::lemma_mod_bound(m, pps);
    assert(q * pps == pps * q && (q + 1) * pps == pps * q + pps) by (nonlinear_arith);
    if x >= 0 {
        vstd::arithmetic::div_mod::lemma_div_pos_is_pos(m, pps);
    } else {
        assert(q < 0) by (nonlinear_arith)
            requires
                pps * q <= m,
                m < 0,
                pps > 0,
        ;
    }
}

/// A layer stands on the strip where its scene begins plus its own start, for
/// as long as it lasts; a button is as wide as that, thirty pixels at least.
pub proof fn law_layer_on_strip(p: ProjectView, s: int, li: int, pps: int)
    requires
        0 <= s < p.scenes.len(),
        0 <= li < p.scenes[s].layers.len(),
        offset_of(p.scenes, s) <= i128::MAX,
    ensures
        ({
            let c = p.scenes[s].layers[li];
            let b = layer_clip(p, s, li, pps);
            &&& b.id == c.id
            &&& b.base is Some && b.base->0 == offset_of(p.scenes, s)
            &&& b.start - b.base->0 == c.start
            &&& c.duration > 0 ==> b.duration == c.duration
            &&& c.duration <= 0 && c.start + 100_000_000 <= p.scenes[s].duration ==> c.start
                + b.duration == p.scenes[s].duration
            &&& b.width >= 30
            &&& b.width > 30 ==> b.width == pixels_of(b.duration, pps)
            &&& pixels_of(b.duration, pps) >= 30 ==> b.width == pixels_of(b.duration, pps)
        }),
{
}

/// An overlay clip stands on the strip at its own start, for its own length.
pub proof fn law_overlay_on_strip(c: ClipView, pps: int)
    ensures
        ({
            let b = overlay_clip(c, pps);
            &&& b.id == c.id && b.start == c.start && b.duration == c.duration
            &&& b.base is None
            &&& b.width >= 30
            &&& pixels_of(b.duration, pps) >= 30 ==> b.width == pixels_of(b.duration, pps)
        }),
{
}

/// A lane shows the state it has: that of its entry, plain without one, or
/// that of its track, under the track's name if it has one.
pub proof fn law_lane_state_shown(p: ProjectView, pps: int, i: int)
    requires
        0 <= i < lanes(p, pps).len(),
    ensures
        ({
            let lane = lanes(p, pps)[i];
            let n = lanes(p, pps).len() - p.overlays.len();
            &&& i < n ==> {
                &&& !lane.overlay
                &&& lane.label == "Layer "@ + decimal((i + 1) as nat)
                &&& i < p.scene_lanes.len() ==> lane.locked == p.scene_lanes[i].locked
                    && lane.hidden == p.scene_lanes[i].hidden && lane.muted
                    == p.scene_lanes[i].muted
                &&& i >= p.scene_lanes.len() ==> !lane.locked && !lane.hidden && !lane.muted
            }
            &&& i >= n ==> {
                let t = p.overlays[i - n];
                &&& lane.overlay
                &&& lane.locked == t.locked && lane.hidden == t.hidden && lane.muted == t.muted
                &&& t.name.len() > 0 ==> lane.label == t.name
                &&& t.name.len() == 0 ==> lane.label == t.id
            }
        }),
{
}

/// A switch changes what it is for, to what it is switched to, and nothing
/// else, on a layer's lane and on a track alike.
pub proof fn law_toggled(m: LaneMeta, t: OverlayTrackView, kind: LaneToggle, active: bool)
    ensures
        ({
            let a = toggled(m, kind, active);
            let b = toggled_track(t, kind, active);
            &&& a.locked == (if kind == LaneToggle::Lock {
                active
            } else {
                m.locked
            })
            &&& a.hidden == (if kind == LaneToggle::Hide {
                active
            } else {
                m.hidden
            })
            &&& a.muted == (if kind == LaneToggle::Mute {
                active
            } else {
                m.muted
            })
            &&& b.locked == (if kind == LaneToggle::Lock {
                active
            } else {
                t.locked
            })
            &&& b.hidden == (if kind == LaneToggle::Hide {
                active
            } else {
                t.hidden
            })
            &&& b.muted == (if kind == LaneToggle::Mute {
                active
            } else {
                t.muted
            })
            &&& b.id == t.id && b.name == t.name && b.clips == t.clips
        }),
{
}

/// Lane states are added only where they are missing, and plain.
pub proof fn law_extended(lanes: Seq<LaneMeta>, n: nat, i: int)
    ensures
        extended(lanes, n).len() >= n,
        extended(lanes, n).len() == lanes.len() || extended(lanes, n).len() == n,
        0 <= i < lanes.len() ==> extended(lanes, n)[i] == lanes[i],
        lanes.len() <= i < n ==> !extended(lanes, n)[i].locked && !extended(lanes, n)[i].muted
            && !extended(lanes, n)[i].hidden,
{
}

} // verus!
