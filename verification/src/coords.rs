//! Where clips stand in the picture and in time: bounding boxes, hit testing,
//! letterboxing and snapping.

use vstd::prelude::*;
use crate::document::{Clip, ClipView, Project, ProjectView};
use crate::fixed::{larger, max, within, HORIZON, LIMIT, UNIT};
use crate::timeline::offset_of;
use crate::views::{collected, lemma_collected_member, lemma_collected_step, views};

verus! {

broadcast use crate::views::group_views;

/// A clip and the rectangle it fills.
#[derive(Debug)]
pub struct Hit {
    pub id: String,
    pub x: i128,
    pub y: i128,
    pub width: i128,
    pub height: i128,
}

#[verifier::ext_equal]
pub struct HitView {
    pub id: Seq<char>,
    pub x: int,
    pub y: int,
    pub width: int,
    pub height: int,
}

impl View for Hit {
    type V = HitView;

    open spec fn view(&self) -> HitView {
        HitView {
            id: self.id@,
            x: self.x as int,
            y: self.y as int,
            width: self.width as int,
            height: self.height as int,
        }
    }
}

/// The rectangle that a clip fills; a missing width or height is that of the
/// canvas.
pub open spec fn box_of(p: ProjectView, c: ClipView) -> (int, int, int, int) {
    (
        c.transform.x as int,
        c.transform.y as int,
        if c.transform.width > 0 {
            c.transform.width as int
        } else {
            p.meta.width * UNIT
        },
        if c.transform.height > 0 {
            c.transform.height as int
        } else {
            p.meta.height * UNIT
        },
    )
}

/// The rectangle that a clip fills: its left and top edge, width and height.
pub fn clip_box(project: &Project, clip: &Clip) -> (r: (i128, i128, i128, i128))
    ensures
        (r.0 as int, r.1 as int, r.2 as int, r.3 as int) == box_of(project@, clip@),
{
    let w: i128 = if clip.transform.width > 0 {
        clip.transform.width
    } else {
        project.meta.width as i128 * UNIT
    };
    let h: i128 = if clip.transform.height > 0 {
        clip.transform.height
    } else {
        project.meta.height as i128 * UNIT
    };
    (clip.transform.x, clip.transform.y, w, h)
}

/// No edge of a rectangle lies further out than the numbers of a document and
/// the size of a canvas allow.
pub open spec fn bounded(h: HitView) -> bool {
    &&& -3_000_000_000_000_000_000 <= h.x <= 3_000_000_000_000_000_000
    &&& -3_000_000_000_000_000_000 <= h.y <= 3_000_000_000_000_000_000
    &&& -3_000_000_000_000_000_000 <= h.width <= 3_000_000_000_000_000_000
    &&& -3_000_000_000_000_000_000 <= h.height <= 3_000_000_000_000_000_000
}

pub open spec fn all_bounded(hits: Seq<HitView>) -> bool {
    forall|i: int| 0 <= i < hits.len() ==> bounded(#[trigger] hits[i])
}

pub open spec fn hit_of(p: ProjectView, c: ClipView) -> HitView {
    let (x, y, width, height) = box_of(p, c);
    HitView { id: c.id, x, y, width, height }
}

/// A clip on an overlay track shows at `time`; it shows for at least a
/// hundredth of a second.
pub open spec fn overlay_active(c: ClipView, time: int) -> bool {
    c.start <= time < c.start + max(c.duration, 10_000_000)
}

/// A layer shows `local` seconds into its scene.
pub open spec fn layer_active(c: ClipView, scene_duration: int, local: int) -> bool {
    c.start <= local < c.start + if c.duration > 0 {
        c.duration
    } else {
        scene_duration - c.start
    }
}

pub open spec fn overlay_hits(p: ProjectView, time: int) -> spec_fn(ClipView) -> Option<HitView> {
    |c: ClipView|
        if overlay_active(c, time) {
            Some(hit_of(p, c))
        } else {
            None
        }
}

pub open spec fn layer_hits(p: ProjectView, duration: int, local: int) -> spec_fn(ClipView) -> Option<
    HitView,
> {
    |c: ClipView|
        if layer_active(c, duration, local) {
            Some(hit_of(p, c))
        } else {
            None
        }
}

/// The clips of the first `n` overlay tracks that show at `time`.
pub open spec fn tracks_active(p: ProjectView, time: int, n: int) -> Seq<HitView>
    decreases n,
{
    if n <= 0 {
        Seq::empty()
    } else {
        tracks_active(p, time, n - 1) + collected(p.overlays[n - 1].clips, overlay_hits(p, time))
    }
}

/// The layers of scene `s` that show at `time`.
pub open spec fn scene_active(p: ProjectView, time: int, s: int) -> Seq<HitView> {
    let offset = offset_of(p.scenes, s);
    let scene = p.scenes[s];
    if offset <= time < offset + scene.duration {
        collected(scene.layers, layer_hits(p, scene.duration, time - offset))
    } else {
        Seq::empty()
    }
}

/// The layers of the first `n` scenes that show at `time`.
pub open spec fn scenes_active(p: ProjectView, time: int, n: int) -> Seq<HitView>
    decreases n,
{
    if n <= 0 {
        Seq::empty()
    } else {
        scenes_active(p, time, n - 1) + scene_active(p, time, n - 1)
    }
}

/// The clips that show at `time`, topmost first: overlays before scene
/// layers, lower layers before higher ones.
pub open spec fn active_at(p: ProjectView, time: int) -> Seq<HitView> {
    tracks_active(p, time, p.overlays.len() as int) + scenes_active(p, time, p.scenes.len() as int)
}

fn make_hit(project: &Project, clip: &Clip) -> (r: Hit)
    requires
        clip@.fits(16),
    ensures
        r@ == hit_of(project@, clip@),
        bounded(r@),
{
    let (x, y, width, height): (i128, i128, i128, i128) = clip_box(project, clip);
    Hit { id: clip.id.clone(), x, y, width, height }
}

fn push_overlay_hits(project: &Project, t: usize, time: i128, out: &mut Vec<Hit>)
    requires
        t < project.overlays.len(),
        project@.fits(16),
    ensures
        views(final(out)@) == views(old(out)@) + collected(
            project@.overlays[t as int].clips,
            overlay_hits(project@, time as int),
        ),
        all_bounded(views(old(out)@)) ==> all_bounded(views(final(out)@)),
{
    let clips: &Vec<Clip> = &project.overlays[t].clips;
    let ghost all = project@.overlays[t as int].clips;
    let ghost f = overlay_hits(project@, time as int);
    let ghost start = views(out@);
    let mut k: usize = 0;
    assert(views(out@) =~= start + collected(all.take(0), f));
    while k < clips.len()
        invariant
            k <= clips.len(),
            all == views(clips@),
            f == overlay_hits(project@, time as int),
            forall|i: int| 0 <= i < all.len() ==> (#[trigger] all[i]).fits(16),
            views(out@) == start + collected(all.take(k as int), f),
            all_bounded(start) ==> all_bounded(views(out@)),
        decreases clips.len() - k,
    {
        let clip: &Clip = &clips[k];
        proof {
            lemma_collected_step(all, f, k as int);
            assert(all[k as int].fits(16));
        }
        if clip.start <= time && time < clip.start + larger(clip.duration, 10_000_000) {
            out.push(make_hit(project, clip));
            assert(views(out@) =~= start + collected(all.take(k + 1), f));
        }
        k += 1;
    }
    assert(all.take(k as int) =~= all);
}

fn push_layer_hits(project: &Project, s: usize, time: i128, out: &mut Vec<Hit>)
    requires
        s < project.scenes.len(),
        project@.fits(16),
        -HORIZON <= time <= HORIZON + 16 * LIMIT,
    ensures
        views(final(out)@) == views(old(out)@) + scene_active(project@, time as int, s as int),
        all_bounded(views(old(out)@)) ==> all_bounded(views(final(out)@)),
{
    let offset: i128 = project.scene_offset(s);
    let scene: &crate::document::Scene = &project.scenes[s];
    let ghost start = views(out@);
    assert(project@.scenes[s as int].fits(16));
    if time < offset || time >= offset + scene.duration {
        assert(views(out@) =~= start + scene_active(project@, time as int, s as int));
        return;
    }
    let clips: &Vec<Clip> = &scene.layers;
    let local: i128 = time - offset;
    let ghost all = project@.scenes[s as int].layers;
    let ghost f = layer_hits(project@, scene.duration as int, local as int);
    let mut k: usize = 0;
    assert(views(out@) =~= start + collected(all.take(0), f));
    while k < clips.len()
        invariant
            k <= clips.len(),
            all == views(clips@),
            f == layer_hits(project@, scene.duration as int, local as int),
            within(scene.duration as int, 16),
            forall|i: int| 0 <= i < all.len() ==> (#[trigger] all[i]).fits(16),
            views(out@) == start + collected(all.take(k as int), f),
            all_bounded(start) ==> all_bounded(views(out@)),
        decreases clips.len() - k,
    {
        let clip: &Clip = &clips[k];
        proof {
            lemma_collected_step(all, f, k as int);
            assert(all[k as int].fits(16));
        }
        let duration: i128 = if clip.duration > 0 {
            clip.duration
        } else {
            scene.duration - clip.start
        };
        if clip.start <= local && local < clip.start + duration {
            out.push(make_hit(project, clip));
            assert(views(out@) =~= start + collected(all.take(k + 1), f));
        }
        k += 1;
    }
    assert(all.take(k as int) =~= all);
}

/// The clips that show at `time`, topmost first: overlays before scene
/// layers, lower layers before higher ones.
pub fn active_clips_at(project: &Project, time: i128) -> (r: Vec<Hit>)
    requires
        project@.fits(16),
        -HORIZON <= time <= HORIZON + 16 * LIMIT,
    ensures
        views(r@) == active_at(project@, time as int),
        all_bounded(views(r@)),
{
    let mut out: Vec<Hit> = Vec::new();
    let mut t: usize = 0;
    assert(views(out@) =~= tracks_active(project@, time as int, 0));
    while t < project.overlays.len()
        invariant
            t <= project.overlays.len(),
            project@.fits(16),
            views(out@) == tracks_active(project@, time as int, t as int),
            all_bounded(views(out@)),
        decreases project.overlays.len() - t,
    {
        push_overlay_hits(project, t, time, &mut out);
        t += 1;
    }
    let ghost above = views(out@);
    let mut s: usize = 0;
    assert(views(out@) =~= above + scenes_active(project@, time as int, 0));
    while s < project.scenes.len()
        invariant
            s <= project.scenes.len(),
            project@.fits(16),
            -HORIZON <= time <= HORIZON + 16 * LIMIT,
            views(out@) == above + scenes_active(project@, time as int, s as int),
            all_bounded(views(out@)),
        decreases project.scenes.len() - s,
    {
        push_layer_hits(project, s, time, &mut out);
        assert(views(out@) =~= above + scenes_active(project@, time as int, s + 1));
        s += 1;
    }
    out
}

/// The point lies in the rectangle, its edges included.
pub open spec fn contains_point(h: HitView, x: int, y: int) -> bool {
    h.x <= x <= h.x + h.width && h.y <= y <= h.y + h.height
}

/// Index of the smallest of the first `n` rectangles that hold a point; the
/// first of several of equal area; -1 if none holds it.
pub open spec fn smallest_at(hits: Seq<HitView>, x: int, y: int, n: int) -> int
    decreases n,
{
    if n <= 0 {
        -1
    } else {
        let best = smallest_at(hits, x, y, n - 1);
        let h = hits[n - 1];
        if !contains_point(h, x, y) {
            best
        } else if best < 0 || h.width * h.height < hits[best].width * hits[best].height {
            n - 1
        } else {
            best
        }
    }
}

/// The clip under a point of the picture: the smallest of those that show.
pub open spec fn picked(p: ProjectView, time: int, x: int, y: int) -> Option<Seq<char>> {
    let hits = active_at(p, time);
    let i = smallest_at(hits, x, y, hits.len() as int);
    if 0 <= i < hits.len() {
        Some(hits[i].id)
    } else {
        None
    }
}

proof fn lemma_area(w: int, h: int)
    requires
        -3_000_000_000_000_000_000 <= w <= 3_000_000_000_000_000_000,
        -3_000_000_000_000_000_000 <= h <= 3_000_000_000_000_000_000,
    ensures
        -9_000_000_000_000_000_000_000_000_000_000_000_000 <= w * h
            <= 9_000_000_000_000_000_000_000_000_000_000_000_000,
{
    assert(w * h <= 9_000_000_000_000_000_000_000_000_000_000_000_000 && w * h
        >= -9_000_000_000_000_000_000_000_000_000_000_000_000) by (nonlinear_arith)
        requires
            -3_000_000_000_000_000_000 <= w <= 3_000_000_000_000_000_000,
            -3_000_000_000_000_000_000 <= h <= 3_000_000_000_000_000_000,
    ;
}

proof fn lemma_smallest(hits: Seq<HitView>, x: int, y: int, n: int)
    requires
        0 <= n <= hits.len(),
    ensures
        -1 <= smallest_at(hits, x, y, n) < n,
    decreases n,
{
    if n > 0 {
        lemma_smallest(hits, x, y, n - 1);
    }
}

/// The clip under a point of the picture at `time`: the smallest of those
/// that show there, and of equal ones the topmost.
pub fn pick_clip(project: &Project, time: i128, x: i128, y: i128) -> (r: Option<String>)
    requires
        project@.fits(16),
        -HORIZON <= time <= HORIZON + 16 * LIMIT,
    ensures
        match r {
            Some(id) => picked(project@, time as int, x as int, y as int) == Some(id@),
            None => picked(project@, time as int, x as int, y as int) is None,
        },
{
    let hits: Vec<Hit> = active_clips_at(project, time);
    let ghost all = active_at(project@, time as int);
    let mut best: Option<usize> = None;
    let mut i: usize = 0;
    while i < hits.len()
        invariant
            i <= hits.len(),
            all == views(hits@),
            all_bounded(all),
            match best {
                Some(b) => b < i && smallest_at(all, x as int, y as int, i as int) == b,
                None => smallest_at(all, x as int, y as int, i as int) == -1,
            },
        decreases hits.len() - i,
    {
        let h: &Hit = &hits[i];
        proof {
            assert(bounded(all[i as int]));
            lemma_area(h.width as int, h.height as int);
        }
        if h.x <= x && x <= h.x + h.width && h.y <= y && y <= h.y + h.height {
            let smaller: bool = match best {
                Some(b) => {
                    proof {
                        assert(bounded(all[b as int]));
                        lemma_area(hits@[b as int].width as int, hits@[b as int].height as int);
                    }
                    h.width * h.height < hits[b].width * hits[b].height
                },
                None => true,
            };
            if smaller {
                best = Some(i);
            }
        }
        i += 1;
    }
    match best {
        Some(b) => Some(hits[b].id.clone()),
        None => None,
    }
}

/// A clip that is picked shows at that time and holds the point, and no other
/// clip that does is smaller.
pub proof fn law_picked(p: ProjectView, time: int, x: int, y: int)
    ensures
        ({
            let hits = active_at(p, time);
            let i = smallest_at(hits, x, y, hits.len() as int);
            &&& i >= 0 ==> i < hits.len() && contains_point(hits[i], x, y)
            &&& i >= 0 ==> forall|j: int|
                0 <= j < hits.len() && contains_point(#[trigger] hits[j], x, y) ==> hits[i].width
                    * hits[i].height <= hits[j].width * hits[j].height
            &&& i < 0 ==> forall|j: int|
                0 <= j < hits.len() ==> !contains_point(#[trigger] hits[j], x, y)
        }),
{
    let hits = active_at(p, time);
    lemma_picked(hits, x, y, hits.len() as int);
}

proof fn lemma_picked(hits: Seq<HitView>, x: int, y: int, n: int)
    requires
        0 <= n <= hits.len(),
    ensures
        ({
            let i = smallest_at(hits, x, y, n);
            &&& i >= 0 ==> i < n && contains_point(hits[i], x, y)
            &&& i >= 0 ==> forall|j: int|
                0 <= j < n && contains_point(#[trigger] hits[j], x, y) ==> hits[i].width
                    * hits[i].height <= hits[j].width * hits[j].height
            &&& i < 0 ==> forall|j: int|
                0 <= j < n ==> !contains_point(#[trigger] hits[j], x, y)
        }),
    decreases n,
{
    if n > 0 {
        lemma_picked(hits, x, y, n - 1);
    }
}

/// The denominator and numerator of the scale that fits a canvas into a
/// widget: the extent, in billionths, that the given extent of the canvas, in
/// pixels, is shown at.
pub open spec fn fit(p: ProjectView, width: int, height: int) -> (int, int) {
    if width * p.meta.height <= height * p.meta.width {
        (width, p.meta.width)
    } else {
        (height, p.meta.height)
    }
}

/// Twice the shown extent times the place on the canvas of a point at `w`
/// along an extent of the widget.
pub open spec fn place(at: int, extent: int, canvas: int, f: (int, int)) -> int {
    (2 * at - extent) * f.1 + canvas * f.0
}

/// The point of the canvas shown at a point of the widget, and the scale it
/// is shown at; `None` outside the picture.
pub open spec fn comp_point(p: ProjectView, width: int, height: int, x: int, y: int) -> Option<
    (int, int, int),
> {
    let f = fit(p, width, height);
    let cx = place(x, width, p.meta.width, f);
    let cy = place(y, height, p.meta.height, f);
    if width <= 0 || height <= 0 {
        None
    } else if cx < 0 || cy < 0 || cx > 2 * f.0 * p.meta.width || cy > 2 * f.0 * p.meta.height {
        None
    } else {
        Some((cx * UNIT / (2 * f.0), cy * UNIT / (2 * f.0), f.0 / f.1))
    }
}

proof fn lemma_place(at: int, extent: int, canvas: int, a: int, c: int)
    requires
        within(at, 1),
        within(extent, 1),
        0 < canvas <= 2_147_483_647,
        0 < c <= 2_147_483_647,
        0 <= a <= LIMIT,
    ensures
        -900_000_000_000_000_000_000_000_000 <= (2 * at - extent) * c
            <= 900_000_000_000_000_000_000_000_000,
        0 <= canvas * a <= 300_000_000_000_000_000_000_000_000,
{
    assert(-900_000_000_000_000_000_000_000_000 <= (2 * at - extent) * c && (2 * at - extent) * c
        <= 900_000_000_000_000_000_000_000_000) by (nonlinear_arith)
        requires
            -300_000_000_000_000_000 <= 2 * at - extent <= 300_000_000_000_000_000,
            0 < c <= 2_147_483_647,
    ;
    assert(0 <= canvas * a && canvas * a <= 300_000_000_000_000_000_000_000_000)
        by (nonlinear_arith)
        requires
            0 < canvas <= 2_147_483_647,
            0 <= a <= 100_000_000_000_000_000,
    ;
}

/// Map a point of the preview widget to the point of the canvas that is shown
/// there, through the bars that keep the canvas in proportion; with the scale
/// that the canvas is shown at. `None` outside the picture.
pub fn widget_to_comp(project: &Project, width: i128, height: i128, x: i128, y: i128) -> (r: Option<
    (i128, i128, i128),
>)
    requires
        project.meta.width > 0,
        project.meta.height > 0,
        within(width as int, 1),
        within(height as int, 1),
        within(x as int, 1),
        within(y as int, 1),
    ensures
        match r {
            Some((cx, cy, scale)) => comp_point(
                project@,
                width as int,
                height as int,
                x as int,
                y as int,
            ) == Some((cx as int, cy as int, scale as int)),
            None => comp_point(project@, width as int, height as int, x as int, y as int) is None,
        },
{
    if width <= 0 || height <= 0 {
        return None;
    }
    let cw: i128 = project.meta.width as i128;
    let ch: i128 = project.meta.height as i128;
    proof {
        lemma_place(0, 0, ch as int, width as int, cw as int);
        lemma_place(0, 0, cw as int, height as int, ch as int);
        assert(width * ch == ch * width) by (nonlinear_arith);
        assert(height * cw == cw * height) by (nonlinear_arith);
    }
    let (a, c): (i128, i128) = if width * ch <= height * cw {
        (width, cw)
    } else {
        (height, ch)
    };
    proof {
        lemma_place(x as int, width as int, cw as int, a as int, c as int);
        lemma_place(y as int, height as int, ch as int, a as int, c as int);
        assert(2 * a * cw == 2 * (cw * a)) by (nonlinear_arith);
        assert(2 * a * ch == 2 * (ch * a)) by (nonlinear_arith);
    }
    let px: i128 = (2 * x - width) * c + cw * a;
    let py: i128 = (2 * y - height) * c + ch * a;
    if px < 0 || py < 0 || px > 2 * a * cw || py > 2 * a * ch {
        return None;
    }
    Some((px * UNIT / (2 * a), py * UNIT / (2 * a), a / c))
}

/// The middle of the widget shows the middle of the canvas.
pub proof fn law_middle(p: ProjectView, w: int, h: int)
    requires
        p.meta.width > 0,
        p.meta.height > 0,
        w > 0,
        h > 0,
    ensures
        ({
            let f = fit(p, 2 * w, 2 * h);
            comp_point(p, 2 * w, 2 * h, w, h) == Some(
                (p.meta.width * UNIT / 2, p.meta.height * UNIT / 2, f.0 / f.1),
            )
        }),
{
    let f = fit(p, 2 * w, 2 * h);
    lemma_middle(p.meta.width, f.0, f.1);
    lemma_middle(p.meta.height, f.0, f.1);
    assert(2 * w - 2 * w == 0);
}

proof fn lemma_middle(canvas: int, a: int, c: int)
    requires
        canvas > 0,
        a > 0,
    ensures
        0 * c + canvas * a == canvas * a,
        0 <= canvas * a <= 2 * a * canvas,
        canvas * a * UNIT / (2 * a) == canvas * UNIT / 2,
{
    assert(0 <= canvas * a && canvas * a <= 2 * a * canvas) by (nonlinear_arith)
        requires
            canvas > 0,
            a > 0,
    ;
    assert(canvas * a * UNIT == a * (canvas * UNIT)) by (nonlinear_arith);
    assert(2 * a == a * 2) by (nonlinear_arith);
    vstd::arithmetic::div_mod::lemma_truncate_middle(canvas * UNIT, a, 2);
    vstd::arithmetic::div_mod::lemma_div_denominator(a * (canvas * UNIT), a, 2);
    vstd::arithmetic::div_mod::lemma_div_multiples_vanish(canvas * UNIT, a);
}

/// A quotient rounded to the next whole number, halves away from zero.
pub open spec fn rounded(n: int, d: int) -> int {
    if n >= 0 {
        (2 * n + d) / (2 * d)
    } else {
        -((2 * -n + d) / (2 * d))
    }
}

/// A quotient rounded to the next whole number, halves away from zero.
pub fn round_div(n: i128, d: i128) -> (r: i128)
    requires
        d > 0,
        -HORIZON - 100 * LIMIT <= n <= HORIZON + 100 * LIMIT,
        d <= LIMIT * UNIT,
    ensures
        r == rounded(n as int, d as int),
{
    if n >= 0 {
        (2 * n + d) / (2 * d)
    } else {
        let m: i128 = -n;
        -((2 * m + d) / (2 * d))
    }
}

/// A rounded quotient is the nearest whole number: at most half a unit off,
/// the half going away from zero, and mirrored below zero.
pub proof fn law_rounded(n: int, d: int)
    requires
        d > 0,
    ensures
        n >= 0 ==> 2 * (rounded(n, d) * d - n) <= d && 2 * (n - rounded(n, d) * d) < d,
        rounded(-n, d) == -rounded(n, d),
{
    let m = if n >= 0 {
        n
    } else {
        -n
    };
    let q = (2 * m + d) / (2 * d);
    vstd::arithmetic::div_mod::lemma_fundamental_div_mod(2 * m + d, 2 * d);
    vstd::arithmetic::div_mod::lemma_mod_bound(2 * m + d, 2 * d);
    assert(2 * d * q == 2 * (q * d)) by (nonlinear_arith);
    if n == 0 {
        assert(q == 0) by {
            vstd::arithmetic::div_mod::lemma_basic_div(d, 2 * d);
        }
    }
}

/// A rectangle of a clip: its id, its place, and its size or that of the
/// canvas where it has none.
pub open spec fn boxed(p: ProjectView, c: ClipView, h: HitView) -> bool {
    &&& h.id == c.id
    &&& h.x == c.transform.x && h.y == c.transform.y
    &&& c.transform.width > 0 ==> h.width == c.transform.width
    &&& c.transform.width <= 0 ==> h.width == p.meta.width * 1_000_000_000
    &&& c.transform.height > 0 ==> h.height == c.transform.height
    &&& c.transform.height <= 0 ==> h.height == p.meta.height * 1_000_000_000
}

/// An overlay clip is on screen: it has begun and not yet ended, and stays for
/// a hundredth of a second at least.
pub open spec fn overlay_on_screen(c: ClipView, time: int) -> bool {
    c.start <= time && (time < c.start + c.duration || time < c.start + 10_000_000)
}

/// A layer of scene `s` is on screen: the scene is, and within it the layer
/// has begun and not yet ended; without a duration it stays as long as the
/// scene.
pub open spec fn layer_on_screen(p: ProjectView, s: int, c: ClipView, time: int) -> bool {
    let from = offset_of(p.scenes, s);
    &&& from <= time < from + p.scenes[s].duration
    &&& from + c.start <= time
    &&& c.duration > 0 ==> time < from + c.start + c.duration
}

proof fn lemma_collected_has<A, B>(s: Seq<A>, f: spec_fn(A) -> Option<B>, i: int)
    requires
        0 <= i < s.len(),
        f(s[i]) is Some,
    ensures
        collected(s, f).contains(f(s[i])->0),
    decreases s.len(),
{
    let rest = s.drop_last();
    let all = collected(s, f);
    if i == s.len() - 1 {
        assert(all[all.len() - 1] == f(s[i])->0);
    } else {
        lemma_collected_has(rest, f, i);
        let before = collected(rest, f);
        let k = choose|k: int| 0 <= k < before.len() && before[k] == f(rest[i])->0;
        assert(all[k] == before[k]);
    }
}

proof fn lemma_tracks_have(p: ProjectView, time: int, n: int, t: int, h: HitView)
    requires
        0 <= t < n,
        collected(p.overlays[t].clips, overlay_hits(p, time)).contains(h),
    ensures
        tracks_active(p, time, n).contains(h),
    decreases n,
{
    let before = tracks_active(p, time, n - 1);
    let own = collected(p.overlays[n - 1].clips, overlay_hits(p, time));
    let all = tracks_active(p, time, n);
    if t == n - 1 {
        let k = choose|k: int| 0 <= k < own.len() && own[k] == h;
        assert(all[before.len() + k] == h);
    } else {
        lemma_tracks_have(p, time, n - 1, t, h);
        let k = choose|k: int| 0 <= k < before.len() && before[k] == h;
        assert(all[k] == h);
    }
}

proof fn lemma_scenes_have(p: ProjectView, time: int, n: int, s: int, h: HitView)
    requires
        0 <= s < n,
        scene_active(p, time, s).contains(h),
    ensures
        scenes_active(p, time, n).contains(h),
    decreases n,
{
    let before = scenes_active(p, time, n - 1);
    let own = scene_active(p, time, n - 1);
    let all = scenes_active(p, time, n);
    if s == n - 1 {
        let k = choose|k: int| 0 <= k < own.len() && own[k] == h;
        assert(all[before.len() + k] == h);
    } else {
        lemma_scenes_have(p, time, n - 1, s, h);
        let k = choose|k: int| 0 <= k < before.len() && before[k] == h;
        assert(all[k] == h);
    }
}

/// Every clip on screen at a time is listed, with the rectangle it fills.
pub proof fn law_on_screen_listed(p: ProjectView, time: int, a: int, i: int)
    ensures
        0 <= a < p.overlays.len() && 0 <= i < p.overlays[a].clips.len() && overlay_on_screen(
            p.overlays[a].clips[i],
            time,
        ) ==> exists|k: int|
            0 <= k < active_at(p, time).len() && boxed(
                p,
                p.overlays[a].clips[i],
                #[trigger] active_at(p, time)[k],
            ),
        0 <= a < p.scenes.len() && 0 <= i < p.scenes[a].layers.len() && layer_on_screen(
            p,
            a,
            p.scenes[a].layers[i],
            time,
        ) ==> exists|k: int|
            0 <= k < active_at(p, time).len() && boxed(
                p,
                p.scenes[a].layers[i],
                #[trigger] active_at(p, time)[k],
            ),
{
    let tracks = tracks_active(p, time, p.overlays.len() as int);
    let scenes = scenes_active(p, time, p.scenes.len() as int);
    let all = active_at(p, time);
    if 0 <= a < p.overlays.len() && 0 <= i < p.overlays[a].clips.len() && overlay_on_screen(
        p.overlays[a].clips[i],
        time,
    ) {
        let c = p.overlays[a].clips[i];
        lemma_collected_has(p.overlays[a].clips, overlay_hits(p, time), i);
        lemma_tracks_have(p, time, p.overlays.len() as int, a, hit_of(p, c));
        let k = choose|k: int| 0 <= k < tracks.len() && tracks[k] == hit_of(p, c);
        assert(all[k] == hit_of(p, c));
    }
    if 0 <= a < p.scenes.len() && 0 <= i < p.scenes[a].layers.len() && layer_on_screen(
        p,
        a,
        p.scenes[a].layers[i],
        time,
    ) {
        let c = p.scenes[a].layers[i];
        let local = time - offset_of(p.scenes, a);
        lemma_collected_has(
            p.scenes[a].layers,
            layer_hits(p, p.scenes[a].duration, local),
            i,
        );
        lemma_scenes_have(p, time, p.scenes.len() as int, a, hit_of(p, c));
        let k = choose|k: int| 0 <= k < scenes.len() && scenes[k] == hit_of(p, c);
        assert(all[tracks.len() + k] == hit_of(p, c));
    }
}

/// Nothing else is listed: each rectangle is that of a clip on screen, and
/// those of overlay clips come first.
pub proof fn law_only_on_screen(p: ProjectView, time: int, k: int)
    requires
        0 <= k < active_at(p, time).len(),
    ensures
        ({
            let h = active_at(p, time)[k];
            let tracks = tracks_active(p, time, p.overlays.len() as int).len();
            &&& k < tracks ==> exists|a: int, i: int|
                0 <= a < p.overlays.len() && 0 <= i < p.overlays[a].clips.len() && boxed(
                    p,
                    #[trigger] p.overlays[a].clips[i],
                    h,
                ) && overlay_on_screen(p.overlays[a].clips[i], time)
            &&& k >= tracks ==> exists|a: int, i: int|
                0 <= a < p.scenes.len() && 0 <= i < p.scenes[a].layers.len() && boxed(
                    p,
                    #[trigger] p.scenes[a].layers[i],
                    h,
                ) && layer_on_screen(p, a, p.scenes[a].layers[i], time)
        }),
{
    let tracks = tracks_active(p, time, p.overlays.len() as int).len();
    if k < tracks {
        lemma_track_shown(p, time, p.overlays.len() as int, k);
    } else {
        lemma_scene_shown(p, time, p.scenes.len() as int, k - tracks);
    }
}

proof fn lemma_track_shown(p: ProjectView, time: int, n: int, k: int)
    requires
        0 <= n <= p.overlays.len(),
        0 <= k < tracks_active(p, time, n).len(),
    ensures
        exists|a: int, i: int|
            0 <= a < n && 0 <= i < p.overlays[a].clips.len() && boxed(
                p,
                #[trigger] p.overlays[a].clips[i],
                tracks_active(p, time, n)[k],
            ) && overlay_on_screen(p.overlays[a].clips[i], time),
    decreases n,
{
    let before = tracks_active(p, time, n - 1);
    let f = overlay_hits(p, time);
    if k < before.len() {
        lemma_track_shown(p, time, n - 1, k);
        let (a, i) = choose|a: int, i: int|
            0 <= a < n - 1 && 0 <= i < p.overlays[a].clips.len() && boxed(
                p,
                #[trigger] p.overlays[a].clips[i],
                before[k],
            ) && overlay_on_screen(p.overlays[a].clips[i], time);
        assert(boxed(p, p.overlays[a].clips[i], tracks_active(p, time, n)[k]));
    } else {
        let clips = p.overlays[n - 1].clips;
        lemma_collected_member(clips, f, k - before.len());
        let i = choose|i: int|
            0 <= i < clips.len() && f(#[trigger] clips[i]) == Some(
                collected(clips, f)[k - before.len()],
            );
        assert(boxed(p, p.overlays[n - 1].clips[i], tracks_active(p, time, n)[k]));
    }
}

proof fn lemma_scene_shown(p: ProjectView, time: int, n: int, k: int)
    requires
        0 <= n <= p.scenes.len(),
        0 <= k < scenes_active(p, time, n).len(),
    ensures
        exists|a: int, i: int|
            0 <= a < n && 0 <= i < p.scenes[a].layers.len() && boxed(
                p,
                #[trigger] p.scenes[a].layers[i],
                scenes_active(p, time, n)[k],
            ) && layer_on_screen(p, a, p.scenes[a].layers[i], time),
    decreases n,
{
    let before = scenes_active(p, time, n - 1);
    if k < before.len() {
        lemma_scene_shown(p, time, n - 1, k);
        let (a, i) = choose|a: int, i: int|
            0 <= a < n - 1 && 0 <= i < p.scenes[a].layers.len() && boxed(
                p,
                #[trigger] p.scenes[a].layers[i],
                before[k],
            ) && layer_on_screen(p, a, p.scenes[a].layers[i], time);
        assert(boxed(p, p.scenes[a].layers[i], scenes_active(p, time, n)[k]));
    } else {
        let clips = p.scenes[n - 1].layers;
        let f = layer_hits(p, p.scenes[n - 1].duration, time - offset_of(p.scenes, n - 1));
        lemma_collected_member(clips, f, k - before.len());
        let i = choose|i: int|
            0 <= i < clips.len() && f(#[trigger] clips[i]) == Some(
                collected(clips, f)[k - before.len()],
            );
        assert(boxed(p, p.scenes[n - 1].layers[i], scenes_active(p, time, n)[k]));
    }
}

/// The canvas is shown as large as the widget allows, in proportion and in
/// the middle: a point of the widget shows the point of the canvas that lies
/// as far from the canvas's middle, at the scale of the tighter extent, as the
/// point lies from the widget's.
pub proof fn law_shown_in_proportion(p: ProjectView, width: int, height: int, x: int, y: int)
    requires
        p.meta.width > 0,
        p.meta.height > 0,
        comp_point(p, width, height, x, y) is Some,
    ensures
        ({
            let (cx, cy, scale) = comp_point(p, width, height, x, y)->0;
            let wide = width * p.meta.height <= height * p.meta.width;
            let shown = if wide {
                width
            } else {
                height
            };
            let whole = if wide {
                p.meta.width
            } else {
                p.meta.height
            };
            &&& (2 * cx - p.meta.width * 1_000_000_000) * shown <= (2 * x - width) * whole
                * 1_000_000_000 < (2 * cx + 2 - p.meta.width * 1_000_000_000) * shown
            &&& (2 * cy - p.meta.height * 1_000_000_000) * shown <= (2 * y - height) * whole
                * 1_000_000_000 < (2 * cy + 2 - p.meta.height * 1_000_000_000) * shown
            &&& scale * whole <= shown < (scale + 1) * whole
        }),
{
    let wide = width * p.meta.height <= height * p.meta.width;
    let shown = if wide {
        width
    } else {
        height
    };
    let whole = if wide {
        p.meta.width as int
    } else {
        p.meta.height as int
    };
    lemma_shown(x, width, p.meta.width as int, shown, whole);
    lemma_shown(y, height, p.meta.height as int, shown, whole);
    let q = shown / whole;
    vstd::arithmetic::div_mod::lemma_fundamental_div_mod(shown, whole);
    vstd::arithmetic::div_mod::lemma_mod_bound(shown, whole);
    assert(whole * q == q * whole && (q + 1) * whole == q * whole + whole) by (nonlinear_arith);
}

proof fn lemma_shown(at: int, extent: int, canvas: int, a: int, c: int)
    requires
        a > 0,
    ensures
        ({
            let q = place(at, extent, canvas, (a, c)) * UNIT / (2 * a);
            (2 * q - canvas * 1_000_000_000) * a <= (2 * at - extent) * c * 1_000_000_000 < (2 * q + 2
                - canvas * 1_000_000_000) * a
        }),
{
    let m = place(at, extent, canvas, (a, c)) * UNIT;
    let q = m / (2 * a);
    vstd::arithmetic::div_mod::lemma_fundamental_div_mod(m, 2 * a);
    vstd::arithmetic::div_mod::lemma_mod_bound(m, 2 * a);
    let u = (2 * at - extent) * c;
    assert(m == u * 1_000_000_000 + canvas * a * 1_000_000_000) by (nonlinear_arith)
        requires
            m == (u + canvas * a) * 1_000_000_000,
    ;
    assert((2 * q - canvas * 1_000_000_000) * a == 2 * a * q - canvas * a * 1_000_000_000)
        by (nonlinear_arith);
    assert((2 * q + 2 - canvas * 1_000_000_000) * a == 2 * a * q + 2 * a - canvas * a
        * 1_000_000_000) by (nonlinear_arith);
}

/// Of several clips of the same size under a point, the topmost is picked.
pub proof fn law_picked_topmost(hits: Seq<HitView>, x: int, y: int, n: int)
    requires
        0 <= n <= hits.len(),
    ensures
        ({
            let i = smallest_at(hits, x, y, n);
            forall|j: int|
                0 <= j < i && contains_point(#[trigger] hits[j], x, y) ==> hits[j].width
                    * hits[j].height > hits[i].width * hits[i].height
        }),
    decreases n,
{
    if n > 0 {
        law_picked_topmost(hits, x, y, n - 1);
        lemma_picked(hits, x, y, n - 1);
    }
}

/// A point is in a rectangle that begins no further right and no lower, and
/// ends no further left and no higher.
pub proof fn law_contains_point(h: HitView, x: int, y: int)
    ensures
        contains_point(h, x, y) <==> !(x < h.x) && !(x > h.x + h.width) && !(y < h.y) && !(y > h.y
            + h.height),
{
}

} // verus!
