//! Snapping of times, and moving clips by hand.

use vstd::prelude::*;
use crate::coords::{round_div, rounded};
use crate::document::{ClipView, Project, ProjectView, Transform};
use crate::effects::{is_uri, is_uri_text};
use crate::fixed::{larger, max, within, HORIZON, LIMIT, UNIT};
use crate::text::joined;
use crate::timeline::{find_clip_mut, found, offset_of, spot_of, total_duration, with_clip};
use crate::views::views;

verus! {

broadcast use crate::views::group_views;

/// How far a time snaps.
pub const WINDOW: i128 = 150_000_000;

/// The nearest half second.
pub open spec fn half_second(raw: int) -> int {
    rounded(2 * raw, UNIT as int) * 500_000_000
}

/// Time number `i` that `raw` may snap to: the starts of the scenes, the end,
/// the nearest half second.
pub open spec fn candidate(p: ProjectView, raw: int, i: int) -> int {
    if i < p.scenes.len() {
        offset_of(p.scenes, i)
    } else if i == p.scenes.len() {
        total_duration(p.scenes)
    } else {
        half_second(raw)
    }
}

pub open spec fn distance(a: int, b: int) -> int {
    if a >= b {
        a - b
    } else {
        b - a
    }
}

/// The nearest of the first `n` times to snap to, if one is near enough; of
/// equally near ones the first.
pub open spec fn nearest(p: ProjectView, raw: int, n: int) -> Option<int>
    decreases n,
{
    if n <= 0 {
        None
    } else {
        let best = nearest(p, raw, n - 1);
        let c = candidate(p, raw, n - 1);
        if distance(c, raw) > WINDOW {
            best
        } else {
            match best {
                Some(b) => if distance(c, raw) < distance(b, raw) {
                    Some(c)
                } else {
                    best
                },
                None => Some(c),
            }
        }
    }
}

/// A time after snapping; never negative.
pub open spec fn snapped(p: ProjectView, raw: int) -> int {
    max(
        match nearest(p, raw, p.scenes.len() as int + 2) {
            Some(t) => t,
            None => raw,
        },
        0,
    )
}

fn gap(a: i128, b: i128) -> (r: i128)
    requires
        -HORIZON <= a <= HORIZON + 100 * LIMIT,
        -HORIZON <= b <= HORIZON + 100 * LIMIT,
    ensures
        r == distance(a as int, b as int),
{
    if a >= b {
        a - b
    } else {
        b - a
    }
}

fn nearer(best: Option<i128>, c: i128, raw: i128) -> (r: Option<i128>)
    requires
        -HORIZON <= c <= HORIZON + 100 * LIMIT,
        -HORIZON / 2 <= raw <= HORIZON / 2,
        best is Some ==> -HORIZON <= best->0 <= HORIZON + 100 * LIMIT,
    ensures
        r is Some ==> -HORIZON <= r->0 <= HORIZON + 100 * LIMIT,
        r == (if distance(c as int, raw as int) > WINDOW {
            best
        } else {
            match best {
                Some(b) => if distance(c as int, raw as int) < distance(b as int, raw as int) {
                    Some(c)
                } else {
                    best
                },
                None => Some(c),
            }
        }),
{
    if gap(c, raw) > WINDOW {
        best
    } else {
        match best {
            Some(b) => if gap(c, raw) < gap(b, raw) {
                Some(c)
            } else {
                best
            },
            None => Some(c),
        }
    }
}

proof fn lemma_half_second(raw: int)
    requires
        -HORIZON / 2 <= raw <= HORIZON / 2,
    ensures
        -HORIZON <= half_second(raw) <= HORIZON + 100 * LIMIT,
        -HORIZON <= rounded(2 * raw, UNIT as int) <= HORIZON,
        distance(half_second(raw), raw) <= 250_000_000,
{
    let m = if raw >= 0 {
        raw
    } else {
        -raw
    };
    let q = (4 * m + 1_000_000_000) / 2_000_000_000;
    assert(2_000_000_000 * q <= 4 * m + 1_000_000_000 < 2_000_000_000 * q + 2_000_000_000);
    assert(rounded(2 * raw, UNIT as int) == if raw >= 0 {
        q
    } else {
        -q
    });
}

pub open spec fn as_int(t: Option<i128>) -> Option<int> {
    match t {
        Some(t) => Some(t as int),
        None => None,
    }
}

/// Snap a time to a scene boundary or the half-second grid, if one is within
/// 0.15 seconds.
pub fn snap_time(project: &Project, raw: i128) -> (r: i128)
    requires
        project@.fits(16),
        -HORIZON / 2 <= raw <= HORIZON / 2,
    ensures
        r == snapped(project@, raw as int),
        0 <= r <= HORIZON + 100 * LIMIT,
{
    let n: usize = project.scenes.len();
    let mut best: Option<i128> = None;
    let mut i: usize = 0;
    while i < n
        invariant
            i <= n,
            n == project.scenes.len(),
            project@.fits(16),
            -HORIZON / 2 <= raw <= HORIZON / 2,
            as_int(best) == nearest(project@, raw as int, i as int),
            best is Some ==> -HORIZON <= best->0 <= HORIZON + 100 * LIMIT,
        decreases n - i,
    {
        let c: i128 = project.scene_offset(i);
        best = nearer(best, c, raw);
        i += 1;
    }
    let end: i128 = project.duration();
    best = nearer(best, end, raw);
    assert(as_int(best) == nearest(project@, raw as int, n + 1));
    proof {
        lemma_half_second(raw as int);
    }
    let grid: i128 = round_div(2 * raw, UNIT) * 500_000_000;
    best = nearer(best, grid, raw);
    assert(as_int(best) == nearest(project@, raw as int, n + 2));
    match best {
        Some(t) => larger(t, 0),
        None => larger(raw, 0),
    }
}

proof fn lemma_nearest(p: ProjectView, raw: int, n: int)
    ensures
        match nearest(p, raw, n) {
            Some(t) => {
                &&& distance(t, raw) <= WINDOW
                &&& exists|i: int| 0 <= i < n && #[trigger] candidate(p, raw, i) == t
                &&& forall|i: int|
                    0 <= i < n ==> distance(t, raw) <= distance(
                        #[trigger] candidate(p, raw, i),
                        raw,
                    )
            },
            None => forall|i: int|
                0 <= i < n ==> distance(#[trigger] candidate(p, raw, i), raw) > WINDOW,
        },
    decreases n,
{
    if n > 0 {
        lemma_nearest(p, raw, n - 1);
    }
}

/// Snapping never moves a time that is not negative by more than 0.15
/// seconds, and no scene boundary, end or half second is nearer than the time
/// it snaps to; a time far from all of them stays.
pub proof fn law_snapped(p: ProjectView, raw: int)
    requires
        raw >= 0,
    ensures
        snapped(p, raw) >= 0,
        distance(snapped(p, raw), raw) <= WINDOW,
        forall|i: int|
            0 <= i < p.scenes.len() + 2 && candidate(p, raw, i) >= 0 && distance(
                #[trigger] candidate(p, raw, i),
                raw,
            ) <= WINDOW ==> distance(snapped(p, raw), raw) <= distance(candidate(p, raw, i), raw),
        (forall|i: int|
            0 <= i < p.scenes.len() + 2 ==> distance(#[trigger] candidate(p, raw, i), raw)
                > WINDOW) ==> snapped(p, raw) == raw,
{
    lemma_nearest(p, raw, p.scenes.len() as int + 2);
}

/// A time snaps upward by at most 0.15 seconds, or to zero.
pub proof fn lemma_snapped_above(p: ProjectView, raw: int)
    ensures
        0 <= snapped(p, raw) <= max(raw + WINDOW, 0),
{
    lemma_nearest(p, raw, p.scenes.len() as int + 2);
}

/// The URI of a media source: itself if it is one, else that of the file it
/// resolves to. `resolved` is the absolute path of that file, if it exists.
pub fn media_uri(src: &str, resolved: Option<&str>) -> (r: Option<String>)
    ensures
        match r {
            Some(uri) => if is_uri_text(src@) {
                uri@ == src@
            } else {
                resolved is Some && uri@ == "file://"@ + resolved->0@
            },
            None => !is_uri_text(src@) && resolved is None,
        },
{
    if is_uri(src) {
        return Some(src.to_owned());
    }
    match resolved {
        Some(path) => Some(joined("file://", path)),
        None => None,
    }
}

/// A drag of fewer than six pixels moves nothing.
pub open spec fn drags(dx: int, dy: int) -> bool {
    !(-6 * UNIT < dx < 6 * UNIT && -6 * UNIT < dy < 6 * UNIT)
}

/// A coordinate after a drag of `d` widget pixels at the given scale, on
/// whole pixels of the canvas.
pub open spec fn dragged(x: int, d: int, scale: int) -> int {
    rounded(x * scale + d * UNIT, scale * UNIT) * UNIT
}

/// The document after the clip has been dragged in the preview from where it
/// stood, at `x` and `y`.
pub open spec fn dragged_project(
    p: ProjectView,
    id: Seq<char>,
    at: (int, int),
    d: (int, int),
    scale: int,
) -> ProjectView {
    match found(p, id) {
        Some(c) => with_clip(
            p,
            spot_of(p, id),
            ClipView {
                transform: Transform {
                    x: dragged(at.0, d.0, scale) as i128,
                    y: dragged(at.1, d.1, scale) as i128,
                    ..c.transform
                },
                ..c
            },
        ),
        None => p,
    }
}

proof fn lemma_dragged(x: int, d: int, scale: int)
    requires
        within(x, 16),
        within(d, 1),
        0 < scale <= LIMIT,
    ensures
        -200_000_000_000_000_000_000_000_000_000_000_000 <= x * scale
            <= 200_000_000_000_000_000_000_000_000_000_000_000,
        -300_000_000_000_000_000_000_000_000 <= rounded(x * scale + d * UNIT, scale * UNIT)
            <= 300_000_000_000_000_000_000_000_000,
        0 < scale * UNIT <= LIMIT * UNIT,
{
    assert(-200_000_000_000_000_000_000_000_000_000_000_000 <= x * scale && x * scale
        <= 200_000_000_000_000_000_000_000_000_000_000_000) by (nonlinear_arith)
        requires
            -1_600_000_000_000_000_000 <= x <= 1_600_000_000_000_000_000,
            0 < scale <= 100_000_000_000_000_000,
    ;
    let n = x * scale + d * UNIT;
    let m = if n >= 0 {
        n
    } else {
        -n
    };
    let e = scale * UNIT;
    assert(0 <= m <= 200_000_000_100_000_000_000_000_000_000_000_000);
    assert(UNIT <= e);
    vstd::arithmetic::div_mod::lemma_div_is_ordered_by_denominator(2 * m + e, 2 * UNIT, 2 * e);
    assert((2 * m + e) / (2 * UNIT as int) <= 300_000_000_000_000_000_000_000_000);
    vstd::arithmetic::div_mod::lemma_div_pos_is_pos(2 * m + e, 2 * e);
}

/// Drag a clip in the preview from where it stood to whole pixels of the
/// canvas; a drag of fewer than six pixels, or without a scale, moves nothing.
pub fn drag_clip(
    project: &mut Project,
    id: &str,
    at: (i128, i128),
    d: (i128, i128),
    scale: i128,
) -> (r: bool)
    requires
        within(at.0 as int, 16),
        within(at.1 as int, 16),
        within(d.0 as int, 1),
        within(d.1 as int, 1),
        scale <= LIMIT,
    ensures
        r == (drags(d.0 as int, d.1 as int) && scale > 0),
        final(project)@ == (if r {
            dragged_project(
                old(project)@,
                id@,
                (at.0 as int, at.1 as int),
                (d.0 as int, d.1 as int),
                scale as int,
            )
        } else {
            old(project)@
        }),
{
    if (-6 * UNIT < d.0 && d.0 < 6 * UNIT && -6 * UNIT < d.1 && d.1 < 6 * UNIT) || scale <= 0 {
        return false;
    }
    proof {
        lemma_dragged(at.0 as int, d.0 as int, scale as int);
        lemma_dragged(at.1 as int, d.1 as int, scale as int);
    }
    let x: i128 = round_div(at.0 * scale + d.0 * UNIT, scale * UNIT) * UNIT;
    let y: i128 = round_div(at.1 * scale + d.1 * UNIT, scale * UNIT) * UNIT;
    if let Some(clip) = find_clip_mut(project, id) {
        clip.transform.x = x;
        clip.transform.y = y;
    }
    true
}

/// A time that a drag may snap to: where a scene begins, where the document
/// ends, or a multiple of half a second.
pub open spec fn snaps_to(p: ProjectView, t: int) -> bool {
    ||| exists|i: int| 0 <= i < p.scenes.len() && t == #[trigger] offset_of(p.scenes, i)
    ||| t == total_duration(p.scenes)
    ||| t % 500_000_000 == 0
}

/// A time is moved only to one of the times it may snap to, by at most 0.15
/// seconds, and to none that is further off than another; where none is that
/// near, it is not moved.
pub proof fn law_snaps(p: ProjectView, raw: int, t: int)
    requires
        raw >= 0,
        total_duration(p.scenes) >= 0,
    ensures
        snapped(p, raw) == raw || snaps_to(p, snapped(p, raw)),
        -150_000_000 <= snapped(p, raw) - raw <= 150_000_000,
        snaps_to(p, t) && -150_000_000 <= t - raw <= 150_000_000 ==> snaps_to(p, snapped(p, raw))
            && distance(snapped(p, raw), raw) <= distance(t, raw),
{
    let n = p.scenes.len() as int;
    lemma_nearest(p, raw, n + 2);
    crate::coords::law_rounded(2 * raw, 1_000_000_000);
    let h = rounded(2 * raw, 1_000_000_000);
    assert(half_second(raw) == h * 500_000_000);
    assert(half_second(raw) % 500_000_000 == 0);
    assert(half_second(raw) >= 0);
    match nearest(p, raw, n + 2) {
        Some(b) => {
            let i = choose|i: int| 0 <= i < n + 2 && #[trigger] candidate(p, raw, i) == b;
            if i < n {
                assert(b == offset_of(p.scenes, i));
            }
            assert(b >= 0);
        },
        None => {},
    }
    if snaps_to(p, t) && -150_000_000 <= t - raw <= 150_000_000 {
        assert(exists|i: int|
            0 <= i < n + 2 && distance(#[trigger] candidate(p, raw, i), raw) <= distance(t, raw))
            by {
            if t == total_duration(p.scenes) {
                assert(distance(candidate(p, raw, n), raw) <= distance(t, raw));
            } else if t % 500_000_000 == 0 {
                let k = t / 500_000_000;
                assert(t == 500_000_000 * k);
                assert(distance(h * 500_000_000, raw) <= distance(500_000_000 * k, raw));
                assert(distance(candidate(p, raw, n + 1), raw) <= distance(t, raw));
            } else {
                let i = choose|i: int|
                    0 <= i < p.scenes.len() && t == #[trigger] offset_of(p.scenes, i);
                assert(distance(candidate(p, raw, i), raw) <= distance(t, raw));
            }
        }
    }
}

/// A clip dragged in the preview lands on the whole pixel of the canvas
/// nearest to where the drag leads, the widget's pixels being `scale` times
/// the canvas's.
pub proof fn law_dragged_to(x: int, d: int, scale: int)
    requires
        scale > 0,
    ensures
        dragged(x, d, scale) % 1_000_000_000 == 0,
        -scale * 1_000_000_000 <= 2 * ((dragged(x, d, scale) - x) * scale - d * 1_000_000_000)
            <= scale * 1_000_000_000,
{
    let n = x * scale + d * UNIT;
    let e = scale * UNIT;
    crate::coords::law_rounded(n, e);
    crate::coords::law_rounded(-n, e);
    let r = rounded(n, e);
    assert(r * e == (r * 1_000_000_000) * scale) by (nonlinear_arith)
        requires
            e == scale * 1_000_000_000,
    ;
    assert((r * 1_000_000_000 - x) * scale == (r * 1_000_000_000) * scale - x * scale)
        by (nonlinear_arith);
    assert(-scale * 1_000_000_000 == -e);
    assert(-e <= 2 * (r * e - n) <= e) by {
        if n < 0 {
            assert(rounded(-n, e) * e == -(r * e)) by (nonlinear_arith)
                requires
                    rounded(-n, e) == -r,
            ;
        }
    }
}

/// A drag counts once it has gone six pixels to any side.
pub proof fn law_drags(dx: int, dy: int)
    ensures
        drags(dx, dy) <==> dx >= 6_000_000_000 || dx <= -6_000_000_000 || dy >= 6_000_000_000 || dy
            <= -6_000_000_000,
{
}

/// Of several times that are equally near, the first wins: an earlier scene
/// before a later one, scenes before the end, and the end before the half
/// second.
pub proof fn law_snap_first(p: ProjectView, raw: int, n: int)
    ensures
        nearest(p, raw, n) is Some ==> exists|i: int|
            0 <= i < n && nearest(p, raw, n) == Some(#[trigger] candidate(p, raw, i)) && forall|j: int|
                0 <= j < i ==> distance(#[trigger] candidate(p, raw, j), raw) > distance(
                    candidate(p, raw, i),
                    raw,
                ),
    decreases n,
{
    if n > 0 {
        law_snap_first(p, raw, n - 1);
        lemma_nearest(p, raw, n - 1);
        let c = candidate(p, raw, n - 1);
        if nearest(p, raw, n) is Some && nearest(p, raw, n) != nearest(p, raw, n - 1) {
            assert(nearest(p, raw, n) == Some(candidate(p, raw, n - 1)));
            assert forall|j: int| 0 <= j < n - 1 implies distance(
                #[trigger] candidate(p, raw, j),
                raw,
            ) > distance(c, raw) by {}
        }
    }
}

} // verus!
