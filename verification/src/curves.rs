//! Sampling a clip's animations for a linear control source.
//!
//! A control source takes one list of points per property, so all animation
//! windows of a property merge into one sampled curve, with hold points
//! before the first and after the last.

use vstd::prelude::*;
use crate::compile::clock;
use crate::document::{Anim, AnimProperty, AnimView, Clip, ClipView, Keyframe, KeyframeView};
use crate::faults::{in_order, window_fault};
use crate::fixed::{clamped, ease, eased, floor_div, larger, max, mix, mixed, progress, within};
use crate::fixed::{law_ease_endpoints, law_ease_monotone, law_mix_endpoints, law_mix_monotone};
use crate::fixed::{law_progress_monotone, HORIZON, UNIT};
use crate::split::tween_at;
use crate::views::{collected, lemma_collected_filter, lemma_collected_member};
use crate::views::{lemma_collected_step, views};

verus! {

broadcast use crate::views::group_views;

pub open spec fn of_property(property: AnimProperty) -> spec_fn(AnimView) -> Option<AnimView> {
    |a: AnimView|
        if a.property == property {
            Some(a)
        } else {
            None
        }
}

/// When an animation begins: its first keyframe, or the start of its window.
pub open spec fn begins(a: AnimView) -> int {
    if a.keyframes.len() > 0 {
        a.keyframes[0].t
    } else {
        a.start
    }
}

/// An animation put behind every one that begins no later.
pub open spec fn queued(s: Seq<AnimView>, a: AnimView) -> Seq<AnimView>
    decreases s.len(),
{
    if s.len() == 0 || begins(s.last()) <= begins(a) {
        s.push(a)
    } else {
        queued(s.drop_last(), a).push(s.last())
    }
}

/// The animations in the order in which they begin.
pub open spec fn in_time(s: Seq<AnimView>) -> Seq<AnimView>
    decreases s.len(),
{
    if s.len() == 0 {
        s
    } else {
        queued(in_time(s.drop_last()), s.last())
    }
}

/// The animations of one property, in the order in which they begin.
pub open spec fn property_anims(c: ClipView, property: AnimProperty) -> Seq<AnimView> {
    in_time(collected(c.animations, of_property(property)))
}

/// A value as the property takes it: opacity between 0 and 1, volume not
/// negative.
pub open spec fn normalized(property: AnimProperty, value: int) -> int {
    match property {
        AnimProperty::Opacity => clamped(value, 0, UNIT as int),
        AnimProperty::Volume => max(value, 0),
        _ => value,
    }
}

/// The number of samples over a stretch of length `d`: thirty per second, and
/// `least` at least.
pub open spec fn steps(d: int, least: int) -> int {
    max(least, (d * 30) / (UNIT as int))
}

/// Sample `i` of `n` over the stretch from `start` to `end`.
pub open spec fn sample(
    property: AnimProperty,
    easing: crate::document::Easing,
    from: (int, int),
    to: (int, int),
    inpoint: int,
    i: int,
    n: int,
) -> (int, int) {
    (
        clock(inpoint + from.0 + ((to.0 - from.0) * i) / n),
        normalized(property, mixed(from.1, to.1, eased(easing, (i * UNIT) / n))),
    )
}

/// The samples of a tween window, both ends included.
pub open spec fn tween_points(a: AnimView, inpoint: int) -> Seq<(int, int)> {
    let n = steps(a.end - a.start, 24);
    Seq::new(
        (n + 1) as nat,
        |i: int|
            sample(a.property, a.easing, (a.start, a.from), (a.end, a.to), inpoint, i, n),
    )
}

/// The samples between two keyframes, without the first.
pub open spec fn between_points(
    property: AnimProperty,
    k0: KeyframeView,
    k1: KeyframeView,
    inpoint: int,
) -> Seq<(int, int)> {
    let n = steps(k1.t - k0.t, 12);
    Seq::new(
        n as nat,
        |i: int|
            sample(property, k1.easing, (k0.t, k0.value), (k1.t, k1.value), inpoint, i + 1, n),
    )
}

/// The samples up to keyframe number `n`.
pub open spec fn keyframe_points(a: AnimView, inpoint: int, n: int) -> Seq<(int, int)>
    decreases n,
{
    if n <= 0 {
        seq![(clock(inpoint + a.keyframes[0].t), normalized(a.property, a.keyframes[0].value))]
    } else {
        keyframe_points(a, inpoint, n - 1) + between_points(
            a.property,
            a.keyframes[n - 1],
            a.keyframes[n],
            inpoint,
        )
    }
}

/// The samples of one animation.
pub open spec fn anim_points(a: AnimView, inpoint: int) -> Seq<(int, int)> {
    if a.keyframes.len() == 0 {
        tween_points(a, inpoint)
    } else {
        keyframe_points(a, inpoint, a.keyframes.len() - 1)
    }
}

/// The value that an animation begins with.
pub open spec fn first_value(a: AnimView) -> int {
    if a.keyframes.len() > 0 {
        a.keyframes[0].value
    } else {
        a.from
    }
}

/// When an animation ends, and with which value.
pub open spec fn last_value(a: AnimView) -> (int, int) {
    if a.keyframes.len() > 0 {
        (a.keyframes.last().t, a.keyframes.last().value)
    } else {
        (a.end, a.to)
    }
}

/// The first hold point and the samples of the first `n` animations.
pub open spec fn points_upto(
    anims: Seq<AnimView>,
    property: AnimProperty,
    inpoint: int,
    n: int,
) -> Seq<(int, int)>
    decreases n,
{
    if n <= 0 {
        seq![(clock(inpoint), normalized(property, first_value(anims[0])))]
    } else {
        points_upto(anims, property, inpoint, n - 1) + anim_points(anims[n - 1], inpoint)
    }
}

/// The whole curve of a property: the first value is held from the clip's
/// beginning and the last one past its end, so that nothing is extrapolated.
pub open spec fn curve(c: ClipView, property: AnimProperty, inpoint: int) -> Seq<(int, int)> {
    let anims = property_anims(c, property);
    if anims.len() == 0 {
        Seq::empty()
    } else {
        let last = last_value(anims.last());
        points_upto(anims, property, inpoint, anims.len() as int).push(
            (
                clock(inpoint + max(c.duration, last.0) + UNIT),
                normalized(property, last.1),
            ),
        )
    }
}

pub open spec fn point_views(v: Seq<(u64, i128)>) -> Seq<(int, int)> {
    Seq::new(v.len(), |i: int| (v[i].0 as int, v[i].1 as int))
}

fn micros(t: i128) -> (r: u64)
    ensures
        r == clock(t as int),
{
    if t <= 0 {
        return 0;
    }
    let us: i128 = t / 1000;
    if us > 18_446_744_073_709_551_615 {
        u64::MAX
    } else {
        us as u64
    }
}

/// Control sources take raw values; opacity and volume are held to their
/// ranges.
pub fn normalize(property: AnimProperty, value: i128) -> (r: i128)
    ensures
        r == normalized(property, value as int),
{
    match property {
        AnimProperty::Opacity => if value < 0 {
            0
        } else if value > UNIT {
            UNIT
        } else {
            value
        },
        AnimProperty::Volume => larger(value, 0),
        _ => value,
    }
}

fn push_point(out: &mut Vec<(u64, i128)>, property: AnimProperty, t: i128, value: i128)
    ensures
        point_views(final(out)@) == point_views(old(out)@).push(
            (clock(t as int), normalized(property, value as int)),
        ),
{
    let ghost before = point_views(out@);
    let point: (u64, i128) = (micros(t), normalize(property, value));
    out.push(point);
    assert(point_views(out@) =~= before.push((point.0 as int, point.1 as int)));
}

fn step_count(d: i128, least: i128) -> (r: i128)
    requires
        within(d as int, 8),
        1 <= least <= 24,
    ensures
        r == steps(d as int, least as int),
        1 <= r <= 24_000_000_024,
{
    larger(least, floor_div(d * 30, UNIT))
}

proof fn lemma_sample_bounds(d: int, i: int, n: int)
    requires
        within(d, 8),
        0 <= i <= n,
        1 <= n <= 24_000_000_024,
    ensures
        -20_000_000_000_000_000_000_000_000_000 <= d * i <= 20_000_000_000_000_000_000_000_000_000,
        0 <= (i * UNIT) / n <= UNIT,
        -20_000_000_000_000_000_000_000_000_000 <= (d * i) / n
            <= 20_000_000_000_000_000_000_000_000_000,
{
    assert(-20_000_000_000_000_000_000_000_000_000 <= d * i
        <= 20_000_000_000_000_000_000_000_000_000) by (nonlinear_arith)
        requires
            -800_000_000_000_000_000 <= d <= 800_000_000_000_000_000,
            0 <= i <= 24_000_000_024,
    ;
    assert(0 <= (i * UNIT) / n <= UNIT) by (nonlinear_arith)
        requires
            0 <= i <= n,
            n >= 1,
            UNIT == 1_000_000_000,
    ;
    let x = d * i;
    assert(-20_000_000_000_000_000_000_000_000_000 <= x / n
        <= 20_000_000_000_000_000_000_000_000_000) by (nonlinear_arith)
        requires
            -20_000_000_000_000_000_000_000_000_000 <= x
                <= 20_000_000_000_000_000_000_000_000_000,
            n >= 1,
    ;
}

/// Samples `from`..=`n` of a stretch between two values.
fn push_samples(
    out: &mut Vec<(u64, i128)>,
    property: AnimProperty,
    easing: crate::document::Easing,
    start: (i128, i128),
    end: (i128, i128),
    inpoint: i128,
    first: i128,
    n: i128,
)
    requires
        within(start.0 as int, 4),
        within(start.1 as int, 4),
        within(end.0 as int, 4),
        within(end.1 as int, 4),
        -HORIZON <= inpoint <= HORIZON,
        0 <= first <= 1,
        1 <= n <= 24_000_000_024,
    ensures
        point_views(final(out)@) == point_views(old(out)@) + Seq::new(
            (n + 1 - first) as nat,
            |i: int|
                sample(
                    property,
                    easing,
                    (start.0 as int, start.1 as int),
                    (end.0 as int, end.1 as int),
                    inpoint as int,
                    i + first,
                    n as int,
                ),
        ),
{
    let ghost before = point_views(out@);
    let ghost all = Seq::new(
        (n + 1 - first) as nat,
        |i: int|
            sample(
                property,
                easing,
                (start.0 as int, start.1 as int),
                (end.0 as int, end.1 as int),
                inpoint as int,
                i + first,
                n as int,
            ),
    );
    let d: i128 = end.0 - start.0;
    let mut i: i128 = first;
    assert(before + all.take(0) =~= before);
    while i <= n
        invariant
            within(start.0 as int, 4),
            within(start.1 as int, 4),
            within(end.0 as int, 4),
            within(end.1 as int, 4),
            -HORIZON <= inpoint <= HORIZON,
            0 <= first <= 1,
            1 <= n <= 24_000_000_024,
            first <= i <= n + 1,
            d == end.0 - start.0,
            all.len() == n + 1 - first,
            all == Seq::new(
                (n + 1 - first) as nat,
                |i: int|
                    sample(
                        property,
                        easing,
                        (start.0 as int, start.1 as int),
                        (end.0 as int, end.1 as int),
                        inpoint as int,
                        i + first,
                        n as int,
                    ),
            ),
            point_views(out@) == before + all.take(i - first),
        decreases n + 1 - i,
    {
        proof {
            lemma_sample_bounds(d as int, i as int, n as int);
        }
        let p: i128 = i * UNIT / n;
        let value: i128 = mix(start.1, end.1, ease(easing, p));
        let t: i128 = inpoint + start.0 + floor_div(d * i, n);
        push_point(out, property, t, value);
        proof {
            let k = i - first;
            assert(all[k] == (clock(t as int), normalized(property, value as int)));
            assert(before + all.take(k + 1) =~= (before + all.take(k)).push(all[k]));
        }
        i += 1;
    }
    assert(all.take(i - first) =~= all);
}

fn push_anim(out: &mut Vec<(u64, i128)>, anim: &Anim, inpoint: i128)
    requires
        anim@.fits(4),
        -HORIZON <= inpoint <= HORIZON,
    ensures
        point_views(final(out)@) == point_views(old(out)@) + anim_points(anim@, inpoint as int),
{
    let ghost before = point_views(out@);
    let ghost a = anim@;
    if anim.keyframes.len() == 0 {
        let n: i128 = step_count(anim.end - anim.start, 24);
        push_samples(
            out,
            anim.property,
            anim.easing,
            (anim.start, anim.from),
            (anim.end, anim.to),
            inpoint,
            0,
            n,
        );
        assert(point_views(out@) =~= before + tween_points(a, inpoint as int));
        return ;
    }
    proof {
        assert(a.keyframes[0] == anim.keyframes@[0]@);
        assert(within(a.keyframes[0].t, 4));
    }
    push_point(out, anim.property, inpoint + anim.keyframes[0].t, anim.keyframes[0].value);
    assert(point_views(out@) =~= before + keyframe_points(a, inpoint as int, 0));
    let mut n: usize = 1;
    while n < anim.keyframes.len()
        invariant
            a == anim@,
            a.fits(4),
            -HORIZON <= inpoint <= HORIZON,
            1 <= n <= anim.keyframes.len(),
            point_views(out@) == before + keyframe_points(a, inpoint as int, n - 1),
        decreases anim.keyframes.len() - n,
    {
        let k0: Keyframe = anim.keyframes[n - 1];
        let k1: Keyframe = anim.keyframes[n];
        proof {
            assert(a.keyframes[n - 1] == k0@);
            assert(a.keyframes[n as int] == k1@);
            assert(within(a.keyframes[n - 1].t, 4));
            assert(within(a.keyframes[n as int].t, 4));
        }
        let ghost so_far = point_views(out@);
        let m: i128 = step_count(k1.t - k0.t, 12);
        push_samples(
            out,
            anim.property,
            k1.easing,
            (k0.t, k0.value),
            (k1.t, k1.value),
            inpoint,
            1,
            m,
        );
        proof {
            let one = between_points(a.property, k0@, k1@, inpoint as int);
            assert(point_views(out@) =~= so_far + one);
            assert((before + keyframe_points(a, inpoint as int, n - 1)) + one =~= before + (
            keyframe_points(a, inpoint as int, n - 1) + one));
        }
        n += 1;
    }
}

fn anim_begins(a: &Anim) -> (r: i128)
    ensures
        r == begins(a@),
{
    if a.keyframes.len() > 0 {
        a.keyframes[0].t
    } else {
        a.start
    }
}

fn queue(v: &mut Vec<Anim>, a: Anim)
    ensures
        views(final(v)@) == queued(views(old(v)@), a@),
{
    let ghost before = views(v@);
    let mut i: usize = v.len();
    let key: i128 = anim_begins(&a);
    proof {
        assert(before.take(i as int) =~= before);
        assert(queued(before, a@) + before.skip(i as int) =~= queued(before, a@));
    }
    while i > 0 && anim_begins(&v[i - 1]) > key
        invariant
            i <= v.len(),
            before == views(v@),
            key == begins(a@),
            queued(before, a@) == queued(before.take(i as int), a@) + before.skip(i as int),
        decreases i,
    {
        proof {
            let upto = before.take(i as int);
            assert(upto.last() == before[i - 1]);
            assert(upto.drop_last() =~= before.take(i - 1));
            assert(queued(before.take(i - 1), a@).push(before[i - 1]) + before.skip(i as int)
                =~= queued(before.take(i - 1), a@) + before.skip(i - 1));
        }
        i -= 1;
    }
    proof {
        let upto = before.take(i as int);
        if i > 0 {
            assert(upto.last() == before[i - 1]);
        }
        assert(upto.push(a@) + before.skip(i as int) =~= before.insert(i as int, a@));
    }
    v.insert(i, a);
}

proof fn lemma_queued_members(s: Seq<AnimView>, a: AnimView)
    requires
        a.fits(4),
        forall|i: int| 0 <= i < s.len() ==> (#[trigger] s[i]).fits(4),
    ensures
        forall|i: int| 0 <= i < queued(s, a).len() ==> (#[trigger] queued(s, a)[i]).fits(4),
        queued(s, a).len() == s.len() + 1,
    decreases s.len(),
{
    if s.len() > 0 && begins(s.last()) > begins(a) {
        let rest = s.drop_last();
        assert forall|i: int| 0 <= i < rest.len() implies (#[trigger] rest[i]).fits(4) by {
            assert(rest[i] == s[i]);
        }
        lemma_queued_members(rest, a);
        assert forall|i: int| 0 <= i < queued(s, a).len() implies (#[trigger] queued(
            s,
            a,
        )[i]).fits(4) by {
            if i < queued(rest, a).len() {
                assert(queued(s, a)[i] == queued(rest, a)[i]);
            } else {
                assert(s[s.len() - 1].fits(4));
            }
        }
    }
}

/// The sampled curve of one property of a clip, as times in microseconds and
/// values; empty where nothing animates the property. `inpoint` is where the
/// clip's media starts.
pub fn property_curve(clip: &Clip, property: AnimProperty, inpoint: i128) -> (r: Vec<(u64, i128)>)
    requires
        clip@.fits(4),
        -HORIZON <= inpoint <= HORIZON,
    ensures
        point_views(r@) == curve(clip@, property, inpoint as int),
{
    let ghost all = clip@.animations;
    let ghost f = of_property(property);
    let mut anims: Vec<Anim> = Vec::new();
    let mut i: usize = 0;
    while i < clip.animations.len()
        invariant
            i <= clip.animations.len(),
            all == views(clip.animations@),
            clip@.fits(4),
            clip@.animations == all,
            f == of_property(property),
            views(anims@) == in_time(collected(all.take(i as int), f)),
            forall|j: int| 0 <= j < anims@.len() ==> (#[trigger] views(anims@)[j]).fits(4),
        decreases clip.animations.len() - i,
    {
        proof {
            lemma_collected_step(all, f, i as int);
            assert(all[i as int] == clip.animations@[i as int]@);
            assert(all[i as int].fits(4));
        }
        if clip.animations[i].property == property {
            let a: Anim = clip.animations[i].clone();
            proof {
                let so_far = collected(all.take(i as int), f);
                assert(so_far.push(a@).drop_last() =~= so_far);
                lemma_queued_members(views(anims@), a@);
            }
            queue(&mut anims, a);
        }
        i += 1;
    }
    assert(all.take(i as int) =~= all);
    let mut out: Vec<(u64, i128)> = Vec::new();
    assert(point_views(out@) =~= Seq::<(int, int)>::empty());
    if anims.len() == 0 {
        return out;
    }
    let ghost queue_view = property_anims(clip@, property);
    proof {
        assert(queue_view == views(anims@));
        assert(queue_view[0] == anims@[0]@);
        assert(queue_view[0].fits(4));
    }
    let first: i128 = if anims[0].keyframes.len() > 0 {
        anims[0].keyframes[0].value
    } else {
        anims[0].from
    };
    push_point(&mut out, property, inpoint, first);
    assert(point_views(out@) =~= points_upto(queue_view, property, inpoint as int, 0));
    let mut n: usize = 0;
    while n < anims.len()
        invariant
            n <= anims.len(),
            queue_view == views(anims@),
            forall|j: int| 0 <= j < anims@.len() ==> (#[trigger] views(anims@)[j]).fits(4),
            -HORIZON <= inpoint <= HORIZON,
            point_views(out@) == points_upto(queue_view, property, inpoint as int, n as int),
        decreases anims.len() - n,
    {
        proof {
            assert(queue_view[n as int] == anims@[n as int]@);
            assert(views(anims@)[n as int].fits(4));
        }
        push_anim(&mut out, &anims[n], inpoint);
        n += 1;
    }
    let last: &Anim = &anims[anims.len() - 1];
    proof {
        assert(queue_view.last() == last@);
        assert(views(anims@)[anims@.len() - 1].fits(4));
    }
    let m: usize = last.keyframes.len();
    let (last_t, last_v): (i128, i128) = if m > 0 {
        proof {
            assert(last@.keyframes.last() == last.keyframes@[m - 1]@);
            assert(within(last@.keyframes[m - 1].t, 4));
        }
        (last.keyframes[m - 1].t, last.keyframes[m - 1].value)
    } else {
        (last.end, last.to)
    };
    push_point(&mut out, property, inpoint + larger(clip.duration, last_t) + UNIT, last_v);
    out
}

/// A value held to the range of its property.
pub open spec fn held(property: AnimProperty, value: int) -> int {
    match property {
        AnimProperty::Opacity => if value < 0 {
            0
        } else if value > UNIT {
            UNIT as int
        } else {
            value
        },
        AnimProperty::Volume => if value < 0 {
            0
        } else {
            value
        },
        _ => value,
    }
}

/// `us` is the time `t` in whole microseconds, as far as a clock reaches.
pub open spec fn ticks(t: int, us: int) -> bool {
    if t < 0 {
        us == 0
    } else if t < u64::MAX * 1000 {
        us * 1000 <= t < us * 1000 + 1000
    } else {
        us == u64::MAX
    }
}

/// The stretches of an animation that run from one value to another: between
/// keyframe `j - 1` and keyframe `j`, or the whole window of a tween.
pub open spec fn leg(a: AnimView, j: int) -> AnimView {
    if a.keyframes.len() == 0 {
        a
    } else {
        AnimView {
            property: a.property,
            from: a.keyframes[j - 1].value,
            to: a.keyframes[j].value,
            start: a.keyframes[j - 1].t,
            end: a.keyframes[j].t,
            easing: a.keyframes[j].easing,
            keyframes: Seq::empty(),
        }
    }
}

/// How many such stretches an animation has.
pub open spec fn legs(a: AnimView) -> int {
    if a.keyframes.len() == 0 {
        1
    } else {
        a.keyframes.len() - 1
    }
}

/// `x` is the time `i` of `n` equal parts into a stretch, rounded down.
pub open spec fn nth_time(a: AnimView, i: int, n: int, x: int) -> bool {
    (x - a.start) * n <= (a.end - a.start) * i < (x - a.start + 1) * n
}

/// A point shows a stretch at part `i` of `n`: at that time, with the value
/// that the animation has there, up to what it changes in a billionth of a
/// second.
pub open spec fn shows(point: (int, int), a: AnimView, inpoint: int, i: int, n: int) -> bool {
    exists|x: int| #[trigger]
        nth_time(a, i, n, x) && ticks(inpoint + x, point.0) && {
            let v = held(a.property, tween_at(a, x));
            let w = held(a.property, tween_at(a, x + 1));
            &&& v <= point.1 <= w || w <= point.1 <= v
            &&& (x - a.start) * n == (a.end - a.start) * i ==> point.1 == v
        }
}

/// From point `k` on, `n` equal steps show a stretch from its beginning to its
/// end, at least thirty for each second of it.
pub open spec fn runs(points: Seq<(int, int)>, a: AnimView, inpoint: int, k: int, n: int) -> bool {
    &&& 1 <= k && k + n < points.len() - 1
    &&& n >= 12 && (n + 1) * UNIT > 30 * (a.end - a.start)
    &&& forall|i: int| 0 <= i <= n ==> shows(#[trigger] points[k + i], a, inpoint, i, n)
}

proof fn lemma_normalized(property: AnimProperty, v: int, w: int)
    ensures
        normalized(property, v) == held(property, v),
        v <= w ==> held(property, v) <= held(property, w),
{
}

proof fn lemma_clock(t: int)
    ensures
        ticks(t, clock(t)),
{
}

/// The larger share is the larger in billionths.
proof fn lemma_shares(x: int, d: int, i: int, n: int)
    requires
        d > 0,
        n > 0,
    ensures
        x * n <= d * i ==> (x * UNIT) / d <= (i * UNIT) / n,
        d * i <= x * n ==> (i * UNIT) / n <= (x * UNIT) / d,
{
    if x * n <= d * i {
        lemma_share(x, d, i, n);
    }
    if d * i <= x * n {
        assert(i * d == d * i && n * x == x * n) by (nonlinear_arith);
        lemma_share(i, n, x, d);
    }
}

proof fn lemma_share(x: int, d: int, i: int, n: int)
    requires
        d > 0,
        n > 0,
        x * n <= d * i,
    ensures
        (x * UNIT) / d <= (i * UNIT) / n,
{
    let u = UNIT as int;
    let p = (x * u) / d;
    vstd::arithmetic::div_mod::lemma_fundamental_div_mod(x * u, d);
    vstd::arithmetic::div_mod::lemma_mod_bound(x * u, d);
    assert(d * p <= x * u);
    assert((p * n) * d <= (i * u) * d) by (nonlinear_arith)
        requires
            d * p <= x * u,
            x * n <= d * i,
            n > 0,
            u > 0,
    {
        assert((d * p) * n <= (x * u) * n);
        assert((x * n) * u <= (d * i) * u);
    }
    assert(p * n <= i * u) by (nonlinear_arith)
        requires
            (p * n) * d <= (i * u) * d,
            d > 0,
    ;
    vstd::arithmetic::div_mod::lemma_div_is_ordered(p * n, i * u, n);
    vstd::arithmetic::div_mod::lemma_div_multiples_vanish(p, n);
    assert(p * n == n * p) by (nonlinear_arith);
}

proof fn lemma_sample_shows(a: AnimView, inpoint: int, i: int, n: int)
    requires
        a.start < a.end,
        0 <= i <= n,
        1 <= n,
    ensures
        shows(
            sample(a.property, a.easing, (a.start, a.from), (a.end, a.to), inpoint, i, n),
            a,
            inpoint,
            i,
            n,
        ),
{
    let point = sample(a.property, a.easing, (a.start, a.from), (a.end, a.to), inpoint, i, n);
    let d = a.end - a.start;
    let y = (d * i) / n;
    let x = a.start + y;
    let p = (i * UNIT) / n;
    vstd::arithmetic::div_mod::lemma_fundamental_div_mod(d * i, n);
    vstd::arithmetic::div_mod::lemma_mod_bound(d * i, n);
    assert(n * y == y * n && (y + 1) * n == y * n + n) by (nonlinear_arith);
    assert(nth_time(a, i, n, x));
    lemma_clock(inpoint + x);
    assert(0 <= p <= UNIT) by (nonlinear_arith)
        requires
            p == (i * UNIT) / n,
            0 <= i <= n,
            n >= 1,
            UNIT == 1_000_000_000,
    ;
    lemma_shares(y, d, i, n);
    lemma_shares(y + 1, d, i, n);
    let p0 = progress(x, a.start, a.end);
    let p1 = progress(x + 1, a.start, a.end);
    assert(p0 <= p <= p1);
    if y * n == d * i {
        assert(p0 == p);
    }
    law_progress_monotone(x, x + 1, a.start, a.end);
    law_ease_monotone(a.easing, p0, p);
    law_ease_monotone(a.easing, p, p1);
    law_mix_monotone(a.from, a.to, eased(a.easing, p0), eased(a.easing, p));
    law_mix_monotone(a.from, a.to, eased(a.easing, p), eased(a.easing, p1));
    let v = mixed(a.from, a.to, eased(a.easing, p));
    lemma_normalized(a.property, v, tween_at(a, x));
    lemma_normalized(a.property, v, tween_at(a, x + 1));
    lemma_normalized(a.property, tween_at(a, x), v);
    lemma_normalized(a.property, tween_at(a, x + 1), v);
}

proof fn lemma_steps(d: int, least: int)
    ensures
        steps(d, least) >= least,
        (steps(d, least) + 1) * UNIT > 30 * d,
{
}

/// The animations are taken in the order in which they begin, and none is lost
/// or added by the ordering.
pub proof fn law_in_time(s: Seq<AnimView>)
    ensures
        forall|i: int, j: int|
            0 <= i < j < in_time(s).len() ==> begins(#[trigger] in_time(s)[i]) <= begins(
                #[trigger] in_time(s)[j],
            ),
        in_time(s).to_multiset() == s.to_multiset(),
    decreases s.len(),
{
    broadcast use vstd::seq_lib::group_to_multiset_ensures;

    if s.len() > 0 {
        law_in_time(s.drop_last());
        lemma_queued_order(in_time(s.drop_last()), s.last());
        assert(s =~= s.drop_last().push(s.last()));
    }
}

proof fn lemma_queued_order(s: Seq<AnimView>, a: AnimView)
    requires
        forall|i: int, j: int|
            0 <= i < j < s.len() ==> begins(#[trigger] s[i]) <= begins(#[trigger] s[j]),
    ensures
        forall|i: int, j: int|
            0 <= i < j < queued(s, a).len() ==> begins(#[trigger] queued(s, a)[i]) <= begins(
                #[trigger] queued(s, a)[j],
            ),
        queued(s, a).to_multiset() == s.to_multiset().insert(a),
        queued(s, a).len() == s.len() + 1,
        forall|i: int|
            0 <= i < queued(s, a).len() ==> (#[trigger] queued(s, a)[i]) == a || s.contains(
                queued(s, a)[i],
            ),
    decreases s.len(),
{
    broadcast use vstd::seq_lib::group_to_multiset_ensures;

    let after = queued(s, a);
    if s.len() > 0 && begins(s.last()) > begins(a) {
        let rest = s.drop_last();
        lemma_queued_order(rest, a);
        let inner = queued(rest, a);
        assert forall|i: int| 0 <= i < after.len() implies (#[trigger] after[i]) == a || s.contains(
            after[i],
        ) by {
            if i < inner.len() {
                assert(after[i] == inner[i]);
                if inner[i] != a {
                    let k = choose|k: int| 0 <= k < rest.len() && rest[k] == inner[i];
                    assert(s[k] == after[i]);
                }
            } else {
                assert(s[s.len() - 1] == after[i]);
            }
        }
        assert forall|i: int, j: int| 0 <= i < j < after.len() implies begins(#[trigger] after[i])
            <= begins(#[trigger] after[j]) by {
            if j == after.len() - 1 {
                assert(after[i] == inner[i]);
                if inner[i] != a {
                    let k = choose|k: int| 0 <= k < rest.len() && rest[k] == inner[i];
                    assert(begins(s[k]) <= begins(s[s.len() - 1]));
                }
            } else {
                assert(after[i] == inner[i] && after[j] == inner[j]);
            }
        }
        assert(s =~= rest.push(s.last()));
    } else {
        assert forall|i: int| 0 <= i < after.len() implies (#[trigger] after[i]) == a || s.contains(
            after[i],
        ) by {
            if i < s.len() {
                assert(s[i] == after[i]);
            }
        }
    }
}

/// The animations of a property are those of the clip that have it.
proof fn lemma_property_anims(c: ClipView, property: AnimProperty)
    ensures
        forall|a: AnimView| #[trigger]
            property_anims(c, property).contains(a) <==> c.animations.contains(a) && a.property
                == property,
{
    let f = of_property(property);
    let keep = |a: AnimView| a.property == property;
    let some = collected(c.animations, f);
    lemma_collected_filter(c.animations, f, keep);
    assert(some =~= c.animations.filter(keep));
    law_in_time(some);
    some.to_multiset_ensures();
    property_anims(c, property).to_multiset_ensures();
    assert forall|a: AnimView| #[trigger] property_anims(c, property).contains(a)
        <==> c.animations.contains(a) && a.property == property by {
        assert(property_anims(c, property).to_multiset().count(a) == some.to_multiset().count(a));
        if c.animations.contains(a) && a.property == property {
            let i = choose|i: int| 0 <= i < c.animations.len() && c.animations[i] == a;
            c.animations.lemma_filter_contains(keep, i);
        }
        if some.contains(a) {
            let i = choose|i: int| 0 <= i < some.len() && some[i] == a;
            c.animations.lemma_filter_pred(keep, i);
            lemma_collected_member(c.animations, f, i);
        }
    }
}

proof fn lemma_points_at(
    anims: Seq<AnimView>,
    property: AnimProperty,
    inpoint: int,
    upto: int,
    n: int,
)
    requires
        0 <= n < upto,
    ensures
        ({
            let at = points_upto(anims, property, inpoint, n).len();
            let all = points_upto(anims, property, inpoint, upto);
            let some = anim_points(anims[n], inpoint);
            &&& at >= 1
            &&& at + some.len() <= all.len()
            &&& forall|i: int| 0 <= i < some.len() ==> all[at + i] == #[trigger] some[i]
        }),
    decreases upto,
{
    lemma_points_first(anims, property, inpoint, n);
    if n < upto - 1 {
        lemma_points_at(anims, property, inpoint, upto - 1, n);
    }
}

proof fn lemma_keyframe_last(a: AnimView, inpoint: int, n: int)
    requires
        0 <= n < a.keyframes.len(),
    ensures
        keyframe_points(a, inpoint, n).len() >= 1,
        keyframe_points(a, inpoint, n).last() == (
            clock(inpoint + a.keyframes[n].t),
            normalized(a.property, a.keyframes[n].value),
        ),
{
    if n > 0 {
        let (k0, k1) = (a.keyframes[n - 1], a.keyframes[n]);
        let m = steps(k1.t - k0.t, 12);
        lemma_steps(k1.t - k0.t, 12);
        law_ease_endpoints(k1.easing);
        law_mix_endpoints(k0.value, k1.value);
        vstd::arithmetic::div_mod::lemma_div_multiples_vanish(k1.t - k0.t, m);
        vstd::arithmetic::div_mod::lemma_div_multiples_vanish(UNIT as int, m);
        assert((k1.t - k0.t) * m == m * (k1.t - k0.t) && m * UNIT == UNIT * m)
            by (nonlinear_arith);
    }
}

proof fn lemma_keyframes_at(a: AnimView, inpoint: int, upto: int, j: int)
    requires
        1 <= j <= upto < a.keyframes.len(),
    ensures
        ({
            let at = keyframe_points(a, inpoint, j - 1).len();
            let all = keyframe_points(a, inpoint, upto);
            let some = between_points(a.property, a.keyframes[j - 1], a.keyframes[j], inpoint);
            &&& at >= 1
            &&& at + some.len() <= all.len()
            &&& all[at - 1] == (
                clock(inpoint + a.keyframes[j - 1].t),
                normalized(a.property, a.keyframes[j - 1].value),
            )
            &&& forall|i: int| 0 <= i < some.len() ==> all[at + i] == #[trigger] some[i]
        }),
    decreases upto,
{
    lemma_keyframe_last(a, inpoint, j - 1);
    if j < upto {
        lemma_keyframes_at(a, inpoint, upto - 1, j);
    }
}

proof fn lemma_first_sample(a: AnimView, inpoint: int, n: int)
    requires
        n >= 1,
    ensures
        sample(a.property, a.easing, (a.start, a.from), (a.end, a.to), inpoint, 0, n) == (
            clock(inpoint + a.start),
            normalized(a.property, a.from),
        ),
{
    law_ease_endpoints(a.easing);
    law_mix_endpoints(a.from, a.to);
    assert(((a.end - a.start) * 0) / n == 0) by (nonlinear_arith)
        requires
            n >= 1,
    ;
    assert((0 * UNIT) / n == 0) by (nonlinear_arith)
        requires
            n >= 1,
    ;
}

/// Where the samples of a stretch stand among those of its animation.
proof fn lemma_leg_at(a: AnimView, inpoint: int, j: int) -> (r: (int, int))
    requires
        window_fault(a) is None,
        1 <= j <= legs(a),
    ensures
        ({
            let (k, n) = r;
            let some = anim_points(a, inpoint);
            &&& 0 <= k && k + n < some.len()
            &&& n >= 12 && (n + 1) * UNIT > 30 * (leg(a, j).end - leg(a, j).start)
            &&& a.keyframes.len() == 0 ==> n >= 24
            &&& forall|i: int|
                0 <= i <= n ==> shows(#[trigger] some[k + i], leg(a, j), inpoint, i, n)
        }),
{
    let b = leg(a, j);
    let some = anim_points(a, inpoint);
    if a.keyframes.len() == 0 {
        let n = steps(a.end - a.start, 24);
        lemma_steps(a.end - a.start, 24);
        assert forall|i: int| 0 <= i <= n implies shows(
            #[trigger] some[0 + i],
            b,
            inpoint,
            i,
            n,
        ) by {
            lemma_sample_shows(a, inpoint, i, n);
        }
        (0, n)
    } else {
        let (k0, k1) = (a.keyframes[j - 1], a.keyframes[j]);
        assert(k0.t < k1.t);
        let n = steps(k1.t - k0.t, 12);
        lemma_steps(k1.t - k0.t, 12);
        lemma_keyframes_at(a, inpoint, a.keyframes.len() - 1, j);
        let between = between_points(a.property, k0, k1, inpoint);
        let k = keyframe_points(a, inpoint, j - 1).len() - 1;
        assert forall|i: int| 0 <= i <= n implies shows(
            #[trigger] some[k + i],
            b,
            inpoint,
            i,
            n,
        ) by {
            lemma_sample_shows(b, inpoint, i, n);
            if i == 0 {
                lemma_first_sample(b, inpoint, n);
            } else {
                assert(some[k + 1 + (i - 1)] == between[i - 1]);
            }
        }
        (k, n)
    }
}

/// The curve of a property plays its animations as they are: every stretch of
/// every one of them is shown from beginning to end, its easing included, at
/// least thirty times a second.
pub proof fn law_curve_plays(
    c: ClipView,
    property: AnimProperty,
    inpoint: int,
    m: int,
    j: int,
)
    requires
        0 <= m < c.animations.len(),
        c.animations[m].property == property,
        window_fault(c.animations[m]) is None,
        1 <= j <= legs(c.animations[m]),
    ensures
        exists|k: int, n: int| #[trigger]
            runs(curve(c, property, inpoint), leg(c.animations[m], j), inpoint, k, n) && (
            c.animations[m].keyframes.len() == 0 ==> n >= 24),
{
    let a = c.animations[m];
    let anims = property_anims(c, property);
    let points = curve(c, property, inpoint);
    lemma_property_anims(c, property);
    assert(c.animations.contains(a));
    assert(anims.contains(a));
    let x = choose|x: int| 0 <= x < anims.len() && anims[x] == a;
    lemma_points_at(anims, property, inpoint, anims.len() as int, x);
    let at = points_upto(anims, property, inpoint, x).len();
    let some = anim_points(a, inpoint);
    let (k, n) = lemma_leg_at(a, inpoint, j);
    assert forall|i: int| 0 <= i <= n implies shows(
        #[trigger] points[at + k + i],
        leg(a, j),
        inpoint,
        i,
        n,
    ) by {
        assert(some[k + i] == points[at + (k + i)]);
    }
    assert(runs(points, leg(a, j), inpoint, at + k, n));
}

/// A point shows a stretch of an animation.
pub open spec fn taken_from(point: (int, int), a: AnimView, inpoint: int) -> bool {
    exists|j: int, i: int, n: int|
        1 <= j <= legs(a) && 0 <= i <= n && 12 <= n && #[trigger] shows(
            point,
            leg(a, j),
            inpoint,
            i,
            n,
        )
}

proof fn lemma_keyframe_from(a: AnimView, inpoint: int, upto: int, x: int)
    requires
        a.keyframes.len() >= 2,
        in_order(a.keyframes),
        0 <= upto < a.keyframes.len(),
        0 <= x < keyframe_points(a, inpoint, upto).len(),
    ensures
        taken_from(keyframe_points(a, inpoint, upto)[x], a, inpoint),
    decreases upto,
{
    let point = keyframe_points(a, inpoint, upto)[x];
    if upto == 0 {
        let b = leg(a, 1);
        assert(a.keyframes[0].t < a.keyframes[1].t);
        lemma_sample_shows(b, inpoint, 0, 12);
        lemma_first_sample(b, inpoint, 12);
        assert(shows(point, leg(a, 1), inpoint, 0, 12));
    } else {
        let fewer = keyframe_points(a, inpoint, upto - 1);
        if x < fewer.len() {
            lemma_keyframe_from(a, inpoint, upto - 1, x);
        } else {
            let b = leg(a, upto);
            assert(a.keyframes[upto - 1].t < a.keyframes[upto].t);
            let n = steps(b.end - b.start, 12);
            let i = x - fewer.len() + 1;
            lemma_steps(b.end - b.start, 12);
            lemma_sample_shows(b, inpoint, i, n);
            assert(shows(point, leg(a, upto), inpoint, i, n));
        }
    }
}

proof fn lemma_point_from(
    anims: Seq<AnimView>,
    property: AnimProperty,
    inpoint: int,
    upto: int,
    x: int,
) -> (m: int)
    requires
        0 <= upto <= anims.len(),
        forall|i: int| 0 <= i < anims.len() ==> window_fault(#[trigger] anims[i]) is None,
        1 <= x < points_upto(anims, property, inpoint, upto).len(),
    ensures
        0 <= m < anims.len(),
        taken_from(points_upto(anims, property, inpoint, upto)[x], anims[m], inpoint),
    decreases upto,
{
    let fewer = points_upto(anims, property, inpoint, upto - 1);
    if x < fewer.len() {
        lemma_point_from(anims, property, inpoint, upto - 1, x)
    } else {
        let a = anims[upto - 1];
        let i = x - fewer.len();
        let point = points_upto(anims, property, inpoint, upto)[x];
        assert(point == anim_points(a, inpoint)[i]);
        assert(window_fault(a) is None);
        if a.keyframes.len() == 0 {
            let n = steps(a.end - a.start, 24);
            lemma_steps(a.end - a.start, 24);
            lemma_sample_shows(a, inpoint, i, n);
            assert(shows(point, leg(a, 1), inpoint, i, n));
        } else {
            lemma_keyframe_from(a, inpoint, a.keyframes.len() - 1, i);
        }
        upto - 1
    }
}

/// Between its two holds a curve has no point that does not show an animation
/// of its property.
pub proof fn law_curve_only(c: ClipView, property: AnimProperty, inpoint: int, x: int)
    requires
        forall|m: int|
            0 <= m < c.animations.len() ==> window_fault(#[trigger] c.animations[m]) is None,
        1 <= x < curve(c, property, inpoint).len() - 1,
    ensures
        exists|m: int|
            0 <= m < c.animations.len() && (#[trigger] c.animations[m]).property == property
                && taken_from(curve(c, property, inpoint)[x], c.animations[m], inpoint),
{
    let anims = property_anims(c, property);
    lemma_property_anims(c, property);
    assert forall|i: int| 0 <= i < anims.len() implies window_fault(#[trigger] anims[i])
        is None by {
        assert(anims.contains(anims[i]));
        let m = choose|m: int| 0 <= m < c.animations.len() && c.animations[m] == anims[i];
        assert(window_fault(c.animations[m]) is None);
    }
    let i = lemma_point_from(anims, property, inpoint, anims.len() as int, x);
    assert(anims.contains(anims[i]));
    let m = choose|m: int| 0 <= m < c.animations.len() && c.animations[m] == anims[i];
    assert(c.animations[m].property == property);
}

/// A curve is there if an animation has its property. It holds the first value
/// of the animation that begins first from the clip's beginning on, and the
/// last value of the one that begins last until a second past the end of that
/// animation and of the clip.
pub proof fn law_curve_ends(c: ClipView, property: AnimProperty, inpoint: int)
    ensures
        ({
            let points = curve(c, property, inpoint);
            let some = exists|m: int|
                0 <= m < c.animations.len() && (#[trigger] c.animations[m]).property == property;
            &&& !some ==> points.len() == 0
            &&& some ==> points.len() >= 2 && exists|m: int, n: int|
                0 <= m < c.animations.len() && 0 <= n < c.animations.len() && opens(
                    c,
                    property,
                    inpoint,
                    #[trigger] c.animations[m],
                    points[0],
                ) && closes(c, property, inpoint, #[trigger] c.animations[n], points.last())
        }),
{
    let anims = property_anims(c, property);
    let points = curve(c, property, inpoint);
    lemma_property_anims(c, property);
    if anims.len() > 0 {
        let (a, b) = (anims[0], anims.last());
        assert(anims.contains(a) && anims.contains(b));
        let m = choose|m: int| 0 <= m < c.animations.len() && c.animations[m] == a;
        let n = choose|n: int| 0 <= n < c.animations.len() && c.animations[n] == b;
        assert(c.animations[m].property == property);
        law_in_time(collected(c.animations, of_property(property)));
        lemma_points_start(anims, property, inpoint, anims.len() as int);
        lemma_points_first(anims, property, inpoint, anims.len() as int);
        lemma_clock(inpoint);
        lemma_clock(inpoint + max(c.duration, last_value(b).0) + UNIT);
        assert forall|i: int|
            0 <= i < c.animations.len() && (#[trigger] c.animations[i]).property
                == property implies first_time(a) <= first_time(c.animations[i]) && first_time(
            c.animations[i],
        ) <= first_time(b) by {
            assert(c.animations.contains(c.animations[i]));
            assert(anims.contains(c.animations[i]));
            let k = choose|k: int| 0 <= k < anims.len() && anims[k] == c.animations[i];
            if k > 0 {
                assert(begins(anims[0]) <= begins(anims[k]));
            }
            if k < anims.len() - 1 {
                assert(begins(anims[k]) <= begins(anims[anims.len() - 1]));
            }
        }
        assert(opens(c, property, inpoint, c.animations[m], points[0]));
        assert(closes(c, property, inpoint, c.animations[n], points.last()));
    } else if exists|m: int|
        0 <= m < c.animations.len() && (#[trigger] c.animations[m]).property == property {
        let m = choose|m: int|
            0 <= m < c.animations.len() && (#[trigger] c.animations[m]).property == property;
        assert(c.animations.contains(c.animations[m]));
        assert(anims.contains(c.animations[m]));
    }
}

/// The time of the first keyframe, or at which the window begins.
pub open spec fn first_time(a: AnimView) -> int {
    if a.keyframes.len() > 0 {
        a.keyframes[0].t
    } else {
        a.start
    }
}

/// A curve of a clip opens with an animation that begins no later than any
/// other of its property.
pub open spec fn opens(
    c: ClipView,
    property: AnimProperty,
    inpoint: int,
    a: AnimView,
    point: (int, int),
) -> bool {
    &&& a.property == property
    &&& forall|i: int|
        0 <= i < c.animations.len() && (#[trigger] c.animations[i]).property == property
            ==> first_time(a) <= first_time(c.animations[i])
    &&& ticks(inpoint, point.0)
    &&& point.1 == held(
        property,
        if a.keyframes.len() > 0 {
            a.keyframes[0].value
        } else {
            a.from
        },
    )
}

/// A curve of a clip closes with an animation that begins no earlier than any
/// other of its property.
pub open spec fn closes(
    c: ClipView,
    property: AnimProperty,
    inpoint: int,
    a: AnimView,
    point: (int, int),
) -> bool {
    let (end, value) = if a.keyframes.len() > 0 {
        (a.keyframes[a.keyframes.len() - 1].t, a.keyframes[a.keyframes.len() - 1].value)
    } else {
        (a.end, a.to)
    };
    &&& a.property == property
    &&& forall|i: int|
        0 <= i < c.animations.len() && (#[trigger] c.animations[i]).property == property
            ==> first_time(c.animations[i]) <= first_time(a)
    &&& end >= c.duration ==> ticks(inpoint + end + UNIT, point.0)
    &&& end <= c.duration ==> ticks(inpoint + c.duration + UNIT, point.0)
    &&& point.1 == held(property, value)
}

proof fn lemma_points_start(anims: Seq<AnimView>, property: AnimProperty, inpoint: int, n: int)
    ensures
        points_upto(anims, property, inpoint, n).len() >= 1,
        points_upto(anims, property, inpoint, n)[0].1 == normalized(
            property,
            first_value(anims[0]),
        ),
    decreases n,
{
    if n > 0 {
        lemma_points_start(anims, property, inpoint, n - 1);
    }
}

/// Every curve starts with a hold at the clip's beginning and ends with a
/// hold at least a second past the end of the clip.
pub proof fn law_curve_holds(c: ClipView, property: AnimProperty, inpoint: int)
    requires
        property_anims(c, property).len() > 0,
    ensures
        ({
            let points = curve(c, property, inpoint);
            &&& points.len() >= 2
            &&& points[0].0 == clock(inpoint)
            &&& points.last().0 >= clock(inpoint + c.duration + UNIT)
        }),
{
    let anims = property_anims(c, property);
    lemma_points_first(anims, property, inpoint, anims.len() as int);
}

proof fn lemma_points_first(anims: Seq<AnimView>, property: AnimProperty, inpoint: int, n: int)
    ensures
        points_upto(anims, property, inpoint, n).len() >= 1,
        points_upto(anims, property, inpoint, n)[0].0 == clock(inpoint),
    decreases n,
{
    if n > 0 {
        lemma_points_first(anims, property, inpoint, n - 1);
    }
}

} // verus!
