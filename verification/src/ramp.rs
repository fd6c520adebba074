//! Keyframed playback rates as runs of clips with a constant rate each.

use vstd::prelude::*;
use crate::document::{Anim, AnimProperty, AnimView, Clip, ClipView, Element, ElementView};
use crate::document::{Keyframe, KeyframeView};
use crate::fixed::{ease, eased, floor_div, law_ease_cubic, law_mix_share, mix, mixed, within};
use crate::fixed::{HORIZON, UNIT};
use crate::text::{decimal, decimal_text, joined};
use crate::views::{collected, lemma_collected_filter, lemma_collected_step, views};

verus! {

broadcast use crate::views::group_views;

/// Half of the way, in billionths.
pub const HALF: i128 = 500_000_000;

/// Index of the first animation of the playback rate.
pub open spec fn rate_index(anims: Seq<AnimView>) -> int
    decreases anims.len(),
{
    if anims.len() == 0 || anims[0].property == AnimProperty::Rate {
        0
    } else {
        1 + rate_index(anims.skip(1))
    }
}

pub proof fn lemma_rate_index(anims: Seq<AnimView>)
    ensures
        0 <= rate_index(anims) <= anims.len(),
        rate_index(anims) < anims.len() ==> anims[rate_index(anims)].property == AnimProperty::Rate,
        forall|j: int|
            0 <= j < rate_index(anims) ==> (#[trigger] anims[j]).property != AnimProperty::Rate,
    decreases anims.len(),
{
    if anims.len() > 0 && anims[0].property != AnimProperty::Rate {
        let rest = anims.skip(1);
        lemma_rate_index(rest);
        assert forall|j: int| 0 <= j < rate_index(anims) implies (#[trigger] anims[j]).property
            != AnimProperty::Rate by {
            if j > 0 {
                assert(anims[j] == rest[j - 1]);
            }
        }
    }
}

pub open spec fn not_rate() -> spec_fn(AnimView) -> Option<AnimView> {
    |a: AnimView|
        if a.property == AnimProperty::Rate {
            None
        } else {
            Some(a)
        }
}

/// The element with another media offset and rate.
pub open spec fn retimed(e: ElementView, offset: int, rate: int) -> ElementView {
    match e {
        ElementView::Video { src, offset: o, volume, rate: r } => ElementView::Video {
            src,
            offset,
            volume,
            rate,
        },
        ElementView::Audio { src, offset: o, volume, rate: r } => ElementView::Audio {
            src,
            offset,
            volume,
            rate,
        },
        _ => e,
    }
}

/// The media offset of an element, if it plays media.
pub open spec fn media_offset(e: ElementView) -> Option<int> {
    match e {
        ElementView::Video { src, offset, volume, rate } => Some(offset),
        ElementView::Audio { src, offset, volume, rate } => Some(offset),
        _ => None,
    }
}

/// The rate of the segment between two keyframes: the curve's value half way.
pub open spec fn segment_rate(k0: KeyframeView, k1: KeyframeView) -> int {
    mixed(k0.value, k1.value, eased(k1.easing, HALF as int))
}

/// The media that a segment consumes: its duration times its rate.
pub open spec fn consumed(k0: KeyframeView, k1: KeyframeView) -> int {
    ((k1.t - k0.t) * segment_rate(k0, k1)) / (UNIT as int)
}

/// The media consumed by the first `n` segments.
pub open spec fn consumed_upto(k: Seq<KeyframeView>, n: int) -> int
    decreases n,
{
    if n <= 0 {
        0
    } else if k[n].t <= k[n - 1].t {
        consumed_upto(k, n - 1)
    } else {
        consumed_upto(k, n - 1) + consumed(k[n - 1], k[n])
    }
}

/// One segment of a ramp: clip number `number`, from keyframe `k0` to `k1`.
pub open spec fn segment(
    c: ClipView,
    k0: KeyframeView,
    k1: KeyframeView,
    offset: int,
    number: nat,
) -> ClipView {
    ClipView {
        id: c.id + "-ramp"@ + decimal(number),
        start: c.start + k0.t,
        duration: k1.t - k0.t,
        element: retimed(c.element, offset, segment_rate(k0, k1)),
        animations: collected(c.animations, not_rate()),
        ..c
    }
}

/// The segments between the first `n + 1` keyframes. Each starts in the media
/// where the ones before it have left off.
pub open spec fn segments(c: ClipView, k: Seq<KeyframeView>, n: int) -> Seq<ClipView>
    decreases n,
{
    if n <= 0 {
        Seq::empty()
    } else {
        let fewer = segments(c, k, n - 1);
        if k[n].t <= k[n - 1].t {
            fewer
        } else {
            fewer.push(
                segment(
                    c,
                    k[n - 1],
                    k[n],
                    media_offset(c.element)->0 + consumed_upto(k, n - 1),
                    fewer.len(),
                ),
            )
        }
    }
}

/// The keyframes of the first rate animation; none if there is no such
/// animation.
pub open spec fn rate_keyframes(c: ClipView) -> Seq<KeyframeView> {
    let i = rate_index(c.animations);
    if i < c.animations.len() {
        c.animations[i].keyframes
    } else {
        Seq::empty()
    }
}

/// The clips that play a keyframed rate curve; `None` for a clip without one.
pub open spec fn ramp(c: ClipView) -> Option<Seq<ClipView>> {
    let k = rate_keyframes(c);
    if k.len() < 2 || media_offset(c.element) is None {
        None
    } else {
        Some(segments(c, k, k.len() - 1))
    }
}

/// Rate keyframes of at most ten times normal speed.
pub open spec fn rates_bounded(c: ClipView) -> bool {
    forall|i: int|
        0 <= i < rate_keyframes(c).len() ==> -10 * UNIT <= (#[trigger] rate_keyframes(c)[i]).value
            <= 10 * UNIT
}

/// The numbers of a clip's element and animations are in reach of a document.
pub open spec fn curves_fit(c: ClipView) -> bool {
    &&& c.element.fits(4)
    &&& forall|i: int| 0 <= i < c.animations.len() ==> (#[trigger] c.animations[i]).fits(4)
}

proof fn lemma_product(d: int, rate: int)
    by (nonlinear_arith)
    requires
        0 <= d <= 800_000_000_000_000_000,
        -10_000_000_000 <= rate <= 10_000_000_000,
    ensures
        -8_000_000_000_000_000_000_000_000_000 <= d * rate
            <= 8_000_000_000_000_000_000_000_000_000,
{
}

/// Expand a clip with a keyframed rate animation into sub-clips, each with
/// its own constant rate sampled at that segment's midpoint. Segment
/// boundaries are the keyframes themselves; each segment's media offset
/// advances by the media that the previous segments consume. `None` if the
/// clip has no keyframed rate animation.
pub fn expand_rate_ramp(clip: &Clip) -> (r: Option<Vec<Clip>>)
    requires
        curves_fit(clip@),
        -HORIZON <= clip.start <= HORIZON,
        rates_bounded(clip@),
    ensures
        match r {
            Some(v) => ramp(clip@) == Some(views(v@)),
            None => ramp(clip@) is None,
        },
{
    let ghost anims = clip@.animations;
    let mut i: usize = 0;
    while i < clip.animations.len() && clip.animations[i].property != AnimProperty::Rate
        invariant
            i <= clip.animations.len(),
            anims == clip@.animations,
            forall|j: int| 0 <= j < i ==> (#[trigger] anims[j]).property != AnimProperty::Rate,
        decreases clip.animations.len() - i,
    {
        assert(anims[i as int] == clip.animations@[i as int]@);
        i += 1;
    }
    proof {
        lemma_rate_index(anims);
        if i < anims.len() {
            assert(anims[i as int] == clip.animations@[i as int]@);
        }
        assert(i == rate_index(anims));
    }
    if i >= clip.animations.len() {
        return None;
    }
    let keyframes: &Vec<Keyframe> = &clip.animations[i].keyframes;
    let ghost k = rate_keyframes(clip@);
    assert(k == views(keyframes@));
    if keyframes.len() < 2 {
        return None;
    }
    let base: i128 = match &clip.element {
        Element::Video { src, offset, volume, rate } => *offset,
        Element::Audio { src, offset, volume, rate } => *offset,
        _ => return None,
    };
    assert(anims[i as int].fits(4));
    let mut others: Vec<Anim> = Vec::new();
    let mut a: usize = 0;
    while a < clip.animations.len()
        invariant
            a <= clip.animations.len(),
            anims == views(clip.animations@),
            views(others@) == collected(anims.take(a as int), not_rate()),
        decreases clip.animations.len() - a,
    {
        proof {
            lemma_collected_step(anims, not_rate(), a as int);
            assert(anims[a as int] == clip.animations@[a as int]@);
        }
        if clip.animations[a].property != AnimProperty::Rate {
            others.push(clip.animations[a].clone());
        }
        a += 1;
    }
    assert(anims.take(a as int) =~= anims);
    let mut out: Vec<Clip> = Vec::new();
    let mut used: i128 = 0;
    let mut n: usize = 0;
    while n + 1 < keyframes.len()
        invariant
            n + 1 <= keyframes.len(),
            curves_fit(clip@),
            -HORIZON <= clip.start <= HORIZON,
            rates_bounded(clip@),
            k == views(keyframes@),
            k == rate_keyframes(clip@),
            media_offset(clip@.element) == Some(base as int),
            views(others@) == collected(clip@.animations, not_rate()),
            within(base as int, 4),
            forall|j: int|
                0 <= j < k.len() ==> within((#[trigger] k[j]).t, 4) && within(k[j].value, 4),
            used == consumed_upto(k, n as int),
            -8_000_000_000_000_000_000 * n <= used <= 8_000_000_000_000_000_000 * n,
            views(out@) == segments(clip@, k, n as int),
            out@.len() <= n,
        decreases keyframes.len() - n,
    {
        let k0: Keyframe = keyframes[n];
        let k1: Keyframe = keyframes[n + 1];
        proof {
            assert(k[n as int] == k0@);
            assert(k[n + 1] == k1@);
        }
        if k1.t > k0.t {
            let d: i128 = k1.t - k0.t;
            let rate: i128 = mix(k0.value, k1.value, ease(k1.easing, HALF));
            let number: usize = out.len();
            let mut id: String = joined(clip.id.as_str(), "-ramp");
            id.append(decimal_text(number as u128).as_str());
            let element: Element = match &clip.element {
                Element::Video { src, offset, volume, rate: r } => Element::Video {
                    src: src.clone(),
                    offset: base + used,
                    volume: *volume,
                    rate,
                },
                Element::Audio { src, offset, volume, rate: r } => Element::Audio {
                    src: src.clone(),
                    offset: base + used,
                    volume: *volume,
                    rate,
                },
                other => other.clone(),
            };
            let mut seg: Clip = clip.clone();
            let animations: Vec<Anim> = others.clone();
            assert(views(animations@) =~= views(others@));
            seg.id = id;
            seg.start = clip.start + k0.t;
            seg.duration = d;
            seg.element = element;
            seg.animations = animations;
            proof {
                lemma_product(d as int, rate as int);
                assert(seg@ == segment(
                    clip@,
                    k[n as int],
                    k[n + 1],
                    base + used,
                    out@.len(),
                ));
            }
            used = used + floor_div(d * rate, UNIT);
            out.push(seg);
        }
        n += 1;
    }
    Some(out)
}

/// The segments of a ramp whose keyframes are in order follow each other
/// without gap or overlap: each starts where the one before it ends, on the
/// timeline and in the media.
pub proof fn law_ramp_contiguous(c: ClipView, k: Seq<KeyframeView>, n: int)
    requires
        1 <= n < k.len(),
        crate::faults::in_order(k),
    ensures
        ({
            let s = segments(c, k, n);
            &&& s.len() == n
            &&& s[n - 1].start + s[n - 1].duration == c.start + k[n].t
            &&& s[0].start == c.start + k[0].t
            &&& forall|i: int|
                #![trigger s[i]]
                0 < i < n ==> s[i].start == s[i - 1].start + s[i - 1].duration
        }),
    decreases n,
{
    assert(k[n - 1].t < k[n].t);
    if n > 1 {
        law_ramp_contiguous(c, k, n - 1);
    } else {
        assert(segments(c, k, 0).len() == 0);
    }
}

/// Each segment's media offset is where the previous one's media ends: its
/// offset plus its duration times its rate.
pub proof fn law_ramp_media(c: ClipView, k: Seq<KeyframeView>, n: int, i: int)
    requires
        1 <= n < k.len(),
        crate::faults::in_order(k),
        media_offset(c.element) is Some,
        0 < i < n,
    ensures
        ({
            let s = segments(c, k, n);
            media_offset(s[i].element) == Some(
                media_offset(s[i - 1].element)->0 + consumed(k[i - 1], k[i]),
            )
        }),
    decreases n,
{
    law_ramp_contiguous(c, k, n);
    assert(k[n - 1].t < k[n].t);
    assert(k[n - 2].t < k[n - 1].t);
    if i < n - 1 {
        law_ramp_contiguous(c, k, n - 1);
        law_ramp_media(c, k, n - 1, i);
    } else {
        law_ramp_contiguous(c, k, n - 1);
        if n > 2 {
            law_ramp_contiguous(c, k, n - 2);
        }
    }
}

/// What a media element plays: its source, where in it, how loud and how fast.
pub open spec fn playing(e: ElementView) -> Option<(bool, Seq<char>, int, int, int)> {
    match e {
        ElementView::Video { src, offset, volume, rate } => Some((true, src, offset, volume, rate)),
        ElementView::Audio { src, offset, volume, rate } => Some((false, src, offset, volume, rate)),
        _ => None,
    }
}

/// How many eighths of the way to the next keyframe a curve has covered half
/// way in time.
pub open spec fn eighths_half_way(easing: crate::document::Easing) -> int {
    match easing {
        crate::document::Easing::Linear => 4,
        crate::document::Easing::EaseIn => 1,
        crate::document::Easing::EaseOut => 7,
        crate::document::Easing::EaseInOut => 4,
    }
}

/// Which clips have a speed ramp: those that play media and whose first
/// animation of the rate has two keyframes.
pub proof fn law_ramp_which(c: ClipView)
    ensures
        ramp(c) is Some <==> playing(c.element) is Some && exists|j: int|
            0 <= j < c.animations.len() && (#[trigger] c.animations[j]).property
                == AnimProperty::Rate && c.animations[j].keyframes.len() >= 2 && forall|i: int|
                0 <= i < j ==> (#[trigger] c.animations[i]).property != AnimProperty::Rate,
{
    lemma_rate_index(c.animations);
    let at = rate_index(c.animations);
    if ramp(c) is Some {
        assert(c.animations[at].property == AnimProperty::Rate);
    }
    assert forall|j: int| 0 <= j < c.animations.len() && (#[trigger] c.animations[j]).property
        == AnimProperty::Rate && (forall|i: int|
        0 <= i < j ==> (#[trigger] c.animations[i]).property != AnimProperty::Rate) implies j
        == at by {
        if at < j {
            assert(c.animations[at].property != AnimProperty::Rate);
        }
    }
}

/// The rate half way between two keyframes covers the eased half of the way,
/// rounded down, and so lies between them.
pub proof fn law_segment_rate(k0: KeyframeView, k1: KeyframeView)
    ensures
        ({
            let r = segment_rate(k0, k1);
            let (a, b) = (k0.value, k1.value);
            &&& 0 <= (b - a) * eighths_half_way(k1.easing) - 8 * (r - a) < 8
            &&& k1.easing == crate::document::Easing::Linear ==> a + b - 2 < 2 * r <= a + b
            &&& a + 8 <= b ==> a < r < b
            &&& b + 8 <= a ==> b < r < a
        }),
{
    let e = eased(k1.easing, HALF as int);
    let w = eighths_half_way(k1.easing);
    let d = k1.value - k0.value;
    assert(e == w * 125_000_000) by {
        law_ease_cubic(k1.easing, HALF as int);
        let h = HALF as int;
        assert(h * h * h == 125_000_000 * (UNIT * UNIT)) by (nonlinear_arith)
            requires
                h == 500_000_000,
                UNIT == 1_000_000_000,
        ;
    }
    law_mix_share(k0.value, k1.value, e);
    assert(d * (w * 125_000_000) == (d * w) * 125_000_000) by (nonlinear_arith);
}

/// A speed ramp as it is played: between each keyframe and the next a clip of
/// its own, which lasts as long, plays at the rate half way, and starts in the
/// media where the one before it has left off. All of them look and sound as
/// the whole does, and have all its animations but those of the rate.
pub proof fn law_ramp(c: ClipView, j: int, i: int)
    requires
        0 <= j < c.animations.len(),
        c.animations[j].property == AnimProperty::Rate,
        forall|n: int| 0 <= n < j ==> (#[trigger] c.animations[n]).property != AnimProperty::Rate,
        c.animations[j].keyframes.len() >= 2,
        crate::faults::in_order(c.animations[j].keyframes),
        playing(c.element) is Some,
        0 <= i < c.animations[j].keyframes.len() - 1,
    ensures
        ({
            let k = c.animations[j].keyframes;
            let (video, src, first, volume, _) = playing(c.element)->0;
            let all = ramp(c)->0;
            let s = all[i];
            let (a, b) = (k[i].value, k[i + 1].value);
            let (now_video, now_src, offset, now_volume, rate) = playing(s.element)->0;
            &&& ramp(c) is Some
            &&& all.len() == k.len() - 1
            &&& s.start == c.start + k[i].t
            &&& s.start + s.duration == c.start + k[i + 1].t
            &&& playing(s.element) is Some
            &&& now_video == video && now_src == src && now_volume == volume
            &&& 0 <= (b - a) * eighths_half_way(k[i + 1].easing) - 8 * (rate - a) < 8
            &&& i == 0 ==> offset == first
            &&& i > 0 ==> {
                let (_, _, before, _, slower) = playing(all[i - 1].element)->0;
                0 <= all[i - 1].duration * slower - (offset - before) * UNIT < UNIT
            }
            &&& s.animations == c.animations.filter(|x: AnimView| x.property != AnimProperty::Rate)
            &&& s.transform == c.transform && s.effects == c.effects
            &&& s.id == c.id + "-ramp"@ + decimal(i as nat)
        }),
{
    let k = c.animations[j].keyframes;
    lemma_rate_index(c.animations);
    let at = rate_index(c.animations);
    if at < j {
        assert(c.animations[at].property != AnimProperty::Rate);
    }
    assert(rate_keyframes(c) == k);
    let last = k.len() - 1;
    lemma_segments(c, k, last, i);
    law_segment_rate(k[i], k[i + 1]);
    if i > 0 {
        lemma_segments(c, k, last, i - 1);
        assert(k[i - 1].t < k[i].t);
        let d = (k[i].t - k[i - 1].t) * segment_rate(k[i - 1], k[i]);
        let x = d / (UNIT as int);
        assert(0 <= d - x * UNIT < UNIT);
    }
    let keep = |x: AnimView| x.property != AnimProperty::Rate;
    lemma_collected_filter(c.animations, not_rate(), keep);
    assert(collected(c.animations, not_rate()) =~= c.animations.filter(keep));
}

proof fn lemma_segments(c: ClipView, k: Seq<KeyframeView>, n: int, i: int)
    requires
        0 <= i < n < k.len(),
        crate::faults::in_order(k),
    ensures
        segments(c, k, n).len() == n,
        segments(c, k, n)[i] == segment(
            c,
            k[i],
            k[i + 1],
            media_offset(c.element)->0 + consumed_upto(k, i),
            i as nat,
        ),
    decreases n,
{
    assert(k[n - 1].t < k[n].t);
    law_ramp_contiguous(c, k, n);
    if n > 1 {
        law_ramp_contiguous(c, k, n - 1);
    } else {
        assert(segments(c, k, 0).len() == 0);
    }
    if i < n - 1 {
        lemma_segments(c, k, n - 1, i);
    }
}

/// Whatever the keyframes, no segment of a ramp is empty or runs backward.
pub proof fn law_ramp_lasts(c: ClipView, k: Seq<KeyframeView>, n: int, i: int)
    requires
        0 <= n < k.len(),
        0 <= i < segments(c, k, n).len(),
    ensures
        segments(c, k, n)[i].duration > 0,
    decreases n,
{
    if n > 0 && i < segments(c, k, n - 1).len() {
        law_ramp_lasts(c, k, n - 1, i);
    }
}

} // verus!
