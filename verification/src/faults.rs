//! What can be wrong with one clip.

use vstd::prelude::*;
use crate::document::{Anim, AnimProperty, AnimView, Clip, ClipView, CompDef, CompDefView};
use crate::document::{Effect, EffectView, Element, ElementView, KeyframeView};
use crate::fixed::{TENTH, UNIT};
use crate::textmap::{lookup, TextMap};
use crate::views::views;

verus! {

broadcast use {crate::views::group_views, vstd::seq_lib::group_seq_properties};

/// The kinds of faults that make a document invalid.
#[derive(Debug, Clone, Copy, PartialEq, Eq, Structural)]
pub enum Fault {
    /// Width, height and fps must be positive.
    Meta,
    /// A scene needs a non-empty id.
    EmptySceneId,
    /// A clip needs a non-empty id.
    EmptyClipId,
    /// An overlay track needs a non-empty id.
    EmptyTrackId,
    /// Two things share an id.
    DuplicateId,
    /// A scene's duration must be above 0.
    SceneDuration,
    /// A transition must be longer than 0 and shorter than its scene.
    TransitionDuration,
    /// A clip's start and duration must not be negative.
    ClipTime,
    /// An animation must end after it starts.
    AnimWindow,
    /// Keyframe animations need at least two keyframes.
    TooFewKeyframes,
    /// Keyframes must be in strictly increasing time order.
    KeyframeOrder,
    /// A playback rate must be 0.1-10.
    Rate,
    /// A rate animation needs keyframes.
    RateTween,
    /// Rate keyframe values must be 0.1-10.
    RateKeyframe,
    /// Blur amount must be 0-50.
    Blur,
    /// Chroma key angle 1-90, noise 0-64.
    ChromaKey,
    /// Crop values must not be negative.
    Crop,
    /// Eq bands are -24..12 dB.
    Eq,
    /// Compressor threshold 0-1, ratio 1-4.
    Compressor,
    /// Denoise level must be 0-3.
    Denoise,
    /// Brightness/hue -1..1, contrast/saturation 0..2.
    Color,
    /// A clip instantiates a def that does not exist.
    UnknownDef,
    /// Defs instantiate each other in a circle.
    DefCycle,
}

/// Why a document is invalid. `id` names the offending scene, clip, track or
/// chain of defs; `detail` names the def that is unknown or closes a circle.
#[derive(Debug)]
pub struct ValidateError {
    pub fault: Fault,
    pub id: String,
    pub detail: String,
}

#[verifier::ext_equal]
pub struct ErrorView {
    pub fault: Fault,
    pub id: Seq<char>,
    pub detail: Seq<char>,
}

impl View for ValidateError {
    type V = ErrorView;

    open spec fn view(&self) -> ErrorView {
        ErrorView { fault: self.fault, id: self.id@, detail: self.detail@ }
    }
}

impl ValidateError {
    /// A fault of the thing with the given id.
    pub fn of(fault: Fault, id: &str) -> (r: Self)
        ensures
            r@ == (ErrorView { fault, id: id@, detail: Seq::empty() }),
    {
        ValidateError { fault, id: id.to_owned(), detail: String::new() }
    }
}

/// The first fault that `f` finds in a list.
pub open spec fn first_of<T>(s: Seq<T>, f: spec_fn(T) -> Option<Fault>) -> Option<Fault>
    decreases s.len(),
{
    if s.len() == 0 {
        None
    } else if f(s[0]) is Some {
        f(s[0])
    } else {
        first_of(s.skip(1), f)
    }
}

proof fn lemma_first_of_at<T>(s: Seq<T>, f: spec_fn(T) -> Option<Fault>, i: int)
    requires
        0 <= i < s.len(),
        forall|j: int| 0 <= j < i ==> f(#[trigger] s[j]) is None,
        f(s[i]) is Some,
    ensures
        first_of(s, f) == f(s[i]),
    decreases i,
{
    if i > 0 {
        let rest = s.skip(1);
        assert(f(s[0]) is None);
        assert forall|j: int| 0 <= j < i - 1 implies f(#[trigger] rest[j]) is None by {
            assert(rest[j] == s[j + 1]);
        }
        lemma_first_of_at(rest, f, i - 1);
    }
}

proof fn lemma_first_of_none<T>(s: Seq<T>, f: spec_fn(T) -> Option<Fault>)
    ensures
        first_of(s, f) is None <==> forall|j: int| 0 <= j < s.len() ==> f(#[trigger] s[j]) is None,
    decreases s.len(),
{
    if s.len() > 0 {
        let rest = s.skip(1);
        lemma_first_of_none(rest, f);
        if forall|j: int| 0 <= j < s.len() ==> f(#[trigger] s[j]) is None {
            assert forall|j: int| 0 <= j < rest.len() implies f(#[trigger] rest[j]) is None by {
                assert(rest[j] == s[j + 1]);
            }
        }
        if first_of(s, f) is None {
            assert forall|j: int| 0 <= j < s.len() implies f(#[trigger] s[j]) is None by {
                if j > 0 {
                    assert(s[j] == rest[j - 1]);
                }
            }
        }
    }
}

/// Keyframes follow each other in strictly increasing time.
pub open spec fn in_order(k: Seq<KeyframeView>) -> bool {
    forall|i: int, j: int| 0 <= i < j < k.len() ==> (#[trigger] k[i]).t < (#[trigger] k[j]).t
}

/// A playback rate between a tenth and ten times normal speed.
pub open spec fn rate_ok(rate: int) -> bool {
    TENTH <= rate <= 10 * UNIT
}

/// What is wrong with the time window of an animation.
pub open spec fn window_fault(a: AnimView) -> Option<Fault> {
    if a.keyframes.len() == 0 {
        if a.end <= a.start {
            Some(Fault::AnimWindow)
        } else {
            None
        }
    } else if a.keyframes.len() < 2 {
        Some(Fault::TooFewKeyframes)
    } else if !in_order(a.keyframes) {
        Some(Fault::KeyframeOrder)
    } else {
        None
    }
}

/// What is wrong with an animation of the playback rate.
pub open spec fn rate_anim_fault(a: AnimView) -> Option<Fault> {
    if a.property != AnimProperty::Rate {
        None
    } else if a.keyframes.len() == 0 {
        Some(Fault::RateTween)
    } else if exists|i: int|
        0 <= i < a.keyframes.len() && !rate_ok((#[trigger] a.keyframes[i]).value) {
        Some(Fault::RateKeyframe)
    } else {
        None
    }
}

/// What is wrong with the parameters of an effect.
pub open spec fn effect_fault(e: EffectView) -> Option<Fault> {
    match e {
        EffectView::Blur { amount } => if 0 <= amount <= 50 * UNIT {
            None
        } else {
            Some(Fault::Blur)
        },
        EffectView::ChromaKey { color, angle, noise } => if UNIT <= angle <= 90 * UNIT && 0 <= noise
            <= 64 * UNIT {
            None
        } else {
            Some(Fault::ChromaKey)
        },
        EffectView::Crop { left, right, top, bottom } => if left >= 0 && right >= 0 && top >= 0
            && bottom >= 0 {
            None
        } else {
            Some(Fault::Crop)
        },
        EffectView::Eq { low, mid, high } => if -24 * UNIT <= low <= 12 * UNIT && -24 * UNIT <= mid
            <= 12 * UNIT && -24 * UNIT <= high <= 12 * UNIT {
            None
        } else {
            Some(Fault::Eq)
        },
        EffectView::Compressor { threshold, ratio } => if 0 <= threshold <= UNIT && UNIT <= ratio
            <= 4 * UNIT {
            None
        } else {
            Some(Fault::Compressor)
        },
        EffectView::Denoise { level } => if level <= 3 {
            None
        } else {
            Some(Fault::Denoise)
        },
        EffectView::Color { brightness, contrast, saturation, hue } => if -UNIT <= brightness
            <= UNIT && 0 <= contrast <= 2 * UNIT && 0 <= saturation <= 2 * UNIT && -UNIT <= hue
            <= UNIT {
            None
        } else {
            Some(Fault::Color)
        },
    }
}

pub open spec fn window_faults() -> spec_fn(AnimView) -> Option<Fault> {
    |a: AnimView| window_fault(a)
}

pub open spec fn rate_anim_faults() -> spec_fn(AnimView) -> Option<Fault> {
    |a: AnimView| rate_anim_fault(a)
}

pub open spec fn effect_faults() -> spec_fn(EffectView) -> Option<Fault> {
    |e: EffectView| effect_fault(e)
}

/// The media rate of a clip is one that can be played.
pub open spec fn media_rate_ok(e: ElementView) -> bool {
    match e {
        ElementView::Video { src, offset, volume, rate } => rate_ok(rate),
        ElementView::Audio { src, offset, volume, rate } => rate_ok(rate),
        _ => true,
    }
}

/// The first fault of a clip, in the order in which a clip is checked: times,
/// animation windows, media rate, rate animations, effects, def.
pub open spec fn clip_fault(c: ClipView, defs: Seq<(Seq<char>, CompDefView)>) -> Option<ErrorView> {
    let windows = first_of(c.animations, window_faults());
    let rates = first_of(c.animations, rate_anim_faults());
    let effects = first_of(c.effects, effect_faults());
    let at_clip = |f: Fault| ErrorView { fault: f, id: c.id, detail: Seq::empty() };
    if c.start < 0 || c.duration < 0 {
        Some(at_clip(Fault::ClipTime))
    } else if windows is Some {
        Some(at_clip(windows->0))
    } else if !media_rate_ok(c.element) {
        Some(at_clip(Fault::Rate))
    } else if rates is Some {
        Some(at_clip(rates->0))
    } else if effects is Some {
        Some(at_clip(effects->0))
    } else {
        match c.element {
            ElementView::CompRef { def, args } => if lookup(defs, def) is None {
                Some(ErrorView { fault: Fault::UnknownDef, id: c.id, detail: def })
            } else {
                None
            },
            _ => None,
        }
    }
}

/// A clip with nothing wrong with it.
pub open spec fn clip_ok(c: ClipView, defs: Seq<(Seq<char>, CompDefView)>) -> bool {
    &&& c.start >= 0 && c.duration >= 0
    &&& forall|i: int|
        0 <= i < c.animations.len() ==> window_fault(#[trigger] c.animations[i]) is None
            && rate_anim_fault(c.animations[i]) is None
    &&& media_rate_ok(c.element)
    &&& forall|i: int| 0 <= i < c.effects.len() ==> effect_fault(#[trigger] c.effects[i]) is None
    &&& match c.element {
        ElementView::CompRef { def, args } => lookup(defs, def) is Some,
        _ => true,
    }
}

/// A clip is accepted exactly when nothing is wrong with it.
pub proof fn law_clip_fault(c: ClipView, defs: Seq<(Seq<char>, CompDefView)>)
    ensures
        clip_fault(c, defs) is None <==> clip_ok(c, defs),
{
    lemma_first_of_none(c.animations, window_faults());
    lemma_first_of_none(c.animations, rate_anim_faults());
    lemma_first_of_none(c.effects, effect_faults());
    if clip_fault(c, defs) is None {
        assert forall|i: int| 0 <= i < c.animations.len() implies window_fault(
            #[trigger] c.animations[i],
        ) is None && rate_anim_fault(c.animations[i]) is None by {
            assert(window_faults()(c.animations[i]) is None);
            assert(rate_anim_faults()(c.animations[i]) is None);
        }
        assert forall|i: int| 0 <= i < c.effects.len() implies effect_fault(
            #[trigger] c.effects[i],
        ) is None by {
            assert(effect_faults()(c.effects[i]) is None);
        }
    }
    if clip_ok(c, defs) {
        assert forall|i: int| 0 <= i < c.animations.len() implies window_faults()(
            #[trigger] c.animations[i],
        ) is None && rate_anim_faults()(c.animations[i]) is None by {
            assert(window_fault(c.animations[i]) is None);
        }
        assert forall|i: int| 0 <= i < c.effects.len() implies effect_faults()(
            #[trigger] c.effects[i],
        ) is None by {
            assert(effect_fault(c.effects[i]) is None);
        }
    }
}

fn playable(rate: i128) -> (r: bool)
    ensures
        r == rate_ok(rate as int),
{
    TENTH <= rate && rate <= 10 * UNIT
}

fn between(x: i128, lo: i128, hi: i128) -> (r: bool)
    ensures
        r == (lo <= x <= hi),
{
    lo <= x && x <= hi
}

impl Anim {
    fn window_fault(&self) -> (r: Option<Fault>)
        ensures
            r == window_fault(self@),
    {
        let n: usize = self.keyframes.len();
        if n == 0 {
            return if self.end <= self.start {
                Some(Fault::AnimWindow)
            } else {
                None
            };
        }
        if n < 2 {
            return Some(Fault::TooFewKeyframes);
        }
        let mut i: usize = 0;
        while i < n - 1
            invariant
                n == self.keyframes.len(),
                i <= n - 1,
                n >= 2,
                forall|a: int, b: int|
                    0 <= a < b <= i ==> (#[trigger] self@.keyframes[a]).t < (
                    #[trigger] self@.keyframes[b]).t,
            decreases n - i,
        {
            if self.keyframes[i + 1].t <= self.keyframes[i].t {
                assert(!(self@.keyframes[i as int].t < self@.keyframes[i + 1].t));
                return Some(Fault::KeyframeOrder);
            }
            i += 1;
        }
        assert(in_order(self@.keyframes));
        None
    }

    fn rate_fault(&self) -> (r: Option<Fault>)
        ensures
            r == rate_anim_fault(self@),
    {
        if self.property != AnimProperty::Rate {
            return None;
        }
        if self.keyframes.len() == 0 {
            return Some(Fault::RateTween);
        }
        let mut i: usize = 0;
        while i < self.keyframes.len()
            invariant
                i <= self.keyframes.len(),
                self.property == AnimProperty::Rate,
                self.keyframes.len() > 0,
                forall|j: int| 0 <= j < i ==> rate_ok((#[trigger] self@.keyframes[j]).value),
            decreases self.keyframes.len() - i,
        {
            if !playable(self.keyframes[i].value) {
                assert(!rate_ok(self@.keyframes[i as int].value));
                return Some(Fault::RateKeyframe);
            }
            i += 1;
        }
        None
    }
}

impl Effect {
    fn fault(&self) -> (r: Option<Fault>)
        ensures
            r == effect_fault(self@),
    {
        let ok: (bool, Fault) = match self {
            Effect::Blur { amount } => (between(*amount, 0, 50 * UNIT), Fault::Blur),
            Effect::ChromaKey { color, angle, noise } => (
                between(*angle, UNIT, 90 * UNIT) && between(*noise, 0, 64 * UNIT),
                Fault::ChromaKey,
            ),
            Effect::Crop { left, right, top, bottom } => (
                *left >= 0 && *right >= 0 && *top >= 0 && *bottom >= 0,
                Fault::Crop,
            ),
            Effect::Eq { low, mid, high } => (
                between(*low, -24 * UNIT, 12 * UNIT) && between(*mid, -24 * UNIT, 12 * UNIT)
                    && between(*high, -24 * UNIT, 12 * UNIT),
                Fault::Eq,
            ),
            Effect::Compressor { threshold, ratio } => (
                between(*threshold, 0, UNIT) && between(*ratio, UNIT, 4 * UNIT),
                Fault::Compressor,
            ),
            Effect::Denoise { level } => (*level <= 3, Fault::Denoise),
            Effect::Color { brightness, contrast, saturation, hue } => (
                between(*brightness, -UNIT, UNIT) && between(*contrast, 0, 2 * UNIT) && between(
                    *saturation,
                    0,
                    2 * UNIT,
                ) && between(*hue, -UNIT, UNIT),
                Fault::Color,
            ),
        };
        if ok.0 {
            None
        } else {
            Some(ok.1)
        }
    }
}

impl Clip {
    fn windows_fault(&self) -> (r: Option<Fault>)
        ensures
            r == first_of(self@.animations, window_faults()),
    {
        let mut i: usize = 0;
        let ghost anims = self@.animations;
        while i < self.animations.len()
            invariant
                anims == self@.animations,
                i <= self.animations.len(),
                forall|j: int| 0 <= j < i ==> window_faults()(#[trigger] anims[j]) is None,
            decreases self.animations.len() - i,
        {
            let fault: Option<Fault> = self.animations[i].window_fault();
            assert(window_faults()(anims[i as int]) == fault);
            if fault.is_some() {
                proof {
                    lemma_first_of_at(anims, window_faults(), i as int);
                }
                return fault;
            }
            i += 1;
        }
        proof {
            lemma_first_of_none(anims, window_faults());
        }
        None
    }

    fn rates_fault(&self) -> (r: Option<Fault>)
        ensures
            r == first_of(self@.animations, rate_anim_faults()),
    {
        let mut i: usize = 0;
        let ghost anims = self@.animations;
        while i < self.animations.len()
            invariant
                anims == self@.animations,
                i <= self.animations.len(),
                forall|j: int| 0 <= j < i ==> rate_anim_faults()(#[trigger] anims[j]) is None,
            decreases self.animations.len() - i,
        {
            let fault: Option<Fault> = self.animations[i].rate_fault();
            assert(rate_anim_faults()(anims[i as int]) == fault);
            if fault.is_some() {
                proof {
                    lemma_first_of_at(anims, rate_anim_faults(), i as int);
                }
                return fault;
            }
            i += 1;
        }
        proof {
            lemma_first_of_none(anims, rate_anim_faults());
        }
        None
    }

    fn effects_fault(&self) -> (r: Option<Fault>)
        ensures
            r == first_of(self@.effects, effect_faults()),
    {
        let mut i: usize = 0;
        let ghost effects = self@.effects;
        while i < self.effects.len()
            invariant
                effects == self@.effects,
                i <= self.effects.len(),
                forall|j: int| 0 <= j < i ==> effect_faults()(#[trigger] effects[j]) is None,
            decreases self.effects.len() - i,
        {
            let fault: Option<Fault> = self.effects[i].fault();
            assert(effect_faults()(effects[i as int]) == fault);
            if fault.is_some() {
                proof {
                    lemma_first_of_at(effects, effect_faults(), i as int);
                }
                return fault;
            }
            i += 1;
        }
        proof {
            lemma_first_of_none(effects, effect_faults());
        }
        None
    }

    /// Check one clip against the document's defs.
    pub fn validate(&self, defs: &TextMap<CompDef>) -> (r: Result<(), ValidateError>)
        ensures
            match r {
                Ok(()) => clip_fault(self@, defs@) is None,
                Err(e) => clip_fault(self@, defs@) == Some(e@),
            },
            r is Ok <==> clip_ok(self@, defs@),
    {
        proof {
            law_clip_fault(self@, defs@);
        }
        if self.start < 0 || self.duration < 0 {
            return Err(ValidateError::of(Fault::ClipTime, self.id.as_str()));
        }
        if let Some(fault) = self.windows_fault() {
            return Err(ValidateError::of(fault, self.id.as_str()));
        }
        let rate: i128 = match &self.element {
            Element::Video { src, offset, volume, rate } => *rate,
            Element::Audio { src, offset, volume, rate } => *rate,
            _ => UNIT,
        };
        if !playable(rate) {
            return Err(ValidateError::of(Fault::Rate, self.id.as_str()));
        }
        if let Some(fault) = self.rates_fault() {
            return Err(ValidateError::of(fault, self.id.as_str()));
        }
        if let Some(fault) = self.effects_fault() {
            return Err(ValidateError::of(fault, self.id.as_str()));
        }
        if let Element::CompRef { def, args } = &self.element {
            if !defs.contains_key(def.as_str()) {
                return Err(
                    ValidateError {
                        fault: Fault::UnknownDef,
                        id: self.id.clone(),
                        detail: def.clone(),
                    },
                );
            }
        }
        Ok(())
    }
}

/// Two keyframes at least, each later than the one before it.
pub open spec fn keyframed(k: Seq<KeyframeView>) -> bool {
    &&& k.len() >= 2
    &&& forall|i: int, j: int| 0 <= i < j < k.len() ==> (#[trigger] k[i]).t < (#[trigger] k[j]).t
}

/// An animation can be played if it goes by keyframes in order, or ends after
/// it starts; one of the playback rate must go by keyframes, between a tenth
/// and ten times normal speed.
pub proof fn law_playable_animation(a: AnimView)
    ensures
        window_fault(a) is None <==> (if a.keyframes.len() > 0 {
            keyframed(a.keyframes)
        } else {
            a.start < a.end
        }),
        rate_anim_fault(a) is None <==> (a.property == AnimProperty::Rate ==> a.keyframes.len() > 0
            && forall|i: int|
            0 <= i < a.keyframes.len() ==> 100_000_000 <= (#[trigger] a.keyframes[i]).value
                <= 10_000_000_000),
{
}

/// The parameters that an effect can be played with.
pub open spec fn playable_effect(e: EffectView) -> bool {
    match e {
        EffectView::Blur { amount } => 0 <= amount <= 50_000_000_000,
        EffectView::ChromaKey { color, angle, noise } => 1_000_000_000 <= angle <= 90_000_000_000
            && 0 <= noise <= 64_000_000_000,
        EffectView::Crop { left, right, top, bottom } => 0 <= left && 0 <= right && 0 <= top && 0
            <= bottom,
        EffectView::Eq { low, mid, high } => -24_000_000_000 <= low <= 12_000_000_000
            && -24_000_000_000 <= mid <= 12_000_000_000 && -24_000_000_000 <= high
            <= 12_000_000_000,
        EffectView::Compressor { threshold, ratio } => 0 <= threshold <= 1_000_000_000
            && 1_000_000_000 <= ratio <= 4_000_000_000,
        EffectView::Denoise { level } => level <= 3,
        EffectView::Color { brightness, contrast, saturation, hue } => -1_000_000_000 <= brightness
            <= 1_000_000_000 && 0 <= contrast <= 2_000_000_000 && 0 <= saturation <= 2_000_000_000
            && -1_000_000_000 <= hue <= 1_000_000_000,
    }
}

/// An effect is accepted exactly with parameters that it can be played with.
pub proof fn law_playable_effect(e: EffectView)
    ensures
        effect_fault(e) is None <==> playable_effect(e),
{
}

/// A clip is accepted only if it starts at 0 or later, lasts no negative
/// time, plays media between a tenth and ten times normal speed, can play all
/// its animations and effects, and names a def that there is; and then it is.
pub proof fn law_playable_clip(c: ClipView, defs: Seq<(Seq<char>, CompDefView)>)
    ensures
        clip_ok(c, defs) <==> {
            &&& c.start >= 0
            &&& c.duration >= 0
            &&& c.element matches ElementView::Video { src, offset, volume, rate } ==> 100_000_000
                <= rate <= 10_000_000_000
            &&& c.element matches ElementView::Audio { src, offset, volume, rate } ==> 100_000_000
                <= rate <= 10_000_000_000
            &&& c.element matches ElementView::CompRef { def, args } ==> exists|i: int|
                0 <= i < defs.len() && (#[trigger] defs[i]).0 == def
            &&& forall|i: int|
                0 <= i < c.animations.len() ==> window_fault(#[trigger] c.animations[i]) is None
                    && rate_anim_fault(c.animations[i]) is None
            &&& forall|i: int| 0 <= i < c.effects.len() ==> playable_effect(#[trigger] c.effects[i])
        },
{
    if let ElementView::CompRef { def, args } = c.element {
        lemma_lookup_some(defs, def);
    }
    assert forall|i: int| 0 <= i < c.effects.len() implies (playable_effect(#[trigger] c.effects[i])
        <==> effect_fault(c.effects[i]) is None) by {
        law_playable_effect(c.effects[i]);
    }
    if clip_ok(c, defs) {
        assert forall|i: int| 0 <= i < c.effects.len() implies playable_effect(
            #[trigger] c.effects[i],
        ) by {
            assert(effect_fault(c.effects[i]) is None);
        }
    } else if forall|i: int| 0 <= i < c.effects.len() ==> playable_effect(#[trigger] c.effects[i]) {
        assert forall|i: int| 0 <= i < c.effects.len() implies effect_fault(
            #[trigger] c.effects[i],
        ) is None by {
            assert(playable_effect(c.effects[i]));
        }
    }
}

proof fn lemma_lookup_some(defs: Seq<(Seq<char>, CompDefView)>, name: Seq<char>)
    ensures
        lookup(defs, name) is Some <==> exists|i: int|
            0 <= i < defs.len() && (#[trigger] defs[i]).0 == name,
    decreases defs.len(),
{
    if defs.len() > 0 && defs[0].0 != name {
        let rest = defs.skip(1);
        lemma_lookup_some(rest, name);
        if lookup(rest, name) is Some {
            let i = choose|i: int| 0 <= i < rest.len() && (#[trigger] rest[i]).0 == name;
            assert(defs[i + 1].0 == name);
        }
        if exists|i: int| 0 <= i < defs.len() && (#[trigger] defs[i]).0 == name {
            let i = choose|i: int| 0 <= i < defs.len() && (#[trigger] defs[i]).0 == name;
            assert(rest[i - 1].0 == name);
        }
    }
}

} // verus!
