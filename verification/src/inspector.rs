//! What the inspector changes on one clip: its form, its animations and its
//! effects.

use vstd::prelude::*;
use crate::document::{Anim, AnimProperty, AnimView, Clip, ClipView, Easing, Effect, EffectView,
    Element, ElementView, Project, ProjectView, TextAlign, Transform};
use crate::fixed::{larger, max, UNIT};
use crate::timeline::{find_clip_mut, found, remove_clip, removed, spot_of, with_clip};
use crate::views::views;
use crate::words::{trim, trimmed};

verus! {

broadcast use crate::views::group_views;

/// The document with what `f` makes of the clip with the given id in place of
/// that clip; unchanged if there is none.
pub open spec fn edited(
    p: ProjectView,
    id: Seq<char>,
    f: spec_fn(ClipView) -> ClipView,
) -> ProjectView {
    match found(p, id) {
        Some(c) => with_clip(p, spot_of(p, id), f(c)),
        None => p,
    }
}

/// The part of the form that a text clip has.
#[derive(Debug)]
pub struct TextForm {
    pub text: String,
    /// Choice of alignment: 0 for none, then left, center, right.
    pub align: u32,
    pub outline: String,
    pub shadow: bool,
}

/// What the form of a clip holds. `rate` is there for video and audio clips,
/// `text` for text clips.
#[derive(Debug)]
pub struct ClipForm {
    pub start: i128,
    pub duration: i128,
    pub opacity: i128,
    pub rate: Option<i128>,
    pub text: Option<TextForm>,
}

/// The alignment that a choice stands for.
pub open spec fn align_of(choice: u32) -> Option<TextAlign> {
    if choice == 1 {
        Some(TextAlign::Left)
    } else if choice == 2 {
        Some(TextAlign::Center)
    } else if choice == 3 {
        Some(TextAlign::Right)
    } else {
        None
    }
}

/// The choice that stands for an alignment.
pub open spec fn align_index(align: Option<TextAlign>) -> u32 {
    match align {
        None => 0,
        Some(TextAlign::Left) => 1,
        Some(TextAlign::Center) => 2,
        Some(TextAlign::Right) => 3,
    }
}

/// The alignment that a choice stands for.
pub fn choose_align(choice: u32) -> (r: Option<TextAlign>)
    ensures
        r == align_of(choice),
{
    if choice == 1 {
        Some(TextAlign::Left)
    } else if choice == 2 {
        Some(TextAlign::Center)
    } else if choice == 3 {
        Some(TextAlign::Right)
    } else {
        None
    }
}

/// The choice that stands for an alignment.
pub fn align_choice(align: Option<TextAlign>) -> (r: u32)
    ensures
        r == align_index(align),
{
    match align {
        None => 0,
        Some(TextAlign::Left) => 1,
        Some(TextAlign::Center) => 2,
        Some(TextAlign::Right) => 3,
    }
}

/// An element after its form has been applied. An outline that is blank is
/// none.
pub open spec fn form_element(e: ElementView, f: ClipForm) -> ElementView {
    match e {
        ElementView::Video { src, offset, volume, rate } => match f.rate {
            Some(r) => ElementView::Video { src, offset, volume, rate: r as int },
            None => e,
        },
        ElementView::Audio { src, offset, volume, rate } => match f.rate {
            Some(r) => ElementView::Audio { src, offset, volume, rate: r as int },
            None => e,
        },
        ElementView::Text { text, font, color, align, outline, shadow } => match f.text {
            Some(t) => ElementView::Text {
                text: t.text@,
                font,
                color,
                align: align_of(t.align),
                outline: if trimmed(t.outline@).len() == 0 {
                    None
                } else {
                    Some(t.outline@)
                },
                shadow: t.shadow,
            },
            None => e,
        },
        _ => e,
    }
}

/// A clip after its form has been applied.
pub open spec fn form_clip(c: ClipView, f: ClipForm) -> ClipView {
    ClipView {
        start: f.start as int,
        duration: f.duration as int,
        transform: Transform { opacity: f.opacity, ..c.transform },
        element: form_element(c.element, f),
        ..c
    }
}

fn apply_to_element(element: &mut Element, form: &ClipForm)
    ensures
        final(element)@ == form_element(old(element)@, *form),
{
    match element {
        Element::Video { rate, .. } => {
            if let Some(r) = form.rate {
                *rate = r;
            }
        },
        Element::Audio { rate, .. } => {
            if let Some(r) = form.rate {
                *rate = r;
            }
        },
        Element::Text { text, align, outline, shadow, .. } => {
            if let Some(t) = &form.text {
                *text = t.text.clone();
                *align = choose_align(t.align);
                *outline = if trim(t.outline.as_str()).as_str().is_empty() {
                    None
                } else {
                    Some(t.outline.clone())
                };
                *shadow = t.shadow;
            }
        },
        _ => {},
    }
}

/// Apply the form of a clip.
pub fn apply_form(project: &mut Project, id: &str, form: &ClipForm)
    ensures
        final(project)@ == edited(old(project)@, id@, |c: ClipView| form_clip(c, *form)),
{
    if let Some(clip) = find_clip_mut(project, id) {
        clip.start = form.start;
        clip.duration = form.duration;
        clip.transform.opacity = form.opacity;
        apply_to_element(&mut clip.element, form);
    }
}

/// The property that a choice stands for: x, y, width, height, opacity, and
/// volume for all others.
pub open spec fn property_of(choice: u32) -> AnimProperty {
    if choice == 0 {
        AnimProperty::X
    } else if choice == 1 {
        AnimProperty::Y
    } else if choice == 2 {
        AnimProperty::Width
    } else if choice == 3 {
        AnimProperty::Height
    } else if choice == 4 {
        AnimProperty::Opacity
    } else {
        AnimProperty::Volume
    }
}

/// The property that a choice stands for.
pub fn choose_property(choice: u32) -> (r: AnimProperty)
    ensures
        r == property_of(choice),
{
    match choice {
        0 => AnimProperty::X,
        1 => AnimProperty::Y,
        2 => AnimProperty::Width,
        3 => AnimProperty::Height,
        4 => AnimProperty::Opacity,
        _ => AnimProperty::Volume,
    }
}

/// The choice that stands for a property; rate, which cannot be chosen, is
/// shown as volume.
pub fn property_choice(property: AnimProperty) -> (r: u32)
    ensures
        r <= 5,
        property != AnimProperty::Rate ==> property_of(r) == property,
        property == AnimProperty::Rate ==> r == 5,
{
    match property {
        AnimProperty::X => 0,
        AnimProperty::Y => 1,
        AnimProperty::Width => 2,
        AnimProperty::Height => 3,
        AnimProperty::Opacity => 4,
        AnimProperty::Volume => 5,
        AnimProperty::Rate => 5,
    }
}

/// The easing that a choice stands for: ease in, out, in and out, and linear
/// for all others.
pub open spec fn easing_of(choice: u32) -> Easing {
    if choice == 1 {
        Easing::EaseIn
    } else if choice == 2 {
        Easing::EaseOut
    } else if choice == 3 {
        Easing::EaseInOut
    } else {
        Easing::Linear
    }
}

/// The easing that a choice stands for.
pub fn choose_easing(choice: u32) -> (r: Easing)
    ensures
        r == easing_of(choice),
{
    match choice {
        1 => Easing::EaseIn,
        2 => Easing::EaseOut,
        3 => Easing::EaseInOut,
        _ => Easing::Linear,
    }
}

/// The choice that stands for an easing.
pub fn easing_choice(easing: Easing) -> (r: u32)
    ensures
        r <= 3,
        easing_of(r) == easing,
{
    match easing {
        Easing::Linear => 0,
        Easing::EaseIn => 1,
        Easing::EaseOut => 2,
        Easing::EaseInOut => 3,
    }
}

/// A change to one field of an animation.
#[derive(Debug, Clone, Copy)]
pub enum AnimChange {
    Property(AnimProperty),
    From(i128),
    To(i128),
    Start(i128),
    End(i128),
    Easing(Easing),
}

pub open spec fn changed_anim(a: AnimView, change: AnimChange) -> AnimView {
    match change {
        AnimChange::Property(property) => AnimView { property, ..a },
        AnimChange::From(v) => AnimView { from: v as int, ..a },
        AnimChange::To(v) => AnimView { to: v as int, ..a },
        AnimChange::Start(v) => AnimView { start: v as int, ..a },
        AnimChange::End(v) => AnimView { end: v as int, ..a },
        AnimChange::Easing(easing) => AnimView { easing, ..a },
    }
}

pub open spec fn with_anim_change(c: ClipView, i: int, change: AnimChange) -> ClipView {
    if 0 <= i < c.animations.len() {
        ClipView { animations: c.animations.update(i, changed_anim(c.animations[i], change)), ..c }
    } else {
        c
    }
}

/// Change one field of animation `i` of a clip.
pub fn change_anim(project: &mut Project, id: &str, i: usize, change: AnimChange)
    ensures
        final(project)@ == edited(
            old(project)@,
            id@,
            |c: ClipView| with_anim_change(c, i as int, change),
        ),
{
    if let Some(clip) = find_clip_mut(project, id) {
        if i < clip.animations.len() {
            let mut anim: Anim = clip.animations[i].clone();
            match change {
                AnimChange::Property(property) => {
                    anim.property = property;
                },
                AnimChange::From(v) => {
                    anim.from = v;
                },
                AnimChange::To(v) => {
                    anim.to = v;
                },
                AnimChange::Start(v) => {
                    anim.start = v;
                },
                AnimChange::End(v) => {
                    anim.end = v;
                },
                AnimChange::Easing(easing) => {
                    anim.easing = easing;
                },
            }
            clip.animations.set(i, anim);
        }
    }
}

pub open spec fn without_anim(c: ClipView, i: int) -> ClipView {
    if 0 <= i < c.animations.len() {
        ClipView { animations: c.animations.remove(i), ..c }
    } else {
        c
    }
}

/// Remove animation `i` of a clip.
pub fn remove_anim(project: &mut Project, id: &str, i: usize)
    ensures
        final(project)@ == edited(old(project)@, id@, |c: ClipView| without_anim(c, i as int)),
{
    if let Some(clip) = find_clip_mut(project, id) {
        if i < clip.animations.len() {
            clip.animations.remove(i);
        }
    }
}

/// A ready-made animation.
#[derive(Debug, Clone, Copy, PartialEq, Eq, Structural)]
pub enum AnimPreset {
    FadeIn,
    FadeOut,
    SlideIn,
    AudioIn,
    AudioOut,
}

pub open spec fn tween(
    property: AnimProperty,
    from: int,
    to: int,
    start: int,
    end: int,
    easing: Easing,
) -> AnimView {
    AnimView { property, from, to, start, end, easing, keyframes: Seq::empty() }
}

/// The ready-made animation for a clip: fades of half a second, a slide from
/// the left, sound fades of one second.
pub open spec fn preset_anim(c: ClipView, preset: AnimPreset) -> AnimView {
    match preset {
        AnimPreset::FadeIn => tween(
            AnimProperty::Opacity,
            0,
            UNIT as int,
            0,
            500_000_000,
            Easing::EaseOut,
        ),
        AnimPreset::FadeOut => tween(
            AnimProperty::Opacity,
            UNIT as int,
            0,
            max(c.duration - 500_000_000, 0),
            max(c.duration, 500_000_000),
            Easing::EaseIn,
        ),
        AnimPreset::SlideIn => tween(
            AnimProperty::X,
            c.transform.x - 300 * UNIT,
            c.transform.x as int,
            0,
            600_000_000,
            Easing::EaseOut,
        ),
        AnimPreset::AudioIn => tween(
            AnimProperty::Volume,
            0,
            UNIT as int,
            0,
            UNIT as int,
            Easing::EaseOut,
        ),
        AnimPreset::AudioOut => tween(
            AnimProperty::Volume,
            UNIT as int,
            0,
            max(c.duration - UNIT, 0),
            max(c.duration, UNIT as int),
            Easing::EaseIn,
        ),
    }
}

fn make_tween(
    property: AnimProperty,
    from: i128,
    to: i128,
    start: i128,
    end: i128,
    easing: Easing,
) -> (r: Anim)
    ensures
        r@ == tween(property, from as int, to as int, start as int, end as int, easing),
{
    let a: Anim = Anim { property, from, to, start, end, easing, keyframes: Vec::new() };
    assert(a@.keyframes =~= Seq::empty());
    a
}

pub open spec fn with_preset(c: ClipView, preset: AnimPreset) -> ClipView {
    ClipView { animations: c.animations.push(preset_anim(c, preset)), ..c }
}

/// Add a ready-made animation to a clip.
pub fn add_anim_preset(project: &mut Project, id: &str, preset: AnimPreset)
    requires
        match found(old(project)@, id@) {
            Some(c) => c.fits(16),
            None => true,
        },
    ensures
        final(project)@ == edited(old(project)@, id@, |c: ClipView| with_preset(c, preset)),
{
    if let Some(clip) = find_clip_mut(project, id) {
        let d: i128 = clip.duration;
        let anim: Anim = match preset {
            AnimPreset::FadeIn => make_tween(
                AnimProperty::Opacity,
                0,
                UNIT,
                0,
                500_000_000,
                Easing::EaseOut,
            ),
            AnimPreset::FadeOut => make_tween(
                AnimProperty::Opacity,
                UNIT,
                0,
                larger(d - 500_000_000, 0),
                larger(d, 500_000_000),
                Easing::EaseIn,
            ),
            AnimPreset::SlideIn => make_tween(
                AnimProperty::X,
                clip.transform.x - 300 * UNIT,
                clip.transform.x,
                0,
                600_000_000,
                Easing::EaseOut,
            ),
            AnimPreset::AudioIn => make_tween(AnimProperty::Volume, 0, UNIT, 0, UNIT, Easing::EaseOut),
            AnimPreset::AudioOut => make_tween(
                AnimProperty::Volume,
                UNIT,
                0,
                larger(d - UNIT, 0),
                larger(d, UNIT),
                Easing::EaseIn,
            ),
        };
        clip.animations.push(anim);
    }
}

/// Whether the inspector offers the sound fades for a clip.
pub fn has_sound(clip: &Clip) -> (r: bool)
    ensures
        r == (clip@.element is Video || clip@.element is Audio),
{
    match &clip.element {
        Element::Video { .. } => true,
        Element::Audio { .. } => true,
        _ => false,
    }
}

/// The effects that can be added.
#[derive(Debug, Clone, Copy, PartialEq, Eq, Structural)]
pub enum EffectKind {
    Blur,
    Color,
    ChromaKey,
    Crop,
    Eq,
    Compressor,
    Denoise,
}

/// An effect as it is added.
pub open spec fn fresh_effect(kind: EffectKind) -> EffectView {
    match kind {
        EffectKind::Blur => EffectView::Blur { amount: 4 * UNIT },
        EffectKind::Color => EffectView::Color {
            brightness: 0,
            contrast: UNIT as int,
            saturation: UNIT as int,
            hue: 0,
        },
        EffectKind::ChromaKey => EffectView::ChromaKey {
            color: "#00ff00"@,
            angle: 20 * UNIT,
            noise: 2 * UNIT,
        },
        EffectKind::Crop => EffectView::Crop { left: 0, right: 0, top: 0, bottom: 0 },
        EffectKind::Eq => EffectView::Eq { low: 0, mid: 0, high: 0 },
        EffectKind::Compressor => EffectView::Compressor {
            threshold: 250_000_000,
            ratio: 2 * UNIT,
        },
        EffectKind::Denoise => EffectView::Denoise { level: 1 },
    }
}

/// An effect as it is added.
pub fn new_effect(kind: EffectKind) -> (r: Effect)
    ensures
        r@ == fresh_effect(kind),
{
    match kind {
        EffectKind::Blur => Effect::Blur { amount: 4 * UNIT },
        EffectKind::Color => Effect::Color {
            brightness: 0,
            contrast: UNIT,
            saturation: UNIT,
            hue: 0,
        },
        EffectKind::ChromaKey => Effect::ChromaKey {
            color: "#00ff00".to_owned(),
            angle: 20 * UNIT,
            noise: 2 * UNIT,
        },
        EffectKind::Crop => Effect::Crop { left: 0, right: 0, top: 0, bottom: 0 },
        EffectKind::Eq => Effect::Eq { low: 0, mid: 0, high: 0 },
        EffectKind::Compressor => Effect::Compressor { threshold: 250_000_000, ratio: 2 * UNIT },
        EffectKind::Denoise => Effect::Denoise { level: 1 },
    }
}

/// Add an effect to a clip, after those that it has.
pub fn add_effect(project: &mut Project, id: &str, kind: EffectKind)
    ensures
        final(project)@ == edited(
            old(project)@,
            id@,
            |c: ClipView| ClipView { effects: c.effects.push(fresh_effect(kind)), ..c },
        ),
{
    if let Some(clip) = find_clip_mut(project, id) {
        clip.effects.push(new_effect(kind));
    }
}

pub open spec fn without_effect(c: ClipView, i: int) -> ClipView {
    if 0 <= i < c.effects.len() {
        ClipView { effects: c.effects.remove(i), ..c }
    } else {
        c
    }
}

/// Remove effect `i` of a clip.
pub fn remove_effect(project: &mut Project, id: &str, i: usize)
    ensures
        final(project)@ == edited(old(project)@, id@, |c: ClipView| without_effect(c, i as int)),
{
    if let Some(clip) = find_clip_mut(project, id) {
        if i < clip.effects.len() {
            clip.effects.remove(i);
        }
    }
}

/// A change to one parameter of an effect.
#[derive(Debug)]
pub enum EffectChange {
    BlurAmount(i128),
    KeyColor(String),
    KeyAngle(i128),
    KeyNoise(i128),
    CropLeft(i32),
    CropRight(i32),
    CropTop(i32),
    CropBottom(i32),
    EqLow(i128),
    EqMid(i128),
    EqHigh(i128),
    DenoiseLevel(u32),
    CompressorThreshold(i128),
    CompressorRatio(i128),
    Brightness(i128),
    Contrast(i128),
    Saturation(i128),
    Hue(i128),
}

/// An effect after one parameter has been changed; an effect of another sort
/// stays as it is.
pub open spec fn changed_effect(e: EffectView, change: EffectChange) -> EffectView {
    match e {
        EffectView::Blur { amount } => match change {
            EffectChange::BlurAmount(v) => EffectView::Blur { amount: v as int },
            _ => e,
        },
        EffectView::ChromaKey { color, angle, noise } => match change {
            EffectChange::KeyColor(s) => EffectView::ChromaKey { color: s@, angle, noise },
            EffectChange::KeyAngle(v) => EffectView::ChromaKey { color, angle: v as int, noise },
            EffectChange::KeyNoise(v) => EffectView::ChromaKey { color, angle, noise: v as int },
            _ => e,
        },
        EffectView::Crop { left, right, top, bottom } => match change {
            EffectChange::CropLeft(v) => EffectView::Crop { left: v as int, right, top, bottom },
            EffectChange::CropRight(v) => EffectView::Crop { left, right: v as int, top, bottom },
            EffectChange::CropTop(v) => EffectView::Crop { left, right, top: v as int, bottom },
            EffectChange::CropBottom(v) => EffectView::Crop { left, right, top, bottom: v as int },
            _ => e,
        },
        EffectView::Eq { low, mid, high } => match change {
            EffectChange::EqLow(v) => EffectView::Eq { low: v as int, mid, high },
            EffectChange::EqMid(v) => EffectView::Eq { low, mid: v as int, high },
            EffectChange::EqHigh(v) => EffectView::Eq { low, mid, high: v as int },
            _ => e,
        },
        EffectView::Compressor { threshold, ratio } => match change {
            EffectChange::CompressorThreshold(v) => EffectView::Compressor {
                threshold: v as int,
                ratio,
            },
            EffectChange::CompressorRatio(v) => EffectView::Compressor {
                threshold,
                ratio: v as int,
            },
            _ => e,
        },
        EffectView::Denoise { level } => match change {
            EffectChange::DenoiseLevel(v) => EffectView::Denoise { level: v as int },
            _ => e,
        },
        EffectView::Color { brightness, contrast, saturation, hue } => match change {
            EffectChange::Brightness(v) => EffectView::Color {
                brightness: v as int,
                contrast,
                saturation,
                hue,
            },
            EffectChange::Contrast(v) => EffectView::Color {
                brightness,
                contrast: v as int,
                saturation,
                hue,
            },
            EffectChange::Saturation(v) => EffectView::Color {
                brightness,
                contrast,
                saturation: v as int,
                hue,
            },
            EffectChange::Hue(v) => EffectView::Color {
                brightness,
                contrast,
                saturation,
                hue: v as int,
            },
            _ => e,
        },
    }
}

fn apply_to_effect(effect: &mut Effect, change: &EffectChange)
    ensures
        final(effect)@ == changed_effect(old(effect)@, *change),
{
    match effect {
        Effect::Blur { amount } => {
            if let EffectChange::BlurAmount(v) = change {
                *amount = *v;
            }
        },
        Effect::ChromaKey { color, angle, noise } => match change {
            EffectChange::KeyColor(s) => {
                *color = s.clone();
            },
            EffectChange::KeyAngle(v) => {
                *angle = *v;
            },
            EffectChange::KeyNoise(v) => {
                *noise = *v;
            },
            _ => {},
        },
        Effect::Crop { left, right, top, bottom } => match change {
            EffectChange::CropLeft(v) => {
                *left = *v;
            },
            EffectChange::CropRight(v) => {
                *right = *v;
            },
            EffectChange::CropTop(v) => {
                *top = *v;
            },
            EffectChange::CropBottom(v) => {
                *bottom = *v;
            },
            _ => {},
        },
        Effect::Eq { low, mid, high } => match change {
            EffectChange::EqLow(v) => {
                *low = *v;
            },
            EffectChange::EqMid(v) => {
                *mid = *v;
            },
            EffectChange::EqHigh(v) => {
                *high = *v;
            },
            _ => {},
        },
        Effect::Compressor { threshold, ratio } => match change {
            EffectChange::CompressorThreshold(v) => {
                *threshold = *v;
            },
            EffectChange::CompressorRatio(v) => {
                *ratio = *v;
            },
            _ => {},
        },
        Effect::Denoise { level } => {
            if let EffectChange::DenoiseLevel(v) = change {
                *level = *v;
            }
        },
        Effect::Color { brightness, contrast, saturation, hue } => match change {
            EffectChange::Brightness(v) => {
                *brightness = *v;
            },
            EffectChange::Contrast(v) => {
                *contrast = *v;
            },
            EffectChange::Saturation(v) => {
                *saturation = *v;
            },
            EffectChange::Hue(v) => {
                *hue = *v;
            },
            _ => {},
        },
    }
}

pub open spec fn with_effect_change(c: ClipView, i: int, change: EffectChange) -> ClipView {
    if 0 <= i < c.effects.len() {
        ClipView { effects: c.effects.update(i, changed_effect(c.effects[i], change)), ..c }
    } else {
        c
    }
}

/// Change one parameter of effect `i` of a clip.
pub fn change_effect(project: &mut Project, id: &str, i: usize, change: &EffectChange)
    ensures
        final(project)@ == edited(
            old(project)@,
            id@,
            |c: ClipView| with_effect_change(c, i as int, *change),
        ),
{
    if let Some(clip) = find_clip_mut(project, id) {
        if i < clip.effects.len() {
            let mut effect: Effect = clip.effects[i].clone();
            apply_to_effect(&mut effect, change);
            clip.effects.set(i, effect);
        }
    }
}

/// The document without the first `n` of the given clips.
pub open spec fn without_clips(p: ProjectView, ids: Seq<Seq<char>>, n: int) -> ProjectView
    decreases n,
{
    if n <= 0 {
        p
    } else {
        removed(without_clips(p, ids, n - 1), ids[n - 1])
    }
}

/// Delete the given clips.
pub fn delete_clips(project: &mut Project, ids: &Vec<String>)
    ensures
        final(project)@ == without_clips(old(project)@, views(ids@), ids@.len() as int),
{
    let ghost before = project@;
    let mut i: usize = 0;
    while i < ids.len()
        invariant
            i <= ids.len(),
            project@ == without_clips(before, views(ids@), i as int),
        decreases ids.len() - i,
    {
        remove_clip(project, ids[i].as_str());
        i += 1;
    }
}

/// Every alignment has a choice, which stands for it; a choice that stands
/// for none is that of no alignment.
pub proof fn law_alignment_choice(align: Option<TextAlign>, choice: u32)
    ensures
        align_of(align_index(align)) == align,
        align_index(align_of(choice)) == choice || align_of(choice) is None,
        align is None <==> align_index(align) == 0,
{
}

/// A ready-made animation ends where the clip stands and how it is heard: a
/// fade-in goes from nothing to all in the first half second, a fade-out from
/// all to nothing in the clip's last half second, a slide comes in over 0.6
/// seconds from 300 pixels left of the clip's place, and sound fades over the
/// first and the last second.
pub proof fn law_presets(c: ClipView, preset: AnimPreset)
    ensures
        ({
            let a = preset_anim(c, preset);
            &&& a.keyframes.len() == 0
            &&& with_preset(c, preset).animations == c.animations.push(a)
            &&& match preset {
                AnimPreset::FadeIn => a.property == AnimProperty::Opacity && a.from == 0 && a.to
                    == 1_000_000_000 && a.start == 0 && a.end == 500_000_000 && a.easing
                    == Easing::EaseOut,
                AnimPreset::FadeOut => a.property == AnimProperty::Opacity && a.from
                    == 1_000_000_000 && a.to == 0 && a.end - a.start == 500_000_000
                    && a.easing == Easing::EaseIn && (c.duration >= 500_000_000 ==> a.end
                    == c.duration) && a.start >= 0,
                AnimPreset::SlideIn => a.property == AnimProperty::X && a.to == c.transform.x
                    && a.to - a.from == 300_000_000_000 && a.start == 0 && a.end == 600_000_000
                    && a.easing == Easing::EaseOut,
                AnimPreset::AudioIn => a.property == AnimProperty::Volume && a.from == 0 && a.to
                    == 1_000_000_000 && a.start == 0 && a.end == 1_000_000_000 && a.easing
                    == Easing::EaseOut,
                AnimPreset::AudioOut => a.property == AnimProperty::Volume && a.from
                    == 1_000_000_000 && a.to == 0 && a.end - a.start == 1_000_000_000 && a.easing
                    == Easing::EaseIn && (c.duration >= 1_000_000_000 ==> a.end == c.duration)
                    && a.start >= 0,
            }
        }),
{
}

/// A form sets start, length, opacity, and the rate of media or the wording
/// of a text; where the clip stands, its media, its animations and effects
/// stay.
pub proof fn law_form(c: ClipView, f: ClipForm)
    ensures
        ({
            let r = form_clip(c, f);
            &&& r.id == c.id && r.start == f.start && r.duration == f.duration
            &&& r.transform.opacity == f.opacity
            &&& r.transform.x == c.transform.x && r.transform.y == c.transform.y
            &&& r.transform.width == c.transform.width && r.transform.height == c.transform.height
            &&& r.animations == c.animations && r.effects == c.effects
            &&& c.element matches ElementView::Video { src, offset, volume, rate } ==> r.element
                == (ElementView::Video {
                src,
                offset,
                volume,
                rate: if f.rate is Some {
                    f.rate->0 as int
                } else {
                    rate
                },
            })
            &&& c.element matches ElementView::Audio { src, offset, volume, rate } ==> r.element
                == (ElementView::Audio {
                src,
                offset,
                volume,
                rate: if f.rate is Some {
                    f.rate->0 as int
                } else {
                    rate
                },
            })
            &&& c.element is Text && f.text is Some ==> {
                &&& r.element is Text
                &&& r.element->Text_text == f.text->0.text@
                &&& r.element->Text_font == c.element->Text_font
                &&& r.element->Text_color == c.element->Text_color
                &&& r.element->Text_shadow == f.text->0.shadow
                &&& r.element->Text_align == align_of(f.text->0.align)
                &&& r.element->Text_outline is None <==> trimmed(f.text->0.outline@).len() == 0
                &&& r.element->Text_outline is Some ==> r.element->Text_outline->0
                    == f.text->0.outline@
            }
            &&& c.element is Text && f.text is None ==> r.element == c.element
            &&& c.element is Image || c.element is Shape || c.element is CompRef || c.element is Test
                ==> r.element == c.element
        }),
{
}

/// A change to an animation sets one of its values and leaves the others, its
/// keyframes among them.
pub proof fn law_changed_anim(a: AnimView, change: AnimChange)
    ensures
        ({
            let r = changed_anim(a, change);
            &&& r.keyframes == a.keyframes
            &&& r.property == (match change {
                AnimChange::Property(v) => v,
                _ => a.property,
            })
            &&& r.from == (match change {
                AnimChange::From(v) => v as int,
                _ => a.from,
            })
            &&& r.to == (match change {
                AnimChange::To(v) => v as int,
                _ => a.to,
            })
            &&& r.start == (match change {
                AnimChange::Start(v) => v as int,
                _ => a.start,
            })
            &&& r.end == (match change {
                AnimChange::End(v) => v as int,
                _ => a.end,
            })
            &&& r.easing == (match change {
                AnimChange::Easing(v) => v,
                _ => a.easing,
            })
        }),
{
}

/// Deleting clips leaves none of them, and every other clip where it was.
pub proof fn law_without_clips(p: ProjectView, ids: Seq<Seq<char>>, n: int, s: int)
    requires
        0 <= n <= ids.len(),
        0 <= s < p.scenes.len(),
    ensures
        without_clips(p, ids, n).scenes.len() == p.scenes.len(),
        forall|c: ClipView|
            without_clips(p, ids, n).scenes[s].layers.contains(c) <==> p.scenes[s].layers.contains(c)
                && forall|k: int| 0 <= k < n ==> c.id != #[trigger] ids[k],
    decreases n,
{
    if n > 0 {
        law_without_clips(p, ids, n - 1, s);
        let q = without_clips(p, ids, n - 1);
        crate::timeline::law_removed_keeps_others(q, ids[n - 1]);
        let layers = q.scenes[s].layers;
        let keep = |c: ClipView| c.id != ids[n - 1];
        assert(without_clips(p, ids, n).scenes[s].layers == layers.filter(keep));
        assert forall|c: ClipView| layers.filter(keep).contains(c) <==> layers.contains(c)
            && c.id != ids[n - 1] by {
            if layers.filter(keep).contains(c) {
                let f = layers.filter(keep);
                let i = choose|i: int| 0 <= i < f.len() && f[i] == c;
                layers.lemma_filter_pred(keep, i);
                layers.lemma_filter_contains_rev(keep, c);
            }
            if layers.contains(c) && c.id != ids[n - 1] {
                let i = choose|i: int| 0 <= i < layers.len() && layers[i] == c;
                layers.lemma_filter_contains(keep, i);
            }
        }
    }
}

/// A change to an effect sets the parameter that it names and leaves the
/// others; on an effect of another sort it changes nothing.
pub proof fn law_changed_effect(e: EffectView, change: EffectChange)
    ensures
        match (e, changed_effect(e, change)) {
            (EffectView::Blur { amount }, EffectView::Blur { amount: a }) => a == (match change {
                EffectChange::BlurAmount(v) => v as int,
                _ => amount,
            }),
            (
                EffectView::ChromaKey { color, angle, noise },
                EffectView::ChromaKey { color: c, angle: a, noise: n },
            ) => {
                &&& c == (match change {
                    EffectChange::KeyColor(s) => s@,
                    _ => color,
                })
                &&& a == (match change {
                    EffectChange::KeyAngle(v) => v as int,
                    _ => angle,
                })
                &&& n == (match change {
                    EffectChange::KeyNoise(v) => v as int,
                    _ => noise,
                })
            },
            (
                EffectView::Crop { left, right, top, bottom },
                EffectView::Crop { left: l, right: r, top: t, bottom: b },
            ) => {
                &&& l == (match change {
                    EffectChange::CropLeft(v) => v as int,
                    _ => left,
                })
                &&& r == (match change {
                    EffectChange::CropRight(v) => v as int,
                    _ => right,
                })
                &&& t == (match change {
                    EffectChange::CropTop(v) => v as int,
                    _ => top,
                })
                &&& b == (match change {
                    EffectChange::CropBottom(v) => v as int,
                    _ => bottom,
                })
            },
            (EffectView::Eq { low, mid, high }, EffectView::Eq { low: l, mid: m, high: h }) => {
                &&& l == (match change {
                    EffectChange::EqLow(v) => v as int,
                    _ => low,
                })
                &&& m == (match change {
                    EffectChange::EqMid(v) => v as int,
                    _ => mid,
                })
                &&& h == (match change {
                    EffectChange::EqHigh(v) => v as int,
                    _ => high,
                })
            },
            (
                EffectView::Compressor { threshold, ratio },
                EffectView::Compressor { threshold: t, ratio: r },
            ) => {
                &&& t == (match change {
                    EffectChange::CompressorThreshold(v) => v as int,
                    _ => threshold,
                })
                &&& r == (match change {
                    EffectChange::CompressorRatio(v) => v as int,
                    _ => ratio,
                })
            },
            (EffectView::Denoise { level }, EffectView::Denoise { level: l }) => l == (match change {
                EffectChange::DenoiseLevel(v) => v as int,
                _ => level,
            }),
            (
                EffectView::Color { brightness, contrast, saturation, hue },
                EffectView::Color { brightness: b, contrast: c, saturation: s, hue: h },
            ) => {
                &&& b == (match change {
                    EffectChange::Brightness(v) => v as int,
                    _ => brightness,
                })
                &&& c == (match change {
                    EffectChange::Contrast(v) => v as int,
                    _ => contrast,
                })
                &&& s == (match change {
                    EffectChange::Saturation(v) => v as int,
                    _ => saturation,
                })
                &&& h == (match change {
                    EffectChange::Hue(v) => v as int,
                    _ => hue,
                })
            },
            _ => false,
        },
{
}

/// Changing or removing one animation or effect of a clip leaves its others,
/// and everything else of the clip; a number that the clip has none of
/// changes nothing.
pub proof fn law_one_of_many(
    c: ClipView,
    i: int,
    change: AnimChange,
    effect: EffectChange,
    j: int,
)
    ensures
        ({
            let a = with_anim_change(c, i, change);
            let b = with_effect_change(c, i, effect);
            &&& a == (ClipView { animations: a.animations, ..c })
            &&& b == (ClipView { effects: b.effects, ..c })
            &&& a.animations.len() == c.animations.len() && b.effects.len() == c.effects.len()
            &&& 0 <= i < c.animations.len() ==> a.animations[i] == changed_anim(
                c.animations[i],
                change,
            )
            &&& 0 <= i < c.effects.len() ==> b.effects[i] == changed_effect(c.effects[i], effect)
            &&& 0 <= j < c.animations.len() && j != i ==> a.animations[j] == c.animations[j]
            &&& 0 <= j < c.effects.len() && j != i ==> b.effects[j] == c.effects[j]
        }),
        ({
            let a = without_anim(c, i);
            let b = without_effect(c, i);
            &&& a == (ClipView { animations: a.animations, ..c })
            &&& b == (ClipView { effects: b.effects, ..c })
            &&& !(0 <= i < c.animations.len()) ==> a == c
            &&& !(0 <= i < c.effects.len()) ==> b == c
            &&& 0 <= i < c.animations.len() ==> a.animations.len() == c.animations.len() - 1
            &&& 0 <= i < c.effects.len() ==> b.effects.len() == c.effects.len() - 1
            &&& 0 <= i < c.animations.len() && 0 <= j < c.animations.len() - 1
                ==> a.animations[j] == c.animations[if j < i {
                j
            } else {
                j + 1
            }]
            &&& 0 <= i < c.effects.len() && 0 <= j < c.effects.len() - 1 ==> b.effects[j]
                == c.effects[if j < i {
                j
            } else {
                j + 1
            }]
        }),
{
}

} // verus!
