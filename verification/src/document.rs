//! The document: scenes are the sequential narrative spine, overlays span
//! scene cuts, defs are reusable parameterised compositions. This document is
//! what the editor, in-app scripts and external agents edit.

use vstd::prelude::*;
use crate::fixed::{in_range, within, LIMIT, UNIT};
use crate::textmap::TextMap;
use crate::views::views;

verus! {

broadcast use crate::views::group_views;

/// The view of an optional text.
pub open spec fn opt_text(t: Option<String>) -> Option<Seq<char>> {
    match t {
        Some(s) => Some(s@),
        None => None,
    }
}

/// Lock/hide/mute state of one timeline lane. Hide and mute are applied when
/// the document is compiled, without touching the clips; lock concerns the
/// editor alone.
#[derive(Debug, Clone, Copy, PartialEq, Eq, Structural)]
pub struct LaneMeta {
    pub locked: bool,
    pub muted: bool,
    pub hidden: bool,
}

impl Default for LaneMeta {
    fn default() -> (r: Self)
        ensures
            r == (LaneMeta { locked: false, muted: false, hidden: false }),
    {
        LaneMeta { locked: false, muted: false, hidden: false }
    }
}

#[derive(Debug, Clone, Copy, PartialEq, Eq, Structural)]
pub enum TransitionKind {
    Crossfade,
    WipeLr,
    WipeTb,
    BoxWipe,
    Iris,
    Clock,
}

impl Default for TransitionKind {
    fn default() -> (r: Self)
        ensures
            r == TransitionKind::Crossfade,
    {
        TransitionKind::Crossfade
    }
}

#[derive(Debug, Clone, Copy, PartialEq, Eq, Structural)]
pub enum ShapeKind {
    Rect,
    Circle,
    Ellipse,
    Star,
    Polygon,
    Line,
    Arrow,
}

#[derive(Debug, Clone, Copy, PartialEq, Eq, Structural)]
pub enum TextAlign {
    Left,
    Center,
    Right,
}

#[derive(Debug, Clone, Copy, PartialEq, Eq, Structural)]
pub enum AnimProperty {
    X,
    Y,
    Width,
    Height,
    Opacity,
    /// Audio volume (0 silent, one unit unity). Audio/video clips only.
    Volume,
    /// Playback speed multiplier; only keyframed curves can be played, as a
    /// run of clips with a constant rate each.
    Rate,
}

#[derive(Debug, Clone, Copy, PartialEq, Eq, Structural)]
pub enum Easing {
    Linear,
    EaseIn,
    EaseOut,
    EaseInOut,
}

impl Default for Easing {
    fn default() -> (r: Self)
        ensures
            r == Easing::Linear,
    {
        Easing::Linear
    }
}

/// Transition from the previous scene; `duration` is the overlap with it.
#[derive(Debug, Clone, Copy, PartialEq, Eq, Structural)]
pub struct Transition {
    pub kind: TransitionKind,
    pub duration: i128,
}

/// Position/size in composition pixels; opacity 0..1. A width or height of 0
/// means the natural size.
#[derive(Debug, Clone, Copy, PartialEq, Eq, Structural)]
pub struct Transform {
    pub x: i128,
    pub y: i128,
    pub width: i128,
    pub height: i128,
    pub opacity: i128,
}

impl Transform {
    pub open spec fn plain() -> Transform {
        Transform { x: 0, y: 0, width: 0, height: 0, opacity: UNIT }
    }

    pub open spec fn fits(self, n: int) -> bool {
        &&& within(self.x as int, n)
        &&& within(self.y as int, n)
        &&& within(self.width as int, n)
        &&& within(self.height as int, n)
        &&& within(self.opacity as int, n)
    }
}

impl Default for Transform {
    fn default() -> (r: Self)
        ensures
            r == Transform::plain(),
    {
        Transform { x: 0, y: 0, width: 0, height: 0, opacity: UNIT }
    }
}

/// A single keyframe: property value at time `t`, eased from the previous
/// keyframe with `easing`.
#[derive(Debug, Clone, Copy, PartialEq, Eq, Structural)]
pub struct Keyframe {
    pub t: i128,
    pub value: i128,
    pub easing: Easing,
}

#[verifier::ext_equal]
pub struct KeyframeView {
    pub t: int,
    pub value: int,
    pub easing: Easing,
}

impl View for Keyframe {
    type V = KeyframeView;

    open spec fn view(&self) -> KeyframeView {
        KeyframeView { t: self.t as int, value: self.value as int, easing: self.easing }
    }
}

/// Animation for one property: either a tween window (`from`/`to` over
/// `start`..`end`, seconds relative to the clip) or an explicit `keyframes`
/// list. Keyframes win when both are present.
#[derive(Debug)]
pub struct Anim {
    pub property: AnimProperty,
    pub from: i128,
    pub to: i128,
    pub start: i128,
    pub end: i128,
    pub easing: Easing,
    pub keyframes: Vec<Keyframe>,
}

#[verifier::ext_equal]
pub struct AnimView {
    pub property: AnimProperty,
    pub from: int,
    pub to: int,
    pub start: int,
    pub end: int,
    pub easing: Easing,
    pub keyframes: Seq<KeyframeView>,
}

impl View for Anim {
    type V = AnimView;

    open spec fn view(&self) -> AnimView {
        AnimView {
            property: self.property,
            from: self.from as int,
            to: self.to as int,
            start: self.start as int,
            end: self.end as int,
            easing: self.easing,
            keyframes: views(self.keyframes@),
        }
    }
}

impl AnimView {
    pub open spec fn fits(self, n: int) -> bool {
        &&& within(self.from, n)
        &&& within(self.to, n)
        &&& within(self.start, n)
        &&& within(self.end, n)
        &&& forall|i: int|
            0 <= i < self.keyframes.len() ==> within((#[trigger] self.keyframes[i]).t, n) && within(
                self.keyframes[i].value,
                n,
            )
    }
}

impl Clone for Anim {
    fn clone(&self) -> (r: Self)
        ensures
            r@ == self@,
    {
        let keyframes: Vec<Keyframe> = self.keyframes.clone();
        assert(views(keyframes@) =~= views(self.keyframes@));
        Anim {
            property: self.property,
            from: self.from,
            to: self.to,
            start: self.start,
            end: self.end,
            easing: self.easing,
            keyframes,
        }
    }
}

/// An effect on one clip.
#[derive(Debug)]
pub enum Effect {
    /// Gaussian blur; `amount` is the blur sigma (0-50, ~3 is subtle).
    Blur { amount: i128 },
    /// Green-screen keying: pixels near `color` turn transparent. `angle` is
    /// the hue tolerance in degrees (1-90), `noise` the suppression (0-64).
    ChromaKey { color: String, angle: i128, noise: i128 },
    /// Crop pixels from the clip's edges.
    Crop { left: i32, right: i32, top: i32, bottom: i32 },
    /// Three-band EQ in dB (-24..12).
    Eq { low: i128, mid: i128, high: i128 },
    /// Dynamic range compressor: threshold 0-1, ratio 1-4.
    Compressor { threshold: i128, ratio: i128 },
    /// Noise suppression: 0=low, 1=moderate, 2=high, 3=very-high.
    Denoise { level: u32 },
    /// Color balance. Neutral is brightness 0, contrast 1, saturation 1, hue 0.
    Color { brightness: i128, contrast: i128, saturation: i128, hue: i128 },
}

#[verifier::ext_equal]
pub enum EffectView {
    Blur { amount: int },
    ChromaKey { color: Seq<char>, angle: int, noise: int },
    Crop { left: int, right: int, top: int, bottom: int },
    Eq { low: int, mid: int, high: int },
    Compressor { threshold: int, ratio: int },
    Denoise { level: int },
    Color { brightness: int, contrast: int, saturation: int, hue: int },
}

impl View for Effect {
    type V = EffectView;

    open spec fn view(&self) -> EffectView {
        match *self {
            Effect::Blur { amount } => EffectView::Blur { amount: amount as int },
            Effect::ChromaKey { color, angle, noise } => EffectView::ChromaKey {
                color: color@,
                angle: angle as int,
                noise: noise as int,
            },
            Effect::Crop { left, right, top, bottom } => EffectView::Crop {
                left: left as int,
                right: right as int,
                top: top as int,
                bottom: bottom as int,
            },
            Effect::Eq { low, mid, high } => EffectView::Eq {
                low: low as int,
                mid: mid as int,
                high: high as int,
            },
            Effect::Compressor { threshold, ratio } => EffectView::Compressor {
                threshold: threshold as int,
                ratio: ratio as int,
            },
            Effect::Denoise { level } => EffectView::Denoise { level: level as int },
            Effect::Color { brightness, contrast, saturation, hue } => EffectView::Color {
                brightness: brightness as int,
                contrast: contrast as int,
                saturation: saturation as int,
                hue: hue as int,
            },
        }
    }
}

impl EffectView {
    pub open spec fn fits(self, n: int) -> bool {
        match self {
            EffectView::Blur { amount } => within(amount, n),
            EffectView::ChromaKey { color, angle, noise } => within(angle, n) && within(noise, n),
            EffectView::Crop { left, right, top, bottom } => true,
            EffectView::Eq { low, mid, high } => within(low, n) && within(mid, n) && within(high, n),
            EffectView::Compressor { threshold, ratio } => within(threshold, n) && within(ratio, n),
            EffectView::Denoise { level } => true,
            EffectView::Color { brightness, contrast, saturation, hue } => within(brightness, n)
                && within(contrast, n) && within(saturation, n) && within(hue, n),
        }
    }
}

impl Clone for Effect {
    fn clone(&self) -> (r: Self)
        ensures
            r@ == self@,
    {
        match self {
            Effect::Blur { amount } => Effect::Blur { amount: *amount },
            Effect::ChromaKey { color, angle, noise } => Effect::ChromaKey {
                color: color.clone(),
                angle: *angle,
                noise: *noise,
            },
            Effect::Crop { left, right, top, bottom } => Effect::Crop {
                left: *left,
                right: *right,
                top: *top,
                bottom: *bottom,
            },
            Effect::Eq { low, mid, high } => Effect::Eq { low: *low, mid: *mid, high: *high },
            Effect::Compressor { threshold, ratio } => Effect::Compressor {
                threshold: *threshold,
                ratio: *ratio,
            },
            Effect::Denoise { level } => Effect::Denoise { level: *level },
            Effect::Color { brightness, contrast, saturation, hue } => Effect::Color {
                brightness: *brightness,
                contrast: *contrast,
                saturation: *saturation,
                hue: *hue,
            },
        }
    }
}

impl Clone for TextMap<String> {
    fn clone(&self) -> (r: Self)
        ensures
            r@ == self@,
    {
        let mut entries: Vec<(String, String)> = Vec::new();
        let mut i: usize = 0;
        while i < self.entries.len()
            invariant
                i <= self.entries.len(),
                views(entries@) == self@.take(i as int),
            decreases self.entries.len() - i,
        {
            let entry: &(String, String) = &self.entries[i];
            entries.push((entry.0.clone(), entry.1.clone()));
            i += 1;
            assert(views(entries@) =~= self@.take(i as int));
        }
        assert(self@.take(i as int) =~= self@);
        TextMap { entries }
    }
}

/// What a clip shows or plays.
#[derive(Debug)]
pub enum Element {
    Text {
        text: String,
        font: String,
        color: String,
        /// Horizontal alignment; overrides the x position.
        align: Option<TextAlign>,
        /// Outline color (#rrggbb / #aarrggbb).
        outline: Option<String>,
        /// Draw a drop shadow behind the text.
        shadow: bool,
    },
    /// `offset` seeks into the source, seconds; `rate` is the playback speed
    /// multiplier (0.1-10). Duration stays in timeline seconds; media consumed
    /// is duration times rate.
    Video { src: String, offset: i128, volume: i128, rate: i128 },
    Audio { src: String, offset: i128, volume: i128, rate: i128 },
    Image { src: String },
    Shape { shape: ShapeKind, fill: String },
    /// Instantiate a reusable composition from `defs`.
    CompRef { def: String, args: TextMap<String> },
    /// Built-in test pattern.
    Test,
}

#[verifier::ext_equal]
pub enum ElementView {
    Text {
        text: Seq<char>,
        font: Seq<char>,
        color: Seq<char>,
        align: Option<TextAlign>,
        outline: Option<Seq<char>>,
        shadow: bool,
    },
    Video { src: Seq<char>, offset: int, volume: int, rate: int },
    Audio { src: Seq<char>, offset: int, volume: int, rate: int },
    Image { src: Seq<char> },
    Shape { shape: ShapeKind, fill: Seq<char> },
    CompRef { def: Seq<char>, args: Seq<(Seq<char>, Seq<char>)> },
    Test,
}

impl View for Element {
    type V = ElementView;

    open spec fn view(&self) -> ElementView {
        match *self {
            Element::Text { text, font, color, align, outline, shadow } => ElementView::Text {
                text: text@,
                font: font@,
                color: color@,
                align,
                outline: opt_text(outline),
                shadow,
            },
            Element::Video { src, offset, volume, rate } => ElementView::Video {
                src: src@,
                offset: offset as int,
                volume: volume as int,
                rate: rate as int,
            },
            Element::Audio { src, offset, volume, rate } => ElementView::Audio {
                src: src@,
                offset: offset as int,
                volume: volume as int,
                rate: rate as int,
            },
            Element::Image { src } => ElementView::Image { src: src@ },
            Element::Shape { shape, fill } => ElementView::Shape { shape, fill: fill@ },
            Element::CompRef { def, args } => ElementView::CompRef { def: def@, args: args@ },
            Element::Test => ElementView::Test,
        }
    }
}

impl ElementView {
    pub open spec fn fits(self, n: int) -> bool {
        match self {
            ElementView::Video { src, offset, volume, rate } => within(offset, n) && within(
                volume,
                n,
            ) && within(rate, n),
            ElementView::Audio { src, offset, volume, rate } => within(offset, n) && within(
                volume,
                n,
            ) && within(rate, n),
            _ => true,
        }
    }
}

impl Clone for Element {
    fn clone(&self) -> (r: Self)
        ensures
            r@ == self@,
    {
        match self {
            Element::Text { text, font, color, align, outline, shadow } => Element::Text {
                text: text.clone(),
                font: font.clone(),
                color: color.clone(),
                align: *align,
                outline: match outline {
                    Some(o) => Some(o.clone()),
                    None => None,
                },
                shadow: *shadow,
            },
            Element::Video { src, offset, volume, rate } => Element::Video {
                src: src.clone(),
                offset: *offset,
                volume: *volume,
                rate: *rate,
            },
            Element::Audio { src, offset, volume, rate } => Element::Audio {
                src: src.clone(),
                offset: *offset,
                volume: *volume,
                rate: *rate,
            },
            Element::Image { src } => Element::Image { src: src.clone() },
            Element::Shape { shape, fill } => Element::Shape { shape: *shape, fill: fill.clone() },
            Element::CompRef { def, args } => Element::CompRef {
                def: def.clone(),
                args: args.clone(),
            },
            Element::Test => Element::Test,
        }
    }
}

/// One clip. `start` is relative to the scene for scene layers, absolute for
/// overlay clips, and relative to the instantiation for def layers. A
/// duration of 0 stands for the remainder of the scene or def.
#[derive(Debug)]
pub struct Clip {
    pub id: String,
    pub start: i128,
    pub duration: i128,
    pub element: Element,
    pub transform: Transform,
    pub animations: Vec<Anim>,
    /// Effects applied in order.
    pub effects: Vec<Effect>,
}

#[verifier::ext_equal]
pub struct ClipView {
    pub id: Seq<char>,
    pub start: int,
    pub duration: int,
    pub element: ElementView,
    pub transform: Transform,
    pub animations: Seq<AnimView>,
    pub effects: Seq<EffectView>,
}

impl View for Clip {
    type V = ClipView;

    open spec fn view(&self) -> ClipView {
        ClipView {
            id: self.id@,
            start: self.start as int,
            duration: self.duration as int,
            element: self.element@,
            transform: self.transform,
            animations: views(self.animations@),
            effects: views(self.effects@),
        }
    }
}

impl ClipView {
    pub open spec fn fits(self, n: int) -> bool {
        &&& within(self.start, n)
        &&& within(self.duration, n)
        &&& self.element.fits(n)
        &&& self.transform.fits(n)
        &&& forall|i: int|
            0 <= i < self.animations.len() ==> (#[trigger] self.animations[i]).fits(n)
        &&& forall|i: int| 0 <= i < self.effects.len() ==> (#[trigger] self.effects[i]).fits(n)
    }
}

impl Clone for Clip {
    fn clone(&self) -> (r: Self)
        ensures
            r@ == self@,
    {
        let animations: Vec<Anim> = self.animations.clone();
        let effects: Vec<Effect> = self.effects.clone();
        assert(views(animations@) =~= views(self.animations@));
        assert(views(effects@) =~= views(self.effects@));
        Clip {
            id: self.id.clone(),
            start: self.start,
            duration: self.duration,
            element: self.element.clone(),
            transform: self.transform,
            animations,
            effects,
        }
    }
}

pub open spec fn clips_fit(clips: Seq<ClipView>, n: int) -> bool {
    forall|i: int| 0 <= i < clips.len() ==> (#[trigger] clips[i]).fits(n)
}

#[derive(Debug)]
pub struct Meta {
    pub title: String,
    pub width: i32,
    pub height: i32,
    pub fps: i32,
}

#[verifier::ext_equal]
pub struct MetaView {
    pub title: Seq<char>,
    pub width: int,
    pub height: int,
    pub fps: int,
}

impl View for Meta {
    type V = MetaView;

    open spec fn view(&self) -> MetaView {
        MetaView {
            title: self.title@,
            width: self.width as int,
            height: self.height as int,
            fps: self.fps as int,
        }
    }
}

impl Clone for Meta {
    fn clone(&self) -> (r: Self)
        ensures
            r@ == self@,
    {
        Meta { title: self.title.clone(), width: self.width, height: self.height, fps: self.fps }
    }
}

/// A reusable composition. Occurrences of `{name}` in the text fields of its
/// layers are substituted at instantiation.
#[derive(Debug)]
pub struct CompDef {
    pub params: Vec<String>,
    pub layers: Vec<Clip>,
}

#[verifier::ext_equal]
pub struct CompDefView {
    pub params: Seq<Seq<char>>,
    pub layers: Seq<ClipView>,
}

impl View for CompDef {
    type V = CompDefView;

    open spec fn view(&self) -> CompDefView {
        CompDefView { params: views(self.params@), layers: views(self.layers@) }
    }
}

impl Clone for CompDef {
    fn clone(&self) -> (r: Self)
        ensures
            r@ == self@,
    {
        let params: Vec<String> = self.params.clone();
        let layers: Vec<Clip> = self.layers.clone();
        assert(views(params@) =~= views(self.params@));
        assert(views(layers@) =~= views(self.layers@));
        CompDef { params, layers }
    }
}

impl Clone for TextMap<CompDef> {
    fn clone(&self) -> (r: Self)
        ensures
            r@ == self@,
    {
        let mut entries: Vec<(String, CompDef)> = Vec::new();
        let mut i: usize = 0;
        while i < self.entries.len()
            invariant
                i <= self.entries.len(),
                views(entries@) == self@.take(i as int),
            decreases self.entries.len() - i,
        {
            let entry: &(String, CompDef) = &self.entries[i];
            entries.push((entry.0.clone(), entry.1.clone()));
            i += 1;
            assert(views(entries@) =~= self@.take(i as int));
        }
        assert(self@.take(i as int) =~= self@);
        TextMap { entries }
    }
}

/// One scene. Its transition leads in from the previous scene and is ignored
/// on the first; without one the scenes are cut hard. Layers are composited
/// top-first (index 0 renders on top).
#[derive(Debug)]
pub struct Scene {
    pub id: String,
    pub name: String,
    pub duration: i128,
    pub transition: Option<Transition>,
    pub layers: Vec<Clip>,
}

#[verifier::ext_equal]
pub struct SceneView {
    pub id: Seq<char>,
    pub name: Seq<char>,
    pub duration: int,
    pub transition: Option<Transition>,
    pub layers: Seq<ClipView>,
}

impl View for Scene {
    type V = SceneView;

    open spec fn view(&self) -> SceneView {
        SceneView {
            id: self.id@,
            name: self.name@,
            duration: self.duration as int,
            transition: self.transition,
            layers: views(self.layers@),
        }
    }
}

impl SceneView {
    /// Length of the overlap with the previous scene.
    pub open spec fn overlap(self) -> int {
        match self.transition {
            Some(t) => t.duration as int,
            None => 0,
        }
    }

    pub open spec fn fits(self, n: int) -> bool {
        within(self.duration, n) && within(self.overlap(), n) && clips_fit(self.layers, n)
    }
}

impl Clone for Scene {
    fn clone(&self) -> (r: Self)
        ensures
            r@ == self@,
    {
        let layers: Vec<Clip> = self.layers.clone();
        assert(views(layers@) =~= views(self.layers@));
        Scene {
            id: self.id.clone(),
            name: self.name.clone(),
            duration: self.duration,
            transition: self.transition,
            layers,
        }
    }
}

/// A track that spans the composition, with absolute timing. Mute and hide
/// silence or blank the track without touching its clips; lock disables
/// dragging in the editor.
#[derive(Debug)]
pub struct OverlayTrack {
    pub id: String,
    pub muted: bool,
    pub hidden: bool,
    pub locked: bool,
    pub name: String,
    pub clips: Vec<Clip>,
}

#[verifier::ext_equal]
pub struct OverlayTrackView {
    pub id: Seq<char>,
    pub muted: bool,
    pub hidden: bool,
    pub locked: bool,
    pub name: Seq<char>,
    pub clips: Seq<ClipView>,
}

impl View for OverlayTrack {
    type V = OverlayTrackView;

    open spec fn view(&self) -> OverlayTrackView {
        OverlayTrackView {
            id: self.id@,
            muted: self.muted,
            hidden: self.hidden,
            locked: self.locked,
            name: self.name@,
            clips: views(self.clips@),
        }
    }
}

impl Clone for OverlayTrack {
    fn clone(&self) -> (r: Self)
        ensures
            r@ == self@,
    {
        let clips: Vec<Clip> = self.clips.clone();
        assert(views(clips@) =~= views(self.clips@));
        OverlayTrack {
            id: self.id.clone(),
            muted: self.muted,
            hidden: self.hidden,
            locked: self.locked,
            name: self.name.clone(),
            clips,
        }
    }
}

/// A whole document.
#[derive(Debug)]
pub struct Project {
    pub meta: Meta,
    /// Media files of the project's library.
    pub library: Vec<String>,
    /// Reusable compositions, instantiated by `Element::CompRef`.
    pub defs: TextMap<CompDef>,
    /// Sequential scenes; order defines time. No gaps.
    pub scenes: Vec<Scene>,
    /// Composition-spanning tracks; they freely cross scene cuts.
    pub overlays: Vec<OverlayTrack>,
    /// `scene_lanes[i]` applies to layer `i` of every scene; missing entries
    /// mean unlocked and visible.
    pub scene_lanes: Vec<LaneMeta>,
}

#[verifier::ext_equal]
pub struct ProjectView {
    pub meta: MetaView,
    pub library: Seq<Seq<char>>,
    pub defs: Seq<(Seq<char>, CompDefView)>,
    pub scenes: Seq<SceneView>,
    pub overlays: Seq<OverlayTrackView>,
    pub scene_lanes: Seq<LaneMeta>,
}

impl View for Project {
    type V = ProjectView;

    open spec fn view(&self) -> ProjectView {
        ProjectView {
            meta: self.meta@,
            library: views(self.library@),
            defs: self.defs@,
            scenes: views(self.scenes@),
            overlays: views(self.overlays@),
            scene_lanes: self.scene_lanes@,
        }
    }
}

impl ProjectView {
    /// Every number of the document is no larger than `n` times the largest
    /// that a document may hold.
    pub open spec fn fits(self, n: int) -> bool {
        &&& forall|i: int| 0 <= i < self.scenes.len() ==> (#[trigger] self.scenes[i]).fits(n)
        &&& forall|i: int|
            0 <= i < self.overlays.len() ==> clips_fit((#[trigger] self.overlays[i]).clips, n)
        &&& forall|i: int|
            0 <= i < self.defs.len() ==> clips_fit((#[trigger] self.defs[i]).1.layers, n)
    }
}

impl Clone for Project {
    fn clone(&self) -> (r: Self)
        ensures
            r@ == self@,
    {
        let library: Vec<String> = self.library.clone();
        let scenes: Vec<Scene> = self.scenes.clone();
        let overlays: Vec<OverlayTrack> = self.overlays.clone();
        let scene_lanes: Vec<LaneMeta> = self.scene_lanes.clone();
        assert(views(library@) =~= views(self.library@));
        assert(views(scenes@) =~= views(self.scenes@));
        assert(views(overlays@) =~= views(self.overlays@));
        assert(scene_lanes@ =~= self.scene_lanes@);
        Project {
            meta: self.meta.clone(),
            library,
            defs: self.defs.clone(),
            scenes,
            overlays,
            scene_lanes,
        }
    }
}

fn fits_one(x: i128) -> (r: bool)
    ensures
        r == in_range(x as int),
{
    -LIMIT <= x && x <= LIMIT
}

impl Anim {
    fn in_limits(&self) -> (r: bool)
        ensures
            r == self@.fits(1),
    {
        if !(fits_one(self.from) && fits_one(self.to) && fits_one(self.start) && fits_one(
            self.end,
        )) {
            return false;
        }
        let mut i: usize = 0;
        while i < self.keyframes.len()
            invariant
                i <= self.keyframes.len(),
                forall|j: int|
                    0 <= j < i ==> within((#[trigger] self@.keyframes[j]).t, 1) && within(
                        self@.keyframes[j].value,
                        1,
                    ),
            decreases self.keyframes.len() - i,
        {
            if !(fits_one(self.keyframes[i].t) && fits_one(self.keyframes[i].value)) {
                assert(!(within(self@.keyframes[i as int].t, 1) && within(
                    self@.keyframes[i as int].value,
                    1,
                )));
                return false;
            }
            i += 1;
        }
        true
    }
}

impl Effect {
    fn in_limits(&self) -> (r: bool)
        ensures
            r == self@.fits(1),
    {
        match self {
            Effect::Blur { amount } => fits_one(*amount),
            Effect::ChromaKey { color, angle, noise } => fits_one(*angle) && fits_one(*noise),
            Effect::Crop { left, right, top, bottom } => true,
            Effect::Eq { low, mid, high } => fits_one(*low) && fits_one(*mid) && fits_one(*high),
            Effect::Compressor { threshold, ratio } => fits_one(*threshold) && fits_one(*ratio),
            Effect::Denoise { level } => true,
            Effect::Color { brightness, contrast, saturation, hue } => fits_one(*brightness)
                && fits_one(*contrast) && fits_one(*saturation) && fits_one(*hue),
        }
    }
}

impl Clip {
    /// Whether every number of the clip is one a document may hold.
    pub fn in_limits(&self) -> (r: bool)
        ensures
            r == self@.fits(1),
    {
        let media: bool = match &self.element {
            Element::Video { src, offset, volume, rate } => fits_one(*offset) && fits_one(*volume)
                && fits_one(*rate),
            Element::Audio { src, offset, volume, rate } => fits_one(*offset) && fits_one(*volume)
                && fits_one(*rate),
            _ => true,
        };
        let t: Transform = self.transform;
        let placed: bool = fits_one(t.x) && fits_one(t.y) && fits_one(t.width) && fits_one(t.height)
            && fits_one(t.opacity);
        if !(media && placed && fits_one(self.start) && fits_one(self.duration)) {
            return false;
        }
        let mut i: usize = 0;
        while i < self.animations.len()
            invariant
                i <= self.animations.len(),
                forall|j: int| 0 <= j < i ==> (#[trigger] self@.animations[j]).fits(1),
            decreases self.animations.len() - i,
        {
            if !self.animations[i].in_limits() {
                assert(!self@.animations[i as int].fits(1));
                return false;
            }
            i += 1;
        }
        let mut k: usize = 0;
        while k < self.effects.len()
            invariant
                k <= self.effects.len(),
                forall|j: int| 0 <= j < k ==> (#[trigger] self@.effects[j]).fits(1),
            decreases self.effects.len() - k,
        {
            if !self.effects[k].in_limits() {
                assert(!self@.effects[k as int].fits(1));
                return false;
            }
            k += 1;
        }
        true
    }
}

fn all_in_limits(clips: &Vec<Clip>) -> (r: bool)
    ensures
        r == clips_fit(views(clips@), 1),
{
    let mut i: usize = 0;
    while i < clips.len()
        invariant
            i <= clips.len(),
            forall|j: int| 0 <= j < i ==> (#[trigger] views(clips@)[j]).fits(1),
        decreases clips.len() - i,
    {
        if !clips[i].in_limits() {
            assert(!views(clips@)[i as int].fits(1));
            return false;
        }
        i += 1;
    }
    true
}

impl Project {
    /// Whether every number of the document is one a document may hold.
    pub fn in_limits(&self) -> (r: bool)
        ensures
            r == self@.fits(1),
    {
        let mut i: usize = 0;
        while i < self.scenes.len()
            invariant
                i <= self.scenes.len(),
                forall|j: int| 0 <= j < i ==> (#[trigger] self@.scenes[j]).fits(1),
            decreases self.scenes.len() - i,
        {
            let scene: &Scene = &self.scenes[i];
            let overlap: i128 = match &scene.transition {
                Some(t) => t.duration,
                None => 0,
            };
            assert(self@.scenes[i as int] == scene@);
            if !(fits_one(scene.duration) && fits_one(overlap) && all_in_limits(&scene.layers)) {
                assert(!self@.scenes[i as int].fits(1));
                return false;
            }
            i += 1;
        }
        let mut k: usize = 0;
        while k < self.overlays.len()
            invariant
                k <= self.overlays.len(),
                forall|j: int| 0 <= j < k ==> clips_fit((#[trigger] self@.overlays[j]).clips, 1),
            decreases self.overlays.len() - k,
        {
            if !all_in_limits(&self.overlays[k].clips) {
                assert(!clips_fit(self@.overlays[k as int].clips, 1));
                return false;
            }
            k += 1;
        }
        let mut d: usize = 0;
        while d < self.defs.entries.len()
            invariant
                d <= self.defs.entries.len(),
                forall|j: int| 0 <= j < d ==> clips_fit((#[trigger] self@.defs[j]).1.layers, 1),
            decreases self.defs.entries.len() - d,
        {
            if !all_in_limits(&self.defs.entries[d].1.layers) {
                assert(!clips_fit(self@.defs[d as int].1.layers, 1));
                return false;
            }
            d += 1;
        }
        true
    }
}

/// The key color of a chroma key that names none.
pub fn default_key_color() -> (r: String)
    ensures
        r@ == "#00ff00"@,
{
    "#00ff00".to_owned()
}

/// The hue tolerance of a chroma key that names none.
pub fn default_key_angle() -> (r: i128)
    ensures
        r == 20 * UNIT,
{
    20 * UNIT
}

/// The threshold of a compressor that names none.
pub fn default_comp_threshold() -> (r: i128)
    ensures
        4 * r == UNIT,
{
    UNIT / 4
}

/// The ratio of a compressor that names none.
pub fn default_comp_ratio() -> (r: i128)
    ensures
        r == 2 * UNIT,
{
    2 * UNIT
}

/// The noise suppression level of a denoiser that names none.
pub fn default_denoise_level() -> (r: u32)
    ensures
        r == 1,
{
    1
}

/// The font of a text clip that names none.
pub fn default_font() -> (r: String)
    ensures
        r@ == "Sans Bold 32"@,
{
    "Sans Bold 32".to_owned()
}

/// The color of a text or shape clip that names none.
pub fn default_color() -> (r: String)
    ensures
        r@ == "#ffffff"@,
{
    "#ffffff".to_owned()
}

} // verus!
