//! The parts of a document in JSON.

use vstd::prelude::*;
use crate::document::{Anim, AnimProperty, AnimView, Easing, Effect, EffectView, Keyframe,
    KeyframeView, LaneMeta, Meta, MetaView, ShapeKind, TextAlign, Transform, Transition,
    TransitionKind};
use crate::fixed::{in_range, UNIT};
use crate::json::Json;
use crate::numbers::{integer, lasting, law_integer, law_number, lemma_fixed_bounds, number, short};
use crate::text::same;
use crate::tree::{all_modest, all_storable, calm, field, fixed_in, fixed_json, fixed_or, flag_in,
    get_field, get_fixed, get_fixed_or, get_flag, get_items_or_none, get_text, get_text_or,
    get_variant, get_whole, get_whole_or, group_calm, is_record, is_sole, items_json, items_or_none,
    items_written, lemma_calm_object, lemma_calm_sole, lemma_items_back, lemma_items_calm,
    lemma_items_modest, lemma_items_storable, lemma_near_integer, lemma_near_items,
    lemma_near_maybe, lemma_near_none, lemma_near_number, lemma_near_object, lemma_near_one,
    lemma_steady_field, maybe, near, none, nothing, object, one, put, put_if, record, seen, sole,
    steady, text_in, text_json, text_or, tidy, variant, whole_in, whole_json, whole_or, JsonView,
    Stored};
use crate::views::views;

verus! {

broadcast use {crate::views::group_views, crate::tree::group_entries};

/// A number by which the words of a document can be told apart: length, first,
/// middle and last character.
pub open spec fn mark(s: Seq<char>) -> int {
    s.len() * 16_777_216 + (s[0] as int) * 65_536 + (s[s.len() as int / 2] as int) * 256 + (
    s.last() as int)
}

/// No two words of a document are the same.
pub proof fn lemma_words()
    ensures
        mark("title"@) == 91518053,
        mark("width"@) == 91710568,
        mark("height"@) == 107505524,
        mark("fps"@) == 57045107,
        mark("locked"@) == 107768676,
        mark("muted"@) == 91059300,
        mark("hidden"@) == 107504750,
        mark("kind"@) == 74149476,
        mark("duration"@) == 140801134,
        mark("x"@) == 24672376,
        mark("y"@) == 24738169,
        mark("opacity"@) == 124740473,
        mark("t"@) == 24409204,
        mark("value"@) == 91647077,
        mark("easing"@) == 107309415,
        mark("property"@) == 141583737,
        mark("from"@) == 73822061,
        mark("to"@) == 41185135,
        mark("start"@) == 91447668,
        mark("end"@) == 56979044,
        mark("keyframes"@) == 158036595,
        mark("crossfade"@) == 157512549,
        mark("wipe-lr"@) == 125265266,
        mark("wipe-tb"@) == 125265250,
        mark("box-wipe"@) == 140670821,
        mark("iris"@) == 74017139,
        mark("clock"@) == 90402667,
        mark("rect"@) == 74605428,
        mark("circle"@) == 107176805,
        mark("ellipse"@) == 124086629,
        mark("star"@) == 74670450,
        mark("polygon"@) == 124811630,
        mark("line"@) == 74215013,
        mark("arrow"@) == 90272375,
        mark("left"@) == 74212980,
        mark("center"@) == 107181170,
        mark("right"@) == 91383668,
        mark("volume"@) == 108426597,
        mark("rate"@) == 74609765,
        mark("linear"@) == 107767154,
        mark("easeIn"@) == 107308398,
        mark("easeOut"@) == 124085620,
        mark("easeInOut"@) == 157632884,
        mark("type"@) == 74739813,
        mark("blur"@) == 73561458,
        mark("chromakey"@) == 157511033,
        mark("crop"@) == 73625456,
        mark("eq"@) == 40202609,
        mark("compressor"@) == 174286194,
        mark("denoise"@) == 124022629,
        mark("color"@) == 90401906,
        mark("amount"@) == 107050356,
        mark("angle"@) == 90269541,
        mark("noise"@) == 91122021,
        mark("top"@) == 57962352,
        mark("bottom"@) == 107115629,
        mark("low"@) == 57438071,
        mark("mid"@) == 57502052,
        mark("high"@) == 73951080,
        mark("threshold"@) == 158626660,
        mark("ratio"@) == 91386991,
        mark("level"@) == 90994284,
        mark("brightness"@) == 174224499,
        mark("contrast"@) == 140735092,
        mark("saturation"@) == 175333742,
        mark("hue"@) == 57177445,
        mark("text"@) == 74741876,
        mark("video"@) == 91645039,
        mark("audio"@) == 90268783,
        mark("image"@) == 90792293,
        mark("shape"@) == 91447653,
        mark("compref"@) == 123957350,
        mark("test"@) == 74740596,
        mark("font"@) == 73821812,
        mark("align"@) == 90270062,
        mark("outline"@) == 124742757,
        mark("shadow"@) == 108225655,
        mark("src"@) == 57897571,
        mark("offset"@) == 107967348,
        mark("fill"@) == 73821292,
        mark("ref"@) == 57828710,
        mark("args"@) == 73492339,
        mark("id"@) == 40461412,
        mark("transform"@) == 158626669,
        mark("animations"@) == 174158963,
        mark("effects"@) == 124085619,
        mark("name"@) == 74345829,
        mark("params"@) == 108028275,
        mark("layers"@) == 107767155,
        mark("transition"@) == 175401326,
        mark("clips"@) == 90401139,
        mark("meta"@) == 74282081,
        mark("library"@) == 124547705,
        mark("defs"@) == 73688691,
        mark("scenes"@) == 108228211,
        mark("overlays"@) == 141519987,
        mark("scene_lanes"@) == 192110451,
{
    reveal_strlit("title");
    reveal_strlit("width");
    reveal_strlit("height");
    reveal_strlit("fps");
    reveal_strlit("locked");
    reveal_strlit("muted");
    reveal_strlit("hidden");
    reveal_strlit("kind");
    reveal_strlit("duration");
    reveal_strlit("x");
    reveal_strlit("y");
    reveal_strlit("opacity");
    reveal_strlit("t");
    reveal_strlit("value");
    reveal_strlit("easing");
    reveal_strlit("property");
    reveal_strlit("from");
    reveal_strlit("to");
    reveal_strlit("start");
    reveal_strlit("end");
    reveal_strlit("keyframes");
    reveal_strlit("crossfade");
    reveal_strlit("wipe-lr");
    reveal_strlit("wipe-tb");
    reveal_strlit("box-wipe");
    reveal_strlit("iris");
    reveal_strlit("clock");
    reveal_strlit("rect");
    reveal_strlit("circle");
    reveal_strlit("ellipse");
    reveal_strlit("star");
    reveal_strlit("polygon");
    reveal_strlit("line");
    reveal_strlit("arrow");
    reveal_strlit("left");
    reveal_strlit("center");
    reveal_strlit("right");
    reveal_strlit("volume");
    reveal_strlit("rate");
    reveal_strlit("linear");
    reveal_strlit("easeIn");
    reveal_strlit("easeOut");
    reveal_strlit("easeInOut");
    reveal_strlit("type");
    reveal_strlit("blur");
    reveal_strlit("chromakey");
    reveal_strlit("crop");
    reveal_strlit("eq");
    reveal_strlit("compressor");
    reveal_strlit("denoise");
    reveal_strlit("color");
    reveal_strlit("amount");
    reveal_strlit("angle");
    reveal_strlit("noise");
    reveal_strlit("top");
    reveal_strlit("bottom");
    reveal_strlit("low");
    reveal_strlit("mid");
    reveal_strlit("high");
    reveal_strlit("threshold");
    reveal_strlit("ratio");
    reveal_strlit("level");
    reveal_strlit("brightness");
    reveal_strlit("contrast");
    reveal_strlit("saturation");
    reveal_strlit("hue");
    reveal_strlit("text");
    reveal_strlit("video");
    reveal_strlit("audio");
    reveal_strlit("image");
    reveal_strlit("shape");
    reveal_strlit("compref");
    reveal_strlit("test");
    reveal_strlit("font");
    reveal_strlit("align");
    reveal_strlit("outline");
    reveal_strlit("shadow");
    reveal_strlit("src");
    reveal_strlit("offset");
    reveal_strlit("fill");
    reveal_strlit("ref");
    reveal_strlit("args");
    reveal_strlit("id");
    reveal_strlit("transform");
    reveal_strlit("animations");
    reveal_strlit("effects");
    reveal_strlit("name");
    reveal_strlit("params");
    reveal_strlit("layers");
    reveal_strlit("transition");
    reveal_strlit("clips");
    reveal_strlit("meta");
    reveal_strlit("library");
    reveal_strlit("defs");
    reveal_strlit("scenes");
    reveal_strlit("overlays");
    reveal_strlit("scene_lanes");
}

/// How a document names a scene transition.
pub open spec fn transition_name(k: TransitionKind) -> Seq<char> {
    match k {
        TransitionKind::Crossfade => "crossfade"@,
        TransitionKind::WipeLr => "wipe-lr"@,
        TransitionKind::WipeTb => "wipe-tb"@,
        TransitionKind::BoxWipe => "box-wipe"@,
        TransitionKind::Iris => "iris"@,
        TransitionKind::Clock => "clock"@,
    }
}

/// The scene transition of that name.
pub open spec fn transition_named(s: Seq<char>) -> Option<TransitionKind> {
    if s == "crossfade"@ {
        Some(TransitionKind::Crossfade)
    } else if s == "wipe-lr"@ {
        Some(TransitionKind::WipeLr)
    } else if s == "wipe-tb"@ {
        Some(TransitionKind::WipeTb)
    } else if s == "box-wipe"@ {
        Some(TransitionKind::BoxWipe)
    } else if s == "iris"@ {
        Some(TransitionKind::Iris)
    } else if s == "clock"@ {
        Some(TransitionKind::Clock)
    } else {
        None
    }
}

pub fn name_transition(k: TransitionKind) -> (r: &'static str)
    ensures
        r@ == transition_name(k),
{
    match k {
        TransitionKind::Crossfade => "crossfade",
        TransitionKind::WipeLr => "wipe-lr",
        TransitionKind::WipeTb => "wipe-tb",
        TransitionKind::BoxWipe => "box-wipe",
        TransitionKind::Iris => "iris",
        TransitionKind::Clock => "clock",
    }
}

fn find_transition(s: &str) -> (r: Option<TransitionKind>)
    ensures
        r == transition_named(s@),
{
    if same(s, "crossfade") {
        Some(TransitionKind::Crossfade)
    } else if same(s, "wipe-lr") {
        Some(TransitionKind::WipeLr)
    } else if same(s, "wipe-tb") {
        Some(TransitionKind::WipeTb)
    } else if same(s, "box-wipe") {
        Some(TransitionKind::BoxWipe)
    } else if same(s, "iris") {
        Some(TransitionKind::Iris)
    } else if same(s, "clock") {
        Some(TransitionKind::Clock)
    } else {
        None
    }
}

pub proof fn lemma_transition_name(k: TransitionKind)
    ensures
        transition_named(transition_name(k)) == Some(k),
{
    lemma_words();
}

/// A scene transition in a document.
pub open spec fn transition_in(j: Option<JsonView>) -> Option<TransitionKind> {
    match variant(j) {
        Some(s) => transition_named(s),
        None => None,
    }
}

pub fn get_transition(j: Option<&Json>) -> (r: Option<TransitionKind>)
    ensures
        r == transition_in(seen(j)),
{
    match get_variant(j) {
        Some(s) => find_transition(s.as_str()),
        None => None,
    }
}

/// How a document names a shape.
pub open spec fn shape_name(k: ShapeKind) -> Seq<char> {
    match k {
        ShapeKind::Rect => "rect"@,
        ShapeKind::Circle => "circle"@,
        ShapeKind::Ellipse => "ellipse"@,
        ShapeKind::Star => "star"@,
        ShapeKind::Polygon => "polygon"@,
        ShapeKind::Line => "line"@,
        ShapeKind::Arrow => "arrow"@,
    }
}

/// The shape of that name.
pub open spec fn shape_named(s: Seq<char>) -> Option<ShapeKind> {
    if s == "rect"@ {
        Some(ShapeKind::Rect)
    } else if s == "circle"@ {
        Some(ShapeKind::Circle)
    } else if s == "ellipse"@ {
        Some(ShapeKind::Ellipse)
    } else if s == "star"@ {
        Some(ShapeKind::Star)
    } else if s == "polygon"@ {
        Some(ShapeKind::Polygon)
    } else if s == "line"@ {
        Some(ShapeKind::Line)
    } else if s == "arrow"@ {
        Some(ShapeKind::Arrow)
    } else {
        None
    }
}

pub fn name_shape(k: ShapeKind) -> (r: &'static str)
    ensures
        r@ == shape_name(k),
{
    match k {
        ShapeKind::Rect => "rect",
        ShapeKind::Circle => "circle",
        ShapeKind::Ellipse => "ellipse",
        ShapeKind::Star => "star",
        ShapeKind::Polygon => "polygon",
        ShapeKind::Line => "line",
        ShapeKind::Arrow => "arrow",
    }
}

fn find_shape(s: &str) -> (r: Option<ShapeKind>)
    ensures
        r == shape_named(s@),
{
    if same(s, "rect") {
        Some(ShapeKind::Rect)
    } else if same(s, "circle") {
        Some(ShapeKind::Circle)
    } else if same(s, "ellipse") {
        Some(ShapeKind::Ellipse)
    } else if same(s, "star") {
        Some(ShapeKind::Star)
    } else if same(s, "polygon") {
        Some(ShapeKind::Polygon)
    } else if same(s, "line") {
        Some(ShapeKind::Line)
    } else if same(s, "arrow") {
        Some(ShapeKind::Arrow)
    } else {
        None
    }
}

pub proof fn lemma_shape_name(k: ShapeKind)
    ensures
        shape_named(shape_name(k)) == Some(k),
{
    lemma_words();
}

/// A shape in a document.
pub open spec fn shape_in(j: Option<JsonView>) -> Option<ShapeKind> {
    match variant(j) {
        Some(s) => shape_named(s),
        None => None,
    }
}

pub fn get_shape(j: Option<&Json>) -> (r: Option<ShapeKind>)
    ensures
        r == shape_in(seen(j)),
{
    match get_variant(j) {
        Some(s) => find_shape(s.as_str()),
        None => None,
    }
}

/// How a document names a text alignment.
pub open spec fn align_name(k: TextAlign) -> Seq<char> {
    match k {
        TextAlign::Left => "left"@,
        TextAlign::Center => "center"@,
        TextAlign::Right => "right"@,
    }
}

/// The text alignment of that name.
pub open spec fn align_named(s: Seq<char>) -> Option<TextAlign> {
    if s == "left"@ {
        Some(TextAlign::Left)
    } else if s == "center"@ {
        Some(TextAlign::Center)
    } else if s == "right"@ {
        Some(TextAlign::Right)
    } else {
        None
    }
}

pub fn name_align(k: TextAlign) -> (r: &'static str)
    ensures
        r@ == align_name(k),
{
    match k {
        TextAlign::Left => "left",
        TextAlign::Center => "center",
        TextAlign::Right => "right",
    }
}

fn find_align(s: &str) -> (r: Option<TextAlign>)
    ensures
        r == align_named(s@),
{
    if same(s, "left") {
        Some(TextAlign::Left)
    } else if same(s, "center") {
        Some(TextAlign::Center)
    } else if same(s, "right") {
        Some(TextAlign::Right)
    } else {
        None
    }
}

pub proof fn lemma_align_name(k: TextAlign)
    ensures
        align_named(align_name(k)) == Some(k),
{
    lemma_words();
}

/// A text alignment in a document.
pub open spec fn align_in(j: Option<JsonView>) -> Option<TextAlign> {
    match variant(j) {
        Some(s) => align_named(s),
        None => None,
    }
}

pub fn get_align(j: Option<&Json>) -> (r: Option<TextAlign>)
    ensures
        r == align_in(seen(j)),
{
    match get_variant(j) {
        Some(s) => find_align(s.as_str()),
        None => None,
    }
}

/// How a document names an animated property.
pub open spec fn property_name(k: AnimProperty) -> Seq<char> {
    match k {
        AnimProperty::X => "x"@,
        AnimProperty::Y => "y"@,
        AnimProperty::Width => "width"@,
        AnimProperty::Height => "height"@,
        AnimProperty::Opacity => "opacity"@,
        AnimProperty::Volume => "volume"@,
        AnimProperty::Rate => "rate"@,
    }
}

/// The animated property of that name.
pub open spec fn property_named(s: Seq<char>) -> Option<AnimProperty> {
    if s == "x"@ {
        Some(AnimProperty::X)
    } else if s == "y"@ {
        Some(AnimProperty::Y)
    } else if s == "width"@ {
        Some(AnimProperty::Width)
    } else if s == "height"@ {
        Some(AnimProperty::Height)
    } else if s == "opacity"@ {
        Some(AnimProperty::Opacity)
    } else if s == "volume"@ {
        Some(AnimProperty::Volume)
    } else if s == "rate"@ {
        Some(AnimProperty::Rate)
    } else {
        None
    }
}

pub fn name_property(k: AnimProperty) -> (r: &'static str)
    ensures
        r@ == property_name(k),
{
    match k {
        AnimProperty::X => "x",
        AnimProperty::Y => "y",
        AnimProperty::Width => "width",
        AnimProperty::Height => "height",
        AnimProperty::Opacity => "opacity",
        AnimProperty::Volume => "volume",
        AnimProperty::Rate => "rate",
    }
}

fn find_property(s: &str) -> (r: Option<AnimProperty>)
    ensures
        r == property_named(s@),
{
    if same(s, "x") {
        Some(AnimProperty::X)
    } else if same(s, "y") {
        Some(AnimProperty::Y)
    } else if same(s, "width") {
        Some(AnimProperty::Width)
    } else if same(s, "height") {
        Some(AnimProperty::Height)
    } else if same(s, "opacity") {
        Some(AnimProperty::Opacity)
    } else if same(s, "volume") {
        Some(AnimProperty::Volume)
    } else if same(s, "rate") {
        Some(AnimProperty::Rate)
    } else {
        None
    }
}

pub proof fn lemma_property_name(k: AnimProperty)
    ensures
        property_named(property_name(k)) == Some(k),
{
    lemma_words();
}

/// An animated property in a document.
pub open spec fn property_in(j: Option<JsonView>) -> Option<AnimProperty> {
    match variant(j) {
        Some(s) => property_named(s),
        None => None,
    }
}

pub fn get_property(j: Option<&Json>) -> (r: Option<AnimProperty>)
    ensures
        r == property_in(seen(j)),
{
    match get_variant(j) {
        Some(s) => find_property(s.as_str()),
        None => None,
    }
}

/// How a document names an easing.
pub open spec fn easing_name(k: Easing) -> Seq<char> {
    match k {
        Easing::Linear => "linear"@,
        Easing::EaseIn => "easeIn"@,
        Easing::EaseOut => "easeOut"@,
        Easing::EaseInOut => "easeInOut"@,
    }
}

/// The easing of that name.
pub open spec fn easing_named(s: Seq<char>) -> Option<Easing> {
    if s == "linear"@ {
        Some(Easing::Linear)
    } else if s == "easeIn"@ {
        Some(Easing::EaseIn)
    } else if s == "easeOut"@ {
        Some(Easing::EaseOut)
    } else if s == "easeInOut"@ {
        Some(Easing::EaseInOut)
    } else {
        None
    }
}

pub fn name_easing(k: Easing) -> (r: &'static str)
    ensures
        r@ == easing_name(k),
{
    match k {
        Easing::Linear => "linear",
        Easing::EaseIn => "easeIn",
        Easing::EaseOut => "easeOut",
        Easing::EaseInOut => "easeInOut",
    }
}

fn find_easing(s: &str) -> (r: Option<Easing>)
    ensures
        r == easing_named(s@),
{
    if same(s, "linear") {
        Some(Easing::Linear)
    } else if same(s, "easeIn") {
        Some(Easing::EaseIn)
    } else if same(s, "easeOut") {
        Some(Easing::EaseOut)
    } else if same(s, "easeInOut") {
        Some(Easing::EaseInOut)
    } else {
        None
    }
}

pub proof fn lemma_easing_name(k: Easing)
    ensures
        easing_named(easing_name(k)) == Some(k),
{
    lemma_words();
}

/// An easing in a document.
pub open spec fn easing_in(j: Option<JsonView>) -> Option<Easing> {
    match variant(j) {
        Some(s) => easing_named(s),
        None => None,
    }
}

pub fn get_easing(j: Option<&Json>) -> (r: Option<Easing>)
    ensures
        r == easing_in(seen(j)),
{
    match get_variant(j) {
        Some(s) => find_easing(s.as_str()),
        None => None,
    }
}

/// A number as it stands in a document.
pub open spec fn num(x: int) -> JsonView {
    JsonView::Number(number(x))
}

/// A whole number as it stands in a document.
pub open spec fn int_num(n: int) -> JsonView {
    JsonView::Number(integer(n))
}

/// A fixed-point number that was read is one that a document may hold.
pub proof fn lemma_fixed_in(j: Option<JsonView>, d: int)
    ensures
        fixed_in(j) is Some ==> in_range(fixed_in(j)->0),
        in_range(d) && fixed_or(j, d) is Some ==> in_range(fixed_or(j, d)->0),
{
    match j {
        Some(JsonView::Number(s)) => {
            if crate::json::fixed_of(s) is Some {
                lemma_fixed_bounds(s);
            }
        },
        _ => {},
    }
}

pub proof fn lemma_fixed_lasting(j: Option<JsonView>, d: int)
    requires
        j is Some ==> steady(j->0),
        short(d),
    ensures
        fixed_in(j) is Some ==> lasting(fixed_in(j)->0),
        fixed_or(j, d) is Some ==> lasting(fixed_or(j, d)->0),
{
}

/// A whole number of 32 bits.
pub open spec fn small(n: int) -> bool {
    i32::MIN <= n <= i32::MAX
}

impl Stored for Meta {
    open spec fn read_in(j: JsonView) -> Option<MetaView> {
        let title = text_in(field(j, "title"@, 0));
        let width = whole_in(field(j, "width"@, 1), i32::MIN as int, i32::MAX as int);
        let height = whole_in(field(j, "height"@, 2), i32::MIN as int, i32::MAX as int);
        let fps = whole_in(field(j, "fps"@, 3), i32::MIN as int, i32::MAX as int);
        if record(j, 4) && sole(j, "title"@) && sole(j, "width"@) && sole(j, "height"@)
            && sole(j, "fps"@) && title is Some && width is Some && height is Some && fps is Some {
            Some(MetaView { title: title->0, width: width->0, height: height->0, fps: fps->0 })
        } else {
            None
        }
    }

    open spec fn written(v: MetaView) -> JsonView {
        JsonView::Object(
            none() + one("title"@, JsonView::Text(v.title)) + one("width"@, int_num(v.width)) + one(
                "height"@,
                int_num(v.height),
            ) + one("fps"@, int_num(v.fps)),
        )
    }

    open spec fn storable(v: MetaView) -> bool {
        small(v.width) && small(v.height) && small(v.fps)
    }

    fn read(j: &Json) -> (r: Option<Meta>) {
        if !is_record(j, 4) || !is_sole(j, "title") || !is_sole(j, "width")
            || !is_sole(j, "height") || !is_sole(j, "fps") {
            return None;
        }
        let title: Option<String> = get_text(get_field(j, "title", 0));
        let width: Option<i64> = get_whole(get_field(j, "width", 1), -2_147_483_648, 2_147_483_647);
        let height: Option<i64> = get_whole(
            get_field(j, "height", 2),
            -2_147_483_648,
            2_147_483_647,
        );
        let fps: Option<i64> = get_whole(get_field(j, "fps", 3), -2_147_483_648, 2_147_483_647);
        match (title, width, height, fps) {
            (Some(title), Some(w), Some(h), Some(f)) => Some(
                Meta { title, width: w as i32, height: h as i32, fps: f as i32 },
            ),
            _ => None,
        }
    }

    fn write(&self) -> (r: Json) {
        let mut m: Vec<(String, Json)> = nothing();
        put(&mut m, "title", text_json(self.title.as_str()));
        put(&mut m, "width", whole_json(self.width as i64));
        put(&mut m, "height", whole_json(self.height as i64));
        put(&mut m, "fps", whole_json(self.fps as i64));
        object(m)
    }

    proof fn lemma_read_back(v: MetaView) {
        lemma_calm_sole(Self::written(v), Self::levels(), false);
        lemma_words();
        law_integer(v.width);
        law_integer(v.height);
        law_integer(v.fps);
    }

    proof fn lemma_read_storable(j: JsonView) {
    }

    open spec fn modest(v: MetaView) -> bool {
        true
    }

    proof fn lemma_read_modest(j: JsonView) {
    }

    proof fn lemma_near(v: MetaView, w: JsonView) -> (q: MetaView) {
        let a1 = none() + one("title"@, JsonView::Text(v.title));
        let a2 = a1 + one("width"@, int_num(v.width));
        let a3 = a2 + one("height"@, int_num(v.height));
        let a4 = a3 + one("fps"@, int_num(v.fps));
        let n4 = lemma_near_object(a4, w);
        let (n3, w4) = lemma_near_one(a3, "fps"@, int_num(v.fps), n4);
        let (n2, w3) = lemma_near_one(a2, "height"@, int_num(v.height), n3);
        let (n1, w2) = lemma_near_one(a1, "width"@, int_num(v.width), n2);
        let (n0, w1) = lemma_near_one(none(), "title"@, JsonView::Text(v.title), n1);
        lemma_near_none(n0);
        lemma_near_integer(v.width, w2);
        lemma_near_integer(v.height, w3);
        lemma_near_integer(v.fps, w4);
        v
    }

    open spec fn levels() -> nat {
        1
    }

    proof fn lemma_calm(v: MetaView, d: nat, exact: bool) {
        broadcast use group_calm;

        lemma_words();
        let m = Self::written(v)->Object_0;
        assert(tidy(m, (d - 1) as nat, exact));
        lemma_calm_object(m, d, exact);
    }
}

impl View for LaneMeta {
    type V = LaneMeta;

    open spec fn view(&self) -> LaneMeta {
        *self
    }
}

impl Stored for LaneMeta {
    open spec fn read_in(j: JsonView) -> Option<LaneMeta> {
        let locked = flag_in(field(j, "locked"@, 0));
        let muted = flag_in(field(j, "muted"@, 1));
        let hidden = flag_in(field(j, "hidden"@, 2));
        if record(j, 3) && sole(j, "locked"@) && sole(j, "muted"@) && sole(j, "hidden"@)
            && locked is Some && muted is Some && hidden is Some {
            Some(LaneMeta { locked: locked->0, muted: muted->0, hidden: hidden->0 })
        } else {
            None
        }
    }

    open spec fn written(v: LaneMeta) -> JsonView {
        JsonView::Object(
            none() + maybe(v.locked, "locked"@, JsonView::Bool(v.locked)) + maybe(
                v.muted,
                "muted"@,
                JsonView::Bool(v.muted),
            ) + maybe(v.hidden, "hidden"@, JsonView::Bool(v.hidden)),
        )
    }

    open spec fn storable(v: LaneMeta) -> bool {
        true
    }

    fn read(j: &Json) -> (r: Option<LaneMeta>) {
        if !is_record(j, 3) || !is_sole(j, "locked") || !is_sole(j, "muted")
            || !is_sole(j, "hidden") {
            return None;
        }
        let locked: Option<bool> = get_flag(get_field(j, "locked", 0));
        let muted: Option<bool> = get_flag(get_field(j, "muted", 1));
        let hidden: Option<bool> = get_flag(get_field(j, "hidden", 2));
        match (locked, muted, hidden) {
            (Some(locked), Some(muted), Some(hidden)) => Some(LaneMeta { locked, muted, hidden }),
            _ => None,
        }
    }

    fn write(&self) -> (r: Json) {
        let mut m: Vec<(String, Json)> = nothing();
        put_if(&mut m, self.locked, "locked", Json::Bool(self.locked));
        put_if(&mut m, self.muted, "muted", Json::Bool(self.muted));
        put_if(&mut m, self.hidden, "hidden", Json::Bool(self.hidden));
        object(m)
    }

    proof fn lemma_read_back(v: LaneMeta) {
        lemma_calm_sole(Self::written(v), Self::levels(), false);
        lemma_words();
    }

    proof fn lemma_read_storable(j: JsonView) {
    }

    open spec fn modest(v: LaneMeta) -> bool {
        true
    }

    proof fn lemma_read_modest(j: JsonView) {
    }

    proof fn lemma_near(v: LaneMeta, w: JsonView) -> (q: LaneMeta) {
        let a1 = none() + maybe(v.locked, "locked"@, JsonView::Bool(v.locked));
        let a2 = a1 + maybe(v.muted, "muted"@, JsonView::Bool(v.muted));
        let a3 = a2 + maybe(v.hidden, "hidden"@, JsonView::Bool(v.hidden));
        let n3 = lemma_near_object(a3, w);
        let (n2, w3) = lemma_near_maybe(a2, v.hidden, "hidden"@, JsonView::Bool(v.hidden), n3);
        let (n1, w2) = lemma_near_maybe(a1, v.muted, "muted"@, JsonView::Bool(v.muted), n2);
        let (n0, w1) = lemma_near_maybe(none(), v.locked, "locked"@, JsonView::Bool(v.locked), n1);
        lemma_near_none(n0);
        v
    }

    open spec fn levels() -> nat {
        1
    }

    proof fn lemma_calm(v: LaneMeta, d: nat, exact: bool) {
        broadcast use group_calm;

        lemma_words();
        let m = Self::written(v)->Object_0;
        assert(tidy(m, (d - 1) as nat, exact));
        lemma_calm_object(m, d, exact);
    }
}

/// A transition in a document.
pub open spec fn cut_in(j: JsonView) -> Option<Transition> {
    let kind = match field(j, "kind"@, 0) {
        None => Some(TransitionKind::Crossfade),
        Some(k) => transition_in(Some(k)),
    };
    let duration = fixed_in(field(j, "duration"@, 1));
    if record(j, 2) && sole(j, "kind"@) && sole(j, "duration"@)
        && kind is Some && duration is Some {
        Some(Transition { kind: kind->0, duration: duration->0 as i128 })
    } else {
        None
    }
}

pub open spec fn cut_written(t: Transition) -> JsonView {
    JsonView::Object(
        none() + one("kind"@, JsonView::Text(transition_name(t.kind))) + one(
            "duration"@,
            num(t.duration as int),
        ),
    )
}

pub fn get_cut(j: &Json) -> (r: Option<Transition>)
    ensures
        r == cut_in(j@),
{
    if !is_record(j, 2) || !is_sole(j, "kind") || !is_sole(j, "duration") {
        return None;
    }
    let kind: Option<TransitionKind> = match get_field(j, "kind", 0) {
        None => Some(TransitionKind::Crossfade),
        Some(k) => get_transition(Some(k)),
    };
    match (kind, get_fixed(get_field(j, "duration", 1))) {
        (Some(kind), Some(duration)) => Some(Transition { kind, duration }),
        _ => None,
    }
}

pub fn cut_json(t: &Transition) -> (r: Json)
    ensures
        r@ == cut_written(*t),
{
    let mut m: Vec<(String, Json)> = nothing();
    put(&mut m, "kind", text_json(name_transition(t.kind)));
    put(&mut m, "duration", fixed_json(t.duration));
    object(m)
}

pub proof fn lemma_cut_back(t: Transition)
    requires
        in_range(t.duration as int),
    ensures
        cut_in(cut_written(t)) == Some(t),
{
    lemma_cut_calm(t, 1, false);
    lemma_calm_sole(cut_written(t), 1, false);
    lemma_words();
    lemma_transition_name(t.kind);
    law_number(t.duration as int);
}

pub proof fn lemma_cut_storable(j: JsonView)
    requires
        cut_in(j) is Some,
    ensures
        in_range(cut_in(j)->0.duration as int),
{
    lemma_fixed_in(field(j, "duration"@, 1), 0);
}

pub proof fn lemma_cut_modest(j: JsonView)
    requires
        cut_in(j) is Some,
        steady(j),
    ensures
        lasting(cut_in(j)->0.duration as int),
{
    broadcast use lemma_steady_field;

    lemma_fixed_in(field(j, "duration"@, 1), 0);
    lemma_fixed_lasting(field(j, "duration"@, 1), 0);
}

pub proof fn lemma_cut_near(t: Transition, w: JsonView) -> (q: Transition)
    requires
        in_range(t.duration as int),
        near(cut_written(t), w),
    ensures
        in_range(q.duration as int),
        cut_written(q) == w,
{
    let a1 = none() + one("kind"@, JsonView::Text(transition_name(t.kind)));
    let a2 = a1 + one("duration"@, num(t.duration as int));
    let n2 = lemma_near_object(a2, w);
    let (n1, w2) = lemma_near_one(a1, "duration"@, num(t.duration as int), n2);
    let (n0, w1) = lemma_near_one(none(), "kind"@, JsonView::Text(transition_name(t.kind)), n1);
    lemma_near_none(n0);
    let duration = lemma_near_number(t.duration as int, w2);
    Transition { duration: duration as i128, ..t }
}

pub proof fn lemma_cut_calm(t: Transition, d: nat, exact: bool)
    requires
        d > 0,
        in_range(t.duration as int),
        exact ==> lasting(t.duration as int),
    ensures
        calm(cut_written(t), d, exact),
{
    broadcast use group_calm;

    lemma_words();
    let m = cut_written(t)->Object_0;
    assert(tidy(m, (d - 1) as nat, exact));
    lemma_calm_object(m, d, exact);
}

/// A transform in a document; an absent one is the plain one.
pub open spec fn transform_in(o: Option<JsonView>) -> Option<Transform> {
    match o {
        None => Some(Transform::plain()),
        Some(j) => {
            let x = fixed_or(field(j, "x"@, 0), 0);
            let y = fixed_or(field(j, "y"@, 1), 0);
            let width = fixed_or(field(j, "width"@, 2), 0);
            let height = fixed_or(field(j, "height"@, 3), 0);
            let opacity = fixed_or(field(j, "opacity"@, 4), UNIT as int);
            if record(j, 5) && sole(j, "x"@) && sole(j, "y"@) && sole(j, "width"@)
                && sole(j, "height"@) && sole(j, "opacity"@)
                && x is Some && y is Some && width is Some && height is Some && opacity
                is Some {
                Some(
                    Transform {
                        x: x->0 as i128,
                        y: y->0 as i128,
                        width: width->0 as i128,
                        height: height->0 as i128,
                        opacity: opacity->0 as i128,
                    },
                )
            } else {
                None
            }
        },
    }
}

pub open spec fn transform_written(t: Transform) -> JsonView {
    JsonView::Object(
        none() + one("x"@, num(t.x as int)) + one("y"@, num(t.y as int)) + one(
            "width"@,
            num(t.width as int),
        ) + one("height"@, num(t.height as int)) + one("opacity"@, num(t.opacity as int)),
    )
}

pub fn get_transform(o: Option<&Json>) -> (r: Option<Transform>)
    ensures
        r == transform_in(seen(o)),
{
    let j: &Json = match o {
        None => return Some(Transform { x: 0, y: 0, width: 0, height: 0, opacity: UNIT }),
        Some(j) => j,
    };
    if !is_record(j, 5) || !is_sole(j, "x") || !is_sole(j, "y") || !is_sole(j, "width")
        || !is_sole(j, "height") || !is_sole(j, "opacity") {
        return None;
    }
    let x: Option<i128> = get_fixed_or(get_field(j, "x", 0), 0);
    let y: Option<i128> = get_fixed_or(get_field(j, "y", 1), 0);
    let width: Option<i128> = get_fixed_or(get_field(j, "width", 2), 0);
    let height: Option<i128> = get_fixed_or(get_field(j, "height", 3), 0);
    let opacity: Option<i128> = get_fixed_or(get_field(j, "opacity", 4), UNIT);
    match (x, y, width, height, opacity) {
        (Some(x), Some(y), Some(width), Some(height), Some(opacity)) => Some(
            Transform { x, y, width, height, opacity },
        ),
        _ => None,
    }
}

pub fn transform_json(t: &Transform) -> (r: Json)
    ensures
        r@ == transform_written(*t),
{
    let mut m: Vec<(String, Json)> = nothing();
    put(&mut m, "x", fixed_json(t.x));
    put(&mut m, "y", fixed_json(t.y));
    put(&mut m, "width", fixed_json(t.width));
    put(&mut m, "height", fixed_json(t.height));
    put(&mut m, "opacity", fixed_json(t.opacity));
    object(m)
}

pub proof fn lemma_transform_back(t: Transform)
    requires
        t.fits(1),
    ensures
        transform_in(Some(transform_written(t))) == Some(t),
{
    lemma_transform_calm(t, 1, false);
    lemma_calm_sole(transform_written(t), 1, false);
    lemma_words();
    law_number(t.x as int);
    law_number(t.y as int);
    law_number(t.width as int);
    law_number(t.height as int);
    law_number(t.opacity as int);
}

pub proof fn lemma_transform_storable(o: Option<JsonView>)
    requires
        transform_in(o) is Some,
    ensures
        transform_in(o)->0.fits(1),
{
    match o {
        None => {},
        Some(j) => {
            lemma_fixed_in(field(j, "x"@, 0), 0);
            lemma_fixed_in(field(j, "y"@, 1), 0);
            lemma_fixed_in(field(j, "width"@, 2), 0);
            lemma_fixed_in(field(j, "height"@, 3), 0);
            lemma_fixed_in(field(j, "opacity"@, 4), UNIT as int);
        },
    }
}

/// The numbers of a transform last.
pub open spec fn transform_modest(t: Transform) -> bool {
    lasting(t.x as int) && lasting(t.y as int) && lasting(t.width as int) && lasting(
        t.height as int,
    ) && lasting(t.opacity as int)
}

pub proof fn lemma_transform_modest(o: Option<JsonView>)
    requires
        transform_in(o) is Some,
        o is Some ==> steady(o->0),
    ensures
        transform_modest(transform_in(o)->0),
{
    broadcast use lemma_steady_field;

    if let Some(j) = o {
        lemma_transform_storable(o);
        lemma_fixed_in(field(j, "x"@, 0), 0);
        lemma_fixed_in(field(j, "y"@, 1), 0);
        lemma_fixed_in(field(j, "width"@, 2), 0);
        lemma_fixed_in(field(j, "height"@, 3), 0);
        lemma_fixed_in(field(j, "opacity"@, 4), UNIT as int);
        lemma_fixed_lasting(field(j, "x"@, 0), 0);
        lemma_fixed_lasting(field(j, "y"@, 1), 0);
        lemma_fixed_lasting(field(j, "width"@, 2), 0);
        lemma_fixed_lasting(field(j, "height"@, 3), 0);
        lemma_fixed_lasting(field(j, "opacity"@, 4), UNIT as int);
    }
}

pub proof fn lemma_transform_near(t: Transform, w: JsonView) -> (q: Transform)
    requires
        t.fits(1),
        near(transform_written(t), w),
    ensures
        q.fits(1),
        transform_written(q) == w,
{
    let a1 = none() + one("x"@, num(t.x as int));
    let a2 = a1 + one("y"@, num(t.y as int));
    let a3 = a2 + one("width"@, num(t.width as int));
    let a4 = a3 + one("height"@, num(t.height as int));
    let a5 = a4 + one("opacity"@, num(t.opacity as int));
    let n5 = lemma_near_object(a5, w);
    let (n4, w5) = lemma_near_one(a4, "opacity"@, num(t.opacity as int), n5);
    let (n3, w4) = lemma_near_one(a3, "height"@, num(t.height as int), n4);
    let (n2, w3) = lemma_near_one(a2, "width"@, num(t.width as int), n3);
    let (n1, w2) = lemma_near_one(a1, "y"@, num(t.y as int), n2);
    let (n0, w1) = lemma_near_one(none(), "x"@, num(t.x as int), n1);
    lemma_near_none(n0);
    let x = lemma_near_number(t.x as int, w1);
    let y = lemma_near_number(t.y as int, w2);
    let width = lemma_near_number(t.width as int, w3);
    let height = lemma_near_number(t.height as int, w4);
    let opacity = lemma_near_number(t.opacity as int, w5);
    Transform {
        x: x as i128,
        y: y as i128,
        width: width as i128,
        height: height as i128,
        opacity: opacity as i128,
    }
}

pub proof fn lemma_transform_calm(t: Transform, d: nat, exact: bool)
    requires
        d > 0,
        t.fits(1),
        exact ==> transform_modest(t),
    ensures
        calm(transform_written(t), d, exact),
{
    broadcast use group_calm;

    lemma_words();
    let m = transform_written(t)->Object_0;
    assert(tidy(m, (d - 1) as nat, exact));
    lemma_calm_object(m, d, exact);
}

/// An easing in a document; an absent one is linear.
pub open spec fn easing_or_linear(o: Option<JsonView>) -> Option<Easing> {
    match o {
        None => Some(Easing::Linear),
        _ => easing_in(o),
    }
}

fn get_easing_or_linear(o: Option<&Json>) -> (r: Option<Easing>)
    ensures
        r == easing_or_linear(seen(o)),
{
    match o {
        None => Some(Easing::Linear),
        _ => get_easing(o),
    }
}

impl Stored for Keyframe {
    open spec fn read_in(j: JsonView) -> Option<KeyframeView> {
        let t = fixed_in(field(j, "t"@, 0));
        let value = fixed_in(field(j, "value"@, 1));
        let easing = easing_or_linear(field(j, "easing"@, 2));
        if record(j, 3) && sole(j, "t"@) && sole(j, "value"@) && sole(j, "easing"@)
            && t is Some && value is Some && easing is Some {
            Some(KeyframeView { t: t->0, value: value->0, easing: easing->0 })
        } else {
            None
        }
    }

    open spec fn written(v: KeyframeView) -> JsonView {
        JsonView::Object(
            none() + one("t"@, num(v.t)) + one("value"@, num(v.value)) + one(
                "easing"@,
                JsonView::Text(easing_name(v.easing)),
            ),
        )
    }

    open spec fn storable(v: KeyframeView) -> bool {
        in_range(v.t) && in_range(v.value)
    }

    fn read(j: &Json) -> (r: Option<Keyframe>) {
        if !is_record(j, 3) || !is_sole(j, "t") || !is_sole(j, "value") || !is_sole(j, "easing") {
            return None;
        }
        let t: Option<i128> = get_fixed(get_field(j, "t", 0));
        let value: Option<i128> = get_fixed(get_field(j, "value", 1));
        let easing: Option<Easing> = get_easing_or_linear(get_field(j, "easing", 2));
        match (t, value, easing) {
            (Some(t), Some(value), Some(easing)) => Some(Keyframe { t, value, easing }),
            _ => None,
        }
    }

    fn write(&self) -> (r: Json) {
        let mut m: Vec<(String, Json)> = nothing();
        put(&mut m, "t", fixed_json(self.t));
        put(&mut m, "value", fixed_json(self.value));
        put(&mut m, "easing", text_json(name_easing(self.easing)));
        object(m)
    }

    proof fn lemma_read_back(v: KeyframeView) {
        lemma_calm_sole(Self::written(v), Self::levels(), false);
        lemma_words();
        law_number(v.t);
        law_number(v.value);
        lemma_easing_name(v.easing);
    }

    proof fn lemma_read_storable(j: JsonView) {
        lemma_fixed_in(field(j, "t"@, 0), 0);
        lemma_fixed_in(field(j, "value"@, 1), 0);
    }

    open spec fn modest(v: KeyframeView) -> bool {
        lasting(v.t) && lasting(v.value)
    }

    proof fn lemma_read_modest(j: JsonView) {
        broadcast use lemma_steady_field;

        lemma_fixed_lasting(field(j, "t"@, 0), 0);
        lemma_fixed_lasting(field(j, "value"@, 1), 0);
    }

    proof fn lemma_near(v: KeyframeView, w: JsonView) -> (q: KeyframeView) {
        let a1 = none() + one("t"@, num(v.t));
        let a2 = a1 + one("value"@, num(v.value));
        let a3 = a2 + one("easing"@, JsonView::Text(easing_name(v.easing)));
        let n3 = lemma_near_object(a3, w);
        let (n2, w3) = lemma_near_one(a2, "easing"@, JsonView::Text(easing_name(v.easing)), n3);
        let (n1, w2) = lemma_near_one(a1, "value"@, num(v.value), n2);
        let (n0, w1) = lemma_near_one(none(), "t"@, num(v.t), n1);
        lemma_near_none(n0);
        let t = lemma_near_number(v.t, w1);
        let value = lemma_near_number(v.value, w2);
        KeyframeView { t, value, ..v }
    }

    open spec fn levels() -> nat {
        1
    }

    proof fn lemma_calm(v: KeyframeView, d: nat, exact: bool) {
        broadcast use group_calm;

        lemma_words();
        let m = Self::written(v)->Object_0;
        assert(tidy(m, (d - 1) as nat, exact));
        lemma_calm_object(m, d, exact);
    }
}

impl Stored for Anim {
    open spec fn read_in(j: JsonView) -> Option<AnimView> {
        let property = property_in(field(j, "property"@, 0));
        let from = fixed_or(field(j, "from"@, 1), 0);
        let to = fixed_or(field(j, "to"@, 2), 0);
        let start = fixed_or(field(j, "start"@, 3), 0);
        let end = fixed_or(field(j, "end"@, 4), 0);
        let easing = easing_or_linear(field(j, "easing"@, 5));
        let keyframes = items_or_none::<Keyframe>(field(j, "keyframes"@, 6));
        if record(j, 7) && sole(j, "property"@) && sole(j, "from"@) && sole(j, "to"@)
            && sole(j, "start"@) && sole(j, "end"@) && sole(j, "easing"@) && sole(j, "keyframes"@)
            && property is Some && from is Some && to is Some && start is Some && end
            is Some && easing is Some && keyframes is Some {
            Some(
                AnimView {
                    property: property->0,
                    from: from->0,
                    to: to->0,
                    start: start->0,
                    end: end->0,
                    easing: easing->0,
                    keyframes: keyframes->0,
                },
            )
        } else {
            None
        }
    }

    open spec fn written(v: AnimView) -> JsonView {
        JsonView::Object(
            none() + one("property"@, JsonView::Text(property_name(v.property))) + one(
                "from"@,
                num(v.from),
            ) + one("to"@, num(v.to)) + one("start"@, num(v.start)) + one("end"@, num(v.end)) + one(
                "easing"@,
                JsonView::Text(easing_name(v.easing)),
            ) + maybe(
                v.keyframes.len() > 0,
                "keyframes"@,
                items_written::<Keyframe>(v.keyframes),
            ),
        )
    }

    open spec fn storable(v: AnimView) -> bool {
        &&& in_range(v.from) && in_range(v.to) && in_range(v.start) && in_range(v.end)
        &&& all_storable::<Keyframe>(v.keyframes)
    }

    fn read(j: &Json) -> (r: Option<Anim>) {
        if !is_record(j, 7) || !is_sole(j, "property") || !is_sole(j, "from") || !is_sole(j, "to")
            || !is_sole(j, "start") || !is_sole(j, "end") || !is_sole(j, "easing")
            || !is_sole(j, "keyframes") {
            return None;
        }
        let property: Option<AnimProperty> = get_property(get_field(j, "property", 0));
        let from: Option<i128> = get_fixed_or(get_field(j, "from", 1), 0);
        let to: Option<i128> = get_fixed_or(get_field(j, "to", 2), 0);
        let start: Option<i128> = get_fixed_or(get_field(j, "start", 3), 0);
        let end: Option<i128> = get_fixed_or(get_field(j, "end", 4), 0);
        let easing: Option<Easing> = get_easing_or_linear(get_field(j, "easing", 5));
        let keyframes: Option<Vec<Keyframe>> = get_items_or_none(get_field(j, "keyframes", 6));
        match (property, from, to, start, end, easing, keyframes) {
            (
                Some(property),
                Some(from),
                Some(to),
                Some(start),
                Some(end),
                Some(easing),
                Some(keyframes),
            ) => Some(Anim { property, from, to, start, end, easing, keyframes }),
            _ => None,
        }
    }

    fn write(&self) -> (r: Json) {
        let mut m: Vec<(String, Json)> = nothing();
        put(&mut m, "property", text_json(name_property(self.property)));
        put(&mut m, "from", fixed_json(self.from));
        put(&mut m, "to", fixed_json(self.to));
        put(&mut m, "start", fixed_json(self.start));
        put(&mut m, "end", fixed_json(self.end));
        put(&mut m, "easing", text_json(name_easing(self.easing)));
        put_if(&mut m, self.keyframes.len() > 0, "keyframes", items_json(&self.keyframes));
        object(m)
    }

    proof fn lemma_read_back(v: AnimView) {
        lemma_calm_sole(Self::written(v), Self::levels(), false);
        lemma_words();
        law_number(v.from);
        law_number(v.to);
        law_number(v.start);
        law_number(v.end);
        lemma_property_name(v.property);
        lemma_easing_name(v.easing);
        lemma_items_back::<Keyframe>(v.keyframes);
        if v.keyframes.len() == 0 {
            assert(v.keyframes =~= Seq::empty());
        }
    }

    proof fn lemma_read_storable(j: JsonView) {
        lemma_fixed_in(field(j, "from"@, 1), 0);
        lemma_fixed_in(field(j, "to"@, 2), 0);
        lemma_fixed_in(field(j, "start"@, 3), 0);
        lemma_fixed_in(field(j, "end"@, 4), 0);
        lemma_items_storable::<Keyframe>(field(j, "keyframes"@, 6));
    }

    open spec fn modest(v: AnimView) -> bool {
        &&& lasting(v.from) && lasting(v.to) && lasting(v.start) && lasting(v.end)
        &&& all_modest::<Keyframe>(v.keyframes)
    }

    proof fn lemma_read_modest(j: JsonView) {
        broadcast use lemma_steady_field;

        lemma_fixed_lasting(field(j, "from"@, 1), 0);
        lemma_fixed_lasting(field(j, "to"@, 2), 0);
        lemma_fixed_lasting(field(j, "start"@, 3), 0);
        lemma_fixed_lasting(field(j, "end"@, 4), 0);
        lemma_items_modest::<Keyframe>(field(j, "keyframes"@, 6));
    }

    proof fn lemma_near(v: AnimView, w: JsonView) -> (q: AnimView) {
        let a1 = none() + one("property"@, JsonView::Text(property_name(v.property)));
        let a2 = a1 + one("from"@, num(v.from));
        let a3 = a2 + one("to"@, num(v.to));
        let a4 = a3 + one("start"@, num(v.start));
        let a5 = a4 + one("end"@, num(v.end));
        let a6 = a5 + one("easing"@, JsonView::Text(easing_name(v.easing)));
        let a7 = a6 + maybe(
            v.keyframes.len() > 0,
            "keyframes"@,
            items_written::<Keyframe>(v.keyframes),
        );
        let n7 = lemma_near_object(a7, w);
        let (n6, w7) = lemma_near_maybe(
            a6,
            v.keyframes.len() > 0,
            "keyframes"@,
            items_written::<Keyframe>(v.keyframes),
            n7,
        );
        let (n5, w6) = lemma_near_one(a5, "easing"@, JsonView::Text(easing_name(v.easing)), n6);
        let (n4, w5) = lemma_near_one(a4, "end"@, num(v.end), n5);
        let (n3, w4) = lemma_near_one(a3, "start"@, num(v.start), n4);
        let (n2, w3) = lemma_near_one(a2, "to"@, num(v.to), n3);
        let (n1, w2) = lemma_near_one(a1, "from"@, num(v.from), n2);
        let (n0, w1) = lemma_near_one(
            none(),
            "property"@,
            JsonView::Text(property_name(v.property)),
            n1,
        );
        lemma_near_none(n0);
        let from = lemma_near_number(v.from, w2);
        let to = lemma_near_number(v.to, w3);
        let start = lemma_near_number(v.start, w4);
        let end = lemma_near_number(v.end, w5);
        let keyframes = if v.keyframes.len() > 0 {
            lemma_near_items::<Keyframe>(v.keyframes, w7)
        } else {
            v.keyframes
        };
        AnimView { from, to, start, end, keyframes, ..v }
    }

    open spec fn levels() -> nat {
        3
    }

    proof fn lemma_calm(v: AnimView, d: nat, exact: bool) {
        broadcast use group_calm;

        lemma_words();
        let m = Self::written(v)->Object_0;
        lemma_items_calm::<Keyframe>(v.keyframes, (d - 1) as nat, exact);
        assert(tidy(m, (d - 1) as nat, exact));
        lemma_calm_object(m, d, exact);
    }
}

/// The name of an effect in a document.
pub open spec fn effect_name(e: EffectView) -> Seq<char> {
    match e {
        EffectView::Blur { .. } => "blur"@,
        EffectView::ChromaKey { .. } => "chromakey"@,
        EffectView::Crop { .. } => "crop"@,
        EffectView::Eq { .. } => "eq"@,
        EffectView::Compressor { .. } => "compressor"@,
        EffectView::Denoise { .. } => "denoise"@,
        EffectView::Color { .. } => "color"@,
    }
}

/// The effect `blur` in a document.
pub open spec fn blur_in(j: JsonView) -> Option<EffectView> {
    let amount = fixed_in(field(j, "amount"@, 1));
    if record(j, 2) && sole(j, "type"@) && sole(j, "amount"@) && amount is Some {
        Some(EffectView::Blur { amount: amount->0 })
    } else {
        None
    }
}

fn get_blur(j: &Json) -> (r: Option<Effect>)
    ensures
        match r {
            Some(e) => blur_in(j@) == Some(e@),
            None => blur_in(j@) is None,
        },
{
    if !is_record(j, 2) || !is_sole(j, "type") || !is_sole(j, "amount") {
        return None;
    }
    let amount: Option<i128> = get_fixed(get_field(j, "amount", 1));
    match amount {
        Some(amount) => Some(
            Effect::Blur { amount },
        ),
        _ => None,
    }
}

/// The effect `chromakey` in a document.
pub open spec fn chromakey_in(j: JsonView) -> Option<EffectView> {
    let color = text_or(field(j, "color"@, 1), "#00ff00"@);
    let angle = fixed_or(field(j, "angle"@, 2), 20 * UNIT as int);
    let noise = fixed_or(field(j, "noise"@, 3), 0);
    if record(j, 4) && sole(j, "type"@) && sole(j, "color"@) && sole(j, "angle"@)
        && sole(j, "noise"@) && color is Some && angle is Some && noise is Some {
        Some(EffectView::ChromaKey { color: color->0, angle: angle->0, noise: noise->0 })
    } else {
        None
    }
}

fn get_chromakey(j: &Json) -> (r: Option<Effect>)
    ensures
        match r {
            Some(e) => chromakey_in(j@) == Some(e@),
            None => chromakey_in(j@) is None,
        },
{
    if !is_record(j, 4) || !is_sole(j, "type") || !is_sole(j, "color") || !is_sole(j, "angle")
        || !is_sole(j, "noise") {
        return None;
    }
    let color: Option<String> = get_text_or(get_field(j, "color", 1), "#00ff00");
    let angle: Option<i128> = get_fixed_or(get_field(j, "angle", 2), 20 * UNIT);
    let noise: Option<i128> = get_fixed_or(get_field(j, "noise", 3), 0);
    match (color, angle, noise) {
        (Some(color), Some(angle), Some(noise)) => Some(
            Effect::ChromaKey { color, angle, noise },
        ),
        _ => None,
    }
}

/// The effect `crop` in a document.
pub open spec fn crop_in(j: JsonView) -> Option<EffectView> {
    let left = whole_or(field(j, "left"@, 1), i32::MIN as int, i32::MAX as int, 0);
    let right = whole_or(field(j, "right"@, 2), i32::MIN as int, i32::MAX as int, 0);
    let top = whole_or(field(j, "top"@, 3), i32::MIN as int, i32::MAX as int, 0);
    let bottom = whole_or(field(j, "bottom"@, 4), i32::MIN as int, i32::MAX as int, 0);
    if record(j, 5) && sole(j, "type"@) && sole(j, "left"@) && sole(j, "right"@)
        && sole(j, "top"@) && sole(j, "bottom"@)
        && left is Some && right is Some && top is Some && bottom is Some {
        Some(EffectView::Crop { left: left->0, right: right->0, top: top->0, bottom: bottom->0 })
    } else {
        None
    }
}

fn get_crop(j: &Json) -> (r: Option<Effect>)
    ensures
        match r {
            Some(e) => crop_in(j@) == Some(e@),
            None => crop_in(j@) is None,
        },
{
    if !is_record(j, 5) || !is_sole(j, "type") || !is_sole(j, "left") || !is_sole(j, "right")
        || !is_sole(j, "top") || !is_sole(j, "bottom") {
        return None;
    }
    let left: Option<i64> = get_whole_or(get_field(j, "left", 1), -2_147_483_648, 2_147_483_647, 0);
    let right: Option<i64> = get_whole_or(get_field(j, "right", 2), -2_147_483_648, 2_147_483_647, 0);
    let top: Option<i64> = get_whole_or(get_field(j, "top", 3), -2_147_483_648, 2_147_483_647, 0);
    let bottom: Option<i64> = get_whole_or(get_field(j, "bottom", 4), -2_147_483_648, 2_147_483_647, 0);
    match (left, right, top, bottom) {
        (Some(left), Some(right), Some(top), Some(bottom)) => Some(
            Effect::Crop { left: left as i32, right: right as i32, top: top as i32, bottom: bottom as i32 },
        ),
        _ => None,
    }
}

/// The effect `eq` in a document.
pub open spec fn eq_in(j: JsonView) -> Option<EffectView> {
    let low = fixed_or(field(j, "low"@, 1), 0);
    let mid = fixed_or(field(j, "mid"@, 2), 0);
    let high = fixed_or(field(j, "high"@, 3), 0);
    if record(j, 4) && sole(j, "type"@) && sole(j, "low"@) && sole(j, "mid"@) && sole(j, "high"@)
        && low is Some && mid is Some && high is Some {
        Some(EffectView::Eq { low: low->0, mid: mid->0, high: high->0 })
    } else {
        None
    }
}

fn get_eq(j: &Json) -> (r: Option<Effect>)
    ensures
        match r {
            Some(e) => eq_in(j@) == Some(e@),
            None => eq_in(j@) is None,
        },
{
    if !is_record(j, 4) || !is_sole(j, "type") || !is_sole(j, "low") || !is_sole(j, "mid")
        || !is_sole(j, "high") {
        return None;
    }
    let low: Option<i128> = get_fixed_or(get_field(j, "low", 1), 0);
    let mid: Option<i128> = get_fixed_or(get_field(j, "mid", 2), 0);
    let high: Option<i128> = get_fixed_or(get_field(j, "high", 3), 0);
    match (low, mid, high) {
        (Some(low), Some(mid), Some(high)) => Some(
            Effect::Eq { low, mid, high },
        ),
        _ => None,
    }
}

/// The effect `compressor` in a document.
pub open spec fn compressor_in(j: JsonView) -> Option<EffectView> {
    let threshold = fixed_or(field(j, "threshold"@, 1), 250_000_000 as int);
    let ratio = fixed_or(field(j, "ratio"@, 2), 2 * UNIT as int);
    if record(j, 3) && sole(j, "type"@) && sole(j, "threshold"@) && sole(j, "ratio"@)
        && threshold is Some && ratio is Some {
        Some(EffectView::Compressor { threshold: threshold->0, ratio: ratio->0 })
    } else {
        None
    }
}

fn get_compressor(j: &Json) -> (r: Option<Effect>)
    ensures
        match r {
            Some(e) => compressor_in(j@) == Some(e@),
            None => compressor_in(j@) is None,
        },
{
    if !is_record(j, 3) || !is_sole(j, "type") || !is_sole(j, "threshold") || !is_sole(j, "ratio") {
        return None;
    }
    let threshold: Option<i128> = get_fixed_or(get_field(j, "threshold", 1), 250_000_000);
    let ratio: Option<i128> = get_fixed_or(get_field(j, "ratio", 2), 2 * UNIT);
    match (threshold, ratio) {
        (Some(threshold), Some(ratio)) => Some(
            Effect::Compressor { threshold, ratio },
        ),
        _ => None,
    }
}

/// The effect `denoise` in a document.
pub open spec fn denoise_in(j: JsonView) -> Option<EffectView> {
    let level = whole_or(field(j, "level"@, 1), 0, u32::MAX as int, 1);
    if record(j, 2) && sole(j, "type"@) && sole(j, "level"@) && level is Some {
        Some(EffectView::Denoise { level: level->0 })
    } else {
        None
    }
}

fn get_denoise(j: &Json) -> (r: Option<Effect>)
    ensures
        match r {
            Some(e) => denoise_in(j@) == Some(e@),
            None => denoise_in(j@) is None,
        },
{
    if !is_record(j, 2) || !is_sole(j, "type") || !is_sole(j, "level") {
        return None;
    }
    let level: Option<i64> = get_whole_or(get_field(j, "level", 1), 0, 4_294_967_295, 1);
    match level {
        Some(level) => Some(
            Effect::Denoise { level: level as u32 },
        ),
        _ => None,
    }
}

/// The effect `color` in a document.
pub open spec fn color_in(j: JsonView) -> Option<EffectView> {
    let brightness = fixed_or(field(j, "brightness"@, 1), 0);
    let contrast = fixed_or(field(j, "contrast"@, 2), UNIT as int);
    let saturation = fixed_or(field(j, "saturation"@, 3), UNIT as int);
    let hue = fixed_or(field(j, "hue"@, 4), 0);
    if record(j, 5) && sole(j, "type"@) && sole(j, "brightness"@) && sole(j, "contrast"@)
        && sole(j, "saturation"@) && sole(j, "hue"@)
        && brightness is Some && contrast is Some && saturation is Some && hue is Some {
        Some(
            EffectView::Color {
                brightness: brightness->0,
                contrast: contrast->0,
                saturation: saturation->0,
                hue: hue->0,
            },
        )
    } else {
        None
    }
}

fn get_color(j: &Json) -> (r: Option<Effect>)
    ensures
        match r {
            Some(e) => color_in(j@) == Some(e@),
            None => color_in(j@) is None,
        },
{
    if !is_record(j, 5) || !is_sole(j, "type") || !is_sole(j, "brightness")
        || !is_sole(j, "contrast") || !is_sole(j, "saturation") || !is_sole(j, "hue") {
        return None;
    }
    let brightness: Option<i128> = get_fixed_or(get_field(j, "brightness", 1), 0);
    let contrast: Option<i128> = get_fixed_or(get_field(j, "contrast", 2), UNIT);
    let saturation: Option<i128> = get_fixed_or(get_field(j, "saturation", 3), UNIT);
    let hue: Option<i128> = get_fixed_or(get_field(j, "hue", 4), 0);
    match (brightness, contrast, saturation, hue) {
        (Some(brightness), Some(contrast), Some(saturation), Some(hue)) => Some(
            Effect::Color { brightness, contrast, saturation, hue },
        ),
        _ => None,
    }
}

/// An effect in a document.
pub open spec fn effect_in(j: JsonView) -> Option<EffectView> {
    match text_in(field(j, "type"@, 0)) {
        None => None,
        Some(name) => if name == "blur"@ {
            blur_in(j)
        } else if name == "chromakey"@ {
            chromakey_in(j)
        } else if name == "crop"@ {
            crop_in(j)
        } else if name == "eq"@ {
            eq_in(j)
        } else if name == "compressor"@ {
            compressor_in(j)
        } else if name == "denoise"@ {
            denoise_in(j)
        } else if name == "color"@ {
            color_in(j)
        } else {
            None
        },
    }
}

/// The fields of an effect as a document writes them.
pub open spec fn effect_fields(e: EffectView) -> Seq<(Seq<char>, JsonView)> {
    let head = none() + one("type"@, JsonView::Text(effect_name(e)));
    match e {
        EffectView::Blur { amount } => head + one("amount"@, num(amount)),
        EffectView::ChromaKey { color, angle, noise } => head + one("color"@, JsonView::Text(color))
            + one("angle"@, num(angle)) + one("noise"@, num(noise)),
        EffectView::Crop { left, right, top, bottom } => head + one("left"@, int_num(left)) + one(
            "right"@,
            int_num(right),
        ) + one("top"@, int_num(top)) + one("bottom"@, int_num(bottom)),
        EffectView::Eq { low, mid, high } => head + one("low"@, num(low)) + one("mid"@, num(mid))
            + one("high"@, num(high)),
        EffectView::Compressor { threshold, ratio } => head + one("threshold"@, num(threshold))
            + one("ratio"@, num(ratio)),
        EffectView::Denoise { level } => head + one("level"@, int_num(level)),
        EffectView::Color { brightness, contrast, saturation, hue } => head + one(
            "brightness"@,
            num(brightness),
        ) + one("contrast"@, num(contrast)) + one("saturation"@, num(saturation)) + one(
            "hue"@,
            num(hue),
        ),
    }
}

impl Stored for Effect {
    open spec fn read_in(j: JsonView) -> Option<EffectView> {
        effect_in(j)
    }

    open spec fn written(v: EffectView) -> JsonView {
        JsonView::Object(effect_fields(v))
    }

    open spec fn storable(v: EffectView) -> bool {
        match v {
            EffectView::Blur { amount } => in_range(amount),
            EffectView::ChromaKey { color, angle, noise } => in_range(angle) && in_range(noise),
            EffectView::Crop { left, right, top, bottom } => small(left) && small(right) && small(
                top,
            ) && small(bottom),
            EffectView::Eq { low, mid, high } => in_range(low) && in_range(mid) && in_range(high),
            EffectView::Compressor { threshold, ratio } => in_range(threshold) && in_range(ratio),
            EffectView::Denoise { level } => 0 <= level <= u32::MAX,
            EffectView::Color { brightness, contrast, saturation, hue } => in_range(brightness)
                && in_range(contrast) && in_range(saturation) && in_range(hue),
        }
    }

    fn read(j: &Json) -> (r: Option<Effect>) {
        let name: String = match get_text(get_field(j, "type", 0)) {
            Some(s) => s,
            None => return None,
        };
        let s: &str = name.as_str();
        if same(s, "blur") {
            get_blur(j)
        } else if same(s, "chromakey") {
            get_chromakey(j)
        } else if same(s, "crop") {
            get_crop(j)
        } else if same(s, "eq") {
            get_eq(j)
        } else if same(s, "compressor") {
            get_compressor(j)
        } else if same(s, "denoise") {
            get_denoise(j)
        } else if same(s, "color") {
            get_color(j)
        } else {
            None
        }
    }

    fn write(&self) -> (r: Json) {
        let mut m: Vec<(String, Json)> = nothing();
        match self {
            Effect::Blur { amount } => {
                put(&mut m, "type", text_json("blur"));
                put(&mut m, "amount", fixed_json(*amount));
            },
            Effect::ChromaKey { color, angle, noise } => {
                put(&mut m, "type", text_json("chromakey"));
                put(&mut m, "color", text_json(color.as_str()));
                put(&mut m, "angle", fixed_json(*angle));
                put(&mut m, "noise", fixed_json(*noise));
            },
            Effect::Crop { left, right, top, bottom } => {
                put(&mut m, "type", text_json("crop"));
                put(&mut m, "left", whole_json(*left as i64));
                put(&mut m, "right", whole_json(*right as i64));
                put(&mut m, "top", whole_json(*top as i64));
                put(&mut m, "bottom", whole_json(*bottom as i64));
            },
            Effect::Eq { low, mid, high } => {
                put(&mut m, "type", text_json("eq"));
                put(&mut m, "low", fixed_json(*low));
                put(&mut m, "mid", fixed_json(*mid));
                put(&mut m, "high", fixed_json(*high));
            },
            Effect::Compressor { threshold, ratio } => {
                put(&mut m, "type", text_json("compressor"));
                put(&mut m, "threshold", fixed_json(*threshold));
                put(&mut m, "ratio", fixed_json(*ratio));
            },
            Effect::Denoise { level } => {
                put(&mut m, "type", text_json("denoise"));
                put(&mut m, "level", whole_json(*level as i64));
            },
            Effect::Color { brightness, contrast, saturation, hue } => {
                put(&mut m, "type", text_json("color"));
                put(&mut m, "brightness", fixed_json(*brightness));
                put(&mut m, "contrast", fixed_json(*contrast));
                put(&mut m, "saturation", fixed_json(*saturation));
                put(&mut m, "hue", fixed_json(*hue));
            },
        }
        object(m)
    }

    proof fn lemma_read_back(v: EffectView) {
        lemma_calm_sole(Self::written(v), Self::levels(), false);
        lemma_words();
        match v {
            EffectView::Blur { amount } => {
                law_number(amount);
            },
            EffectView::ChromaKey { color, angle, noise } => {
                law_number(angle);
                law_number(noise);
            },
            EffectView::Crop { left, right, top, bottom } => {
                law_integer(left);
                law_integer(right);
                law_integer(top);
                law_integer(bottom);
            },
            EffectView::Eq { low, mid, high } => {
                law_number(low);
                law_number(mid);
                law_number(high);
            },
            EffectView::Compressor { threshold, ratio } => {
                law_number(threshold);
                law_number(ratio);
            },
            EffectView::Denoise { level } => {
                law_integer(level);
            },
            EffectView::Color { brightness, contrast, saturation, hue } => {
                law_number(brightness);
                law_number(contrast);
                law_number(saturation);
                law_number(hue);
            },
        }
    }

    proof fn lemma_read_storable(j: JsonView) {
        let name = text_in(field(j, "type"@, 0))->0;
        if name == "blur"@ {
            lemma_blur_storable(j);
        } else if name == "chromakey"@ {
            lemma_chromakey_storable(j);
        } else if name == "crop"@ {
            lemma_crop_storable(j);
        } else if name == "eq"@ {
            lemma_eq_storable(j);
        } else if name == "compressor"@ {
            lemma_compressor_storable(j);
        } else if name == "denoise"@ {
            lemma_denoise_storable(j);
        } else if name == "color"@ {
            lemma_color_storable(j);
        }
    }

    open spec fn modest(v: EffectView) -> bool {
        match v {
            EffectView::Blur { amount } => lasting(amount),
            EffectView::ChromaKey { color, angle, noise } => lasting(angle) && lasting(noise),
            EffectView::Eq { low, mid, high } => lasting(low) && lasting(mid) && lasting(high),
            EffectView::Compressor { threshold, ratio } => lasting(threshold) && lasting(ratio),
            EffectView::Color { brightness, contrast, saturation, hue } => lasting(brightness)
                && lasting(contrast) && lasting(saturation) && lasting(hue),
            _ => true,
        }
    }

    proof fn lemma_read_modest(j: JsonView) {
        let name = text_in(field(j, "type"@, 0))->0;
        if name == "blur"@ {
            lemma_blur_modest(j);
        } else if name == "chromakey"@ {
            lemma_chromakey_modest(j);
        } else if name == "crop"@ {
        } else if name == "eq"@ {
            lemma_eq_modest(j);
        } else if name == "compressor"@ {
            lemma_compressor_modest(j);
        } else if name == "denoise"@ {
        } else if name == "color"@ {
            lemma_color_modest(j);
        }
    }

    proof fn lemma_near(v: EffectView, w: JsonView) -> (q: EffectView) {
        match v {
            EffectView::Blur { amount } => {
                let a1 = none() + one("type"@, JsonView::Text(effect_name(v)));
                let a2 = a1 + one("amount"@, num(amount));
                let n2 = lemma_near_object(a2, w);
                let (n1, w2) = lemma_near_one(a1, "amount"@, num(amount), n2);
                let (n0, w1) = lemma_near_one(none(), "type"@, JsonView::Text(effect_name(v)), n1);
                lemma_near_none(n0);
                let amount2 = lemma_near_number(amount, w2);
                EffectView::Blur { amount: amount2 }
            },
            EffectView::ChromaKey { color, angle, noise } => {
                let a1 = none() + one("type"@, JsonView::Text(effect_name(v)));
                let a2 = a1 + one("color"@, JsonView::Text(color));
                let a3 = a2 + one("angle"@, num(angle));
                let a4 = a3 + one("noise"@, num(noise));
                let n4 = lemma_near_object(a4, w);
                let (n3, w4) = lemma_near_one(a3, "noise"@, num(noise), n4);
                let (n2, w3) = lemma_near_one(a2, "angle"@, num(angle), n3);
                let (n1, w2) = lemma_near_one(a1, "color"@, JsonView::Text(color), n2);
                let (n0, w1) = lemma_near_one(none(), "type"@, JsonView::Text(effect_name(v)), n1);
                lemma_near_none(n0);
                let angle2 = lemma_near_number(angle, w3);
                let noise2 = lemma_near_number(noise, w4);
                EffectView::ChromaKey { color, angle: angle2, noise: noise2 }
            },
            EffectView::Crop { left, right, top, bottom } => {
                let a1 = none() + one("type"@, JsonView::Text(effect_name(v)));
                let a2 = a1 + one("left"@, int_num(left));
                let a3 = a2 + one("right"@, int_num(right));
                let a4 = a3 + one("top"@, int_num(top));
                let a5 = a4 + one("bottom"@, int_num(bottom));
                let n5 = lemma_near_object(a5, w);
                let (n4, w5) = lemma_near_one(a4, "bottom"@, int_num(bottom), n5);
                let (n3, w4) = lemma_near_one(a3, "top"@, int_num(top), n4);
                let (n2, w3) = lemma_near_one(a2, "right"@, int_num(right), n3);
                let (n1, w2) = lemma_near_one(a1, "left"@, int_num(left), n2);
                let (n0, w1) = lemma_near_one(none(), "type"@, JsonView::Text(effect_name(v)), n1);
                lemma_near_none(n0);
                lemma_near_integer(left, w2);
                lemma_near_integer(right, w3);
                lemma_near_integer(top, w4);
                lemma_near_integer(bottom, w5);
                EffectView::Crop { left, right, top, bottom }
            },
            EffectView::Eq { low, mid, high } => {
                let a1 = none() + one("type"@, JsonView::Text(effect_name(v)));
                let a2 = a1 + one("low"@, num(low));
                let a3 = a2 + one("mid"@, num(mid));
                let a4 = a3 + one("high"@, num(high));
                let n4 = lemma_near_object(a4, w);
                let (n3, w4) = lemma_near_one(a3, "high"@, num(high), n4);
                let (n2, w3) = lemma_near_one(a2, "mid"@, num(mid), n3);
                let (n1, w2) = lemma_near_one(a1, "low"@, num(low), n2);
                let (n0, w1) = lemma_near_one(none(), "type"@, JsonView::Text(effect_name(v)), n1);
                lemma_near_none(n0);
                let low2 = lemma_near_number(low, w2);
                let mid2 = lemma_near_number(mid, w3);
                let high2 = lemma_near_number(high, w4);
                EffectView::Eq { low: low2, mid: mid2, high: high2 }
            },
            EffectView::Compressor { threshold, ratio } => {
                let a1 = none() + one("type"@, JsonView::Text(effect_name(v)));
                let a2 = a1 + one("threshold"@, num(threshold));
                let a3 = a2 + one("ratio"@, num(ratio));
                let n3 = lemma_near_object(a3, w);
                let (n2, w3) = lemma_near_one(a2, "ratio"@, num(ratio), n3);
                let (n1, w2) = lemma_near_one(a1, "threshold"@, num(threshold), n2);
                let (n0, w1) = lemma_near_one(none(), "type"@, JsonView::Text(effect_name(v)), n1);
                lemma_near_none(n0);
                let threshold2 = lemma_near_number(threshold, w2);
                let ratio2 = lemma_near_number(ratio, w3);
                EffectView::Compressor { threshold: threshold2, ratio: ratio2 }
            },
            EffectView::Denoise { level } => {
                let a1 = none() + one("type"@, JsonView::Text(effect_name(v)));
                let a2 = a1 + one("level"@, int_num(level));
                let n2 = lemma_near_object(a2, w);
                let (n1, w2) = lemma_near_one(a1, "level"@, int_num(level), n2);
                let (n0, w1) = lemma_near_one(none(), "type"@, JsonView::Text(effect_name(v)), n1);
                lemma_near_none(n0);
                lemma_near_integer(level, w2);
                EffectView::Denoise { level }
            },
            EffectView::Color { brightness, contrast, saturation, hue } => {
                let a1 = none() + one("type"@, JsonView::Text(effect_name(v)));
                let a2 = a1 + one("brightness"@, num(brightness));
                let a3 = a2 + one("contrast"@, num(contrast));
                let a4 = a3 + one("saturation"@, num(saturation));
                let a5 = a4 + one("hue"@, num(hue));
                let n5 = lemma_near_object(a5, w);
                let (n4, w5) = lemma_near_one(a4, "hue"@, num(hue), n5);
                let (n3, w4) = lemma_near_one(a3, "saturation"@, num(saturation), n4);
                let (n2, w3) = lemma_near_one(a2, "contrast"@, num(contrast), n3);
                let (n1, w2) = lemma_near_one(a1, "brightness"@, num(brightness), n2);
                let (n0, w1) = lemma_near_one(none(), "type"@, JsonView::Text(effect_name(v)), n1);
                lemma_near_none(n0);
                let brightness2 = lemma_near_number(brightness, w2);
                let contrast2 = lemma_near_number(contrast, w3);
                let saturation2 = lemma_near_number(saturation, w4);
                let hue2 = lemma_near_number(hue, w5);
                EffectView::Color { brightness: brightness2, contrast: contrast2, saturation: saturation2, hue: hue2 }
            },
        }
    }

    open spec fn levels() -> nat {
        1
    }

    #[verifier::rlimit(40)]
    proof fn lemma_calm(v: EffectView, d: nat, exact: bool) {
        broadcast use group_calm;

        lemma_words();
        let m = Self::written(v)->Object_0;
        assert(tidy(m, (d - 1) as nat, exact));
        lemma_calm_object(m, d, exact);
    }
}

proof fn lemma_blur_storable(j: JsonView)
    requires
        blur_in(j) is Some,
    ensures
        Effect::storable(blur_in(j)->0),
{
    lemma_fixed_in(field(j, "amount"@, 1), 0);
}

proof fn lemma_chromakey_storable(j: JsonView)
    requires
        chromakey_in(j) is Some,
    ensures
        Effect::storable(chromakey_in(j)->0),
{
    lemma_fixed_in(field(j, "angle"@, 2), 20 * UNIT as int);
    lemma_fixed_in(field(j, "noise"@, 3), 0);
}

proof fn lemma_crop_storable(j: JsonView)
    requires
        crop_in(j) is Some,
    ensures
        Effect::storable(crop_in(j)->0),
{
}

proof fn lemma_eq_storable(j: JsonView)
    requires
        eq_in(j) is Some,
    ensures
        Effect::storable(eq_in(j)->0),
{
    lemma_fixed_in(field(j, "low"@, 1), 0);
    lemma_fixed_in(field(j, "mid"@, 2), 0);
    lemma_fixed_in(field(j, "high"@, 3), 0);
}

proof fn lemma_compressor_storable(j: JsonView)
    requires
        compressor_in(j) is Some,
    ensures
        Effect::storable(compressor_in(j)->0),
{
    lemma_fixed_in(field(j, "threshold"@, 1), 250_000_000 as int);
    lemma_fixed_in(field(j, "ratio"@, 2), 2 * UNIT as int);
}

proof fn lemma_denoise_storable(j: JsonView)
    requires
        denoise_in(j) is Some,
    ensures
        Effect::storable(denoise_in(j)->0),
{
}

proof fn lemma_color_storable(j: JsonView)
    requires
        color_in(j) is Some,
    ensures
        Effect::storable(color_in(j)->0),
{
    lemma_fixed_in(field(j, "brightness"@, 1), 0);
    lemma_fixed_in(field(j, "contrast"@, 2), UNIT as int);
    lemma_fixed_in(field(j, "saturation"@, 3), UNIT as int);
    lemma_fixed_in(field(j, "hue"@, 4), 0);
}

proof fn lemma_blur_modest(j: JsonView)
    requires
        blur_in(j) is Some,
        steady(j),
    ensures
        Effect::modest(blur_in(j)->0),
{
    broadcast use lemma_steady_field;

    lemma_fixed_lasting(field(j, "amount"@, 1), 0);
}

proof fn lemma_chromakey_modest(j: JsonView)
    requires
        chromakey_in(j) is Some,
        steady(j),
    ensures
        Effect::modest(chromakey_in(j)->0),
{
    broadcast use lemma_steady_field;

    lemma_fixed_lasting(field(j, "angle"@, 2), 20 * UNIT as int);
    lemma_fixed_lasting(field(j, "noise"@, 3), 0);
}

proof fn lemma_eq_modest(j: JsonView)
    requires
        eq_in(j) is Some,
        steady(j),
    ensures
        Effect::modest(eq_in(j)->0),
{
    broadcast use lemma_steady_field;

    lemma_fixed_lasting(field(j, "low"@, 1), 0);
    lemma_fixed_lasting(field(j, "mid"@, 2), 0);
    lemma_fixed_lasting(field(j, "high"@, 3), 0);
}

proof fn lemma_compressor_modest(j: JsonView)
    requires
        compressor_in(j) is Some,
        steady(j),
    ensures
        Effect::modest(compressor_in(j)->0),
{
    broadcast use lemma_steady_field;

    lemma_fixed_lasting(field(j, "threshold"@, 1), 250_000_000 as int);
    lemma_fixed_lasting(field(j, "ratio"@, 2), 2 * UNIT as int);
}

proof fn lemma_color_modest(j: JsonView)
    requires
        color_in(j) is Some,
        steady(j),
    ensures
        Effect::modest(color_in(j)->0),
{
    broadcast use lemma_steady_field;

    lemma_fixed_lasting(field(j, "brightness"@, 1), 0);
    lemma_fixed_lasting(field(j, "contrast"@, 2), UNIT as int);
    lemma_fixed_lasting(field(j, "saturation"@, 3), UNIT as int);
    lemma_fixed_lasting(field(j, "hue"@, 4), 0);
}

/// What a document leaves out of a transform is plain: at the corner, at the
/// natural size, opaque.
pub proof fn law_omitted_transform(o: Option<JsonView>)
    ensures
        o is None ==> transform_in(o) == Some(
            Transform { x: 0, y: 0, width: 0, height: 0, opacity: 1_000_000_000 },
        ),
        o is Some && transform_in(o) is Some ==> {
            let t = transform_in(o)->0;
            &&& field(o->0, "x"@, 0) is None ==> t.x == 0
            &&& field(o->0, "y"@, 1) is None ==> t.y == 0
            &&& field(o->0, "width"@, 2) is None ==> t.width == 0
            &&& field(o->0, "height"@, 3) is None ==> t.height == 0
            &&& field(o->0, "opacity"@, 4) is None ==> t.opacity == 1_000_000_000
        },
{
}

/// What a document leaves out of an animation is 0, linear, and no keyframes.
pub proof fn law_omitted_animation(j: JsonView)
    requires
        Anim::read_in(j) is Some,
    ensures
        ({
            let a = Anim::read_in(j)->0;
            &&& field(j, "property"@, 0) is Some
            &&& field(j, "from"@, 1) is None ==> a.from == 0
            &&& field(j, "to"@, 2) is None ==> a.to == 0
            &&& field(j, "start"@, 3) is None ==> a.start == 0
            &&& field(j, "end"@, 4) is None ==> a.end == 0
            &&& field(j, "easing"@, 5) is None ==> a.easing == Easing::Linear
            &&& field(j, "keyframes"@, 6) is None ==> a.keyframes.len() == 0
        }),
{
}

/// What a document leaves out of an effect is as the effect is added: a green
/// key of 20 degrees without noise, nothing cropped, nothing equalised, a
/// compressor at a quarter and two to one, the first level of noise reduction,
/// colors as they are.
pub proof fn law_omitted_effect(j: JsonView)
    requires
        effect_in(j) is Some,
    ensures
        match effect_in(j)->0 {
            EffectView::Blur { amount } => field(j, "amount"@, 1) is Some,
            EffectView::ChromaKey { color, angle, noise } => {
                &&& field(j, "color"@, 1) is None ==> color == "#00ff00"@
                &&& field(j, "angle"@, 2) is None ==> angle == 20_000_000_000
                &&& field(j, "noise"@, 3) is None ==> noise == 0
            },
            EffectView::Crop { left, right, top, bottom } => {
                &&& field(j, "left"@, 1) is None ==> left == 0
                &&& field(j, "right"@, 2) is None ==> right == 0
                &&& field(j, "top"@, 3) is None ==> top == 0
                &&& field(j, "bottom"@, 4) is None ==> bottom == 0
            },
            EffectView::Eq { low, mid, high } => {
                &&& field(j, "low"@, 1) is None ==> low == 0
                &&& field(j, "mid"@, 2) is None ==> mid == 0
                &&& field(j, "high"@, 3) is None ==> high == 0
            },
            EffectView::Compressor { threshold, ratio } => {
                &&& field(j, "threshold"@, 1) is None ==> threshold == 250_000_000
                &&& field(j, "ratio"@, 2) is None ==> ratio == 2_000_000_000
            },
            EffectView::Denoise { level } => field(j, "level"@, 1) is None ==> level == 1,
            EffectView::Color { brightness, contrast, saturation, hue } => {
                &&& field(j, "brightness"@, 1) is None ==> brightness == 0
                &&& field(j, "contrast"@, 2) is None ==> contrast == 1_000_000_000
                &&& field(j, "saturation"@, 3) is None ==> saturation == 1_000_000_000
                &&& field(j, "hue"@, 4) is None ==> hue == 0
            },
        },
{
}

} // verus!
