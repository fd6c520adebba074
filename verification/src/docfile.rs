//! A whole document in JSON.

use vstd::prelude::*;
use crate::document::{opt_text, Anim, Clip, ClipView, CompDef, CompDefView, Effect, Element,
    ElementView, LaneMeta, Meta, OverlayTrack, OverlayTrackView, Project, ProjectView, Scene,
    SceneView, ShapeKind, TextAlign, Transform, Transition};
use crate::faults::ValidateError;
use crate::fixed::{in_range, UNIT};
use crate::format::{align_in, align_name, cut_in, cut_json, cut_written, get_align, get_cut,
    get_shape, get_transform, lemma_align_name, lemma_cut_back, lemma_cut_calm, lemma_cut_modest,
    lemma_cut_near, lemma_cut_storable, lemma_fixed_in, lemma_fixed_lasting, lemma_shape_name,
    lemma_transform_back, lemma_transform_calm, lemma_transform_modest, lemma_transform_near,
    lemma_transform_storable, lemma_words, name_align, name_shape, num, shape_in, shape_name,
    transform_in, transform_json, transform_modest, transform_written};
use crate::json::{Json, NESTING};
use crate::numbers::{lasting, law_number};
use crate::text::same;
use crate::textmap::TextMap;
use crate::tree::{all_modest, all_storable, calm, entry, field, fixed_in, fixed_json, fixed_or,
    flag_in, get_field, get_fixed, get_fixed_or, get_flag, get_items, get_items_or_none, get_map,
    get_maybe_text, get_text, get_text_or, group_calm, is_record, is_sole, items_in, items_json,
    items_or_none, items_written, lemma_calm_object, lemma_calm_sole, lemma_items_back,
    lemma_items_calm, lemma_items_modest, lemma_items_storable, lemma_map_back, lemma_map_calm,
    lemma_map_modest, lemma_map_storable, lemma_near_concat, lemma_near_items, lemma_near_map,
    lemma_near_maybe, lemma_near_none, lemma_near_number, lemma_near_object, lemma_near_one,
    lemma_steady_field, lemma_tidy_concat, lemma_value_deeper, map_in, map_json, map_modest,
    map_storable, map_written, maybe, maybe_text, near, near_list, none, nothing, object, one,
    parse_tree, print_json, printed, put, put_if, record, seen, sole, steady, text_in, text_json,
    text_or, tidy, value_in, JsonView, Stored};
use crate::validate::{project_fault, valid};
use crate::views::views;

verus! {

broadcast use {crate::views::group_views, crate::tree::group_entries};

/// The font of a text that names none.
pub open spec fn plain_font() -> Seq<char> {
    "Sans Bold 32"@
}

/// The color of what names none.
pub open spec fn plain_color() -> Seq<char> {
    "#ffffff"@
}

/// An alignment that may be absent or null.
pub open spec fn maybe_align(j: Option<JsonView>) -> Option<Option<TextAlign>> {
    match j {
        None => Some(None),
        Some(JsonView::Null) => Some(None),
        _ => match align_in(j) {
            Some(a) => Some(Some(a)),
            None => None,
        },
    }
}

fn get_maybe_align(j: Option<&Json>) -> (r: Option<Option<TextAlign>>)
    ensures
        r == maybe_align(seen(j)),
{
    match j {
        None => Some(None),
        Some(Json::Null) => Some(None),
        _ => match get_align(j) {
            Some(a) => Some(Some(a)),
            None => None,
        },
    }
}

/// A text element in a clip's object.
pub open spec fn text_element(j: JsonView) -> Option<ElementView> {
    let text = text_in(field(j, "text"@, 0));
    let font = text_or(field(j, "font"@, 0), plain_font());
    let color = text_or(field(j, "color"@, 0), plain_color());
    let align = maybe_align(field(j, "align"@, 0));
    let outline = maybe_text(field(j, "outline"@, 0));
    let shadow = flag_in(field(j, "shadow"@, 0));
    if text is Some && font is Some && color is Some && align is Some && outline is Some && shadow
        is Some {
        Some(
            ElementView::Text {
                text: text->0,
                font: font->0,
                color: color->0,
                align: align->0,
                outline: outline->0,
                shadow: shadow->0,
            },
        )
    } else {
        None
    }
}

fn get_text_element(j: &Json) -> (r: Option<Element>)
    ensures
        match r {
            Some(e) => text_element(j@) == Some(e@),
            None => text_element(j@) is None,
        },
{
    let text: Option<String> = get_text(get_field(j, "text", 0));
    let font: Option<String> = get_text_or(get_field(j, "font", 0), "Sans Bold 32");
    let color: Option<String> = get_text_or(get_field(j, "color", 0), "#ffffff");
    let align: Option<Option<TextAlign>> = get_maybe_align(get_field(j, "align", 0));
    let outline: Option<Option<String>> = get_maybe_text(get_field(j, "outline", 0));
    let shadow: Option<bool> = get_flag(get_field(j, "shadow", 0));
    match (text, font, color, align, outline, shadow) {
        (Some(text), Some(font), Some(color), Some(align), Some(outline), Some(shadow)) => Some(
            Element::Text { text, font, color, align, outline, shadow },
        ),
        _ => None,
    }
}

/// The source, offset, volume and rate of a media element.
pub open spec fn media_fields(j: JsonView) -> Option<(Seq<char>, int, int, int)> {
    let src = text_in(field(j, "src"@, 0));
    let offset = fixed_or(field(j, "offset"@, 0), 0);
    let volume = fixed_or(field(j, "volume"@, 0), UNIT as int);
    let rate = fixed_or(field(j, "rate"@, 0), UNIT as int);
    if src is Some && offset is Some && volume is Some && rate is Some {
        Some((src->0, offset->0, volume->0, rate->0))
    } else {
        None
    }
}

fn get_media(j: &Json) -> (r: Option<(String, i128, i128, i128)>)
    ensures
        match r {
            Some(m) => media_fields(j@) == Some((m.0@, m.1 as int, m.2 as int, m.3 as int)),
            None => media_fields(j@) is None,
        },
{
    let src: Option<String> = get_text(get_field(j, "src", 0));
    let offset: Option<i128> = get_fixed_or(get_field(j, "offset", 0), 0);
    let volume: Option<i128> = get_fixed_or(get_field(j, "volume", 0), UNIT);
    let rate: Option<i128> = get_fixed_or(get_field(j, "rate", 0), UNIT);
    match (src, offset, volume, rate) {
        (Some(src), Some(offset), Some(volume), Some(rate)) => Some((src, offset, volume, rate)),
        _ => None,
    }
}

/// The element of a clip, among the other fields of the clip's object.
pub open spec fn element_in(j: JsonView) -> Option<ElementView> {
    match text_in(field(j, "type"@, 0)) {
        None => None,
        Some(name) => if name == "text"@ {
            text_element(j)
        } else if name == "video"@ {
            match media_fields(j) {
                Some(m) => Some(
                    ElementView::Video { src: m.0, offset: m.1, volume: m.2, rate: m.3 },
                ),
                None => None,
            }
        } else if name == "audio"@ {
            match media_fields(j) {
                Some(m) => Some(
                    ElementView::Audio { src: m.0, offset: m.1, volume: m.2, rate: m.3 },
                ),
                None => None,
            }
        } else if name == "image"@ {
            match text_in(field(j, "src"@, 0)) {
                Some(src) => Some(ElementView::Image { src }),
                None => None,
            }
        } else if name == "shape"@ {
            match (shape_in(field(j, "shape"@, 0)), text_or(field(j, "fill"@, 0), plain_color())) {
                (Some(shape), Some(fill)) => Some(ElementView::Shape { shape, fill }),
                _ => None,
            }
        } else if name == "compref"@ {
            match (text_in(field(j, "ref"@, 0)), map_in::<String>(field(j, "args"@, 0))) {
                (Some(def), Some(args)) => Some(ElementView::CompRef { def, args }),
                _ => None,
            }
        } else if name == "test"@ {
            Some(ElementView::Test)
        } else {
            None
        },
    }
}

fn get_element(j: &Json) -> (r: Option<Element>)
    ensures
        match r {
            Some(e) => element_in(j@) == Some(e@),
            None => element_in(j@) is None,
        },
{
    let name: String = match get_text(get_field(j, "type", 0)) {
        Some(s) => s,
        None => return None,
    };
    let s: &str = name.as_str();
    if same(s, "text") {
        get_text_element(j)
    } else if same(s, "video") {
        match get_media(j) {
            Some((src, offset, volume, rate)) => Some(Element::Video { src, offset, volume, rate }),
            None => None,
        }
    } else if same(s, "audio") {
        match get_media(j) {
            Some((src, offset, volume, rate)) => Some(Element::Audio { src, offset, volume, rate }),
            None => None,
        }
    } else if same(s, "image") {
        match get_text(get_field(j, "src", 0)) {
            Some(src) => Some(Element::Image { src }),
            None => None,
        }
    } else if same(s, "shape") {
        let shape: Option<ShapeKind> = get_shape(get_field(j, "shape", 0));
        let fill: Option<String> = get_text_or(get_field(j, "fill", 0), "#ffffff");
        match (shape, fill) {
            (Some(shape), Some(fill)) => Some(Element::Shape { shape, fill }),
            _ => None,
        }
    } else if same(s, "compref") {
        let def: Option<String> = get_text(get_field(j, "ref", 0));
        let args: Option<TextMap<String>> = get_map(get_field(j, "args", 0));
        match (def, args) {
            (Some(def), Some(args)) => Some(Element::CompRef { def, args }),
            _ => None,
        }
    } else if same(s, "test") {
        Some(Element::Test)
    } else {
        None
    }
}

/// The name of an element in a document.
pub open spec fn element_name(e: ElementView) -> Seq<char> {
    match e {
        ElementView::Text { .. } => "text"@,
        ElementView::Video { .. } => "video"@,
        ElementView::Audio { .. } => "audio"@,
        ElementView::Image { .. } => "image"@,
        ElementView::Shape { .. } => "shape"@,
        ElementView::CompRef { .. } => "compref"@,
        ElementView::Test => "test"@,
    }
}

/// The source, offset, volume and rate of media; a normal rate is left out.
pub open spec fn media_written(src: Seq<char>, offset: int, volume: int, rate: int) -> Seq<
    (Seq<char>, JsonView),
> {
    none() + one("src"@, JsonView::Text(src)) + one("offset"@, num(offset)) + one(
        "volume"@,
        num(volume),
    ) + maybe(rate != UNIT, "rate"@, num(rate))
}

/// The fields of an element as a document writes them.
pub open spec fn element_fields(e: ElementView) -> Seq<(Seq<char>, JsonView)> {
    match e {
        ElementView::Text { text, font, color, align, outline, shadow } => none() + one(
            "text"@,
            JsonView::Text(text),
        ) + one("font"@, JsonView::Text(font)) + one("color"@, JsonView::Text(color)) + maybe(
            align is Some,
            "align"@,
            JsonView::Text(align_name(align->0)),
        ) + maybe(outline is Some, "outline"@, JsonView::Text(outline->0)) + maybe(
            shadow,
            "shadow"@,
            JsonView::Bool(shadow),
        ),
        ElementView::Video { src, offset, volume, rate } => media_written(
            src,
            offset,
            volume,
            rate,
        ),
        ElementView::Audio { src, offset, volume, rate } => media_written(
            src,
            offset,
            volume,
            rate,
        ),
        ElementView::Image { src } => none() + one("src"@, JsonView::Text(src)),
        ElementView::Shape { shape, fill } => none() + one(
            "shape"@,
            JsonView::Text(shape_name(shape)),
        ) + one("fill"@, JsonView::Text(fill)),
        ElementView::CompRef { def, args } => none() + one("ref"@, JsonView::Text(def)) + one(
            "args"@,
            map_written::<String>(args),
        ),
        ElementView::Test => none(),
    }
}

fn media_json(src: &String, offset: i128, volume: i128, rate: i128) -> (r: Vec<(String, Json)>)
    ensures
        views(r@) == media_written(src@, offset as int, volume as int, rate as int),
{
    let mut m: Vec<(String, Json)> = nothing();
    put(&mut m, "src", text_json(src.as_str()));
    put(&mut m, "offset", fixed_json(offset));
    put(&mut m, "volume", fixed_json(volume));
    put_if(&mut m, rate != UNIT, "rate", fixed_json(rate));
    m
}

fn element_json(e: &Element) -> (r: Vec<(String, Json)>)
    ensures
        views(r@) == element_fields(e@),
{
    let mut m: Vec<(String, Json)> = nothing();
    match e {
        Element::Text { text, font, color, align, outline, shadow } => {
            put(&mut m, "text", text_json(text.as_str()));
            put(&mut m, "font", text_json(font.as_str()));
            put(&mut m, "color", text_json(color.as_str()));
            match align {
                Some(a) => put_if(&mut m, true, "align", text_json(name_align(*a))),
                None => put_if(&mut m, false, "align", Json::Null),
            }
            match outline {
                Some(o) => put_if(&mut m, true, "outline", text_json(o.as_str())),
                None => put_if(&mut m, false, "outline", Json::Null),
            }
            put_if(&mut m, *shadow, "shadow", Json::Bool(*shadow));
        },
        Element::Video { src, offset, volume, rate } => {
            return media_json(src, *offset, *volume, *rate);
        },
        Element::Audio { src, offset, volume, rate } => {
            return media_json(src, *offset, *volume, *rate);
        },
        Element::Image { src } => {
            put(&mut m, "src", text_json(src.as_str()));
        },
        Element::Shape { shape, fill } => {
            put(&mut m, "shape", text_json(name_shape(*shape)));
            put(&mut m, "fill", text_json(fill.as_str()));
        },
        Element::CompRef { def, args } => {
            put(&mut m, "ref", text_json(def.as_str()));
            put(&mut m, "args", map_json(args));
        },
        Element::Test => {},
    }
    m
}

fn name_element(e: &Element) -> (r: &'static str)
    ensures
        r@ == element_name(e@),
{
    match e {
        Element::Text { .. } => "text",
        Element::Video { .. } => "video",
        Element::Audio { .. } => "audio",
        Element::Image { .. } => "image",
        Element::Shape { .. } => "shape",
        Element::CompRef { .. } => "compref",
        Element::Test => "test",
    }
}

/// An element that can be written and read back.
pub open spec fn element_storable(e: ElementView) -> bool {
    e.fits(1) && (e matches ElementView::CompRef { def, args } ==> map_storable::<String>(args))
}

/// The numbers of an element last.
pub open spec fn element_modest(e: ElementView) -> bool {
    match e {
        ElementView::Video { src, offset, volume, rate } => lasting(offset) && lasting(volume)
            && lasting(rate),
        ElementView::Audio { src, offset, volume, rate } => lasting(offset) && lasting(volume)
            && lasting(rate),
        _ => true,
    }
}

proof fn lemma_element_tidy(e: ElementView, d: nat, exact: bool)
    requires
        element_storable(e),
        exact ==> element_modest(e),
        d > 0,
    ensures
        tidy(element_fields(e), d, exact),
{
    broadcast use group_calm;

    lemma_words();
    if let ElementView::CompRef { def, args } = e {
        lemma_map_calm::<String>(args, d, exact);
    }
}

/// No field of an element, by its type, occurs twice.
pub open spec fn element_once(j: JsonView) -> bool {
    match text_in(field(j, "type"@, 0)) {
        None => true,
        Some(name) => if name == "text"@ {
            sole(j, "text"@) && sole(j, "font"@) && sole(j, "color"@) && sole(j, "align"@)
                && sole(j, "outline"@) && sole(j, "shadow"@)
        } else if name == "video"@ || name == "audio"@ {
            sole(j, "src"@) && sole(j, "offset"@) && sole(j, "volume"@) && sole(j, "rate"@)
        } else if name == "image"@ {
            sole(j, "src"@)
        } else if name == "shape"@ {
            sole(j, "shape"@) && sole(j, "fill"@)
        } else if name == "compref"@ {
            sole(j, "ref"@) && sole(j, "args"@)
        } else {
            true
        },
    }
}

fn is_element_once(j: &Json) -> (r: bool)
    ensures
        r == element_once(j@),
{
    let name: String = match get_text(get_field(j, "type", 0)) {
        Some(s) => s,
        None => return true,
    };
    let s: &str = name.as_str();
    if same(s, "text") {
        is_sole(j, "text") && is_sole(j, "font") && is_sole(j, "color") && is_sole(j, "align")
            && is_sole(j, "outline") && is_sole(j, "shadow")
    } else if same(s, "video") || same(s, "audio") {
        is_sole(j, "src") && is_sole(j, "offset") && is_sole(j, "volume") && is_sole(j, "rate")
    } else if same(s, "image") {
        is_sole(j, "src")
    } else if same(s, "shape") {
        is_sole(j, "shape") && is_sole(j, "fill")
    } else if same(s, "compref") {
        is_sole(j, "ref") && is_sole(j, "args")
    } else {
        true
    }
}

/// No field of a clip occurs twice.
pub open spec fn clip_once(j: JsonView) -> bool {
    sole(j, "id"@) && sole(j, "start"@) && sole(j, "duration"@) && sole(j, "type"@)
        && sole(j, "transform"@) && sole(j, "animations"@) && sole(j, "effects"@)
        && element_once(j)
}

fn is_clip_once(j: &Json) -> (r: bool)
    ensures
        r == clip_once(j@),
{
    is_sole(j, "id") && is_sole(j, "start") && is_sole(j, "duration") && is_sole(j, "type")
        && is_sole(j, "transform") && is_sole(j, "animations") && is_sole(j, "effects")
        && is_element_once(j)
}

/// The fields near to those of an element are those of an element.
proof fn lemma_element_near(e: ElementView, n: Seq<(Seq<char>, JsonView)>) -> (q: ElementView)
    requires
        element_storable(e),
        near_list(element_fields(e), n),
    ensures
        element_storable(q),
        element_fields(q) == n,
        element_name(q) == element_name(e),
{
    match e {
        ElementView::Text { text, font, color, align, outline, shadow } => {
            let a1 = none() + one("text"@, JsonView::Text(text));
            let a2 = a1 + one("font"@, JsonView::Text(font));
            let a3 = a2 + one("color"@, JsonView::Text(color));
            let a4 = a3 + maybe(align is Some, "align"@, JsonView::Text(align_name(align->0)));
            let a5 = a4 + maybe(outline is Some, "outline"@, JsonView::Text(outline->0));
            let a6 = a5 + maybe(shadow, "shadow"@, JsonView::Bool(shadow));
            let n6 = n;
            let (n5, w6) = lemma_near_maybe(a5, shadow, "shadow"@, JsonView::Bool(shadow), n6);
            let (n4, w5) = lemma_near_maybe(
                a4,
                outline is Some,
                "outline"@,
                JsonView::Text(outline->0),
                n5,
            );
            let (n3, w4) = lemma_near_maybe(
                a3,
                align is Some,
                "align"@,
                JsonView::Text(align_name(align->0)),
                n4,
            );
            let (n2, w3) = lemma_near_one(a2, "color"@, JsonView::Text(color), n3);
            let (n1, w2) = lemma_near_one(a1, "font"@, JsonView::Text(font), n2);
            let (n0, w1) = lemma_near_one(none(), "text"@, JsonView::Text(text), n1);
            lemma_near_none(n0);
            e
        },
        ElementView::Video { src, offset, volume, rate } => {
            let a1 = none() + one("src"@, JsonView::Text(src));
            let a2 = a1 + one("offset"@, num(offset));
            let a3 = a2 + one("volume"@, num(volume));
            let a4 = a3 + maybe(rate != UNIT, "rate"@, num(rate));
            let n4 = n;
            let (n3, w4) = lemma_near_maybe(a3, rate != UNIT, "rate"@, num(rate), n4);
            let (n2, w3) = lemma_near_one(a2, "volume"@, num(volume), n3);
            let (n1, w2) = lemma_near_one(a1, "offset"@, num(offset), n2);
            let (n0, w1) = lemma_near_one(none(), "src"@, JsonView::Text(src), n1);
            lemma_near_none(n0);
            let offset2 = lemma_near_number(offset, w2);
            let volume2 = lemma_near_number(volume, w3);
            let rate2 = if rate != UNIT {
                lemma_near_number(rate, w4)
            } else {
                rate
            };
            ElementView::Video { src, offset: offset2, volume: volume2, rate: rate2 }
        },
        ElementView::Audio { src, offset, volume, rate } => {
            let a1 = none() + one("src"@, JsonView::Text(src));
            let a2 = a1 + one("offset"@, num(offset));
            let a3 = a2 + one("volume"@, num(volume));
            let a4 = a3 + maybe(rate != UNIT, "rate"@, num(rate));
            let n4 = n;
            let (n3, w4) = lemma_near_maybe(a3, rate != UNIT, "rate"@, num(rate), n4);
            let (n2, w3) = lemma_near_one(a2, "volume"@, num(volume), n3);
            let (n1, w2) = lemma_near_one(a1, "offset"@, num(offset), n2);
            let (n0, w1) = lemma_near_one(none(), "src"@, JsonView::Text(src), n1);
            lemma_near_none(n0);
            let offset2 = lemma_near_number(offset, w2);
            let volume2 = lemma_near_number(volume, w3);
            let rate2 = if rate != UNIT {
                lemma_near_number(rate, w4)
            } else {
                rate
            };
            ElementView::Audio { src, offset: offset2, volume: volume2, rate: rate2 }
        },
        ElementView::Image { src } => {
            let a1 = none() + one("src"@, JsonView::Text(src));
            let n1 = n;
            let (n0, w1) = lemma_near_one(none(), "src"@, JsonView::Text(src), n1);
            lemma_near_none(n0);
            e
        },
        ElementView::Shape { shape, fill } => {
            let a1 = none() + one("shape"@, JsonView::Text(shape_name(shape)));
            let a2 = a1 + one("fill"@, JsonView::Text(fill));
            let n2 = n;
            let (n1, w2) = lemma_near_one(a1, "fill"@, JsonView::Text(fill), n2);
            let (n0, w1) = lemma_near_one(none(), "shape"@, JsonView::Text(shape_name(shape)), n1);
            lemma_near_none(n0);
            e
        },
        ElementView::CompRef { def, args } => {
            let a1 = none() + one("ref"@, JsonView::Text(def));
            let a2 = a1 + one("args"@, map_written::<String>(args));
            let n2 = n;
            let (n1, w2) = lemma_near_one(a1, "args"@, map_written::<String>(args), n2);
            let (n0, w1) = lemma_near_one(none(), "ref"@, JsonView::Text(def), n1);
            lemma_near_none(n0);
            let args2 = lemma_near_map::<String>(args, w2);
            ElementView::CompRef { def, args: args2 }
        },
        ElementView::Test => {
            lemma_near_none(n);
            e
        },
    }
}

impl Stored for Clip {
    open spec fn read_in(j: JsonView) -> Option<ClipView> {
        let id = text_in(field(j, "id"@, 0));
        let start = fixed_or(field(j, "start"@, 0), 0);
        let duration = fixed_or(field(j, "duration"@, 0), 0);
        let element = element_in(j);
        let transform = transform_in(field(j, "transform"@, 0));
        let animations = items_or_none::<Anim>(field(j, "animations"@, 0));
        let effects = items_or_none::<Effect>(field(j, "effects"@, 0));
        if j is Object && clip_once(j) && id is Some && start is Some && duration is Some
            && element is Some && transform is Some && animations is Some && effects is Some {
            Some(
                ClipView {
                    id: id->0,
                    start: start->0,
                    duration: duration->0,
                    element: element->0,
                    transform: transform->0,
                    animations: animations->0,
                    effects: effects->0,
                },
            )
        } else {
            None
        }
    }

    open spec fn written(v: ClipView) -> JsonView {
        JsonView::Object(
            none() + one("id"@, JsonView::Text(v.id)) + one("start"@, num(v.start)) + one(
                "duration"@,
                num(v.duration),
            ) + one("type"@, JsonView::Text(element_name(v.element))) + element_fields(v.element)
                + one("transform"@, transform_written(v.transform)) + one(
                "animations"@,
                items_written::<Anim>(v.animations),
            ) + maybe(v.effects.len() > 0, "effects"@, items_written::<Effect>(v.effects)),
        )
    }

    open spec fn storable(v: ClipView) -> bool {
        &&& in_range(v.start) && in_range(v.duration)
        &&& element_storable(v.element)
        &&& v.transform.fits(1)
        &&& all_storable::<Anim>(v.animations)
        &&& all_storable::<Effect>(v.effects)
    }

    fn read(j: &Json) -> (r: Option<Clip>) {
        match j {
            Json::Object(_) => {},
            _ => return None,
        }
        if !is_clip_once(j) {
            return None;
        }
        let id: Option<String> = get_text(get_field(j, "id", 0));
        let start: Option<i128> = get_fixed_or(get_field(j, "start", 0), 0);
        let duration: Option<i128> = get_fixed_or(get_field(j, "duration", 0), 0);
        let element: Option<Element> = get_element(j);
        let transform: Option<Transform> = get_transform(get_field(j, "transform", 0));
        let animations: Option<Vec<Anim>> = get_items_or_none(get_field(j, "animations", 0));
        let effects: Option<Vec<Effect>> = get_items_or_none(get_field(j, "effects", 0));
        match (id, start, duration, element, transform, animations, effects) {
            (
                Some(id),
                Some(start),
                Some(duration),
                Some(element),
                Some(transform),
                Some(animations),
                Some(effects),
            ) => Some(Clip { id, start, duration, element, transform, animations, effects }),
            _ => None,
        }
    }

    fn write(&self) -> (r: Json) {
        let mut m: Vec<(String, Json)> = nothing();
        put(&mut m, "id", text_json(self.id.as_str()));
        put(&mut m, "start", fixed_json(self.start));
        put(&mut m, "duration", fixed_json(self.duration));
        put(&mut m, "type", text_json(name_element(&self.element)));
        let ghost before = views(m@);
        let mut fields: Vec<(String, Json)> = element_json(&self.element);
        let ghost all = views(fields@);
        let ghost old_m = m@;
        let ghost old_f = fields@;
        m.append(&mut fields);
        proof {
            assert(m@ =~= old_m + old_f);
            assert(views(m@) =~= before + all);
        }
        put(&mut m, "transform", transform_json(&self.transform));
        put(&mut m, "animations", items_json(&self.animations));
        put_if(&mut m, self.effects.len() > 0, "effects", items_json(&self.effects));
        object(m)
    }

    proof fn lemma_read_back(v: ClipView) {
        lemma_calm_sole(Self::written(v), Self::levels(), false);
        lemma_clip_parts(v);
        lemma_element_back(v);
        law_number(v.start);
        law_number(v.duration);
        lemma_transform_back(v.transform);
        lemma_items_back::<Anim>(v.animations);
        lemma_items_back::<Effect>(v.effects);
        if v.effects.len() == 0 {
            assert(v.effects =~= Seq::empty());
        }
    }

    proof fn lemma_read_storable(j: JsonView) {
        lemma_fixed_in(field(j, "start"@, 0), 0);
        lemma_fixed_in(field(j, "duration"@, 0), 0);
        lemma_element_storable(j);
        lemma_transform_storable(field(j, "transform"@, 0));
        lemma_items_storable::<Anim>(field(j, "animations"@, 0));
        lemma_items_storable::<Effect>(field(j, "effects"@, 0));
    }

    open spec fn modest(v: ClipView) -> bool {
        &&& lasting(v.start) && lasting(v.duration)
        &&& element_modest(v.element)
        &&& transform_modest(v.transform)
        &&& all_modest::<Anim>(v.animations)
        &&& all_modest::<Effect>(v.effects)
    }

    proof fn lemma_read_modest(j: JsonView) {
        broadcast use lemma_steady_field;

        lemma_fixed_lasting(field(j, "start"@, 0), 0);
        lemma_fixed_lasting(field(j, "duration"@, 0), 0);
        lemma_element_modest(j);
        lemma_transform_modest(field(j, "transform"@, 0));
        lemma_items_modest::<Anim>(field(j, "animations"@, 0));
        lemma_items_modest::<Effect>(field(j, "effects"@, 0));
    }

    proof fn lemma_near(v: ClipView, w: JsonView) -> (q: ClipView) {
        let a1 = none() + one("id"@, JsonView::Text(v.id));
        let a2 = a1 + one("start"@, num(v.start));
        let a3 = a2 + one("duration"@, num(v.duration));
        let a4 = a3 + one("type"@, JsonView::Text(element_name(v.element)));
        let a5 = a4 + element_fields(v.element);
        let a6 = a5 + one("transform"@, transform_written(v.transform));
        let a7 = a6 + one("animations"@, items_written::<Anim>(v.animations));
        let a8 = a7 + maybe(v.effects.len() > 0, "effects"@, items_written::<Effect>(v.effects));
        let n8 = lemma_near_object(a8, w);
        let (n7, w8) = lemma_near_maybe(
            a7,
            v.effects.len() > 0,
            "effects"@,
            items_written::<Effect>(v.effects),
            n8,
        );
        let (n6, w7) = lemma_near_one(a6, "animations"@, items_written::<Anim>(v.animations), n7);
        let (n5, w6) = lemma_near_one(a5, "transform"@, transform_written(v.transform), n6);
        let (n4, w5) = lemma_near_concat(a4, element_fields(v.element), n5);
        let (n3, w4) = lemma_near_one(a3, "type"@, JsonView::Text(element_name(v.element)), n4);
        let (n2, w3) = lemma_near_one(a2, "duration"@, num(v.duration), n3);
        let (n1, w2) = lemma_near_one(a1, "start"@, num(v.start), n2);
        let (n0, w1) = lemma_near_one(none(), "id"@, JsonView::Text(v.id), n1);
        lemma_near_none(n0);
        let start = lemma_near_number(v.start, w2);
        let duration = lemma_near_number(v.duration, w3);
        let element = lemma_element_near(v.element, w5);
        let transform = lemma_transform_near(v.transform, w6);
        let animations = lemma_near_items::<Anim>(v.animations, w7);
        let effects = if v.effects.len() > 0 {
            lemma_near_items::<Effect>(v.effects, w8)
        } else {
            v.effects
        };
        ClipView { start, duration, element, transform, animations, effects, ..v }
    }

    open spec fn levels() -> nat {
        5
    }

    proof fn lemma_calm(v: ClipView, d: nat, exact: bool) {
        broadcast use group_calm;

        lemma_words();
        let e = (d - 1) as nat;
        let head = none() + one("id"@, JsonView::Text(v.id)) + one("start"@, num(v.start)) + one(
            "duration"@,
            num(v.duration),
        ) + one("type"@, JsonView::Text(element_name(v.element)));
        let fields = element_fields(v.element);
        lemma_element_tidy(v.element, e, exact);
        assert(tidy(head, e, exact));
        assert forall|i: int| 0 <= i < head.len() implies entry(fields, (#[trigger] head[i]).0)
            is None by {}
        lemma_tidy_concat(head, fields, e, exact);
        lemma_transform_calm(v.transform, e, exact);
        lemma_items_calm::<Anim>(v.animations, e, exact);
        lemma_items_calm::<Effect>(v.effects, e, exact);
        let m = Self::written(v)->Object_0;
        assert(tidy(m, e, exact));
        lemma_calm_object(m, d, exact);
    }
}

/// The fields of a clip but for those of its element.
proof fn lemma_clip_parts(v: ClipView)
    ensures
        ({
            let j = Clip::written(v);
            &&& field(j, "id"@, 0) == Some(JsonView::Text(v.id))
            &&& field(j, "start"@, 0) == Some(num(v.start))
            &&& field(j, "duration"@, 0) == Some(num(v.duration))
            &&& field(j, "type"@, 0) == Some(JsonView::Text(element_name(v.element)))
            &&& field(j, "transform"@, 0) == Some(transform_written(v.transform))
            &&& field(j, "animations"@, 0) == Some(items_written::<Anim>(v.animations))
            &&& field(j, "effects"@, 0) == (if v.effects.len() > 0 {
                Some(items_written::<Effect>(v.effects))
            } else {
                None
            })
        }),
{
    lemma_words();
    lemma_element_entries(v.element);
}

/// An element has no field that a clip has too.
proof fn lemma_element_entries(e: ElementView)
    ensures
        entry(element_fields(e), "id"@) is None,
        entry(element_fields(e), "start"@) is None,
        entry(element_fields(e), "duration"@) is None,
        entry(element_fields(e), "type"@) is None,
        entry(element_fields(e), "transform"@) is None,
        entry(element_fields(e), "animations"@) is None,
        entry(element_fields(e), "effects"@) is None,
{
    lemma_words();
    match e {
        ElementView::Text { .. } => {},
        ElementView::Video { .. } => {},
        ElementView::Audio { .. } => {},
        ElementView::Image { .. } => {},
        ElementView::Shape { .. } => {},
        ElementView::CompRef { .. } => {},
        ElementView::Test => {},
    }
}

/// A field of an element stands in the clip's object as it does among the
/// element's own fields.
proof fn lemma_element_field(v: ClipView, key: Seq<char>)
    requires
        key != "id"@,
        key != "start"@,
        key != "duration"@,
        key != "type"@,
        key != "transform"@,
        key != "animations"@,
        key != "effects"@,
    ensures
        field(Clip::written(v), key, 0) == entry(element_fields(v.element), key),
{
}

proof fn lemma_element_back(v: ClipView)
    requires
        element_storable(v.element),
    ensures
        element_in(Clip::written(v)) == Some(v.element),
{
    let j = Clip::written(v);
    lemma_words();
    lemma_clip_parts(v);
    match v.element {
        ElementView::Text { text, font, color, align, outline, shadow } => {
            lemma_element_field(v, "text"@);
            lemma_element_field(v, "font"@);
            lemma_element_field(v, "color"@);
            lemma_element_field(v, "align"@);
            lemma_element_field(v, "outline"@);
            lemma_element_field(v, "shadow"@);
            if align is Some {
                lemma_align_name(align->0);
            }
            assert(text_element(j) == Some(v.element));
        },
        ElementView::Video { src, offset, volume, rate } => {
            lemma_media_back(v, src, offset, volume, rate);
        },
        ElementView::Audio { src, offset, volume, rate } => {
            lemma_media_back(v, src, offset, volume, rate);
        },
        ElementView::Image { src } => {
            lemma_element_field(v, "src"@);
        },
        ElementView::Shape { shape, fill } => {
            lemma_element_field(v, "shape"@);
            lemma_element_field(v, "fill"@);
            lemma_shape_name(shape);
        },
        ElementView::CompRef { def, args } => {
            lemma_element_field(v, "ref"@);
            lemma_element_field(v, "args"@);
            lemma_map_back::<String>(args);
        },
        ElementView::Test => {},
    }
}

proof fn lemma_media_back(v: ClipView, src: Seq<char>, offset: int, volume: int, rate: int)
    requires
        element_fields(v.element) == media_written(src, offset, volume, rate),
        in_range(offset),
        in_range(volume),
        in_range(rate),
    ensures
        media_fields(Clip::written(v)) == Some((src, offset, volume, rate)),
{
    lemma_words();
    lemma_element_field(v, "src"@);
    lemma_element_field(v, "offset"@);
    lemma_element_field(v, "volume"@);
    lemma_element_field(v, "rate"@);
    law_number(offset);
    law_number(volume);
    law_number(rate);
}

proof fn lemma_element_storable(j: JsonView)
    requires
        element_in(j) is Some,
    ensures
        element_storable(element_in(j)->0),
{
    lemma_fixed_in(field(j, "offset"@, 0), 0);
    lemma_fixed_in(field(j, "volume"@, 0), UNIT as int);
    lemma_fixed_in(field(j, "rate"@, 0), UNIT as int);
    lemma_map_storable::<String>(field(j, "args"@, 0));
}

proof fn lemma_element_modest(j: JsonView)
    requires
        element_in(j) is Some,
        steady(j),
    ensures
        element_modest(element_in(j)->0),
{
    broadcast use lemma_steady_field;

    lemma_fixed_lasting(field(j, "offset"@, 0), 0);
    lemma_fixed_lasting(field(j, "volume"@, 0), UNIT as int);
    lemma_fixed_lasting(field(j, "rate"@, 0), UNIT as int);
}

impl Stored for CompDef {
    open spec fn read_in(j: JsonView) -> Option<CompDefView> {
        let params = items_or_none::<String>(field(j, "params"@, 0));
        let layers = items_in::<Clip>(field(j, "layers"@, 1));
        if record(j, 2) && sole(j, "params"@) && sole(j, "layers"@)
            && params is Some && layers is Some {
            Some(CompDefView { params: params->0, layers: layers->0 })
        } else {
            None
        }
    }

    open spec fn written(v: CompDefView) -> JsonView {
        JsonView::Object(
            none() + one("params"@, items_written::<String>(v.params)) + one(
                "layers"@,
                items_written::<Clip>(v.layers),
            ),
        )
    }

    open spec fn storable(v: CompDefView) -> bool {
        all_storable::<Clip>(v.layers)
    }

    fn read(j: &Json) -> (r: Option<CompDef>) {
        if !is_record(j, 2) || !is_sole(j, "params") || !is_sole(j, "layers") {
            return None;
        }
        let params: Option<Vec<String>> = get_items_or_none(get_field(j, "params", 0));
        let layers: Option<Vec<Clip>> = get_items(get_field(j, "layers", 1));
        match (params, layers) {
            (Some(params), Some(layers)) => Some(CompDef { params, layers }),
            _ => None,
        }
    }

    fn write(&self) -> (r: Json) {
        let mut m: Vec<(String, Json)> = nothing();
        put(&mut m, "params", items_json(&self.params));
        put(&mut m, "layers", items_json(&self.layers));
        object(m)
    }

    proof fn lemma_read_back(v: CompDefView) {
        lemma_calm_sole(Self::written(v), Self::levels(), false);
        lemma_words();
        lemma_items_back::<String>(v.params);
        lemma_items_back::<Clip>(v.layers);
    }

    proof fn lemma_read_storable(j: JsonView) {
        lemma_items_storable::<Clip>(field(j, "layers"@, 1));
    }

    open spec fn modest(v: CompDefView) -> bool {
        all_modest::<Clip>(v.layers)
    }

    proof fn lemma_read_modest(j: JsonView) {
        broadcast use lemma_steady_field;

        lemma_items_modest::<Clip>(field(j, "layers"@, 1));
    }

    proof fn lemma_near(v: CompDefView, w: JsonView) -> (q: CompDefView) {
        let a1 = none() + one("params"@, items_written::<String>(v.params));
        let a2 = a1 + one("layers"@, items_written::<Clip>(v.layers));
        let n2 = lemma_near_object(a2, w);
        let (n1, w2) = lemma_near_one(a1, "layers"@, items_written::<Clip>(v.layers), n2);
        let (n0, w1) = lemma_near_one(none(), "params"@, items_written::<String>(v.params), n1);
        lemma_near_none(n0);
        let params = lemma_near_items::<String>(v.params, w1);
        let layers = lemma_near_items::<Clip>(v.layers, w2);
        CompDefView { params, layers }
    }

    open spec fn levels() -> nat {
        7
    }

    proof fn lemma_calm(v: CompDefView, d: nat, exact: bool) {
        broadcast use group_calm;

        lemma_words();
        let m = Self::written(v)->Object_0;
        lemma_items_calm::<String>(v.params, (d - 1) as nat, exact);
        lemma_items_calm::<Clip>(v.layers, (d - 1) as nat, exact);
        assert(tidy(m, (d - 1) as nat, exact));
        lemma_calm_object(m, d, exact);
    }
}

/// A transition that may be absent or null.
pub open spec fn maybe_cut(j: Option<JsonView>) -> Option<Option<Transition>> {
    match j {
        None => Some(None),
        Some(JsonView::Null) => Some(None),
        Some(t) => match cut_in(t) {
            Some(c) => Some(Some(c)),
            None => None,
        },
    }
}

fn get_maybe_cut(j: Option<&Json>) -> (r: Option<Option<Transition>>)
    ensures
        r == maybe_cut(seen(j)),
{
    match j {
        None => Some(None),
        Some(Json::Null) => Some(None),
        Some(t) => match get_cut(t) {
            Some(c) => Some(Some(c)),
            None => None,
        },
    }
}

impl Stored for Scene {
    open spec fn read_in(j: JsonView) -> Option<SceneView> {
        let id = text_in(field(j, "id"@, 0));
        let name = text_or(field(j, "name"@, 1), Seq::empty());
        let duration = fixed_in(field(j, "duration"@, 2));
        let transition = maybe_cut(field(j, "transition"@, 3));
        let layers = items_or_none::<Clip>(field(j, "layers"@, 4));
        if record(j, 5) && sole(j, "id"@) && sole(j, "name"@) && sole(j, "duration"@)
            && sole(j, "transition"@) && sole(j, "layers"@)
            && id is Some && name is Some && duration is Some && transition is Some
            && layers is Some {
            Some(
                SceneView {
                    id: id->0,
                    name: name->0,
                    duration: duration->0,
                    transition: transition->0,
                    layers: layers->0,
                },
            )
        } else {
            None
        }
    }

    open spec fn written(v: SceneView) -> JsonView {
        JsonView::Object(
            none() + one("id"@, JsonView::Text(v.id)) + one("name"@, JsonView::Text(v.name)) + one(
                "duration"@,
                num(v.duration),
            ) + maybe(v.transition is Some, "transition"@, cut_written(v.transition->0)) + one(
                "layers"@,
                items_written::<Clip>(v.layers),
            ),
        )
    }

    open spec fn storable(v: SceneView) -> bool {
        &&& in_range(v.duration)
        &&& v.transition is Some ==> in_range(v.transition->0.duration as int)
        &&& all_storable::<Clip>(v.layers)
    }

    fn read(j: &Json) -> (r: Option<Scene>) {
        proof {
            reveal_strlit("");
            assert(""@ =~= Seq::empty());
        }
        if !is_record(j, 5) || !is_sole(j, "id") || !is_sole(j, "name") || !is_sole(j, "duration")
            || !is_sole(j, "transition") || !is_sole(j, "layers") {
            return None;
        }
        let id: Option<String> = get_text(get_field(j, "id", 0));
        let name: Option<String> = get_text_or(get_field(j, "name", 1), "");
        let duration: Option<i128> = get_fixed(get_field(j, "duration", 2));
        let transition: Option<Option<Transition>> = get_maybe_cut(get_field(j, "transition", 3));
        let layers: Option<Vec<Clip>> = get_items_or_none(get_field(j, "layers", 4));
        match (id, name, duration, transition, layers) {
            (Some(id), Some(name), Some(duration), Some(transition), Some(layers)) => Some(
                Scene { id, name, duration, transition, layers },
            ),
            _ => None,
        }
    }

    fn write(&self) -> (r: Json) {
        let mut m: Vec<(String, Json)> = nothing();
        put(&mut m, "id", text_json(self.id.as_str()));
        put(&mut m, "name", text_json(self.name.as_str()));
        put(&mut m, "duration", fixed_json(self.duration));
        match &self.transition {
            Some(t) => put_if(&mut m, true, "transition", cut_json(t)),
            None => put_if(&mut m, false, "transition", Json::Null),
        }
        put(&mut m, "layers", items_json(&self.layers));
        object(m)
    }

    proof fn lemma_read_back(v: SceneView) {
        lemma_calm_sole(Self::written(v), Self::levels(), false);
        lemma_words();
        law_number(v.duration);
        if v.transition is Some {
            lemma_cut_back(v.transition->0);
        }
        lemma_items_back::<Clip>(v.layers);
    }

    proof fn lemma_read_storable(j: JsonView) {
        lemma_fixed_in(field(j, "duration"@, 2), 0);
        lemma_items_storable::<Clip>(field(j, "layers"@, 4));
        match field(j, "transition"@, 3) {
            Some(t) => {
                if cut_in(t) is Some {
                    lemma_cut_storable(t);
                }
            },
            None => {},
        }
    }

    open spec fn modest(v: SceneView) -> bool {
        &&& lasting(v.duration)
        &&& v.transition is Some ==> lasting(v.transition->0.duration as int)
        &&& all_modest::<Clip>(v.layers)
    }

    proof fn lemma_read_modest(j: JsonView) {
        broadcast use lemma_steady_field;

        lemma_fixed_lasting(field(j, "duration"@, 2), 0);
        lemma_items_modest::<Clip>(field(j, "layers"@, 4));
        match field(j, "transition"@, 3) {
            Some(t) => {
                if cut_in(t) is Some {
                    lemma_cut_modest(t);
                }
            },
            None => {},
        }
    }

    proof fn lemma_near(v: SceneView, w: JsonView) -> (q: SceneView) {
        let a1 = none() + one("id"@, JsonView::Text(v.id));
        let a2 = a1 + one("name"@, JsonView::Text(v.name));
        let a3 = a2 + one("duration"@, num(v.duration));
        let a4 = a3 + maybe(v.transition is Some, "transition"@, cut_written(v.transition->0));
        let a5 = a4 + one("layers"@, items_written::<Clip>(v.layers));
        let n5 = lemma_near_object(a5, w);
        let (n4, w5) = lemma_near_one(a4, "layers"@, items_written::<Clip>(v.layers), n5);
        let (n3, w4) = lemma_near_maybe(
            a3,
            v.transition is Some,
            "transition"@,
            cut_written(v.transition->0),
            n4,
        );
        let (n2, w3) = lemma_near_one(a2, "duration"@, num(v.duration), n3);
        let (n1, w2) = lemma_near_one(a1, "name"@, JsonView::Text(v.name), n2);
        let (n0, w1) = lemma_near_one(none(), "id"@, JsonView::Text(v.id), n1);
        lemma_near_none(n0);
        let duration = lemma_near_number(v.duration, w3);
        let transition = if v.transition is Some {
            Some(lemma_cut_near(v.transition->0, w4))
        } else {
            None
        };
        let layers = lemma_near_items::<Clip>(v.layers, w5);
        SceneView { duration, transition, layers, ..v }
    }

    open spec fn levels() -> nat {
        7
    }

    proof fn lemma_calm(v: SceneView, d: nat, exact: bool) {
        broadcast use group_calm;

        lemma_words();
        let m = Self::written(v)->Object_0;
        if v.transition is Some {
            lemma_cut_calm(v.transition->0, (d - 1) as nat, exact);
        }
        lemma_items_calm::<Clip>(v.layers, (d - 1) as nat, exact);
        assert(tidy(m, (d - 1) as nat, exact));
        lemma_calm_object(m, d, exact);
    }
}

impl Stored for OverlayTrack {
    open spec fn read_in(j: JsonView) -> Option<OverlayTrackView> {
        let id = text_in(field(j, "id"@, 0));
        let muted = flag_in(field(j, "muted"@, 1));
        let hidden = flag_in(field(j, "hidden"@, 2));
        let locked = flag_in(field(j, "locked"@, 3));
        let name = text_or(field(j, "name"@, 4), Seq::empty());
        let clips = items_or_none::<Clip>(field(j, "clips"@, 5));
        if record(j, 6) && sole(j, "id"@) && sole(j, "muted"@) && sole(j, "hidden"@)
            && sole(j, "locked"@) && sole(j, "name"@) && sole(j, "clips"@)
            && id is Some && muted is Some && hidden is Some && locked is Some && name
            is Some && clips is Some {
            Some(
                OverlayTrackView {
                    id: id->0,
                    muted: muted->0,
                    hidden: hidden->0,
                    locked: locked->0,
                    name: name->0,
                    clips: clips->0,
                },
            )
        } else {
            None
        }
    }

    open spec fn written(v: OverlayTrackView) -> JsonView {
        JsonView::Object(
            none() + one("id"@, JsonView::Text(v.id)) + maybe(
                v.muted,
                "muted"@,
                JsonView::Bool(v.muted),
            ) + maybe(v.hidden, "hidden"@, JsonView::Bool(v.hidden)) + maybe(
                v.locked,
                "locked"@,
                JsonView::Bool(v.locked),
            ) + one("name"@, JsonView::Text(v.name)) + one(
                "clips"@,
                items_written::<Clip>(v.clips),
            ),
        )
    }

    open spec fn storable(v: OverlayTrackView) -> bool {
        all_storable::<Clip>(v.clips)
    }

    fn read(j: &Json) -> (r: Option<OverlayTrack>) {
        proof {
            reveal_strlit("");
            assert(""@ =~= Seq::empty());
        }
        if !is_record(j, 6) || !is_sole(j, "id") || !is_sole(j, "muted") || !is_sole(j, "hidden")
            || !is_sole(j, "locked") || !is_sole(j, "name") || !is_sole(j, "clips") {
            return None;
        }
        let id: Option<String> = get_text(get_field(j, "id", 0));
        let muted: Option<bool> = get_flag(get_field(j, "muted", 1));
        let hidden: Option<bool> = get_flag(get_field(j, "hidden", 2));
        let locked: Option<bool> = get_flag(get_field(j, "locked", 3));
        let name: Option<String> = get_text_or(get_field(j, "name", 4), "");
        let clips: Option<Vec<Clip>> = get_items_or_none(get_field(j, "clips", 5));
        match (id, muted, hidden, locked, name, clips) {
            (Some(id), Some(muted), Some(hidden), Some(locked), Some(name), Some(clips)) => Some(
                OverlayTrack { id, muted, hidden, locked, name, clips },
            ),
            _ => None,
        }
    }

    fn write(&self) -> (r: Json) {
        let mut m: Vec<(String, Json)> = nothing();
        put(&mut m, "id", text_json(self.id.as_str()));
        put_if(&mut m, self.muted, "muted", Json::Bool(self.muted));
        put_if(&mut m, self.hidden, "hidden", Json::Bool(self.hidden));
        put_if(&mut m, self.locked, "locked", Json::Bool(self.locked));
        put(&mut m, "name", text_json(self.name.as_str()));
        put(&mut m, "clips", items_json(&self.clips));
        object(m)
    }

    proof fn lemma_read_back(v: OverlayTrackView) {
        lemma_calm_sole(Self::written(v), Self::levels(), false);
        lemma_words();
        lemma_items_back::<Clip>(v.clips);
    }

    proof fn lemma_read_storable(j: JsonView) {
        lemma_items_storable::<Clip>(field(j, "clips"@, 5));
    }

    open spec fn modest(v: OverlayTrackView) -> bool {
        all_modest::<Clip>(v.clips)
    }

    proof fn lemma_read_modest(j: JsonView) {
        broadcast use lemma_steady_field;

        lemma_items_modest::<Clip>(field(j, "clips"@, 5));
    }

    proof fn lemma_near(v: OverlayTrackView, w: JsonView) -> (q: OverlayTrackView) {
        let a1 = none() + one("id"@, JsonView::Text(v.id));
        let a2 = a1 + maybe(v.muted, "muted"@, JsonView::Bool(v.muted));
        let a3 = a2 + maybe(v.hidden, "hidden"@, JsonView::Bool(v.hidden));
        let a4 = a3 + maybe(v.locked, "locked"@, JsonView::Bool(v.locked));
        let a5 = a4 + one("name"@, JsonView::Text(v.name));
        let a6 = a5 + one("clips"@, items_written::<Clip>(v.clips));
        let n6 = lemma_near_object(a6, w);
        let (n5, w6) = lemma_near_one(a5, "clips"@, items_written::<Clip>(v.clips), n6);
        let (n4, w5) = lemma_near_one(a4, "name"@, JsonView::Text(v.name), n5);
        let (n3, w4) = lemma_near_maybe(a3, v.locked, "locked"@, JsonView::Bool(v.locked), n4);
        let (n2, w3) = lemma_near_maybe(a2, v.hidden, "hidden"@, JsonView::Bool(v.hidden), n3);
        let (n1, w2) = lemma_near_maybe(a1, v.muted, "muted"@, JsonView::Bool(v.muted), n2);
        let (n0, w1) = lemma_near_one(none(), "id"@, JsonView::Text(v.id), n1);
        lemma_near_none(n0);
        let clips = lemma_near_items::<Clip>(v.clips, w6);
        OverlayTrackView { clips, ..v }
    }

    open spec fn levels() -> nat {
        7
    }

    proof fn lemma_calm(v: OverlayTrackView, d: nat, exact: bool) {
        broadcast use group_calm;

        lemma_words();
        let m = Self::written(v)->Object_0;
        lemma_items_calm::<Clip>(v.clips, (d - 1) as nat, exact);
        assert(tidy(m, (d - 1) as nat, exact));
        lemma_calm_object(m, d, exact);
    }
}

/// The project settings of a document.
pub open spec fn meta_in(j: Option<JsonView>) -> Option<crate::document::MetaView> {
    match j {
        Some(m) => Meta::read_in(m),
        None => None,
    }
}

fn get_meta(j: Option<&Json>) -> (r: Option<Meta>)
    ensures
        match r {
            Some(m) => meta_in(seen(j)) == Some(m@),
            None => meta_in(seen(j)) is None,
        },
{
    match j {
        Some(m) => Meta::read(m),
        None => None,
    }
}

proof fn lemma_lanes(v: Seq<LaneMeta>)
    ensures
        views(v) == v,
{
    assert(views(v) =~= v);
}

impl Stored for Project {
    open spec fn read_in(j: JsonView) -> Option<ProjectView> {
        let meta = meta_in(field(j, "meta"@, 0));
        let library = items_or_none::<String>(field(j, "library"@, 1));
        let defs = map_in::<CompDef>(field(j, "defs"@, 2));
        let scenes = items_in::<Scene>(field(j, "scenes"@, 3));
        let overlays = items_or_none::<OverlayTrack>(field(j, "overlays"@, 4));
        let lanes = items_or_none::<LaneMeta>(field(j, "scene_lanes"@, 5));
        if record(j, 6) && sole(j, "meta"@) && sole(j, "library"@) && sole(j, "defs"@)
            && sole(j, "scenes"@) && sole(j, "overlays"@) && sole(j, "scene_lanes"@)
            && meta is Some && library is Some && defs is Some && scenes is Some
            && overlays is Some && lanes is Some {
            Some(
                ProjectView {
                    meta: meta->0,
                    library: library->0,
                    defs: defs->0,
                    scenes: scenes->0,
                    overlays: overlays->0,
                    scene_lanes: lanes->0,
                },
            )
        } else {
            None
        }
    }

    open spec fn written(v: ProjectView) -> JsonView {
        JsonView::Object(
            none() + one("meta"@, Meta::written(v.meta)) + maybe(
                v.library.len() > 0,
                "library"@,
                items_written::<String>(v.library),
            ) + one("defs"@, map_written::<CompDef>(v.defs)) + one(
                "scenes"@,
                items_written::<Scene>(v.scenes),
            ) + one("overlays"@, items_written::<OverlayTrack>(v.overlays)) + maybe(
                v.scene_lanes.len() > 0,
                "scene_lanes"@,
                items_written::<LaneMeta>(v.scene_lanes),
            ),
        )
    }

    open spec fn storable(v: ProjectView) -> bool {
        &&& Meta::storable(v.meta)
        &&& map_storable::<CompDef>(v.defs)
        &&& all_storable::<Scene>(v.scenes)
        &&& all_storable::<OverlayTrack>(v.overlays)
    }

    fn read(j: &Json) -> (r: Option<Project>) {
        if !is_record(j, 6) || !is_sole(j, "meta") || !is_sole(j, "library")
            || !is_sole(j, "defs") || !is_sole(j, "scenes") || !is_sole(j, "overlays")
            || !is_sole(j, "scene_lanes") {
            return None;
        }
        let meta: Option<Meta> = get_meta(get_field(j, "meta", 0));
        let library: Option<Vec<String>> = get_items_or_none(get_field(j, "library", 1));
        let defs: Option<TextMap<CompDef>> = get_map(get_field(j, "defs", 2));
        let scenes: Option<Vec<Scene>> = get_items(get_field(j, "scenes", 3));
        let overlays: Option<Vec<OverlayTrack>> = get_items_or_none(get_field(j, "overlays", 4));
        let lanes: Option<Vec<LaneMeta>> = get_items_or_none(get_field(j, "scene_lanes", 5));
        match (meta, library, defs, scenes, overlays, lanes) {
            (
                Some(meta),
                Some(library),
                Some(defs),
                Some(scenes),
                Some(overlays),
                Some(scene_lanes),
            ) => {
                proof {
                    lemma_lanes(scene_lanes@);
                }
                Some(Project { meta, library, defs, scenes, overlays, scene_lanes })
            },
            _ => None,
        }
    }

    fn write(&self) -> (r: Json) {
        proof {
            lemma_lanes(self.scene_lanes@);
        }
        let mut m: Vec<(String, Json)> = nothing();
        put(&mut m, "meta", self.meta.write());
        put_if(&mut m, self.library.len() > 0, "library", items_json(&self.library));
        put(&mut m, "defs", map_json(&self.defs));
        put(&mut m, "scenes", items_json(&self.scenes));
        put(&mut m, "overlays", items_json(&self.overlays));
        put_if(&mut m, self.scene_lanes.len() > 0, "scene_lanes", items_json(&self.scene_lanes));
        object(m)
    }

    proof fn lemma_read_back(v: ProjectView) {
        lemma_calm_sole(Self::written(v), Self::levels(), false);
        lemma_words();
        Meta::lemma_calm(v.meta, Meta::levels(), false);
        Meta::lemma_read_back(v.meta);
        lemma_items_back::<String>(v.library);
        lemma_map_back::<CompDef>(v.defs);
        lemma_items_back::<Scene>(v.scenes);
        lemma_items_back::<OverlayTrack>(v.overlays);
        lemma_items_back::<LaneMeta>(v.scene_lanes);
        if v.library.len() == 0 {
            assert(v.library =~= Seq::empty());
        }
        if v.scene_lanes.len() == 0 {
            assert(v.scene_lanes =~= Seq::empty());
        }
    }

    proof fn lemma_read_storable(j: JsonView) {
        Meta::lemma_read_storable(field(j, "meta"@, 0)->0);
        lemma_map_storable::<CompDef>(field(j, "defs"@, 2));
        lemma_items_storable::<Scene>(field(j, "scenes"@, 3));
        lemma_items_storable::<OverlayTrack>(field(j, "overlays"@, 4));
    }

    open spec fn modest(v: ProjectView) -> bool {
        &&& map_modest::<CompDef>(v.defs)
        &&& all_modest::<Scene>(v.scenes)
        &&& all_modest::<OverlayTrack>(v.overlays)
    }

    proof fn lemma_read_modest(j: JsonView) {
        broadcast use lemma_steady_field;

        lemma_map_modest::<CompDef>(field(j, "defs"@, 2));
        lemma_items_modest::<Scene>(field(j, "scenes"@, 3));
        lemma_items_modest::<OverlayTrack>(field(j, "overlays"@, 4));
    }

    proof fn lemma_near(v: ProjectView, w: JsonView) -> (q: ProjectView) {
        let a1 = none() + one("meta"@, Meta::written(v.meta));
        let a2 = a1 + maybe(v.library.len() > 0, "library"@, items_written::<String>(v.library));
        let a3 = a2 + one("defs"@, map_written::<CompDef>(v.defs));
        let a4 = a3 + one("scenes"@, items_written::<Scene>(v.scenes));
        let a5 = a4 + one("overlays"@, items_written::<OverlayTrack>(v.overlays));
        let a6 = a5 + maybe(
            v.scene_lanes.len() > 0,
            "scene_lanes"@,
            items_written::<LaneMeta>(v.scene_lanes),
        );
        let n6 = lemma_near_object(a6, w);
        let (n5, w6) = lemma_near_maybe(
            a5,
            v.scene_lanes.len() > 0,
            "scene_lanes"@,
            items_written::<LaneMeta>(v.scene_lanes),
            n6,
        );
        let (n4, w5) = lemma_near_one(
            a4,
            "overlays"@,
            items_written::<OverlayTrack>(v.overlays),
            n5,
        );
        let (n3, w4) = lemma_near_one(a3, "scenes"@, items_written::<Scene>(v.scenes), n4);
        let (n2, w3) = lemma_near_one(a2, "defs"@, map_written::<CompDef>(v.defs), n3);
        let (n1, w2) = lemma_near_maybe(
            a1,
            v.library.len() > 0,
            "library"@,
            items_written::<String>(v.library),
            n2,
        );
        let (n0, w1) = lemma_near_one(none(), "meta"@, Meta::written(v.meta), n1);
        lemma_near_none(n0);
        let meta = Meta::lemma_near(v.meta, w1);
        let library = if v.library.len() > 0 {
            lemma_near_items::<String>(v.library, w2)
        } else {
            v.library
        };
        let defs = lemma_near_map::<CompDef>(v.defs, w3);
        let scenes = lemma_near_items::<Scene>(v.scenes, w4);
        let overlays = lemma_near_items::<OverlayTrack>(v.overlays, w5);
        let scene_lanes = if v.scene_lanes.len() > 0 {
            lemma_near_items::<LaneMeta>(v.scene_lanes, w6)
        } else {
            v.scene_lanes
        };
        ProjectView { meta, library, defs, scenes, overlays, scene_lanes }
    }

    open spec fn levels() -> nat {
        9
    }

    proof fn lemma_calm(v: ProjectView, d: nat, exact: bool) {
        broadcast use group_calm;

        lemma_words();
        let m = Self::written(v)->Object_0;
        Meta::lemma_calm(v.meta, (d - 1) as nat, exact);
        lemma_items_calm::<String>(v.library, (d - 1) as nat, exact);
        lemma_map_calm::<CompDef>(v.defs, (d - 1) as nat, exact);
        lemma_items_calm::<Scene>(v.scenes, (d - 1) as nat, exact);
        lemma_items_calm::<OverlayTrack>(v.overlays, (d - 1) as nat, exact);
        lemma_items_calm::<LaneMeta>(v.scene_lanes, (d - 1) as nat, exact);
        assert(tidy(m, (d - 1) as nat, exact));
        lemma_calm_object(m, d, exact);
    }
}

/// What is written is read back: the JSON of a document whose numbers are in
/// range and whose maps are in order stands for that document.
pub proof fn law_read_back(p: ProjectView)
    requires
        Project::storable(p),
    ensures
        Project::read_in(Project::written(p)) == Some(p),
{
    Project::lemma_calm(p, Project::levels(), false);
    Project::lemma_read_back(p);
}

/// Whatever was read can be written and read back: writing is stable.
pub proof fn law_stable(j: JsonView)
    requires
        Project::read_in(j) is Some,
    ensures
        Project::read_in(Project::written(Project::read_in(j)->0)) == Project::read_in(j),
{
    Project::lemma_read_storable(j);
    Project::lemma_calm(Project::read_in(j)->0, Project::levels(), false);
    Project::lemma_read_back(Project::read_in(j)->0);
}

/// The document that a text stands for, valid or not.
pub open spec fn document_in(text: Seq<char>) -> Option<ProjectView> {
    match value_in(text, NESTING as nat) {
        Some(j) => Project::read_in(j),
        None => None,
    }
}

/// A text stands for a document that has this very text, and that is `p` but for
/// numbers that do not last: these are others close by.
pub open spec fn stands_for(text: Seq<char>, p: ProjectView) -> bool {
    match document_in(text) {
        Some(q) => {
            &&& Project::storable(q)
            &&& printed(Project::written(q)) == Some(text)
            &&& near(Project::written(p), Project::written(q))
            &&& Project::modest(p) ==> q == p
        },
        None => false,
    }
}

/// Why a text is no document.
#[derive(Debug)]
pub enum OpenError {
    /// The text is no JSON.
    BadJson,
    /// A field is missing or not of its kind, or a number out of range.
    BadDocument,
    /// The document is not valid.
    Invalid(ValidateError),
}

impl Project {
    /// Read a document from its JSON text, and validate it. A document that
    /// was read can be written again, and what is written stands for it.
    pub fn from_json(text: &str) -> (r: Result<Project, OpenError>)
        ensures
            r is Ok ==> document_in(text@) == Some(r->Ok_0@) && Project::storable(r->Ok_0@)
                && Project::modest(r->Ok_0@),
            match value_in(text@, NESTING as nat) {
                None => r is Err && r->Err_0 is BadJson,
                Some(j) => match Project::read_in(j) {
                    None => r is Err && r->Err_0 is BadDocument,
                    Some(p) => if valid(p) {
                        r is Ok && r->Ok_0@ == p
                    } else {
                        r matches Err(OpenError::Invalid(e)) && project_fault(p) == Some(e@)
                    },
                },
            },
    {
        let j: Json = match parse_tree(text) {
            Some(j) => j,
            None => return Err(OpenError::BadJson),
        };
        proof {
            if Project::read_in(j@) is Some {
                Project::lemma_read_storable(j@);
                Project::lemma_read_modest(j@);
            }
        }
        match Project::from_value(&j) {
            Ok(p) => Ok(p),
            Err(e) => Err(e),
        }
    }

    /// Read a document from a JSON value, and validate it.
    pub fn from_value(j: &Json) -> (r: Result<Project, OpenError>)
        ensures
            match Project::read_in(j@) {
                None => r is Err && r->Err_0 is BadDocument,
                Some(p) => if valid(p) {
                    r is Ok && r->Ok_0@ == p
                } else {
                    r matches Err(OpenError::Invalid(e)) && project_fault(p) == Some(e@)
                },
            },
    {
        let p: Project = match Project::read(j) {
            Some(p) => p,
            None => return Err(OpenError::BadDocument),
        };
        match p.validate() {
            Ok(()) => Ok(p),
            Err(e) => Err(OpenError::Invalid(e)),
        }
    }

    /// The JSON text of the document, with indentation. There is one if the
    /// numbers are in range and the maps in order, and what is read from it has
    /// the same text. If the numbers also last, as those of at most fifteen
    /// significant digits and those of a document that was read do, the text
    /// stands for the document itself.
    pub fn to_json(&self) -> (r: Option<String>)
        ensures
            opt_text(r) == printed(Project::written(self@)),
            Project::storable(self@) ==> r is Some && stands_for(r->0@, self@),
    {
        let j: Json = self.to_value();
        let r: Option<String> = print_json(&j);
        proof {
            if Project::storable(self@) {
                let d = Project::levels();
                Project::lemma_calm(self@, d, false);
                assert(calm(j@, d, false));
                lemma_value_deeper(r->0@, d, NESTING as nat);
                let w = value_in(r->0@, d)->0;
                let q = Project::lemma_near(self@, w);
                Project::lemma_calm(q, d, false);
                Project::lemma_read_back(q);
                if Project::modest(self@) {
                    Project::lemma_calm(self@, d, true);
                    assert(calm(j@, d, true));
                    Project::lemma_read_back(self@);
                }
            }
        }
        r
    }

    /// The JSON of the document.
    pub fn to_value(&self) -> (r: Json)
        ensures
            r@ == Project::written(self@),
    {
        self.write()
    }
}

/// What a document leaves out of a clip is 0, plain or empty; media plays from
/// its start, as loud and as fast as it is; a text is white, in bold sans, and
/// has neither alignment nor outline nor shadow.
pub proof fn law_omitted_clip(j: JsonView)
    requires
        Clip::read_in(j) is Some,
    ensures
        ({
            let c = Clip::read_in(j)->0;
            &&& field(j, "id"@, 0) is Some && field(j, "type"@, 0) is Some
            &&& field(j, "start"@, 0) is None ==> c.start == 0
            &&& field(j, "duration"@, 0) is None ==> c.duration == 0
            &&& field(j, "transform"@, 0) is None ==> c.transform == Transform::plain()
            &&& field(j, "animations"@, 0) is None ==> c.animations.len() == 0
            &&& field(j, "effects"@, 0) is None ==> c.effects.len() == 0
            &&& match c.element {
                ElementView::Video { src, offset, volume, rate } => {
                    &&& field(j, "offset"@, 0) is None ==> offset == 0
                    &&& field(j, "volume"@, 0) is None ==> volume == 1_000_000_000
                    &&& field(j, "rate"@, 0) is None ==> rate == 1_000_000_000
                },
                ElementView::Audio { src, offset, volume, rate } => {
                    &&& field(j, "offset"@, 0) is None ==> offset == 0
                    &&& field(j, "volume"@, 0) is None ==> volume == 1_000_000_000
                    &&& field(j, "rate"@, 0) is None ==> rate == 1_000_000_000
                },
                ElementView::Text { text, font, color, align, outline, shadow } => {
                    &&& field(j, "text"@, 0) is Some
                    &&& field(j, "font"@, 0) is None ==> font == "Sans Bold 32"@
                    &&& field(j, "color"@, 0) is None ==> color == "#ffffff"@
                    &&& field(j, "align"@, 0) is None ==> align is None
                    &&& field(j, "outline"@, 0) is None ==> outline is None
                    &&& field(j, "shadow"@, 0) is None ==> !shadow
                },
                ElementView::Shape { shape, fill } => field(j, "fill"@, 0) is None ==> fill
                    == "#ffffff"@,
                _ => true,
            }
        }),
{
}

/// What a document leaves out of a track is off, nameless and empty; of the
/// document itself, everything but the settings and the scenes may be left
/// out.
pub proof fn law_omitted_track(j: JsonView)
    ensures
        OverlayTrack::read_in(j) is Some ==> {
            let t = OverlayTrack::read_in(j)->0;
            &&& field(j, "id"@, 0) is Some
            &&& field(j, "muted"@, 1) is None ==> !t.muted
            &&& field(j, "hidden"@, 2) is None ==> !t.hidden
            &&& field(j, "locked"@, 3) is None ==> !t.locked
            &&& field(j, "name"@, 4) is None ==> t.name.len() == 0
            &&& field(j, "clips"@, 5) is None ==> t.clips.len() == 0
        },
        Project::read_in(j) is Some ==> {
            let p = Project::read_in(j)->0;
            &&& field(j, "meta"@, 0) is Some && field(j, "scenes"@, 3) is Some
            &&& field(j, "library"@, 1) is None ==> p.library.len() == 0
            &&& field(j, "defs"@, 2) is None ==> p.defs.len() == 0
            &&& field(j, "overlays"@, 4) is None ==> p.overlays.len() == 0
            &&& field(j, "scene_lanes"@, 5) is None ==> p.scene_lanes.len() == 0
        },
{
}

} // verus!
