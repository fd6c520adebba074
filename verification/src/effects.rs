//! What a timeline engine is told about the effects, the placement and the
//! texts of a clip.

use vstd::prelude::*;
use crate::color::{argb, parse_color};
use crate::compile::Wipe;
use crate::document::{AnimProperty, Clip, ClipView, Effect, EffectView, Element, Meta, TextAlign};
use crate::document::{Transform, TransitionKind};
use crate::fixed::{floor_div, within, HORIZON, UNIT};
use crate::text::{chars_of, decimal, decimal_text, fixed_notation, fixed_text, found_at};
use crate::text::matches_at;
use crate::views::views;

verus! {

broadcast use crate::views::group_views;

/// The decimal notation of a whole number.
pub open spec fn whole_notation(n: int) -> Seq<char> {
    if n < 0 {
        seq!['-'] + decimal((-n) as nat)
    } else {
        decimal(n as nat)
    }
}

/// The engine's description of an effect.
pub open spec fn described(e: EffectView) -> Seq<char> {
    match e {
        EffectView::Blur { amount } => "gaussianblur sigma="@ + fixed_notation(amount),
        EffectView::ChromaKey { color, angle, noise } => "alpha method=custom target-r="@ + decimal(
            ((argb(color) / 65536) % 256) as nat,
        ) + " target-g="@ + decimal(((argb(color) / 256) % 256) as nat) + " target-b="@ + decimal(
            (argb(color) % 256) as nat,
        ) + " angle="@ + fixed_notation(angle) + " noise-level="@ + fixed_notation(noise),
        EffectView::Crop { left, right, top, bottom } => "videocrop left="@ + whole_notation(left)
            + " right="@ + whole_notation(right) + " top="@ + whole_notation(top) + " bottom="@
            + whole_notation(bottom),
        EffectView::Eq { low, mid, high } => "equalizer-3bands band0="@ + fixed_notation(low)
            + " band1="@ + fixed_notation(mid) + " band2="@ + fixed_notation(high),
        EffectView::Compressor { threshold, ratio } => "audiodynamic mode=compressor threshold="@
            + fixed_notation(threshold) + " ratio="@ + fixed_notation(ratio),
        EffectView::Denoise { level } =>
            "webrtcdsp echo-cancel=false noise-suppression=true noise-suppression-level="@
            + decimal(level as nat),
        EffectView::Color { brightness, contrast, saturation, hue } => "videobalance brightness="@
            + fixed_notation(brightness) + " contrast="@ + fixed_notation(contrast)
            + " saturation="@ + fixed_notation(saturation) + " hue="@ + fixed_notation(hue),
    }
}

fn whole_text(n: i32) -> (r: String)
    ensures
        r@ == whole_notation(n as int),
{
    if n < 0 {
        let mut s: String = String::new();
        s.push('-');
        assert(s@ =~= seq!['-']);
        s.append(decimal_text((-(n as i128)) as u128).as_str());
        s
    } else {
        decimal_text(n as u128)
    }
}

fn append_fixed(s: &mut String, label: &str, x: i128)
    requires
        within(x as int, 16),
    ensures
        final(s)@ == old(s)@ + label@ + fixed_notation(x as int),
{
    s.append(label);
    s.append(fixed_text(x).as_str());
}

fn append_whole(s: &mut String, label: &str, n: i32)
    ensures
        final(s)@ == old(s)@ + label@ + whole_notation(n as int),
{
    s.append(label);
    s.append(whole_text(n).as_str());
}

fn append_number(s: &mut String, label: &str, n: u32)
    ensures
        final(s)@ == old(s)@ + label@ + decimal(n as nat),
{
    s.append(label);
    s.append(decimal_text(n as u128).as_str());
}

impl Effect {
    /// The engine's description of the effect.
    pub fn describe(&self) -> (r: String)
        requires
            self@.fits(16),
        ensures
            r@ == described(self@),
    {
        let mut s: String = String::new();
        let ghost empty = s@;
        match self {
            Effect::Blur { amount } => {
                append_fixed(&mut s, "gaussianblur sigma=", *amount);
                assert(empty + "gaussianblur sigma="@ =~= "gaussianblur sigma="@);
            },
            Effect::ChromaKey { color, angle, noise } => {
                let value: u32 = parse_color(color.as_str());
                append_number(&mut s, "alpha method=custom target-r=", (value / 65536) % 256);
                assert(empty + "alpha method=custom target-r="@ =~= "alpha method=custom target-r="@);
                append_number(&mut s, " target-g=", (value / 256) % 256);
                append_number(&mut s, " target-b=", value % 256);
                append_fixed(&mut s, " angle=", *angle);
                append_fixed(&mut s, " noise-level=", *noise);
            },
            Effect::Crop { left, right, top, bottom } => {
                append_whole(&mut s, "videocrop left=", *left);
                assert(empty + "videocrop left="@ =~= "videocrop left="@);
                append_whole(&mut s, " right=", *right);
                append_whole(&mut s, " top=", *top);
                append_whole(&mut s, " bottom=", *bottom);
            },
            Effect::Eq { low, mid, high } => {
                append_fixed(&mut s, "equalizer-3bands band0=", *low);
                assert(empty + "equalizer-3bands band0="@ =~= "equalizer-3bands band0="@);
                append_fixed(&mut s, " band1=", *mid);
                append_fixed(&mut s, " band2=", *high);
            },
            Effect::Compressor { threshold, ratio } => {
                append_fixed(&mut s, "audiodynamic mode=compressor threshold=", *threshold);
                assert(empty + "audiodynamic mode=compressor threshold="@
                    =~= "audiodynamic mode=compressor threshold="@);
                append_fixed(&mut s, " ratio=", *ratio);
            },
            Effect::Denoise { level } => {
                append_number(
                    &mut s,
                    "webrtcdsp echo-cancel=false noise-suppression=true noise-suppression-level=",
                    *level,
                );
                assert(empty
                    + "webrtcdsp echo-cancel=false noise-suppression=true noise-suppression-level="@
                    =~= "webrtcdsp echo-cancel=false noise-suppression=true noise-suppression-level="@);
            },
            Effect::Color { brightness, contrast, saturation, hue } => {
                append_fixed(&mut s, "videobalance brightness=", *brightness);
                assert(empty + "videobalance brightness="@ =~= "videobalance brightness="@);
                append_fixed(&mut s, " contrast=", *contrast);
                append_fixed(&mut s, " saturation=", *saturation);
                append_fixed(&mut s, " hue=", *hue);
            },
        }
        s
    }
}

/// A clip animates the given property.
pub open spec fn animates(c: ClipView, property: AnimProperty) -> bool {
    exists|i: int| 0 <= i < c.animations.len() && (#[trigger] c.animations[i]).property == property
}

/// Whether a clip animates the given property.
pub fn animates_property(clip: &Clip, property: AnimProperty) -> (r: bool)
    ensures
        r == animates(clip@, property),
{
    let mut i: usize = 0;
    while i < clip.animations.len()
        invariant
            i <= clip.animations.len(),
            forall|j: int| 0 <= j < i ==> (#[trigger] clip@.animations[j]).property != property,
        decreases clip.animations.len() - i,
    {
        if clip.animations[i].property == property {
            assert(clip@.animations[i as int].property == property);
            return true;
        }
        i += 1;
    }
    false
}

/// The effects that realise the rate and the volume of a media clip: a pitch
/// effect and, for video, a rate effect where the clip does not play at
/// normal speed; a volume effect where it does not play at unity.
pub open spec fn media_effects(c: ClipView, video: bool, rate: int, volume: int) -> Seq<Seq<char>> {
    let speed = if rate != UNIT || animates(c, AnimProperty::Rate) {
        let pitch = seq!["pitch name=dcrate tempo="@ + fixed_notation(rate)];
        if video {
            pitch.push("videorate name=dcvrate rate="@ + fixed_notation(rate))
        } else {
            pitch
        }
    } else {
        Seq::empty()
    };
    if volume != UNIT || animates(c, AnimProperty::Volume) {
        speed.push("volume name=dcvol volume="@ + fixed_notation(volume))
    } else {
        speed
    }
}

fn labelled(label: &str, x: i128) -> (r: String)
    requires
        within(x as int, 16),
    ensures
        r@ == label@ + fixed_notation(x as int),
{
    let mut s: String = label.to_owned();
    s.append(fixed_text(x).as_str());
    s
}

/// The effects that realise the rate and the volume of a clip; none for a
/// clip without media.
pub fn speed_and_volume(clip: &Clip) -> (r: Vec<String>)
    requires
        clip@.element.fits(16),
    ensures
        views(r@) == match clip.element {
            Element::Video { src, offset, volume, rate } => media_effects(
                clip@,
                true,
                rate as int,
                volume as int,
            ),
            Element::Audio { src, offset, volume, rate } => media_effects(
                clip@,
                false,
                rate as int,
                volume as int,
            ),
            _ => Seq::empty(),
        },
{
    let mut out: Vec<String> = Vec::new();
    let (video, rate, volume): (bool, i128, i128) = match &clip.element {
        Element::Video { src, offset, volume, rate } => (true, *rate, *volume),
        Element::Audio { src, offset, volume, rate } => (false, *rate, *volume),
        _ => return out,
    };
    if rate != UNIT || animates_property(clip, AnimProperty::Rate) {
        out.push(labelled("pitch name=dcrate tempo=", rate));
        if video {
            out.push(labelled("videorate name=dcvrate rate=", rate));
        }
    }
    if volume != UNIT || animates_property(clip, AnimProperty::Volume) {
        out.push(labelled("volume name=dcvol volume=", volume));
    }
    assert(views(out@) =~= media_effects(clip@, video, rate as int, volume as int));
    out
}

/// Whole pixels, toward zero, held to 32 bits.
pub open spec fn pixels(x: int) -> int {
    let p = if x >= 0 {
        x / (UNIT as int)
    } else {
        -((-x) / (UNIT as int))
    };
    if p > i32::MAX {
        i32::MAX as int
    } else if p < i32::MIN {
        i32::MIN as int
    } else {
        p
    }
}

fn to_pixels(x: i128) -> (r: i32)
    requires
        x > i128::MIN,
    ensures
        r == pixels(x as int),
{
    let p: i128 = if x >= 0 {
        x / UNIT
    } else {
        -((-x) / UNIT)
    };
    if p > 2_147_483_647 {
        i32::MAX
    } else if p < -2_147_483_648 {
        i32::MIN
    } else {
        p as i32
    }
}

/// What the frame positioner is told; `None` leaves a property alone.
#[derive(Debug, Clone, Copy, PartialEq, Eq)]
pub struct Placement {
    pub position: Option<(i32, i32)>,
    pub width: Option<i32>,
    pub height: Option<i32>,
    pub alpha: Option<i128>,
}

/// The placement of a clip. Titles are positioned by their own properties;
/// other clips by pixels where they leave the corner or their natural size.
pub fn placement(transform: Transform, title: bool) -> (r: Placement)
    requires
        transform.fits(16),
    ensures
        r.position == (if !title && (transform.x != 0 || transform.y != 0) {
            Some((pixels(transform.x as int) as i32, pixels(transform.y as int) as i32))
        } else {
            None
        }),
        r.width == (if !title && transform.width > 0 {
            Some(pixels(transform.width as int) as i32)
        } else {
            None
        }),
        r.height == (if !title && transform.height > 0 {
            Some(pixels(transform.height as int) as i32)
        } else {
            None
        }),
        r.alpha == (if transform.opacity != UNIT {
            Some(transform.opacity)
        } else {
            None
        }),
{
    Placement {
        position: if !title && (transform.x != 0 || transform.y != 0) {
            Some((to_pixels(transform.x), to_pixels(transform.y)))
        } else {
            None
        },
        width: if !title && transform.width > 0 {
            Some(to_pixels(transform.width))
        } else {
            None
        },
        height: if !title && transform.height > 0 {
            Some(to_pixels(transform.height))
        } else {
            None
        },
        alpha: if transform.opacity != UNIT {
            Some(transform.opacity)
        } else {
            None
        },
    }
}

/// How a title is aligned; `Absolute` means by position.
#[derive(Debug, Clone, Copy, PartialEq, Eq, Structural)]
pub enum HAlign {
    Unset,
    Left,
    Center,
    Right,
    Absolute,
}

/// Alignment and relative position of a title. `position` is the fraction of
/// the frame at which the title stands, where it leaves the corner.
#[derive(Debug, Clone, Copy, PartialEq, Eq)]
pub struct TitlePlacement {
    pub halign: HAlign,
    pub position: Option<(i128, i128)>,
}

/// How a title is placed: an explicit alignment wins over the x position.
pub fn title_placement(transform: Transform, align: Option<TextAlign>, meta: &Meta) -> (r:
    TitlePlacement)
    requires
        transform.fits(16),
        meta.width > 0,
        meta.height > 0,
    ensures
        ({
            let placed = transform.x != 0 || transform.y != 0;
            &&& r.halign == (match align {
                Some(TextAlign::Left) => HAlign::Left,
                Some(TextAlign::Center) => HAlign::Center,
                Some(TextAlign::Right) => HAlign::Right,
                None => if placed {
                    HAlign::Absolute
                } else {
                    HAlign::Unset
                },
            })
            &&& match r.position {
                Some((x, y)) => placed && x == transform.x as int / meta.width as int && y
                    == transform.y as int / meta.height as int,
                None => !placed,
            }
        }),
{
    let placed: bool = transform.x != 0 || transform.y != 0;
    let halign: HAlign = match align {
        Some(TextAlign::Left) => HAlign::Left,
        Some(TextAlign::Center) => HAlign::Center,
        Some(TextAlign::Right) => HAlign::Right,
        None => if placed {
            HAlign::Absolute
        } else {
            HAlign::Unset
        },
    };
    let position: Option<(i128, i128)> = if placed {
        Some(
            (
                floor_div(transform.x, meta.width as i128),
                floor_div(transform.y, meta.height as i128),
            ),
        )
    } else {
        None
    };
    TitlePlacement { halign, position }
}

/// A transition clip of the engine falls inside the window of a wipe; a
/// hundredth of a second of slack is left on either side.
pub open spec fn inside_wipe(w: Wipe, start: int, end: int) -> bool {
    start >= w.start - 10_000_000 && end <= w.end + 10_000_000
}

/// The kind of the last wipe, among the first `n`, that a transition clip of
/// the engine falls inside.
pub open spec fn wipe_kind(
    wipes: Seq<Wipe>,
    start: int,
    end: int,
    n: int,
) -> Option<TransitionKind>
    decreases n,
{
    if n <= 0 {
        None
    } else if inside_wipe(wipes[n - 1], start, end) {
        Some(wipes[n - 1].kind)
    } else {
        wipe_kind(wipes, start, end, n - 1)
    }
}

/// The wipe that a crossfade of the engine is to become, if any.
pub fn wipe_for(wipes: &Vec<Wipe>, start: i128, end: i128) -> (r: Option<TransitionKind>)
    requires
        -2 * HORIZON <= start <= 2 * HORIZON,
        -2 * HORIZON <= end <= 2 * HORIZON,
        forall|i: int|
            0 <= i < wipes@.len() ==> -2 * HORIZON <= (#[trigger] wipes@[i]).start && wipes@[i].end
                <= 2 * HORIZON && wipes@[i].start <= 2 * HORIZON && -2 * HORIZON <= wipes@[i].end,
    ensures
        r == wipe_kind(wipes@, start as int, end as int, wipes@.len() as int),
{
    let mut n: usize = wipes.len();
    while n > 0
        invariant
            n <= wipes.len(),
            forall|i: int|
                0 <= i < wipes@.len() ==> -2 * HORIZON <= (#[trigger] wipes@[i]).start
                    && wipes@[i].end <= 2 * HORIZON && wipes@[i].start <= 2 * HORIZON && -2
                    * HORIZON <= wipes@[i].end,
            wipe_kind(wipes@, start as int, end as int, wipes@.len() as int) == wipe_kind(
                wipes@,
                start as int,
                end as int,
                n as int,
            ),
        decreases n,
    {
        let w: Wipe = wipes[n - 1];
        if start >= w.start - 10_000_000 && end <= w.end + 10_000_000 {
            return Some(w.kind);
        }
        n -= 1;
    }
    None
}

/// A text that is a URI holds `://` somewhere.
pub open spec fn is_uri_text(src: Seq<char>) -> bool {
    let mark = "://"@;
    exists|i: int| #[trigger] matches_at(src, mark, i)
}

/// Whether a media source is a URI rather than a path.
pub fn is_uri(src: &str) -> (r: bool)
    ensures
        r == is_uri_text(src@),
{
    let s: Vec<char> = chars_of(src);
    let pat: Vec<char> = chars_of("://");
    let ghost mark = "://"@;
    proof {
        reveal_strlit("://");
    }
    let mut i: usize = 0;
    while i < s.len()
        invariant
            s@ == src@,
            pat@ == mark,
            mark == "://"@,
            i <= s.len(),
            forall|j: int| 0 <= j < i ==> !#[trigger] matches_at(src@, mark, j),
        decreases s.len() - i,
    {
        if found_at(&s, &pat, i) {
            return true;
        }
        i += 1;
    }
    assert forall|j: int| !#[trigger] matches_at(src@, mark, j) by {
        assert(mark.len() == 3);
    }
    false
}

/// Pixels are cut off toward zero: they lie between zero and the exact place,
/// less than one pixel from it, and mirror with it.
pub proof fn law_pixels(x: int)
    requires
        -2_147_483_648 * UNIT <= x <= 2_147_483_647 * UNIT,
    ensures
        x >= 0 ==> 0 <= pixels(x) * UNIT <= x < (pixels(x) + 1) * UNIT,
        x < 0 ==> 0 >= pixels(x) * UNIT >= x > (pixels(x) - 1) * UNIT,
        x > -2_147_483_648 * UNIT ==> pixels(-x) == -pixels(x),
{
    assert(UNIT == 1_000_000_000);
}

/// A transition of the engine becomes a wipe exactly where it falls inside
/// the window of one, give or take a hundredth of a second, and it becomes the
/// last of those it falls inside.
pub proof fn law_wipe_found(wipes: Seq<Wipe>, start: int, end: int, n: int)
    requires
        0 <= n <= wipes.len(),
    ensures
        wipe_kind(wipes, start, end, n) is Some <==> exists|i: int|
            0 <= i < n && (#[trigger] wipes[i]).start - 10_000_000 <= start && end
                <= wipes[i].end + 10_000_000,
        wipe_kind(wipes, start, end, n) is Some ==> exists|i: int|
            0 <= i < n && (#[trigger] wipes[i]).start - 10_000_000 <= start && end
                <= wipes[i].end + 10_000_000 && wipe_kind(wipes, start, end, n) == Some(
                wipes[i].kind,
            ) && forall|j: int|
                i < j < n ==> !((#[trigger] wipes[j]).start - 10_000_000 <= start && end
                    <= wipes[j].end + 10_000_000),
    decreases n,
{
    if n > 0 {
        law_wipe_found(wipes, start, end, n - 1);
    }
}

/// A list of effects holds one of a label and a value.
pub open spec fn told(effects: Seq<Seq<char>>, label: Seq<char>, value: int) -> bool {
    effects.contains(label + fixed_notation(value))
}

/// A media clip gets effects for its speed where it does not play at normal
/// speed or its speed changes, and one for its volume where that is not unity
/// or changes; sound alone needs no frame rate effect. Nothing else is added.
pub proof fn law_media_effects(c: ClipView, video: bool, rate: int, volume: int)
    ensures
        ({
            let list = media_effects(c, video, rate, volume);
            let fast = rate != 1_000_000_000 || animates(c, AnimProperty::Rate);
            let loud = volume != 1_000_000_000 || animates(c, AnimProperty::Volume);
            &&& fast ==> told(list, "pitch name=dcrate tempo="@, rate)
            &&& fast && video ==> told(list, "videorate name=dcvrate rate="@, rate)
            &&& loud ==> told(list, "volume name=dcvol volume="@, volume)
            &&& list.len() == (if fast {
                if video {
                    2int
                } else {
                    1
                }
            } else {
                0
            }) + (if loud {
                1int
            } else {
                0
            })
        }),
{
    let list = media_effects(c, video, rate, volume);
    if rate != UNIT || animates(c, AnimProperty::Rate) {
        assert(list[0] == "pitch name=dcrate tempo="@ + fixed_notation(rate));
        if video {
            assert(list[1] == "videorate name=dcvrate rate="@ + fixed_notation(rate));
        }
    }
    if volume != UNIT || animates(c, AnimProperty::Volume) {
        assert(list[list.len() - 1] == "volume name=dcvol volume="@ + fixed_notation(volume));
    }
}

} // verus!
