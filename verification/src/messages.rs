//! What users are told when a document or an edit is refused.

use vstd::prelude::*;
use crate::docfile::OpenError;
use crate::error::{EditError, EditErrorView};
use crate::export::UnknownProfile;
use crate::faults::{ErrorView, Fault, ValidateError};
use crate::fixed::{larger, max};
use crate::json::{json_complaint, json_outcome};
use crate::text::{decimal, decimal_text, fixed_notation, fixed_text, joined};

verus! {

/// A text in quotes, as Rust's `Debug` writes it.
pub uninterp spec fn quoted(s: Seq<char>) -> Seq<char>;

/// The `Debug` notation of a `str`: the text in double quotes, with what cannot
/// be shown escaped. It depends on the text alone.
#[verifier::external_body]
pub(crate) fn quote(s: &str) -> (r: String)
    ensures
        r@ == quoted(s@),
{
    format!("{s:?}")
}

/// The rule of clips that a fault breaks.
pub open spec fn clip_rule(f: Fault) -> Seq<char> {
    match f {
        Fault::ClipTime => ": start/duration must be >= 0"@,
        Fault::AnimWindow => ": animation end must be > start"@,
        Fault::TooFewKeyframes => ": keyframe animations need at least 2 keyframes"@,
        Fault::KeyframeOrder => ": keyframes must be in strictly increasing time order"@,
        Fault::Rate => ": rate must be 0.1-10"@,
        Fault::RateTween =>
            ": rate animation needs keyframes (a plain tween has no segment boundaries to expand into static-rate clips); use a constant rate or keyframes"@,
        Fault::RateKeyframe => ": rate keyframe values must be 0.1-10"@,
        Fault::Blur => ": blur amount must be 0-50"@,
        Fault::ChromaKey => ": chromakey angle 1-90, noise 0-64"@,
        Fault::Crop => ": crop values must be >= 0"@,
        Fault::Eq => ": eq bands are -24..12 dB"@,
        Fault::Compressor => ": compressor threshold 0-1, ratio 1-4"@,
        Fault::Denoise => ": denoise level must be 0-3"@,
        _ => ": color ranges are brightness/hue -1..1, contrast/saturation 0..2"@,
    }
}

fn rule_of_clip(f: Fault) -> (r: &'static str)
    ensures
        r@ == clip_rule(f),
{
    match f {
        Fault::ClipTime => ": start/duration must be >= 0",
        Fault::AnimWindow => ": animation end must be > start",
        Fault::TooFewKeyframes => ": keyframe animations need at least 2 keyframes",
        Fault::KeyframeOrder => ": keyframes must be in strictly increasing time order",
        Fault::Rate => ": rate must be 0.1-10",
        Fault::RateTween =>
            ": rate animation needs keyframes (a plain tween has no segment boundaries to expand into static-rate clips); use a constant rate or keyframes",
        Fault::RateKeyframe => ": rate keyframe values must be 0.1-10",
        Fault::Blur => ": blur amount must be 0-50",
        Fault::ChromaKey => ": chromakey angle 1-90, noise 0-64",
        Fault::Crop => ": crop values must be >= 0",
        Fault::Eq => ": eq bands are -24..12 dB",
        Fault::Compressor => ": compressor threshold 0-1, ratio 1-4",
        Fault::Denoise => ": denoise level must be 0-3",
        _ => ": color ranges are brightness/hue -1..1, contrast/saturation 0..2",
    }
}

/// What is said of an invalid document.
pub open spec fn fault_message(e: ErrorView) -> Seq<char> {
    match e.fault {
        Fault::Meta => "meta.width/height/fps must be positive"@,
        Fault::EmptySceneId => "every scene needs a non-empty id"@,
        Fault::EmptyClipId => "every clip needs a non-empty id"@,
        Fault::EmptyTrackId => "every overlay track needs a non-empty id"@,
        Fault::DuplicateId => "duplicate id "@ + quoted(e.id),
        Fault::SceneDuration => "scene "@ + quoted(e.id) + ": duration must be > 0"@,
        Fault::TransitionDuration => "scene "@ + quoted(e.id)
            + ": transition duration must be > 0 and < scene duration"@,
        Fault::UnknownDef => "clip "@ + quoted(e.id) + " references unknown def "@ + quoted(
            e.detail,
        ),
        Fault::DefCycle => "def cycle: "@ + e.id + " -> "@ + quoted(e.detail),
        f => "clip "@ + quoted(e.id) + clip_rule(f),
    }
}

/// A word, a quoted text and the rest of a sentence.
pub(crate) fn sentence(head: &str, id: &str, tail: &str) -> (r: String)
    ensures
        r@ == head@ + quoted(id@) + tail@,
{
    let mut s: String = joined(head, quote(id).as_str());
    s.append(tail);
    s
}

impl ValidateError {
    /// What is said of an invalid document.
    pub fn message(&self) -> (r: String)
        ensures
            r@ == fault_message(self@),
    {
        let id: &str = self.id.as_str();
        match self.fault {
            Fault::Meta => "meta.width/height/fps must be positive".to_owned(),
            Fault::EmptySceneId => "every scene needs a non-empty id".to_owned(),
            Fault::EmptyClipId => "every clip needs a non-empty id".to_owned(),
            Fault::EmptyTrackId => "every overlay track needs a non-empty id".to_owned(),
            Fault::DuplicateId => joined("duplicate id ", quote(id).as_str()),
            Fault::SceneDuration => sentence("scene ", id, ": duration must be > 0"),
            Fault::TransitionDuration => sentence(
                "scene ",
                id,
                ": transition duration must be > 0 and < scene duration",
            ),
            Fault::UnknownDef => {
                let mut s: String = sentence("clip ", id, " references unknown def ");
                s.append(quote(self.detail.as_str()).as_str());
                s
            },
            Fault::DefCycle => {
                let mut s: String = joined("def cycle: ", id);
                s.append(" -> ");
                s.append(quote(self.detail.as_str()).as_str());
                s
            },
            f => sentence("clip ", id, rule_of_clip(f)),
        }
    }
}

/// What is said of a refused edit of the clip `id`, or of the template of that
/// name; `amount` is the lane or the rate that it was refused for.
pub open spec fn edit_message(e: EditErrorView, id: Seq<char>, amount: int) -> Seq<char> {
    match e {
        EditErrorView::NoClip => "no clip "@ + quoted(id),
        EditErrorView::SplitOutside => "split point must fall inside the clip"@,
        EditErrorView::NoMedia => "clip "@ + quoted(id) + " has no media offset (not video/audio)"@,
        EditErrorView::RateNotNormal => "remove_silence only supports rate 1.0 clips (clip "@
            + quoted(id) + " has rate "@ + fixed_notation(amount) + ")"@,
        EditErrorView::EmptyName => "template name must not be empty"@,
        EditErrorView::DefExists => "a def named "@ + quoted(id) + " already exists"@,
        EditErrorView::NothingSelected => "no clips selected"@,
        EditErrorView::NestedDef =>
            "templates cannot contain template instances (defs cannot nest)"@,
        EditErrorView::LaneOutOfRange => "lane "@ + decimal(max(amount, 0) as nat)
            + " out of range"@,
        EditErrorView::Invalid(e) => fault_message(e),
    }
}

impl EditError {
    /// What is said of a refused edit.
    pub fn message(&self, id: &str, amount: i128) -> (r: String)
        ensures
            r@ == edit_message(self@, id@, amount as int),
    {
        match self {
            EditError::NoClip => joined("no clip ", quote(id).as_str()),
            EditError::SplitOutside => "split point must fall inside the clip".to_owned(),
            EditError::NoMedia => sentence("clip ", id, " has no media offset (not video/audio)"),
            EditError::RateNotNormal => {
                let mut s: String = sentence(
                    "remove_silence only supports rate 1.0 clips (clip ",
                    id,
                    " has rate ",
                );
                s.append(fixed_text(amount).as_str());
                s.append(")");
                s
            },
            EditError::EmptyName => "template name must not be empty".to_owned(),
            EditError::DefExists => sentence("a def named ", id, " already exists"),
            EditError::NothingSelected => "no clips selected".to_owned(),
            EditError::NestedDef =>
                "templates cannot contain template instances (defs cannot nest)".to_owned(),
            EditError::LaneOutOfRange => {
                let lane: u128 = larger(amount, 0) as u128;
                let mut s: String = joined("lane ", decimal_text(lane).as_str());
                s.append(" out of range");
                s
            },
            EditError::Invalid(e) => e.message(),
        }
    }
}

/// What is said of a text that is no JSON.
pub open spec fn json_message(text: Seq<char>) -> Seq<char> {
    match json_outcome(text) {
        Err(m) => m,
        Ok(_) => "recursion limit exceeded"@,
    }
}

/// What is said of a text that is no JSON.
pub fn bad_json(text: &str) -> (r: String)
    ensures
        r@ == json_message(text@),
{
    match json_complaint(text) {
        Some(m) => m,
        None => "recursion limit exceeded".to_owned(),
    }
}

/// What is said of a text that is no document.
pub open spec fn open_message(e: OpenError, text: Seq<char>) -> Seq<char> {
    match e {
        OpenError::BadJson => json_message(text),
        OpenError::BadDocument => "not a project document"@,
        OpenError::Invalid(e) => fault_message(e@),
    }
}

impl OpenError {
    /// What is said of a text that is no document.
    pub fn message(&self, text: &str) -> (r: String)
        ensures
            r@ == open_message(*self, text@),
    {
        match self {
            OpenError::BadJson => bad_json(text),
            OpenError::BadDocument => "not a project document".to_owned(),
            OpenError::Invalid(e) => e.message(),
        }
    }
}

impl UnknownProfile {
    /// What is said of an export in an encoding that there is not.
    pub fn message(&self) -> (r: String)
        ensures
            r@ == "unknown encoding profile "@ + quoted(self.name@)
                + " (video: mp4, webm, h265, vp9, av1, prores, ffv1; audio: m4a, ogg, flac, mp3, wav)"@,
    {
        sentence(
            "unknown encoding profile ",
            self.name.as_str(),
            " (video: mp4, webm, h265, vp9, av1, prores, ffv1; audio: m4a, ogg, flac, mp3, wav)",
        )
    }
}

} // verus!
