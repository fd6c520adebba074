//! Why an edit was refused.

use vstd::prelude::*;
use crate::faults::{ErrorView, ValidateError};

verus! {

/// Why an edit was refused.
#[derive(Debug)]
pub enum EditError {
    /// No clip has the given id.
    NoClip,
    /// The split point does not fall inside the clip.
    SplitOutside,
    /// The clip is neither video nor audio.
    NoMedia,
    /// The clip does not play at normal speed.
    RateNotNormal,
    /// A template needs a name.
    EmptyName,
    /// A def of that name exists already.
    DefExists,
    /// None of the given clips exists.
    NothingSelected,
    /// A template cannot be made of template instances.
    NestedDef,
    /// There is no such lane.
    LaneOutOfRange,
    /// The document does not validate after the edit.
    Invalid(ValidateError),
}

pub ghost enum EditErrorView {
    NoClip,
    SplitOutside,
    NoMedia,
    RateNotNormal,
    EmptyName,
    DefExists,
    NothingSelected,
    NestedDef,
    LaneOutOfRange,
    Invalid(ErrorView),
}

impl View for EditError {
    type V = EditErrorView;

    open spec fn view(&self) -> EditErrorView {
        match *self {
            EditError::NoClip => EditErrorView::NoClip,
            EditError::SplitOutside => EditErrorView::SplitOutside,
            EditError::NoMedia => EditErrorView::NoMedia,
            EditError::RateNotNormal => EditErrorView::RateNotNormal,
            EditError::EmptyName => EditErrorView::EmptyName,
            EditError::DefExists => EditErrorView::DefExists,
            EditError::NothingSelected => EditErrorView::NothingSelected,
            EditError::NestedDef => EditErrorView::NestedDef,
            EditError::LaneOutOfRange => EditErrorView::LaneOutOfRange,
            EditError::Invalid(e) => EditErrorView::Invalid(e@),
        }
    }
}

} // verus!
