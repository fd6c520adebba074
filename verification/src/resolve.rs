//! Media of a plan: which clips can play, and what is missing.

use vstd::prelude::*;
use crate::compile::{PlannedClip, PlannedView};
use crate::document::{Clip, ClipView, Element, ElementView};
use crate::views::views;

verus! {

broadcast use crate::views::group_views;

/// The media that a clip plays.
pub open spec fn media_of(c: ClipView) -> Option<Seq<char>> {
    match c.element {
        ElementView::Video { src, .. } => Some(src),
        ElementView::Audio { src, .. } => Some(src),
        ElementView::Image { src } => Some(src),
        _ => None,
    }
}

/// The media that a clip plays.
pub fn clip_media(clip: &Clip) -> (r: Option<String>)
    ensures
        crate::document::opt_text(r) == media_of(clip@),
{
    match &clip.element {
        Element::Video { src, .. } => Some(src.clone()),
        Element::Audio { src, .. } => Some(src.clone()),
        Element::Image { src } => Some(src.clone()),
        _ => None,
    }
}

/// A clip that is left out, and the media that it lacks.
#[derive(Debug)]
pub struct Missing {
    pub id: String,
    pub src: String,
}

#[verifier::ext_equal]
pub struct MissingView {
    pub id: Seq<char>,
    pub src: Seq<char>,
}

impl View for Missing {
    type V = MissingView;

    open spec fn view(&self) -> MissingView {
        MissingView { id: self.id@, src: self.src@ }
    }
}

/// A clip can play: it needs no media, or its media was found.
pub open spec fn playable(c: PlannedView, found: bool) -> bool {
    media_of(c.clip) is None || found
}

/// The clips among the first `n` that can play.
pub open spec fn kept(clips: Seq<PlannedView>, found: Seq<bool>, n: int) -> Seq<PlannedView>
    decreases n,
{
    if n <= 0 {
        Seq::empty()
    } else {
        let before = kept(clips, found, n - 1);
        if playable(clips[n - 1], found[n - 1]) {
            before.push(clips[n - 1])
        } else {
            before
        }
    }
}

/// What is missing among the first `n` clips.
pub open spec fn lacking(clips: Seq<PlannedView>, found: Seq<bool>, n: int) -> Seq<MissingView>
    decreases n,
{
    if n <= 0 {
        Seq::empty()
    } else {
        let before = lacking(clips, found, n - 1);
        if playable(clips[n - 1], found[n - 1]) {
            before
        } else {
            before.push(
                MissingView { id: clips[n - 1].clip.id, src: media_of(clips[n - 1].clip)->0 },
            )
        }
    }
}

/// Leave out of a plan the clips whose media was not found, and tell which.
/// A missing file is a warning, not an error: the rest still plays.
pub fn drop_missing(clips: &Vec<PlannedClip>, found: &Vec<bool>) -> (r: (
    Vec<PlannedClip>,
    Vec<Missing>,
))
    requires
        clips@.len() == found@.len(),
    ensures
        views(r.0@) == kept(views(clips@), found@, clips@.len() as int),
        views(r.1@) == lacking(views(clips@), found@, clips@.len() as int),
{
    let ghost all = views(clips@);
    let mut left: Vec<PlannedClip> = Vec::new();
    let mut gone: Vec<Missing> = Vec::new();
    let mut i: usize = 0;
    while i < clips.len()
        invariant
            i <= clips.len(),
            clips@.len() == found@.len(),
            all == views(clips@),
            views(left@) == kept(all, found@, i as int),
            views(gone@) == lacking(all, found@, i as int),
        decreases clips.len() - i,
    {
        let c: &PlannedClip = &clips[i];
        assert(all[i as int] == c@);
        let ghost was = views(left@);
        let ghost were = views(gone@);
        match (clip_media(&c.clip), found[i]) {
            (Some(src), false) => {
                let m: Missing = Missing { id: c.clip.id.clone(), src };
                gone.push(m);
                assert(views(gone@) =~= were.push(m@));
            },
            _ => {
                let copy: PlannedClip = PlannedClip {
                    layer: c.layer,
                    start_us: c.start_us,
                    duration_us: c.duration_us,
                    clip: c.clip.clone(),
                };
                left.push(copy);
                assert(views(left@) =~= was.push(c@));
            },
        }
        i += 1;
    }
    (left, gone)
}

proof fn lemma_split(clips: Seq<PlannedView>, found: Seq<bool>, n: int)
    requires
        0 <= n <= clips.len(),
    ensures
        kept(clips, found, n).len() + lacking(clips, found, n).len() == n,
        (forall|i: int| 0 <= i < n ==> playable(#[trigger] clips[i], found[i])) ==> kept(
            clips,
            found,
            n,
        ) == clips.take(n),
    decreases n,
{
    if n > 0 {
        lemma_split(clips, found, n - 1);
        if forall|i: int| 0 <= i < n ==> playable(#[trigger] clips[i], found[i]) {
            assert(playable(clips[n - 1], found[n - 1]));
            assert(clips.take(n - 1).push(clips[n - 1]) =~= clips.take(n));
        }
    } else {
        assert(clips.take(n) =~= Seq::empty());
    }
}

/// Every clip of a plan either plays or is reported missing; where all media
/// is there, the plan stays as it is.
pub proof fn law_played_or_reported(clips: Seq<PlannedView>, found: Seq<bool>)
    requires
        clips.len() == found.len(),
    ensures
        kept(clips, found, clips.len() as int).len() + lacking(
            clips,
            found,
            clips.len() as int,
        ).len() == clips.len(),
        (forall|i: int| 0 <= i < clips.len() ==> #[trigger] found[i]) ==> kept(
            clips,
            found,
            clips.len() as int,
        ) == clips && lacking(clips, found, clips.len() as int).len() == 0,
{
    lemma_split(clips, found, clips.len() as int);
    assert(clips.take(clips.len() as int) =~= clips);
}

/// What plays are the clips without media and those whose media was found, in
/// order; what is reported are the others, each with the media it lacks.
pub proof fn law_missing(clips: Seq<PlannedView>, found: Seq<bool>, n: int, i: int)
    requires
        clips.len() == found.len(),
        0 <= i < n <= clips.len(),
    ensures
        ({
            let c = clips[i];
            let src = match c.clip.element {
                ElementView::Video { src, offset, volume, rate } => Some(src),
                ElementView::Audio { src, offset, volume, rate } => Some(src),
                ElementView::Image { src } => Some(src),
                _ => None,
            };
            &&& src is None || found[i] ==> kept(clips, found, n).contains(c)
            &&& src is Some && !found[i] ==> lacking(clips, found, n).contains(
                MissingView { id: c.clip.id, src: src->0 },
            )
        }),
    decreases n,
{
    let before = kept(clips, found, n - 1);
    let lost = lacking(clips, found, n - 1);
    let c = clips[i];
    if i < n - 1 {
        law_missing(clips, found, n - 1, i);
        if playable(c, found[i]) {
            let k = choose|k: int| 0 <= k < before.len() && before[k] == c;
            assert(kept(clips, found, n)[k] == c);
        } else {
            let m = MissingView { id: c.clip.id, src: media_of(c.clip)->0 };
            let k = choose|k: int| 0 <= k < lost.len() && lost[k] == m;
            assert(lacking(clips, found, n)[k] == m);
        }
    } else if playable(c, found[i]) {
        assert(kept(clips, found, n)[before.len() as int] == c);
    } else {
        let m = MissingView { id: c.clip.id, src: media_of(c.clip)->0 };
        assert(lacking(clips, found, n)[lost.len() as int] == m);
    }
}

} // verus!
