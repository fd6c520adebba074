//! Putting a transcript on the timeline as a track of subtitles.

use vstd::prelude::*;
use crate::captions::{captions, captions_to_clips, times_fit, Word};
use crate::document::{Clip, ClipView, OverlayTrack, OverlayTrackView, Project, ProjectView};
use crate::edit::{track_at, track_index};
use crate::ids::{first_free, free_number, fresh_number, lemma_free_exists, lemma_free_number,
    lemma_numbered_injective, lemma_taken_below, lemma_taken_run, numbered, taken_below};
use crate::text::{decimal_text, joined};
use crate::timeline::found;
use crate::validate::all_ids;
use crate::views::views;

verus! {

broadcast use crate::views::group_views;

/// The number to look from for the id of caption `k`.
pub open spec fn look_from(p: ProjectView, k: int) -> nat
    decreases k,
{
    if k <= 0 {
        0
    } else {
        free_number(p, "sub-"@, look_from(p, k - 1)) + 1
    }
}

/// The id of caption `k`: numbered on, past the ids that clips have.
pub open spec fn caption_id(p: ProjectView, k: int) -> Seq<char> {
    numbered("sub-"@, free_number(p, "sub-"@, look_from(p, k)))
}

/// Clips with the ids of captions.
pub open spec fn renumbered(p: ProjectView, clips: Seq<ClipView>) -> Seq<ClipView> {
    Seq::new(clips.len(), |k: int| ClipView { id: caption_id(p, k), ..clips[k] })
}

/// The track of subtitles.
pub open spec fn subtitle_track(clips: Seq<ClipView>) -> OverlayTrackView {
    OverlayTrackView {
        id: "subtitles"@,
        muted: false,
        hidden: false,
        locked: false,
        name: "Subtitles"@,
        clips,
    }
}

/// The document with clips at the end of its track of subtitles, which is
/// added if it is missing.
pub open spec fn with_subtitles(p: ProjectView, clips: Seq<ClipView>) -> ProjectView {
    let t = track_index(p.overlays, "subtitles"@);
    ProjectView {
        overlays: if t < p.overlays.len() {
            p.overlays.update(
                t,
                OverlayTrackView { clips: p.overlays[t].clips + clips, ..p.overlays[t] },
            )
        } else {
            p.overlays.push(subtitle_track(clips))
        },
        ..p
    }
}

fn append_clips(to: &mut Vec<Clip>, from: Vec<Clip>)
    ensures
        views(final(to)@) == views(old(to)@) + views(from@),
{
    let ghost start = views(to@);
    let mut i: usize = 0;
    assert(views(to@) =~= start + views(from@).take(0));
    while i < from.len()
        invariant
            i <= from.len(),
            views(to@) == start + views(from@).take(i as int),
        decreases from.len() - i,
    {
        to.push(from[i].clone());
        assert(views(to@) =~= start + views(from@).take(i + 1));
        i += 1;
    }
    assert(views(from@).take(i as int) =~= views(from@));
}

/// Put the segments of a transcript on the track of subtitles, as clips with
/// fresh ids. Gives the number of clips; without any, nothing changes.
pub fn apply_captions(project: &mut Project, segments: &Vec<(i128, i128, String)>) -> (r: usize)
    requires
        times_fit(views(segments@)),
        2 * all_ids(old(project)@).len() + segments@.len() < u64::MAX,
    ensures
        ({
            let clips = captions(views(segments@), segments@.len() as int);
            &&& r == clips.len()
            &&& final(project)@ == if clips.len() == 0 {
                old(project)@
            } else {
                with_subtitles(old(project)@, renumbered(old(project)@, clips))
            }
        }),
{
    let ghost p = project@;
    let mut clips: Vec<Clip> = captions_to_clips(segments);
    let ghost made = views(clips@);
    let count: usize = clips.len();
    if count == 0 {
        return 0;
    }
    let mut next: u64 = 0;
    let mut k: usize = 0;
    let ghost want = renumbered(p, made);
    proof {
        lemma_captions_len(views(segments@), segments@.len() as int);
    }
    while k < clips.len()
        invariant
            k <= clips.len(),
            clips.len() == count,
            count <= segments@.len(),
            project@ == p,
            2 * all_ids(p).len() + segments@.len() < u64::MAX,
            made.len() == clips@.len(),
            want == renumbered(p, made),
            next == look_from(p, k as int),
            next == k + taken_below(p, "sub-"@, next as nat).len(),
            forall|j: int|
                0 <= j < clips@.len() ==> (#[trigger] clips@[j])@ == if j < k {
                    want[j]
                } else {
                    made[j]
                },
        decreases clips.len() - k,
    {
        proof {
            lemma_taken_below(p, "sub-"@, next as nat);
        }
        let n: u64 = fresh_number(project, "sub-", next);
        let id: String = joined("sub-", decimal_text(n as u128).as_str());
        assert(id@ == caption_id(p, k as int));
        let mut clip: Clip = clips[k].clone();
        clip.id = id;
        clips.set(k, clip);
        proof {
            lemma_taken_run(p, "sub-"@, next as nat, n as nat);
            lemma_taken_below(p, "sub-"@, n as nat);
            assert(found(p, numbered("sub-"@, n as nat)) is None);
            assert(taken_below(p, "sub-"@, (n + 1) as nat) == taken_below(p, "sub-"@, n as nat));
        }
        next = n + 1;
        k += 1;
    }
    assert(views(clips@) =~= want);
    match track_at(project, "subtitles") {
        Some(t) => {
            append_clips(&mut project.overlays[t].clips, clips);
            assert(project@.overlays =~= with_subtitles(p, want).overlays);
        },
        None => {
            project.overlays.push(
                OverlayTrack {
                    id: "subtitles".to_owned(),
                    muted: false,
                    hidden: false,
                    locked: false,
                    name: "Subtitles".to_owned(),
                    clips,
                },
            );
            assert(project@.overlays =~= with_subtitles(p, want).overlays);
        },
    }
    count
}

proof fn lemma_captions_len(segments: Seq<Word>, n: int)
    requires
        0 <= n <= segments.len(),
    ensures
        captions(segments, n).len() <= n,
    decreases n,
{
    if n > 0 {
        lemma_captions_len(segments, n - 1);
    }
}

proof fn lemma_caption_number(p: ProjectView, k: int)
    ensures
        first_free(p, "sub-"@, look_from(p, k), free_number(p, "sub-"@, look_from(p, k))),
{
    let from = look_from(p, k);
    let n = lemma_free_exists(p, "sub-"@, from, from);
    lemma_free_number(p, "sub-"@, from, n);
}

proof fn lemma_numbers_grow(p: ProjectView, i: int, j: int)
    requires
        0 <= i < j,
    ensures
        free_number(p, "sub-"@, look_from(p, i)) < look_from(p, j),
    decreases j - i,
{
    if i < j - 1 {
        lemma_numbers_grow(p, i, j - 1);
        lemma_caption_number(p, j - 1);
    }
}

/// The ids of captions are ids that no clip of the document has, and no two
/// captions share one.
pub proof fn law_caption_ids(p: ProjectView, i: int, j: int)
    requires
        0 <= i < j,
    ensures
        found(p, caption_id(p, i)) is None,
        found(p, caption_id(p, j)) is None,
        caption_id(p, i) != caption_id(p, j),
{
    lemma_caption_number(p, i);
    lemma_caption_number(p, j);
    lemma_numbers_grow(p, i, j);
    if caption_id(p, i) == caption_id(p, j) {
        lemma_numbered_injective(
            "sub-"@,
            free_number(p, "sub-"@, look_from(p, i)),
            free_number(p, "sub-"@, look_from(p, j)),
        );
    }
}

/// Subtitles go behind those that the track of subtitles has, or on a new
/// track behind all others; every other track, and every scene, stays.
pub proof fn law_with_subtitles(p: ProjectView, clips: Seq<ClipView>, i: int)
    ensures
        ({
            let q = with_subtitles(p, clips);
            let t = track_index(p.overlays, "subtitles"@);
            &&& q.scenes == p.scenes && q.defs == p.defs && q.meta == p.meta
            &&& 0 <= t <= p.overlays.len()
            &&& 0 <= i < p.overlays.len() && i != t ==> q.overlays[i] == p.overlays[i]
            &&& t < p.overlays.len() ==> {
                &&& p.overlays[t].id == "subtitles"@
                &&& q.overlays.len() == p.overlays.len()
                &&& q.overlays[t] == (OverlayTrackView {
                    clips: p.overlays[t].clips + clips,
                    ..p.overlays[t]
                })
            }
            &&& t == p.overlays.len() ==> {
                &&& forall|k: int|
                    0 <= k < p.overlays.len() ==> (#[trigger] p.overlays[k]).id != "subtitles"@
                &&& q.overlays.len() == p.overlays.len() + 1
                &&& q.overlays.last().id == "subtitles"@ && q.overlays.last().clips == clips
                &&& !q.overlays.last().muted && !q.overlays.last().hidden
            }
        }),
{
    crate::edit::lemma_track_index(p.overlays, "subtitles"@);
}

/// Captions get new ids and nothing else: they say the same, at the same time.
pub proof fn law_renumbered(p: ProjectView, clips: Seq<ClipView>, k: int)
    requires
        0 <= k < clips.len(),
    ensures
        renumbered(p, clips).len() == clips.len(),
        renumbered(p, clips)[k].element == clips[k].element,
        renumbered(p, clips)[k].start == clips[k].start,
        renumbered(p, clips)[k].duration == clips[k].duration,
        renumbered(p, clips)[k].transform == clips[k].transform,
        found(p, renumbered(p, clips)[k].id) is None,
{
    law_caption_ids(p, k, k + 1);
}

} // verus!
