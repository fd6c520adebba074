//! Mute and hide: applied to a copy of the document when it is compiled, by
//! zeroing volume and opacity of the affected clips.

use vstd::prelude::*;
use crate::document::{Clip, ClipView, Element, ElementView, LaneMeta, OverlayTrackView, Project};
use crate::document::{ProjectView, SceneView, Transform};
use crate::views::views;

verus! {

broadcast use crate::views::group_views;

/// The element without sound.
pub open spec fn muted_element(e: ElementView) -> ElementView {
    match e {
        ElementView::Video { src, offset, volume, rate } => ElementView::Video {
            src,
            offset,
            volume: 0,
            rate,
        },
        ElementView::Audio { src, offset, volume, rate } => ElementView::Audio {
            src,
            offset,
            volume: 0,
            rate,
        },
        _ => e,
    }
}

/// A clip as its lane shows and plays it.
pub open spec fn on_lane(c: ClipView, muted: bool, hidden: bool) -> ClipView {
    ClipView {
        element: if muted {
            muted_element(c.element)
        } else {
            c.element
        },
        transform: if hidden {
            Transform { opacity: 0, ..c.transform }
        } else {
            c.transform
        },
        ..c
    }
}

/// Mute and hide state of scene layer `i`; lanes without an entry have none.
pub open spec fn lane_state(lanes: Seq<LaneMeta>, i: int) -> (bool, bool) {
    if i < lanes.len() {
        (lanes[i].muted, lanes[i].hidden)
    } else {
        (false, false)
    }
}

pub open spec fn layers_on_lanes(layers: Seq<ClipView>, lanes: Seq<LaneMeta>) -> Seq<ClipView> {
    Seq::new(
        layers.len(),
        |i: int| on_lane(layers[i], lane_state(lanes, i).0, lane_state(lanes, i).1),
    )
}

pub open spec fn clips_on_track(t: OverlayTrackView) -> Seq<ClipView> {
    Seq::new(t.clips.len(), |i: int| on_lane(t.clips[i], t.muted, t.hidden))
}

/// The document with mute and hide applied.
pub open spec fn adjusted(p: ProjectView) -> ProjectView {
    ProjectView {
        scenes: Seq::new(
            p.scenes.len(),
            |i: int| SceneView {
                layers: layers_on_lanes(p.scenes[i].layers, p.scene_lanes),
                ..p.scenes[i]
            },
        ),
        overlays: Seq::new(
            p.overlays.len(),
            |i: int| OverlayTrackView { clips: clips_on_track(p.overlays[i]), ..p.overlays[i] },
        ),
        ..p
    }
}

fn put_on_lane(clip: &mut Clip, muted: bool, hidden: bool)
    ensures
        final(clip)@ == on_lane(old(clip)@, muted, hidden),
{
    if hidden {
        clip.transform.opacity = 0;
    }
    if muted {
        let quiet: Element = match &clip.element {
            Element::Video { src, offset, volume, rate } => Element::Video {
                src: src.clone(),
                offset: *offset,
                volume: 0,
                rate: *rate,
            },
            Element::Audio { src, offset, volume, rate } => Element::Audio {
                src: src.clone(),
                offset: *offset,
                volume: 0,
                rate: *rate,
            },
            other => other.clone(),
        };
        clip.element = quiet;
    }
}

fn put_layers(layers: &mut Vec<Clip>, lanes: &Vec<LaneMeta>)
    ensures
        views(final(layers)@) == layers_on_lanes(views(old(layers)@), lanes@),
{
    let ghost before = views(layers@);
    let mut i: usize = 0;
    while i < layers.len()
        invariant
            i <= layers.len(),
            layers@.len() == before.len(),
            forall|j: int|
                0 <= j < i ==> #[trigger] views(layers@)[j] == layers_on_lanes(before, lanes@)[j],
            forall|j: int| i <= j < before.len() ==> #[trigger] views(layers@)[j] == before[j],
        decreases layers.len() - i,
    {
        assert(views(layers@)[i as int] == before[i as int]);
        let (muted, hidden): (bool, bool) = if i < lanes.len() {
            (lanes[i].muted, lanes[i].hidden)
        } else {
            (false, false)
        };
        put_on_lane(&mut layers[i], muted, hidden);
        i += 1;
    }
    assert(views(layers@) =~= layers_on_lanes(before, lanes@));
}

fn put_track(clips: &mut Vec<Clip>, muted: bool, hidden: bool)
    ensures
        views(final(clips)@) == Seq::new(
            old(clips)@.len(),
            |i: int| on_lane(views(old(clips)@)[i], muted, hidden),
        ),
{
    let ghost before = views(clips@);
    let mut i: usize = 0;
    while i < clips.len()
        invariant
            i <= clips.len(),
            clips@.len() == before.len(),
            forall|j: int|
                0 <= j < i ==> #[trigger] views(clips@)[j] == on_lane(before[j], muted, hidden),
            forall|j: int| i <= j < before.len() ==> #[trigger] views(clips@)[j] == before[j],
        decreases clips.len() - i,
    {
        assert(views(clips@)[i as int] == before[i as int]);
        put_on_lane(&mut clips[i], muted, hidden);
        i += 1;
    }
}

/// A copy of the document with mute and hide applied.
pub fn adjust(project: &Project) -> (r: Project)
    ensures
        r@ == adjusted(project@),
{
    let mut p: Project = project.clone();
    let ghost before = p@;
    let mut i: usize = 0;
    while i < p.scenes.len()
        invariant
            i <= p.scenes.len(),
            before == project@,
            p@.scenes.len() == before.scenes.len(),
            p@ == (ProjectView { scenes: p@.scenes, ..before }),
            forall|j: int|
                0 <= j < i ==> #[trigger] p@.scenes[j] == adjusted(before).scenes[j],
            forall|j: int|
                i <= j < before.scenes.len() ==> #[trigger] p@.scenes[j] == before.scenes[j],
        decreases p.scenes.len() - i,
    {
        assert(p@.scenes[i as int] == before.scenes[i as int]);
        put_layers(&mut p.scenes[i].layers, &project.scene_lanes);
        i += 1;
    }
    assert(p@.scenes =~= adjusted(before).scenes);
    let mut k: usize = 0;
    while k < p.overlays.len()
        invariant
            k <= p.overlays.len(),
            p@.overlays.len() == before.overlays.len(),
            p@ == (ProjectView {
                scenes: adjusted(before).scenes,
                overlays: p@.overlays,
                ..before
            }),
            forall|j: int|
                0 <= j < k ==> #[trigger] p@.overlays[j] == adjusted(before).overlays[j],
            forall|j: int|
                k <= j < before.overlays.len() ==> #[trigger] p@.overlays[j] == before.overlays[j],
        decreases p.overlays.len() - k,
    {
        assert(p@.overlays[k as int] == before.overlays[k as int]);
        let muted: bool = p.overlays[k].muted;
        let hidden: bool = p.overlays[k].hidden;
        put_track(&mut p.overlays[k].clips, muted, hidden);
        assert(p@.overlays[k as int] =~= adjusted(before).overlays[k as int]);
        k += 1;
    }
    assert(p@.overlays =~= adjusted(before).overlays);
    p
}

/// Mute and hide touch nothing but volume and opacity: ids, times and layout
/// of the compiled document are those of the document itself, and applying
/// them twice is applying them once.
pub proof fn law_adjusted_keeps(p: ProjectView)
    ensures
        adjusted(p).scenes.len() == p.scenes.len(),
        adjusted(p).overlays.len() == p.overlays.len(),
        adjusted(p).defs == p.defs,
        adjusted(p).meta == p.meta,
        forall|s: int, i: int|
            #![trigger adjusted(p).scenes[s].layers[i]]
            0 <= s < p.scenes.len() && 0 <= i < p.scenes[s].layers.len() ==> {
                let a = adjusted(p).scenes[s].layers[i];
                let b = p.scenes[s].layers[i];
                a.id == b.id && a.start == b.start && a.duration == b.duration && a.animations
                    == b.animations && a.effects == b.effects
            },
        adjusted(adjusted(p)) == adjusted(p),
{
    let q = adjusted(p);
    let r = adjusted(q);
    assert forall|s: int| 0 <= s < q.scenes.len() implies #[trigger] r.scenes[s] == q.scenes[s] by {
        assert(r.scenes[s].layers =~= q.scenes[s].layers);
    }
    assert(r.scenes =~= q.scenes);
    assert forall|s: int| 0 <= s < q.overlays.len() implies #[trigger] r.overlays[s]
        == q.overlays[s] by {
        assert(r.overlays[s].clips =~= q.overlays[s].clips);
    }
    assert(r.overlays =~= q.overlays);
}

/// A document in which nothing is muted or hidden compiles as it stands.
pub proof fn law_adjusted_plain(p: ProjectView)
    requires
        forall|i: int| 0 <= i < p.overlays.len() ==> !(#[trigger] p.overlays[i]).muted
            && !p.overlays[i].hidden,
        forall|i: int| 0 <= i < p.scene_lanes.len() ==> !(#[trigger] p.scene_lanes[i]).muted
            && !p.scene_lanes[i].hidden,
    ensures
        adjusted(p) == p,
{
    let q = adjusted(p);
    assert forall|s: int| 0 <= s < p.scenes.len() implies #[trigger] q.scenes[s] == p.scenes[s] by {
        assert(q.scenes[s].layers =~= p.scenes[s].layers);
    }
    assert(q.scenes =~= p.scenes);
    assert forall|s: int| 0 <= s < p.overlays.len() implies #[trigger] q.overlays[s]
        == p.overlays[s] by {
        assert(q.overlays[s].clips =~= p.overlays[s].clips);
    }
    assert(q.overlays =~= p.overlays);
}

/// What a muted lane or track does to the sound of a clip on it: video and
/// audio play at volume 0, from where and as fast as before; whatever has no
/// sound stays.
pub open spec fn silenced(before: ElementView, after: ElementView) -> bool {
    match after {
        ElementView::Video { src, offset, volume, rate } => volume == 0 && (before matches
            ElementView::Video { src: s, offset: o, volume: v, rate: r } && src == s && offset == o
            && rate == r),
        ElementView::Audio { src, offset, volume, rate } => volume == 0 && (before matches
            ElementView::Audio { src: s, offset: o, volume: v, rate: r } && src == s && offset == o
            && rate == r),
        _ => after == before,
    }
}

/// What hiding does to the placement of a clip: it is fully transparent, in
/// the same place and at the same size.
pub open spec fn unseen(before: Transform, after: Transform) -> bool {
    &&& after.opacity == 0
    &&& after.x == before.x
    &&& after.y == before.y
    &&& after.width == before.width
    &&& after.height == before.height
}

/// A clip plays without sound exactly where its lane or track is muted, and
/// is transparent exactly where it is hidden: layer `i` of every scene goes by
/// entry `i` of the scene lanes, a clip of a track by the track itself.
pub proof fn law_muted_and_hidden(p: ProjectView, s: int, i: int)
    ensures
        0 <= s < p.scenes.len() && 0 <= i < p.scenes[s].layers.len() ==> {
            let a = adjusted(p).scenes[s].layers[i];
            let b = p.scenes[s].layers[i];
            let lane = p.scene_lanes[i];
            let listed = i < p.scene_lanes.len();
            &&& adjusted(p).scenes[s].layers.len() == p.scenes[s].layers.len()
            &&& listed && lane.muted ==> silenced(b.element, a.element)
            &&& !(listed && lane.muted) ==> a.element == b.element
            &&& listed && lane.hidden ==> unseen(b.transform, a.transform)
            &&& !(listed && lane.hidden) ==> a.transform == b.transform
        },
        0 <= s < p.overlays.len() && 0 <= i < p.overlays[s].clips.len() ==> {
            let a = adjusted(p).overlays[s].clips[i];
            let b = p.overlays[s].clips[i];
            &&& adjusted(p).overlays[s].clips.len() == p.overlays[s].clips.len()
            &&& a.id == b.id && a.start == b.start && a.duration == b.duration
            &&& a.animations == b.animations && a.effects == b.effects
            &&& p.overlays[s].muted ==> silenced(b.element, a.element)
            &&& !p.overlays[s].muted ==> a.element == b.element
            &&& p.overlays[s].hidden ==> unseen(b.transform, a.transform)
            &&& !p.overlays[s].hidden ==> a.transform == b.transform
        },
{
}

} // verus!
