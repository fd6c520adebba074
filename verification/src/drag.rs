//! Dragging a clip on the timeline strip: a click, a trim, a move in time, or
//! a move to another lane.

use vstd::prelude::*;
use crate::coords::{round_div, rounded};
use crate::document::{ClipView, Project, ProjectView};
use crate::edit::{lemma_found_fits, move_clip_to_lane, moved};
use crate::error::{EditError, EditErrorView};
use crate::fixed::{floor_div, larger, max, within, HORIZON, LIMIT, TENTH, UNIT};
use crate::inspector::edited;
use crate::plan::lemma_project_fits;
use crate::snap::{drags, lemma_snapped_above, snap_time, snapped};
use crate::strip::{LEAST_ZOOM, MOST_ZOOM};
use crate::timeline::{find_clip_mut, found, grow_scene_for_clip, grown, lane_count, lemma_position,
    max_layers, spot_of, Spot};
use crate::validate::{project_fault, valid};
use crate::views::views;

verus! {

broadcast use crate::views::group_views;

/// A drag of a clip on the strip: the clip's absolute start and its length,
/// the start of its scene if it is a scene layer, its lane, the width of its
/// button, where in the button the drag began, how far it went, and the zoom.
#[derive(Debug, Clone, Copy)]
pub struct Drag {
    pub start: i128,
    pub duration: i128,
    pub base: Option<i128>,
    pub lane: usize,
    pub width: i32,
    pub grab: i128,
    pub dx: i128,
    pub dy: i128,
    pub pps: i128,
}

impl Drag {
    /// A drag of clips whose numbers a document may hold, over distances that
    /// a screen has.
    pub open spec fn sound(self) -> bool {
        &&& -HORIZON / 4 <= self.start <= HORIZON / 4
        &&& within(self.duration as int, 4)
        &&& match self.base {
            Some(b) => 0 <= b <= HORIZON && within(self.start - b, 2),
            None => within(self.start as int, 2),
        }
        &&& within(self.grab as int, 1)
        &&& within(self.dx as int, 1)
        &&& within(self.dy as int, 1)
        &&& LEAST_ZOOM <= self.pps <= MOST_ZOOM
    }

    /// The drag began at the right edge, so that it trims the clip.
    pub open spec fn trims(self) -> bool {
        self.grab > (self.width - 12) * UNIT
    }

    /// Number of lanes that the drag went down.
    pub open spec fn lanes_down(self) -> int {
        rounded(self.dy as int, 36 * UNIT)
    }

    /// The time that the drag went.
    pub open spec fn time(self) -> int {
        self.dx * UNIT / (self.pps as int)
    }

    /// The lane that the drag leads to.
    pub open spec fn target(self, p: ProjectView) -> int {
        crate::fixed::clamped(
            self.lane + self.lanes_down(),
            0,
            max_layers(p.scenes) + p.overlays.len() - 1,
        )
    }

    /// The start that the drag leads to, snapped.
    pub open spec fn landing(self, p: ProjectView) -> int {
        snapped(p, max(self.start + self.time(), 0))
    }

    /// The length that a trim leads to; the end of an overlay clip snaps.
    pub open spec fn trimmed_length(self, p: ProjectView) -> int {
        let length = max(self.duration + self.time(), TENTH as int);
        max(
            if self.base is Some {
                length
            } else {
                snapped(p, self.start + length) - self.start
            },
            TENTH as int,
        )
    }
}

/// The document after a scene layer has got its scene to grow, if it is one.
pub open spec fn settled_layer(p: ProjectView, id: Seq<char>, base: Option<i128>) -> ProjectView {
    if base is Some {
        grown(p, id)
    } else {
        p
    }
}

/// The document after a trim.
pub open spec fn trimmed_project(p: ProjectView, id: Seq<char>, d: Drag) -> ProjectView {
    settled_layer(
        edited(p, id, |c: ClipView| ClipView { duration: d.trimmed_length(p), ..c }),
        id,
        d.base,
    )
}

/// The document after a move in time.
pub open spec fn shifted_project(p: ProjectView, id: Seq<char>, d: Drag) -> ProjectView {
    let start = match d.base {
        Some(b) => max(d.landing(p) - b, 0),
        None => max(d.landing(p), 0),
    };
    settled_layer(edited(p, id, |c: ClipView| ClipView { start, ..c }), id, d.base)
}

/// What a drag came to.
#[derive(Debug)]
pub enum Dropped {
    /// It was a click: the clip is selected, the document stays.
    Click,
    /// The document was changed.
    Changed,
    /// The clip could not go to that lane.
    Refused(EditError),
}

proof fn lemma_time(d: Drag)
    requires
        d.sound(),
    ensures
        -LIMIT <= d.time() <= LIMIT,
        -3_000_000 <= d.lanes_down() <= 3_000_000,
{
    let m = d.dx * UNIT;
    assert(m == d.dx * 1_000_000_000);
    vstd::arithmetic::div_mod::lemma_fundamental_div_mod(m, d.pps as int);
    let q = m / (d.pps as int);
    assert(-LIMIT <= q <= LIMIT) by (nonlinear_arith)
        requires
            m == (d.pps as int) * q + m % (d.pps as int),
            0 <= m % (d.pps as int) < d.pps,
            8_000_000_000 <= d.pps,
            -100_000_000_000_000_000_000_000_000 <= m <= 100_000_000_000_000_000_000_000_000,
            LIMIT == 100_000_000_000_000_000,
    ;
    let n = if d.dy >= 0 {
        d.dy as int
    } else {
        -d.dy as int
    };
    assert(36 * UNIT == 36_000_000_000);
    assert(0 <= (2 * n + 36_000_000_000) / 72_000_000_000 <= 3_000_000);
}

proof fn lemma_edit_fits(p: ProjectView, id: Seq<char>, f: spec_fn(ClipView) -> ClipView)
    requires
        p.fits(16),
        found(p, id) is Some ==> f(found(p, id)->0).fits(16),
    ensures
        edited(p, id, f).fits(16),
{
    let q = edited(p, id, f);
    crate::timeline::lemma_scene_position(p.scenes, id);
    crate::timeline::lemma_track_position(p.overlays, id);
    match spot_of(p, id) {
        Spot::Layer { scene, index } => {
            lemma_position(p.scenes[scene].layers, id);
        },
        Spot::Overlay { track, index } => {
            lemma_position(p.overlays[track].clips, id);
        },
        Spot::Absent => {},
    }
    assert forall|i: int| 0 <= i < q.scenes.len() implies (#[trigger] q.scenes[i]).fits(16) by {
        assert(p.scenes[i].fits(16));
        assert forall|k: int| 0 <= k < q.scenes[i].layers.len() implies (
        #[trigger] q.scenes[i].layers[k]).fits(16) by {
            if k < p.scenes[i].layers.len() {
                assert(p.scenes[i].layers[k].fits(16));
            }
        }
    }
    assert forall|i: int| 0 <= i < q.overlays.len() implies crate::document::clips_fit(
        (#[trigger] q.overlays[i]).clips,
        16,
    ) by {
        assert(crate::document::clips_fit(p.overlays[i].clips, 16));
        assert forall|k: int| 0 <= k < q.overlays[i].clips.len() implies (
        #[trigger] q.overlays[i].clips[k]).fits(16) by {
            if k < p.overlays[i].clips.len() {
                assert(p.overlays[i].clips[k].fits(16));
            }
        }
    }
}

/// Finish a drag of a clip on the strip: fewer than six pixels are a click;
/// from the right edge it trims the clip; down or up by a lane it moves the
/// clip there; else it moves the clip in time. A scene grows with its layers.
pub fn drop_clip(project: &mut Project, id: &str, drag: Drag) -> (r: Dropped)
    requires
        old(project)@.fits(1),
        drag.sound(),
        0 < max_layers(old(project)@.scenes) + old(project)@.overlays.len() <= usize::MAX,
    ensures
        ({
            let p = old(project)@;
            if !drags(drag.dx as int, drag.dy as int) {
                r is Click && final(project)@ == p
            } else if !drag.trims() && drag.lanes_down() != 0 {
                let after = moved(p, id@, drag.target(p) as nat, drag.landing(p));
                match r {
                    Dropped::Click => false,
                    Dropped::Changed => found(p, id@) is Some && valid(after) && final(project)@
                        == after,
                    Dropped::Refused(e) => if found(p, id@) is None {
                        e is NoClip && final(project)@ == p
                    } else {
                        !valid(after) && final(project)@ == after && e@ == EditErrorView::Invalid(
                            project_fault(after)->0,
                        )
                    },
                }
            } else {
                r is Changed && final(project)@ == if drag.trims() {
                    trimmed_project(p, id@, drag)
                } else {
                    shifted_project(p, id@, drag)
                }
            }
        }),
{
    let ghost p = project@;
    proof {
        lemma_time(drag);
        lemma_project_fits(p, 1, 16);
    }
    if -6 * UNIT < drag.dx && drag.dx < 6 * UNIT && -6 * UNIT < drag.dy && drag.dy < 6 * UNIT {
        return Dropped::Click;
    }
    let trims: bool = drag.grab > (drag.width as i128 - 12) * UNIT;
    let down: i128 = round_div(drag.dy, 36 * UNIT);
    let time: i128 = floor_div(drag.dx * UNIT, drag.pps);
    let ghost raw = max(drag.start + drag.time(), 0);
    proof {
        lemma_snapped_above(p, raw);
    }
    if !trims && down != 0 {
        let count: usize = lane_count(project);
        let wanted: i128 = drag.lane as i128 + down;
        let last: i128 = count as i128 - 1;
        let target: i128 = if wanted < 0 {
            0
        } else if wanted > last {
            last
        } else {
            wanted
        };
        let landing: i128 = snap_time(project, larger(drag.start + time, 0));
        assert(landing == drag.landing(p));
        assert(target == drag.target(p));
        return match move_clip_to_lane(project, id, target as usize, landing) {
            Ok(()) => Dropped::Changed,
            Err(e) => Dropped::Refused(e),
        };
    }
    if trims {
        let length: i128 = larger(drag.duration + time, TENTH);
        proof {
            lemma_snapped_above(p, drag.start + length);
        }
        let end: i128 = match drag.base {
            Some(_) => length,
            None => snap_time(project, drag.start + length) - drag.start,
        };
        let kept: i128 = larger(end, TENTH);
        assert(kept == drag.trimmed_length(p));
        let ghost f = |c: ClipView| ClipView { duration: drag.trimmed_length(p), ..c };
        proof {
            if found(p, id@) is Some {
                lemma_found_fits(p, id@, 16);
            }
            lemma_edit_fits(p, id@, f);
        }
        if let Some(clip) = find_clip_mut(project, id) {
            clip.duration = kept;
        }
        assert(project@ == edited(p, id@, f));
    } else {
        let landing: i128 = snap_time(project, larger(drag.start + time, 0));
        let start: i128 = match drag.base {
            Some(b) => larger(landing - b, 0),
            None => larger(landing, 0),
        };
        let ghost f = |c: ClipView| ClipView { start: start as int, ..c };
        proof {
            if found(p, id@) is Some {
                lemma_found_fits(p, id@, 16);
            }
            lemma_edit_fits(p, id@, f);
        }
        if let Some(clip) = find_clip_mut(project, id) {
            clip.start = start;
        }
        assert(project@ == edited(p, id@, f));
    }
    if drag.base.is_some() {
        grow_scene_for_clip(project, id);
    }
    Dropped::Changed
}

/// Dragging by pixels is dragging in time: at `pps` pixels per second a drag
/// goes as many seconds as its pixels are, and down as many lanes as come
/// nearest to its height at 36 pixels each; within twelve pixels of the right
/// edge it trims.
pub proof fn law_drag_measured(d: Drag)
    requires
        d.pps > 0,
    ensures
        d.time() * d.pps <= d.dx * 1_000_000_000 < (d.time() + 1) * d.pps,
        -36_000_000_000 <= 2 * (d.lanes_down() * 36_000_000_000 - d.dy) <= 36_000_000_000,
        d.trims() <==> d.width * 1_000_000_000 - d.grab < 12_000_000_000,
{
    let m = d.dx * UNIT;
    vstd::arithmetic::div_mod::lemma_fundamental_div_mod(m, d.pps as int);
    vstd::arithmetic::div_mod::lemma_mod_bound(m, d.pps as int);
    let q = m / (d.pps as int);
    assert(q * d.pps == d.pps * q && (q + 1) * d.pps == d.pps * q + d.pps) by (nonlinear_arith);
    crate::coords::law_rounded(d.dy as int, 36_000_000_000);
    crate::coords::law_rounded(-d.dy as int, 36_000_000_000);
    assert(36 * UNIT == 36_000_000_000);
}

/// A drag down leads to the lane that far below, and no further than the
/// first or the last.
pub proof fn law_drag_target(d: Drag, p: ProjectView)
    ensures
        ({
            let last = max_layers(p.scenes) + p.overlays.len() - 1;
            let wanted = d.lane + d.lanes_down();
            &&& 0 <= wanted <= last ==> d.target(p) == wanted
            &&& wanted < 0 && last >= 0 ==> d.target(p) == 0
            &&& wanted > last && last >= 0 ==> d.target(p) == last
        }),
{
}

/// A move leads to where the drag does, snapped, and never before 0. A trim
/// leaves a tenth of a second at least; a layer's length changes by the time
/// dragged, an overlay clip's end lands, snapped, where that leads.
pub proof fn law_drag_lands(d: Drag, p: ProjectView)
    ensures
        d.start + d.time() >= 0 ==> d.landing(p) == snapped(p, d.start + d.time()),
        d.start + d.time() < 0 ==> d.landing(p) == snapped(p, 0),
        d.trimmed_length(p) >= 100_000_000,
        d.base is Some && d.duration + d.time() >= 100_000_000 ==> d.trimmed_length(p)
            == d.duration + d.time(),
        d.base is Some && d.duration + d.time() < 100_000_000 ==> d.trimmed_length(p)
            == 100_000_000,
        d.base is None && d.duration + d.time() >= 100_000_000 ==> {
            let end = snapped(p, d.start + d.duration + d.time());
            &&& end - d.start >= 100_000_000 ==> d.start + d.trimmed_length(p) == end
            &&& end - d.start < 100_000_000 ==> d.trimmed_length(p) == 100_000_000
        },
{
}

} // verus!
