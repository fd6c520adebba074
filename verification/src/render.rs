//! Renders: a file stands under its own name only once it is complete.

use vstd::prelude::*;
use crate::export::{progress, progress_of};
use crate::fixed::{HORIZON, UNIT};

verus! {

/// Where a render stands: it runs, its result is moved into place, it is there,
/// or it failed.
#[derive(Debug, Clone, Copy, PartialEq, Eq, Structural)]
pub enum Phase {
    Running,
    Moving,
    Finished,
    Failed,
}

/// What happens to a render: its pipeline reaches the end or breaks, tells
/// something else, or nothing for a while (with its position in nanoseconds,
/// where it can be told); its result was moved into place, or could not be.
#[derive(Debug, Clone, Copy)]
pub enum Event {
    Ended,
    Broke,
    Message,
    Quiet(Option<u64>),
    Moved,
    Stuck,
}

/// What is to be done: report how far the render is, stop the pipeline, drop the
/// unfinished file, or move it into place.
#[derive(Debug, Clone, Copy)]
pub enum Step {
    Report(i128),
    Stop,
    DropPart,
    Move,
}

/// A render: where it stands, how long its timeline is, and whether a result
/// that cannot be moved into place is dropped.
#[derive(Debug, Clone, Copy)]
pub struct Render {
    pub phase: Phase,
    pub total: i128,
    pub tidy: bool,
}

/// Where an event leads a render.
pub open spec fn phase_after(r: Render, event: Event) -> Phase {
    match (r.phase, event) {
        (Phase::Running, Event::Ended) => Phase::Moving,
        (Phase::Running, Event::Broke) => Phase::Failed,
        (Phase::Moving, Event::Moved) => Phase::Finished,
        (Phase::Moving, Event::Stuck) => Phase::Failed,
        (phase, _) => phase,
    }
}

/// What is to be done after an event.
pub open spec fn steps_after(r: Render, event: Event) -> Seq<Step> {
    match (r.phase, event) {
        (Phase::Running, Event::Ended) => seq![Step::Report(UNIT), Step::Stop, Step::Move],
        (Phase::Running, Event::Broke) => seq![Step::Stop, Step::DropPart],
        (Phase::Running, Event::Quiet(Some(pos))) => seq![
            Step::Report(progress_of(pos as int, r.total as int) as i128),
        ],
        (Phase::Moving, Event::Stuck) => if r.tidy {
            seq![Step::DropPart]
        } else {
            Seq::empty()
        },
        _ => Seq::empty(),
    }
}

impl Render {
    /// A render that has been started.
    pub fn start(total: i128, tidy: bool) -> (r: Render)
        ensures
            r == (Render { phase: Phase::Running, total, tidy }),
    {
        Render { phase: Phase::Running, total, tidy }
    }

    /// Take note of an event, and tell what is to be done.
    pub fn on(&mut self, event: Event) -> (r: Vec<Step>)
        requires
            old(self).total <= HORIZON,
        ensures
            r@ == steps_after(*old(self), event),
            *final(self) == (Render { phase: phase_after(*old(self), event), ..*old(self) }),
    {
        let mut steps: Vec<Step> = Vec::new();
        match (self.phase, event) {
            (Phase::Running, Event::Ended) => {
                steps.push(Step::Report(UNIT));
                steps.push(Step::Stop);
                steps.push(Step::Move);
                self.phase = Phase::Moving;
            },
            (Phase::Running, Event::Broke) => {
                steps.push(Step::Stop);
                steps.push(Step::DropPart);
                self.phase = Phase::Failed;
            },
            (Phase::Running, Event::Quiet(Some(pos))) => {
                steps.push(Step::Report(progress(pos as i128, self.total)));
            },
            (Phase::Moving, Event::Moved) => {
                self.phase = Phase::Finished;
            },
            (Phase::Moving, Event::Stuck) => {
                if self.tidy {
                    steps.push(Step::DropPart);
                }
                self.phase = Phase::Failed;
            },
            _ => {},
        }
        assert(steps@ =~= steps_after(*old(self), event));
        steps
    }
}

/// What a file holds: nothing, what it held before the render, a part of the
/// result, or the whole of it.
pub ghost enum Held {
    Nothing,
    Before,
    Part,
    Whole,
}

/// The file that was asked for, and the one that the pipeline writes.
pub ghost struct Disk {
    pub out: Held,
    pub part: Held,
}

/// The files after an event: a running pipeline writes its file, which is whole
/// at the end; a move puts it in place.
pub open spec fn disk_after(d: Disk, phase: Phase, event: Event) -> Disk {
    match (phase, event) {
        (Phase::Running, Event::Ended) => Disk { part: Held::Whole, ..d },
        (Phase::Running, _) => Disk { part: Held::Part, ..d },
        (Phase::Moving, Event::Moved) => Disk { out: d.part, part: Held::Nothing },
        _ => d,
    }
}

/// The files after the first `n` of some steps; the move itself is told by the
/// event that follows it.
pub open spec fn disk_stepped(d: Disk, steps: Seq<Step>, n: int) -> Disk
    decreases n,
{
    if n <= 0 {
        d
    } else {
        let before = disk_stepped(d, steps, n - 1);
        match steps[n - 1] {
            Step::DropPart => Disk { part: Held::Nothing, ..before },
            _ => before,
        }
    }
}

/// A render and its files after the first `n` events.
pub open spec fn course(r: Render, d: Disk, events: Seq<Event>, n: int) -> (Render, Disk)
    decreases n,
{
    if n <= 0 {
        (r, d)
    } else {
        let (before, disk) = course(r, d, events, n - 1);
        let event = events[n - 1];
        let steps = steps_after(before, event);
        (
            Render { phase: phase_after(before, event), ..before },
            disk_stepped(disk_after(disk, before.phase, event), steps, steps.len() as int),
        )
    }
}

/// Whatever happens to a render, the file that was asked for is never half
/// written: it holds what it held before until the render is finished, and the
/// whole result from then on. A failed render leaves it alone, and a render
/// that broke, or that drops what it cannot move, leaves no part behind.
pub proof fn law_never_half_written(r: Render, events: Seq<Event>, n: int)
    requires
        r.phase == Phase::Running,
        0 <= n <= events.len(),
    ensures
        ({
            let d = Disk { out: Held::Before, part: Held::Nothing };
            let (after, disk) = course(r, d, events, n);
            &&& after.tidy == r.tidy && after.total == r.total
            &&& after.phase == Phase::Finished ==> disk.out is Whole && disk.part is Nothing
            &&& after.phase != Phase::Finished ==> disk.out is Before
            &&& after.phase == Phase::Moving ==> disk.part is Whole
            &&& after.phase == Phase::Failed && r.tidy ==> disk.part is Nothing
        }),
    decreases n,
{
    if n > 0 {
        law_never_half_written(r, events, n - 1);
        let d = Disk { out: Held::Before, part: Held::Nothing };
        let (before, disk) = course(r, d, events, n - 1);
        let event = events[n - 1];
        reveal_with_fuel(disk_stepped, 4);
    }
}

} // verus!
