//! The player window: keys, seeking, and watching the project file.

use vstd::prelude::*;
use crate::document::Project;
use crate::fixed::{max, HORIZON, TWENTIETH, UNIT};
use crate::text::joined;
use crate::timeline::total_duration;

verus! {

/// What a key asks the player window to do.
#[derive(Debug, Clone, Copy, PartialEq, Eq, Structural)]
pub enum Command {
    Undo,
    Redo,
    /// Play if paused, pause if playing.
    TogglePlay,
    /// Pause, one frame back.
    StepBack,
    /// Pause, one frame ahead.
    StepAhead,
    /// Seek to the start.
    Start,
    /// Seek to the end.
    End,
    /// Delete the selected clip and close the gap.
    RippleDelete,
    /// Split the selected clip at the playhead.
    Split,
}

/// The modifiers held while a key is pressed; `other` is any but control and
/// shift.
#[derive(Debug, Clone, Copy, PartialEq, Eq, Structural)]
pub struct Held {
    pub ctrl: bool,
    pub shift: bool,
    pub other: bool,
}

/// What a key asks for. Undo and redo go by control, with any other modifier;
/// the rest only without modifiers. Keys are X11 key symbols.
pub open spec fn command_of(key: u32, held: Held) -> Option<Command> {
    if held.ctrl && (key == 0x79 || key == 0x59) {
        Some(Command::Redo)
    } else if held.ctrl && (key == 0x7a || key == 0x5a) {
        if held.shift {
            Some(Command::Redo)
        } else {
            Some(Command::Undo)
        }
    } else if held.ctrl || held.shift || held.other {
        None
    } else if key == 0x20 {
        Some(Command::TogglePlay)
    } else if key == 0xff51 {
        Some(Command::StepBack)
    } else if key == 0xff53 {
        Some(Command::StepAhead)
    } else if key == 0xff50 {
        Some(Command::Start)
    } else if key == 0xff57 {
        Some(Command::End)
    } else if key == 0xffff {
        Some(Command::RippleDelete)
    } else if key == 0x73 || key == 0x53 {
        Some(Command::Split)
    } else {
        None
    }
}

/// What a key pressed in the player window asks for.
pub fn key_command(key: u32, held: Held) -> (r: Option<Command>)
    ensures
        r == command_of(key, held),
{
    if held.ctrl && (key == 0x79 || key == 0x59) {
        return Some(Command::Redo);
    }
    if held.ctrl && (key == 0x7a || key == 0x5a) {
        return if held.shift {
            Some(Command::Redo)
        } else {
            Some(Command::Undo)
        };
    }
    if held.ctrl || held.shift || held.other {
        return None;
    }
    match key {
        0x20 => Some(Command::TogglePlay),
        0xff51 => Some(Command::StepBack),
        0xff53 => Some(Command::StepAhead),
        0xff50 => Some(Command::Start),
        0xff57 => Some(Command::End),
        0xffff => Some(Command::RippleDelete),
        0x73 | 0x53 => Some(Command::Split),
        _ => None,
    }
}

/// The length of a frame; without a project, that of a thirtieth of a second.
pub open spec fn frame_length(fps: Option<int>) -> int {
    match fps {
        Some(f) => UNIT as int / f,
        None => UNIT as int / 30,
    }
}

/// Where a step of one frame from `pos` leads.
pub fn step_target(project: Option<&Project>, pos: i128, back: bool) -> (r: i128)
    requires
        -HORIZON <= pos <= HORIZON,
        match project {
            Some(p) => p@.meta.fps > 0,
            None => true,
        },
    ensures
        ({
            let d = frame_length(
                match project {
                    Some(p) => Some(p@.meta.fps),
                    None => None,
                },
            );
            r == max(
                if back {
                    pos - d
                } else {
                    pos + d
                },
                0,
            )
        }),
{
    let d: i128 = match project {
        Some(p) => UNIT / p.meta.fps as i128,
        None => UNIT / 30,
    };
    proof {
        match project {
            Some(p) => {
                let f = p@.meta.fps;
                assert(0 <= 1_000_000_000int / f <= 1_000_000_000) by (nonlinear_arith)
                    requires
                        f > 0,
                ;
            },
            None => {},
        }
    }
    let t: i128 = if back {
        pos - d
    } else {
        pos + d
    };
    if t > 0 {
        t
    } else {
        0
    }
}

/// Where the end key leads: just before the end of the project.
pub fn end_target(project: Option<&Project>) -> (r: i128)
    requires
        match project {
            Some(p) => p@.fits(16),
            None => true,
        },
    ensures
        r == (match project {
            Some(p) => max(total_duration(p@.scenes) - TWENTIETH, 0),
            None => 0,
        }),
        r >= 0,
        project is Some && total_duration(project->0@.scenes) >= 50_000_000 ==> r + 50_000_000
            == total_duration(project->0@.scenes),
{
    match project {
        Some(p) => {
            let end: i128 = p.duration() - TWENTIETH;
            if end > 0 {
                end
            } else {
                0
            }
        },
        None => 0,
    }
}

/// What is known of the project file: when it was last seen to change, and
/// whether the next change is the editor's own.
#[derive(Debug, Clone, Copy)]
pub struct Watch {
    pub seen: Option<u128>,
    pub own: bool,
}

/// The watch after the editor wrote the file; `stamp` is when it changed, if
/// that can be told.
pub open spec fn after_write(w: Watch, stamp: Option<u128>) -> Watch {
    Watch { seen: stamp, own: stamp is None }
}

/// The file has changed since it was last seen.
pub open spec fn changed(w: Watch, stamp: Option<u128>) -> bool {
    stamp is Some && stamp != w.seen
}

/// The watch after a look at the file.
pub open spec fn after_look(w: Watch, stamp: Option<u128>) -> Watch {
    if changed(w, stamp) {
        Watch { seen: stamp, own: false }
    } else {
        w
    }
}

impl Watch {
    /// The editor wrote the file.
    pub fn wrote(&mut self, stamp: Option<u128>)
        ensures
            *final(self) == after_write(*old(self), stamp),
    {
        self.own = stamp.is_none();
        self.seen = stamp;
    }

    /// Look at the file: has it to be read again? A change that the editor
    /// made itself does not count.
    pub fn look(&mut self, stamp: Option<u128>) -> (r: bool)
        ensures
            r == (changed(*old(self), stamp) && !old(self).own),
            *final(self) == after_look(*old(self), stamp),
    {
        let now: u128 = match stamp {
            Some(t) => t,
            None => {
                return false;
            },
        };
        if let Some(t) = self.seen {
            if t == now {
                return false;
            }
        }
        self.seen = stamp;
        let fresh: bool = !self.own;
        self.own = false;
        fresh
    }
}

/// Edits from outside are always picked up, and the editor's own never: after
/// the editor wrote the file, a look at that state of it finds nothing to
/// read, and a look at any later state does.
pub proof fn law_hot_reload(w: Watch, written: u128, later: u128)
    requires
        later != written,
    ensures
        !changed(after_write(w, Some(written)), Some(written)),
        after_look(after_write(w, Some(written)), Some(written)) == after_write(w, Some(written)),
        changed(after_write(w, Some(written)), Some(later)),
        !after_write(w, Some(written)).own,
{
}

/// A change is picked up once.
pub proof fn law_reload_once(w: Watch, stamp: Option<u128>)
    ensures
        !changed(after_look(w, stamp), stamp),
{
}

/// The title of the window of a project file; `name` is the file's name.
pub fn window_title(name: Option<&str>) -> (r: String)
    ensures
        r@ == "Dualcut — "@ + (match name {
            Some(n) => n@,
            None => "project"@,
        }),
{
    match name {
        Some(n) => joined("Dualcut — ", n),
        None => joined("Dualcut — ", "project"),
    }
}

/// As many frames as there are in a second fill it, but for less than a
/// billionth each; without a project there are thirty.
pub proof fn law_frame_length(fps: int)
    requires
        fps > 0,
    ensures
        frame_length(Some(fps)) * fps <= 1_000_000_000 < (frame_length(Some(fps)) + 1) * fps,
        frame_length(None) == frame_length(Some(30)),
{
    let q = 1_000_000_000int / fps;
    vstd::arithmetic::div_mod::lemma_fundamental_div_mod(1_000_000_000, fps);
    vstd::arithmetic::div_mod::lemma_mod_bound(1_000_000_000, fps);
    assert(q * fps == fps * q && (q + 1) * fps == fps * q + fps) by (nonlinear_arith);
}

/// Undo and redo need control; everything else needs all modifiers released.
/// Shift turns undo into redo.
pub proof fn law_modifiers(key: u32, held: Held)
    ensures
        match command_of(key, held) {
            Some(Command::Undo) => held.ctrl && !held.shift && command_of(
                key,
                Held { shift: true, ..held },
            ) == Some(Command::Redo),
            Some(Command::Redo) => held.ctrl,
            Some(_) => !held.ctrl && !held.shift && !held.other,
            None => true,
        },
        held.ctrl && command_of(key, held) is None ==> command_of(
            key,
            Held { shift: !held.shift, ..held },
        ) is None,
{
}

} // verus!
