//! Emergency stop: the mouse in the top left corner of the screen.

use vstd::prelude::*;

verus! {

/// Milliseconds between two looks at the mouse.
pub const POLL_INTERVAL_MS: u64 = 50;

/// How many pixels from the corner still count.
pub const CORNER_TOLERANCE: i32 = 2;

/// What the monitor does next.
#[derive(Debug, Clone, Copy, PartialEq, Eq, Structural)]
pub enum MonitorAction {
    /// Input has stopped: leave.
    Leave,
    /// Raise the stop flag and leave.
    Trigger,
    /// The mouse cannot be read: say so and leave, with Ctrl+C still there.
    GiveUp,
    /// Wait for the poll interval and look again.
    Wait,
}

/// Whether a position is in the corner.
pub open spec fn in_corner(p: (i32, i32)) -> bool {
    p.0 <= CORNER_TOLERANCE && p.1 <= CORNER_TOLERANCE
}

/// One round of the monitor: whether the stop flag is up, and where the mouse is, if that can be
/// read.
pub fn monitor_step(stopped: bool, mouse: Option<(i32, i32)>) -> (r: MonitorAction)
    ensures
        r == (if stopped {
            MonitorAction::Leave
        } else {
            match mouse {
                None => MonitorAction::GiveUp,
                Some(p) => if in_corner(p) {
                    MonitorAction::Trigger
                } else {
                    MonitorAction::Wait
                },
            }
        }),
{
    if stopped {
        return MonitorAction::Leave;
    }
    match mouse {
        Some((x, y)) => if x <= CORNER_TOLERANCE && y <= CORNER_TOLERANCE {
            MonitorAction::Trigger
        } else {
            MonitorAction::Wait
        },
        None => MonitorAction::GiveUp,
    }
}

/// The corner is the top left one: what is nearer to it than a place in the corner is in the corner too,
/// also beyond the edges of the screen, and what is more than two pixels away on either side is not.
pub proof fn law_corner_is_top_left(p: (i32, i32), q: (i32, i32))
    ensures
        in_corner((2, 2)),
        in_corner(p) && q.0 <= p.0 && q.1 <= p.1 ==> in_corner(q),
        p.0 > 2 || p.1 > 2 ==> !in_corner(p),
{
}

} // verus!
