//! The beat of the window: when to draw again, when to save, and how soon to look
//! again.

use vstd::prelude::*;

verus! {

/// The message at the foot of the window.
#[derive(Clone, Copy, Debug, PartialEq, Eq, Structural)]
pub enum Toast {
    Gone,
    /// Fully there: it looks as it did a moment ago.
    Held,
    /// In its last second, or just cleared.
    Fading,
}

/// What happened since the last beat.
#[derive(Clone, Copy, Debug, PartialEq, Eq, Structural)]
pub struct Beat {
    /// A node eased towards its place.
    pub eased: bool,
    /// A drag near the edge moved the view.
    pub panned: bool,
    /// The trackpad was pinched.
    pub pinched: bool,
    /// The view flew on.
    pub flown: bool,
    /// The caret turned over.
    pub blinked: bool,
    /// A caret is shown: in a label, in the find field or in the shortcut panel.
    pub caret: bool,
    pub toast: Toast,
    /// The map was changed since it was saved.
    pub unsaved: bool,
    /// The map has been quiet long enough.
    pub due: bool,
}

/// What is to be done.
#[derive(Clone, Copy, Debug, PartialEq, Eq, Structural)]
pub struct Due {
    pub redraw: bool,
    pub save: bool,
}

/// A pinch puts saving off: writing in the middle of one would be seen.
pub open spec fn save_due(b: Beat) -> bool {
    b.unsaved && b.due && !b.pinched
}

/// Whether anything has changed a pixel.
pub open spec fn redraw_due(b: Beat) -> bool {
    ||| b.eased
    ||| b.panned
    ||| b.pinched
    ||| b.flown
    ||| b.blinked && b.caret
    ||| b.toast == Toast::Fading
    ||| save_due(b)
}

/// What a beat calls for.
pub fn beat(b: Beat) -> (r: Due)
    ensures
        r.save == save_due(b),
        r.redraw == redraw_due(b),
{
    let save = b.unsaved && b.due && !b.pinched;
    Due {
        redraw: b.eased || b.panned || b.pinched || b.flown || (b.blinked && b.caret) || b.toast
            == Toast::Fading || save,
        save,
    }
}

/// How many milliseconds to wait while something moves.
pub const LIVELY: u64 = 8;

/// How many to wait otherwise: no longer than a frame, since nothing else notices
/// the first pinch.
pub const IDLE: u64 = 16;

/// How many milliseconds to the next beat.
pub fn interval(flying: bool, dragging: bool, easing: bool, pinching: bool) -> (r: u64)
    ensures
        r == (if flying || dragging || easing || pinching {
            LIVELY
        } else {
            IDLE
        }),
{
    if flying || dragging || easing || pinching {
        LIVELY
    } else {
        IDLE
    }
}

/// A gesture that may carry the view along when it nears the edge.
#[derive(Clone, Copy, Debug, PartialEq, Eq, Structural)]
pub enum Pull {
    /// A move of nodes, and whether it has left the place it began at.
    Nodes { moved: bool },
    /// A rubber band, and whether it has any size.
    Band { open: bool },
    /// Anything else, or nothing.
    Other,
}

/// Whether a gesture is under way. A press that is held near the edge is not: it
/// would become a move.
pub fn under_way(p: Pull) -> (r: bool)
    ensures
        r == (match p {
            Pull::Nodes { moved } => moved,
            Pull::Band { open } => open,
            Pull::Other => false,
        }),
{
    match p {
        Pull::Nodes { moved } => moved,
        Pull::Band { open } => open,
        Pull::Other => false,
    }
}

/// Nothing that is seen goes undrawn, a save is always shown, and no pinch is
/// interrupted by one.
pub proof fn a_save_is_shown_and_never_interrupts(b: Beat)
    ensures
        save_due(b) ==> redraw_due(b),
        b.pinched ==> !save_due(b) && redraw_due(b),
{
}

} // verus!
