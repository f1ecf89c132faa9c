//! Typing: which key strokes are text, and where the text goes.

use vstd::prelude::*;
use crate::text;

verus! {

/// A code that stands for no sign of its own.
pub open spec fn control(c: char) -> bool {
    c <= '\u{1f}' || ('\u{7f}' <= c && c <= '\u{9f}')
}

/// A key stroke, as far as it may be text.
#[derive(Clone, Copy, Debug, PartialEq, Eq, Structural)]
pub struct Held {
    pub platform: bool,
    pub control: bool,
    pub function: bool,
}

/// The character that a key stroke types. A chord with the command, the control
/// or the function key is a shortcut and never text.
pub fn typed(held: Held, text: Option<&str>) -> (r: Option<char>)
    ensures
        r == (match text {
            Some(t) => if !held.platform && !held.control && !held.function && t@.len() == 1
                && !control(t@[0]) {
                Some(t@[0])
            } else {
                None
            },
            None => None,
        }),
{
    if held.platform || held.control || held.function {
        return None;
    }
    let t: &str = match text {
        Some(t) => t,
        None => {
            return None;
        },
    };
    let chars = text::chars(t);
    if chars.len() != 1 {
        return None;
    }
    let c: char = chars[0];
    if c <= '\u{1f}' || ('\u{7f}' <= c && c <= '\u{9f}') {
        return None;
    }
    Some(c)
}

/// Where text goes.
#[derive(Clone, Copy, Debug, PartialEq, Eq, Structural)]
pub enum Aim {
    /// The search of the shortcut panel.
    Help,
    /// The find field.
    Find,
    /// The label that is typed into.
    Label,
    /// Nowhere: a stray key on the map never rewrites a node.
    Nowhere,
}

pub fn aim(help: bool, find: bool, editing: bool) -> (r: Aim)
    ensures
        r == (if help {
            Aim::Help
        } else if find {
            Aim::Find
        } else if editing {
            Aim::Label
        } else {
            Aim::Nowhere
        }),
{
    if help {
        Aim::Help
    } else if find {
        Aim::Find
    } else if editing {
        Aim::Label
    } else {
        Aim::Nowhere
    }
}

} // verus!
