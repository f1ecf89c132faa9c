//! Two palettes. The canonical one is plate: white paper, black ink, one blue.

use vstd::prelude::*;

verus! {

#[derive(Clone, Copy, Debug, PartialEq, Eq)]
pub struct Theme {
    pub dark: bool,
    /// The ground everything is drawn on.
    pub bg: u32,
    /// Text.
    pub ink: u32,
    pub ink_soft: u32,
    /// For chrome that has to be read: menu hints, panel captions.
    pub ink_quiet: u32,
    /// A whisper, for the placeholder in an empty node.
    pub ink_faint: u32,
    /// Edges.
    pub line: u32,
    /// What you are on.
    pub accent: u32,
    /// The edge whose label is being edited.
    pub edge_accent: u32,
    pub hover: u32,
}

/// Engraved plate: white ground, black line, one blue for what you are on.
pub open spec fn light() -> Theme {
    Theme {
        dark: false,
        bg: 0xffffff,
        ink: 0x000000,
        ink_soft: 0x555555,
        ink_quiet: 0x777777,
        ink_faint: 0xa8a8a8,
        line: 0x1a1a1a,
        accent: 0x1140e0,
        edge_accent: 0x1140e0,
        hover: 0x707070,
    }
}

/// The same plate inverted, for working at night.
pub open spec fn dark() -> Theme {
    Theme {
        dark: true,
        bg: 0x0b0d10,
        ink: 0xf2f2ef,
        ink_soft: 0x9aa0a8,
        ink_quiet: 0x7d838b,
        ink_faint: 0x4a5058,
        line: 0xb8bcc0,
        accent: 0x5b8cff,
        edge_accent: 0x5b8cff,
        hover: 0x8b929b,
    }
}

/// The palette for dark or for light.
pub open spec fn palette(is_dark: bool) -> Theme {
    if is_dark {
        dark()
    } else {
        light()
    }
}

impl Theme {
    /// The other palette.
    pub fn toggled(self) -> (r: Theme)
        ensures
            r == palette(!self.dark),
    {
        Theme::from_dark(!self.dark)
    }

    /// The palette for dark or for light.
    pub fn from_dark(dark: bool) -> (r: Theme)
        ensures
            r == palette(dark),
    {
        if dark {
            Theme {
                dark: true,
                bg: 0x0b0d10,
                ink: 0xf2f2ef,
                ink_soft: 0x9aa0a8,
                ink_quiet: 0x7d838b,
                ink_faint: 0x4a5058,
                line: 0xb8bcc0,
                accent: 0x5b8cff,
                edge_accent: 0x5b8cff,
                hover: 0x8b929b,
            }
        } else {
            Theme {
                dark: false,
                bg: 0xffffff,
                ink: 0x000000,
                ink_soft: 0x555555,
                ink_quiet: 0x777777,
                ink_faint: 0xa8a8a8,
                line: 0x1a1a1a,
                accent: 0x1140e0,
                edge_accent: 0x1140e0,
                hover: 0x707070,
            }
        }
    }
}

/// Toggling twice gives back the palette.
pub proof fn toggling_twice_is_nothing(is_dark: bool)
    ensures
        palette(is_dark).dark == is_dark,
        palette(!palette(!palette(is_dark).dark).dark) == palette(is_dark),
{
}

} // verus!
