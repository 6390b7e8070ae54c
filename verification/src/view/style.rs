//! How the bytes of the view are painted: which paint applies from the
//! left edge of a cell, from the middle of it, and behind it.

use crate::hex_view::Priority;
use vstd::prelude::*;

verus! {

/// The paints of the view.
#[derive(Debug, PartialEq, Eq, Clone, Copy, Hash, Structural)]
pub enum Paint {
    /// What is not selected.
    Default,
    /// The main region.
    ActiveSelection,
    /// A region that is not the main one.
    InactiveSelection,
    /// The caret of the main region.
    ActiveCaret,
    /// The caret of a region that is not the main one.
    InactiveCaret,
    /// A caret that stands past the last byte.
    EmptyCaret,
}

/// A paint and how much it counts.
#[derive(Debug, PartialEq, Eq, Clone, Copy, Structural)]
pub struct PrioritizedStyle {
    pub style: Paint,
    pub priority: Priority,
}

/// The paints that are set while one cell is drawn: at its left edge,
/// between its two hex digits, and behind it. Where none is set, the paint
/// stays as it is.
#[derive(Debug, PartialEq, Eq, Clone, Copy, Structural)]
pub struct StylingCommand {
    pub start: Option<PrioritizedStyle>,
    pub mid: Option<PrioritizedStyle>,
    pub end: Option<PrioritizedStyle>,
}

impl Default for StylingCommand {
    fn default() -> (r: StylingCommand)
        ensures
            r == StylingCommand::unset(),
    {
        StylingCommand { start: None, mid: None, end: None }
    }
}

/// The paint of what is not selected.
pub open spec fn default_paint() -> PrioritizedStyle {
    PrioritizedStyle { style: Paint::Default, priority: Priority::Basic }
}

/// The paint of a region.
pub open spec fn selection_paint(main: bool) -> PrioritizedStyle {
    PrioritizedStyle {
        style: if main {
            Paint::ActiveSelection
        } else {
            Paint::InactiveSelection
        },
        priority: Priority::Selection,
    }
}

/// The paint of a caret.
pub open spec fn caret_paint(main: bool) -> PrioritizedStyle {
    PrioritizedStyle {
        style: if main {
            Paint::ActiveCaret
        } else {
            Paint::InactiveCaret
        },
        priority: Priority::Cursor,
    }
}

/// The paint of a caret that stands past the last byte.
pub open spec fn empty_caret_paint() -> PrioritizedStyle {
    PrioritizedStyle { style: Paint::EmptyCaret, priority: Priority::Cursor }
}

pub fn default_style() -> (r: PrioritizedStyle)
    ensures
        r == default_paint(),
{
    PrioritizedStyle { style: Paint::Default, priority: Priority::Basic }
}

pub fn selection_style(main: bool) -> (r: PrioritizedStyle)
    ensures
        r == selection_paint(main),
{
    PrioritizedStyle {
        style: if main {
            Paint::ActiveSelection
        } else {
            Paint::InactiveSelection
        },
        priority: Priority::Selection,
    }
}

pub fn caret_style(main: bool) -> (r: PrioritizedStyle)
    ensures
        r == caret_paint(main),
{
    PrioritizedStyle {
        style: if main {
            Paint::ActiveCaret
        } else {
            Paint::InactiveCaret
        },
        priority: Priority::Cursor,
    }
}

pub fn empty_caret_style() -> (r: PrioritizedStyle)
    ensures
        r == empty_caret_paint(),
{
    PrioritizedStyle { style: Paint::EmptyCaret, priority: Priority::Cursor }
}

impl StylingCommand {
    /// The command that sets nothing.
    pub open spec fn unset() -> StylingCommand {
        StylingCommand { start: None, mid: None, end: None }
    }

    pub fn start_style(&self) -> (r: Option<Paint>)
        ensures
            r == match self.start {
                Some(style) => Some(style.style),
                None => None,
            },
    {
        match self.start {
            Some(style) => Some(style.style),
            None => None,
        }
    }

    pub fn mid_style(&self) -> (r: Option<Paint>)
        ensures
            r == match self.mid {
                Some(style) => Some(style.style),
                None => None,
            },
    {
        match self.mid {
            Some(style) => Some(style.style),
            None => None,
        }
    }

    pub fn end_style(&self) -> (r: Option<Paint>)
        ensures
            r == match self.end {
                Some(style) => Some(style.style),
                None => None,
            },
    {
        match self.end {
            Some(style) => Some(style.style),
            None => None,
        }
    }

    pub fn with_start_style(self, style: PrioritizedStyle) -> (r: StylingCommand)
        ensures
            r == (StylingCommand { start: Some(style), ..self }),
    {
        StylingCommand { start: Some(style), mid: self.mid, end: self.end }
    }

    pub fn with_mid_style(self, style: PrioritizedStyle) -> (r: StylingCommand)
        ensures
            r == (StylingCommand { mid: Some(style), ..self }),
    {
        StylingCommand { start: self.start, mid: Some(style), end: self.end }
    }

    pub fn with_end_style(self, style: PrioritizedStyle) -> (r: StylingCommand)
        ensures
            r == (StylingCommand { end: Some(style), ..self }),
    {
        StylingCommand { start: self.start, mid: self.mid, end: Some(style) }
    }

    /// What is set in the middle of the cell is set behind it instead.
    pub fn with_mid_to_end(self) -> (r: StylingCommand)
        ensures
            r == (StylingCommand { start: self.start, mid: None, end: self.mid }),
    {
        StylingCommand { start: self.start, mid: None, end: self.mid }
    }

    /// Only what is set behind the cell stays.
    pub fn take_end_only(self) -> (r: StylingCommand)
        ensures
            r == (StylingCommand { start: None, mid: None, end: self.end }),
    {
        StylingCommand { start: None, mid: None, end: self.end }
    }
}

} // verus!
