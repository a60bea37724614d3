//! Anchors: positions in a buffer that stay attached to the surrounding text
//! while the buffer is edited, and selections between two anchors.

use crate::time;
use vstd::prelude::*;

verus! {

/// To which side of an offset an anchor sticks when text is inserted there.
#[derive(Clone, Copy, Debug, PartialEq, Eq, Structural, Hash)]
pub enum AnchorBias {
    Left,
    Right,
}

/// A position in a buffer: its start, its end, or an offset within the text of
/// one insertion.
#[derive(Clone, Copy, Debug, PartialEq, Eq, Structural, Hash)]
pub enum Anchor {
    Start,
    End,
    Middle { insertion_id: time::Local, offset: usize, bias: AnchorBias },
}

/// A selected range between two anchors; `reversed` tells that the head (the
/// moving end) is the start.
#[derive(Clone, Copy, Debug, PartialEq, Eq, Structural)]
pub struct Selection {
    pub start: Anchor,
    pub end: Anchor,
    pub reversed: bool,
}

impl Selection {
    /// The end of the selection that moves.
    pub fn head(&self) -> (a: &Anchor)
        ensures
            *a == (if self.reversed { self.start } else { self.end }),
    {
        if self.reversed {
            &self.start
        } else {
            &self.end
        }
    }

    /// The end of the selection that stays put.
    pub fn tail(&self) -> (a: &Anchor)
        ensures
            *a == (if self.reversed { self.end } else { self.start }),
    {
        if self.reversed {
            &self.end
        } else {
            &self.start
        }
    }

    /// The selection as a range from its start to its end.
    pub fn anchor_range(&self) -> (r: std::ops::Range<Anchor>)
        ensures
            r.start == self.start,
            r.end == self.end,
    {
        self.start.clone()..self.end.clone()
    }
}

} // verus!
