//! Selections: a byte range with a direction and a remembered column for
//! vertical movement.

use vstd::prelude::*;
use std::ops::Range;

verus! {

/// The column that vertical movement tries to keep.
#[derive(Default, Copy, Clone, Debug, PartialEq, Eq, Structural)]
pub enum SelectionGoal {
    #[default]
    Unset,
    HorizontalPosition(usize),
}

/// A byte range of the text; `reversed` tells which end moves.
#[derive(Default, Copy, Clone, Debug, PartialEq, Eq, Structural)]
pub struct Selection {
    pub start: usize,
    pub end: usize,
    pub reversed: bool,
    pub goal: SelectionGoal,
}

impl Selection {
    pub fn new(start: usize, end: usize) -> (s: Self)
        ensures
            s.start == start,
            s.end == end,
            !s.reversed,
            s.goal == SelectionGoal::Unset,
    {
        Self { start, end, reversed: false, goal: SelectionGoal::Unset }
    }

    /// The end that moves: where the selection stopped.
    pub fn head(&self) -> (h: usize)
        ensures
            h == if self.reversed {
                self.start
            } else {
                self.end
            },
    {
        if self.reversed {
            self.start
        } else {
            self.end
        }
    }

    /// The end that stays: where the selection began.
    pub fn tail(&self) -> (t: usize)
        ensures
            t == if self.reversed {
                self.end
            } else {
                self.start
            },
    {
        if self.reversed {
            self.end
        } else {
            self.start
        }
    }

    /// An empty selection at `position`.
    pub fn cursor(position: usize) -> (s: Self)
        ensures
            s == Selection::new_spec(position, position),
    {
        Self::new(position, position)
    }

    /// The selection `new` makes.
    pub open spec fn new_spec(start: usize, end: usize) -> Selection {
        Selection { start, end, reversed: false, goal: SelectionGoal::Unset }
    }

    pub fn is_cursor(&self) -> (b: bool)
        ensures
            b == (self.start == self.end),
    {
        self.start == self.end
    }

    /// Number of bytes selected; 0 when `end` is before `start`.
    pub fn len(&self) -> (n: usize)
        ensures
            n == if self.end > self.start {
                self.end - self.start
            } else {
                0
            },
    {
        if self.end > self.start {
            self.end - self.start
        } else {
            0
        }
    }

    pub fn is_empty(&self) -> (b: bool)
        ensures
            b == (self.start == self.end),
    {
        self.is_cursor()
    }

    pub fn range(&self) -> (r: Range<usize>)
        ensures
            r.start == self.start,
            r.end == self.end,
    {
        Range { start: self.start, end: self.end }
    }
}

} // verus!
