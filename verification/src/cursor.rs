//! Table-selection state for the display layer.

use vstd::prelude::*;

verus! {

/// The row currently selected in the rendered book, if any.
///
/// Navigation wraps around the current combined row count, which the caller
/// recomputes from the book on every move, so the selection stays in range
/// however the book grows or shrinks between frames.
pub struct Cursor {
    pub selected: Option<usize>,
}

impl Cursor {
    /// A cursor with nothing selected.
    pub fn new() -> (r: Cursor)
        ensures
            r.selected is None,
    {
        Cursor { selected: None }
    }

    /// Selects the next of `rows` rows, wrapping to the top after the last;
    /// with nothing yet selected, or no rows at all, selects the first row.
    pub fn next(&mut self, rows: usize)
        ensures
            final(self).selected == Some(
                match old(self).selected {
                    Some(i) => if i + 1 >= rows { 0usize } else { (i + 1) as usize },
                    None => 0usize,
                },
            ),
    {
        let i = match self.selected {
            Some(i) => {
                if rows == 0 || i >= rows - 1 {
                    0
                } else {
                    i + 1
                }
            },
            None => 0,
        };
        self.selected = Some(i);
    }

    /// Selects the previous of `rows` rows, wrapping to the bottom before the
    /// first; with nothing yet selected, or no rows at all, selects the first
    /// row.
    pub fn previous(&mut self, rows: usize)
        ensures
            final(self).selected == Some(
                match old(self).selected {
                    Some(i) => if i == 0 && rows > 0 {
                        (rows - 1) as usize
                    } else if i == 0 {
                        0usize
                    } else {
                        (i - 1) as usize
                    },
                    None => 0usize,
                },
            ),
    {
        let i = match self.selected {
            Some(i) => {
                if i == 0 {
                    if rows == 0 {
                        0
                    } else {
                        rows - 1
                    }
                } else {
                    i - 1
                }
            },
            None => 0,
        };
        self.selected = Some(i);
    }
}

} // verus!
