//! The cursor over the filtered list and the window of rows that is shown.
//! The cursor is a position in the list, not a node: when the list changes,
//! the cursor is clamped into the new list.

use vstd::prelude::*;

verus! {

/// The position the cursor takes when it is sent to `target` in a list of
/// `count` rows: the nearest row of the list, and row 0 in an empty list.
pub open spec fn clamp_cursor(target: int, count: int) -> int {
    if count <= 0 || target < 0 {
        0
    } else if target >= count {
        count - 1
    } else {
        target
    }
}

/// The first shown row after the cursor has moved to `selected`, for a window
/// of `rows` rows that started at `scroll`: unchanged while the cursor is
/// inside the window, else moved just far enough to take the cursor in.
pub open spec fn scroll_to(scroll: int, selected: int, rows: int) -> int {
    if selected < scroll {
        selected
    } else if selected >= scroll + rows {
        selected - rows + 1
    } else {
        scroll
    }
}

/// Cursor and scroll position over a list of known length.
#[derive(Clone, Copy, Debug, PartialEq, Eq, Structural)]
pub struct ViewState {
    /// Row of the list the cursor is on.
    pub selected_index: usize,
    /// First row of the list that is shown.
    pub scroll_offset: usize,
    /// Number of rows in the list.
    pub visible_count: usize,
    /// Number of rows the window shows.
    pub viewport_height: usize,
}

impl ViewState {
    /// Rows of the window, a window without height counted as one row.
    pub open spec fn rows(self) -> int {
        if self.viewport_height == 0 {
            1
        } else {
            self.viewport_height as int
        }
    }

    /// The cursor is on a row of the list (row 0 of an empty list) and inside
    /// the window.
    pub open spec fn wf(self) -> bool {
        &&& self.selected_index == clamp_cursor(self.selected_index as int, self.visible_count as int)
        &&& self.scroll_offset <= self.selected_index < self.scroll_offset + self.rows()
    }

    /// The state after the cursor has been sent to `target`.
    pub open spec fn moved_to(self, target: int) -> ViewState {
        let selected = clamp_cursor(target, self.visible_count as int);
        ViewState {
            selected_index: selected as usize,
            scroll_offset: scroll_to(self.scroll_offset as int, selected, self.rows()) as usize,
            visible_count: self.visible_count,
            viewport_height: self.viewport_height,
        }
    }

    /// Wherever the cursor is sent, it ends on a row of the list and inside
    /// the window.
    pub proof fn lemma_moved_to_wf(self, target: int)
        ensures
            self.moved_to(target).wf(),
            self.visible_count > 0 ==> self.moved_to(target).selected_index < self.visible_count,
            self.visible_count == 0 ==> self.moved_to(target).selected_index == 0,
    {
    }

    /// A cursor at row 0 of an empty list, with a window without height.
    pub fn new() -> (r: ViewState)
        ensures
            r == (ViewState { selected_index: 0, scroll_offset: 0, visible_count: 0, viewport_height: 0 }),
            r.wf(),
    {
        ViewState { selected_index: 0, scroll_offset: 0, visible_count: 0, viewport_height: 0 }
    }

    /// Sends the cursor to row `target`.
    fn go_to(&mut self, target: usize)
        ensures
            *final(self) == old(self).moved_to(target as int),
    {
        let selected = if self.visible_count == 0 {
            0
        } else if target >= self.visible_count {
            self.visible_count - 1
        } else {
            target
        };
        let rows = if self.viewport_height == 0 {
            1
        } else {
            self.viewport_height
        };
        let scroll = if selected < self.scroll_offset {
            selected
        } else if selected - self.scroll_offset >= rows {
            selected - rows + 1
        } else {
            self.scroll_offset
        };
        self.selected_index = selected;
        self.scroll_offset = scroll;
    }

    /// Moves the cursor by `delta` rows, stopping at either end of the list.
    pub fn move_cursor(&mut self, delta: isize)
        ensures
            *final(self) == old(self).moved_to(old(self).selected_index + delta),
            final(self).wf(),
    {
        let target = if delta >= 0 {
            self.selected_index.saturating_add(delta as usize)
        } else {
            self.selected_index.saturating_sub(magnitude(delta))
        };
        proof {
            old(self).lemma_moved_to_wf(old(self).selected_index + delta);
        }
        self.go_to(target);
    }

    /// Moves the cursor by `delta` windows of rows, stopping at either end of
    /// the list.
    pub fn page(&mut self, delta: isize)
        ensures
            *final(self) == old(self).moved_to(old(self).selected_index + delta * old(self).viewport_height),
            final(self).wf(),
    {
        let rows = self.viewport_height;
        let target = if delta >= 0 {
            let by = delta as usize;
            let step = match by.checked_mul(rows) {
                Some(s) => s,
                None => usize::MAX,
            };
            self.selected_index.saturating_add(step)
        } else {
            let by = magnitude(delta);
            let step = match by.checked_mul(rows) {
                Some(s) => s,
                None => usize::MAX,
            };
            assert(delta * rows == -(by * rows)) by (nonlinear_arith)
                requires
                    by == -delta,
            ;
            self.selected_index.saturating_sub(step)
        };
        proof {
            old(self).lemma_moved_to_wf(old(self).selected_index + delta * old(self).viewport_height);
        }
        self.go_to(target);
    }

    /// Moves the cursor to the first row.
    pub fn home(&mut self)
        ensures
            *final(self) == old(self).moved_to(0),
            final(self).wf(),
    {
        proof {
            old(self).lemma_moved_to_wf(0);
        }
        self.go_to(0);
    }

    /// Moves the cursor to the last row.
    pub fn end(&mut self)
        ensures
            *final(self) == old(self).moved_to(old(self).visible_count - 1),
            final(self).wf(),
    {
        proof {
            old(self).lemma_moved_to_wf(old(self).visible_count - 1);
        }
        let last = self.visible_count.saturating_sub(1);
        self.go_to(last);
    }

    /// Takes a new list length and window height, and clamps the cursor into
    /// the new list.
    pub fn clamp_to(&mut self, visible_count: usize, viewport_height: usize)
        ensures
            *final(self) == (ViewState { visible_count, viewport_height, ..*old(self) }).moved_to(
                old(self).selected_index as int,
            ),
            final(self).wf(),
    {
        self.visible_count = visible_count;
        self.viewport_height = viewport_height;
        let target = self.selected_index;
        proof {
            self.lemma_moved_to_wf(target as int);
        }
        self.go_to(target);
    }
}

/// The size of a negative step.
fn magnitude(delta: isize) -> (r: usize)
    requires
        delta < 0,
    ensures
        r == -delta,
{
    let rest: isize = -(delta + 1);
    let r: usize = rest as usize;
    r + 1
}

} // verus!
