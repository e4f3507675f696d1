//! The selection cursor: which record index is current in the interactive
//! view. The cursor must stay valid across insertions and removals done by
//! other components, so every operation is stated against the collection
//! length as observed by the caller.

use vstd::prelude::*;

verus! {

/// The cursor over a collection of a given length. `selected` is `Some(i)`
/// with `i < len` whenever the collection is non-empty and the cursor has
/// been rebased against that length; `None` marks "nothing selected".
pub struct Cursor {
    pub selected: Option<usize>,
}

/// A cursor position that is valid for a collection of length `len`.
pub open spec fn cursor_valid(selected: Option<usize>, len: nat) -> bool {
    match selected {
        Some(i) => i < len,
        None => len == 0,
    }
}

/// What advancing the selection by one yields: wraps from the last valid
/// index to index 0; unchanged when nothing is selected or `len` is 0.
pub open spec fn spec_move_next(selected: Option<usize>, len: nat) -> Option<usize> {
    match selected {
        Some(s) => if len == 0 {
            selected
        } else if s + 1 >= len {
            Some(0usize)
        } else {
            Some((s + 1) as usize)
        },
        None => None,
    }
}

/// What moving the selection back by one yields: wraps from index 0 to the
/// last valid index; unchanged when nothing is selected or `len` is 0.
pub open spec fn spec_move_prev(selected: Option<usize>, len: nat) -> Option<usize> {
    match selected {
        Some(s) => if len == 0 {
            selected
        } else if s > 0 {
            Some((s - 1) as usize)
        } else {
            Some((len - 1) as usize)
        },
        None => None,
    }
}

/// What rebasing against a collection of length `len` yields: `None` exactly
/// when the collection is empty; otherwise the previous index if still
/// valid, clamped to the last index if stale, and index 0 if nothing was
/// selected.
pub open spec fn spec_rebase(selected: Option<usize>, len: nat) -> Option<usize> {
    if len == 0 {
        None
    } else {
        match selected {
            Some(s) => if s < len {
                Some(s)
            } else {
                Some((len - 1) as usize)
            },
            None => Some(0usize),
        }
    }
}

impl Cursor {
    /// A fresh cursor with nothing selected.
    pub fn new() -> (r: Cursor)
        ensures
            r.selected == Option::<usize>::None,
    {
        Cursor { selected: None }
    }

    /// Set the cursor outright; the caller is responsible for the index
    /// being in range for the collection it has just observed.
    pub fn select(&mut self, i: Option<usize>)
        ensures
            final(self).selected == i,
    {
        self.selected = i;
    }

    /// Advance the selection by one, wrapping from the last valid index to
    /// index 0. A no-op when nothing is selected or the collection is empty.
    pub fn move_next(&mut self, len: usize)
        ensures
            final(self).selected == spec_move_next(old(self).selected, len as nat),
    {
        if len == 0 {
            return;
        }
        if let Some(s) = self.selected {
            if s >= len - 1 {
                self.selected = Some(0);
            } else {
                self.selected = Some(s + 1);
            }
        }
    }

    /// Move the selection back by one, wrapping from index 0 to the last
    /// valid index. A no-op when nothing is selected or the collection is
    /// empty.
    pub fn move_prev(&mut self, len: usize)
        ensures
            final(self).selected == spec_move_prev(old(self).selected, len as nat),
    {
        if len == 0 {
            return;
        }
        if let Some(s) = self.selected {
            if s > 0 {
                self.selected = Some(s - 1);
            } else {
                self.selected = Some(len - 1);
            }
        }
    }

    /// Reconcile the cursor with a collection whose length may have changed
    /// out from under it. The result is always valid for `len`, and is
    /// `None` exactly when the collection is empty.
    pub fn rebase(&mut self, len: usize)
        ensures
            final(self).selected == spec_rebase(old(self).selected, len as nat),
            cursor_valid(final(self).selected, len as nat),
            (final(self).selected is None) <==> len == 0,
    {
        if len == 0 {
            self.selected = None;
        } else {
            match self.selected {
                Some(s) => {
                    if s >= len {
                        self.selected = Some(len - 1);
                    }
                },
                None => {
                    self.selected = Some(0);
                },
            }
        }
    }
}

} // verus!
