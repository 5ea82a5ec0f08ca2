//! The tri-state inclusion flag and the rule that aggregates the flags of a
//! directory's children.

use vstd::prelude::*;

verus! {

/// Whether an entry is selected for export.
#[derive(Clone, Copy, Debug, PartialEq, Eq, Structural, Hash)]
pub enum SelectionState {
    /// The entry, and everything below it, is selected.
    Included,
    /// The entry, and everything below it, is left out.
    Excluded,
    /// Some entries below a directory are selected and some are not.
    Partial,
}

impl SelectionState {
    /// The state a toggle moves to: `Excluded` becomes `Included`, while both
    /// `Included` and `Partial` become `Excluded`.
    pub open spec fn toggled_spec(self) -> SelectionState {
        if self == SelectionState::Excluded {
            SelectionState::Included
        } else {
            SelectionState::Excluded
        }
    }

    /// Returns the state that a toggle moves this state to.
    #[verifier::when_used_as_spec(toggled_spec)]
    pub fn toggled(self) -> (r: SelectionState)
        ensures
            r == self.toggled_spec(),
    {
        match self {
            SelectionState::Excluded => SelectionState::Included,
            SelectionState::Included => SelectionState::Excluded,
            SelectionState::Partial => SelectionState::Excluded,
        }
    }
}

/// Every state in `states` equals `s`.
pub open spec fn all_are(states: Seq<SelectionState>, s: SelectionState) -> bool {
    forall|k: int| 0 <= k < states.len() ==> states[k] == s
}

/// The state of a directory whose children have the given states: `Included`
/// when all are `Included`, `Excluded` when all are `Excluded`, and `Partial`
/// for any mix.
pub open spec fn aggregate(states: Seq<SelectionState>) -> SelectionState {
    if all_are(states, SelectionState::Included) {
        SelectionState::Included
    } else if all_are(states, SelectionState::Excluded) {
        SelectionState::Excluded
    } else {
        SelectionState::Partial
    }
}

} // verus!
