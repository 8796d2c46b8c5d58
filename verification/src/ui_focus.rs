//! Whether the user has the app open and focussed.
//!
//! The daemon shows a desktop notification for an inbound message only when
//! the UI is not focussed; the UI pushes its focus state over RPC.

use vstd::prelude::*;

verus! {

/// Focus state of the UI, as last reported over RPC.
pub struct FocusState {
    /// True while the user has the app open and focussed.
    pub focussed: bool,
}

impl FocusState {
    /// State at daemon startup: the UI is assumed focussed, so no
    /// notification fires before the first report.
    pub fn init() -> (r: FocusState)
        ensures
            r.focussed,
    {
        FocusState { focussed: true }
    }
}

/// Record the focus state the UI reported.
pub fn set_focussed(state: &mut FocusState, val: bool)
    ensures
        final(state).focussed == val,
{
    state.focussed = val;
}

/// Read the last reported focus state.
pub fn is_focussed(state: &FocusState) -> (r: bool)
    ensures
        r == state.focussed,
{
    state.focussed
}

} // verus!
