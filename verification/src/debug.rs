//! The switch for diagnostic output. It is set once; what is set first
//! stays.

use vstd::prelude::*;

verus! {

/// The switch: not yet set, or set to on or off.
#[derive(Debug)]
pub struct DebugFlag {
    enabled: Option<bool>,
}

impl View for DebugFlag {
    type V = Option<bool>;

    closed spec fn view(&self) -> Option<bool> {
        self.enabled
    }
}

impl DebugFlag {
    /// A switch that is not yet set.
    pub fn new() -> (r: Self)
        ensures
            r@ is None,
    {
        DebugFlag { enabled: None }
    }
}

/// Sets the switch, unless it was set before.
pub fn set_debug(flag: &mut DebugFlag, enabled: bool)
    ensures
        final(flag)@ == match old(flag)@ {
            Some(first) => Some(first),
            None => Some(enabled),
        },
{
    if flag.enabled.is_none() {
        flag.enabled = Some(enabled);
    }
}

/// Whether diagnostic output is on; it is off as long as the switch is not
/// set.
pub fn is_debug(flag: &DebugFlag) -> (r: bool)
    ensures
        r == (flag@ == Some(true)),
{
    match flag.enabled {
        Some(enabled) => enabled,
        None => false,
    }
}

} // verus!
