//! Interface for system timer mechanism used for time slicing.
use vstd::prelude::*;

use crate::exceptions::InterruptId;

verus! {

/// System timer mechanism used for time slicing.
pub trait SystemTimer {
    /// The ID of the interrupt that is triggered when the timer expires.
    ///
    /// A verified timer says here what [`SystemTimer::interrupt_id`] returns.
    open spec fn spec_interrupt_id(&self) -> InterruptId {
        arbitrary()
    }

    /// The value that the timer counts down from.
    ///
    /// A verified timer says here what [`SystemTimer::reset`] returns.
    open spec fn spec_reset_value(&self) -> u32 {
        arbitrary()
    }

    /// The ID of the interrupt that is triggered when the timer expires.
    fn interrupt_id(&self) -> (id: InterruptId)
        ensures
            id == self.spec_interrupt_id(),
    ;

    /// Reset the timer after it has expired: the value to write to the timer value register.
    fn reset(&self) -> (value: u32)
        ensures
            value == self.spec_reset_value(),
    ;
}

} // verus!
