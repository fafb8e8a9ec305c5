//! Interrupt handler policy.
use vstd::prelude::*;

use super::Id as InterruptId;
use crate::platform::timer::SystemTimer;

verus! {

/// Interrupt handler policy.
///
/// The policy decides; it does not act. On an interrupt the caller saves the current
/// thread's state, then acknowledges interrupts at the controller one by one and hands
/// each to [`Handler::process_interrupts`] until that says [`Action::Finished`], and at
/// last restores the state of the thread that is then current.
#[derive(Debug, Clone, Copy, PartialEq, Eq, Structural)]
pub struct Handler {
    timer_interrupt_id: InterruptId,
}

/// An error that could occur during handling an interrupt.
#[derive(Debug, Clone, Copy, PartialEq, Eq, Structural)]
pub enum Error {
    /// An interrupt occurred that was unexpected.
    UnknownInterrupt(InterruptId),
}

/// What the caller does for an acknowledged interrupt.
#[derive(Debug, Clone, Copy, PartialEq, Eq, Structural)]
pub enum Action {
    /// No interrupt is pending any more: processing is complete.
    Finished,
    /// The timer has expired: run the scheduler's next time slice, reset the timer, tell the
    /// controller that interrupt `finish` is finished, then acknowledge the next interrupt.
    NextTimeSlice {
        /// The interrupt to report as finished.
        finish: InterruptId,
    },
}

impl Handler {
    /// The interrupt that the policy takes for the timer's.
    pub closed spec fn timer_interrupt_id(&self) -> InterruptId {
        self.timer_interrupt_id
    }

    /// Create a new interrupt handler policy for the system timer `timer`.
    pub fn new<T: SystemTimer>(timer: &T) -> (handler: Self)
        ensures
            handler.timer_interrupt_id() == timer.spec_interrupt_id(),
    {
        Self { timer_interrupt_id: timer.interrupt_id() }
    }

    /// Decide what to do about `acknowledged`, the answer of the controller to an
    /// acknowledgement: the interrupt that is pending, if any.
    ///
    /// # Errors
    /// If an error occurs, the thread state is not to be restored.
    ///
    /// - [`Error::UnknownInterrupt`]: If an interrupt happens that is unknown to the handler.
    pub fn process_interrupts(&self, acknowledged: Option<InterruptId>) -> (r: Result<
        Action,
        Error,
    >)
        ensures
            r == (match acknowledged {
                None => Ok::<Action, Error>(Action::Finished),
                Some(id) => if id == self.timer_interrupt_id() {
                    Ok::<Action, Error>(Action::NextTimeSlice { finish: id })
                } else {
                    Err::<Action, Error>(Error::UnknownInterrupt(id))
                },
            }),
    {
        match acknowledged {
            None => Ok(Action::Finished),
            Some(int_id) => {
                if int_id == self.timer_interrupt_id {
                    Ok(Action::NextTimeSlice { finish: int_id })
                } else {
                    Err(Error::UnknownInterrupt(int_id))
                }
            },
        }
    }
}

} // verus!
