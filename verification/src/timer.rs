//! Standard system timer driver.
//!
//! The driver computes what the timer registers are to hold; reading and writing them is
//! left to the caller.
use vstd::prelude::*;
use vstd::string::StringSliceAdditionalSpecFns;

use crate::bits::{bit, set_bit, spec_bit, spec_set_bit_range};
use crate::exceptions::interrupt::{Config, Controller, TriggerMode};
use crate::exceptions::InterruptId;
use crate::platform::device_tree::iter::NodePropertyIter;
use crate::platform::device_tree::{
    lemma_names_differ, name_is, parse_value, strings_from, ParseError, ParseErrorView,
    StringList, Value,
};
use crate::platform::timer::SystemTimer;

verus! {

/// A value of the timer control register (`CNTP_CTL_EL0`).
#[derive(Debug, Clone, Copy, PartialEq, Eq, Structural)]
pub struct TimerControlRegister(pub u64);

/// The bit of the control register that says that the timer condition is met.
pub const CONTROL_ISTATUS: usize = 2;

/// The bit of the control register that masks the timer interrupt.
pub const CONTROL_IMASK: usize = 1;

/// The bit of the control register that enables the timer.
pub const CONTROL_ENABLE: usize = 0;

/// The value of a flag as the field of one bit that holds it.
pub open spec fn flag(set: bool) -> u64 {
    if set {
        1
    } else {
        0
    }
}

/// Check to see if the timer condition has been met, in the control register value
/// `control`.
pub fn condition_met(control: TimerControlRegister) -> (met: bool)
    ensures
        met == spec_bit(control.0, CONTROL_ISTATUS as nat),
{
    bit(control.0, CONTROL_ISTATUS)
}

/// Check to see if the timer interrupt is enabled, in the control register value `control`.
pub fn interrupts_enabled(control: TimerControlRegister) -> (enabled: bool)
    ensures
        enabled == !spec_bit(control.0, CONTROL_IMASK as nat),
{
    !bit(control.0, CONTROL_IMASK)
}

/// The control register value `control` with the timer interrupt enabled or disabled.
pub fn set_interrupts_enabled(control: TimerControlRegister, enabled: bool) -> (updated:
    TimerControlRegister)
    ensures
        updated.0 == spec_set_bit_range(
            control.0,
            CONTROL_IMASK as nat,
            CONTROL_IMASK as nat,
            flag(!enabled),
        ),
{
    TimerControlRegister(set_bit(control.0, CONTROL_IMASK, !enabled))
}

/// Check if the timer is enabled, in the control register value `control`.
pub fn enabled(control: TimerControlRegister) -> (on: bool)
    ensures
        on == spec_bit(control.0, CONTROL_ENABLE as nat),
{
    bit(control.0, CONTROL_ENABLE)
}

/// The control register value `control` with the timer enabled or disabled.
pub fn set_enabled(control: TimerControlRegister, enabled: bool) -> (updated: TimerControlRegister)
    ensures
        updated.0 == spec_set_bit_range(
            control.0,
            CONTROL_ENABLE as nat,
            CONTROL_ENABLE as nat,
            flag(enabled),
        ),
{
    TimerControlRegister(set_bit(control.0, CONTROL_ENABLE, enabled))
}

/// The priority that the timer's interrupt is configured with.
pub const TIMER_PRIORITY: u8 = 0;

/// The CPU mask that the timer's interrupt is configured with.
pub const TIMER_TARGET_CPU: u8 = 0x01;

/// The entry of the `interrupts` property that names the interrupt of the physical timer.
pub const TIMER_INTERRUPT_INDEX: usize = 1;

/// The system timer driver.
#[derive(Debug, Clone, Copy, PartialEq, Eq, Structural)]
pub struct Timer {
    int_id: InterruptId,
    int_config: Config,
    reset_value: u32,
}

/// Whether `model` is the `compatible` string of a timer that this driver drives.
pub open spec fn is_compatible_model(model: Seq<u8>) -> bool {
    model == "arm,armv7-timer".spec_bytes() || model == "arm,armv8-timer".spec_bytes()
}

/// Whether one of `models` is the `compatible` string of a timer that this driver drives.
pub open spec fn any_compatible_model(models: Seq<Seq<u8>>) -> bool {
    exists|i: int| 0 <= i < models.len() && is_compatible_model(#[trigger] models[i])
}

/// What the property `name` with the bytes `data` adds to the interrupt that is known for
/// the timer (`found`), or the error that it gives rise to. `interrupt` is the interrupt
/// that the controller reads from `data`.
pub open spec fn scan_property(
    found: Option<(InterruptId, TriggerMode)>,
    name: Seq<u8>,
    data: Seq<u8>,
    address_cells: u32,
    size_cells: u32,
    interrupt: Option<(InterruptId, TriggerMode)>,
) -> Result<Option<(InterruptId, TriggerMode)>, ParseErrorView> {
    if name == "compatible".spec_bytes() {
        if any_compatible_model(strings_from(data, 0)) {
            Ok(found)
        } else {
            Err(
                ParseErrorView::UnexpectedValue {
                    name,
                    value: parse_value(name, data, address_cells, size_cells),
                    reason: "incompatible"@,
                },
            )
        }
    } else if name == "interrupts".spec_bytes() {
        match interrupt {
            Some(i) => Ok(Some(i)),
            None => Err(
                ParseErrorView::UnexpectedValue {
                    name,
                    value: parse_value(name, data, address_cells, size_cells),
                    reason: "expected interrupt #1 to exist"@,
                },
            ),
        }
    } else {
        Ok(found)
    }
}

/// The interrupt of the timer whose node has the properties `properties`, as `intc` reads
/// it, or the first error that a property gives rise to.
pub open spec fn scan_properties<C: Controller>(
    found: Option<(InterruptId, TriggerMode)>,
    properties: Seq<(Seq<u8>, Seq<u8>)>,
    address_cells: u32,
    size_cells: u32,
    intc: &C,
) -> Result<Option<(InterruptId, TriggerMode)>, ParseErrorView>
    decreases properties.len(),
{
    if properties.len() == 0 {
        Ok(found)
    } else {
        match scan_property(
            found,
            properties[0].0,
            properties[0].1,
            address_cells,
            size_cells,
            intc.spec_interrupt_in_device_tree(properties[0].1, TIMER_INTERRUPT_INDEX),
        ) {
            Err(e) => Err(e),
            Ok(next) => scan_properties(next, properties.skip(1), address_cells, size_cells, intc),
        }
    }
}

/// Whether `model` is the `compatible` string of a timer that this driver drives.
fn compatible_model(model: &[u8]) -> (b: bool)
    ensures
        b == is_compatible_model(model@),
{
    name_is(model, "arm,armv7-timer") || name_is(model, "arm,armv8-timer")
}

/// Whether one of the strings of `list` is the `compatible` string of a timer that this
/// driver drives.
fn any_compatible(list: &StringList) -> (b: bool)
    ensures
        b == any_compatible_model(strings_from(list.data@, 0)),
{
    let mut models = list.iter();
    let ghost all = models.remaining();
    let ghost mut seen: int = 0;
    proof {
        assert(all.skip(0) =~= all);
    }
    loop
        invariant
            models.well_formed(),
            all == strings_from(list.data@, 0),
            0 <= seen <= all.len(),
            models.remaining() == all.skip(seen),
            forall|i: int| 0 <= i < seen ==> !is_compatible_model(#[trigger] all[i]),
        decreases all.len() - seen,
    {
        match models.next() {
            None => {
                return false;
            },
            Some(model) => {
                assert(all.skip(seen)[0] == all[seen]);
                if compatible_model(model) {
                    return true;
                }
                proof {
                    assert(all.skip(seen).skip(1) =~= all.skip(seen + 1));
                    seen = seen + 1;
                }
            },
        }
    }
}

impl Timer {
    /// The interrupt that the timer raises.
    pub closed spec fn spec_int_id(&self) -> InterruptId {
        self.int_id
    }

    /// The configuration of the timer's interrupt.
    pub closed spec fn spec_int_config(&self) -> Config {
        self.int_config
    }

    /// The value that the timer counts down from.
    pub closed spec fn spec_reset(&self) -> u32 {
        self.reset_value
    }

    /// Create the timer driver from the node `node` of the device tree, for a timer that
    /// counts at `frequency` ticks per second and is to expire `interval` times per second.
    ///
    /// The interrupt is entry 1 of the node's `interrupts` property, read as `intc` reads
    /// it. A `compatible` property must name a timer that this driver drives. The caller
    /// configures the interrupt with [`Timer::interrupt_config`] and enables it.
    pub fn in_device_tree<'dt, C: Controller>(
        node: NodePropertyIter<'dt>,
        intc: &C,
        frequency: u32,
        interval: u32,
    ) -> (r: Result<Self, ParseError<'dt>>)
        requires
            node.well_formed(),
            interval > 0,
        ensures
            match scan_properties(
                None,
                node.properties(),
                node.address_cells(),
                node.size_cells(),
                intc,
            ) {
                Err(e) => r is Err && r->Err_0@ == e,
                Ok(None) => r is Err && r->Err_0@ == (ParseErrorView::PropertyNotFound {
                    name: "interrupts"@,
                }),
                Ok(Some((id, mode))) => {
                    &&& r is Ok
                    &&& r->Ok_0.spec_int_id() == id
                    &&& r->Ok_0.spec_int_config() == (Config {
                        priority: TIMER_PRIORITY,
                        target_cpu: TIMER_TARGET_CPU,
                        mode,
                    })
                    &&& r->Ok_0.spec_reset() == frequency / interval
                },
            },
    {
        let mut cursor = node;
        let mut found: Option<(InterruptId, TriggerMode)> = None;
        let ghost all = node.properties();
        let ghost address_cells = node.address_cells();
        let ghost size_cells = node.size_cells();
        let ghost mut seen: int = 0;
        proof {
            assert(all.skip(0) =~= all);
        }
        loop
            invariant
                cursor.well_formed(),
                interval > 0,
                all == node.properties(),
                address_cells == node.address_cells(),
                size_cells == node.size_cells(),
                cursor.address_cells() == address_cells,
                cursor.size_cells() == size_cells,
                0 <= seen <= all.len(),
                cursor.properties() == all.skip(seen),
                scan_properties(found, all.skip(seen), address_cells, size_cells, intc)
                    == scan_properties(None, all, address_cells, size_cells, intc),
            decreases all.len() - seen,
        {
            match cursor.next() {
                None => {
                    return match found {
                        None => Err(ParseError::PropertyNotFound { name: "interrupts" }),
                        Some((id, trigger_mode)) => Ok(
                            Self {
                                int_id: id,
                                int_config: Config {
                                    priority: TIMER_PRIORITY,
                                    target_cpu: TIMER_TARGET_CPU,
                                    mode: trigger_mode,
                                },
                                reset_value: frequency / interval,
                            },
                        ),
                    };
                },
                Some((name, value)) => {
                    proof {
                        lemma_names_differ();
                    }
                    if name_is(name, "compatible") {
                        match value {
                            Value::StringList(strings) => {
                                if !any_compatible(&strings) {
                                    return Err(
                                        ParseError::UnexpectedValue {
                                            name,
                                            value,
                                            reason: "incompatible",
                                        },
                                    );
                                }
                            },
                            _ => {
                                return Err(
                                    ParseError::UnexpectedType {
                                        name,
                                        value,
                                        expected_type: "StringList",
                                    },
                                );
                            },
                        }
                    } else if name_is(name, "interrupts") {
                        match value {
                            Value::Bytes(interrupts_blob) => {
                                match intc.interrupt_in_device_tree(
                                    interrupts_blob,
                                    TIMER_INTERRUPT_INDEX,
                                ) {
                                    Some(i) => {
                                        found = Some(i);
                                    },
                                    None => {
                                        return Err(
                                            ParseError::UnexpectedValue {
                                                name,
                                                value,
                                                reason: "expected interrupt #1 to exist",
                                            },
                                        );
                                    },
                                }
                            },
                            _ => {
                                return Err(
                                    ParseError::UnexpectedType {
                                        name,
                                        value,
                                        expected_type: "Bytes",
                                    },
                                );
                            },
                        }
                    }
                    proof {
                        assert(all.skip(seen).skip(1) =~= all.skip(seen + 1));
                        seen = seen + 1;
                    }
                },
            }
        }
    }

    /// The configuration that the timer's interrupt is to have at the controller.
    pub fn interrupt_config(&self) -> (config: Config)
        ensures
            config == self.spec_int_config(),
    {
        self.int_config
    }

    /// Start the timer on the calling core, whose control register holds `control`: the
    /// value to write to the control register, with the timer enabled and its interrupt
    /// not masked, and the value to write to the timer value register.
    pub fn start_for_core(&self, control: TimerControlRegister) -> (r: (TimerControlRegister, u32))
        ensures
            r.0.0 == spec_set_bit_range(
                spec_set_bit_range(
                    control.0,
                    CONTROL_ENABLE as nat,
                    CONTROL_ENABLE as nat,
                    flag(true),
                ),
                CONTROL_IMASK as nat,
                CONTROL_IMASK as nat,
                flag(false),
            ),
            r.1 == self.spec_reset(),
    {
        let control = set_enabled(control, true);
        let control = set_interrupts_enabled(control, true);
        (control, self.reset_value)
    }
}

impl SystemTimer for Timer {
    open spec fn spec_interrupt_id(&self) -> InterruptId {
        self.spec_int_id()
    }

    open spec fn spec_reset_value(&self) -> u32 {
        self.spec_reset()
    }

    fn interrupt_id(&self) -> (id: InterruptId) {
        self.int_id
    }

    fn reset(&self) -> (value: u32) {
        self.reset_value
    }
}

} // verus!
