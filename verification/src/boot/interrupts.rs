//! Interrupts from hardware devices.
use vstd::prelude::*;
use vstd::string::StringSliceAdditionalSpecFns;

use crate::exceptions::interrupt::controller::{controller_in_node, GenericV2};
use crate::exceptions::interrupt::handler::Handler;
use crate::exceptions::interrupt::{Config, RegisterWrite};
use crate::platform::device_tree::fdt::TokenView;
use crate::platform::device_tree::iter::{named_nodes, properties_of};
use crate::platform::device_tree::{
    address_cells_or_default, find_node, size_cells_or_default, DeviceTree, ParseError,
    ParseErrorView,
};
use crate::platform::timer::SystemTimer;
use crate::bits::spec_set_bit_range;
use crate::timer::{
    scan_properties, Timer, TimerControlRegister, CONTROL_ENABLE, CONTROL_IMASK, TIMER_PRIORITY,
    TIMER_TARGET_CPU,
};

verus! {

/// The platform's interrupt controller.
pub type PlatformController = GenericV2;

/// The length of the timer interval in `1/seconds`.
pub const TIMER_INTERVAL: u32 = 10;

/// The interrupt subsystem.
#[derive(Debug, Clone, Copy)]
pub struct InterruptSystem {
    /// The interrupt controller of the system.
    pub controller: PlatformController,
    /// The system timer.
    pub timer: Timer,
    /// The interrupt handler policy.
    pub handler: Handler,
}

/// The base addresses of the registers of the interrupt controller that the tree with the
/// tokens `tokens` describes: of the first node called `intc` under the root.
pub open spec fn controller_in_tree(tokens: Seq<TokenView>) -> Result<(u64, u64), ParseErrorView> {
    match find_node(tokens, "/".spec_bytes(), 0, (None, None)) {
        None => Err(ParseErrorView::PropertyNotFound { name: "/"@ }),
        Some((inside, cells)) => {
            let nodes = named_nodes(
                inside,
                "intc".spec_bytes(),
                (Some(address_cells_or_default(cells)), Some(size_cells_or_default(cells))),
            );
            if nodes.len() == 0 {
                Err(ParseErrorView::PropertyNotFound { name: "/intc"@ })
            } else {
                controller_in_node(nodes[0].properties, nodes[0].address_cells, nodes[0].size_cells)
            }
        },
    }
}

/// The driver of the interrupt controller that the device tree describes.
pub fn find_controller<'a>(device_tree: &DeviceTree<'a>) -> (r: Result<
    PlatformController,
    ParseError<'a>,
>)
    ensures
        match controller_in_tree(device_tree.tokens()) {
            Err(e) => r is Err && r->Err_0@ == e,
            Ok((distributor_base, cpu_base)) => {
                &&& r is Ok
                &&& r->Ok_0.well_formed()
                &&& r->Ok_0.spec_distributor_base() == distributor_base
                &&& r->Ok_0.spec_cpu_base() == cpu_base
            },
        },
{
    let mut nodes = match device_tree.iter_nodes_named("/".as_bytes(), "intc".as_bytes()) {
        Some(nodes) => nodes,
        None => {
            return Err(ParseError::PropertyNotFound { name: "/" });
        },
    };
    let intc_node = match nodes.next() {
        Some(node) => node,
        None => {
            return Err(ParseError::PropertyNotFound { name: "/intc" });
        },
    };
    GenericV2::in_device_tree(intc_node.properties)
}

/// Initialize the interrupt controller, the system timer and the interrupt handler from
/// the device tree, for a timer that counts at `frequency` ticks per second.
///
/// The controller is the first node called `intc` under the root, and the timer is the node
/// `/timer`. The timer expires [`TIMER_INTERVAL`] times per second. The caller performs
/// [`startup_writes`], and [`init_for_core`] for each core.
///
/// # Errors
/// `PropertyNotFound` with the path of a node that the tree lacks; else the error of the
/// controller's driver, or else that of the timer's driver.
pub fn init<'a>(device_tree: &DeviceTree<'a>, frequency: u32) -> (r: Result<
    InterruptSystem,
    ParseError<'a>,
>)
    ensures
        match controller_in_tree(device_tree.tokens()) {
            Err(e) => r is Err && r->Err_0@ == e,
            Ok((distributor_base, cpu_base)) => match find_node(
                device_tree.tokens(),
                "/timer".spec_bytes(),
                0,
                (None, None),
            ) {
                None => r is Err && r->Err_0@ == (ParseErrorView::PropertyNotFound {
                    name: "/timer"@,
                }),
                Some((tokens, cells)) => match scan_properties(
                    None,
                    properties_of(tokens, 1),
                    address_cells_or_default(cells),
                    size_cells_or_default(cells),
                    &GenericV2::spec_new(distributor_base, cpu_base),
                ) {
                    Err(e) => r is Err && r->Err_0@ == e,
                    Ok(None) => r is Err && r->Err_0@ == (ParseErrorView::PropertyNotFound {
                        name: "interrupts"@,
                    }),
                    Ok(Some((id, mode))) => {
                        &&& r is Ok
                        &&& r->Ok_0.controller == GenericV2::spec_new(distributor_base, cpu_base)
                        &&& r->Ok_0.controller.well_formed()
                        &&& r->Ok_0.timer.spec_int_id() == id
                        &&& r->Ok_0.timer.spec_int_config() == (Config {
                            priority: TIMER_PRIORITY,
                            target_cpu: TIMER_TARGET_CPU,
                            mode,
                        })
                        &&& r->Ok_0.timer.spec_reset() == frequency / TIMER_INTERVAL
                        &&& r->Ok_0.handler.timer_interrupt_id() == id
                    },
                },
            },
        },
{
    let controller = find_controller(device_tree)?;
    proof {
        controller.lemma_is(controller.spec_distributor_base(), controller.spec_cpu_base());
    }
    let timer_node = match device_tree.iter_node_properties("/timer".as_bytes()) {
        Some(node) => node,
        None => {
            return Err(ParseError::PropertyNotFound { name: "/timer" });
        },
    };
    let timer = Timer::in_device_tree(timer_node, &controller, frequency, TIMER_INTERVAL)?;
    let handler = Handler::new(&timer);
    Ok(InterruptSystem { controller, timer, handler })
}

/// The register writes that bring the interrupt subsystem up, once: the controller's
/// global initialization, then the configuration of the timer's interrupt, then its
/// enabling.
pub fn startup_writes(system: &InterruptSystem) -> (writes: [RegisterWrite; 4])
    requires
        system.controller.well_formed(),
    ensures
        writes@ == seq![
            RegisterWrite::Word {
                address: (system.controller.spec_distributor_base()
                    + crate::exceptions::interrupt::controller::DIST_CTLR) as u64,
                value: 1,
            },
            system.controller.byte_for_id(
                crate::exceptions::interrupt::controller::DIST_IPRIORITYR,
                system.timer.spec_int_id(),
                system.timer.spec_int_config().priority,
            ),
            system.controller.byte_for_id(
                crate::exceptions::interrupt::controller::DIST_ITARGETSR,
                system.timer.spec_int_id(),
                crate::exceptions::interrupt::controller::TARGET_ALL_CPUS,
            ),
            system.controller.bit_for_id(
                crate::exceptions::interrupt::controller::DIST_ISENABLER,
                system.timer.spec_int_id(),
            ),
        ],
{
    let id = system.timer.interrupt_id();
    let config = system.timer.interrupt_config();
    let configure = system.controller.configure(id, &config);
    let writes = [
        system.controller.global_initialize(),
        configure[0],
        configure[1],
        system.controller.enable(id),
    ];
    assert(writes@ =~= seq![writes@[0], writes@[1], writes@[2], writes@[3]]);
    writes
}

/// Perform initialization for interrupts that needs to happen for each core on the
/// system, whose timer control register holds `control`: the register writes that
/// initialize the controller for the core, the value to write to the timer control
/// register, and the value to write to the timer value register.
pub fn init_for_core(system: &InterruptSystem, control: TimerControlRegister) -> (r: (
    [RegisterWrite; 3],
    TimerControlRegister,
    u32,
))
    requires
        system.controller.well_formed(),
    ensures
        r.0@ == seq![
            RegisterWrite::Word {
                address: (system.controller.spec_cpu_base()
                    + crate::exceptions::interrupt::controller::CPU_CTLR) as u64,
                value: 1,
            },
            RegisterWrite::Word {
                address: (system.controller.spec_cpu_base()
                    + crate::exceptions::interrupt::controller::CPU_PMR) as u64,
                value: 0xff,
            },
            RegisterWrite::Word {
                address: (system.controller.spec_cpu_base()
                    + crate::exceptions::interrupt::controller::CPU_BPR) as u64,
                value: 0,
            },
        ],
        r.1.0 == spec_set_bit_range(
            spec_set_bit_range(control.0, CONTROL_ENABLE as nat, CONTROL_ENABLE as nat, 1),
            CONTROL_IMASK as nat,
            CONTROL_IMASK as nat,
            0,
        ),
        r.2 == system.timer.spec_reset(),
{
    let writes = system.controller.initialize_for_core();
    let (control, timer_value) = system.timer.start_for_core(control);
    (writes, control, timer_value)
}

} // verus!
