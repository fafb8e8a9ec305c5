//! Driver for the ARM Generic Interrupt Controller version 2.
//!
//! The driver knows where each register of the controller lies and what to write there. It
//! does not write: each operation hands back the register writes that the owner of the
//! device performs in order.
use vstd::prelude::*;
use vstd::string::StringSliceAdditionalSpecFns;

use super::{Config, Controller, Id, RegisterWrite, TriggerMode};
use crate::memory::KERNEL_TAG;
use crate::platform::device_tree::fdt::{be_u32, read_u32_at};
use crate::platform::device_tree::iter::{registers_from, NodePropertyIter};
use crate::platform::device_tree::{
    lemma_names_differ, name_is, parse_value, strings_from, ParseError, ParseErrorView,
    StringList, Value,
};

verus! {

/// Offset of the distributor control register.
pub const DIST_CTLR: u64 = 0x0000;

/// Offset of the first distributor set-enable register.
pub const DIST_ISENABLER: u64 = 0x0100;

/// Offset of the first distributor clear-enable register.
pub const DIST_ICENABLER: u64 = 0x0180;

/// Offset of the first distributor clear-pending register.
pub const DIST_ICPENDR: u64 = 0x0280;

/// Offset of the first distributor priority register.
pub const DIST_IPRIORITYR: u64 = 0x0400;

/// Offset of the first distributor processor targets register.
pub const DIST_ITARGETSR: u64 = 0x0800;

/// Offset of the CPU interface control register.
pub const CPU_CTLR: u64 = 0x0000;

/// Offset of the CPU interface priority mask register.
pub const CPU_PMR: u64 = 0x0004;

/// Offset of the CPU interface binary point register.
pub const CPU_BPR: u64 = 0x0008;

/// Offset of the CPU interface interrupt acknowledge register.
pub const CPU_IAR: u64 = 0x000c;

/// Offset of the CPU interface end of interrupt register.
pub const CPU_EOIR: u64 = 0x0010;

/// Interrupt ID that represents no interrupt pending.
pub const INTID_NONE_PENDING: Id = 1023;

/// The target byte that routes an interrupt to every CPU.
pub const TARGET_ALL_CPUS: u8 = 0xff;

/// The first interrupt id of the shared peripheral interrupts.
pub const SPI_BASE: u32 = 32;

/// The first interrupt id of the private peripheral interrupts.
pub const PPI_BASE: u32 = 16;

/// The number of bytes of one entry of an `interrupts` property.
pub const INTERRUPT_ENTRY_SIZE: usize = 12;

/// The driver for a version 2 generic interrupt controller.
#[derive(Debug, Clone, Copy, PartialEq, Eq, Structural)]
pub struct GenericV2 {
    distributor_base: u64,
    cpu_base: u64,
}

/// Whether `model` is the `compatible` string of a controller that this driver drives.
pub open spec fn is_compatible_model(model: Seq<u8>) -> bool {
    ||| model == "arm,arm11mp-gic".spec_bytes()
    ||| model == "arm,cortex-a15-gic".spec_bytes()
    ||| model == "arm,cortex-a7-gic".spec_bytes()
    ||| model == "arm,cortex-a5-gic".spec_bytes()
    ||| model == "arm,cortex-a9-gic".spec_bytes()
    ||| model == "arm,eb11mp-gic".spec_bytes()
    ||| model == "arm,gic-400".spec_bytes()
    ||| model == "arm,pl390".spec_bytes()
    ||| model == "arm,tc11mp-gic".spec_bytes()
    ||| model == "qcom,msm-8660-qgic".spec_bytes()
    ||| model == "qcom,msm-qgic2".spec_bytes()
}

/// Whether one of `models` is the `compatible` string of a controller that this driver
/// drives.
pub open spec fn any_compatible_model(models: Seq<Seq<u8>>) -> bool {
    exists|i: int| 0 <= i < models.len() && is_compatible_model(#[trigger] models[i])
}

/// What has been learned of a controller's node so far.
pub struct NodeScan {
    /// Whether the `interrupt-controller` property has been seen.
    pub found_marker_property: bool,
    /// The base address of the distributor registers, zero while unknown.
    pub distributor_base: u64,
    /// The base address of the CPU interface registers, zero while unknown.
    pub cpu_base: u64,
}

/// The error for a property `name` with the bytes `data` that has an unexpected value.
pub open spec fn unexpected_value(
    name: Seq<u8>,
    data: Seq<u8>,
    address_cells: u32,
    size_cells: u32,
    reason: &str,
) -> ParseErrorView {
    ParseErrorView::UnexpectedValue {
        name,
        value: parse_value(name, data, address_cells, size_cells),
        reason: reason@,
    }
}

/// What the property `name` with the bytes `data` adds to what is known of the node, or
/// the error that it gives rise to.
pub open spec fn scan_property(
    scan: NodeScan,
    name: Seq<u8>,
    data: Seq<u8>,
    address_cells: u32,
    size_cells: u32,
) -> Result<NodeScan, ParseErrorView> {
    if name == "compatible".spec_bytes() {
        if any_compatible_model(strings_from(data, 0)) {
            Ok(scan)
        } else {
            Err(unexpected_value(name, data, address_cells, size_cells, "incompatible"))
        }
    } else if name == "#interrupt-cells".spec_bytes() {
        if data.len() == 4 && be_u32(data) == 3 {
            Ok(scan)
        } else {
            Err(
                unexpected_value(
                    name,
                    data,
                    address_cells,
                    size_cells,
                    "driver supports GICv2 with #interrupt-cells=3 only",
                ),
            )
        }
    } else if name == "interrupt-controller".spec_bytes() {
        Ok(NodeScan { found_marker_property: true, ..scan })
    } else if name == "reg".spec_bytes() {
        let regions = registers_from(data, 0, address_cells as nat, size_cells as nat);
        if regions.len() < 1 {
            Err(
                unexpected_value(
                    name,
                    data,
                    address_cells,
                    size_cells,
                    "distributor register region to be present",
                ),
            )
        } else if regions.len() < 2 {
            Err(
                unexpected_value(
                    name,
                    data,
                    address_cells,
                    size_cells,
                    "cpu register region to be present",
                ),
            )
        } else if regions[0].0 >= KERNEL_TAG || regions[1].0 >= KERNEL_TAG {
            Err(
                unexpected_value(
                    name,
                    data,
                    address_cells,
                    size_cells,
                    "register regions to be physical addresses",
                ),
            )
        } else {
            Ok(NodeScan { distributor_base: regions[0].0, cpu_base: regions[1].0, ..scan })
        }
    } else {
        Ok(scan)
    }
}

/// What the properties `properties`, read in order, add to what is known of the node, or
/// the first error that one of them gives rise to.
pub open spec fn scan_properties(
    scan: NodeScan,
    properties: Seq<(Seq<u8>, Seq<u8>)>,
    address_cells: u32,
    size_cells: u32,
) -> Result<NodeScan, ParseErrorView>
    decreases properties.len(),
{
    if properties.len() == 0 {
        Ok(scan)
    } else {
        match scan_property(scan, properties[0].0, properties[0].1, address_cells, size_cells) {
            Err(e) => Err(e),
            Ok(next) => scan_properties(next, properties.skip(1), address_cells, size_cells),
        }
    }
}

/// The error for a property called `name` that a node lacks.
pub open spec fn property_not_found(name: &str) -> ParseErrorView {
    ParseErrorView::PropertyNotFound { name: name@ }
}

/// The base addresses of the distributor and of the CPU interface that a node with the
/// properties `properties` describes, or the error that keeps the node from describing a
/// controller for this driver.
pub open spec fn controller_in_node(
    properties: Seq<(Seq<u8>, Seq<u8>)>,
    address_cells: u32,
    size_cells: u32,
) -> Result<(u64, u64), ParseErrorView> {
    match scan_properties(
        NodeScan { found_marker_property: false, distributor_base: 0, cpu_base: 0 },
        properties,
        address_cells,
        size_cells,
    ) {
        Err(e) => Err(e),
        Ok(scan) => {
            if !scan.found_marker_property {
                Err(property_not_found("interrupt-controller"))
            } else if scan.distributor_base == 0 {
                Err(property_not_found("distributor base address"))
            } else if scan.cpu_base == 0 {
                Err(property_not_found("CPU base address"))
            } else {
                Ok((scan.distributor_base, scan.cpu_base))
            }
        },
    }
}

/// The interrupt that entry `index` of the `interrupts` property `data` names: each entry
/// is three cells, of which the first tells shared (0) from private (1) peripheral
/// interrupts, the second counts from the first interrupt of that kind, and the low four
/// bits of the third give the trigger mode.
pub open spec fn interrupt_entry(data: Seq<u8>, index: usize) -> Option<(Id, TriggerMode)> {
    if (index + 1) * INTERRUPT_ENTRY_SIZE > data.len() {
        None
    } else {
        let entry = data.skip(index * INTERRUPT_ENTRY_SIZE);
        let kind = be_u32(entry);
        let number = be_u32(entry.skip(4));
        let flags = entry[11] & 0x0f;
        let first_id = if kind == 0 {
            SPI_BASE
        } else {
            PPI_BASE
        };
        if kind > 1 || first_id + number > u32::MAX {
            None
        } else if flags == 0b0001 || flags == 0b0010 {
            Some(((first_id + number) as u32, TriggerMode::Edge))
        } else if flags == 0b0100 || flags == 0b1000 {
            Some(((first_id + number) as u32, TriggerMode::Level))
        } else {
            None
        }
    }
}

/// Whether `model` is the `compatible` string of a controller that this driver drives.
fn compatible_model(model: &[u8]) -> (b: bool)
    ensures
        b == is_compatible_model(model@),
{
    name_is(model, "arm,arm11mp-gic") || name_is(model, "arm,cortex-a15-gic") || name_is(
        model,
        "arm,cortex-a7-gic",
    ) || name_is(model, "arm,cortex-a5-gic") || name_is(model, "arm,cortex-a9-gic") || name_is(
        model,
        "arm,eb11mp-gic",
    ) || name_is(model, "arm,gic-400") || name_is(model, "arm,pl390") || name_is(
        model,
        "arm,tc11mp-gic",
    ) || name_is(model, "qcom,msm-8660-qgic") || name_is(model, "qcom,msm-qgic2")
}

/// Whether one of the strings of `list` is the `compatible` string of a controller that
/// this driver drives.
fn any_compatible(list: &StringList) -> (b: bool)
    ensures
        b == any_compatible_model(strings_from(list.data@, 0)),
{
    let mut models = list.iter();
    let ghost all = models.remaining();
    let ghost mut seen: int = 0;
    proof {
        assert(all.skip(0) =~= all);
    }
    loop
        invariant
            models.well_formed(),
            all == strings_from(list.data@, 0),
            0 <= seen <= all.len(),
            models.remaining() == all.skip(seen),
            forall|i: int| 0 <= i < seen ==> !is_compatible_model(#[trigger] all[i]),
        decreases all.len() - seen,
    {
        match models.next() {
            None => {
                return false;
            },
            Some(model) => {
                assert(all.skip(seen)[0] == all[seen]);
                if compatible_model(model) {
                    return true;
                }
                proof {
                    assert(all.skip(seen).skip(1) =~= all.skip(seen + 1));
                    seen = seen + 1;
                }
            },
        }
    }
}

impl GenericV2 {
    /// The base address of the distributor registers.
    pub closed spec fn spec_distributor_base(&self) -> u64 {
        self.distributor_base
    }

    /// The base address of the CPU interface registers.
    pub closed spec fn spec_cpu_base(&self) -> u64 {
        self.cpu_base
    }

    /// The driver for the controller whose distributor registers start at
    /// `distributor_base` and whose CPU interface registers start at `cpu_base`.
    pub closed spec fn spec_new(distributor_base: u64, cpu_base: u64) -> GenericV2 {
        GenericV2 { distributor_base, cpu_base }
    }

    /// A driver is the driver for its two base addresses.
    pub proof fn lemma_is(&self, distributor_base: u64, cpu_base: u64)
        requires
            self.spec_distributor_base() == distributor_base,
            self.spec_cpu_base() == cpu_base,
        ensures
            *self == Self::spec_new(distributor_base, cpu_base),
    {
    }

    /// The condition under which both register regions are physical addresses.
    pub open spec fn well_formed(&self) -> bool {
        self.spec_distributor_base() < KERNEL_TAG && self.spec_cpu_base() < KERNEL_TAG
    }

    /// A driver for the controller whose distributor registers start at
    /// `distributor_base` and whose CPU interface registers start at `cpu_base`.
    pub fn new(distributor_base: u64, cpu_base: u64) -> (gic: Self)
        requires
            distributor_base < KERNEL_TAG,
            cpu_base < KERNEL_TAG,
        ensures
            gic.well_formed(),
            gic.spec_distributor_base() == distributor_base,
            gic.spec_cpu_base() == cpu_base,
    {
        Self { distributor_base, cpu_base }
    }

    /// The base address of the distributor registers.
    pub fn distributor_base(&self) -> (base: u64)
        ensures
            base == self.spec_distributor_base(),
    {
        self.distributor_base
    }

    /// The base address of the CPU interface registers.
    pub fn cpu_base(&self) -> (base: u64)
        ensures
            base == self.spec_cpu_base(),
    {
        self.cpu_base
    }

    /// Reads one property of a controller's node.
    fn scan<'dt>(
        scan: (bool, u64, u64),
        name: &'dt [u8],
        value: Value<'dt>,
        Ghost(data): Ghost<Seq<u8>>,
        Ghost(address_cells): Ghost<u32>,
        Ghost(size_cells): Ghost<u32>,
    ) -> (r: Result<(bool, u64, u64), ParseError<'dt>>)
        requires
            value@ == parse_value(name@, data, address_cells, size_cells),
        ensures
            match scan_property(
                NodeScan {
                    found_marker_property: scan.0,
                    distributor_base: scan.1,
                    cpu_base: scan.2,
                },
                name@,
                data,
                address_cells,
                size_cells,
            ) {
                Err(e) => r is Err && r->Err_0@ == e,
                Ok(next) => r == Ok::<(bool, u64, u64), ParseError<'dt>>(
                    (next.found_marker_property, next.distributor_base, next.cpu_base),
                ),
            },
    {
        if name_is(name, "compatible") {
            let strings = match value.as_strings(name) {
                Ok(s) => s,
                Err(e) => {
                    return Err(e);
                },
            };
            if any_compatible(&strings) {
                Ok(scan)
            } else {
                Err(ParseError::UnexpectedValue { name, value, reason: "incompatible" })
            }
        } else if name_is(name, "#interrupt-cells") {
            proof {
                lemma_names_differ();
            }
            let n = match value.as_bytes(name) {
                Ok(n) => n,
                Err(e) => {
                    return Err(e);
                },
            };
            if n.len() == 4 && read_u32_at(n, 0) == 3 {
                proof {
                    assert(n@.skip(0) =~= n@);
                }
                Ok(scan)
            } else {
                Err(
                    ParseError::UnexpectedValue {
                        name,
                        value,
                        reason: "driver supports GICv2 with #interrupt-cells=3 only",
                    },
                )
            }
        } else if name_is(name, "interrupt-controller") {
            Ok((true, scan.1, scan.2))
        } else if name_is(name, "reg") {
            proof {
                lemma_names_differ();
            }
            let registers = match value.as_reg(name) {
                Ok(r) => r,
                Err(e) => {
                    return Err(e);
                },
            };
            let mut regs = registers.iter();
            let distributor = match regs.next() {
                Some((base, _)) => base,
                None => {
                    return Err(
                        ParseError::UnexpectedValue {
                            name,
                            value,
                            reason: "distributor register region to be present",
                        },
                    );
                },
            };
            let cpu = match regs.next() {
                Some((base, _)) => base,
                None => {
                    return Err(
                        ParseError::UnexpectedValue {
                            name,
                            value,
                            reason: "cpu register region to be present",
                        },
                    );
                },
            };
            if distributor >= KERNEL_TAG || cpu >= KERNEL_TAG {
                return Err(
                    ParseError::UnexpectedValue {
                        name,
                        value,
                        reason: "register regions to be physical addresses",
                    },
                );
            }
            Ok((scan.0, distributor, cpu))
        } else {
            Ok(scan)
        }
    }

    /// Create the GIC driver from configuration found in the device tree.
    ///
    /// The node must carry the marker property `interrupt-controller` and a `reg` property
    /// with the distributor's and the CPU interface's register regions, in that order. A
    /// `compatible` property must name a controller that this driver drives, and
    /// `#interrupt-cells` must be three.
    pub fn in_device_tree<'dt>(node: NodePropertyIter<'dt>) -> (r: Result<Self, ParseError<'dt>>)
        requires
            node.well_formed(),
        ensures
            match controller_in_node(node.properties(), node.address_cells(), node.size_cells()) {
                Err(e) => r is Err && r->Err_0@ == e,
                Ok((distributor_base, cpu_base)) => {
                    &&& r is Ok
                    &&& r->Ok_0.well_formed()
                    &&& r->Ok_0.spec_distributor_base() == distributor_base
                    &&& r->Ok_0.spec_cpu_base() == cpu_base
                },
            },
    {
        let mut cursor = node;
        let mut scan: (bool, u64, u64) = (false, 0, 0);
        let ghost all = node.properties();
        let ghost address_cells = node.address_cells();
        let ghost size_cells = node.size_cells();
        let ghost mut seen: int = 0;
        proof {
            assert(all.skip(0) =~= all);
        }
        loop
            invariant
                cursor.well_formed(),
                all == node.properties(),
                address_cells == node.address_cells(),
                size_cells == node.size_cells(),
                cursor.address_cells() == address_cells,
                cursor.size_cells() == size_cells,
                0 <= seen <= all.len(),
                cursor.properties() == all.skip(seen),
                scan.1 < KERNEL_TAG,
                scan.2 < KERNEL_TAG,
                scan_properties(
                    NodeScan {
                        found_marker_property: scan.0,
                        distributor_base: scan.1,
                        cpu_base: scan.2,
                    },
                    all.skip(seen),
                    address_cells,
                    size_cells,
                ) == scan_properties(
                    NodeScan { found_marker_property: false, distributor_base: 0, cpu_base: 0 },
                    all,
                    address_cells,
                    size_cells,
                ),
            decreases all.len() - seen,
        {
            match cursor.next() {
                None => {
                    if !scan.0 {
                        return Err(ParseError::PropertyNotFound { name: "interrupt-controller" });
                    }
                    if scan.1 == 0 {
                        return Err(
                            ParseError::PropertyNotFound { name: "distributor base address" },
                        );
                    }
                    if scan.2 == 0 {
                        return Err(ParseError::PropertyNotFound { name: "CPU base address" });
                    }
                    return Ok(Self { distributor_base: scan.1, cpu_base: scan.2 });
                },
                Some((name, value)) => {
                    let ghost data = all.skip(seen)[0].1;
                    match Self::scan(
                        scan,
                        name,
                        value,
                        Ghost(data),
                        Ghost(address_cells),
                        Ghost(size_cells),
                    ) {
                        Err(e) => {
                            return Err(e);
                        },
                        Ok(next) => {
                            scan = next;
                        },
                    }
                    proof {
                        assert(all.skip(seen).skip(1) =~= all.skip(seen + 1));
                        seen = seen + 1;
                    }
                },
            }
        }
    }

    /// Prepare the controller for handling interrupts generally: enable the forwarding of
    /// group 1 interrupts in the distributor.
    pub fn global_initialize(&self) -> (write: RegisterWrite)
        requires
            self.well_formed(),
        ensures
            write == (RegisterWrite::Word {
                address: (self.spec_distributor_base() + DIST_CTLR) as u64,
                value: 1,
            }),
    {
        RegisterWrite::Word { address: self.distributor_base + DIST_CTLR, value: 0x1 }
    }

    /// Prepare the controller for handling interrupts for the current core: enable group 1
    /// interrupts in the CPU interface, let every priority pass, and disable priority
    /// grouping.
    pub fn initialize_for_core(&self) -> (writes: [RegisterWrite; 3])
        requires
            self.well_formed(),
        ensures
            writes@ == seq![
                RegisterWrite::Word {
                    address: (self.spec_cpu_base() + CPU_CTLR) as u64,
                    value: 1,
                },
                RegisterWrite::Word {
                    address: (self.spec_cpu_base() + CPU_PMR) as u64,
                    value: 0xff,
                },
                RegisterWrite::Word {
                    address: (self.spec_cpu_base() + CPU_BPR) as u64,
                    value: 0,
                },
            ],
    {
        let writes = [
            RegisterWrite::Word { address: self.cpu_base + CPU_CTLR, value: 0b0000_0000_0000_0001 },
            RegisterWrite::Word { address: self.cpu_base + CPU_PMR, value: 0xff },
            RegisterWrite::Word { address: self.cpu_base + CPU_BPR, value: 0x00 },
        ];
        assert(writes@ =~= seq![writes@[0], writes@[1], writes@[2]]);
        writes
    }

    /// The address of the word that holds the bit of interrupt `id` in the bank of
    /// registers at `register`, and the word with that bit alone set.
    pub open spec fn bit_for_id(&self, register: u64, id: Id) -> RegisterWrite {
        RegisterWrite::Word {
            address: (self.spec_distributor_base() + register + 4 * (id / 32)) as u64,
            value: 1u32 << (id % 32),
        }
    }

    /// The address of the byte of interrupt `id` in the bank of registers at `register`,
    /// with the value to write there.
    pub open spec fn byte_for_id(&self, register: u64, id: Id, value: u8) -> RegisterWrite {
        RegisterWrite::Byte {
            address: (self.spec_distributor_base() + register + id) as u64,
            value,
        }
    }

    /// The write that sets the bit of interrupt `id` in the bank of registers at
    /// `register`.
    fn write_bit_for_id(&self, register: u64, id: Id) -> (write: RegisterWrite)
        requires
            self.well_formed(),
            register <= 0x1000,
        ensures
            write == self.bit_for_id(register, id),
    {
        let (word_offset, bit_offset) = id_to_bit_offset(id);
        assert(bit_offset < 32);
        RegisterWrite::Word {
            address: self.distributor_base + register + 4 * (word_offset as u64),
            value: 1u32 << bit_offset,
        }
    }

    /// The write that sets the byte of interrupt `id` in the bank of registers at
    /// `register`.
    fn write_byte_for_id(&self, register: u64, id: Id, value: u8) -> (write: RegisterWrite)
        requires
            self.well_formed(),
            register <= 0x1000,
        ensures
            write == self.byte_for_id(register, id, value),
    {
        RegisterWrite::Byte { address: self.distributor_base + register + id as u64, value }
    }

    /// Set the configuration of an interrupt: its priority, and every CPU as its target
    /// (whatever `config` names as target).
    pub fn configure(&self, id: Id, config: &Config) -> (writes: [RegisterWrite; 2])
        requires
            self.well_formed(),
        ensures
            writes@ == seq![
                self.byte_for_id(DIST_IPRIORITYR, id, config.priority),
                self.byte_for_id(DIST_ITARGETSR, id, TARGET_ALL_CPUS),
            ],
    {
        let writes = [
            self.write_byte_for_id(DIST_IPRIORITYR, id, config.priority),
            self.write_byte_for_id(DIST_ITARGETSR, id, TARGET_ALL_CPUS),
        ];
        assert(writes@ =~= seq![writes@[0], writes@[1]]);
        writes
    }

    /// Enable an interrupt to raise an exception.
    pub fn enable(&self, id: Id) -> (write: RegisterWrite)
        requires
            self.well_formed(),
        ensures
            write == self.bit_for_id(DIST_ISENABLER, id),
    {
        self.write_bit_for_id(DIST_ISENABLER, id)
    }

    /// Disable an interrupt from raising an exception.
    pub fn disable(&self, id: Id) -> (write: RegisterWrite)
        requires
            self.well_formed(),
        ensures
            write == self.bit_for_id(DIST_ICENABLER, id),
    {
        self.write_bit_for_id(DIST_ICENABLER, id)
    }

    /// Clear the pending state for this interrupt.
    pub fn clear_pending(&self, id: Id) -> (write: RegisterWrite)
        requires
            self.well_formed(),
        ensures
            write == self.bit_for_id(DIST_ICPENDR, id),
    {
        self.write_bit_for_id(DIST_ICPENDR, id)
    }

    /// The address of the interrupt acknowledge register, which is read to acknowledge an
    /// interrupt.
    pub fn acknowledge_register(&self) -> (address: u64)
        requires
            self.well_formed(),
        ensures
            address == self.spec_cpu_base() + CPU_IAR,
    {
        self.cpu_base + CPU_IAR
    }

    /// Interpret `acknowledged`, the value read from the interrupt acknowledge register:
    /// the ID of the interrupt that was triggered, or `None` for the value that says that
    /// no interrupt is pending.
    pub fn ack_interrupt(&self, acknowledged: u32) -> (r: Option<Id>)
        ensures
            acknowledged == INTID_NONE_PENDING ==> r is None,
            acknowledged != INTID_NONE_PENDING ==> r == Some(acknowledged),
    {
        if acknowledged == INTID_NONE_PENDING {
            None
        } else {
            Some(acknowledged)
        }
    }

    /// Inform the interrupt controller that the system has finished processing an
    /// interrupt.
    pub fn finish_interrupt(&self, id: Id) -> (write: RegisterWrite)
        requires
            self.well_formed(),
        ensures
            write == (RegisterWrite::Word {
                address: (self.spec_cpu_base() + CPU_EOIR) as u64,
                value: id,
            }),
    {
        RegisterWrite::Word { address: self.cpu_base + CPU_EOIR, value: id }
    }
}

/// The word and the bit in it that stand for interrupt `id` in a bank of one bit per
/// interrupt.
pub fn id_to_bit_offset(id: Id) -> (r: (usize, u32))
    ensures
        r.0 == id / 32,
        r.1 == id % 32,
{
    ((id / 32) as usize, (id % 32))
}

impl Controller for GenericV2 {
    open spec fn spec_interrupt_in_device_tree(&self, data: Seq<u8>, index: usize) -> Option<
        (Id, TriggerMode),
    > {
        interrupt_entry(data, index)
    }

    fn interrupt_in_device_tree(&self, data: &[u8], index: usize) -> (r: Option<(Id, TriggerMode)>) {
        if index >= data.len() / INTERRUPT_ENTRY_SIZE {
            return None;
        }
        let start = index * INTERRUPT_ENTRY_SIZE;
        let first_cell = read_u32_at(data, start);
        let second_cell = read_u32_at(data, start + 4);
        let flags = data[start + 11] & 0x0f;
        proof {
            let entry = data@.skip(start as int);
            assert(entry.skip(4) =~= data@.skip(start + 4));
            assert(entry[11] == data@[start + 11]);
        }
        let first_id = match first_cell {
            0 => SPI_BASE,
            1 => PPI_BASE,
            _ => {
                return None;
            },
        };
        let id = match first_id.checked_add(second_cell) {
            Some(id) => id,
            None => {
                return None;
            },
        };
        let trigger_mode = match flags {
            0b0001 | 0b0010 => TriggerMode::Edge,
            0b0100 | 0b1000 => TriggerMode::Level,
            _ => {
                return None;
            },
        };
        Some((id, trigger_mode))
    }
}

} // verus!
