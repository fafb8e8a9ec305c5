//! PL011 UART driver.
use vstd::prelude::*;
use vstd::string::StringSliceAdditionalSpecFns;

use crate::memory::KERNEL_TAG;
use crate::platform::device_tree::iter::{properties_of, registers_from, NodePropertyIter};
use crate::platform::device_tree::{find_node, lemma_names_differ, name_is, DeviceTree, Value};

verus! {

/// The address of the UART of the platform that is assumed while nothing else is known.
pub const DEBUG_BASE_ADDRESS: u64 = 0xffff_0000_0900_0000;

/// The PL011 UART object.
#[derive(Debug, Clone, Copy, PartialEq, Eq, Structural)]
pub struct PL011 {
    base_address: u64,
}

/// The base address that the properties `properties` give, where `found` is what the
/// properties before gave: each `reg` property replaces it by the address of its first
/// register region, or by nothing if it has no region or the region is no physical address.
pub open spec fn base_in_node(
    found: Option<u64>,
    properties: Seq<(Seq<u8>, Seq<u8>)>,
    address_cells: u32,
    size_cells: u32,
) -> Option<u64>
    decreases properties.len(),
{
    if properties.len() == 0 {
        found
    } else {
        let regions = registers_from(
            properties[0].1,
            0,
            address_cells as nat,
            size_cells as nat,
        );
        let next = if properties[0].0 == "reg".spec_bytes() {
            if regions.len() > 0 && regions[0].0 < KERNEL_TAG {
                Some(regions[0].0)
            } else {
                None
            }
        } else {
            found
        };
        base_in_node(next, properties.skip(1), address_cells, size_cells)
    }
}

impl PL011 {
    /// The kernel-space address of the device's registers.
    pub closed spec fn spec_base_address(&self) -> u64 {
        self.base_address
    }

    /// The kernel-space address of the device's registers, where each byte to send is
    /// written.
    pub fn base_address(&self) -> (address: u64)
        ensures
            address == self.spec_base_address(),
    {
        self.base_address
    }

    /// Configure the driver using the properties of a device tree node.
    pub fn from_node(node: NodePropertyIter) -> (r: Option<Self>)
        requires
            node.well_formed(),
        ensures
            match base_in_node(None, node.properties(), node.address_cells(), node.size_cells()) {
                None => r is None,
                Some(base) => r is Some && r->0.spec_base_address() == base | KERNEL_TAG,
            },
    {
        let mut cursor = node;
        let mut base_address: Option<u64> = None;
        let ghost all = node.properties();
        let ghost address_cells = node.address_cells();
        let ghost size_cells = node.size_cells();
        let ghost mut seen: int = 0;
        proof {
            assert(all.skip(0) =~= all);
        }
        loop
            invariant
                cursor.well_formed(),
                all == node.properties(),
                address_cells == node.address_cells(),
                size_cells == node.size_cells(),
                cursor.address_cells() == address_cells,
                cursor.size_cells() == size_cells,
                0 <= seen <= all.len(),
                cursor.properties() == all.skip(seen),
                base_in_node(base_address, all.skip(seen), address_cells, size_cells)
                    == base_in_node(None, all, address_cells, size_cells),
            decreases all.len() - seen,
        {
            match cursor.next() {
                None => {
                    return match base_address {
                        None => None,
                        Some(base) => Some(PL011 { base_address: base | KERNEL_TAG }),
                    };
                },
                Some((name, value)) => {
                    proof {
                        lemma_names_differ();
                    }
                    if name_is(name, "reg") {
                        if let Value::Reg(r) = value {
                            let mut regions = r.iter();
                            base_address = match regions.next() {
                                Some((base, _)) => if base < KERNEL_TAG {
                                    Some(base)
                                } else {
                                    None
                                },
                                None => None,
                            };
                        }
                    }
                    proof {
                        assert(all.skip(seen).skip(1) =~= all.skip(seen + 1));
                        seen = seen + 1;
                    }
                },
            }
        }
    }

    /// Configure the driver using information from the device tree node at `path`.
    pub fn from_device_tree(dt: &DeviceTree, path: &[u8]) -> (r: Option<Self>)
        ensures
            match find_node(dt.tokens(), path@, 0, (None, None)) {
                None => r is None,
                Some((tokens, cells)) => match base_in_node(
                    None,
                    properties_of(tokens, 1),
                    crate::platform::device_tree::address_cells_or_default(cells),
                    crate::platform::device_tree::size_cells_or_default(cells),
                ) {
                    None => r is None,
                    Some(base) => r is Some && r->0.spec_base_address() == base | KERNEL_TAG,
                },
            },
    {
        match dt.iter_node_properties(path) {
            None => None,
            Some(node) => Self::from_node(node),
        }
    }

    /// Create a UART for debugging purposes that will probably work but requires no
    /// configuration.
    pub fn from_platform_debug_best_guess() -> (uart: Self)
        ensures
            uart.spec_base_address() == DEBUG_BASE_ADDRESS,
    {
        PL011 { base_address: DEBUG_BASE_ADDRESS }
    }
}

} // verus!
