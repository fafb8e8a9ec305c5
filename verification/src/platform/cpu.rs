//! CPU management
use vstd::prelude::*;
use vstd::string::StringSliceAdditionalSpecFns;

use crate::memory::{
    Error as MemoryError, PageAllocator, PageSize, PhysicalAddress, VirtualAddress, KERNEL_TAG,
};
use crate::platform::device_tree::fdt::{bytes_eq, copy_bytes};
use crate::platform::device_tree::iter::{
    named_nodes, registers_from, NamedNodeView, NodePropertyIter,
};
use crate::platform::device_tree::{
    address_cells_or_default, find_node, lemma_names_differ, name_is, size_cells_or_default,
    DeviceTree, OwnedParseError, ParseError, ParseErrorView,
};

verus! {

/// A unique identifier for a single CPU core.
pub type Id = u64;

/// Fetches the current CPU [`Id`].
pub trait CpuIdReader {
    /// The current CPU [`Id`] that is executing.
    fn current_cpu() -> Id;
}

/// Errors that occur due to power management operations.
#[derive(Debug, Clone, Copy, PartialEq, Eq, Structural)]
pub enum PowerManagerError {
    /// Target core ID is invalid.
    InvalidCoreId,
    /// Entry point address is invalid.
    InvalidAddress,
    /// The target core is already on.
    AlreadyOn,
    /// The target core is still booting.
    Pending,
    /// A miscellaneous internal error has occured.
    Internal,
}

/// Mechanism interface for managing CPU power state.
pub trait PowerManager {
    /// Powers on a core that is currently off.
    /// The core will start executing at `entry_point_address`, with `arg` passed as the
    /// argument.
    ///
    /// # Errors
    /// Returns an error if the underlying hardware interface fails to start the core or
    /// rejects the given parameters.
    fn start_core(&mut self, target_core: Id, entry_point_address: PhysicalAddress, arg: u64) -> Result<
        (),
        PowerManagerError,
    >;

    /// The string value of the "enable-method" device tree property that indicates that a
    /// core can be enabled with this interface.
    ///
    /// A verified implementation says here what [`PowerManager::enable_method_name`] returns.
    open spec fn spec_enable_method_name() -> Seq<u8> {
        arbitrary()
    }

    /// The string value of the "enable-method" device tree property that indicates that a
    /// core can be enabled with this interface.
    fn enable_method_name() -> (name: &'static [u8])
        ensures
            name@ == Self::spec_enable_method_name(),
    ;
}

/// Errors that can occur during SMP bring-up.
#[derive(Debug)]
#[allow(inconsistent_fields)]
pub enum BootAllCoresError {
    /// An "enable-method" was given that is unsupported.
    UnsupportedEnableMethod {
        /// The method that we don't support.
        method: Vec<u8>,
    },
    /// Error occured actually starting a core.
    Power {
        /// Underlying error.
        source: PowerManagerError,
    },
    /// Failed to allocate stack for new core thread.
    Memory {
        /// Underlying error.
        source: MemoryError,
    },
}

/// Information about a core from the device tree.
#[derive(Debug, Clone, Copy)]
pub struct CoreInfo<'dt> {
    /// The CPU ID of the core.
    pub id: Id,
    /// The method required to enable the core at boot.
    pub enable_method: &'dt [u8],
}

/// Information about a core, as the numbers and bytes it holds.
pub struct CoreInfoView {
    /// The CPU ID of the core.
    pub id: Id,
    /// The method required to enable the core at boot.
    pub enable_method: Seq<u8>,
}

impl<'dt> View for CoreInfo<'dt> {
    type V = CoreInfoView;

    open spec fn view(&self) -> CoreInfoView {
        CoreInfoView { id: self.id, enable_method: self.enable_method@ }
    }
}

/// What the property `name` with the bytes `data` adds to what is known of a core
/// (`found`: its id and its enable method), or the error that it gives rise to.
pub open spec fn scan_core_property(
    found: (Option<Id>, Option<Seq<u8>>),
    name: Seq<u8>,
    data: Seq<u8>,
    address_cells: u32,
    size_cells: u32,
) -> Result<(Option<Id>, Option<Seq<u8>>), ParseErrorView> {
    if name == "enable-method".spec_bytes() {
        Ok((found.0, Some(data)))
    } else if name == "reg".spec_bytes() {
        let regions = registers_from(data, 0, address_cells as nat, size_cells as nat);
        if regions.len() == 0 {
            Err(ParseErrorView::PropertyNotFound { name: "reg"@ })
        } else {
            Ok((Some(regions[0].0), found.1))
        }
    } else {
        Ok(found)
    }
}

/// What the properties `properties`, read in order, add to what is known of a core, or the
/// first error that one of them gives rise to.
pub open spec fn scan_core_properties(
    found: (Option<Id>, Option<Seq<u8>>),
    properties: Seq<(Seq<u8>, Seq<u8>)>,
    address_cells: u32,
    size_cells: u32,
) -> Result<(Option<Id>, Option<Seq<u8>>), ParseErrorView>
    decreases properties.len(),
{
    if properties.len() == 0 {
        Ok(found)
    } else {
        match scan_core_property(
            found,
            properties[0].0,
            properties[0].1,
            address_cells,
            size_cells,
        ) {
            Err(e) => Err(e),
            Ok(next) => scan_core_properties(next, properties.skip(1), address_cells, size_cells),
        }
    }
}

/// The core that the node `node` describes: its id is the address of the first region of
/// its last `reg` property, and its enable method is the value of its last `enable-method`
/// property. A node that lacks either gives `PropertyNotFound`.
pub open spec fn core_in_node(node: NamedNodeView) -> Result<CoreInfoView, ParseErrorView> {
    match scan_core_properties(
        (None, None),
        node.properties,
        node.address_cells,
        node.size_cells,
    ) {
        Err(e) => Err(e),
        Ok((None, _)) => Err(ParseErrorView::PropertyNotFound { name: "reg"@ }),
        Ok((Some(_), None)) => Err(ParseErrorView::PropertyNotFound { name: "enable-method"@ }),
        Ok((Some(id), Some(enable_method))) => Ok(CoreInfoView { id, enable_method }),
    }
}

/// The cores that the nodes `nodes` describe, in order, or the error of the first node
/// that does not describe a core.
pub open spec fn cores_in_nodes(nodes: Seq<NamedNodeView>) -> Result<
    Seq<CoreInfoView>,
    ParseErrorView,
>
    decreases nodes.len(),
{
    if nodes.len() == 0 {
        Ok(Seq::empty())
    } else {
        match core_in_node(nodes[0]) {
            Err(e) => Err(e),
            Ok(core) => match cores_in_nodes(nodes.skip(1)) {
                Err(e) => Err(e),
                Ok(cores) => Ok(seq![core] + cores),
            },
        }
    }
}

/// The cores that the tree with the tokens `tokens` describes: the nodes called `cpu`
/// under `/cpus`.
pub open spec fn cores_in_tree(tokens: Seq<crate::platform::device_tree::fdt::TokenView>) -> Result<
    Seq<CoreInfoView>,
    ParseErrorView,
> {
    match find_node(tokens, "/cpus".spec_bytes(), 0, (None, None)) {
        None => Err(ParseErrorView::PropertyNotFound { name: "/cpus/cpu*"@ }),
        Some((inside, cells)) => cores_in_nodes(
            named_nodes(
                inside,
                "cpu".spec_bytes(),
                (Some(address_cells_or_default(cells)), Some(size_cells_or_default(cells))),
            ),
        ),
    }
}

/// Reads the properties of one core's node.
fn core_info<'dt>(node: NodePropertyIter<'dt>, Ghost(view): Ghost<NamedNodeView>) -> (r: Result<
    CoreInfo<'dt>,
    ParseError<'dt>,
>)
    requires
        node.well_formed(),
        node.properties() == view.properties,
        node.address_cells() == view.address_cells,
        node.size_cells() == view.size_cells,
    ensures
        match core_in_node(view) {
            Err(e) => r is Err && r->Err_0@ == e,
            Ok(core) => r is Ok && r->Ok_0@ == core,
        },
{
    let mut cursor = node;
    let mut cpu_id: Option<Id> = None;
    let mut enable_method: Option<&'dt [u8]> = None;
    let ghost all = node.properties();
    let ghost address_cells = node.address_cells();
    let ghost size_cells = node.size_cells();
    let ghost mut seen: int = 0;
    proof {
        assert(all.skip(0) =~= all);
    }
    loop
        invariant
            cursor.well_formed(),
            all == view.properties,
            address_cells == view.address_cells,
            size_cells == view.size_cells,
            cursor.address_cells() == address_cells,
            cursor.size_cells() == size_cells,
            0 <= seen <= all.len(),
            cursor.properties() == all.skip(seen),
            scan_core_properties(
                (
                    cpu_id,
                    match enable_method {
                        Some(m) => Some(m@),
                        None => None,
                    },
                ),
                all.skip(seen),
                address_cells,
                size_cells,
            ) == scan_core_properties((None, None), all, address_cells, size_cells),
        decreases all.len() - seen,
    {
        match cursor.next() {
            None => {
                let id = match cpu_id {
                    Some(id) => id,
                    None => {
                        return Err(ParseError::PropertyNotFound { name: "reg" });
                    },
                };
                let method = match enable_method {
                    Some(method) => method,
                    None => {
                        return Err(ParseError::PropertyNotFound { name: "enable-method" });
                    },
                };
                return Ok(CoreInfo { id, enable_method: method });
            },
            Some((name, value)) => {
                proof {
                    lemma_names_differ();
                }
                if name_is(name, "enable-method") {
                    match value.as_bytes(name) {
                        Ok(method) => {
                            enable_method = Some(method);
                        },
                        Err(e) => {
                            return Err(e);
                        },
                    }
                } else if name_is(name, "reg") {
                    let ids = match value.as_reg(name) {
                        Ok(ids) => ids,
                        Err(e) => {
                            return Err(e);
                        },
                    };
                    let mut regions = ids.iter();
                    match regions.next() {
                        Some((id, _)) => {
                            cpu_id = Some(id);
                        },
                        None => {
                            return Err(ParseError::PropertyNotFound { name: "reg" });
                        },
                    }
                }
                proof {
                    assert(all.skip(seen).skip(1) =~= all.skip(seen + 1));
                    seen = seen + 1;
                }
            },
        }
    }
}

/// List all CPU cores in the system as described by the device tree.
///
/// # Errors
/// Returns a device tree parse error if the device tree has missing or invalid information.
/// The error owns its bytes, so that it can outlive the blob.
pub fn list_cores<'dt>(device_tree: &DeviceTree<'dt>) -> (r: Result<
    Vec<CoreInfo<'dt>>,
    OwnedParseError,
>)
    ensures
        match cores_in_tree(device_tree.tokens()) {
            Err(e) => r is Err && r->Err_0@ == e,
            Ok(cores) => r is Ok && r->Ok_0@.len() == cores.len() && forall|i: int|
                0 <= i < cores.len() ==> (#[trigger] r->Ok_0@[i])@ == cores[i],
        },
{
    let mut cpu_nodes = match device_tree.iter_nodes_named("/cpus".as_bytes(), "cpu".as_bytes()) {
        Some(nodes) => nodes,
        None => {
            return Err(OwnedParseError::PropertyNotFound { name: "/cpus/cpu*" });
        },
    };
    let mut cpus: Vec<CoreInfo<'dt>> = Vec::new();
    let ghost all = cpu_nodes.nodes();
    let ghost mut seen: int = 0;
    proof {
        assert(all.skip(0) =~= all);
    }
    loop
        invariant
            cpu_nodes.well_formed(),
            cores_in_tree(device_tree.tokens()) == cores_in_nodes(all),
            0 <= seen <= all.len(),
            cpu_nodes.nodes() == all.skip(seen),
            cpus@.len() == seen,
            match cores_in_nodes(all.skip(seen)) {
                Err(e) => cores_in_nodes(all) == Err::<Seq<CoreInfoView>, ParseErrorView>(e),
                Ok(rest) => cores_in_nodes(all) is Ok && cores_in_nodes(all)->Ok_0 == Seq::new(
                    cpus@.len(),
                    |i: int| cpus@[i]@,
                ) + rest,
            },
        decreases all.len() - seen,
    {
        match cpu_nodes.next() {
            None => {
                proof {
                    let cores = cores_in_nodes(all)->Ok_0;
                    assert(cores =~= Seq::new(cpus@.len(), |i: int| cpus@[i]@));
                }
                return Ok(cpus);
            },
            Some(cpu_node) => {
                let ghost view = cpu_node@;
                assert(all.skip(seen)[0] == view);
                match core_info(cpu_node.properties, Ghost(view)) {
                    Err(e) => {
                        return Err(e.to_owned());
                    },
                    Ok(core) => {
                        let ghost before = Seq::new(cpus@.len(), |i: int| cpus@[i]@);
                        cpus.push(core);
                        proof {
                            assert(all.skip(seen).skip(1) =~= all.skip(seen + 1));
                            let after = Seq::new(cpus@.len(), |i: int| cpus@[i]@);
                            assert(after =~= before + seq![core@]);
                            match cores_in_nodes(all.skip(seen + 1)) {
                                Err(e) => {},
                                Ok(rest) => {
                                    assert(before + (seq![core@] + rest) =~= after + rest);
                                },
                            }
                            seen = seen + 1;
                        }
                    },
                }
            },
        }
    }
}

/// The number of bytes of the stack of a core.
pub const CORE_STACK_SIZE: u64 = 0x40_0000;

/// The id of the core that boots the system, which runs already.
pub const BOOT_CORE: Id = 0;

/// Whether the core `core` is to be started by a power manager whose enable method is
/// `supported`: every core but the boot core is.
///
/// # Errors
/// `UnsupportedEnableMethod`, with the core's method, if the core asks for another method.
pub fn core_needs_start(core: &CoreInfo, supported: &[u8]) -> (r: Result<bool, BootAllCoresError>)
    ensures
        core.enable_method@ == supported@ ==> r is Ok && r->Ok_0 == (core.id != BOOT_CORE),
        core.enable_method@ != supported@ ==> r is Err && r->Err_0 is UnsupportedEnableMethod
            && r->Err_0->UnsupportedEnableMethod_method@ == core.enable_method@,
{
    if !bytes_eq(core.enable_method, supported) {
        return Err(
            BootAllCoresError::UnsupportedEnableMethod { method: copy_bytes(core.enable_method) },
        );
    }
    Ok(core.id != BOOT_CORE)
}

/// The number of pages of the stack of a core.
pub fn stack_pages(page_size: PageSize) -> (pages: usize)
    ensures
        pages * page_size.spec_bytes() == CORE_STACK_SIZE,
{
    match page_size {
        PageSize::FourKiB => 1024,
        PageSize::SixteenKiB => 256,
    }
}

/// The top of the stack of a core in the kernel's address space, for the answer
/// `allocation` of the page allocator to the request for the stack's pages.
///
/// # Errors
/// `Memory`, with the allocator's error, if the allocator did not provide the pages, and
/// with `OutOfMemory` if the stack would end past the last address.
pub fn stack_for_core(allocation: Result<PhysicalAddress, MemoryError>) -> (r: Result<
    VirtualAddress,
    BootAllCoresError,
>)
    ensures
        match allocation {
            Ok(pages) => if pages.addr() + CORE_STACK_SIZE <= u64::MAX {
                r is Ok && r->Ok_0.addr() == ((pages.addr() + CORE_STACK_SIZE) as u64)
                    | KERNEL_TAG
            } else {
                r is Err && r->Err_0 is Memory && r->Err_0->Memory_source
                    == MemoryError::OutOfMemory
            },
            Err(source) => r is Err && r->Err_0 is Memory && r->Err_0->Memory_source == source,
        },
{
    match allocation {
        Ok(pages) => match pages.to_addr().checked_add(CORE_STACK_SIZE) {
            Some(top) => Ok(VirtualAddress::new(top | KERNEL_TAG)),
            None => Err(BootAllCoresError::Memory { source: MemoryError::OutOfMemory }),
        },
        Err(source) => Err(BootAllCoresError::Memory { source }),
    }
}

/// What the answer `started` of the power manager to the request to start a core means
/// for the boot.
///
/// # Errors
/// `Power`, with the power manager's error, if the core did not start.
pub fn core_started(started: Result<(), PowerManagerError>) -> (r: Result<(), BootAllCoresError>)
    ensures
        match started {
            Ok(_) => r is Ok,
            Err(source) => r is Err && r->Err_0 is Power && r->Err_0->Power_source == source,
        },
{
    match started {
        Ok(_) => Ok(()),
        Err(source) => Err(BootAllCoresError::Power { source }),
    }
}

/// Power on all cores and allocates stacks for them.
/// The `cores` slice is a list of cores as returned by [`list_cores()`].
///
/// The cores are taken in order. Each core must ask for the enable method of the power
/// manager ([`core_needs_start`]). Each core but the boot core gets a stack of
/// [`CORE_STACK_SIZE`] bytes from the page allocator ([`stack_for_core`]) and is started
/// at `entry_point_address` with the top of its stack as argument ([`core_started`]).
///
/// # Errors
/// Errors can come from finding an unsupported enable method, the power management
/// interface, or the memory allocator; the first error ends the boot.
/// See [`BootAllCoresError`] for details.
///
/// A core that asks for another enable method gives `UnsupportedEnableMethod` with its
/// method where no core before it had to be started; where every core is the boot core
/// and asks for the method of the power manager, the boot succeeds.
pub fn boot_all_cores<PM: PowerManager, PA: PageAllocator>(
    cores: &Vec<CoreInfo>,
    power: &mut PM,
    entry_point_address: PhysicalAddress,
    page_allocator: &mut PA,
) -> (r: Result<(), BootAllCoresError>)
    requires
        old(page_allocator).well_formed(),
    ensures
        final(page_allocator).well_formed(),
        final(page_allocator).spec_page_size() == old(page_allocator).spec_page_size(),
        r is Ok ==> forall|i: int|
            0 <= i < cores@.len() ==> (#[trigger] cores@[i]).enable_method@
                == PM::spec_enable_method_name(),
        r is Err && r->Err_0 is UnsupportedEnableMethod ==> exists|i: int|
            0 <= i < cores@.len() && (#[trigger] cores@[i]).enable_method@
                != PM::spec_enable_method_name() && r->Err_0->UnsupportedEnableMethod_method@
                == cores@[i].enable_method@,
        (forall|i: int|
            0 <= i < cores@.len() ==> (#[trigger] cores@[i]).enable_method@
                == PM::spec_enable_method_name() && cores@[i].id == BOOT_CORE) ==> r is Ok,
        forall|i: int|
            0 <= i < cores@.len() && (#[trigger] cores@[i]).enable_method@
                != PM::spec_enable_method_name() && (forall|j: int|
                0 <= j < i ==> (#[trigger] cores@[j]).enable_method@
                    == PM::spec_enable_method_name() && cores@[j].id == BOOT_CORE) ==> r is Err
                && r->Err_0 is UnsupportedEnableMethod
                && r->Err_0->UnsupportedEnableMethod_method@ == cores@[i].enable_method@,
{
    let supported = PM::enable_method_name();
    let mut index: usize = 0;
    while index < cores.len()
        invariant
            index <= cores@.len(),
            supported@ == PM::spec_enable_method_name(),
            page_allocator.well_formed(),
            page_allocator.spec_page_size() == old(page_allocator).spec_page_size(),
            forall|i: int|
                0 <= i < index ==> (#[trigger] cores@[i]).enable_method@
                    == PM::spec_enable_method_name(),
        decreases cores@.len() - index,
    {
        let core = &cores[index];
        let needs_start = match core_needs_start(core, supported) {
            Ok(needs_start) => needs_start,
            Err(e) => {
                return Err(e);
            },
        };
        if needs_start {
            let pages = stack_pages(page_allocator.page_size());
            let stack = match stack_for_core(page_allocator.allocate(pages)) {
                Ok(stack) => stack,
                Err(e) => {
                    return Err(e);
                },
            };
            match core_started(power.start_core(core.id, entry_point_address, stack.to_addr())) {
                Ok(_) => {},
                Err(e) => {
                    return Err(e);
                },
            }
        }
        index = index + 1;
    }
    Ok(())
}

} // verus!
