use kernel_core::boot;
use kernel_core::exceptions::interrupt::controller::GenericV2;
use kernel_core::exceptions::interrupt::{Config, Controller, RegisterWrite, TriggerMode};
use kernel_core::memory::{
    Error as MemoryError, PageAllocator, PageSize, PhysicalAddress, VirtualAddress,
};
use kernel_core::platform::cpu::{
    boot_all_cores, core_needs_start, core_started, list_cores, stack_for_core, stack_pages,
    BootAllCoresError, CoreInfo, Id as CpuId, PowerManager, PowerManagerError,
};
use kernel_core::platform::device_tree::fdt::{
    bytes_eq, find_byte_or_end, pad_end_4b, Token, TokenType,
};
use kernel_core::platform::device_tree::iter::{
    split_node_name, FlattenedTreeIter, MemRegionIter, StringListIter,
};
use kernel_core::platform::device_tree::{
    name_is, DeviceTree, OwnedParseError, OwnedValue, ParseError, Registers, StringList, Value,
};
use kernel_core::platform::timer::SystemTimer;
use kernel_core::psci::{psci_error_code_to_result, CallingMethod, Psci};
use kernel_core::timer::{
    condition_met, enabled, interrupts_enabled, set_enabled, set_interrupts_enabled, Timer,
    TimerControlRegister,
};
use kernel_core::uart::PL011;

/// Writes a flattened device tree.
struct Blob {
    structure: Vec<u8>,
    strings: Vec<u8>,
    reserved: Vec<(u64, u64)>,
}

impl Blob {
    fn new() -> Self {
        Blob {
            structure: Vec::new(),
            strings: Vec::new(),
            reserved: Vec::new(),
        }
    }

    fn pad(&mut self) {
        while self.structure.len() % 4 != 0 {
            self.structure.push(0);
        }
    }

    fn begin(&mut self, name: &str) {
        self.structure.extend_from_slice(&1u32.to_be_bytes());
        self.structure.extend_from_slice(name.as_bytes());
        self.structure.push(0);
        self.pad();
    }

    fn end(&mut self) {
        self.structure.extend_from_slice(&2u32.to_be_bytes());
    }

    fn nop(&mut self) {
        self.structure.extend_from_slice(&4u32.to_be_bytes());
    }

    fn name_offset(&mut self, name: &str) -> u32 {
        let mut wanted = name.as_bytes().to_vec();
        wanted.push(0);
        let found = (0..self.strings.len()).find(|i| {
            self.strings[*i..].starts_with(&wanted) && (*i == 0 || self.strings[*i - 1] == 0)
        });
        match found {
            Some(offset) => offset as u32,
            None => {
                let offset = self.strings.len();
                self.strings.extend_from_slice(&wanted);
                offset as u32
            }
        }
    }

    fn prop(&mut self, name: &str, data: &[u8]) {
        let name_offset = self.name_offset(name);
        self.structure.extend_from_slice(&3u32.to_be_bytes());
        self.structure
            .extend_from_slice(&(data.len() as u32).to_be_bytes());
        self.structure.extend_from_slice(&name_offset.to_be_bytes());
        self.structure.extend_from_slice(data);
        self.pad();
    }

    fn cells(&mut self, name: &str, cells: &[u32]) {
        let data: Vec<u8> = cells.iter().flat_map(|c| c.to_be_bytes()).collect();
        self.prop(name, &data);
    }

    fn strs(&mut self, name: &str, strings: &[&str]) {
        let mut data = Vec::new();
        for s in strings {
            data.extend_from_slice(s.as_bytes());
            data.push(0);
        }
        self.prop(name, &data);
    }

    fn flag(&mut self, name: &str) {
        self.prop(name, &[]);
    }

    fn finish(mut self) -> Vec<u8> {
        self.structure.extend_from_slice(&9u32.to_be_bytes());
        let map_offset = 40usize;
        let structure_offset = map_offset + 16 * (self.reserved.len() + 1);
        let strings_offset = structure_offset + self.structure.len();
        let total = strings_offset + self.strings.len();
        let mut blob = Vec::new();
        for field in [
            0xd00d_feedu32,
            total as u32,
            structure_offset as u32,
            strings_offset as u32,
            map_offset as u32,
            17,
            16,
            0,
            self.strings.len() as u32,
            self.structure.len() as u32,
        ] {
            blob.extend_from_slice(&field.to_be_bytes());
        }
        for (address, size) in self.reserved.iter().chain([(0u64, 0u64)].iter()) {
            blob.extend_from_slice(&address.to_be_bytes());
            blob.extend_from_slice(&size.to_be_bytes());
        }
        blob.extend_from_slice(&self.structure);
        blob.extend_from_slice(&self.strings);
        assert_eq!(blob.len(), total);
        blob
    }
}

/// The device tree of a virtual machine with `cpus` cores, 128 MiB of memory at 1 GiB, a
/// GICv2 interrupt controller, a PL011 UART and 32 virtio transports.
fn virt_tree(cpus: u32) -> Vec<u8> {
    let mut b = Blob::new();
    b.begin("");
    b.cells("interrupt-parent", &[0x8002]);
    b.strs("model", &["linux,dummy-virt"]);
    b.cells("#size-cells", &[2]);
    b.cells("#address-cells", &[2]);
    b.strs("compatible", &["linux,dummy-virt"]);

    b.begin("psci");
    b.cells("migrate", &[0xc400_0005]);
    b.cells("cpu_on", &[0xc400_0003]);
    b.cells("cpu_off", &[0x8400_0002]);
    b.cells("cpu_suspend", &[0xc400_0001]);
    b.strs("method", &["hvc"]);
    b.strs("compatible", &["arm,psci-1.0", "arm,psci-0.2", "arm,psci"]);
    b.end();

    b.begin("memory@40000000");
    b.cells("reg", &[0, 0x4000_0000, 0, 0x800_0000]);
    b.strs("device_type", &["memory"]);
    b.end();

    b.begin("platform-bus@c000000");
    b.cells("interrupt-parent", &[0x8002]);
    b.cells("ranges", &[0, 0, 0xc00_0000, 0x200_0000]);
    b.cells("#address-cells", &[1]);
    b.cells("#size-cells", &[1]);
    b.strs("compatible", &["qemu,platform", "simple-bus"]);
    b.end();

    b.begin("fw-cfg@9020000");
    b.flag("dma-coherent");
    b.cells("reg", &[0, 0x902_0000, 0, 0x18]);
    b.strs("compatible", &["qemu,fw-cfg-mmio"]);
    b.end();

    for i in 0..32u32 {
        let address = 0xa00_0000 + i * 0x200;
        b.begin(&format!("virtio_mmio@{address:x}"));
        b.flag("dma-coherent");
        b.cells("interrupts", &[0, 0x10 + i, 1]);
        b.cells("reg", &[0, address, 0, 0x200]);
        b.strs("compatible", &["virtio,mmio"]);
        b.end();
    }

    b.begin("pl011@9000000");
    b.strs("clock-names", &["uartclk", "apb_pclk"]);
    b.cells("clocks", &[0x8000, 0x8000]);
    b.cells("interrupts", &[0, 1, 4]);
    b.cells("reg", &[0, 0x900_0000, 0, 0x1000]);
    b.strs("compatible", &["arm,pl011", "arm,primecell"]);
    b.end();

    b.begin("pmu");
    b.cells("interrupts", &[1, 7, 0x104]);
    b.strs("compatible", &["arm,armv8-pmuv3"]);
    b.end();

    b.begin("intc@8000000");
    b.cells("phandle", &[0x8002]);
    b.cells("reg", &[0, 0x800_0000, 0, 0x1_0000, 0, 0x801_0000, 0, 0x1_0000]);
    b.strs("compatible", &["arm,cortex-a15-gic"]);
    b.flag("ranges");
    b.cells("#size-cells", &[2]);
    b.cells("#address-cells", &[2]);
    b.flag("interrupt-controller");
    b.cells("#interrupt-cells", &[3]);
    b.begin("v2m@8020000");
    b.cells("phandle", &[0x8003]);
    b.cells("reg", &[0, 0x802_0000, 0, 0x1000]);
    b.flag("msi-controller");
    b.strs("compatible", &["arm,gic-v2m-frame"]);
    b.end();
    b.end();

    b.begin("flash@0");
    b.cells("bank-width", &[4]);
    b.cells("reg", &[0, 0, 0, 0x400_0000, 0, 0x400_0000, 0, 0x400_0000]);
    b.strs("compatible", &["cfi-flash"]);
    b.end();

    b.begin("cpus");
    b.cells("#size-cells", &[0]);
    b.cells("#address-cells", &[1]);
    if cpus > 1 {
        b.begin("cpu-map");
        b.begin("socket0");
        b.begin("cluster0");
        for i in 0..cpus {
            b.begin(&format!("core{i}"));
            b.cells("cpu", &[0x8000 + cpus - i + 3]);
            b.end();
        }
        b.end();
        b.end();
        b.end();
    }
    for i in 0..cpus {
        b.begin(&format!("cpu@{i}"));
        if cpus > 1 {
            b.cells("phandle", &[0x8000 + cpus - i + 3]);
        }
        b.cells("reg", &[i]);
        if cpus > 1 {
            b.strs("enable-method", &["psci"]);
        }
        b.strs("compatible", &["arm,cortex-a15"]);
        b.strs("device_type", &["cpu"]);
        b.end();
    }
    b.end();

    b.begin("timer");
    b.cells(
        "interrupts",
        &[1, 13, 0x104, 1, 14, 0x104, 1, 11, 0x104, 1, 10, 0x104],
    );
    b.flag("always-on");
    b.strs("compatible", &["arm,armv8-timer", "arm,armv7-timer"]);
    b.end();

    b.begin("apb-pclk");
    b.cells("phandle", &[0x8000]);
    b.strs("clock-output-names", &["clk24mhz"]);
    b.cells("clock-frequency", &[24_000_000]);
    b.cells("#clock-cells", &[0]);
    b.strs("compatible", &["fixed-clock"]);
    b.end();

    b.begin("chosen");
    b.strs("stdout-path", &["/pl011@9000000"]);
    b.prop("rng-seed", &[0x5a; 32]);
    b.end();

    b.end();
    b.finish()
}

fn parse(blob: &[u8]) -> DeviceTree<'_> {
    DeviceTree::try_from_bytes(blob).expect("a blob with a correct header")
}

#[test]
fn find_property_at_root() {
    let blob = virt_tree(1);
    let tree = parse(&blob);
    match tree.find_property(b"/compatible") {
        Some(Value::StringList(ss)) => {
            assert!(ss.contains(b"linux,dummy-virt"));
        }
        c => panic!("unexpected value for /compatible: {c:?}"),
    }
}

#[test]
fn find_property_in_child_of_root() {
    let blob = virt_tree(1);
    let tree = parse(&blob);
    match tree.find_property(b"/timer/compatible") {
        Some(Value::StringList(ss)) => {
            assert!(ss.contains(b"arm,armv7-timer"));
        }
        c => panic!("unexpected value for /compatible: {c:?}"),
    }
}

#[test]
fn find_property_in_nested_child() {
    let blob = virt_tree(1);
    let tree = parse(&blob);
    match tree.find_property(b"/intc@8000000/v2m@8020000/phandle") {
        Some(Value::Phandle(v)) => {
            assert_eq!(v, 0x8003);
        }
        c => panic!("unexpected value for /intc@8000000/v2m@8020000/phandle: {c:?}"),
    }
}

#[test]
fn cannot_find_nonexistent_property() {
    let blob = virt_tree(1);
    let tree = parse(&blob);
    let r = tree.find_property(b"/cpus/this/property/does/not/exist");
    assert!(r.is_none());
}

#[test]
fn node_properties_exact() {
    let blob = virt_tree(1);
    let tree = parse(&blob);
    let mut properties = std::collections::HashSet::from([
        "clock-names",
        "clocks",
        "interrupts",
        "reg",
        "compatible",
    ]);

    let mut node = tree.iter_node_properties(b"/pl011@9000000").unwrap();
    while let Some((name, _)) = node.next() {
        let name_str = core::str::from_utf8(name).unwrap();
        assert!(properties.remove(name_str));
    }

    assert!(
        properties.is_empty(),
        "did not find all properties: {properties:?}"
    );
}

#[test]
fn reg_property() {
    let blob = virt_tree(1);
    let tree = parse(&blob);
    match tree.find_property(b"/intc@8000000/reg") {
        Some(Value::Reg(regs)) => {
            let mut i = regs.iter();
            assert_eq!(i.next(), Some((0x0800_0000, 0x1_0000)));
            assert_eq!(i.next(), Some((0x0801_0000, 0x1_0000)));
            assert_eq!(i.next(), None);
        }
        c => panic!("unexpected value for /intc@8000000/reg: {c:?}"),
    }
}

#[test]
fn reg_property_nested() {
    let blob = virt_tree(1);
    let tree = parse(&blob);
    match tree.find_property(b"/cpus/cpu@0/reg") {
        Some(Value::Reg(regs)) => {
            assert_eq!(regs.address_cells, 1);
            assert_eq!(regs.size_cells, 0);
            let mut i = regs.iter();
            assert_eq!(i.next(), Some((0, 0)));
            assert_eq!(i.next(), None);
        }
        c => panic!("unexpected value for /cpus/cpu@0/reg: {c:?}"),
    }
}

#[test]
fn test_iter_nodes_named_nonexistent() {
    let blob = virt_tree(1);
    let tree = parse(&blob);
    let nodes = tree.iter_nodes_named(b"/", b"nonexistent");
    assert!(
        nodes.is_some(),
        "Expected an iterator even if no nodes are found under '/'"
    );
    let mut nodes = nodes.unwrap();

    assert!(
        nodes.next().is_none(),
        "Expected no nodes named 'nonexistent' under '/'"
    );
}

#[test]
fn test_iter_nodes_named_invalid_path() {
    let blob = virt_tree(1);
    let tree = parse(&blob);
    let nodes = tree.iter_nodes_named(b"/invalid/path", b"anynode");
    assert!(
        nodes.is_none(),
        "Expected 'None' for an invalid path '/invalid/path'"
    );
}

#[test]
fn test_iter_nodes_named_memory() {
    let blob = virt_tree(1);
    let tree = parse(&blob);
    let nodes = tree.iter_nodes_named(b"/", b"memory");
    assert!(nodes.is_some(), "Expected to find 'memory' nodes under '/'");
    let mut nodes = nodes.unwrap();

    let node_item = nodes.next();
    assert!(
        node_item.is_some(),
        "Expected at least one 'memory' node under '/'"
    );

    let node_item = node_item.unwrap();

    if let Some(unit_addr) = node_item.unit_address {
        assert_eq!(
            unit_addr, b"40000000",
            "Unexpected unit address for 'memory' node"
        );

        // Check properties
        let mut found_device_type = false;
        let mut properties = node_item.properties;
        while let Some((name, value)) = properties.next() {
            println!(
                "found property {}={:?}",
                std::str::from_utf8(name).unwrap(),
                value
            );
            if name == b"device_type" {
                if let Value::String(s) = value {
                    assert_eq!(
                        std::str::from_utf8(s).unwrap(),
                        "memory",
                        "Unexpected 'device_type' value"
                    );
                    found_device_type = true;
                }
            }
        }
        assert!(
            found_device_type,
            "Expected to find 'device_type' property in 'memory' node"
        );
    } else {
        panic!("Expected 'memory' node to have a unit address");
    }

    // Ensure there are no additional 'memory' nodes under '/'
    assert!(
        nodes.next().is_none(),
        "Expected only one 'memory' node under '/'"
    );
}

#[test]
fn test_iter_nodes_named_virtio_mmio() {
    let blob = virt_tree(1);
    let tree = parse(&blob);
    let nodes = tree.iter_nodes_named(b"/", b"virtio_mmio");
    assert!(
        nodes.is_some(),
        "Expected to find 'virtio_mmio' nodes under '/'"
    );
    let mut nodes = nodes.unwrap();

    let mut unit_addresses = Vec::new();

    while let Some(node_item) = nodes.next() {
        if let Some(unit_addr) = node_item.unit_address {
            let unit_addr_str = std::str::from_utf8(unit_addr).unwrap();
            unit_addresses.push(unit_addr_str.to_string());

            // Check properties
            let mut found_compatible = false;
            let mut properties = node_item.properties;
            while let Some((name, value)) = properties.next() {
                if name == b"compatible" {
                    if let Value::StringList(ss) = value {
                        assert!(
                            ss.contains(b"virtio,mmio"),
                            "Expected 'compatible' to contain 'virtio,mmio'"
                        );
                        found_compatible = true;
                    }
                }
            }
            assert!(
                found_compatible,
                "Expected to find 'compatible' property in 'virtio_mmio' node"
            );
        } else {
            panic!("Expected 'virtio_mmio' node to have a unit address");
        }
    }

    // Check the number of 'virtio_mmio' nodes
    assert_eq!(
        unit_addresses.len(),
        32,
        "Expected 32 'virtio_mmio' nodes under '/'"
    );

    // Check that unit addresses increment correctly
    let expected_unit_addresses = (0..32)
        .map(|i| format!("a{:06x}", i * 0x200))
        .collect::<Vec<_>>();

    assert_eq!(
        unit_addresses, expected_unit_addresses,
        "Unit addresses do not match expected values"
    );
}

#[test]
fn test_iter_nodes_named_v2m() {
    let blob = virt_tree(1);
    let tree = parse(&blob);
    let nodes = tree.iter_nodes_named(b"/intc@8000000", b"v2m");
    assert!(
        nodes.is_some(),
        "Expected to find 'v2m' nodes under '/intc@8000000'"
    );
    let mut nodes = nodes.unwrap();

    let node_item = nodes.next();
    assert!(
        node_item.is_some(),
        "Expected at least one 'v2m' node under '/intc@8000000'"
    );

    let node_item = node_item.unwrap();

    if let Some(unit_addr) = node_item.unit_address {
        let unit_addr_str = std::str::from_utf8(unit_addr).unwrap();
        assert_eq!(
            unit_addr_str, "8020000",
            "Unexpected unit address for 'v2m' node"
        );

        // Check properties
        let mut found_compatible = false;
        let mut properties = node_item.properties;
        while let Some((name, value)) = properties.next() {
            if name == b"compatible" {
                if let Value::StringList(ss) = value {
                    assert!(
                        ss.contains(b"arm,gic-v2m-frame"),
                        "Expected 'compatible' to contain 'arm,gic-v2m-frame'"
                    );
                    found_compatible = true;
                }
            }
        }
        assert!(
            found_compatible,
            "Expected to find 'compatible' property in 'v2m' node"
        );
    } else {
        panic!("Expected 'v2m' node to have a unit address");
    }

    // Ensure there are no additional 'v2m' nodes under '/intc@8000000'
    assert!(
        nodes.next().is_none(),
        "Expected only one 'v2m' node under '/intc@8000000'"
    );
}

#[test]
fn memory_reg_decodes_with_the_cells_of_the_root() {
    let blob = virt_tree(1);
    let tree = parse(&blob);
    match tree.find_property(b"/memory@40000000/reg") {
        Some(Value::Reg(regs)) => {
            assert_eq!((regs.address_cells, regs.size_cells), (2, 2));
            let mut i = regs.iter();
            assert_eq!(i.next(), Some((0x4000_0000, 0x800_0000)));
            assert_eq!(i.next(), None);
            assert_eq!(i.next(), None);
        }
        c => panic!("unexpected value: {c:?}"),
    }
    assert_eq!(boot::memory::find_memory_range(&tree), Some((0x4000_0000, 0x800_0000)));
}

#[test]
fn paths_name_nodes_by_their_full_names() {
    let blob = virt_tree(1);
    let tree = parse(&blob);
    assert!(tree.find_property(b"/intc/v2m/phandle").is_none());
    assert!(tree.find_property(b"/intc@8000000/v2m/phandle").is_none());
    assert!(matches!(
        tree.find_property(b"/intc@8000000/phandle"),
        Some(Value::Phandle(0x8002))
    ));
    assert!(matches!(
        tree.find_property(b"/virtio_mmio@a000400/reg"),
        Some(Value::Reg(r)) if r.iter().next() == Some((0xa00_0400, 0x200))
    ));
    assert!(matches!(
        tree.find_property(b"/#address-cells"),
        Some(Value::U32(2))
    ));
    assert!(matches!(
        tree.find_property(b"/cpus/#size-cells"),
        Some(Value::U32(0))
    ));
    assert!(matches!(
        tree.find_property(b"/model"),
        Some(Value::String(b"linux,dummy-virt"))
    ));
    assert!(matches!(
        tree.find_property(b"/apb-pclk/clock-frequency"),
        Some(Value::Bytes(&[0x01, 0x6e, 0x36, 0x00]))
    ));
    assert!(matches!(
        tree.find_property(b"/intc@8000000/ranges"),
        Some(Value::Bytes(&[]))
    ));
    assert!(tree.find_property(b"/intc@8000001/phandle").is_none());
    assert!(tree.find_property(b"/int/phandle").is_none());
    assert!(tree.find_property(b"/timer/nothing").is_none());
    assert!(tree.find_property(b"/v2m@8020000/phandle").is_none());
    assert!(tree.find_property(b"phandle").is_none());
    assert!(tree.find_property(b"").is_none());
    assert!(tree.iter_node_properties(b"/nothing").is_none());
    assert!(tree.iter_node_properties(b"/cpus/cpu@0").is_some());
    assert!(tree.iter_node_properties(b"/cpus/").is_some());
}

#[test]
fn header_describes_the_blob() {
    let blob = virt_tree(1);
    let tree = parse(&blob);
    let header = tree.header();
    assert_eq!(header.magic(), 0xd00d_feed);
    assert_eq!(header.total_size() as usize, blob.len());
    assert_eq!(tree.size_of_blob(), blob.len());
    assert_eq!(header.off_mem_rsvmap(), 40);
    assert_eq!(header.off_dt_struct(), 56);
    assert_eq!(header.version(), 17);
    assert_eq!(header.last_comp_version(), 16);
    assert_eq!(header.boot_cpuid_phys(), 0);
    assert_eq!(
        header.off_dt_struct() + header.size_dt_structs(),
        header.off_dt_strings()
    );
    assert_eq!(
        (header.off_dt_strings() + header.size_dt_strings()) as usize,
        blob.len()
    );
}

#[test]
fn blobs_with_a_wrong_header_are_refused() {
    let blob = virt_tree(1);
    assert!(DeviceTree::try_from_bytes(&blob).is_some());
    assert!(DeviceTree::try_from_bytes(&blob[..39]).is_none());
    assert!(DeviceTree::try_from_bytes(&blob[..blob.len() - 1]).is_none());
    assert!(DeviceTree::try_from_bytes(&[]).is_none());
    let mut wrong_magic = blob.clone();
    wrong_magic[3] = 0xee;
    assert!(DeviceTree::try_from_bytes(&wrong_magic).is_none());
    let mut longer = blob.clone();
    longer.push(0);
    assert!(DeviceTree::try_from_bytes(&longer).is_none());
    let mut strings_outside = blob.clone();
    strings_outside[32..36].copy_from_slice(&0x00ff_ffffu32.to_be_bytes());
    assert!(DeviceTree::try_from_bytes(&strings_outside).is_none());
    let mut structure_outside = blob.clone();
    structure_outside[36..40].copy_from_slice(&0x00ff_ffffu32.to_be_bytes());
    assert!(DeviceTree::try_from_bytes(&structure_outside).is_none());
    let mut map_behind = blob.clone();
    map_behind[16..20].copy_from_slice(&60u32.to_be_bytes());
    assert!(DeviceTree::try_from_bytes(&map_behind).is_none());
}

fn small_tree() -> Vec<u8> {
    let mut b = Blob::new();
    b.reserved.push((0x4000_0000, 0x1000));
    b.reserved.push((0x1_0000_0000_0000, 0x2_0000_0001));
    b.begin("");
    b.cells("#address-cells", &[1]);
    b.nop();
    b.begin("a@1");
    b.prop("x", b"12345");
    b.begin("deep");
    b.flag("y");
    b.end();
    b.end();
    b.nop();
    b.begin("b");
    b.cells("reg", &[7, 9, 8]);
    b.end();
    b.end();
    b.finish()
}

#[test]
fn structure_is_walked_token_by_token() {
    let blob = small_tree();
    let tree = parse(&blob);
    let mut it = tree.iter_structure();
    let mut seen = Vec::new();
    while let Some(token) = it.next() {
        seen.push(match token {
            Token::StartNode(name) => format!("<{}", std::str::from_utf8(name).unwrap()),
            Token::EndNode => ">".to_string(),
            Token::Property { name, data } => {
                format!("{}={:?}", std::str::from_utf8(name).unwrap(), data)
            }
        });
    }
    assert_eq!(
        seen,
        vec![
            "<",
            "#address-cells=[0, 0, 0, 1]",
            "<a@1",
            "x=[49, 50, 51, 52, 53]",
            "<deep",
            "y=[]",
            ">",
            ">",
            "<b",
            "reg=[0, 0, 0, 7, 0, 0, 0, 9, 0, 0, 0, 8]",
            ">",
            ">",
        ]
    );
    assert!(it.next().is_none());
}

#[test]
fn a_node_is_skipped_with_its_children() {
    let blob = small_tree();
    let tree = parse(&blob);
    let mut it = tree.iter_structure();
    assert!(matches!(it.next(), Some(Token::StartNode(b""))));
    assert!(matches!(it.next(), Some(Token::Property { .. })));
    assert!(matches!(it.next(), Some(Token::StartNode(b"a@1"))));
    it.skip_node();
    assert!(matches!(it.next(), Some(Token::StartNode(b"b"))));
    it.skip_node();
    assert!(matches!(it.next(), Some(Token::EndNode)));
    assert!(it.next().is_none());
    it.skip_node();
    assert!(it.next().is_none());
}

#[test]
fn default_cells_hold_where_the_parent_is_silent() {
    let blob = small_tree();
    let tree = parse(&blob);
    match tree.find_property(b"/b/reg") {
        Some(Value::Reg(regs)) => {
            assert_eq!((regs.address_cells, regs.size_cells), (1, 1));
            let mut i = regs.iter();
            assert_eq!(i.next(), Some((7, 9)));
            assert_eq!(i.next(), None);
        }
        c => panic!("unexpected value: {c:?}"),
    }
    let node = tree.iter_node_properties(b"/a@1/deep").unwrap();
    assert_eq!(node.parent_address_cells(), 1);
    assert_eq!(node.parent_size_cells(), 1);
    let node = tree.iter_node_properties(b"/").unwrap();
    assert_eq!(node.parent_address_cells(), 2);
    assert_eq!(node.parent_size_cells(), 1);
    let mut named = tree.iter_nodes_named(b"/", b"a").unwrap();
    let item = named.next().unwrap();
    assert_eq!(item.unit_address, Some(&b"1"[..]));
    let mut properties = item.properties;
    assert!(matches!(properties.next(), Some((b"x", Value::Bytes(b"12345")))));
    assert!(properties.next().is_none());
    assert!(named.next().is_none());
    let mut named = tree.iter_nodes_named(b"/", b"b").unwrap();
    assert_eq!(named.next().unwrap().unit_address, None);
    assert!(tree.iter_nodes_named(b"/", b"deep").unwrap().next().is_none());
    assert!(tree.iter_nodes_named(b"/a@1", b"deep").unwrap().next().is_some());
}

#[test]
fn reserved_regions_end_at_the_empty_entry() {
    let blob = small_tree();
    let tree = parse(&blob);
    let mut regions = tree.iter_reserved_memory_regions();
    assert_eq!(regions.next(), Some((0x4000_0000, 0x1000)));
    assert_eq!(regions.next(), Some((0x1_0000_0000_0000, 0x2_0000_0001)));
    assert_eq!(regions.next(), None);
    assert_eq!(regions.next(), None);
    let blob = virt_tree(1);
    let tree = parse(&blob);
    assert_eq!(tree.iter_reserved_memory_regions().next(), None);
    let mut data = Vec::new();
    for n in [1u64, 2, 0, 3, 0, 0, 4, 5] {
        data.extend_from_slice(&n.to_be_bytes());
    }
    let mut regions = MemRegionIter::for_data(&data);
    assert_eq!(regions.next(), Some((1, 2)));
    assert_eq!(regions.next(), Some((0, 3)));
    assert_eq!(regions.next(), None);
    let mut regions = MemRegionIter::for_data(&data[..31]);
    assert_eq!(regions.next(), Some((1, 2)));
    assert_eq!(regions.next(), None);
}

#[test]
fn a_truncated_structure_ends_the_walk() {
    let mut structure = Vec::new();
    structure.extend_from_slice(&1u32.to_be_bytes());
    structure.extend_from_slice(b"node\0\0\0\0");
    structure.extend_from_slice(&3u32.to_be_bytes());
    structure.extend_from_slice(&100u32.to_be_bytes());
    structure.extend_from_slice(&0u32.to_be_bytes());
    structure.extend_from_slice(&[1, 2, 3, 4]);
    let strings = b"name\0";
    let mut it = FlattenedTreeIter::new(&structure, strings);
    assert!(matches!(it.next(), Some(Token::StartNode(b"node"))));
    assert!(it.next().is_none());
    assert!(it.next().is_none());
    let mut unknown = Vec::new();
    unknown.extend_from_slice(&1u32.to_be_bytes());
    unknown.extend_from_slice(b"n\0\0\0");
    unknown.extend_from_slice(&7u32.to_be_bytes());
    unknown.extend_from_slice(&2u32.to_be_bytes());
    let mut it = FlattenedTreeIter::new(&unknown, strings);
    assert!(matches!(it.next(), Some(Token::StartNode(b"n"))));
    assert!(it.next().is_none());
    let mut it = FlattenedTreeIter::new(&[0, 0, 0], strings);
    assert!(it.next().is_none());
    let mut it = FlattenedTreeIter::new(&[], strings);
    assert!(it.next().is_none());
}

#[test]
fn string_lists_are_split_at_their_terminators() {
    let list = StringList { data: b"one\0two\0\0three\0" };
    let mut it = list.iter();
    assert_eq!(it.next(), Some(&b"one"[..]));
    assert_eq!(it.next(), Some(&b"two"[..]));
    assert_eq!(it.next(), Some(&b""[..]));
    assert_eq!(it.next(), Some(&b"three"[..]));
    assert_eq!(it.next(), None);
    assert!(list.contains(b"two"));
    assert!(list.contains(b"three"));
    assert!(list.contains(b"wo"));
    assert!(list.contains(b"e\0t"));
    assert!(!list.contains(b"four"));
    assert!(!list.contains(b"one\0two\0\0three\0\0"));
    let mut it = StringListIter::new(b"head\0tail");
    assert_eq!(it.next(), Some(&b"head"[..]));
    assert_eq!(it.next(), None);
    assert_eq!(it.next(), None);
    let mut it = StringListIter::new(b"");
    assert_eq!(it.next(), None);
}

#[test]
fn values_are_typed_by_the_name_of_their_property() {
    assert!(matches!(
        Value::parse(b"compatible", b"a\0b\0", 2, 1),
        Value::StringList(StringList { data: b"a\0b\0" })
    ));
    assert!(matches!(Value::parse(b"model", b"m1\0", 2, 1), Value::String(b"m1")));
    assert!(matches!(Value::parse(b"status", b"okay\0", 2, 1), Value::String(b"okay")));
    assert!(matches!(Value::parse(b"device_type", b"cpu\0x", 2, 1), Value::String(b"cpu")));
    assert!(matches!(Value::parse(b"model", b"open", 2, 1), Value::Bytes(b"open")));
    assert!(matches!(
        Value::parse(b"phandle", &[0, 0, 0x80, 0x03], 2, 1),
        Value::Phandle(0x8003)
    ));
    assert!(matches!(Value::parse(b"phandle", &[0, 0, 0x80], 2, 1), Value::Bytes(_)));
    assert!(matches!(
        Value::parse(b"#address-cells", &[0, 0, 0, 2], 2, 1),
        Value::U32(2)
    ));
    assert!(matches!(
        Value::parse(b"#size-cells", &[0x12, 0x34, 0x56, 0x78], 2, 1),
        Value::U32(0x1234_5678)
    ));
    assert!(matches!(
        Value::parse(b"virtual-reg", &[0, 0, 1, 0], 2, 1),
        Value::U32(256)
    ));
    assert!(matches!(Value::parse(b"#size-cells", &[1], 2, 1), Value::Bytes(&[1])));
    assert!(matches!(
        Value::parse(b"reg", &[1, 2, 3, 4], 3, 4),
        Value::Reg(Registers { data: &[1, 2, 3, 4], address_cells: 3, size_cells: 4 })
    ));
    assert!(matches!(
        Value::parse(b"interrupts", &[0, 0, 0, 1], 2, 1),
        Value::Bytes(&[0, 0, 0, 1])
    ));
    assert!(matches!(Value::parse(b"regs", &[9], 2, 1), Value::Bytes(&[9])));
}

#[test]
fn register_arrays_follow_their_cell_counts() {
    let mut data = Vec::new();
    for cell in [1u32, 2, 3, 4, 5, 6, 7] {
        data.extend_from_slice(&cell.to_be_bytes());
    }
    let pairs = |address_cells, size_cells| {
        let mut it = Registers { data: &data, address_cells, size_cells }.iter();
        let mut all = Vec::new();
        while let Some(pair) = it.next() {
            all.push(pair);
        }
        all
    };
    assert_eq!(pairs(1, 1), vec![(1, 2), (3, 4), (5, 6)]);
    assert_eq!(pairs(2, 1), vec![(0x1_0000_0002, 3), (0x4_0000_0005, 6)]);
    assert_eq!(pairs(1, 2), vec![(1, 0x2_0000_0003), (4, 0x5_0000_0006)]);
    assert_eq!(pairs(2, 2), vec![(0x1_0000_0002, 0x3_0000_0004)]);
    assert_eq!(pairs(1, 0), vec![(1, 0), (2, 0), (3, 0), (4, 0), (5, 0), (6, 0), (7, 0)]);
    assert_eq!(pairs(0, 1), vec![(0, 1), (0, 2), (0, 3), (0, 4), (0, 5), (0, 6), (0, 7)]);
    assert_eq!(pairs(3, 0), vec![(0x2_0000_0003, 0), (0x5_0000_0006, 0)]);
    assert_eq!(pairs(0, 0), vec![]);
    assert_eq!(pairs(4, 4), vec![]);
}

#[test]
fn values_convert_to_what_they_hold_only() {
    assert_eq!(Value::U32(5).into_u32(), Some(5));
    assert_eq!(Value::U64(5).into_u32(), None);
    assert_eq!(Value::U64(1 << 40).into_u64(), Some(1 << 40));
    assert_eq!(Value::U32(5).into_u64(), None);
    assert_eq!(Value::Phandle(7).into_phandle(), Some(7));
    assert_eq!(Value::U32(7).into_phandle(), None);
    assert_eq!(Value::String(b"s").into_string(), Some(&b"s"[..]));
    assert_eq!(Value::Bytes(b"s").into_string(), None);
    assert_eq!(Value::Bytes(b"s").into_bytes(), Some(&b"s"[..]));
    assert_eq!(Value::String(b"s").into_bytes(), None);
    assert!(Value::StringList(StringList { data: b"a\0" }).into_strings().is_some());
    assert!(Value::Bytes(b"a\0").into_strings().is_none());
    let regs = Registers { data: &[0, 0, 0, 1], address_cells: 1, size_cells: 0 };
    assert!(Value::Reg(regs).into_reg().is_some());
    assert!(Value::U32(1).into_reg().is_none());

    assert!(matches!(Value::U32(5).try_into_u32(), Ok(5)));
    assert!(matches!(
        Value::U64(5).try_into_u32(),
        Err(ParseError::UnexpectedType { name: b"u32", value: Value::U64(5), expected_type: "u32" })
    ));
    assert!(matches!(Value::U64(9).try_into_u64(), Ok(9)));
    assert!(matches!(
        Value::U32(9).try_into_u64(),
        Err(ParseError::UnexpectedType { expected_type: "u64", .. })
    ));
    assert!(matches!(Value::Phandle(3).try_into_phandle(), Ok(3)));
    assert!(matches!(
        Value::U32(3).try_into_phandle(),
        Err(ParseError::UnexpectedType { expected_type: "phandle", .. })
    ));
    assert!(matches!(Value::String(b"x").try_into_string(), Ok(b"x")));
    assert!(matches!(
        Value::Bytes(b"x").try_into_string(),
        Err(ParseError::UnexpectedType { expected_type: "string", .. })
    ));
    assert!(Value::StringList(StringList { data: b"a\0" }).try_into_strings().is_ok());
    assert!(matches!(
        Value::U32(0).try_into_strings(),
        Err(ParseError::UnexpectedType { expected_type: "stringlist", .. })
    ));
    assert!(matches!(Value::Bytes(b"x").try_into_bytes(), Ok(b"x")));
    assert!(matches!(
        Value::U32(0).try_into_bytes(),
        Err(ParseError::UnexpectedType { expected_type: "bytes", .. })
    ));
    assert!(Value::Reg(regs).try_into_reg().is_ok());
    assert!(matches!(
        Value::U32(0).try_into_reg(),
        Err(ParseError::UnexpectedType { expected_type: "reg", .. })
    ));
    assert!(matches!(Value::Bytes(b"x").as_bytes(b"n"), Ok(b"x")));
    assert!(matches!(
        Value::U32(1).as_bytes(b"n"),
        Err(ParseError::UnexpectedType { name: b"n", value: Value::U32(1), expected_type: "bytes" })
    ));
    assert!(Value::StringList(StringList { data: b"a\0" }).as_strings(b"n").is_ok());
    assert!(matches!(
        Value::U32(1).as_strings(b"n"),
        Err(ParseError::UnexpectedType { name: b"n", .. })
    ));
    assert!(Value::Reg(regs).as_reg(b"n").is_ok());
    assert!(matches!(
        Value::Bytes(b"").as_reg(b"n"),
        Err(ParseError::UnexpectedType { name: b"n", expected_type: "reg", .. })
    ));
}

#[test]
fn bytes_are_found_and_compared() {
    assert_eq!(pad_end_4b(0), 0);
    assert_eq!(pad_end_4b(1), 4);
    assert_eq!(pad_end_4b(4), 4);
    assert_eq!(pad_end_4b(5), 8);
    assert_eq!(pad_end_4b(1023), 1024);
    assert_eq!(find_byte_or_end(b"ab@cd@", b'@', 0), 2);
    assert_eq!(find_byte_or_end(b"ab@cd@", b'@', 3), 5);
    assert_eq!(find_byte_or_end(b"ab@cd", b'@', 3), 5);
    assert_eq!(find_byte_or_end(b"", b'@', 0), 0);
    assert!(bytes_eq(b"abc", b"abc"));
    assert!(bytes_eq(b"", b""));
    assert!(!bytes_eq(b"abc", b"abd"));
    assert!(!bytes_eq(b"abc", b"ab"));
    assert!(name_is(b"reg", "reg"));
    assert!(!name_is(b"reg\0", "reg"));
    assert_eq!(split_node_name(b"memory@40000000"), (&b"memory"[..], Some(&b"40000000"[..])));
    assert_eq!(split_node_name(b"cpus"), (&b"cpus"[..], None));
    assert_eq!(split_node_name(b"a@b@c"), (&b"a"[..], Some(&b"b@c"[..])));
    assert_eq!(split_node_name(b"a@"), (&b"a"[..], Some(&b""[..])));
    assert_eq!(split_node_name(b""), (&b""[..], None));
    assert!(matches!(TokenType::from_u32(1), TokenType::BeginNode));
    assert!(matches!(TokenType::from_u32(2), TokenType::EndNode));
    assert!(matches!(TokenType::from_u32(3), TokenType::Prop));
    assert!(matches!(TokenType::from_u32(4), TokenType::Nop));
    assert!(matches!(TokenType::from_u32(9), TokenType::End));
    assert!(matches!(TokenType::from_u32(0), TokenType::Unknown(0)));
    assert!(matches!(TokenType::from_u32(0x0100_0000), TokenType::Unknown(0x0100_0000)));
}

/// A page allocator that records what it is asked for and always hands out the same pages.
struct RecordingPageAllocator {
    page_size: PageSize,
    answer: Result<PhysicalAddress, MemoryError>,
    requests: Vec<usize>,
}

impl PageAllocator for RecordingPageAllocator {
    fn page_size(&self) -> PageSize {
        self.page_size
    }

    fn allocate(&mut self, num_pages: usize) -> Result<PhysicalAddress, MemoryError> {
        self.requests.push(num_pages);
        self.answer
    }

    fn free(&mut self, _pages: PhysicalAddress, _num_pages: usize) -> Result<(), MemoryError> {
        panic!("nothing is freed while cores start");
    }
}

/// A power manager that records which cores it is asked to start.
struct RecordingPowerManager {
    answer: Result<(), PowerManagerError>,
    started: Vec<(CpuId, u64, u64)>,
}

impl PowerManager for RecordingPowerManager {
    fn start_core(
        &mut self,
        target_core: CpuId,
        entry_point_address: PhysicalAddress,
        arg: u64,
    ) -> Result<(), PowerManagerError> {
        self.started
            .push((target_core, entry_point_address.to_addr(), arg));
        self.answer
    }

    fn enable_method_name() -> &'static [u8] {
        b"psci\0"
    }
}

#[test]
fn boot_cores() {
    let blob = virt_tree(8);
    let dt = parse(&blob);
    let mut pa = RecordingPageAllocator {
        page_size: PageSize::FourKiB,
        answer: Ok(PhysicalAddress::new(0xee_0000)),
        requests: Vec::new(),
    };
    let epa: u64 = 0xbeef_feed;
    let mut pm = RecordingPowerManager {
        answer: Ok(()),
        started: Vec::new(),
    };

    let cores = list_cores(&dt).expect("list CPU cores");
    assert_eq!(cores.len(), 8);
    boot_all_cores(&cores, &mut pm, PhysicalAddress::new(epa), &mut pa).expect("boot all cores");

    assert_eq!(pa.requests, vec![1024; 7]);
    let expected: Vec<(CpuId, u64, u64)> = (1..8)
        .map(|i| (i, epa, 0xffff_0000_00ee_0000u64 + 4 * 1024 * 1024))
        .collect();
    assert_eq!(pm.started, expected);
}

#[test]
fn cores_are_listed_in_the_order_of_the_tree() {
    let blob = virt_tree(8);
    let dt = parse(&blob);
    let cores = list_cores(&dt).unwrap();
    for (i, core) in cores.iter().enumerate() {
        assert_eq!(core.id, i as u64);
        assert_eq!(core.enable_method, b"psci\0");
    }
    let blob = virt_tree(1);
    let dt = parse(&blob);
    assert!(matches!(
        list_cores(&dt),
        Err(OwnedParseError::PropertyNotFound { name: "enable-method" })
    ));
    let blob = small_tree();
    let dt = parse(&blob);
    assert!(matches!(
        list_cores(&dt),
        Err(OwnedParseError::PropertyNotFound { name: "/cpus/cpu*" })
    ));
    let mut b = Blob::new();
    b.begin("");
    b.begin("cpus");
    b.cells("#address-cells", &[2]);
    b.cells("#size-cells", &[0]);
    b.begin("cpu@100000002");
    b.strs("enable-method", &["spin-table"]);
    b.cells("reg", &[1, 2]);
    b.end();
    b.begin("cpu@1");
    b.strs("enable-method", &["psci"]);
    b.end();
    b.end();
    b.end();
    let blob = b.finish();
    let dt = parse(&blob);
    assert!(matches!(
        list_cores(&dt),
        Err(OwnedParseError::PropertyNotFound { name: "reg" })
    ));
    let mut b = Blob::new();
    b.begin("");
    b.begin("cpus");
    b.cells("#address-cells", &[2]);
    b.cells("#size-cells", &[0]);
    b.begin("cpu@100000002");
    b.strs("enable-method", &["spin-table"]);
    b.cells("reg", &[1, 2]);
    b.end();
    b.end();
    b.end();
    let blob = b.finish();
    let dt = parse(&blob);
    let cores = list_cores(&dt).unwrap();
    assert_eq!(cores.len(), 1);
    assert_eq!(cores[0].id, 0x1_0000_0002);
    assert_eq!(cores[0].enable_method, b"spin-table\0");
}

#[test]
fn boot_stops_at_the_first_error() {
    let cores = vec![
        CoreInfo { id: 0, enable_method: b"psci\0" },
        CoreInfo { id: 1, enable_method: b"psci\0" },
        CoreInfo { id: 2, enable_method: b"spin-table\0" },
        CoreInfo { id: 3, enable_method: b"psci\0" },
    ];
    let entry = PhysicalAddress::new(0x8_0000);
    let mut pa = RecordingPageAllocator {
        page_size: PageSize::SixteenKiB,
        answer: Ok(PhysicalAddress::new(0x4000_0000)),
        requests: Vec::new(),
    };
    let mut pm = RecordingPowerManager { answer: Ok(()), started: Vec::new() };
    match boot_all_cores(&cores, &mut pm, entry, &mut pa) {
        Err(BootAllCoresError::UnsupportedEnableMethod { method }) => {
            assert_eq!(method, b"spin-table\0")
        }
        r => panic!("unexpected result: {r:?}"),
    }
    assert_eq!(pa.requests, vec![256]);
    assert_eq!(pm.started, vec![(1, 0x8_0000, 0xffff_0000_4040_0000)]);

    let mut pm = RecordingPowerManager {
        answer: Err(PowerManagerError::AlreadyOn),
        started: Vec::new(),
    };
    assert!(matches!(
        boot_all_cores(&cores, &mut pm, entry, &mut pa),
        Err(BootAllCoresError::Power { source: PowerManagerError::AlreadyOn })
    ));
    assert_eq!(pm.started.len(), 1);

    let mut pa = RecordingPageAllocator {
        page_size: PageSize::FourKiB,
        answer: Err(MemoryError::OutOfMemory),
        requests: Vec::new(),
    };
    let mut pm = RecordingPowerManager { answer: Ok(()), started: Vec::new() };
    assert!(matches!(
        boot_all_cores(&cores, &mut pm, entry, &mut pa),
        Err(BootAllCoresError::Memory { source: MemoryError::OutOfMemory })
    ));
    assert!(pm.started.is_empty());

    let only_boot_core = vec![CoreInfo { id: 0, enable_method: b"psci\0" }];
    assert!(boot_all_cores(&only_boot_core, &mut pm, entry, &mut pa).is_ok());
    assert_eq!(pa.requests.len(), 1);
    assert!(boot_all_cores(&Vec::new(), &mut pm, entry, &mut pa).is_ok());
}

#[test]
fn each_step_of_the_boot_is_decided_from_plain_values() {
    let core = CoreInfo { id: 0, enable_method: b"psci\0" };
    assert!(matches!(core_needs_start(&core, b"psci\0"), Ok(false)));
    let core = CoreInfo { id: 5, enable_method: b"psci\0" };
    assert!(matches!(core_needs_start(&core, b"psci\0"), Ok(true)));
    assert!(matches!(
        core_needs_start(&core, b"psci"),
        Err(BootAllCoresError::UnsupportedEnableMethod { method }) if method == b"psci\0"
    ));
    assert_eq!(stack_pages(PageSize::FourKiB), 1024);
    assert_eq!(stack_pages(PageSize::SixteenKiB), 256);
    assert!(matches!(
        stack_for_core(Ok(PhysicalAddress::new(0xee_0000))),
        Ok(top) if top == VirtualAddress::new(0xffff_0000_012e_0000)
    ));
    assert!(matches!(
        stack_for_core(Err(MemoryError::InvalidSize)),
        Err(BootAllCoresError::Memory { source: MemoryError::InvalidSize })
    ));
    assert!(matches!(core_started(Ok(())), Ok(())));
    assert!(matches!(
        core_started(Err(PowerManagerError::Pending)),
        Err(BootAllCoresError::Power { source: PowerManagerError::Pending })
    ));
}

#[test]
fn firmware_is_called_as_the_tree_says() {
    let blob = virt_tree(1);
    let dt = parse(&blob);
    let psci = Psci::in_device_tree(&dt).unwrap();
    assert_eq!(psci.calling_method, CallingMethod::Hvc);
    assert_eq!(psci.func_id_cpu_on, 0xc400_0003);
    let call = psci.start_core(3, PhysicalAddress::new(0x4008_0000), 0xffff_0000_4100_0000);
    assert_eq!(call.method, CallingMethod::Hvc);
    assert_eq!(call.function_id, 0xc400_0003);
    assert_eq!(call.arguments, [3, 0x4008_0000, 0xffff_0000_4100_0000]);
    assert_eq!(Psci::enable_method_name(), b"psci\0");

    let mut b = Blob::new();
    b.begin("");
    b.begin("psci");
    b.strs("method", &["smc"]);
    b.cells("cpu_on", &[0x8400_0003]);
    b.end();
    b.end();
    let blob = b.finish();
    let psci = Psci::in_device_tree(&parse(&blob)).unwrap();
    assert_eq!(psci.calling_method, CallingMethod::Smc);
    assert_eq!(psci.func_id_cpu_on, 0x8400_0003);

    let mut b = Blob::new();
    b.begin("");
    b.begin("psci");
    b.strs("method", &["hvc"]);
    b.prop("cpu_on", &[1, 2]);
    b.end();
    b.end();
    let blob = b.finish();
    let psci = Psci::in_device_tree(&parse(&blob)).unwrap();
    assert_eq!(psci.calling_method, CallingMethod::Hvc);
    assert_eq!(psci.func_id_cpu_on, 0xc400_0003);

    let mut b = Blob::new();
    b.begin("");
    b.begin("psci");
    b.strs("method", &["svc"]);
    b.end();
    b.end();
    let blob = b.finish();
    assert!(matches!(
        Psci::in_device_tree(&parse(&blob)),
        Err(ParseError::PropertyNotFound { name: "method" })
    ));
    let blob = small_tree();
    assert!(matches!(
        Psci::in_device_tree(&parse(&blob)),
        Err(ParseError::PropertyNotFound { name: "/psci" })
    ));
}

#[test]
fn firmware_answers_are_read_as_results() {
    assert_eq!(psci_error_code_to_result(0), Ok(()));
    assert_eq!(psci_error_code_to_result(-2), Err(PowerManagerError::InvalidCoreId));
    assert_eq!(psci_error_code_to_result(-4), Err(PowerManagerError::AlreadyOn));
    assert_eq!(psci_error_code_to_result(-5), Err(PowerManagerError::Pending));
    assert_eq!(psci_error_code_to_result(-6), Err(PowerManagerError::Internal));
    assert_eq!(psci_error_code_to_result(-9), Err(PowerManagerError::InvalidAddress));
    assert_eq!(psci_error_code_to_result(-1), Err(PowerManagerError::Internal));
    assert_eq!(psci_error_code_to_result(1), Err(PowerManagerError::Internal));
    assert_eq!(psci_error_code_to_result(i32::MIN), Err(PowerManagerError::Internal));
}

#[test]
fn uart_is_found_in_the_tree() {
    let blob = virt_tree(1);
    let dt = parse(&blob);
    let uart = PL011::from_device_tree(&dt, b"/pl011@9000000").unwrap();
    assert_eq!(uart.base_address(), 0xffff_0000_0900_0000);
    assert_eq!(
        PL011::from_platform_debug_best_guess().base_address(),
        0xffff_0000_0900_0000
    );
    assert!(PL011::from_device_tree(&dt, b"/pl011").is_none());
    assert!(PL011::from_device_tree(&dt, b"/timer").is_none());
    let flash = PL011::from_device_tree(&dt, b"/flash@0").unwrap();
    assert_eq!(flash.base_address(), 0xffff_0000_0000_0000);
    let node = dt.iter_node_properties(b"/fw-cfg@9020000").unwrap();
    assert_eq!(PL011::from_node(node).unwrap().base_address(), 0xffff_0000_0902_0000);
}

fn gic() -> GenericV2 {
    GenericV2::new(0x800_0000, 0x801_0000)
}

#[test]
fn interrupt_controller_is_found_in_the_tree() {
    let blob = virt_tree(1);
    let dt = parse(&blob);
    let node = dt.iter_node_properties(b"/intc@8000000").unwrap();
    let controller = GenericV2::in_device_tree(node).unwrap();
    assert_eq!(controller, gic());
    assert_eq!(controller.distributor_base(), 0x800_0000);
    assert_eq!(controller.cpu_base(), 0x801_0000);
    assert_eq!(boot::interrupts::find_controller(&dt).unwrap(), gic());

    let node = dt.iter_node_properties(b"/timer").unwrap();
    assert!(matches!(
        GenericV2::in_device_tree(node),
        Err(ParseError::UnexpectedValue { name: b"compatible", reason: "incompatible", .. })
    ));
    let node = dt.iter_node_properties(b"/memory@40000000").unwrap();
    assert!(matches!(
        GenericV2::in_device_tree(node),
        Err(ParseError::UnexpectedValue {
            name: b"reg",
            reason: "cpu register region to be present",
            ..
        })
    ));
    let node = dt.iter_node_properties(b"/cpus").unwrap();
    assert!(matches!(
        GenericV2::in_device_tree(node),
        Err(ParseError::PropertyNotFound { name: "interrupt-controller" })
    ));
}

fn controller_node(build: fn(&mut Blob)) -> Vec<u8> {
    let mut b = Blob::new();
    b.begin("");
    b.cells("#address-cells", &[1]);
    b.cells("#size-cells", &[1]);
    b.begin("intc");
    build(&mut b);
    b.end();
    b.begin("timer");
    b.cells("interrupts", &[1, 13, 4, 0, 14, 1]);
    b.end();
    b.end();
    b.finish()
}

#[test]
fn interrupt_controller_nodes_are_checked() {
    let blob = controller_node(|b| {
        b.flag("interrupt-controller");
        b.cells("#interrupt-cells", &[2]);
    });
    assert!(matches!(
        boot::interrupts::find_controller(&parse(&blob)),
        Err(ParseError::UnexpectedValue {
            name: b"#interrupt-cells",
            reason: "driver supports GICv2 with #interrupt-cells=3 only",
            ..
        })
    ));
    let blob = controller_node(|b| {
        b.flag("interrupt-controller");
        b.cells("reg", &[1]);
    });
    assert!(matches!(
        boot::interrupts::find_controller(&parse(&blob)),
        Err(ParseError::UnexpectedValue {
            name: b"reg",
            reason: "distributor register region to be present",
            ..
        })
    ));
    let blob = controller_node(|b| {
        b.flag("interrupt-controller");
    });
    assert!(matches!(
        boot::interrupts::find_controller(&parse(&blob)),
        Err(ParseError::PropertyNotFound { name: "distributor base address" })
    ));
    let blob = controller_node(|b| {
        b.flag("interrupt-controller");
        b.cells("reg", &[0x1000, 0x100, 0, 0x100]);
    });
    assert!(matches!(
        boot::interrupts::find_controller(&parse(&blob)),
        Err(ParseError::PropertyNotFound { name: "CPU base address" })
    ));
    let blob = controller_node(|b| {
        b.strs("compatible", &["other", "arm,gic-400"]);
        b.cells("#interrupt-cells", &[3]);
        b.flag("interrupt-controller");
        b.cells("reg", &[0x1000, 0x100, 0x2000, 0x100, 0x3000, 0x100]);
    });
    let dt = parse(&blob);
    assert_eq!(
        boot::interrupts::find_controller(&dt).unwrap(),
        GenericV2::new(0x1000, 0x2000)
    );
    let system = boot::interrupts::init(&dt, 1000).unwrap();
    assert_eq!(system.timer.interrupt_id(), 32 + 14);
    assert_eq!(system.timer.interrupt_config().mode, TriggerMode::Edge);
    assert_eq!(system.timer.reset(), 100);
    let blob = small_tree();
    assert!(matches!(
        boot::interrupts::find_controller(&parse(&blob)),
        Err(ParseError::PropertyNotFound { name: "/intc" })
    ));
}

#[test]
fn interrupts_are_read_from_three_cells() {
    let mut data = Vec::new();
    for cell in [1u32, 13, 0x104, 1, 14, 0x104, 0, 1, 4, 0, 0x10, 1, 0, 5, 2, 1, 0, 8, 2, 0, 1, 0, 0, 0] {
        data.extend_from_slice(&cell.to_be_bytes());
    }
    data.extend_from_slice(&[0, 0, 0, 1, 0, 0]);
    let gic = gic();
    assert_eq!(gic.interrupt_in_device_tree(&data, 0), Some((29, TriggerMode::Level)));
    assert_eq!(gic.interrupt_in_device_tree(&data, 1), Some((30, TriggerMode::Level)));
    assert_eq!(gic.interrupt_in_device_tree(&data, 2), Some((33, TriggerMode::Level)));
    assert_eq!(gic.interrupt_in_device_tree(&data, 3), Some((48, TriggerMode::Edge)));
    assert_eq!(gic.interrupt_in_device_tree(&data, 4), Some((37, TriggerMode::Edge)));
    assert_eq!(gic.interrupt_in_device_tree(&data, 5), Some((16, TriggerMode::Level)));
    assert_eq!(gic.interrupt_in_device_tree(&data, 6), None);
    assert_eq!(gic.interrupt_in_device_tree(&data, 7), None);
    assert_eq!(gic.interrupt_in_device_tree(&data, 8), None);
    assert_eq!(gic.interrupt_in_device_tree(&data, usize::MAX), None);
    assert_eq!(gic.interrupt_in_device_tree(&[], 0), None);
    let mut wraps = Vec::new();
    for cell in [0u32, 0xffff_ffe0, 1, 0, 0xffff_ffdf, 1] {
        wraps.extend_from_slice(&cell.to_be_bytes());
    }
    assert_eq!(gic.interrupt_in_device_tree(&wraps, 0), None);
    assert_eq!(gic.interrupt_in_device_tree(&wraps, 1), Some((0xffff_ffff, TriggerMode::Edge)));
}

#[test]
fn interrupt_controller_registers_are_written_by_address() {
    let gic = gic();
    assert_eq!(
        gic.global_initialize(),
        RegisterWrite::Word { address: 0x800_0000, value: 1 }
    );
    assert_eq!(
        gic.initialize_for_core(),
        [
            RegisterWrite::Word { address: 0x801_0000, value: 1 },
            RegisterWrite::Word { address: 0x801_0004, value: 0xff },
            RegisterWrite::Word { address: 0x801_0008, value: 0 },
        ]
    );
    let config = Config { priority: 0x20, target_cpu: 0x01, mode: TriggerMode::Level };
    assert_eq!(
        gic.configure(30, &config),
        [
            RegisterWrite::Byte { address: 0x800_0400 + 30, value: 0x20 },
            RegisterWrite::Byte { address: 0x800_0800 + 30, value: 0xff },
        ]
    );
    assert_eq!(
        gic.enable(30),
        RegisterWrite::Word { address: 0x800_0100, value: 1 << 30 }
    );
    assert_eq!(
        gic.enable(33),
        RegisterWrite::Word { address: 0x800_0104, value: 1 << 1 }
    );
    assert_eq!(
        gic.disable(64),
        RegisterWrite::Word { address: 0x800_0188, value: 1 }
    );
    assert_eq!(
        gic.clear_pending(1019),
        RegisterWrite::Word { address: 0x800_0280 + 4 * 31, value: 1 << 27 }
    );
    assert_eq!(gic.acknowledge_register(), 0x801_000c);
    assert_eq!(gic.ack_interrupt(30), Some(30));
    assert_eq!(gic.ack_interrupt(0), Some(0));
    assert_eq!(gic.ack_interrupt(1022), Some(1022));
    assert_eq!(gic.ack_interrupt(1023), None);
    assert_eq!(
        gic.finish_interrupt(30),
        RegisterWrite::Word { address: 0x801_0010, value: 30 }
    );
    assert_eq!(
        kernel_core::exceptions::interrupt::controller::id_to_bit_offset(77),
        (2, 13)
    );
    assert_eq!(Config::default().priority, 0);
    assert_eq!(TriggerMode::default(), TriggerMode::Level);
}

#[test]
fn timer_is_found_in_the_tree() {
    let blob = virt_tree(1);
    let dt = parse(&blob);
    let node = dt.iter_node_properties(b"/timer").unwrap();
    let timer = Timer::in_device_tree(node, &gic(), 62_500_000, 10).unwrap();
    assert_eq!(timer.interrupt_id(), 30);
    assert_eq!(timer.reset(), 6_250_000);
    assert_eq!(
        timer.interrupt_config(),
        Config { priority: 0, target_cpu: 0x01, mode: TriggerMode::Level }
    );
    let node = dt.iter_node_properties(b"/timer").unwrap();
    assert_eq!(Timer::in_device_tree(node, &gic(), 1_000_001, 1000).unwrap().reset(), 1000);

    let node = dt.iter_node_properties(b"/pmu").unwrap();
    assert!(matches!(
        Timer::in_device_tree(node, &gic(), 1000, 10),
        Err(ParseError::UnexpectedValue {
            name: b"interrupts",
            reason: "expected interrupt #1 to exist",
            ..
        })
    ));
    let node = dt.iter_node_properties(b"/intc@8000000").unwrap();
    assert!(matches!(
        Timer::in_device_tree(node, &gic(), 1000, 10),
        Err(ParseError::UnexpectedValue { name: b"compatible", reason: "incompatible", .. })
    ));
    let node = dt.iter_node_properties(b"/cpus").unwrap();
    assert!(matches!(
        Timer::in_device_tree(node, &gic(), 1000, 10),
        Err(ParseError::PropertyNotFound { name: "interrupts" })
    ));
}

#[test]
fn timer_control_bits() {
    assert!(!enabled(TimerControlRegister(0)));
    assert!(interrupts_enabled(TimerControlRegister(0)));
    assert!(!condition_met(TimerControlRegister(0)));
    assert!(enabled(TimerControlRegister(0b001)));
    assert!(!interrupts_enabled(TimerControlRegister(0b010)));
    assert!(condition_met(TimerControlRegister(0b100)));
    assert_eq!(set_enabled(TimerControlRegister(0b110), true).0, 0b111);
    assert_eq!(set_enabled(TimerControlRegister(0b111), false).0, 0b110);
    assert_eq!(set_interrupts_enabled(TimerControlRegister(0b111), true).0, 0b101);
    assert_eq!(set_interrupts_enabled(TimerControlRegister(0b101), false).0, 0b111);
    assert_eq!(set_interrupts_enabled(TimerControlRegister(1 << 40), false).0, (1 << 40) | 2);
}

#[test]
fn interrupts_come_up_from_the_tree() {
    let blob = virt_tree(1);
    let dt = parse(&blob);
    let system = boot::interrupts::init(&dt, 62_500_000).unwrap();
    assert_eq!(system.controller, gic());
    assert_eq!(system.timer.interrupt_id(), 30);
    assert_eq!(system.timer.reset(), 6_250_000);
    assert_eq!(
        boot::interrupts::startup_writes(&system),
        [
            RegisterWrite::Word { address: 0x800_0000, value: 1 },
            RegisterWrite::Byte { address: 0x800_0400 + 30, value: 0 },
            RegisterWrite::Byte { address: 0x800_0800 + 30, value: 0xff },
            RegisterWrite::Word { address: 0x800_0100, value: 1 << 30 },
        ]
    );
    let (writes, control, value) =
        boot::interrupts::init_for_core(&system, TimerControlRegister(0b110));
    assert_eq!(
        writes,
        [
            RegisterWrite::Word { address: 0x801_0000, value: 1 },
            RegisterWrite::Word { address: 0x801_0004, value: 0xff },
            RegisterWrite::Word { address: 0x801_0008, value: 0 },
        ]
    );
    assert_eq!(control.0, 0b101);
    assert_eq!(value, 6_250_000);
    assert!(matches!(
        system.handler.process_interrupts(Some(30)),
        Ok(kernel_core::exceptions::interrupt::handler::Action::NextTimeSlice { finish: 30 })
    ));

    let mut b = Blob::new();
    b.begin("");
    b.begin("intc@8000000");
    b.flag("interrupt-controller");
    b.cells("reg", &[0, 0x800_0000, 0x1_0000, 0, 0x801_0000, 0x1_0000]);
    b.end();
    b.end();
    let blob = b.finish();
    assert!(matches!(
        boot::interrupts::init(&parse(&blob), 1000),
        Err(ParseError::PropertyNotFound { name: "/timer" })
    ));
}

#[test]
fn memory_comes_up_from_the_tree() {
    let blob = virt_tree(1);
    let dt = parse(&blob);
    let kernel = (0x4008_0000u64, 0x41_bb90usize);
    let device_tree = (0x4800_0000u64 - 0x10_0000, blob.len());
    let root_table = PhysicalAddress::new(0x4007_0000);
    let mut system = boot::memory::init(&dt, vec![kernel, device_tree], root_table).unwrap();
    assert_eq!(system.page_allocator.page_size(), PageSize::FourKiB);
    let before_kernel = 0x80;
    let after_kernel = (0x47f0_0000 - 0x4049_c000) / 4096;
    let after_blob = (0x10_0000 - blob.len().next_multiple_of(4096)) / 4096;
    let tables = 1;
    assert_eq!(
        system.page_allocator.total_pages_free(),
        before_kernel + after_kernel + after_blob - tables
    );
    let pages = system.page_allocator.allocate(1).unwrap();
    assert!(pages.to_addr() >= 0x4000_0000 && pages.to_addr() < 0x4800_0000);
    let tables = &system.kernel_page_tables;
    assert!(tables.high_tag());
    assert_eq!(tables.physical_address(), root_table);
    for address in [0u64, 0x900_0000, 0x3fff_ffff, 0x4000_0000, 0x4008_1234, 0x47ff_ffff, 0x7fff_ffff] {
        assert_eq!(
            tables.physical_address_of(VirtualAddress::new(0xffff_0000_0000_0000 + address)),
            Some(PhysicalAddress::new(address))
        );
    }
    assert_eq!(
        tables.physical_address_of(VirtualAddress::new(0xffff_0000_8000_0000)),
        None
    );
    assert_eq!(tables.physical_address_of(VirtualAddress::new(0x4000_0000)), None);
    let layout = kernel_core::memory::heap::Layout::from_size_align(100, 8).unwrap();
    let payload = system.heap.allocate(&mut system.page_allocator, layout).unwrap();
    assert!(payload >= 0x4000_0000 && payload < 0x4800_0000);
    assert!(payload < 0x4008_0000 || payload >= 0x4008_0000 + 0x41_bb90);
}

#[test]
fn memory_does_not_come_up_from_a_tree_without_memory() {
    let root_table = PhysicalAddress::new(0x4007_0000);
    let blob = small_tree();
    assert!(matches!(
        boot::memory::init(&parse(&blob), Vec::new(), root_table),
        Err(boot::memory::InitError::DeviceTree { .. })
    ));
    let blob = virt_tree(1);
    assert!(matches!(
        boot::memory::init(
            &parse(&blob),
            vec![(0x4100_0000, 0x1000), (0x4000_0000, 0x1000)],
            root_table
        ),
        Err(boot::memory::InitError::DeviceTree { .. })
    ));
    assert!(matches!(
        boot::memory::init(&parse(&blob), vec![(0x4000_0000, 0x800_0000)], root_table),
        Err(boot::memory::InitError::Memory { source: MemoryError::OutOfMemory })
    ));
    assert!(matches!(
        boot::memory::init(&parse(&blob), vec![(0x4000_0000, 0x800_0000 - 0x800)], root_table),
        Err(boot::memory::InitError::Memory { source: MemoryError::InvalidSize })
    ));
    assert!(matches!(
        boot::memory::init(
            &parse(&blob),
            vec![(0x4000_0000, 0x1000), (0x4000_1800, 0x800_0000 - 0x1800)],
            root_table
        ),
        Err(boot::memory::InitError::Memory { source: MemoryError::InvalidSize })
    ));
    assert!(boot::memory::init(
        &parse(&blob),
        vec![(0x3000_0000, 0x1000_0000), (0x4000_1000, 0x800_0000)],
        root_table
    )
    .is_ok());
    let mut b = Blob::new();
    b.begin("");
    b.begin("memory@40001000");
    b.cells("reg", &[0, 0x4000_1000, 0x800_0000]);
    b.end();
    b.end();
    let unaligned = b.finish();
    assert!(matches!(
        boot::memory::init(&parse(&unaligned), Vec::new(), root_table),
        Err(boot::memory::InitError::DeviceTree { .. })
    ));
    let mut b = Blob::new();
    b.begin("");
    b.begin("memory@40000000");
    b.cells("reg", &[0, 0x4000_0000, 0x800_0000]);
    b.end();
    b.begin("memory@80000000");
    b.cells("reg", &[0, 0x8000_0000, 0x800_0000]);
    b.end();
    b.end();
    let two = b.finish();
    assert!(boot::memory::find_memory_range(&parse(&two)).is_none());
    assert!(matches!(
        boot::memory::init(&parse(&two), Vec::new(), root_table),
        Err(boot::memory::InitError::DeviceTree { .. })
    ));
}

#[test]
fn errors_can_outlive_the_blob() {
    let owned = {
        let blob = virt_tree(1);
        let dt = parse(&blob);
        let node = dt.iter_node_properties(b"/memory@40000000").unwrap();
        GenericV2::in_device_tree(node).unwrap_err().to_owned()
    };
    match owned {
        OwnedParseError::UnexpectedValue {
            name,
            value: OwnedValue::Reg { data, address_cells, size_cells },
            reason,
        } => {
            assert_eq!(name, b"reg");
            assert_eq!(data, [0, 0, 0, 0, 0x40, 0, 0, 0, 0, 0, 0, 0, 0x08, 0, 0, 0]);
            assert_eq!((address_cells, size_cells), (2, 2));
            assert_eq!(reason, "cpu register region to be present");
        }
        e => panic!("unexpected error: {e:?}"),
    }
    assert!(matches!(
        ParseError::PropertyNotFound { name: "reg" }.to_owned(),
        OwnedParseError::PropertyNotFound { name: "reg" }
    ));
    let wrong_type = Value::String(b"text").try_into_u32().unwrap_err().to_owned();
    assert!(matches!(
        wrong_type,
        OwnedParseError::UnexpectedType { name, value: OwnedValue::String(text), expected_type: "u32" }
            if name == b"u32" && text == b"text"
    ));
    assert!(matches!(Value::U32(1).to_owned_value(), OwnedValue::U32(1)));
    assert!(matches!(Value::U64(2).to_owned_value(), OwnedValue::U64(2)));
    assert!(matches!(Value::Phandle(3).to_owned_value(), OwnedValue::Phandle(3)));
    assert!(matches!(
        Value::Bytes(b"b").to_owned_value(),
        OwnedValue::Bytes(bytes) if bytes == b"b"
    ));
    assert!(matches!(
        Value::StringList(StringList { data: b"one\0two\0" }).to_owned_value(),
        OwnedValue::StringList(bytes) if bytes == b"one\0two\0"
    ));
}

fn tree_with_memory(start: u64, length: u64) -> Vec<u8> {
    let mut b = Blob::new();
    b.begin("");
    b.cells("#address-cells", &[2]);
    b.cells("#size-cells", &[2]);
    b.begin(&format!("memory@{start:x}"));
    b.cells(
        "reg",
        &[(start >> 32) as u32, start as u32, (length >> 32) as u32, length as u32],
    );
    b.end();
    b.end();
    b.finish()
}

#[test]
fn memory_comes_up_where_the_tables_have_their_pages() {
    let start = 0x80_4000_0000u64;
    let length = 0x800_0000u64;
    let blob = tree_with_memory(start, length);
    let root_table = PhysicalAddress::new(0x8_0000);
    let all_but = |pages: u64| vec![(start, (length - pages * 4096) as usize)];
    assert!(matches!(
        boot::memory::init(&parse(&blob), all_but(1), root_table),
        Err(boot::memory::InitError::PageTables {
            source: kernel_core::memory::page_table::Error::Allocator {
                source: MemoryError::OutOfMemory
            }
        })
    ));
    let mut system = boot::memory::init(&parse(&blob), all_but(2), root_table).unwrap();
    assert_eq!(system.page_allocator.total_pages_free(), 0);
    assert!(matches!(
        system.page_allocator.allocate(1),
        Err(MemoryError::OutOfMemory)
    ));
    let tables = &system.kernel_page_tables;
    for address in [
        0u64,
        0x900_0000,
        0x7f_ffff_ffff,
        0x80_0000_0000,
        0x80_3fff_ffff,
        start,
        start + 0x1234,
        start + 0x3fff_ffff,
    ] {
        assert_eq!(
            tables.physical_address_of(VirtualAddress::new(0xffff_0000_0000_0000 + address)),
            Some(PhysicalAddress::new(address)),
            "{address:x}"
        );
    }
    assert_eq!(
        tables.physical_address_of(VirtualAddress::new(0xffff_0000_0000_0000 + start + 0x4000_0000)),
        None
    );
    let system = boot::memory::init(&parse(&blob), all_but(5), root_table).unwrap();
    assert_eq!(system.page_allocator.total_pages_free(), 3);

    let one_entry = tree_with_memory(0x80_0000_0000, 0x4000_1000);
    let system = boot::memory::init(
        &parse(&one_entry),
        vec![(0x80_0000_0000, 0x4000_0000)],
        root_table,
    );
    assert!(matches!(
        system,
        Err(boot::memory::InitError::PageTables { .. })
    ));
    let system = boot::memory::init(
        &parse(&one_entry),
        vec![(0x80_0000_0000, 0x3fff_f000)],
        root_table,
    )
    .unwrap();
    assert_eq!(system.page_allocator.total_pages_free(), 0);
    assert_eq!(
        system.kernel_page_tables.physical_address_of(VirtualAddress::new(0xffff_0080_7fff_ffff)),
        Some(PhysicalAddress::new(0x80_7fff_ffff))
    );
}

#[test]
fn a_walk_that_ends_says_why() {
    let blob = virt_tree(8);
    let tree = parse(&blob);
    assert!(tree.ends_well());
    let mut it = tree.iter_structure();
    assert!(!it.at_end() && !it.malformed());
    while it.next().is_some() {}
    assert!(it.at_end());
    assert!(!it.malformed());
    assert!(it.next().is_none());
    assert!(it.at_end());

    let good = small_tree();
    assert!(parse(&good).ends_well());
    let structure_offset = u32::from_be_bytes(good[8..12].try_into().unwrap()) as usize;
    let structure_size = u32::from_be_bytes(good[36..40].try_into().unwrap()) as usize;

    let mut undefined = good.clone();
    let last_word = structure_offset + structure_size - 8;
    undefined[last_word..last_word + 4].copy_from_slice(&7u32.to_be_bytes());
    let tree = parse(&undefined);
    assert!(!tree.ends_well());
    let mut it = tree.iter_structure();
    let mut tokens = 0;
    while it.next().is_some() {
        tokens += 1;
    }
    assert_eq!(tokens, 11);
    assert!(it.malformed());
    assert!(!it.at_end());

    let mut no_end = good.clone();
    let end = structure_offset + structure_size - 4;
    no_end[end..end + 4].copy_from_slice(&4u32.to_be_bytes());
    let tree = parse(&no_end);
    assert!(!tree.ends_well());
    let mut it = tree.iter_structure();
    while it.next().is_some() {}
    assert!(it.malformed());

    let mut outside = good.clone();
    let first_property = structure_offset + 4 + 4;
    assert_eq!(outside[first_property..first_property + 4], 3u32.to_be_bytes());
    outside[first_property + 4..first_property + 8].copy_from_slice(&0x1000u32.to_be_bytes());
    let tree = parse(&outside);
    assert!(!tree.ends_well());
    let mut it = tree.iter_structure();
    assert!(matches!(it.next(), Some(Token::StartNode(b""))));
    assert!(it.next().is_none());
    assert!(it.malformed());
    let node = tree.iter_node_properties(b"/").unwrap();
    assert!(node.malformed());
    assert!(tree.find_property(b"/b/reg").is_none());
    let node = parse(&good).iter_node_properties(b"/").unwrap();
    assert!(!node.malformed());
}

#[test]
fn a_reservation_block_that_ends_says_why() {
    let mut data = Vec::new();
    for n in [1u64, 2, 0, 0, 4, 5] {
        data.extend_from_slice(&n.to_be_bytes());
    }
    let mut regions = MemRegionIter::for_data(&data);
    assert!(!regions.terminated());
    assert_eq!(regions.next(), Some((1, 2)));
    assert_eq!(regions.next(), None);
    assert!(regions.terminated());
    let mut regions = MemRegionIter::for_data(&data[..31]);
    assert_eq!(regions.next(), Some((1, 2)));
    assert_eq!(regions.next(), None);
    assert!(!regions.terminated());
    let mut regions = MemRegionIter::for_data(&data[..16]);
    assert_eq!(regions.next(), Some((1, 2)));
    assert_eq!(regions.next(), None);
    assert!(!regions.terminated());
    let blob = small_tree();
    let tree = parse(&blob);
    let mut regions = tree.iter_reserved_memory_regions();
    while regions.next().is_some() {}
    assert!(regions.terminated());
}

#[test]
fn interrupt_cells_are_read_as_one_number() {
    let blob = controller_node(|b| {
        b.flag("interrupt-controller");
        b.prop("#interrupt-cells", &[1, 0, 0, 3]);
        b.cells("reg", &[0x1000, 0x100, 0x2000, 0x100]);
    });
    assert!(matches!(
        boot::interrupts::find_controller(&parse(&blob)),
        Err(ParseError::UnexpectedValue {
            name: b"#interrupt-cells",
            reason: "driver supports GICv2 with #interrupt-cells=3 only",
            ..
        })
    ));
    let blob = controller_node(|b| {
        b.flag("interrupt-controller");
        b.prop("#interrupt-cells", &[3, 0, 0, 0]);
        b.cells("reg", &[0x1000, 0x100, 0x2000, 0x100]);
    });
    assert!(matches!(
        boot::interrupts::find_controller(&parse(&blob)),
        Err(ParseError::UnexpectedValue { name: b"#interrupt-cells", .. })
    ));
    let blob = controller_node(|b| {
        b.flag("interrupt-controller");
        b.cells("#interrupt-cells", &[3, 3]);
        b.cells("reg", &[0x1000, 0x100, 0x2000, 0x100]);
    });
    assert!(matches!(
        boot::interrupts::find_controller(&parse(&blob)),
        Err(ParseError::UnexpectedValue { name: b"#interrupt-cells", .. })
    ));
    let blob = controller_node(|b| {
        b.flag("interrupt-controller");
        b.prop("#interrupt-cells", &[0, 0, 0, 3]);
        b.cells("reg", &[0x1000, 0x100, 0x2000, 0x100]);
    });
    assert_eq!(
        boot::interrupts::find_controller(&parse(&blob)).unwrap(),
        GenericV2::new(0x1000, 0x2000)
    );
}

#[test]
fn boot_asks_for_nothing_before_an_unsupported_core() {
    let cores = vec![
        CoreInfo { id: 0, enable_method: b"psci\0" },
        CoreInfo { id: 1, enable_method: b"spin-table\0" },
        CoreInfo { id: 2, enable_method: b"psci\0" },
    ];
    let mut pa = RecordingPageAllocator {
        page_size: PageSize::FourKiB,
        answer: Ok(PhysicalAddress::new(0x4000_0000)),
        requests: Vec::new(),
    };
    let mut pm = RecordingPowerManager { answer: Ok(()), started: Vec::new() };
    match boot_all_cores(&cores, &mut pm, PhysicalAddress::new(0x8_0000), &mut pa) {
        Err(BootAllCoresError::UnsupportedEnableMethod { method }) => {
            assert_eq!(method, b"spin-table\0")
        }
        r => panic!("unexpected result: {r:?}"),
    }
    assert!(pa.requests.is_empty());
    assert!(pm.started.is_empty());
}

#[test]
fn a_node_cursor_that_ends_says_why() {
    let good = small_tree();
    let tree = parse(&good);
    let mut properties = tree.iter_node_properties(b"/b").unwrap();
    assert!(!properties.node_ended());
    assert!(properties.next().is_some());
    assert!(!properties.node_ended());
    assert!(properties.next().is_none());
    assert!(properties.node_ended());
    assert!(!properties.malformed());
    assert!(properties.next().is_none());
    assert!(properties.node_ended());
    let mut nodes = tree.iter_nodes_named(b"/", b"b").unwrap();
    assert!(!nodes.node_ended());
    assert!(nodes.next().is_some());
    assert!(nodes.next().is_none());
    assert!(nodes.node_ended());
    assert!(!nodes.malformed());

    let structure_offset = u32::from_be_bytes(good[8..12].try_into().unwrap()) as usize;
    let structure_size = u32::from_be_bytes(good[36..40].try_into().unwrap()) as usize;
    let mut undefined = good.clone();
    let last_word = structure_offset + structure_size - 8;
    undefined[last_word..last_word + 4].copy_from_slice(&7u32.to_be_bytes());
    let tree = parse(&undefined);
    let mut properties = tree.iter_node_properties(b"/").unwrap();
    assert!(properties.next().is_some());
    assert!(properties.next().is_none());
    assert!(!properties.node_ended());
    assert!(properties.malformed());
    let mut properties = tree.iter_node_properties(b"/b").unwrap();
    assert!(properties.next().is_some());
    assert!(properties.next().is_none());
    assert!(properties.node_ended());
    let mut nodes = tree.iter_nodes_named(b"/", b"b").unwrap();
    assert!(nodes.next().is_some());
    assert!(nodes.next().is_none());
    assert!(!nodes.node_ended());
    assert!(nodes.malformed());
}
