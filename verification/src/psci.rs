//! Client interface for the ARM Power State Coordination Interface (PSCI).
//!
//! The client works out which firmware call starts a core and reads the firmware's answer;
//! making the call is left to the caller.
use vstd::prelude::*;
use vstd::string::StringSliceAdditionalSpecFns;

use crate::memory::PhysicalAddress;
use crate::platform::cpu::{Id as CpuId, PowerManagerError};
use crate::platform::device_tree::fdt::{be_u32, read_u32_at};
use crate::platform::device_tree::iter::{properties_of, NodePropertyIter};
use crate::platform::device_tree::{
    find_node, lemma_names_differ, name_is, DeviceTree, ParseError, ParseErrorView,
};

verus! {

/// The meaning of a PSCI return value: success, or the error that it stands for.
pub open spec fn spec_psci_error_code_to_result(result: i32) -> Result<(), PowerManagerError> {
    if result == 0 {
        Ok(())
    } else if result == -2 {
        Err(PowerManagerError::InvalidCoreId)
    } else if result == -4 {
        Err(PowerManagerError::AlreadyOn)
    } else if result == -5 {
        Err(PowerManagerError::Pending)
    } else if result == -9 {
        Err(PowerManagerError::InvalidAddress)
    } else {
        Err(PowerManagerError::Internal)
    }
}

/// Convert a PSCI return value to a Rust [`Result`].
pub fn psci_error_code_to_result(result: i32) -> (r: Result<(), PowerManagerError>)
    ensures
        r == spec_psci_error_code_to_result(result),
{
    match result {
        0 => Ok(()),
        -2 => Err(PowerManagerError::InvalidCoreId),
        -4 => Err(PowerManagerError::AlreadyOn),
        -5 => Err(PowerManagerError::Pending),
        -9 => Err(PowerManagerError::InvalidAddress),
        _ => Err(PowerManagerError::Internal),
    }
}

/// Method for invoking a PSCI firmware function.
#[derive(Debug, Clone, Copy, PartialEq, Eq, Structural)]
pub enum CallingMethod {
    /// Use the SMC instruction.
    Smc,
    /// Use the HVC instruction.
    Hvc,
}

/// Function ID for `CPU_ON` PSCI function.
pub const FUNC_ID_CPU_ON: u32 = 0xC400_0003;

/// The PSCI driver.
#[derive(Debug, Clone, Copy, PartialEq, Eq, Structural)]
pub struct Psci {
    /// The calling method reported by the firmware.
    pub calling_method: CallingMethod,
    /// The current function ID for `CPU_ON` PSCI function reported by the firmware.
    pub func_id_cpu_on: u32,
}

/// A call into the firmware, for the caller to make.
#[derive(Debug, Clone, Copy)]
pub struct FirmwareCall {
    /// The instruction that makes the call.
    pub method: CallingMethod,
    /// The function to call, passed in `w0`.
    pub function_id: u32,
    /// The arguments of the function, passed in `x1` to `x3`.
    pub arguments: [u64; 3],
}

/// The calling method that the value `data` of a `method` property names, if any.
pub open spec fn method_named(data: Seq<u8>) -> Option<CallingMethod> {
    if data == "smc".spec_bytes().push(0u8) {
        Some(CallingMethod::Smc)
    } else if data == "hvc".spec_bytes().push(0u8) {
        Some(CallingMethod::Hvc)
    } else {
        None
    }
}

/// What the property `name` with the bytes `data` adds to what is known of the firmware
/// (`found`: the calling method and the function id of `CPU_ON`).
pub open spec fn scan_property(
    found: (Option<CallingMethod>, Option<u32>),
    name: Seq<u8>,
    data: Seq<u8>,
) -> (Option<CallingMethod>, Option<u32>) {
    if name == "method".spec_bytes() {
        (method_named(data), found.1)
    } else if name == "cpu_on".spec_bytes() && data.len() >= 4 {
        (found.0, Some(be_u32(data)))
    } else {
        found
    }
}

/// What the properties `properties`, read in order, add to what is known of the firmware.
pub open spec fn scan_properties(
    found: (Option<CallingMethod>, Option<u32>),
    properties: Seq<(Seq<u8>, Seq<u8>)>,
) -> (Option<CallingMethod>, Option<u32>)
    decreases properties.len(),
{
    if properties.len() == 0 {
        found
    } else {
        scan_properties(
            scan_property(found, properties[0].0, properties[0].1),
            properties.skip(1),
        )
    }
}

/// The client that the node with the properties `properties` describes: the calling method
/// that its `method` property names and the function id that its `cpu_on` property gives
/// (by default [`FUNC_ID_CPU_ON`]). A `cpu_on` property of fewer than four bytes is passed
/// over.
pub open spec fn client_in_node(properties: Seq<(Seq<u8>, Seq<u8>)>) -> Result<
    Psci,
    ParseErrorView,
> {
    let found = scan_properties((None, None), properties);
    match found.0 {
        None => Err(ParseErrorView::PropertyNotFound { name: "method"@ }),
        Some(calling_method) => Ok(
            Psci {
                calling_method,
                func_id_cpu_on: match found.1 {
                    Some(id) => id,
                    None => FUNC_ID_CPU_ON,
                },
            },
        ),
    }
}

/// Whether `data` is `text` followed by a zero byte.
fn is_c_string(data: &[u8], text: &str) -> (b: bool)
    ensures
        b == (data@ == text.spec_bytes().push(0u8)),
{
    let n = data.len();
    if n == 0 || data[n - 1] != 0 {
        proof {
            if data@ == text.spec_bytes().push(0u8) {
                assert(data@[n - 1] == 0u8);
            }
        }
        return false;
    }
    let head = vstd::slice::slice_subrange(data, 0, n - 1);
    let same = name_is(head, text);
    proof {
        if same {
            assert(data@ =~= text.spec_bytes().push(0u8));
        } else if data@ == text.spec_bytes().push(0u8) {
            assert(head@ =~= text.spec_bytes());
        }
    }
    same
}

impl Psci {
    /// Create a new client from the properties of the firmware's node.
    pub fn in_node<'a>(node: NodePropertyIter<'a>) -> (r: Result<Self, ParseError<'a>>)
        requires
            node.well_formed(),
        ensures
            match client_in_node(node.properties()) {
                Err(e) => r is Err && r->Err_0@ == e,
                Ok(client) => r == Ok::<Psci, ParseError<'a>>(client),
            },
    {
        let mut cursor = node;
        let mut found: (Option<CallingMethod>, Option<u32>) = (None, None);
        let ghost all = node.properties();
        let ghost mut seen: int = 0;
        proof {
            assert(all.skip(0) =~= all);
        }
        loop
            invariant
                cursor.well_formed(),
                all == node.properties(),
                0 <= seen <= all.len(),
                cursor.properties() == all.skip(seen),
                scan_properties(found, all.skip(seen)) == scan_properties((None, None), all),
            decreases all.len() - seen,
        {
            match cursor.next() {
                None => {
                    return match found.0 {
                        None => Err(ParseError::PropertyNotFound { name: "method" }),
                        Some(calling_method) => Ok(
                            Self {
                                calling_method,
                                func_id_cpu_on: match found.1 {
                                    Some(id) => id,
                                    None => FUNC_ID_CPU_ON,
                                },
                            },
                        ),
                    };
                },
                Some((name, value)) => {
                    proof {
                        lemma_names_differ();
                    }
                    if name_is(name, "method") {
                        match value.as_bytes(name) {
                            Err(e) => {
                                return Err(e);
                            },
                            Ok(data) => {
                                found.0 = if is_c_string(data, "smc") {
                                    Some(CallingMethod::Smc)
                                } else if is_c_string(data, "hvc") {
                                    Some(CallingMethod::Hvc)
                                } else {
                                    None
                                };
                            },
                        }
                    } else if name_is(name, "cpu_on") {
                        match value.as_bytes(name) {
                            Err(e) => {
                                return Err(e);
                            },
                            Ok(data) => {
                                if data.len() >= 4 {
                                    assert(data@.skip(0) =~= data@);
                                    found.1 = Some(read_u32_at(data, 0));
                                }
                            },
                        }
                    }
                    proof {
                        assert(all.skip(seen).skip(1) =~= all.skip(seen + 1));
                        seen = seen + 1;
                    }
                },
            }
        }
    }

    /// Create a new client using device tree information for portability: from the node
    /// `/psci`.
    ///
    /// # Errors
    /// `PropertyNotFound` with the node's path if the tree has no such node, and with
    /// `method` if the node does not name a calling method that is known.
    pub fn in_device_tree<'a>(dt: &DeviceTree<'a>) -> (r: Result<Self, ParseError<'a>>)
        ensures
            match find_node(dt.tokens(), "/psci".spec_bytes(), 0, (None, None)) {
                None => r is Err && r->Err_0@ == (ParseErrorView::PropertyNotFound {
                    name: "/psci"@,
                }),
                Some((tokens, _)) => match client_in_node(properties_of(tokens, 1)) {
                    Err(e) => r is Err && r->Err_0@ == e,
                    Ok(client) => r == Ok::<Psci, ParseError<'a>>(client),
                },
            },
    {
        match dt.iter_node_properties("/psci".as_bytes()) {
            None => Err(ParseError::PropertyNotFound { name: "/psci" }),
            Some(node) => Self::in_node(node),
        }
    }

    /// The firmware call that powers on the core `target_cpu`, which will start executing
    /// at `entry_point_address` with `arg` passed as the argument.
    /// The firmware's answer is read with [`psci_error_code_to_result`].
    pub fn start_core(&self, target_cpu: CpuId, entry_point_address: PhysicalAddress, arg: u64) -> (call:
        FirmwareCall)
        ensures
            call.method == self.calling_method,
            call.function_id == self.func_id_cpu_on,
            call.arguments@ == seq![target_cpu, entry_point_address.addr(), arg],
    {
        let arguments = [target_cpu, entry_point_address.to_addr(), arg];
        assert(arguments@ =~= seq![target_cpu, entry_point_address.addr(), arg]);
        FirmwareCall { method: self.calling_method, function_id: self.func_id_cpu_on, arguments }
    }

    /// The string value of the "enable-method" device tree property that indicates that a
    /// core can be enabled with this interface.
    pub fn enable_method_name() -> (name: &'static [u8])
        ensures
            name@ == "psci".spec_bytes().push(0u8),
    {
        let name: &'static [u8] = "psci\0".as_bytes();
        proof {
            reveal_strlit("psci\0");
            reveal_strlit("psci");
            vstd::utf8::is_ascii_chars_encode_utf8("psci\0"@);
            vstd::utf8::is_ascii_chars_encode_utf8("psci"@);
            assert(name@ =~= "psci".spec_bytes().push(0u8));
        }
        name
    }
}

} // verus!
