//! Parse errors that own the bytes that they hold, for errors that outlive the blob.
use vstd::prelude::*;

use super::fdt::copy_bytes;
use super::{ParseError, ParseErrorView, Value, ValueView};

verus! {

/// A property value that owns its bytes.
#[derive(Debug)]
#[allow(inconsistent_fields)]
pub enum OwnedValue {
    /// A 32-bit integer.
    U32(u32),
    /// A 64-bit integer.
    U64(u64),
    /// A `phandle` value that references another node.
    Phandle(u32),
    /// A single printable string, without its terminator.
    String(Vec<u8>),
    /// A list of strings, as its raw bytes.
    StringList(Vec<u8>),
    /// A blob of bytes.
    Bytes(Vec<u8>),
    /// An array of (address, length) pairs.
    Reg {
        /// Raw bytes that make up the array.
        data: Vec<u8>,
        /// Number of u32 cells that make up an address.
        address_cells: u32,
        /// Number of u32 cells that make up a size.
        size_cells: u32,
    },
}

impl View for OwnedValue {
    type V = ValueView;

    open spec fn view(&self) -> ValueView {
        match *self {
            OwnedValue::U32(v) => ValueView::U32(v),
            OwnedValue::U64(v) => ValueView::U64(v),
            OwnedValue::Phandle(v) => ValueView::Phandle(v),
            OwnedValue::String(s) => ValueView::String(s@),
            OwnedValue::StringList(l) => ValueView::StringList(l@),
            OwnedValue::Bytes(b) => ValueView::Bytes(b@),
            OwnedValue::Reg { data, address_cells, size_cells } => ValueView::Reg {
                data: data@,
                address_cells,
                size_cells,
            },
        }
    }
}

/// A parse error that owns the bytes that it holds.
#[derive(Debug)]
#[allow(inconsistent_fields)]
pub enum OwnedParseError {
    /// The property was not found in the node.
    PropertyNotFound {
        /// The name of the desired property.
        name: &'static str,
    },
    /// A property was found to have an unexpected type.
    UnexpectedType {
        /// The name of the property.
        name: Vec<u8>,
        /// The actual value of the property.
        value: OwnedValue,
        /// A description of the type of value expected to be associated with this property.
        expected_type: &'static str,
    },
    /// A property was found to have an unexpected value.
    UnexpectedValue {
        /// The name of the property.
        name: Vec<u8>,
        /// The actual value of the property.
        value: OwnedValue,
        /// A description further explaining why the value was unexpected.
        reason: &'static str,
    },
}

impl View for OwnedParseError {
    type V = ParseErrorView;

    open spec fn view(&self) -> ParseErrorView {
        match *self {
            OwnedParseError::PropertyNotFound { name } => ParseErrorView::PropertyNotFound {
                name: name@,
            },
            OwnedParseError::UnexpectedType {
                name,
                value,
                expected_type,
            } => ParseErrorView::UnexpectedType {
                name: name@,
                value: value@,
                expected_type: expected_type@,
            },
            OwnedParseError::UnexpectedValue {
                name,
                value,
                reason,
            } => ParseErrorView::UnexpectedValue { name: name@, value: value@, reason: reason@ },
        }
    }
}

impl<'dt> Value<'dt> {
    /// A copy of the value that owns its bytes.
    pub fn to_owned_value(&self) -> (owned: OwnedValue)
        ensures
            owned@ == self@,
    {
        match *self {
            Value::U32(v) => OwnedValue::U32(v),
            Value::U64(v) => OwnedValue::U64(v),
            Value::Phandle(v) => OwnedValue::Phandle(v),
            Value::String(s) => OwnedValue::String(copy_bytes(s)),
            Value::StringList(l) => OwnedValue::StringList(copy_bytes(l.data)),
            Value::Bytes(b) => OwnedValue::Bytes(copy_bytes(b)),
            Value::Reg(r) => OwnedValue::Reg {
                data: copy_bytes(r.data),
                address_cells: r.address_cells,
                size_cells: r.size_cells,
            },
        }
    }
}

impl<'dt> ParseError<'dt> {
    /// A copy of the error that owns its bytes, and so can outlive the blob.
    pub fn to_owned(&self) -> (owned: OwnedParseError)
        ensures
            owned@ == self@,
    {
        match *self {
            ParseError::PropertyNotFound { name } => OwnedParseError::PropertyNotFound { name },
            ParseError::UnexpectedType {
                name,
                value,
                expected_type,
            } => OwnedParseError::UnexpectedType {
                name: copy_bytes(name),
                value: value.to_owned_value(),
                expected_type,
            },
            ParseError::UnexpectedValue { name, value, reason } => OwnedParseError::UnexpectedValue {
                name: copy_bytes(name),
                value: value.to_owned_value(),
                reason,
            },
        }
    }
}

} // verus!
