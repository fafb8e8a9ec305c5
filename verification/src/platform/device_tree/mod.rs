//! Devicetree blob parser.
//!
//! Parser and search routines for the flattened devicetree format, to obtain hardware and
//! boot parameters.
//!
//! Nothing here allocates or copies: every name, string and byte slice that is handed out
//! borrows from the blob.
use vstd::prelude::*;
use vstd::slice::slice_subrange;
use vstd::string::StringSliceAdditionalSpecFns;
use vstd::utf8::is_ascii_chars_encode_utf8;

pub mod fdt;
pub mod iter;
pub mod owned;

pub use owned::{OwnedParseError, OwnedValue};

use fdt::{
    be_u32, byte_or_end, bytes_eq, find_byte_or_end, header_field, nul_or_end, read_u32_at,
    tokens_from, BlobHeader, Token, TokenView, HEADER_EXPECTED_MAGIC, HEADER_SIZE,
};
use iter::{
    after_subtree, cells_after, lemma_after_subtree_len, named_nodes, properties_of,
    regions_from, update_cells, FlattenedTreeIter, MemRegionIter, NodePropertyIter,
    NodesNamedIter,
};

verus! {

/// Whether `needle` occurs in `data` as a run of consecutive bytes.
pub open spec fn contains_bytes(data: Seq<u8>, needle: Seq<u8>) -> bool {
    exists|i: int|
        0 <= i <= data.len() - needle.len() && #[trigger] data.subrange(i, i + needle.len())
            == needle
}

/// The strings of a list of NUL-terminated strings from byte `from` on, each without its
/// terminator. Bytes after the last terminator belong to no string.
pub open spec fn strings_from(data: Seq<u8>, from: int) -> Seq<Seq<u8>>
    decreases data.len() - from,
{
    if from < 0 || from >= data.len() {
        Seq::empty()
    } else {
        let end = nul_or_end(data, from);
        if end >= data.len() || end < from {
            Seq::empty()
        } else {
            seq![data.subrange(from, end)] + strings_from(data, end + 1)
        }
    }
}

/// A list of strings given as the value of a property.
#[derive(Debug, Clone, Copy)]
pub struct StringList<'dt> {
    /// The raw bytes of the list of strings.
    pub data: &'dt [u8],
}

impl<'dt> StringList<'dt> {
    /// Determine if the byte sequence `s` is in the list of strings.
    pub fn contains(&self, s: &[u8]) -> (found: bool)
        requires
            s@.len() > 0,
        ensures
            found == contains_bytes(self.data@, s@),
    {
        let n = s.len();
        if self.data.len() < n {
            return false;
        }
        let last = self.data.len() - n;
        let mut i: usize = 0;
        while i <= last
            invariant
                n == s@.len(),
                n >= 1,
                last + n == self.data@.len(),
                self.data@.len() <= usize::MAX,
                i <= last + 1,
                forall|k: int| 0 <= k < i ==> #[trigger] self.data@.subrange(k, k + n) != s@,
            decreases last + 1 - i,
        {
            let window = slice_subrange(self.data, i, i + n);
            if bytes_eq(window, s) {
                return true;
            }
            i = i + 1;
        }
        false
    }

    /// Iterate over the strings present in the list.
    pub fn iter(&self) -> (it: iter::StringListIter<'dt>)
        ensures
            it.well_formed(),
            it.remaining() == strings_from(self.data@, 0),
    {
        iter::StringListIter::new(self.data)
    }
}

/// An array of (address, length) pairs representing the address space regions of a device's
/// resources.
#[derive(Debug, Clone, Copy)]
pub struct Registers<'dt> {
    /// Raw bytes that make up the array.
    pub data: &'dt [u8],
    /// Number of u32 cells that make up an address.
    pub address_cells: u32,
    /// Number of u32 cells that make up a size.
    pub size_cells: u32,
}

impl<'dt> Registers<'dt> {
    /// Iterate over the (address, length) pairs contained in this array.
    pub fn iter(&self) -> (it: iter::RegistersIter<'dt>)
        ensures
            it.well_formed(),
            it.remaining() == iter::registers_from(
                self.data@,
                0,
                self.address_cells as nat,
                self.size_cells as nat,
            ),
    {
        iter::RegistersIter::new(*self)
    }
}

/// A property value in a device tree.
#[derive(Debug, Clone, Copy)]
pub enum Value<'dt> {
    /// A 32-bit integer.
    U32(u32),
    /// A 64-bit integer.
    U64(u64),
    /// A `phandle` value that references another node.
    Phandle(u32),
    /// A single printable string, without its terminator.
    String(&'dt [u8]),
    /// A list of strings.
    StringList(StringList<'dt>),
    /// A blob of bytes. This means the property has a device specific format.
    Bytes(&'dt [u8]),
    /// An array of (address, length) pairs representing the address space regions of a
    /// device's resources.
    Reg(Registers<'dt>),
}

/// A property value, as the numbers and bytes it holds.
pub enum ValueView {
    /// A 32-bit integer.
    U32(u32),
    /// A 64-bit integer.
    U64(u64),
    /// A `phandle` value that references another node.
    Phandle(u32),
    /// A single printable string, without its terminator.
    String(Seq<u8>),
    /// A list of strings.
    StringList(Seq<u8>),
    /// A blob of bytes.
    Bytes(Seq<u8>),
    /// An array of (address, length) pairs.
    Reg {
        /// Raw bytes that make up the array.
        data: Seq<u8>,
        /// Number of u32 cells that make up an address.
        address_cells: u32,
        /// Number of u32 cells that make up a size.
        size_cells: u32,
    },
}

impl<'dt> View for Value<'dt> {
    type V = ValueView;

    open spec fn view(&self) -> ValueView {
        match *self {
            Value::U32(v) => ValueView::U32(v),
            Value::U64(v) => ValueView::U64(v),
            Value::Phandle(v) => ValueView::Phandle(v),
            Value::String(s) => ValueView::String(s@),
            Value::StringList(l) => ValueView::StringList(l.data@),
            Value::Bytes(b) => ValueView::Bytes(b@),
            Value::Reg(r) => ValueView::Reg {
                data: r.data@,
                address_cells: r.address_cells,
                size_cells: r.size_cells,
            },
        }
    }
}

/// The value that a property called `name` with the bytes `bytes` has, in a node whose parent
/// gives addresses `address_cells` cells and sizes `size_cells` cells.
///
/// A property whose bytes do not fit its type (an integer of fewer than four bytes, a string
/// without terminator) is handed out as raw bytes.
pub open spec fn parse_value(name: Seq<u8>, bytes: Seq<u8>, address_cells: u32, size_cells: u32)
    -> ValueView {
    if name == "compatible".spec_bytes() {
        ValueView::StringList(bytes)
    } else if name == "model".spec_bytes() || name == "status".spec_bytes() || name
        == "device_type".spec_bytes() {
        if nul_or_end(bytes, 0) < bytes.len() {
            ValueView::String(bytes.subrange(0, nul_or_end(bytes, 0)))
        } else {
            ValueView::Bytes(bytes)
        }
    } else if name == "phandle".spec_bytes() {
        if bytes.len() >= 4 {
            ValueView::Phandle(be_u32(bytes))
        } else {
            ValueView::Bytes(bytes)
        }
    } else if name == "#address-cells".spec_bytes() || name == "#size-cells".spec_bytes() || name
        == "virtual-reg".spec_bytes() {
        if bytes.len() >= 4 {
            ValueView::U32(be_u32(bytes))
        } else {
            ValueView::Bytes(bytes)
        }
    } else if name == "reg".spec_bytes() {
        ValueView::Reg { data: bytes, address_cells, size_cells }
    } else {
        ValueView::Bytes(bytes)
    }
}

/// Whether `name` spells the text `text`.
pub fn name_is(name: &[u8], text: &str) -> (same: bool)
    ensures
        same == (name@ == text.spec_bytes()),
{
    bytes_eq(name, text.as_bytes())
}

/// Errors that might arise while processing ("parsing") a node in the device tree.
#[derive(Debug, Clone, Copy)]
#[allow(inconsistent_fields)]
pub enum ParseError<'dt> {
    /// The property was not found in the node.
    PropertyNotFound {
        /// The name of the desired property.
        name: &'static str,
    },
    /// A property was found to have an unexpected type.
    UnexpectedType {
        /// The name of the property.
        name: &'dt [u8],
        /// The actual value of the property.
        value: Value<'dt>,
        /// A description of the type of value expected to be associated with this property.
        expected_type: &'static str,
    },
    /// A property was found to have an unexpected value.
    UnexpectedValue {
        /// The name of the property.
        name: &'dt [u8],
        /// The actual value of the property.
        value: Value<'dt>,
        /// A description further explaining why the value was unexpected.
        reason: &'static str,
    },
}

/// A parse error, as the text and bytes it holds.
#[allow(inconsistent_fields)]
pub enum ParseErrorView {
    /// The property was not found in the node.
    PropertyNotFound {
        /// The name of the desired property.
        name: Seq<char>,
    },
    /// A property was found to have an unexpected type.
    UnexpectedType {
        /// The name of the property.
        name: Seq<u8>,
        /// The actual value of the property.
        value: ValueView,
        /// A description of the type of value expected to be associated with this property.
        expected_type: Seq<char>,
    },
    /// A property was found to have an unexpected value.
    UnexpectedValue {
        /// The name of the property.
        name: Seq<u8>,
        /// The actual value of the property.
        value: ValueView,
        /// A description further explaining why the value was unexpected.
        reason: Seq<char>,
    },
}

impl<'dt> View for ParseError<'dt> {
    type V = ParseErrorView;

    open spec fn view(&self) -> ParseErrorView {
        match *self {
            ParseError::PropertyNotFound { name } => ParseErrorView::PropertyNotFound {
                name: name@,
            },
            ParseError::UnexpectedType {
                name,
                value,
                expected_type,
            } => ParseErrorView::UnexpectedType {
                name: name@,
                value: value@,
                expected_type: expected_type@,
            },
            ParseError::UnexpectedValue { name, value, reason } => ParseErrorView::UnexpectedValue {
                name: name@,
                value: value@,
                reason: reason@,
            },
        }
    }
}

/// The error for a value `value` that is not of the type called `expected`.
pub open spec fn wrong_type(value: ValueView, expected: &str) -> ParseErrorView {
    ParseErrorView::UnexpectedType {
        name: expected.spec_bytes(),
        value,
        expected_type: expected@,
    }
}

/// The error for a property `name` whose value `value` is not of the type called `expected`.
pub open spec fn wrong_type_of(name: Seq<u8>, value: ValueView, expected: &str) -> ParseErrorView {
    ParseErrorView::UnexpectedType { name, value, expected_type: expected@ }
}

impl<'dt> Value<'dt> {
    /// Parse bytes into a value based on the name and expected type.
    ///
    /// Bytes that do not fit the type of their name (an integer or `phandle` of fewer
    /// than four bytes, a string without terminator) give [`Value::Bytes`], which no
    /// value of such a name is otherwise: the result tells them apart.
    pub fn parse(name: &[u8], bytes: &'dt [u8], address_cells: u32, size_cells: u32) -> (v: Value<
        'dt,
    >)
        ensures
            v@ == parse_value(name@, bytes@, address_cells, size_cells),
    {
        if name_is(name, "compatible") {
            Value::StringList(StringList { data: bytes })
        } else if name_is(name, "model") || name_is(name, "status") || name_is(
            name,
            "device_type",
        ) {
            let end = find_byte_or_end(bytes, 0, 0);
            if end < bytes.len() {
                Value::String(slice_subrange(bytes, 0, end))
            } else {
                Value::Bytes(bytes)
            }
        } else if name_is(name, "phandle") {
            if bytes.len() >= 4 {
                let v = read_u32_at(bytes, 0);
                assert(bytes@.skip(0) =~= bytes@);
                Value::Phandle(v)
            } else {
                Value::Bytes(bytes)
            }
        } else if name_is(name, "#address-cells") || name_is(name, "#size-cells") || name_is(
            name,
            "virtual-reg",
        ) {
            if bytes.len() >= 4 {
                let v = read_u32_at(bytes, 0);
                assert(bytes@.skip(0) =~= bytes@);
                Value::U32(v)
            } else {
                Value::Bytes(bytes)
            }
        } else if name_is(name, "reg") {
            Value::Reg(Registers { data: bytes, address_cells, size_cells })
        } else {
            Value::Bytes(bytes)
        }
    }

    /// Try to extract the value as a Rust `u32` if it is of type `u32`.
    ///
    /// # Errors
    ///
    /// Returns a `ParseError::UnexpectedType` if the value is not of type `u32`.
    pub fn try_into_u32(self) -> (r: Result<u32, ParseError<'dt>>)
        ensures
            self is U32 ==> r == Ok::<u32, ParseError<'dt>>(self->U32_0),
            !(self is U32) ==> r is Err && r->Err_0@ == wrong_type(self@, "u32"),
    {
        if let Value::U32(v) = self {
            Ok(v)
        } else {
            Err(ParseError::UnexpectedType { name: "u32".as_bytes(), value: self, expected_type: "u32" })
        }
    }

    /// Try to extract the value as a Rust `u64` if it is of type `u64`.
    ///
    /// # Errors
    ///
    /// Returns a `ParseError::UnexpectedType` if the value is not of type `u64`.
    pub fn try_into_u64(self) -> (r: Result<u64, ParseError<'dt>>)
        ensures
            self is U64 ==> r == Ok::<u64, ParseError<'dt>>(self->U64_0),
            !(self is U64) ==> r is Err && r->Err_0@ == wrong_type(self@, "u64"),
    {
        if let Value::U64(v) = self {
            Ok(v)
        } else {
            Err(ParseError::UnexpectedType { name: "u64".as_bytes(), value: self, expected_type: "u64" })
        }
    }

    /// Try to extract the value as a Rust `u32` if it is of type `phandle`.
    ///
    /// # Errors
    ///
    /// Returns a `ParseError::UnexpectedType` if the value is not of type `phandle`.
    pub fn try_into_phandle(self) -> (r: Result<u32, ParseError<'dt>>)
        ensures
            self is Phandle ==> r == Ok::<u32, ParseError<'dt>>(self->Phandle_0),
            !(self is Phandle) ==> r is Err && r->Err_0@ == wrong_type(self@, "phandle"),
    {
        if let Value::Phandle(v) = self {
            Ok(v)
        } else {
            Err(
                ParseError::UnexpectedType {
                    name: "phandle".as_bytes(),
                    value: self,
                    expected_type: "phandle",
                },
            )
        }
    }

    /// Try to extract the value as a string if it is of type `string`.
    ///
    /// # Errors
    ///
    /// Returns a `ParseError::UnexpectedType` if the value is not of type `string`.
    pub fn try_into_string(self) -> (r: Result<&'dt [u8], ParseError<'dt>>)
        ensures
            self is String ==> r is Ok && r->Ok_0@ == self->String_0@,
            !(self is String) ==> r is Err && r->Err_0@ == wrong_type(self@, "string"),
    {
        if let Value::String(v) = self {
            Ok(v)
        } else {
            Err(
                ParseError::UnexpectedType {
                    name: "string".as_bytes(),
                    value: self,
                    expected_type: "string",
                },
            )
        }
    }

    /// Try to extract the value as [`StringList`] if it is of type `stringlist`.
    ///
    /// # Errors
    ///
    /// Returns a `ParseError::UnexpectedType` if the value is not of type `stringlist`.
    pub fn try_into_strings(self) -> (r: Result<StringList<'dt>, ParseError<'dt>>)
        ensures
            self is StringList ==> r is Ok && r->Ok_0 == self->StringList_0,
            !(self is StringList) ==> r is Err && r->Err_0@ == wrong_type(self@, "stringlist"),
    {
        if let Value::StringList(v) = self {
            Ok(v)
        } else {
            Err(
                ParseError::UnexpectedType {
                    name: "stringlist".as_bytes(),
                    value: self,
                    expected_type: "stringlist",
                },
            )
        }
    }

    /// Try to extract the value as a Rust `&[u8]` if it is unparsed, returning the raw bytes.
    ///
    /// # Errors
    ///
    /// Returns a `ParseError::UnexpectedType` if the value is not of type `bytes`.
    pub fn try_into_bytes(self) -> (r: Result<&'dt [u8], ParseError<'dt>>)
        ensures
            self is Bytes ==> r is Ok && r->Ok_0@ == self->Bytes_0@,
            !(self is Bytes) ==> r is Err && r->Err_0@ == wrong_type(self@, "bytes"),
    {
        if let Value::Bytes(v) = self {
            Ok(v)
        } else {
            Err(
                ParseError::UnexpectedType {
                    name: "bytes".as_bytes(),
                    value: self,
                    expected_type: "bytes",
                },
            )
        }
    }

    /// Try to extract the value as [`Registers`] if it is of type `reg`.
    ///
    /// # Errors
    ///
    /// Returns a `ParseError::UnexpectedType` if the value is not of type `reg`.
    pub fn try_into_reg(self) -> (r: Result<Registers<'dt>, ParseError<'dt>>)
        ensures
            self is Reg ==> r is Ok && r->Ok_0 == self->Reg_0,
            !(self is Reg) ==> r is Err && r->Err_0@ == wrong_type(self@, "reg"),
    {
        if let Value::Reg(v) = self {
            Ok(v)
        } else {
            Err(ParseError::UnexpectedType { name: "reg".as_bytes(), value: self, expected_type: "reg" })
        }
    }

    /// The raw bytes of the property `name` if its value is unparsed.
    ///
    /// # Errors
    ///
    /// Returns a `ParseError::UnexpectedType` that names the property if the value is not of
    /// type `bytes`.
    pub fn as_bytes(&self, name: &'dt [u8]) -> (r: Result<&'dt [u8], ParseError<'dt>>)
        ensures
            *self is Bytes ==> r is Ok && r->Ok_0@ == self->Bytes_0@,
            !(*self is Bytes) ==> r is Err && r->Err_0@ == wrong_type_of(name@, self@, "bytes"),
    {
        if let Value::Bytes(v) = *self {
            Ok(v)
        } else {
            Err(ParseError::UnexpectedType { name, value: *self, expected_type: "bytes" })
        }
    }

    /// The string list of the property `name` if its value is one.
    ///
    /// # Errors
    ///
    /// Returns a `ParseError::UnexpectedType` that names the property if the value is not of
    /// type `stringlist`.
    pub fn as_strings(&self, name: &'dt [u8]) -> (r: Result<StringList<'dt>, ParseError<'dt>>)
        ensures
            *self is StringList ==> r is Ok && r->Ok_0 == self->StringList_0,
            !(*self is StringList) ==> r is Err && r->Err_0@ == wrong_type_of(
                name@,
                self@,
                "stringlist",
            ),
    {
        if let Value::StringList(v) = *self {
            Ok(v)
        } else {
            Err(ParseError::UnexpectedType { name, value: *self, expected_type: "stringlist" })
        }
    }

    /// The register array of the property `name` if its value is one.
    ///
    /// # Errors
    ///
    /// Returns a `ParseError::UnexpectedType` that names the property if the value is not of
    /// type `reg`.
    pub fn as_reg(&self, name: &'dt [u8]) -> (r: Result<Registers<'dt>, ParseError<'dt>>)
        ensures
            *self is Reg ==> r is Ok && r->Ok_0 == self->Reg_0,
            !(*self is Reg) ==> r is Err && r->Err_0@ == wrong_type_of(name@, self@, "reg"),
    {
        if let Value::Reg(v) = *self {
            Ok(v)
        } else {
            Err(ParseError::UnexpectedType { name, value: *self, expected_type: "reg" })
        }
    }

    /// If the value is of type `u32`, extract the value as a Rust `u32`.
    pub fn into_u32(self) -> (r: Option<u32>)
        ensures
            self is U32 ==> r == Some(self->U32_0),
            !(self is U32) ==> r is None,
    {
        if let Value::U32(v) = self {
            Some(v)
        } else {
            None
        }
    }

    /// If the value is of type `u64`, extract the value as a Rust `u64`.
    pub fn into_u64(self) -> (r: Option<u64>)
        ensures
            self is U64 ==> r == Some(self->U64_0),
            !(self is U64) ==> r is None,
    {
        if let Value::U64(v) = self {
            Some(v)
        } else {
            None
        }
    }

    /// If the value is of type `phandle`, extract the value as a Rust `u32`.
    pub fn into_phandle(self) -> (r: Option<u32>)
        ensures
            self is Phandle ==> r == Some(self->Phandle_0),
            !(self is Phandle) ==> r is None,
    {
        if let Value::Phandle(v) = self {
            Some(v)
        } else {
            None
        }
    }

    /// If the value is of type `string`, extract the string.
    pub fn into_string(self) -> (r: Option<&'dt [u8]>)
        ensures
            self is String ==> r is Some && r->0@ == self->String_0@,
            !(self is String) ==> r is None,
    {
        if let Value::String(v) = self {
            Some(v)
        } else {
            None
        }
    }

    /// If the value is of type `stringlist`, extract the value as [`StringList`].
    pub fn into_strings(self) -> (r: Option<StringList<'dt>>)
        ensures
            self is StringList ==> r == Some(self->StringList_0),
            !(self is StringList) ==> r is None,
    {
        if let Value::StringList(v) = self {
            Some(v)
        } else {
            None
        }
    }

    /// If the value is unparsed, extract the value as a Rust `&[u8]`, returning the raw bytes.
    pub fn into_bytes(self) -> (r: Option<&'dt [u8]>)
        ensures
            self is Bytes ==> r is Some && r->0@ == self->Bytes_0@,
            !(self is Bytes) ==> r is None,
    {
        if let Value::Bytes(v) = self {
            Some(v)
        } else {
            None
        }
    }

    /// If the value is of type `reg`, extract the value as [`Registers`].
    pub fn into_reg(self) -> (r: Option<Registers<'dt>>)
        ensures
            self is Reg ==> r == Some(self->Reg_0),
            !(self is Reg) ==> r is None,
    {
        if let Value::Reg(v) = self {
            Some(v)
        } else {
            None
        }
    }
}

/// The byte `/`, which parts the segments of a path.
pub const PATH_SEPARATOR: u8 = 0x2f;

/// The number of address cells of a node whose parent does not say.
pub const DEFAULT_ADDRESS_CELLS: u32 = 2;

/// The number of size cells of a node whose parent does not say.
pub const DEFAULT_SIZE_CELLS: u32 = 1;

/// Whether `buf` starts with a header that describes `buf` itself: the magic value, the
/// length of `buf` as total size, and three blocks that lie inside `buf`.
pub open spec fn blob_valid(buf: Seq<u8>) -> bool {
    &&& buf.len() >= HEADER_SIZE
    &&& header_field(buf, 0) == HEADER_EXPECTED_MAGIC
    &&& header_field(buf, 4) == buf.len()
    &&& header_field(buf, 12) + header_field(buf, 32) <= buf.len()
    &&& header_field(buf, 8) + header_field(buf, 36) <= buf.len()
    &&& header_field(buf, 16) <= header_field(buf, 8)
}

/// Whether the path segment that ends at byte `segment_end` of `path` is the last one to
/// look for: no separator follows it, or the segment after the separator is empty.
pub open spec fn is_last_segment(path: Seq<u8>, segment_end: int) -> bool {
    segment_end >= path.len() || byte_or_end(path, PATH_SEPARATOR, segment_end + 1) == segment_end
        + 1
}

/// The place of the node at `path` in the token sequence `tokens`, where the segment of
/// `path` that starts at byte `pos` is looked for among the nodes that `tokens` starts
/// with: the tokens that follow the node's start token, and the cell counts that the
/// node's parent gives (`cells`, as far as the tokens before have set them).
pub open spec fn find_node(
    tokens: Seq<TokenView>,
    path: Seq<u8>,
    pos: int,
    cells: (Option<u32>, Option<u32>),
) -> Option<(Seq<TokenView>, (Option<u32>, Option<u32>))>
    decreases tokens.len(),
{
    if tokens.len() == 0 {
        None
    } else {
        match tokens[0] {
            TokenView::StartNode(name) => {
                let segment_end = byte_or_end(path, PATH_SEPARATOR, pos);
                if name == path.subrange(pos, segment_end) {
                    if is_last_segment(path, segment_end) {
                        Some((tokens.skip(1), cells))
                    } else {
                        find_node(tokens.skip(1), path, segment_end + 1, cells)
                    }
                } else {
                    let rest = after_subtree(tokens.skip(1), 1);
                    if rest.len() >= tokens.len() {
                        None
                    } else {
                        find_node(rest, path, pos, cells)
                    }
                }
            },
            TokenView::EndNode => None,
            TokenView::Property { name, data } => find_node(
                tokens.skip(1),
                path,
                pos,
                cells_after(name, data, cells),
            ),
        }
    }
}

/// The number of address cells that `cells` gives, or the default.
pub open spec fn address_cells_or_default(cells: (Option<u32>, Option<u32>)) -> u32 {
    match cells.0 {
        Some(c) => c,
        None => DEFAULT_ADDRESS_CELLS,
    }
}

/// The number of size cells that `cells` gives, or the default.
pub open spec fn size_cells_or_default(cells: (Option<u32>, Option<u32>)) -> u32 {
    match cells.1 {
        Some(c) => c,
        None => DEFAULT_SIZE_CELLS,
    }
}

/// The index of the first of `properties` that is called `name`, or their number if none is.
pub open spec fn first_named(properties: Seq<(Seq<u8>, Seq<u8>)>, name: Seq<u8>) -> int
    decreases properties.len(),
{
    if properties.len() == 0 {
        0
    } else if properties[0].0 == name {
        0
    } else {
        1 + first_named(properties.skip(1), name)
    }
}

/// The index of the last separator in `path` before byte `end`, or -1 if there is none.
pub open spec fn last_separator(path: Seq<u8>, end: int) -> int
    decreases end,
{
    if end <= 0 {
        -1
    } else if path[end - 1] == PATH_SEPARATOR {
        end - 1
    } else {
        last_separator(path, end - 1)
    }
}

/// A device tree blob in memory.
pub struct DeviceTree<'a> {
    header: BlobHeader<'a>,
    strings: &'a [u8],
    structure: &'a [u8],
    mem_map: &'a [u8],
}

impl<'a> DeviceTree<'a> {
    /// The bytes of the whole blob.
    pub closed spec fn blob(&self) -> Seq<u8> {
        self.header.buf@
    }

    /// The bytes of the structure block.
    pub closed spec fn structure_bytes(&self) -> Seq<u8> {
        self.structure@
    }

    /// The bytes of the strings block.
    pub closed spec fn strings_bytes(&self) -> Seq<u8> {
        self.strings@
    }

    /// The bytes of the memory reservation block.
    pub closed spec fn reservation_bytes(&self) -> Seq<u8> {
        self.mem_map@
    }

    /// The tokens of the tree, in order.
    pub open spec fn tokens(&self) -> Seq<TokenView> {
        tokens_from(self.structure_bytes(), self.strings_bytes(), 0)
    }

    /// The condition under which the three blocks are the ones that the header describes.
    pub closed spec fn well_formed(&self) -> bool {
        let buf = self.header.buf@;
        &&& blob_valid(buf)
        &&& self.strings@ == buf.subrange(
            header_field(buf, 12) as int,
            header_field(buf, 12) + header_field(buf, 32),
        )
        &&& self.structure@ == buf.subrange(
            header_field(buf, 8) as int,
            header_field(buf, 8) + header_field(buf, 36),
        )
        &&& self.mem_map@ == buf.subrange(
            header_field(buf, 16) as int,
            header_field(buf, 8) as int,
        )
    }

    /// What a well-formed tree's blocks are, over the bytes of its blob.
    pub proof fn lemma_blocks(&self)
        requires
            self.well_formed(),
        ensures
            blob_valid(self.blob()),
            self.strings_bytes() == self.blob().subrange(
                header_field(self.blob(), 12) as int,
                header_field(self.blob(), 12) + header_field(self.blob(), 32),
            ),
            self.structure_bytes() == self.blob().subrange(
                header_field(self.blob(), 8) as int,
                header_field(self.blob(), 8) + header_field(self.blob(), 36),
            ),
            self.reservation_bytes() == self.blob().subrange(
                header_field(self.blob(), 16) as int,
                header_field(self.blob(), 8) as int,
            ),
    {
    }

    /// Create a [`DeviceTree`] that parses the blob present in `buf`.
    ///
    /// The header present in `buf` must be correct ([`blob_valid`]); in particular the magic
    /// value must be right and the total length reported in the header must match the
    /// length of the slice. [`DeviceTree::try_from_bytes`] tests this first.
    pub fn from_bytes(buf: &'a [u8]) -> (dt: DeviceTree<'a>)
        requires
            blob_valid(buf@),
        ensures
            dt.well_formed(),
            dt.blob() == buf@,
    {
        let header = BlobHeader { buf };
        Self::from_bytes_and_header(buf, header)
    }

    /// Create a [`DeviceTree`] for the blob in `buf`, whose header `header` has been read.
    pub fn from_bytes_and_header(buf: &'a [u8], header: BlobHeader<'a>) -> (dt: DeviceTree<'a>)
        requires
            blob_valid(buf@),
            header.buf@ == buf@,
        ensures
            dt.well_formed(),
            dt.blob() == buf@,
    {
        let str_start = header.off_dt_strings() as usize;
        let str_end = str_start + header.size_dt_strings() as usize;
        let structs_start = header.off_dt_struct() as usize;
        let structs_end = structs_start + header.size_dt_structs() as usize;
        let map_start = header.off_mem_rsvmap() as usize;
        DeviceTree {
            header,
            strings: slice_subrange(buf, str_start, str_end),
            structure: slice_subrange(buf, structs_start, structs_end),
            mem_map: slice_subrange(buf, map_start, structs_start),
        }
    }

    /// Create a [`DeviceTree`] for the blob in `buf`, or `None` if the header in `buf` is
    /// not correct.
    pub fn try_from_bytes(buf: &'a [u8]) -> (r: Option<DeviceTree<'a>>)
        ensures
            r is Some <==> blob_valid(buf@),
            r is Some ==> r->0.well_formed() && r->0.blob() == buf@,
    {
        let len = buf.len();
        if len < HEADER_SIZE {
            return None;
        }
        let header = BlobHeader { buf };
        if header.magic() != HEADER_EXPECTED_MAGIC {
            return None;
        }
        if header.total_size() as u64 != len as u64 {
            return None;
        }
        let str_start = header.off_dt_strings() as u64;
        let str_size = header.size_dt_strings() as u64;
        let structs_start = header.off_dt_struct() as u64;
        let structs_size = header.size_dt_structs() as u64;
        let map_start = header.off_mem_rsvmap() as u64;
        if str_start + str_size > len as u64 || structs_start + structs_size > len as u64
            || map_start > structs_start {
            return None;
        }
        Some(Self::from_bytes_and_header(buf, header))
    }

    /// Get the header for the blob.
    pub fn header(&self) -> (h: BlobHeader<'a>)
        ensures
            h.buf@ == self.blob(),
    {
        self.header
    }

    /// Returns the total size of the blob in bytes.
    pub fn size_of_blob(&self) -> (size: usize)
        requires
            self.well_formed(),
        ensures
            size == self.blob().len(),
    {
        self.header.total_size() as usize
    }

    /// Iterate over the raw flattened tree blob structure.
    pub fn iter_structure(&self) -> (it: FlattenedTreeIter<'a>)
        ensures
            it.well_formed(),
            it.offset() == 0,
            it.remaining() == self.tokens(),
            it.ending() is End == fdt::ends_well(self.structure_bytes(), self.strings_bytes()),
    {
        FlattenedTreeIter::new(self.structure, self.strings)
    }

    /// Whether the structure block is made of tokens up to its end marker: whether no
    /// word on the way is undefined, no token is cut short, and no property reaches
    /// outside of its block. The cursors of a tree of which this does not hold end where
    /// the tokens end.
    pub fn ends_well(&self) -> (ok: bool)
        ensures
            ok == fdt::ends_well(self.structure_bytes(), self.strings_bytes()),
    {
        let mut it = self.iter_structure();
        loop
            invariant
                it.well_formed(),
                it.ending() is End == fdt::ends_well(self.structure_bytes(), self.strings_bytes()),
            decreases it.remaining().len(),
        {
            match it.next() {
                None => {
                    return it.at_end();
                },
                Some(_) => {},
            }
        }
    }

    /// Walks to the node at `path` and returns a cursor that stands behind the node's start
    /// token, with the cell counts that the node's parent gives.
    fn enter_node(&self, path: &[u8]) -> (r: Option<(FlattenedTreeIter<'a>, u32, u32)>)
        ensures
            match find_node(self.tokens(), path@, 0, (None, None)) {
                None => r is None,
                Some((tokens, cells)) => {
                    &&& r is Some
                    &&& r.unwrap().0.well_formed()
                    &&& r.unwrap().0.offset() >= 4
                    &&& r.unwrap().0.remaining() == tokens
                    &&& r.unwrap().1 == address_cells_or_default(cells)
                    &&& r.unwrap().2 == size_cells_or_default(cells)
                },
            },
    {
        let mut pos: usize = 0;
        let mut segment_end = find_byte_or_end(path, PATH_SEPARATOR, 0);
        let mut tokens = self.iter_structure();
        let mut cells: (Option<u32>, Option<u32>) = (None, None);
        loop
            invariant
                tokens.well_formed(),
                pos <= segment_end <= path@.len(),
                segment_end == byte_or_end(path@, PATH_SEPARATOR, pos as int),
                find_node(tokens.remaining(), path@, pos as int, cells) == find_node(
                    self.tokens(),
                    path@,
                    0,
                    (None, None),
                ),
            decreases tokens.remaining().len(),
        {
            let ghost before = tokens.remaining();
            match tokens.next() {
                None => {
                    return None;
                },
                Some(Token::StartNode(name)) => {
                    if bytes_eq(name, slice_subrange(path, pos, segment_end)) {
                        if segment_end >= path.len() {
                            return Some(
                                (
                                    tokens,
                                    cells.0.unwrap_or(DEFAULT_ADDRESS_CELLS),
                                    cells.1.unwrap_or(DEFAULT_SIZE_CELLS),
                                ),
                            );
                        }
                        let next_pos = segment_end + 1;
                        let next_end = find_byte_or_end(path, PATH_SEPARATOR, next_pos);
                        if next_end == next_pos {
                            return Some(
                                (
                                    tokens,
                                    cells.0.unwrap_or(DEFAULT_ADDRESS_CELLS),
                                    cells.1.unwrap_or(DEFAULT_SIZE_CELLS),
                                ),
                            );
                        }
                        pos = next_pos;
                        segment_end = next_end;
                    } else {
                        tokens.skip_node();
                        proof {
                            lemma_after_subtree_len(before.skip(1), 1);
                        }
                    }
                },
                Some(Token::EndNode) => {
                    return None;
                },
                Some(Token::Property { name, data }) => {
                    cells = update_cells(name, data, cells);
                },
            }
        }
    }

    /// Iterate over the properties of a node in the tree given the path, if present.
    ///
    /// # Arguments
    /// * `path` - the path of the node to find
    ///
    /// # Returns
    /// A cursor over the properties of the node in the tree, if present. The parent's
    /// `#address-cells` and `#size-cells` type the properties; where the parent has none,
    /// they are 2 and 1.
    pub fn iter_node_properties(&self, path: &[u8]) -> (r: Option<NodePropertyIter<'a>>)
        ensures
            match find_node(self.tokens(), path@, 0, (None, None)) {
                None => r is None,
                Some((tokens, cells)) => {
                    &&& r is Some
                    &&& r->0.well_formed()
                    &&& r->0.properties() == properties_of(tokens, 1)
                    &&& r->0.address_cells() == address_cells_or_default(cells)
                    &&& r->0.size_cells() == size_cells_or_default(cells)
                },
            },
    {
        match self.enter_node(path) {
            None => None,
            Some((cur, address_cells, size_cells)) => Some(
                NodePropertyIter::new(cur, address_cells, size_cells),
            ),
        }
    }

    /// Iterate over the nodes under `path` whose node-name is `node_name`, where nodes are
    /// given names of form `<node-name>@<unit-address>`.
    /// Each yielded item contains the `unit-address` and a cursor over the properties of
    /// that node.
    ///
    /// # Arguments
    ///
    /// * `path` - The path to the parent node under which to search for nodes.
    /// * `node_name` - The node-name to match against the nodes under the given path.
    ///
    /// # Returns
    ///
    /// A cursor over `NodeItem`, each containing the `unit-address` and properties cursor.
    /// Returns None if the `path` was not even found in the tree.
    pub fn iter_nodes_named<'q>(&self, path: &[u8], node_name: &'q [u8]) -> (r: Option<
        NodesNamedIter<'a, 'q>,
    >)
        ensures
            match find_node(self.tokens(), path@, 0, (None, None)) {
                None => r is None,
                Some((tokens, cells)) => {
                    &&& r is Some
                    &&& r->0.well_formed()
                    &&& r->0.nodes() == named_nodes(
                        tokens,
                        node_name@,
                        (
                            Some(address_cells_or_default(cells)),
                            Some(size_cells_or_default(cells)),
                        ),
                    )
                },
            },
    {
        match self.enter_node(path) {
            None => None,
            Some((cur, address_cells, size_cells)) => Some(
                NodesNamedIter::new(cur, node_name, address_cells, size_cells),
            ),
        }
    }

    /// The value of the property at `path`: of the first property called by what follows
    /// the last separator of `path`, in the node at what comes before it.
    pub open spec fn spec_find_property(&self, path: Seq<u8>) -> Option<ValueView> {
        let cut = last_separator(path, path.len() as int);
        if cut < 0 {
            None
        } else {
            match find_node(self.tokens(), path.subrange(0, cut + 1), 0, (None, None)) {
                None => None,
                Some((tokens, cells)) => {
                    let properties = properties_of(tokens, 1);
                    let index = first_named(
                        properties,
                        path.subrange(cut + 1, path.len() as int),
                    );
                    if index < properties.len() {
                        Some(
                            parse_value(
                                properties[index].0,
                                properties[index].1,
                                address_cells_or_default(cells),
                                size_cells_or_default(cells),
                            ),
                        )
                    } else {
                        None
                    }
                },
            }
        }
    }

    /// Find a property in the tree by path, if it is present.
    ///
    /// # Arguments
    /// * `path` - the path to the property to find
    ///
    /// # Returns
    /// The value of the property if found.
    pub fn find_property(&self, path: &[u8]) -> (r: Option<Value<'a>>)
        ensures
            self.spec_find_property(path@) is None ==> r is None,
            self.spec_find_property(path@) is Some ==> r is Some && r->0@
                == self.spec_find_property(path@)->0,
    {
        let mut end = path.len();
        while end > 0 && path[end - 1] != PATH_SEPARATOR
            invariant
                end <= path@.len(),
                last_separator(path@, end as int) == last_separator(path@, path@.len() as int),
            decreases end,
        {
            end = end - 1;
        }
        if end == 0 {
            return None;
        }
        let node_path = slice_subrange(path, 0, end);
        let property_name = slice_subrange(path, end, path.len());
        match self.iter_node_properties(node_path) {
            None => None,
            Some(properties) => {
                let mut properties = properties;
                let ghost all = properties.properties();
                let ghost address_cells = properties.address_cells();
                let ghost size_cells = properties.size_cells();
                let ghost mut skipped: int = 0;
                let ghost index = first_named(all, property_name@);
                proof {
                    assert(all.skip(0) =~= all);
                }
                loop
                    invariant
                        properties.well_formed(),
                        0 <= skipped <= all.len(),
                        properties.properties() == all.skip(skipped),
                        first_named(all, property_name@) == skipped + first_named(
                            all.skip(skipped),
                            property_name@,
                        ),
                        properties.address_cells() == address_cells,
                        properties.size_cells() == size_cells,
                        index == first_named(all, property_name@),
                        index >= all.len() ==> self.spec_find_property(path@) is None,
                        index < all.len() ==> self.spec_find_property(path@) == Some(
                            parse_value(all[index].0, all[index].1, address_cells, size_cells),
                        ),
                    decreases all.len() - skipped,
                {
                    match properties.next() {
                        None => {
                            return None;
                        },
                        Some((name, value)) => {
                            assert(all.skip(skipped)[0] == all[skipped]);
                            if bytes_eq(name, property_name) {
                                return Some(value);
                            }
                            proof {
                                assert(all.skip(skipped).skip(1) =~= all.skip(skipped + 1));
                                skipped = skipped + 1;
                            }
                        },
                    }
                }
            },
        }
    }

    /// Iterate over the system reserved memory regions.
    pub fn iter_reserved_memory_regions(&self) -> (it: MemRegionIter<'a>)
        ensures
            it.well_formed(),
            it.remaining() == regions_from(self.reservation_bytes(), 0),
    {
        MemRegionIter::for_data(self.mem_map)
    }
}

/// The length and the first byte of each property name that this crate tells from the
/// others, from which it follows that one name is not another. (Names of one length start
/// with different letters.)
pub proof fn lemma_names_differ()
    ensures
        "compatible".spec_bytes().len() == 10,
        "compatible".spec_bytes()[0] == 99,
        "model".spec_bytes().len() == 5,
        "model".spec_bytes()[0] == 109,
        "status".spec_bytes().len() == 6,
        "status".spec_bytes()[0] == 115,
        "device_type".spec_bytes().len() == 11,
        "device_type".spec_bytes()[0] == 100,
        "phandle".spec_bytes().len() == 7,
        "phandle".spec_bytes()[0] == 112,
        "#address-cells".spec_bytes().len() == 14,
        "#address-cells".spec_bytes()[0] == 35,
        "#size-cells".spec_bytes().len() == 11,
        "#size-cells".spec_bytes()[0] == 35,
        "virtual-reg".spec_bytes().len() == 11,
        "virtual-reg".spec_bytes()[0] == 118,
        "reg".spec_bytes().len() == 3,
        "reg".spec_bytes()[0] == 114,
        "#interrupt-cells".spec_bytes().len() == 16,
        "#interrupt-cells".spec_bytes()[0] == 35,
        "interrupt-controller".spec_bytes().len() == 20,
        "interrupt-controller".spec_bytes()[0] == 105,
        "interrupts".spec_bytes().len() == 10,
        "interrupts".spec_bytes()[0] == 105,
        "enable-method".spec_bytes().len() == 13,
        "enable-method".spec_bytes()[0] == 101,
        "method".spec_bytes().len() == 6,
        "method".spec_bytes()[0] == 109,
        "cpu_on".spec_bytes().len() == 6,
        "cpu_on".spec_bytes()[0] == 99,
{
    reveal_strlit("compatible");
    is_ascii_chars_encode_utf8("compatible"@);
    reveal_strlit("model");
    is_ascii_chars_encode_utf8("model"@);
    reveal_strlit("status");
    is_ascii_chars_encode_utf8("status"@);
    reveal_strlit("device_type");
    is_ascii_chars_encode_utf8("device_type"@);
    reveal_strlit("phandle");
    is_ascii_chars_encode_utf8("phandle"@);
    reveal_strlit("#address-cells");
    is_ascii_chars_encode_utf8("#address-cells"@);
    reveal_strlit("#size-cells");
    is_ascii_chars_encode_utf8("#size-cells"@);
    reveal_strlit("virtual-reg");
    is_ascii_chars_encode_utf8("virtual-reg"@);
    reveal_strlit("reg");
    is_ascii_chars_encode_utf8("reg"@);
    reveal_strlit("#interrupt-cells");
    is_ascii_chars_encode_utf8("#interrupt-cells"@);
    reveal_strlit("interrupt-controller");
    is_ascii_chars_encode_utf8("interrupt-controller"@);
    reveal_strlit("interrupts");
    is_ascii_chars_encode_utf8("interrupts"@);
    reveal_strlit("enable-method");
    is_ascii_chars_encode_utf8("enable-method"@);
    reveal_strlit("method");
    is_ascii_chars_encode_utf8("method"@);
    reveal_strlit("cpu_on");
    is_ascii_chars_encode_utf8("cpu_on"@);
}

} // verus!
