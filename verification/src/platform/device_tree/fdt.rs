//! Flattened Device Tree format definitions.
use byteorder::{BigEndian, ByteOrder};
use vstd::prelude::*;
use vstd::slice::slice_subrange;

verus! {

/// The 32-bit value whose big-endian encoding is the first four bytes of `bytes`.
pub open spec fn be_u32(bytes: Seq<u8>) -> u32 {
    ((bytes[0] as u32) * 0x100_0000 + (bytes[1] as u32) * 0x1_0000 + (bytes[2] as u32) * 0x100
        + (bytes[3] as u32)) as u32
}

/// The 64-bit value whose big-endian encoding is the first eight bytes of `bytes`.
pub open spec fn be_u64(bytes: Seq<u8>) -> u64 {
    ((be_u32(bytes) as u64) * 0x1_0000_0000 + (be_u32(bytes.skip(4)) as u64)) as u64
}

/// Calls `byteorder::BigEndian::read_u32`, which decodes the first four bytes of `buf` as a
/// big-endian integer and panics on a shorter buffer.
#[verifier::external_body]
pub(crate) fn read_u32_be(buf: &[u8]) -> (value: u32)
    requires
        buf@.len() >= 4,
    ensures
        value == be_u32(buf@),
{
    BigEndian::read_u32(buf)
}

/// Calls `byteorder::BigEndian::read_u64`, which decodes the first eight bytes of `buf` as a
/// big-endian integer and panics on a shorter buffer.
#[verifier::external_body]
pub(crate) fn read_u64_be(buf: &[u8]) -> (value: u64)
    requires
        buf@.len() >= 8,
    ensures
        value == be_u64(buf@),
{
    BigEndian::read_u64(buf)
}

/// Reads the big-endian 32-bit integer at `offset` in `buf`.
pub(crate) fn read_u32_at(buf: &[u8], offset: usize) -> (value: u32)
    requires
        offset + 4 <= buf@.len(),
    ensures
        value == be_u32(buf@.skip(offset as int)),
{
    let tail = slice_subrange(buf, offset, buf.len());
    assert(tail@ =~= buf@.skip(offset as int));
    read_u32_be(tail)
}

/// Values used to delimit structure in the flattened device tree.
#[derive(Debug, Clone, Copy, PartialEq, Eq, Structural)]
pub enum TokenType {
    /// Beginning of a node's representation.
    BeginNode,
    /// End of a node's representation.
    EndNode,
    /// A node property.
    Prop,
    /// Ignored during parsing.
    Nop,
    /// Marks the end of the tree structure.
    End,
    /// Any encountered tokens that are undefined by the specification.
    Unknown(u32),
}

impl TokenType {
    /// The kind of token that the word `value` stands for.
    pub open spec fn spec_from_u32(value: u32) -> TokenType {
        if value == 0x01 {
            TokenType::BeginNode
        } else if value == 0x02 {
            TokenType::EndNode
        } else if value == 0x03 {
            TokenType::Prop
        } else if value == 0x04 {
            TokenType::Nop
        } else if value == 0x09 {
            TokenType::End
        } else {
            TokenType::Unknown(value)
        }
    }

    /// The kind of token that the word `value` stands for.
    pub fn from_u32(value: u32) -> (t: TokenType)
        ensures
            t == Self::spec_from_u32(value),
    {
        match value {
            0x01 => TokenType::BeginNode,
            0x02 => TokenType::EndNode,
            0x03 => TokenType::Prop,
            0x04 => TokenType::Nop,
            0x09 => TokenType::End,
            _ => TokenType::Unknown(value),
        }
    }
}

/// Total size of a header in bytes.
pub const HEADER_SIZE: usize = 40;

/// The magic value expected in the device tree header.
pub const HEADER_EXPECTED_MAGIC: u32 = 0xd00d_feed;

/// Device tree blob header.
#[derive(Clone, Copy)]
pub struct BlobHeader<'a> {
    /// Raw bytes that make up the header.
    pub buf: &'a [u8],
}

/// The header field that starts at byte `offset` of `buf`.
pub open spec fn header_field(buf: Seq<u8>, offset: int) -> u32 {
    be_u32(buf.skip(offset))
}

impl<'a> BlobHeader<'a> {
    /// Whether the buffer is long enough to hold a header.
    pub open spec fn well_formed(&self) -> bool {
        self.buf@.len() >= HEADER_SIZE
    }

    /// Magic number. Should equal [`HEADER_EXPECTED_MAGIC`].
    pub fn magic(&self) -> (v: u32)
        requires
            self.well_formed(),
        ensures
            v == header_field(self.buf@, 0),
    {
        read_u32_at(self.buf, 0)
    }

    /// Total size of the blob.
    pub fn total_size(&self) -> (v: u32)
        requires
            self.well_formed(),
        ensures
            v == header_field(self.buf@, 4),
    {
        read_u32_at(self.buf, 4)
    }

    /// Offset to the structs region of the blob.
    pub fn off_dt_struct(&self) -> (v: u32)
        requires
            self.well_formed(),
        ensures
            v == header_field(self.buf@, 8),
    {
        read_u32_at(self.buf, 8)
    }

    /// Offset to the strings region of the blob.
    pub fn off_dt_strings(&self) -> (v: u32)
        requires
            self.well_formed(),
        ensures
            v == header_field(self.buf@, 12),
    {
        read_u32_at(self.buf, 12)
    }

    /// Offset to the memory reservation block.
    pub fn off_mem_rsvmap(&self) -> (v: u32)
        requires
            self.well_formed(),
        ensures
            v == header_field(self.buf@, 16),
    {
        read_u32_at(self.buf, 16)
    }

    /// Blob version code.
    pub fn version(&self) -> (v: u32)
        requires
            self.well_formed(),
        ensures
            v == header_field(self.buf@, 20),
    {
        read_u32_at(self.buf, 20)
    }

    /// Last compatible version this device tree is compatible with.
    pub fn last_comp_version(&self) -> (v: u32)
        requires
            self.well_formed(),
        ensures
            v == header_field(self.buf@, 24),
    {
        read_u32_at(self.buf, 24)
    }

    /// Physical ID of the boot CPU.
    pub fn boot_cpuid_phys(&self) -> (v: u32)
        requires
            self.well_formed(),
        ensures
            v == header_field(self.buf@, 28),
    {
        read_u32_at(self.buf, 28)
    }

    /// Size of the strings region of the blob.
    pub fn size_dt_strings(&self) -> (v: u32)
        requires
            self.well_formed(),
        ensures
            v == header_field(self.buf@, 32),
    {
        read_u32_at(self.buf, 32)
    }

    /// Size of the structs region of the blob.
    pub fn size_dt_structs(&self) -> (v: u32)
        requires
            self.well_formed(),
        ensures
            v == header_field(self.buf@, 36),
    {
        read_u32_at(self.buf, 36)
    }
}

/// A tree structural item.
#[derive(Debug, Clone, Copy)]
pub enum Token<'dt> {
    /// The beginning of a node in the tree, with a particular name.
    StartNode(&'dt [u8]),
    /// The end of a node in the tree.
    EndNode,
    /// A property attached to some node.
    Property {
        /// The name of the property.
        name: &'dt [u8],
        /// The value associated with this property.
        data: &'dt [u8],
    },
}

/// A tree structural item, as the bytes it holds.
pub enum TokenView {
    /// The beginning of a node in the tree, with a particular name.
    StartNode(Seq<u8>),
    /// The end of a node in the tree.
    EndNode,
    /// A property attached to some node.
    Property {
        /// The name of the property.
        name: Seq<u8>,
        /// The value associated with this property.
        data: Seq<u8>,
    },
}

impl<'dt> View for Token<'dt> {
    type V = TokenView;

    open spec fn view(&self) -> TokenView {
        match *self {
            Token::StartNode(name) => TokenView::StartNode(name@),
            Token::EndNode => TokenView::EndNode,
            Token::Property { name, data } => TokenView::Property { name: name@, data: data@ },
        }
    }
}

/// The number of bytes that `num_bytes` of data occupy once padded to a multiple of four.
pub open spec fn spec_pad_end_4b(num_bytes: int) -> int {
    if num_bytes % 4 == 0 {
        num_bytes
    } else {
        num_bytes + (4 - num_bytes % 4)
    }
}

/// Rounds `num_bytes` up to the next multiple of four; `usize::MAX` where that does not fit.
pub fn pad_end_4b(num_bytes: usize) -> (padded: usize)
    ensures
        spec_pad_end_4b(num_bytes as int) <= usize::MAX ==> padded == spec_pad_end_4b(
            num_bytes as int,
        ),
        spec_pad_end_4b(num_bytes as int) > usize::MAX ==> padded == usize::MAX,
{
    if num_bytes % 4 == 0 {
        num_bytes
    } else {
        num_bytes.saturating_add(4 - num_bytes % 4)
    }
}

/// The index of the first byte equal to `byte` in `bytes` at or after `from`, or the length
/// of `bytes` if there is none.
pub open spec fn byte_or_end(bytes: Seq<u8>, byte: u8, from: int) -> int
    decreases bytes.len() - from,
{
    if from >= bytes.len() || bytes[from] == byte {
        from
    } else {
        byte_or_end(bytes, byte, from + 1)
    }
}

/// The index of the first zero byte of `bytes` at or after `from`, or the length of `bytes`
/// if there is none.
pub open spec fn nul_or_end(bytes: Seq<u8>, from: int) -> int {
    byte_or_end(bytes, 0, from)
}

/// Finds the first byte equal to `byte` in `bytes` at or after `from`.
pub fn find_byte_or_end(bytes: &[u8], byte: u8, from: usize) -> (end: usize)
    requires
        from <= bytes@.len(),
    ensures
        end == byte_or_end(bytes@, byte, from as int),
        from <= end <= bytes@.len(),
        end < bytes@.len() ==> bytes@[end as int] == byte,
        forall|i: int| from <= i < end ==> bytes@[i] != byte,
{
    let mut end = from;
    while end < bytes.len() && bytes[end] != byte
        invariant
            from <= end <= bytes@.len(),
            byte_or_end(bytes@, byte, end as int) == byte_or_end(bytes@, byte, from as int),
            forall|i: int| from <= i < end ==> bytes@[i] != byte,
        decreases bytes@.len() - end,
    {
        end = end + 1;
    }
    end
}

/// Whether two byte slices hold the same bytes.
pub fn bytes_eq(a: &[u8], b: &[u8]) -> (same: bool)
    ensures
        same == (a@ == b@),
{
    if a.len() != b.len() {
        return false;
    }
    let mut i: usize = 0;
    while i < a.len()
        invariant
            a@.len() == b@.len(),
            i <= a@.len(),
            forall|k: int| 0 <= k < i ==> a@[k] == b@[k],
        decreases a@.len() - i,
    {
        if a[i] != b[i] {
            return false;
        }
        i = i + 1;
    }
    assert(a@ =~= b@);
    true
}

/// The token that starts at `offset` of the structure block, if the bytes there form one,
/// and the offset of what follows it. A `Nop` word gives no token but an offset. The end
/// marker, an undefined word and anything that reaches outside the two blocks give `None`.
pub open spec fn token_at(structure: Seq<u8>, strings: Seq<u8>, offset: int) -> Option<
    (Option<TokenView>, int),
> {
    if offset < 0 || offset + 4 > structure.len() {
        None
    } else {
        match TokenType::spec_from_u32(be_u32(structure.skip(offset))) {
            TokenType::BeginNode => {
                let name_end = nul_or_end(structure, offset + 4);
                Some(
                    (
                        Some(TokenView::StartNode(structure.subrange(offset + 4, name_end))),
                        spec_pad_end_4b(name_end + 1),
                    ),
                )
            },
            TokenType::EndNode => Some((Some(TokenView::EndNode), offset + 4)),
            TokenType::Prop => {
                if offset + 12 > structure.len() {
                    None
                } else {
                    let length = be_u32(structure.skip(offset + 4)) as int;
                    let name_offset = be_u32(structure.skip(offset + 8)) as int;
                    if name_offset > strings.len() || offset + 12 + length > structure.len() {
                        None
                    } else {
                        Some(
                            (
                                Some(
                                    TokenView::Property {
                                        name: strings.subrange(
                                            name_offset,
                                            nul_or_end(strings, name_offset),
                                        ),
                                        data: structure.subrange(offset + 12, offset + 12 + length),
                                    },
                                ),
                                offset + 12 + spec_pad_end_4b(length),
                            ),
                        )
                    }
                }
            },
            TokenType::Nop => Some((None, offset + 4)),
            TokenType::End => None,
            TokenType::Unknown(_) => None,
        }
    }
}

/// What stands at a place of the structure block.
#[derive(Debug, Clone, Copy, PartialEq, Eq, Structural)]
pub enum Standing {
    /// A token, or a `Nop` word.
    Token,
    /// The end marker.
    End,
    /// Bytes that are neither: an undefined word, a token that is cut short, or a
    /// property that reaches outside of its block.
    Malformed,
}

/// What stands at `offset` of the structure block.
pub open spec fn standing_at(structure: Seq<u8>, strings: Seq<u8>, offset: int) -> Standing {
    if token_at(structure, strings, offset) is Some {
        Standing::Token
    } else if 0 <= offset && offset + 4 <= structure.len() && TokenType::spec_from_u32(
        be_u32(structure.skip(offset)),
    ) is End {
        Standing::End
    } else {
        Standing::Malformed
    }
}

/// The tokens of the structure block from `offset` on, in order, up to the end marker or
/// the first place where the bytes do not form a token.
pub open spec fn tokens_from(structure: Seq<u8>, strings: Seq<u8>, offset: int) -> Seq<TokenView>
    decreases structure.len() - offset,
{
    let step = token_at(structure, strings, offset);
    if offset < 0 || offset + 4 > structure.len() || step is None || step.unwrap().1 <= offset {
        Seq::empty()
    } else {
        let rest = if step.unwrap().1 > structure.len() {
            Seq::empty()
        } else {
            tokens_from(structure, strings, step.unwrap().1)
        };
        match step.unwrap().0 {
            None => rest,
            Some(token) => seq![token] + rest,
        }
    }
}

/// The place where the tokens of the structure block from `offset` on end: the end marker,
/// or the first place where the bytes do not form a token.
pub open spec fn stop_offset(structure: Seq<u8>, strings: Seq<u8>, offset: int) -> int
    decreases structure.len() - offset,
{
    let step = token_at(structure, strings, offset);
    if offset < 0 || offset + 4 > structure.len() || step is None || step.unwrap().1 <= offset {
        offset
    } else if step.unwrap().1 > structure.len() {
        structure.len() as int
    } else {
        stop_offset(structure, strings, step.unwrap().1)
    }
}

/// Whether the tokens of the structure block end at the end marker: every word on the way
/// is a token that lies in its block.
pub open spec fn ends_well(structure: Seq<u8>, strings: Seq<u8>) -> bool {
    standing_at(structure, strings, stop_offset(structure, strings, 0)) is End
}

/// Past the last whole word of the structure block there are no tokens.
pub proof fn lemma_tokens_from_end(structure: Seq<u8>, strings: Seq<u8>, offset: int)
    requires
        offset + 4 > structure.len(),
    ensures
        tokens_from(structure, strings, offset) == Seq::<TokenView>::empty(),
{
}

/// The first matching byte at or after `from` does not lie before `from`, nor past the end.
pub proof fn lemma_byte_or_end_bounds(bytes: Seq<u8>, byte: u8, from: int)
    requires
        0 <= from <= bytes.len(),
    ensures
        from <= byte_or_end(bytes, byte, from) <= bytes.len(),
    decreases bytes.len() - from,
{
    if from < bytes.len() && bytes[from] != byte {
        lemma_byte_or_end_bounds(bytes, byte, from + 1);
    }
}

/// A copy of the bytes of `bytes`.
pub fn copy_bytes(bytes: &[u8]) -> (copy: Vec<u8>)
    ensures
        copy@ == bytes@,
{
    let mut copy: Vec<u8> = Vec::new();
    let mut i: usize = 0;
    while i < bytes.len()
        invariant
            i <= bytes@.len(),
            copy@ == bytes@.take(i as int),
        decreases bytes@.len() - i,
    {
        copy.push(bytes[i]);
        proof {
            assert(bytes@.take(i as int).push(bytes@[i as int]) =~= bytes@.take(i + 1));
        }
        i = i + 1;
    }
    proof {
        assert(bytes@.take(bytes@.len() as int) =~= bytes@);
    }
    copy
}

} // verus!
