//! Device tree cursors.
//!
//! Each cursor borrows from the blob and hands out its items one by one through a `next`
//! method. What a cursor has yet to hand out is a sequence that its contracts speak of, so
//! that a walk over a tree can be stated over the sequence of tokens of the blob.
use vstd::prelude::*;
use vstd::slice::slice_subrange;
use vstd::string::StringSliceAdditionalSpecFns;

use super::fdt::{
    be_u32, be_u64, byte_or_end, bytes_eq, ends_well, find_byte_or_end, lemma_tokens_from_end,
    pad_end_4b, read_u32_at, read_u64_be, standing_at, stop_offset, token_at, tokens_from,
    Standing, Token, TokenType, TokenView,
};
use super::{name_is, parse_value, strings_from, Registers, Value};

verus! {

/// The byte `@`, which parts a node's name from its unit address.
pub const UNIT_ADDRESS_SEPARATOR: u8 = 0x40;

/// Cursor over tree tokens in a device tree blob.
#[derive(Clone, Copy)]
pub struct FlattenedTreeIter<'dt> {
    structure: &'dt [u8],
    strings: &'dt [u8],
    current_offset: usize,
}

/// The tokens that follow the end of the node that `tokens` is `depth` levels inside of.
pub open spec fn after_subtree(tokens: Seq<TokenView>, depth: nat) -> Seq<TokenView>
    decreases tokens.len(),
{
    if depth == 0 || tokens.len() == 0 {
        tokens
    } else {
        match tokens[0] {
            TokenView::StartNode(_) => after_subtree(tokens.skip(1), depth + 1),
            TokenView::EndNode => after_subtree(tokens.skip(1), (depth - 1) as nat),
            TokenView::Property { .. } => after_subtree(tokens.skip(1), depth),
        }
    }
}

/// Skipping a subtree never adds tokens.
pub proof fn lemma_after_subtree_len(tokens: Seq<TokenView>, depth: nat)
    ensures
        after_subtree(tokens, depth).len() <= tokens.len(),
    decreases tokens.len(),
{
    if depth != 0 && tokens.len() != 0 {
        match tokens[0] {
            TokenView::StartNode(_) => lemma_after_subtree_len(tokens.skip(1), depth + 1),
            TokenView::EndNode => lemma_after_subtree_len(tokens.skip(1), (depth - 1) as nat),
            TokenView::Property { .. } => lemma_after_subtree_len(tokens.skip(1), depth),
        }
    }
}

impl<'dt> FlattenedTreeIter<'dt> {
    /// The tokens that the cursor has yet to yield, in order.
    pub closed spec fn remaining(&self) -> Seq<TokenView> {
        tokens_from(self.structure@, self.strings@, self.current_offset as int)
    }

    /// The number of bytes of the structure block that the cursor has passed.
    pub closed spec fn offset(&self) -> nat {
        self.current_offset as nat
    }

    /// The structure block that the cursor walks.
    pub closed spec fn structure_bytes(&self) -> Seq<u8> {
        self.structure@
    }

    /// The strings block that property names are looked up in.
    pub closed spec fn strings_bytes(&self) -> Seq<u8> {
        self.strings@
    }

    /// The condition under which the cursor stands inside its structure block.
    pub closed spec fn well_formed(&self) -> bool {
        self.current_offset <= self.structure@.len()
    }

    /// What the cursor stands at.
    pub closed spec fn standing(&self) -> Standing {
        standing_at(self.structure@, self.strings@, self.current_offset as int)
    }

    /// What the cursor will stand at once it has yielded all of its tokens.
    pub closed spec fn ending(&self) -> Standing {
        standing_at(
            self.structure@,
            self.strings@,
            stop_offset(self.structure@, self.strings@, self.current_offset as int),
        )
    }

    /// Whether the cursor stands at the end marker of the structure block. Once the
    /// cursor has yielded `None`, this tells a tree that has ended from bytes that form
    /// no token.
    pub fn at_end(&self) -> (end: bool)
        requires
            self.well_formed(),
        ensures
            end == (self.standing() is End),
    {
        let len = self.structure.len();
        let offset = self.current_offset;
        if len - offset < 4 {
            return false;
        }
        match TokenType::from_u32(read_u32_at(self.structure, offset)) {
            TokenType::End => true,
            _ => false,
        }
    }

    /// Whether the cursor stands at bytes that form no token and are not the end marker:
    /// an undefined word, a token that is cut short, or a property that reaches outside
    /// of its block.
    pub fn malformed(&self) -> (bad: bool)
        requires
            self.well_formed(),
        ensures
            bad == (self.standing() is Malformed),
    {
        let len = self.structure.len();
        let offset = self.current_offset;
        if len - offset < 4 {
            return true;
        }
        match TokenType::from_u32(read_u32_at(self.structure, offset)) {
            TokenType::BeginNode => false,
            TokenType::EndNode => false,
            TokenType::Nop => false,
            TokenType::End => false,
            TokenType::Unknown(_) => true,
            TokenType::Prop => {
                if len - offset < 12 {
                    true
                } else {
                    let length = read_u32_at(self.structure, offset + 4) as usize;
                    let name_offset = read_u32_at(self.structure, offset + 8) as usize;
                    name_offset > self.strings.len() || length > len - offset - 12
                }
            },
        }
    }

    /// A cursor at the start of the structure block `structure`, with names in `strings`.
    pub fn new(structure: &'dt [u8], strings: &'dt [u8]) -> (it: Self)
        ensures
            it.well_formed(),
            it.ending() is End == ends_well(structure@, strings@),
            it.offset() == 0,
            it.structure_bytes() == structure@,
            it.strings_bytes() == strings@,
            it.remaining() == tokens_from(structure@, strings@, 0),
    {
        FlattenedTreeIter { structure, strings, current_offset: 0 }
    }

    /// Moves the cursor to `next`, or to the end of the structure block if `next` is past it.
    fn advance_to(&mut self, next: usize)
        requires
            old(self).well_formed(),
        ensures
            final(self).well_formed(),
            final(self).structure == old(self).structure,
            final(self).strings == old(self).strings,
            next <= old(self).structure@.len() ==> final(self).current_offset == next,
            next > old(self).structure@.len() ==> final(self).current_offset == old(
                self,
            ).structure@.len(),
    {
        if next > self.structure.len() {
            self.current_offset = self.structure.len();
        } else {
            self.current_offset = next;
        }
    }

    /// Advances the cursor and returns the next token, skipping `Nop` words.
    ///
    /// Returns `None` at the end marker, and at the first place where the bytes do not form
    /// a token. The cursor rests there: [`FlattenedTreeIter::at_end`] and
    /// [`FlattenedTreeIter::malformed`] then tell the two apart.
    pub fn next(&mut self) -> (r: Option<Token<'dt>>)
        requires
            old(self).well_formed(),
        ensures
            final(self).well_formed(),
            r is None ==> !(final(self).standing() is Token),
            r is None ==> final(self).standing() == old(self).ending(),
            final(self).ending() == old(self).ending(),
            final(self).structure_bytes() == old(self).structure_bytes(),
            final(self).strings_bytes() == old(self).strings_bytes(),
            old(self).remaining().len() == 0 ==> r is None && final(self).remaining().len() == 0,
            old(self).remaining().len() > 0 ==> r is Some && r->0@ == old(self).remaining()[0]
                && final(self).remaining() == old(self).remaining().skip(1),
            r is Some ==> final(self).offset() >= old(self).offset() + 4,
            final(self).offset() >= old(self).offset(),
    {
        loop
            invariant
                self.well_formed(),
                self.structure == old(self).structure,
                self.strings == old(self).strings,
                self.remaining() == old(self).remaining(),
                self.current_offset >= old(self).current_offset,
                self.ending() == old(self).ending(),
            decreases self.structure@.len() - self.current_offset,
        {
            let len = self.structure.len();
            let offset = self.current_offset;
            let ghost structure = self.structure@;
            let ghost strings = self.strings@;
            let ghost before = self.remaining();
            if len - offset < 4 {
                return None;
            }
            let word = read_u32_at(self.structure, offset);
            match TokenType::from_u32(word) {
                TokenType::BeginNode => {
                    let name_end = find_byte_or_end(self.structure, 0, offset + 4);
                    let name = slice_subrange(self.structure, offset + 4, name_end);
                    if name_end >= len {
                        self.advance_to(len);
                    } else {
                        let next = pad_end_4b(name_end + 1);
                        self.advance_to(next);
                    }
                    proof {
                        let step = token_at(structure, strings, offset as int);
                        assert(step.unwrap().0 == Some(TokenView::StartNode(name@)));
                        lemma_tokens_from_end(structure, strings, len as int);
                        assert(before =~= seq![TokenView::StartNode(name@)] + self.remaining());
                        assert(self.remaining() =~= before.skip(1));
                    }
                    return Some(Token::StartNode(name));
                },
                TokenType::EndNode => {
                    self.advance_to(offset + 4);
                    proof {
                        assert(before =~= seq![TokenView::EndNode] + self.remaining());
                        assert(self.remaining() =~= before.skip(1));
                    }
                    return Some(Token::EndNode);
                },
                TokenType::Prop => {
                    if len - offset < 12 {
                        return None;
                    }
                    let length = read_u32_at(self.structure, offset + 4) as usize;
                    let name_offset = read_u32_at(self.structure, offset + 8) as usize;
                    if name_offset > self.strings.len() || length > len - offset - 12 {
                        return None;
                    }
                    let name_end = find_byte_or_end(self.strings, 0, name_offset);
                    let name = slice_subrange(self.strings, name_offset, name_end);
                    let data = slice_subrange(self.structure, offset + 12, offset + 12 + length);
                    let next = (offset + 12).saturating_add(pad_end_4b(length));
                    self.advance_to(next);
                    proof {
                        let token = TokenView::Property { name: name@, data: data@ };
                        let step = token_at(structure, strings, offset as int);
                        assert(step.unwrap().0 == Some(token));
                        lemma_tokens_from_end(structure, strings, len as int);
                        assert(before =~= seq![token] + self.remaining());
                        assert(self.remaining() =~= before.skip(1));
                    }
                    return Some(Token::Property { name, data });
                },
                TokenType::Nop => {
                    self.advance_to(offset + 4);
                },
                TokenType::End => {
                    return None;
                },
                TokenType::Unknown(_) => {
                    return None;
                },
            }
        }
    }

    /// Skips over a node and all its children.
    /// Assumes that the cursor has just yielded a [`Token::StartNode`] for the node to be
    /// skipped.
    pub fn skip_node(&mut self)
        requires
            old(self).well_formed(),
        ensures
            final(self).well_formed(),
            final(self).structure_bytes() == old(self).structure_bytes(),
            final(self).strings_bytes() == old(self).strings_bytes(),
            final(self).remaining() == after_subtree(old(self).remaining(), 1),
            final(self).offset() >= old(self).offset(),
            final(self).ending() == old(self).ending(),
    {
        let mut depth: usize = 1;
        loop
            invariant
                self.well_formed(),
                self.ending() == old(self).ending(),
                self.structure_bytes() == old(self).structure_bytes(),
                self.strings_bytes() == old(self).strings_bytes(),
                depth >= 1,
                depth * 4 <= self.offset() + 4,
                self.offset() >= old(self).offset(),
                after_subtree(self.remaining(), depth as nat) == after_subtree(
                    old(self).remaining(),
                    1,
                ),
            decreases self.remaining().len(),
        {
            let ghost before = self.remaining();
            match self.next() {
                None => {
                    assert(self.remaining() =~= before);
                    return ;
                },
                Some(Token::StartNode(_)) => {
                    depth = depth + 1;
                },
                Some(Token::EndNode) => {
                    depth = depth - 1;
                    if depth == 0 {
                        assert(after_subtree(self.remaining(), 0) == self.remaining());
                        return ;
                    }
                },
                Some(Token::Property { .. }) => {},
            }
        }
    }
}

/// The (address, size) pairs of a memory reservation block from byte `from` on, up to the
/// pair of zeros that ends the block, or to where the bytes run out.
pub open spec fn regions_from(data: Seq<u8>, from: int) -> Seq<(u64, u64)>
    decreases data.len() - from,
{
    if from < 0 || from + 16 > data.len() {
        Seq::empty()
    } else {
        let address = be_u64(data.skip(from));
        let size = be_u64(data.skip(from + 8));
        if address == 0 && size == 0 {
            Seq::empty()
        } else {
            seq![(address, size)] + regions_from(data, from + 16)
        }
    }
}

/// A cursor over reserved regions of memory.
pub struct MemRegionIter<'dt> {
    data: &'dt [u8],
    current_offset: usize,
}

impl<'dt> MemRegionIter<'dt> {
    /// The regions that the cursor has yet to yield, in order.
    pub closed spec fn remaining(&self) -> Seq<(u64, u64)> {
        regions_from(self.data@, self.current_offset as int)
    }

    /// The condition under which the cursor stands inside its data.
    pub closed spec fn well_formed(&self) -> bool {
        self.current_offset <= self.data@.len()
    }

    /// Whether the cursor stands at the pair of zeros that ends a reservation block.
    pub closed spec fn spec_terminated(&self) -> bool {
        &&& self.current_offset + 16 <= self.data@.len()
        &&& be_u64(self.data@.skip(self.current_offset as int)) == 0
        &&& be_u64(self.data@.skip(self.current_offset as int + 8)) == 0
    }

    /// Whether the cursor stands at the pair of zeros that ends a reservation block. Once
    /// the cursor has yielded `None`, this tells a block that has ended from bytes that
    /// have run out.
    pub fn terminated(&self) -> (ended: bool)
        requires
            self.well_formed(),
        ensures
            ended == self.spec_terminated(),
    {
        let len = self.data.len();
        let offset = self.current_offset;
        if len - offset < 16 {
            return false;
        }
        let first = slice_subrange(self.data, offset, len);
        let second = slice_subrange(self.data, offset + 8, len);
        assert(first@ =~= self.data@.skip(offset as int));
        assert(second@ =~= self.data@.skip(offset as int + 8));
        read_u64_be(first) == 0 && read_u64_be(second) == 0
    }

    /// Creates a memory region cursor for the data of an arbitrary property.
    pub fn for_data(data: &'dt [u8]) -> (it: Self)
        ensures
            it.well_formed(),
            it.remaining() == regions_from(data@, 0),
    {
        Self { data, current_offset: 0 }
    }

    /// Advances the cursor and returns the next (address, size) pair.
    ///
    /// Returns `None` at the pair of zeros that ends the block, and where the bytes run
    /// out. The cursor rests there: [`MemRegionIter::terminated`] then tells the two
    /// apart.
    pub fn next(&mut self) -> (r: Option<(u64, u64)>)
        requires
            old(self).well_formed(),
        ensures
            final(self).well_formed(),
            r is None ==> *final(self) == *old(self),
            old(self).remaining().len() == 0 ==> r is None && final(self).remaining().len() == 0,
            old(self).remaining().len() > 0 ==> r == Some(old(self).remaining()[0])
                && final(self).remaining() == old(self).remaining().skip(1),
    {
        let len = self.data.len();
        let offset = self.current_offset;
        if len - offset < 16 {
            return None;
        }
        let first = slice_subrange(self.data, offset, len);
        let second = slice_subrange(self.data, offset + 8, len);
        assert(first@ =~= self.data@.skip(offset as int));
        assert(second@ =~= self.data@.skip(offset as int + 8));
        let address = read_u64_be(first);
        let size = read_u64_be(second);
        if address == 0 && size == 0 {
            None
        } else {
            let ghost before = self.remaining();
            self.current_offset = offset + 16;
            assert(before =~= seq![(address, size)] + self.remaining());
            assert(self.remaining() =~= before.skip(1));
            Some((address, size))
        }
    }
}

/// Cursor over strings in a [`super::StringList`].
pub struct StringListIter<'dt> {
    data: &'dt [u8],
    current_offset: usize,
}

impl<'dt> StringListIter<'dt> {
    /// The strings that the cursor has yet to yield, in order.
    pub closed spec fn remaining(&self) -> Seq<Seq<u8>> {
        strings_from(self.data@, self.current_offset as int)
    }

    /// The condition under which the cursor stands inside its data.
    pub closed spec fn well_formed(&self) -> bool {
        self.current_offset <= self.data@.len()
    }

    /// A cursor over the NUL-terminated strings in `data`.
    pub fn new(data: &'dt [u8]) -> (it: Self)
        ensures
            it.well_formed(),
            it.remaining() == strings_from(data@, 0),
    {
        Self { data, current_offset: 0 }
    }

    /// Advances the cursor and returns the next string, without its terminator.
    pub fn next(&mut self) -> (r: Option<&'dt [u8]>)
        requires
            old(self).well_formed(),
        ensures
            final(self).well_formed(),
            old(self).remaining().len() == 0 ==> r is None && final(self).remaining().len() == 0,
            old(self).remaining().len() > 0 ==> r is Some && r->0@ == old(self).remaining()[0]
                && final(self).remaining() == old(self).remaining().skip(1),
    {
        let len = self.data.len();
        let offset = self.current_offset;
        if offset >= len {
            return None;
        }
        let end = find_byte_or_end(self.data, 0, offset);
        if end >= len {
            return None;
        }
        let ghost before = self.remaining();
        let s = slice_subrange(self.data, offset, end);
        self.current_offset = end + 1;
        proof {
            assert(before =~= seq![s@] + self.remaining());
            assert(self.remaining() =~= before.skip(1));
        }
        Some(s)
    }
}

/// The (name, data) pairs of the properties of the node that `tokens` is `depth` levels
/// inside of, in order: those that stand directly in the node at depth one, up to its end.
pub open spec fn properties_of(tokens: Seq<TokenView>, depth: nat) -> Seq<(Seq<u8>, Seq<u8>)>
    decreases tokens.len(),
{
    if depth == 0 || tokens.len() == 0 {
        Seq::empty()
    } else {
        match tokens[0] {
            TokenView::StartNode(_) => properties_of(tokens.skip(1), depth + 1),
            TokenView::EndNode => properties_of(tokens.skip(1), (depth - 1) as nat),
            TokenView::Property { name, data } => {
                if depth == 1 {
                    seq![(name, data)] + properties_of(tokens.skip(1), depth)
                } else {
                    properties_of(tokens.skip(1), depth)
                }
            },
        }
    }
}

/// Cursor over properties of a single node in the tree.
#[derive(Clone, Copy)]
pub struct NodePropertyIter<'a> {
    cur: FlattenedTreeIter<'a>,
    depth: usize,
    parent_address_cells: u32,
    parent_size_cells: u32,
}

impl<'a> NodePropertyIter<'a> {
    /// The (name, data) pairs of the properties that the cursor has yet to yield, in order.
    pub closed spec fn properties(&self) -> Seq<(Seq<u8>, Seq<u8>)> {
        properties_of(self.cur.remaining(), self.depth as nat)
    }

    /// The `#address-cells` value that types the properties.
    pub closed spec fn address_cells(&self) -> u32 {
        self.parent_address_cells
    }

    /// The `#size-cells` value that types the properties.
    pub closed spec fn size_cells(&self) -> u32 {
        self.parent_size_cells
    }

    /// The condition under which the cursor's fields agree with each other.
    pub closed spec fn well_formed(&self) -> bool {
        &&& self.cur.well_formed()
        &&& self.depth * 4 <= self.cur.offset()
    }

    /// What the cursor stands at in the structure block.
    pub closed spec fn standing(&self) -> Standing {
        self.cur.standing()
    }

    /// What the cursor stands at where the tokens of the structure block stop.
    pub closed spec fn ending(&self) -> Standing {
        self.cur.ending()
    }

    /// Whether the cursor has passed the end of its node.
    pub closed spec fn spec_node_ended(&self) -> bool {
        self.depth == 0
    }

    /// Whether the cursor has passed the end of its node. A cursor that has yielded `None`
    /// before it has stands where the tokens of the structure block stop.
    pub fn node_ended(&self) -> (ended: bool)
        ensures
            ended == self.spec_node_ended(),
    {
        self.depth == 0
    }

    /// Whether the cursor stands at bytes of the structure block that form no token and
    /// are not the end marker.
    pub fn malformed(&self) -> (bad: bool)
        requires
            self.well_formed(),
        ensures
            bad == (self.standing() is Malformed),
    {
        self.cur.malformed()
    }

    /// A cursor over the properties of the node whose start token `cur` has just yielded.
    pub fn new(cur: FlattenedTreeIter<'a>, parent_address_cells: u32, parent_size_cells: u32) -> (it:
        Self)
        requires
            cur.well_formed(),
            cur.offset() >= 4,
        ensures
            it.well_formed(),
            it.properties() == properties_of(cur.remaining(), 1),
            it.address_cells() == parent_address_cells,
            it.size_cells() == parent_size_cells,
            !it.spec_node_ended(),
            it.standing() == cur.standing(),
            it.ending() == cur.ending(),
    {
        NodePropertyIter { cur, depth: 1, parent_address_cells, parent_size_cells }
    }

    /// Get the `#address-cells` property defined by the parent of this node.
    pub fn parent_address_cells(&self) -> (cells: u32)
        ensures
            cells == self.address_cells(),
    {
        self.parent_address_cells
    }

    /// Get the `#size-cells` property defined by the parent of this node.
    pub fn parent_size_cells(&self) -> (cells: u32)
        ensures
            cells == self.size_cells(),
    {
        self.parent_size_cells
    }

    /// Advances the cursor and returns the next property of the node with its typed value.
    ///
    /// Returns `None` once the node has ended, and where the tokens of the structure
    /// block stop before the node has ended. In the second case the cursor rests where
    /// they stop: [`NodePropertyIter::node_ended`] tells the two apart, and
    /// [`NodePropertyIter::malformed`] then says whether the bytes there form no token.
    pub fn next(&mut self) -> (r: Option<(&'a [u8], Value<'a>)>)
        requires
            old(self).well_formed(),
        ensures
            final(self).well_formed(),
            final(self).address_cells() == old(self).address_cells(),
            final(self).size_cells() == old(self).size_cells(),
            final(self).ending() == old(self).ending(),
            old(self).spec_node_ended() ==> r is None && final(self).spec_node_ended()
                && final(self).standing() == old(self).standing(),
            r is Some ==> !final(self).spec_node_ended(),
            r is None && !final(self).spec_node_ended() ==> !(final(self).standing() is Token)
                && final(self).standing() == old(self).ending(),
            old(self).properties().len() == 0 ==> r is None && final(self).properties().len()
                == 0,
            old(self).properties().len() > 0 ==> {
                &&& r is Some
                &&& r.unwrap().0@ == old(self).properties()[0].0
                &&& r.unwrap().1@ == parse_value(
                    old(self).properties()[0].0,
                    old(self).properties()[0].1,
                    old(self).address_cells(),
                    old(self).size_cells(),
                )
                &&& final(self).properties() == old(self).properties().skip(1)
            },
    {
        if self.depth == 0 {
            return None;
        }
        loop
            invariant
                self.well_formed(),
                self.depth >= 1,
                self.parent_address_cells == old(self).parent_address_cells,
                self.parent_size_cells == old(self).parent_size_cells,
                self.properties() == old(self).properties(),
                self.ending() == old(self).ending(),
                !old(self).spec_node_ended(),
            decreases self.cur.remaining().len(),
        {
            let ghost before = self.properties();
            match self.cur.next() {
                None => {
                    return None;
                },
                Some(Token::StartNode(_)) => {
                    self.depth = self.depth + 1;
                },
                Some(Token::EndNode) => {
                    self.depth = self.depth - 1;
                    if self.depth == 0 {
                        proof {
                            assert(properties_of(self.cur.remaining(), 0).len() == 0);
                            assert(before.len() == 0);
                        }
                        return None;
                    }
                },
                Some(Token::Property { name, data }) => {
                    if self.depth == 1 {
                        proof {
                            assert(before =~= seq![(name@, data@)] + self.properties());
                            assert(self.properties() =~= before.skip(1));
                        }
                        return Some(
                            (
                                name,
                                Value::parse(
                                    name,
                                    data,
                                    self.parent_address_cells,
                                    self.parent_size_cells,
                                ),
                            ),
                        );
                    }
                },
            }
        }
    }
}

/// The number that `cells` big-endian 32-bit cells of `data` from byte `from` on spell, each
/// cell shifting what came before it up by 32 bits, starting from `acc`.
pub open spec fn cells_value(data: Seq<u8>, from: int, cells: nat, acc: u64) -> u64
    decreases cells,
{
    if cells == 0 {
        acc
    } else {
        cells_value(
            data,
            from + 4,
            (cells - 1) as nat,
            (acc << 32) | (be_u32(data.skip(from)) as u64),
        )
    }
}

/// The (address, size) pairs of a register array from byte `from` on, where an address
/// takes `address_cells` cells and a size takes `size_cells` cells. Bytes at the end that
/// do not make a whole pair belong to none, and pairs of no cells at all are not counted.
pub open spec fn registers_from(data: Seq<u8>, from: int, address_cells: nat, size_cells: nat)
    -> Seq<(u64, u64)>
    decreases data.len() - from,
{
    if from < 0 || address_cells + size_cells == 0 || from + 4 * (address_cells + size_cells)
        > data.len() {
        Seq::empty()
    } else {
        seq![
            (
                cells_value(data, from, address_cells, 0),
                cells_value(data, from + 4 * address_cells, size_cells, 0),
            ),
        ] + registers_from(data, from + 4 * (address_cells + size_cells), address_cells, size_cells)
    }
}

/// A cursor over the (address, length) pairs contained in an array of device register
/// regions. Constructed by a [`super::Registers`].
pub struct RegistersIter<'dt> {
    regs: Registers<'dt>,
    offset: usize,
}

impl<'dt> RegistersIter<'dt> {
    /// The pairs that the cursor has yet to yield, in order.
    pub closed spec fn remaining(&self) -> Seq<(u64, u64)> {
        registers_from(
            self.regs.data@,
            self.offset as int,
            self.regs.address_cells as nat,
            self.regs.size_cells as nat,
        )
    }

    /// The condition under which the cursor stands inside its data.
    pub closed spec fn well_formed(&self) -> bool {
        self.offset <= self.regs.data@.len()
    }

    /// A cursor at the start of the register array `regs`.
    pub fn new(regs: Registers<'dt>) -> (it: Self)
        ensures
            it.well_formed(),
            it.remaining() == registers_from(
                regs.data@,
                0,
                regs.address_cells as nat,
                regs.size_cells as nat,
            ),
    {
        RegistersIter { regs, offset: 0 }
    }

    /// Reads `cells` cells from byte `from` on.
    fn read_cells(data: &[u8], from: usize, cells: u32) -> (value: u64)
        requires
            from + 4 * cells <= data@.len(),
        ensures
            value == cells_value(data@, from as int, cells as nat, 0),
    {
        let len = data.len();
        let mut value: u64 = 0;
        let mut done: u32 = 0;
        let mut at: usize = from;
        while done < cells
            invariant
                done <= cells,
                at == from + 4 * done,
                from + 4 * cells <= data@.len(),
                len == data@.len(),
                cells_value(data@, at as int, (cells - done) as nat, value) == cells_value(
                    data@,
                    from as int,
                    cells as nat,
                    0,
                ),
            decreases cells - done,
        {
            assert(4 * done + 4 <= 4 * cells);
            let cell = read_u32_at(data, at);
            value = (value << 32) | (cell as u64);
            at = at + 4;
            done = done + 1;
        }
        value
    }

    /// Advances the cursor and returns the next (address, size) pair.
    pub fn next(&mut self) -> (r: Option<(u64, u64)>)
        requires
            old(self).well_formed(),
        ensures
            final(self).well_formed(),
            old(self).remaining().len() == 0 ==> r is None && final(self).remaining().len() == 0,
            old(self).remaining().len() > 0 ==> r == Some(old(self).remaining()[0])
                && final(self).remaining() == old(self).remaining().skip(1),
    {
        let len = self.regs.data.len();
        let address_cells = self.regs.address_cells;
        let size_cells = self.regs.size_cells;
        let cells: u64 = address_cells as u64 + size_cells as u64;
        if cells == 0 || ((len - self.offset) as u64) / 4 < cells {
            return None;
        }
        let ghost before = self.remaining();
        let address = Self::read_cells(self.regs.data, self.offset, address_cells);
        let size = Self::read_cells(
            self.regs.data,
            self.offset + 4 * (address_cells as usize),
            size_cells,
        );
        self.offset = self.offset + 4 * (cells as usize);
        proof {
            assert(before =~= seq![(address, size)] + self.remaining());
            assert(self.remaining() =~= before.skip(1));
        }
        Some((address, size))
    }
}

/// The part of a node's full name before the first `@`: its node name.
pub open spec fn node_name_of(full_name: Seq<u8>) -> Seq<u8> {
    full_name.subrange(0, byte_or_end(full_name, UNIT_ADDRESS_SEPARATOR, 0))
}

/// The part of a node's full name after the first `@`, if there is an `@`: its unit address.
pub open spec fn unit_address_of(full_name: Seq<u8>) -> Option<Seq<u8>> {
    let at = byte_or_end(full_name, UNIT_ADDRESS_SEPARATOR, 0);
    if at < full_name.len() {
        Some(full_name.subrange(at + 1, full_name.len() as int))
    } else {
        None
    }
}

/// Splits a node's full name into the node name and unit address.
pub fn split_node_name<'a>(full_name: &'a [u8]) -> (r: (&'a [u8], Option<&'a [u8]>))
    ensures
        r.0@ == node_name_of(full_name@),
        unit_address_of(full_name@) is None ==> r.1 is None,
        unit_address_of(full_name@) is Some ==> r.1 is Some && r.1->0@ == unit_address_of(
            full_name@,
        )->0,
{
    let at = find_byte_or_end(full_name, UNIT_ADDRESS_SEPARATOR, 0);
    if at < full_name.len() {
        (slice_subrange(full_name, 0, at), Some(slice_subrange(full_name, at + 1, full_name.len())))
    } else {
        (slice_subrange(full_name, 0, at), None)
    }
}

/// The cell counts that hold after a property `name` with the bytes `data` has been seen:
/// `#address-cells` and `#size-cells` of at least four bytes replace the count they name.
pub open spec fn cells_after(name: Seq<u8>, data: Seq<u8>, cells: (Option<u32>, Option<u32>)) -> (
    Option<u32>,
    Option<u32>,
) {
    if name == "#address-cells".spec_bytes() && data.len() >= 4 {
        (Some(be_u32(data)), cells.1)
    } else if name == "#size-cells".spec_bytes() && data.len() >= 4 {
        (cells.0, Some(be_u32(data)))
    } else {
        cells
    }
}

/// Reads a property for the cell counts it may set.
pub(crate) fn update_cells(name: &[u8], data: &[u8], cells: (Option<u32>, Option<u32>)) -> (r: (
    Option<u32>,
    Option<u32>,
))
    ensures
        r == cells_after(name@, data@, cells),
{
    if data.len() >= 4 && name_is(name, "#address-cells") {
        assert(data@.skip(0) =~= data@);
        (Some(read_u32_at(data, 0)), cells.1)
    } else if data.len() >= 4 && name_is(name, "#size-cells") {
        assert(data@.skip(0) =~= data@);
        (cells.0, Some(read_u32_at(data, 0)))
    } else {
        cells
    }
}

/// A child node that a [`NodesNamedIter`] yields, as what it holds.
pub struct NamedNodeView {
    /// The unit address of the node (the part after `@` in the node name), if any.
    pub unit_address: Option<Seq<u8>>,
    /// The (name, data) pairs of the node's properties.
    pub properties: Seq<(Seq<u8>, Seq<u8>)>,
    /// The `#address-cells` value that types the properties.
    pub address_cells: u32,
    /// The `#size-cells` value that types the properties.
    pub size_cells: u32,
}

/// The children called `node_name` among the children whose tokens are `tokens`, in order:
/// `tokens` starts inside the parent node and the parent's end token ends the search. The
/// parent's own `#address-cells` and `#size-cells` properties, where they stand before a
/// child, replace `cells` for the children after them.
pub open spec fn named_nodes(
    tokens: Seq<TokenView>,
    node_name: Seq<u8>,
    cells: (Option<u32>, Option<u32>),
) -> Seq<NamedNodeView>
    decreases tokens.len(),
{
    if tokens.len() == 0 {
        Seq::empty()
    } else {
        match tokens[0] {
            TokenView::StartNode(full_name) => {
                let rest = after_subtree(tokens.skip(1), 1);
                let later = if rest.len() >= tokens.len() {
                    Seq::empty()
                } else {
                    named_nodes(rest, node_name, cells)
                };
                if node_name_of(full_name) == node_name {
                    seq![
                        NamedNodeView {
                            unit_address: unit_address_of(full_name),
                            properties: properties_of(tokens.skip(1), 1),
                            address_cells: cells.0->0,
                            size_cells: cells.1->0,
                        },
                    ] + later
                } else {
                    later
                }
            },
            TokenView::EndNode => Seq::empty(),
            TokenView::Property { name, data } => named_nodes(
                tokens.skip(1),
                node_name,
                cells_after(name, data, cells),
            ),
        }
    }
}

/// A cursor over nodes with a specific name under a given path.
pub struct NodesNamedIter<'dt, 'query> {
    cur: FlattenedTreeIter<'dt>,
    depth: usize,
    node_name: &'query [u8],
    parent_address_cells: u32,
    parent_size_cells: u32,
}

/// Represents a node with its unit address and properties cursor.
pub struct NodeItem<'dt> {
    /// The unit address of the node (the part after '@' in the node name), if any.
    pub unit_address: Option<&'dt [u8]>,
    /// A cursor over the properties of the node.
    pub properties: NodePropertyIter<'dt>,
}

impl<'dt> View for NodeItem<'dt> {
    type V = NamedNodeView;

    open spec fn view(&self) -> NamedNodeView {
        NamedNodeView {
            unit_address: match self.unit_address {
                Some(a) => Some(a@),
                None => None,
            },
            properties: self.properties.properties(),
            address_cells: self.properties.address_cells(),
            size_cells: self.properties.size_cells(),
        }
    }
}

impl<'dt, 'query> NodesNamedIter<'dt, 'query> {
    /// What the cursor stands at in the structure block.
    pub closed spec fn standing(&self) -> Standing {
        self.cur.standing()
    }

    /// What the cursor stands at where the tokens of the structure block stop.
    pub closed spec fn ending(&self) -> Standing {
        self.cur.ending()
    }

    /// Whether the cursor has passed the end of the node whose children it yields.
    pub closed spec fn spec_node_ended(&self) -> bool {
        self.depth == 0
    }

    /// Whether the cursor has passed the end of the node whose children it yields. A cursor
    /// that has yielded `None` before it has stands where the tokens of the structure block
    /// stop.
    pub fn node_ended(&self) -> (ended: bool)
        ensures
            ended == self.spec_node_ended(),
    {
        self.depth == 0
    }

    /// Whether the cursor stands at bytes of the structure block that form no token and
    /// are not the end marker.
    pub fn malformed(&self) -> (bad: bool)
        requires
            self.well_formed(),
        ensures
            bad == (self.standing() is Malformed),
    {
        self.cur.malformed()
    }

    /// The nodes that the cursor has yet to yield, in order.
    pub closed spec fn nodes(&self) -> Seq<NamedNodeView> {
        if self.depth == 0 {
            Seq::empty()
        } else {
            named_nodes(
                self.cur.remaining(),
                self.node_name@,
                (Some(self.parent_address_cells), Some(self.parent_size_cells)),
            )
        }
    }

    /// The condition under which the cursor's fields agree with each other.
    pub closed spec fn well_formed(&self) -> bool {
        &&& self.cur.well_formed()
        &&& self.depth <= 1
    }

    /// A cursor over the children called `node_name` of the node whose start token `cur` has
    /// just yielded.
    pub fn new(
        cur: FlattenedTreeIter<'dt>,
        node_name: &'query [u8],
        parent_address_cells: u32,
        parent_size_cells: u32,
    ) -> (it: Self)
        requires
            cur.well_formed(),
        ensures
            it.well_formed(),
            it.nodes() == named_nodes(
                cur.remaining(),
                node_name@,
                (Some(parent_address_cells), Some(parent_size_cells)),
            ),
            !it.spec_node_ended(),
            it.standing() == cur.standing(),
            it.ending() == cur.ending(),
    {
        NodesNamedIter { cur, depth: 1, node_name, parent_address_cells, parent_size_cells }
    }

    /// Advances the cursor and returns the next child with the wanted name.
    ///
    /// Returns `None` once the node has ended whose children the cursor yields, and where
    /// the tokens of the structure block stop before that. In the second case the cursor
    /// rests where they stop: [`NodesNamedIter::node_ended`] tells the two apart, and
    /// [`NodesNamedIter::malformed`] then says whether the bytes there form no token.
    pub fn next(&mut self) -> (r: Option<NodeItem<'dt>>)
        requires
            old(self).well_formed(),
        ensures
            final(self).well_formed(),
            final(self).ending() == old(self).ending(),
            old(self).spec_node_ended() ==> r is None && final(self).spec_node_ended()
                && final(self).standing() == old(self).standing(),
            r is Some ==> !final(self).spec_node_ended() && r->0.properties.ending() == old(
                self,
            ).ending(),
            r is None && !final(self).spec_node_ended() ==> !(final(self).standing() is Token)
                && final(self).standing() == old(self).ending(),
            old(self).nodes().len() == 0 ==> r is None && final(self).nodes().len() == 0,
            old(self).nodes().len() > 0 ==> r is Some && r->0@ == old(self).nodes()[0]
                && r->0.properties.well_formed() && final(self).nodes() == old(
                self,
            ).nodes().skip(1),
    {
        if self.depth == 0 {
            return None;
        }
        loop
            invariant
                self.well_formed(),
                self.depth == 1,
                self.node_name == old(self).node_name,
                self.nodes() == old(self).nodes(),
                self.ending() == old(self).ending(),
                !old(self).spec_node_ended(),
            decreases self.cur.remaining().len(),
        {
            let ghost before = self.nodes();
            let ghost tokens = self.cur.remaining();
            match self.cur.next() {
                None => {
                    return None;
                },
                Some(Token::StartNode(full_name)) => {
                    let (name, unit_address) = split_node_name(full_name);
                    let props_cur = self.cur;
                    self.cur.skip_node();
                    proof {
                        lemma_after_subtree_len(tokens.skip(1), 1);
                    }
                    if bytes_eq(name, self.node_name) {
                        let properties = NodePropertyIter::new(
                            props_cur,
                            self.parent_address_cells,
                            self.parent_size_cells,
                        );
                        let item = NodeItem { unit_address, properties };
                        proof {
                            assert(before =~= seq![item@] + self.nodes());
                            assert(self.nodes() =~= before.skip(1));
                        }
                        return Some(item);
                    }
                },
                Some(Token::EndNode) => {
                    self.depth = 0;
                    return None;
                },
                Some(Token::Property { name, data }) => {
                    let cells = update_cells(
                        name,
                        data,
                        (Some(self.parent_address_cells), Some(self.parent_size_cells)),
                    );
                    if let Some(c) = cells.0 {
                        self.parent_address_cells = c;
                    }
                    if let Some(c) = cells.1 {
                        self.parent_size_cells = c;
                    }
                },
            }
        }
    }
}

} // verus!
