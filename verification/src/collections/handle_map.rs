//! A map from handles to reference counted values.
//!
//! The map is a trie of tables of 256 slots: a handle is looked up byte by byte, from its
//! most significant byte on, through as many tables as the largest handle has bytes.
use std::sync::Arc;
use vstd::arithmetic::div_mod::lemma_fundamental_div_mod;
use vstd::prelude::*;

use super::arc_swap::share;
use super::handle_allocator::{first_free, lemma_first_free};
use super::HandleAllocator;

verus! {

/// A handle: a number that stands for a value in a [`HandleMap`].
pub type Handle = u32;

/// The number of slots in a table.
pub const TABLE_SIZE: usize = 256;

/// The number of handles that one slot stands for in a table that is `depth` tables above
/// the values.
pub open spec fn slot_span(depth: nat) -> int {
    if depth <= 1 {
        1
    } else if depth == 2 {
        0x100
    } else if depth == 3 {
        0x1_0000
    } else {
        0x100_0000
    }
}

/// The number of tables that a handle passes through in a map for the handles up to
/// `max_handle`: the number of bytes that it takes to write `max_handle`.
pub open spec fn depth_for(max_handle: u32) -> nat {
    if max_handle < 0x100 {
        1
    } else if max_handle < 0x1_0000 {
        2
    } else if max_handle < 0x100_0000 {
        3
    } else {
        4
    }
}

/// A table of the trie: in each slot a table of the next level, a value, or nothing.
struct Table<T> {
    tables: Vec<Option<Table<T>>>,
    values: Vec<Option<Arc<T>>>,
}

impl<T> Table<T> {
    /// The invariant of a table that is `depth` tables above the values: it has 256 slots;
    /// a table right above the values holds values and no tables; any other holds no
    /// values, and the tables that it holds are tables of the next level.
    spec fn well_formed(&self, depth: nat) -> bool
        decreases depth,
    {
        &&& 1 <= depth <= 4
        &&& self.tables@.len() == TABLE_SIZE
        &&& self.values@.len() == TABLE_SIZE
        &&& forall|i: int|
            0 <= i < TABLE_SIZE ==> match #[trigger] self.tables@[i] {
                Some(table) => depth > 1 && table.well_formed((depth - 1) as nat),
                None => true,
            }
        &&& forall|i: int| 0 <= i < TABLE_SIZE ==> depth > 1 ==> (#[trigger] self.values@[i]) is None
    }

    /// The value that the table holds for the key `key`, if any.
    spec fn lookup(&self, depth: nat, key: int) -> Option<Arc<T>>
        decreases depth,
    {
        if depth == 0 || key < 0 || key >= TABLE_SIZE * slot_span(depth) {
            None
        } else {
            let index = key / slot_span(depth);
            if depth == 1 {
                self.values@[index]
            } else {
                match self.tables@[index] {
                    Some(table) => table.lookup((depth - 1) as nat, key % slot_span(depth)),
                    None => None,
                }
            }
        }
    }

    /// A table without values.
    fn new(Ghost(depth): Ghost<nat>) -> (table: Self)
        requires
            1 <= depth <= 4,
        ensures
            table.well_formed(depth),
            forall|key: int| table.lookup(depth, key) is None,
    {
        let mut tables: Vec<Option<Table<T>>> = Vec::new();
        let mut values: Vec<Option<Arc<T>>> = Vec::new();
        let mut i: usize = 0;
        while i < TABLE_SIZE
            invariant
                i <= TABLE_SIZE,
                tables@.len() == i,
                values@.len() == i,
                forall|k: int| 0 <= k < i ==> tables@[k] is None,
                forall|k: int| 0 <= k < i ==> values@[k] is None,
            decreases TABLE_SIZE - i,
        {
            tables.push(None);
            values.push(None);
            i = i + 1;
        }
        let table = Table { tables, values };
        proof {
            assert forall|key: int| table.lookup(depth, key) is None by {
                if 0 <= key < TABLE_SIZE * slot_span(depth) {
                    lemma_slot(depth, key);
                }
            }
        }
        table
    }

    /// The value for the key `key`, if any.
    fn get(&self, depth: usize, key: u32) -> (r: Option<Arc<T>>)
        requires
            self.well_formed(depth as nat),
            key < TABLE_SIZE * slot_span(depth as nat),
        ensures
            r == self.lookup(depth as nat, key as int),
        decreases depth,
    {
        let span = span_of(depth);
        let index = (key / span) as usize;
        proof {
            lemma_slot(depth as nat, key as int);
        }
        if depth == 1 {
            match &self.values[index] {
                Some(value) => Some(share(value)),
                None => None,
            }
        } else {
            match &self.tables[index] {
                Some(table) => table.get(depth - 1, key % span),
                None => None,
            }
        }
    }

    /// Stores `value` (or nothing) for the key `key`, making the tables on the way there
    /// that are missing if there is a value to store, and returns what was stored before.
    fn put(&mut self, depth: usize, key: u32, value: Option<Arc<T>>) -> (previous: Option<Arc<T>>)
        requires
            old(self).well_formed(depth as nat),
            key < TABLE_SIZE * slot_span(depth as nat),
        ensures
            final(self).well_formed(depth as nat),
            previous == old(self).lookup(depth as nat, key as int),
            final(self).lookup(depth as nat, key as int) == value,
            forall|other: int|
                other != key ==> #[trigger] final(self).lookup(depth as nat, other) == old(self).lookup(depth as nat, other),
        decreases depth,
    {
        let span = span_of(depth);
        let index = (key / span) as usize;
        let rest = key % span;
        proof {
            lemma_slot(depth as nat, key as int);
        }
        if depth == 1 {
            let mut stored = value;
            std::mem::swap(&mut self.values[index], &mut stored);
            proof {
                assert forall|other: int| other != key implies #[trigger] self.lookup(
                    depth as nat,
                    other,
                ) == old(self).lookup(depth as nat, other) by {
                    if 0 <= other < TABLE_SIZE * slot_span(depth as nat) {
                        lemma_slot(depth as nat, other);
                    }
                }
            }
            return stored;
        }
        let mut child = match self.tables[index].take() {
            Some(child) => child,
            None => {
                if value.is_none() {
                    proof {
                        assert(self.tables@ =~= old(self).tables@);
                    }
                    return None;
                }
                Table::new(Ghost((depth - 1) as nat))
            },
        };
        let ghost child_before = child;
        let previous = child.put(depth - 1, rest, value);
        self.tables[index] = Some(child);
        proof {
            assert forall|i: int| 0 <= i < TABLE_SIZE implies match #[trigger] self.tables@[i] {
                Some(table) => depth > 1 && table.well_formed((depth - 1) as nat),
                None => true,
            } by {
                if i != index {
                    assert(self.tables@[i] == old(self).tables@[i]);
                }
            }
            assert forall|other: int| other != key implies #[trigger] self.lookup(
                depth as nat,
                other,
            ) == old(self).lookup(depth as nat, other) by {
                if 0 <= other < TABLE_SIZE * slot_span(depth as nat) {
                    lemma_slot(depth as nat, other);
                    if other / (span as int) == index {
                        lemma_fundamental_div_mod(other, span as int);
                        lemma_fundamental_div_mod(key as int, span as int);
                        assert(other % (span as int) != rest);
                        assert(child.lookup((depth - 1) as nat, other % (span as int))
                            == child_before.lookup((depth - 1) as nat, other % (span as int)));
                    } else {
                        assert(self.tables@[other / (span as int)] == old(self).tables@[other / (
                        span as int)]);
                    }
                }
            }
        }
        previous
    }
}

/// The slot of a key is one of the slots of the table, and what is left of the key is a
/// key of the next table.
proof fn lemma_slot(depth: nat, key: int)
    requires
        1 <= depth <= 4,
        0 <= key < TABLE_SIZE * slot_span(depth),
    ensures
        0 <= key / slot_span(depth) < TABLE_SIZE,
        0 <= key % slot_span(depth) < slot_span(depth),
        depth > 1 ==> slot_span(depth) == TABLE_SIZE * slot_span((depth - 1) as nat),
{
}

/// The number of handles that one slot stands for in a table that is `depth` tables above
/// the values.
fn span_of(depth: usize) -> (span: u32)
    requires
        1 <= depth <= 4,
    ensures
        span == slot_span(depth as nat),
{
    if depth == 1 {
        1
    } else if depth == 2 {
        0x100
    } else if depth == 3 {
        0x1_0000
    } else {
        0x100_0000
    }
}

/// A map from handles to reference counted values of type `T`.
pub struct HandleMap<T> {
    allocator: HandleAllocator,
    table: Table<T>,
    depth: usize,
}

impl<T> HandleMap<T> {
    /// Of each handle, from handle 1 on, whether it is allocated.
    pub closed spec fn handles(&self) -> Seq<bool> {
        self.allocator@
    }

    /// The depth of the trie: the number of tables that a handle passes through on the
    /// way to its value.
    pub closed spec fn spec_depth(&self) -> nat {
        self.depth as nat
    }

    /// The value that the map holds for the handle `handle`, if any.
    pub closed spec fn spec_get(&self, handle: Handle) -> Option<Arc<T>> {
        if handle == 0 || handle > self.allocator.spec_max_handle() {
            None
        } else {
            self.table.lookup(self.depth as nat, handle as int)
        }
    }

    /// The invariant of the map: that of its allocator, and that of a trie of as many
    /// levels as the largest handle has bytes.
    pub closed spec fn well_formed(&self) -> bool {
        &&& self.allocator.well_formed()
        &&& self.depth == depth_for(self.allocator.spec_max_handle())
        &&& self.table.well_formed(self.depth as nat)
    }

    /// The number of handles of a map is a 32-bit number that is not zero.
    pub proof fn lemma_handles_len(&self)
        requires
            self.well_formed(),
        ensures
            1 <= self.handles().len() <= u32::MAX,
    {
        self.allocator.lemma_view_len();
    }

    /// A handle for which the map holds a value is one of the map's handles.
    pub proof fn lemma_get_in_range(&self, handle: Handle)
        requires
            self.spec_get(handle) is Some,
        ensures
            0 < handle <= self.handles().len(),
    {
        self.allocator.lemma_view_len();
    }

    /// Whether `after` and `r` are the map and the result of inserting `value` into this
    /// map: the value gets the least handle that is free, and every other handle holds
    /// what it held; without a free handle the value comes back and nothing changes.
    pub open spec fn inserted(&self, value: Arc<T>, after: &HandleMap<T>, r: Result<Handle, Arc<T>>)
        -> bool {
        if first_free(self.handles()) >= self.handles().len() {
            &&& r == Err::<Handle, Arc<T>>(value)
            &&& after.handles() == self.handles()
            &&& forall|handle: Handle| after.spec_get(handle) == self.spec_get(handle)
        } else {
            &&& r == Ok::<Handle, Arc<T>>((first_free(self.handles()) + 1) as u32)
            &&& after.handles() == self.handles().update(first_free(self.handles()), true)
            &&& after.spec_get(r->Ok_0) == Some(value)
            &&& forall|handle: Handle|
                handle != r->Ok_0 ==> #[trigger] after.spec_get(handle) == self.spec_get(handle)
        }
    }

    /// Whether `after` and `r` are the map and the result of removing the handle `handle`
    /// from this map: the handle is free and holds nothing, every other handle holds what
    /// it held, and the result is what the handle held if it was allocated.
    pub open spec fn removed(&self, handle: Handle, after: &HandleMap<T>, r: Option<Arc<T>>)
        -> bool {
        &&& after.spec_get(handle) is None
        &&& forall|other: Handle|
            other != handle ==> #[trigger] after.spec_get(other) == self.spec_get(other)
        &&& if handle == 0 || handle > self.handles().len() {
            r is None && after.handles() == self.handles()
        } else {
            &&& r == (if self.handles()[handle - 1] {
                self.spec_get(handle)
            } else {
                None
            })
            &&& after.handles() == self.handles().update(handle - 1, false)
        }
    }

    /// A value is found under its handle from its insertion until the handle is removed.
    ///
    /// The map holds a value under the handle that its insertion gave. Where the map holds
    /// a value under an allocated handle, it does so after any other insertion and after
    /// the removal of any other handle; the removal of the handle gives the value, and the
    /// map holds nothing for the handle afterwards.
    pub proof fn lemma_value_kept(
        &self,
        value: Arc<T>,
        handle: Handle,
        after: &HandleMap<T>,
        inserted_value: Arc<T>,
        inserted_result: Result<Handle, Arc<T>>,
        removed_handle: Handle,
        removed_result: Option<Arc<T>>,
    )
        requires
            self.well_formed(),
        ensures
            self.inserted(value, after, Ok(handle)) ==> after.spec_get(handle) == Some(value)
                && 0 < handle <= after.handles().len() && after.handles()[handle - 1],
            self.spec_get(handle) == Some(value) && self.handles()[handle - 1] && self.inserted(
                inserted_value,
                after,
                inserted_result,
            ) ==> after.spec_get(handle) == Some(value) && after.handles()[handle - 1]
                && inserted_result != Ok::<Handle, Arc<T>>(handle),
            self.spec_get(handle) == Some(value) && self.handles()[handle - 1] && removed_handle
                != handle && self.removed(removed_handle, after, removed_result)
                ==> after.spec_get(handle) == Some(value) && after.handles()[handle - 1],
            self.spec_get(handle) == Some(value) && self.handles()[handle - 1] && self.removed(
                handle,
                after,
                removed_result,
            ) ==> removed_result == Some(value) && after.spec_get(handle) is None,
    {
        self.allocator.lemma_view_len();
        lemma_first_free(self.handles());
        if self.spec_get(handle) is Some {
            self.lemma_get_in_range(handle);
        }
    }

    /// The depth of a map is the depth for the number of its handles.
    pub proof fn lemma_depth(&self)
        requires
            self.well_formed(),
        ensures
            1 <= self.handles().len() <= u32::MAX,
            self.spec_depth() == depth_for(self.handles().len() as u32),
    {
        self.allocator.lemma_view_len();
    }

    /// Create a new `HandleMap` that can have up to `max_handle` objects in it: a trie of
    /// as many levels as it takes bytes to write `max_handle`.
    pub fn new(max_handle: Handle) -> (map: Self)
        requires
            max_handle >= 1,
        ensures
            map.well_formed(),
            map.spec_depth() == depth_for(max_handle),
            map.handles() == Seq::new(max_handle as nat, |i: int| false),
            forall|handle: Handle| map.spec_get(handle) is None,
    {
        let depth: usize = if max_handle < 0x100 {
            1
        } else if max_handle < 0x1_0000 {
            2
        } else if max_handle < 0x100_0000 {
            3
        } else {
            4
        };
        Self {
            allocator: HandleAllocator::new(max_handle),
            table: Table::new(Ghost(depth as nat)),
            depth,
        }
    }

    /// The depth of the trie: the number of tables that a handle passes through on the
    /// way to its value.
    pub fn depth(&self) -> (depth: usize)
        ensures
            depth == self.spec_depth(),
    {
        self.depth
    }

    /// Get a new handle that refers to `value`: the least handle that is free.
    /// Calling this method twice with the same value returns two different handles.
    ///
    /// # Errors
    /// If there are no handles left, then the value is returned in `Err`.
    pub fn insert(&mut self, value: Arc<T>) -> (r: Result<Handle, Arc<T>>)
        requires
            old(self).well_formed(),
        ensures
            final(self).well_formed(),
            old(self).inserted(value, final(self), r),
    {
        proof {
            self.allocator.lemma_view_len();
            lemma_first_free(self.allocator@);
        }
        let handle = match self.allocator.next_handle() {
            Some(handle) => handle,
            None => {
                return Err(value);
            },
        };
        let _previous = self.table.put(self.depth, handle, Some(value));
        Ok(handle)
    }

    /// Allocates the least handle that is free, for a value that is stored afterwards
    /// with [`HandleMap::store`]. Returns `None` if there are no handles left.
    pub fn next_handle(&mut self) -> (r: Option<Handle>)
        requires
            old(self).well_formed(),
        ensures
            final(self).well_formed(),
            forall|handle: Handle| final(self).spec_get(handle) == old(self).spec_get(handle),
            first_free(old(self).handles()) >= old(self).handles().len() ==> r is None && final(self).handles()
                == old(self).handles(),
            first_free(old(self).handles()) < old(self).handles().len() ==> r == Some(
                (first_free(old(self).handles()) + 1) as u32,
            ) && final(self).handles() == old(self).handles().update(
                first_free(old(self).handles()),
                true,
            ),
    {
        self.allocator.next_handle()
    }

    /// Stores `value` for the handle `handle`, in place of what the map holds for it. A
    /// handle outside of the range of the map's handles is passed over.
    pub fn store(&mut self, handle: Handle, value: Arc<T>)
        requires
            old(self).well_formed(),
        ensures
            final(self).well_formed(),
            final(self).handles() == old(self).handles(),
            0 < handle <= old(self).handles().len() ==> final(self).spec_get(handle) == Some(value),
            !(0 < handle <= old(self).handles().len()) ==> final(self).spec_get(handle) is None,
            forall|other: Handle|
                other != handle ==> #[trigger] final(self).spec_get(other) == old(self).spec_get(
                    other,
                ),
    {
        proof {
            self.allocator.lemma_view_len();
        }
        if handle == 0 || handle > self.allocator.max_handle() {
            return ;
        }
        let _previous = self.table.put(self.depth, handle, Some(value));
    }

    /// Returns a reference to the value associated with `handle`.
    /// If the handle is unknown, then `None` is returned.
    pub fn get(&self, handle: Handle) -> (r: Option<Arc<T>>)
        requires
            self.well_formed(),
        ensures
            r == self.spec_get(handle),
    {
        if handle == 0 || handle > self.allocator.max_handle() {
            return None;
        }
        self.table.get(self.depth, handle)
    }

    /// Removes a value from the map by its handle, and frees the handle.
    /// Returns a reference to the value associated with `handle`.
    /// If the handle is unknown or not allocated, then `None` is returned.
    pub fn remove(&mut self, handle: Handle) -> (r: Option<Arc<T>>)
        requires
            old(self).well_formed(),
        ensures
            final(self).well_formed(),
            old(self).removed(handle, final(self), r),
    {
        proof {
            self.allocator.lemma_view_len();
        }
        if handle == 0 || handle > self.allocator.max_handle() {
            return None;
        }
        let value = self.table.put(self.depth, handle, None);
        match self.allocator.free_handle(handle) {
            Ok(_) => value,
            Err(_) => {
                proof {
                    assert(self.allocator@ =~= old(self).allocator@.update(handle - 1, false));
                }
                None
            },
        }
    }
}

} // verus!
