//! One B+ tree node: the in-memory form of one page.
//!
//! A node is either a leaf, holding ordered cells of `(key, row bytes)`
//! plus a next-leaf pointer, or an internal node, holding ordered
//! `(key, child page)` pairs plus a right-child pointer. Both variants
//! share a common header and serialize into a `PAGE_SIZE`-byte page.

use vstd::prelude::*;
use vstd::slice::{slice_index_get, slice_subrange, slice_to_vec};

use crate::bytes_util::{pad_zeros, push_bytes, push_u64_le, read_u64_at};
use crate::codec::{
    cell_bytes, cells_bytes, common_bytes, decode_cell, decode_pair, decode_v, fits_usize,
    lemma_cells_bytes_len, lemma_pairs_bytes_len, node_serializable, page_parses, pair_bytes,
    pairs_bytes, spec_node_bytes,
};
use crate::constant::{CELL_SIZE, INTERNAL_CELL_SIZE, INTERNAL_NODE_MAX_CELLS,
    LEAF_NODE_CELLS_OFFSET, LEAF_NODE_MAX_CELLS, KEY_VALUE_OFFSET, PAGE_SIZE, ROW_SIZE};
use crate::errors::DbError;

verus! {

#[derive(Clone, Copy, PartialEq, Eq, Structural, Debug)]
pub enum NodeType {
    Leaf,
    Internal,
}

/// One leaf entry: a key and the row's byte image.
pub struct Cell {
    pub key: usize,
    pub value: Vec<u8>,
}

/// One internal entry: a routing key and the page of the child that
/// holds every key up to and including it.
pub struct InternalCell {
    pub key: usize,
    pub page_num: usize,
}

pub struct Node {
    pub node_type: NodeType,
    pub is_root: bool,
    pub parent_page_num: usize,
    pub cells: Vec<Cell>,
    pub next_leaf_num: usize,
    pub keys: Vec<InternalCell>,
    pub right_child_key: usize,
}

/// The mathematical content of a node. Page numbers and keys are read
/// as 64-bit words, as the page format stores them.
#[verifier::ext_equal]
pub ghost struct NodeV {
    pub node_type: NodeType,
    pub is_root: bool,
    pub parent: u64,
    pub cells: Seq<(u64, Seq<u8>)>,
    pub next_leaf: u64,
    pub keys: Seq<(u64, u64)>,
    pub right_child: u64,
}

impl View for Cell {
    type V = (u64, Seq<u8>);

    open spec fn view(&self) -> (u64, Seq<u8>) {
        (self.key as u64, self.value@)
    }
}

impl View for InternalCell {
    type V = (u64, u64);

    open spec fn view(&self) -> (u64, u64) {
        (self.key as u64, self.page_num as u64)
    }
}

impl View for Node {
    type V = NodeV;

    open spec fn view(&self) -> NodeV {
        NodeV {
            node_type: self.node_type,
            is_root: self.is_root,
            parent: self.parent_page_num as u64,
            cells: Seq::new(self.cells@.len(), |i: int| self.cells@[i]@),
            next_leaf: self.next_leaf_num as u64,
            keys: Seq::new(self.keys@.len(), |i: int| self.keys@[i]@),
            right_child: self.right_child_key as u64,
        }
    }
}

/// The keys of a leaf, in cell order.
pub open spec fn leaf_keys(v: NodeV) -> Seq<u64> {
    Seq::new(v.cells.len(), |i: int| v.cells[i].0)
}

/// The routing keys of an internal node, in order.
pub open spec fn internal_keys(v: NodeV) -> Seq<u64> {
    Seq::new(v.keys.len(), |i: int| v.keys[i].0)
}

pub open spec fn sorted_strict(s: Seq<u64>) -> bool {
    forall|i: int, j: int| 0 <= i < j < s.len() ==> s[i] < s[j]
}

/// How many entries of `s` are smaller than `k`.
pub open spec fn num_lt(s: Seq<u64>, k: u64) -> int
    decreases s.len(),
{
    if s.len() == 0 {
        0
    } else {
        num_lt(s.drop_last(), k) + if s.last() < k {
            1int
        } else {
            0int
        }
    }
}

/// In a sorted sequence, `num_lt` splits the entries at `k`: everything
/// before it is below `k`, everything from it on is at or above `k`.
pub proof fn lemma_num_lt_sorted(s: Seq<u64>, k: u64)
    requires
        sorted_strict(s),
    ensures
        0 <= num_lt(s, k) <= s.len(),
        forall|i: int| 0 <= i < num_lt(s, k) ==> s[i] < k,
        forall|i: int| num_lt(s, k) <= i < s.len() ==> s[i] >= k,
    decreases s.len(),
{
    if s.len() > 0 {
        lemma_num_lt_sorted(s.drop_last(), k);
        assert(forall|i: int| 0 <= i < s.len() - 1 ==> s[i] == s.drop_last()[i]);
        if s.last() < k {
            assert(forall|i: int| 0 <= i < s.len() ==> s[i] <= s.last());
            assert(num_lt(s.drop_last(), k) == s.len() - 1);
        }
    }
}

/// The child slot an internal node routes `key` to: the first routing
/// key at or above `key`, or the right-child slot past them all.
pub open spec fn spec_child_index(v: NodeV, key: u64) -> int {
    num_lt(internal_keys(v), key)
}

/// The child page stored in slot `i`: a keyed child, or the right child
/// for the slot one past the keys.
pub open spec fn child_at(v: NodeV, i: int) -> u64 {
    if i < v.keys.len() {
        v.keys[i].1
    } else {
        v.right_child
    }
}

/// The position in a leaf where `key` sits, or would be inserted.
pub open spec fn spec_leaf_index(v: NodeV, key: u64) -> int {
    num_lt(leaf_keys(v), key)
}

/// The sentinel that `get_node_max_key` reports for an empty node.
pub open spec fn max_key_sentinel() -> u64 {
    usize::MAX as u64
}

/// The largest key of a node: the last leaf cell's key, or the last
/// routing key; the sentinel if the node is empty.
pub open spec fn spec_max_key(v: NodeV) -> u64 {
    if v.node_type == NodeType::Leaf {
        if v.cells.len() == 0 {
            max_key_sentinel()
        } else {
            v.cells.last().0
        }
    } else {
        if v.keys.len() == 0 {
            max_key_sentinel()
        } else {
            v.keys.last().0
        }
    }
}

impl Cell {
    pub fn new(key: usize, value: Vec<u8>) -> (r: Cell)
        ensures
            r@ == (key as u64, value@),
    {
        Cell { key, value }
    }

    pub fn get_key(&self) -> (r: usize)
        ensures
            r as u64 == self@.0,
    {
        self.key
    }

    pub fn get_value(&self) -> (r: &[u8])
        ensures
            r@ == self@.1,
    {
        self.value.as_slice()
    }
}

impl InternalCell {
    pub fn new(key: usize, page_num: usize) -> (r: InternalCell)
        ensures
            r@ == (key as u64, page_num as u64),
    {
        InternalCell { key, page_num }
    }

    pub fn get_key(&self) -> (r: usize)
        ensures
            r as u64 == self@.0,
    {
        self.key
    }

    pub fn get_page_num(&self) -> (r: usize)
        ensures
            r as u64 == self@.1,
    {
        self.page_num
    }
}

impl Node {
    /// The view of a fresh, empty leaf.
    pub open spec fn empty_leaf_v() -> NodeV {
        NodeV {
            node_type: NodeType::Leaf,
            is_root: false,
            parent: 0,
            cells: Seq::empty(),
            next_leaf: 0,
            keys: Seq::empty(),
            right_child: 0,
        }
    }

    /// The view of a fresh, empty internal node.
    pub open spec fn empty_internal_v() -> NodeV {
        NodeV { node_type: NodeType::Internal, ..Self::empty_leaf_v() }
    }

    /// The view of the root leaf a fresh database starts with.
    pub open spec fn fresh_root_leaf_v() -> NodeV {
        NodeV { is_root: true, ..Self::empty_leaf_v() }
    }

    pub fn new_leaf() -> (r: Node)
        ensures
            r@ == Self::empty_leaf_v(),
    {
        let r = Node {
            node_type: NodeType::Leaf,
            is_root: false,
            parent_page_num: 0,
            cells: Vec::new(),
            next_leaf_num: 0,
            keys: Vec::new(),
            right_child_key: 0,
        };
        proof {
            assert(r@ =~= Self::empty_leaf_v());
        }
        r
    }

    pub fn new_internal() -> (r: Node)
        ensures
            r@ == Self::empty_internal_v(),
    {
        let r = Node {
            node_type: NodeType::Internal,
            is_root: false,
            parent_page_num: 0,
            cells: Vec::new(),
            next_leaf_num: 0,
            keys: Vec::new(),
            right_child_key: 0,
        };
        proof {
            assert(r@ =~= Self::empty_internal_v());
        }
        r
    }

    pub fn get_next_leaf_num(&self) -> (r: usize)
        ensures
            r as u64 == self@.next_leaf,
    {
        self.next_leaf_num
    }

    pub fn set_next_leaf_num(&mut self, next_leaf_num: usize)
        ensures
            final(self)@ == (NodeV { next_leaf: next_leaf_num as u64, ..old(self)@ }),
    {
        self.next_leaf_num = next_leaf_num;
        proof {
            assert(self@ =~= (NodeV { next_leaf: next_leaf_num as u64, ..old(self)@ }));
        }
    }

    /// The page of the child in slot `cell_num`; the slot one past the
    /// keys holds the right child.
    pub fn internal_node_children(&self, cell_num: usize) -> (r: usize)
        requires
            cell_num <= self.keys@.len(),
        ensures
            r as u64 == child_at(self@, cell_num as int),
    {
        if cell_num == self.keys.len() {
            self.right_child_key
        } else {
            self.keys[cell_num].page_num
        }
    }

    /// Inserts `cell` at position `cell_num`; the caller has checked
    /// that the leaf has room.
    pub fn insert_cell(&mut self, cell: Cell, cell_num: usize)
        requires
            old(self).cells@.len() < LEAF_NODE_MAX_CELLS,
            cell_num <= old(self).cells@.len(),
        ensures
            final(self)@ == (NodeV {
                cells: old(self)@.cells.insert(cell_num as int, cell@),
                ..old(self)@
            }),
    {
        let ghost cv = cell@;
        self.cells.insert(cell_num, cell);
        proof {
            assert(self@ =~= (NodeV { cells: old(self)@.cells.insert(cell_num as int, cv), ..old(self)@ }));
        }
    }

    /// Appends `cell` without an order check; used only while a split
    /// redistributes cells.
    pub fn push_cell(&mut self, cell: Cell)
        requires
            old(self).cells@.len() < LEAF_NODE_MAX_CELLS,
        ensures
            final(self)@ == (NodeV { cells: old(self)@.cells.push(cell@), ..old(self)@ }),
    {
        let ghost cv = cell@;
        self.cells.push(cell);
        proof {
            assert(self@ =~= (NodeV { cells: old(self)@.cells.push(cv), ..old(self)@ }));
        }
    }

    /// Inserts a key and a row image as a fresh cell at `cell_num`.
    pub fn insert_key_value(&mut self, key: usize, value: &[u8], cell_num: usize)
        requires
            old(self).cells@.len() < LEAF_NODE_MAX_CELLS,
            cell_num <= old(self).cells@.len(),
        ensures
            final(self)@ == (NodeV {
                cells: old(self)@.cells.insert(cell_num as int, (key as u64, value@)),
                ..old(self)@
            }),
    {
        let cell = Cell::new(key, slice_to_vec(value));
        self.insert_cell(cell, cell_num);
    }

    /// Binary search for `key` in a sorted leaf: its cell index if it is
    /// present, `None` if it is not.
    pub fn leaf_get_index_by_key(&self, key: usize) -> (r: Option<usize>)
        requires
            sorted_strict(leaf_keys(self@)),
        ensures
            match r {
                Some(i) => i < self.cells@.len() && self@.cells[i as int].0 == key as u64,
                None => forall|j: int|
                    0 <= j < self@.cells.len() ==> self@.cells[j].0 != key as u64,
            },
    {
        let ghost lk = leaf_keys(self@);
        proof {
            assert(forall|j: int| 0 <= j < lk.len() ==> #[trigger] lk[j] == self@.cells[j].0);
        }
        let mut min_index: usize = 0;
        let mut max_index: usize = self.cells.len();
        while min_index != max_index
            invariant
                0 <= min_index <= max_index <= self.cells@.len(),
                lk == leaf_keys(self@),
                lk.len() == self.cells@.len(),
                sorted_strict(lk),
                forall|j: int| 0 <= j < lk.len() ==> #[trigger] lk[j] == self@.cells[j].0,
                forall|j: int| 0 <= j < min_index ==> lk[j] < key as u64,
                forall|j: int| max_index <= j < lk.len() ==> lk[j] > key as u64,
            decreases max_index - min_index,
        {
            let index = min_index + (max_index - min_index) / 2;
            let key_at_index = self.cells[index].key;
            proof {
                assert(lk[index as int] == key_at_index as u64);
            }
            if key_at_index == key {
                return Some(index);
            } else if key_at_index < key {
                min_index = index + 1;
            } else {
                max_index = index;
            }
        }
        proof {
            assert forall|j: int|
                0 <= j < self@.cells.len() implies self@.cells[j].0 != key as u64 by {
                assert(lk[j] == self@.cells[j].0);
            }
        }
        None
    }

    /// Binary search for the child slot that routes `key`: the first
    /// slot whose key is at or above `key`, or the slot past them all.
    pub fn internal_find_child_index_by_key(&self, key: usize) -> (r: usize)
        requires
            sorted_strict(internal_keys(self@)),
        ensures
            r == spec_child_index(self@, key as u64),
    {
        let ghost ik = internal_keys(self@);
        proof {
            lemma_num_lt_sorted(ik, key as u64);
            assert(forall|j: int| 0 <= j < ik.len() ==> #[trigger] ik[j] == self@.keys[j].0);
        }
        let mut min_index: usize = 0;
        let mut max_index: usize = self.keys.len();
        while min_index != max_index
            invariant
                0 <= min_index <= max_index <= self.keys@.len(),
                ik == internal_keys(self@),
                ik.len() == self.keys@.len(),
                sorted_strict(ik),
                forall|j: int| 0 <= j < ik.len() ==> #[trigger] ik[j] == self@.keys[j].0,
                forall|j: int| 0 <= j < min_index ==> ik[j] < key as u64,
                forall|j: int| max_index <= j < ik.len() ==> ik[j] >= key as u64,
            decreases max_index - min_index,
        {
            let index = min_index + (max_index - min_index) / 2;
            let key_at_index = self.keys[index].key;
            proof {
                assert(ik[index as int] == key_at_index as u64);
            }
            if key_at_index == key {
                proof {
                    lemma_num_lt_sorted(ik, key as u64);
                    let n = num_lt(ik, key as u64);
                    if n < index {
                        assert(ik[n] >= key as u64);
                        assert(ik[n] < ik[index as int]);
                    }
                    if n > index {
                        assert(ik[index as int] < key as u64);
                    }
                }
                return index;
            } else if key_at_index < key {
                min_index = index + 1;
            } else {
                max_index = index;
            }
        }
        proof {
            lemma_num_lt_sorted(ik, key as u64);
            let n = num_lt(ik, key as u64);
            if n < min_index {
                assert(ik[n] < key as u64);
                assert(ik[n] >= key as u64);
            }
            if n > min_index {
                assert(ik[min_index as int] >= key as u64);
                assert(ik[min_index as int] < key as u64);
            }
        }
        min_index
    }

    /// Rewrites the routing key found for `key` to `new_key`, keeping
    /// its child page. A `key` beyond every routing key changes nothing.
    pub fn update_internal_node_key(&mut self, key: usize, new_key: usize)
        requires
            sorted_strict(internal_keys(old(self)@)),
        ensures
            ({
                let idx = spec_child_index(old(self)@, key as u64);
                if idx < old(self)@.keys.len() {
                    final(self)@ == (NodeV {
                        keys: old(self)@.keys.update(
                            idx,
                            (new_key as u64, old(self)@.keys[idx].1),
                        ),
                        ..old(self)@
                    })
                } else {
                    final(self)@ == old(self)@
                }
            }),
    {
        let index = self.internal_find_child_index_by_key(key);
        if index < self.keys.len() {
            let page_num = self.keys[index].page_num;
            self.keys[index] = InternalCell::new(new_key, page_num);
            proof {
                assert(self@ =~= (NodeV {
                    keys: old(self)@.keys.update(index as int, (new_key as u64, old(self)@.keys[index as int].1)),
                    ..old(self)@
                }));
            }
        } else {
            proof {
                assert(self@ =~= old(self)@);
            }
        }
    }

    fn leaf_get_node_max_key(&self) -> (r: usize)
        requires
            self.node_type == NodeType::Leaf,
        ensures
            r as u64 == spec_max_key(self@),
    {
        if self.cells.len() == 0 {
            return usize::MAX;
        }
        self.cells[self.cells.len() - 1].key
    }

    fn internal_get_node_max_key(&self) -> (r: usize)
        requires
            self.node_type == NodeType::Internal,
        ensures
            r as u64 == spec_max_key(self@),
    {
        if self.keys.len() == 0 {
            return usize::MAX;
        }
        self.keys[self.keys.len() - 1].key
    }

    /// The largest key the node holds; the sentinel for an empty node.
    pub fn get_node_max_key(&self) -> (r: usize)
        ensures
            r as u64 == spec_max_key(self@),
    {
        match self.node_type {
            NodeType::Leaf => self.leaf_get_node_max_key(),
            NodeType::Internal => self.internal_get_node_max_key(),
        }
    }

    pub fn is_parent_node(&self) -> (r: bool)
        ensures
            r == (self.node_type == NodeType::Internal),
    {
        self.node_type == NodeType::Internal
    }

    pub fn get_node_type(&self) -> (r: NodeType)
        ensures
            r == self.node_type,
    {
        self.node_type
    }

    pub fn get_cell_count(&self) -> (r: usize)
        ensures
            r == self@.cells.len(),
    {
        self.cells.len()
    }

    pub fn get_key_count(&self) -> (r: usize)
        ensures
            r == self@.keys.len(),
    {
        self.keys.len()
    }

    pub fn set_parent_page_num(&mut self, parent_page_num: usize)
        ensures
            final(self)@ == (NodeV { parent: parent_page_num as u64, ..old(self)@ }),
    {
        self.parent_page_num = parent_page_num;
        proof {
            assert(self@ =~= (NodeV { parent: parent_page_num as u64, ..old(self)@ }));
        }
    }

    pub fn set_is_root(&mut self, is_root: bool)
        ensures
            final(self)@ == (NodeV { is_root: is_root, ..old(self)@ }),
    {
        self.is_root = is_root;
        proof {
            assert(self@ =~= (NodeV { is_root: is_root, ..old(self)@ }));
        }
    }

    pub fn set_right_child_key(&mut self, right_child_key: usize)
        ensures
            final(self)@ == (NodeV { right_child: right_child_key as u64, ..old(self)@ }),
    {
        self.right_child_key = right_child_key;
        proof {
            assert(self@ =~= (NodeV { right_child: right_child_key as u64, ..old(self)@ }));
        }
    }

    /// Inserts a routing key and child page at `index`; the caller has
    /// checked that the node has room.
    pub fn internal_node_insert_by_index(&mut self, key: usize, value: usize, index: usize)
        requires
            old(self).keys@.len() < INTERNAL_NODE_MAX_CELLS,
            index <= old(self).keys@.len(),
        ensures
            final(self)@ == (NodeV {
                keys: old(self)@.keys.insert(index as int, (key as u64, value as u64)),
                ..old(self)@
            }),
    {
        self.keys.insert(index, InternalCell::new(key, value));
        proof {
            assert(self@ =~= (NodeV {
                keys: old(self)@.keys.insert(index as int, (key as u64, value as u64)),
                ..old(self)@
            }));
        }
    }

    /// Appends a routing key and child page after the existing keys.
    pub fn internal_node_insert(&mut self, key: usize, value: usize)
        requires
            old(self).keys@.len() < INTERNAL_NODE_MAX_CELLS,
        ensures
            final(self)@ == (NodeV {
                keys: old(self)@.keys.push((key as u64, value as u64)),
                ..old(self)@
            }),
    {
        self.keys.push(InternalCell::new(key, value));
        proof {
            assert(self@ =~= (NodeV {
                keys: old(self)@.keys.push((key as u64, value as u64)),
                ..old(self)@
            }));
        }
    }

    pub fn get_parent_page_num(&self) -> (r: usize)
        ensures
            r as u64 == self@.parent,
    {
        self.parent_page_num
    }

    pub fn get_mut_cell(&mut self, cell_index: usize) -> (r: &mut Cell)
        requires
            cell_index < old(self).cells@.len(),
        ensures
            *r == old(self).cells@[cell_index as int],
            final(self).cells@ == old(self).cells@.update(cell_index as int, *final(r)),
            final(self).node_type == old(self).node_type,
            final(self).is_root == old(self).is_root,
            final(self).parent_page_num == old(self).parent_page_num,
            final(self).next_leaf_num == old(self).next_leaf_num,
            final(self).keys == old(self).keys,
            final(self).right_child_key == old(self).right_child_key,
    {
        vstd::std_specs::vec::vec_index_mut(&mut self.cells, cell_index)
    }

    /// Removes the cell at `cell_index`, closing the gap.
    pub fn remove_cell(&mut self, cell_index: usize)
        requires
            cell_index < old(self).cells@.len(),
        ensures
            final(self)@ == (NodeV {
                cells: old(self)@.cells.remove(cell_index as int),
                ..old(self)@
            }),
    {
        self.cells.remove(cell_index);
        proof {
            assert(self@ =~= (NodeV { cells: old(self)@.cells.remove(cell_index as int), ..old(self)@ }));
        }
    }

    pub fn get_value(&self, cell_index: usize) -> (r: &[u8])
        requires
            cell_index < self.cells@.len(),
        ensures
            r@ == self@.cells[cell_index as int].1,
    {
        self.cells[cell_index].value.as_slice()
    }

    pub fn get_key(&self, cell_index: usize) -> (r: usize)
        requires
            cell_index < self.cells@.len(),
        ensures
            r as u64 == self@.cells[cell_index as int].0,
    {
        self.cells[cell_index].key
    }

    pub fn internal_get_key(&self, cell_index: usize) -> (r: usize)
        requires
            cell_index < self.keys@.len(),
        ensures
            r as u64 == self@.keys[cell_index as int].0,
    {
        self.keys[cell_index].key
    }

    pub fn internal_get_value(&self, cell_index: usize) -> (r: usize)
        requires
            cell_index < self.keys@.len(),
        ensures
            r as u64 == self@.keys[cell_index as int].1,
    {
        self.keys[cell_index].page_num
    }

    pub fn get_internal_key(&self, cell_index: usize) -> (r: usize)
        requires
            cell_index < self.keys@.len(),
        ensures
            r as u64 == self@.keys[cell_index as int].0,
    {
        self.keys[cell_index].key
    }

    /// Writes the node into a fresh `PAGE_SIZE`-byte page: the common
    /// header, the variant's fields at their declared offsets, and zero
    /// padding to the end.
    pub fn serialize(&self) -> (r: Vec<u8>)
        requires
            node_serializable(self@),
        ensures
            r@ == spec_node_bytes(self@),
            r@.len() == PAGE_SIZE,
    {
        proof {
            vstd::bytes::lemma_auto_spec_u64_to_from_le_bytes();
        }
        let mut out: Vec<u8> = Vec::new();
        match self.node_type {
            NodeType::Leaf => out.push(0),
            NodeType::Internal => out.push(1),
        }
        out.push(if self.is_root { 1 } else { 0 });
        push_u64_le(&mut out, self.parent_page_num as u64);
        proof {
            assert(out@ =~= common_bytes(self@));
        }
        match self.node_type {
            NodeType::Leaf => {
                push_u64_le(&mut out, self.cells.len() as u64);
                push_u64_le(&mut out, self.next_leaf_num as u64);
                let ghost header = out@;
                let mut j: usize = 0;
                while j < self.cells.len()
                    invariant
                        j <= self.cells@.len(),
                        node_serializable(self@),
                        self.node_type == NodeType::Leaf,
                        header.len() == LEAF_NODE_CELLS_OFFSET,
                        header == common_bytes(self@) + vstd::bytes::spec_u64_to_le_bytes(
                            self@.cells.len() as u64,
                        ) + vstd::bytes::spec_u64_to_le_bytes(self@.next_leaf),
                        out@ == header + cells_bytes(self@.cells.take(j as int)),
                    decreases self.cells@.len() - j,
                {
                    proof {
                        assert(self@.cells[j as int] == self.cells@[j as int]@);
                        lemma_cells_bytes_len(self@.cells.take(j as int));
                    }
                    push_u64_le(&mut out, self.cells[j].key as u64);
                    push_bytes(&mut out, self.cells[j].value.as_slice());
                    j = j + 1;
                    proof {
                        vstd::bytes::lemma_auto_spec_u64_to_from_le_bytes();
                        let c = self@.cells.take(j as int);
                        assert(c.drop_last() =~= self@.cells.take(j - 1));
                        assert(c.last() == self@.cells[j - 1]);
                        assert(out@ =~= header + cells_bytes(c));
                    }
                }
                proof {
                    assert(self@.cells.take(self.cells@.len() as int) =~= self@.cells);
                    lemma_cells_bytes_len(self@.cells);
                }
                pad_zeros(&mut out, PAGE_SIZE);
                proof {
                    assert(out@ =~= spec_node_bytes(self@));
                }
            },
            NodeType::Internal => {
                push_u64_le(&mut out, self.keys.len() as u64);
                push_u64_le(&mut out, self.right_child_key as u64);
                let ghost header = out@;
                let mut j: usize = 0;
                while j < self.keys.len()
                    invariant
                        j <= self.keys@.len(),
                        node_serializable(self@),
                        self.node_type == NodeType::Internal,
                        header.len() == KEY_VALUE_OFFSET,
                        header == common_bytes(self@) + vstd::bytes::spec_u64_to_le_bytes(
                            self@.keys.len() as u64,
                        ) + vstd::bytes::spec_u64_to_le_bytes(self@.right_child),
                        out@ == header + pairs_bytes(self@.keys.take(j as int)),
                    decreases self.keys@.len() - j,
                {
                    proof {
                        assert(self@.keys[j as int] == self.keys@[j as int]@);
                        lemma_pairs_bytes_len(self@.keys.take(j as int));
                    }
                    push_u64_le(&mut out, self.keys[j].key as u64);
                    push_u64_le(&mut out, self.keys[j].page_num as u64);
                    j = j + 1;
                    proof {
                        vstd::bytes::lemma_auto_spec_u64_to_from_le_bytes();
                        let c = self@.keys.take(j as int);
                        assert(c.drop_last() =~= self@.keys.take(j - 1));
                        assert(c.last() == self@.keys[j - 1]);
                        assert(out@ =~= header + pairs_bytes(c));
                    }
                }
                proof {
                    assert(self@.keys.take(self.keys@.len() as int) =~= self@.keys);
                    lemma_pairs_bytes_len(self@.keys);
                }
                pad_zeros(&mut out, PAGE_SIZE);
                proof {
                    assert(out@ =~= spec_node_bytes(self@));
                }
            },
        }
        out
    }

    /// Reads a node back from a page: dispatches on the node-type byte
    /// and reads the variant's fields from their declared offsets.
    /// Reports `CorruptPage` exactly when the page does not parse.
    pub fn deserialize(bytes: &[u8]) -> (r: Result<Node, DbError>)
        ensures
            match r {
                Ok(n) => page_parses(bytes@) && n@ == decode_v(bytes@),
                Err(e) => e == DbError::CorruptPage && !page_parses(bytes@),
            },
    {
        if bytes.len() != PAGE_SIZE {
            return Err(DbError::CorruptPage);
        }
        let tb = *slice_index_get(bytes, 0);
        if tb == 0 {
            Self::deserialize_leaf_node(bytes)
        } else if tb == 1 {
            Self::deserialize_internal_node(bytes)
        } else {
            Err(DbError::CorruptPage)
        }
    }

    fn deserialize_leaf_node(bytes: &[u8]) -> (r: Result<Node, DbError>)
        requires
            bytes@.len() == PAGE_SIZE,
            bytes@[0] == 0,
        ensures
            match r {
                Ok(n) => page_parses(bytes@) && n@ == decode_v(bytes@),
                Err(e) => e == DbError::CorruptPage && !page_parses(bytes@),
            },
    {
        let is_root = *slice_index_get(bytes, 1) == 1;
        let parent64 = read_u64_at(bytes, 2);
        if parent64 > usize::MAX as u64 {
            return Err(DbError::CorruptPage);
        }
        let count64 = read_u64_at(bytes, 10);
        if count64 > LEAF_NODE_MAX_CELLS as u64 {
            return Err(DbError::CorruptPage);
        }
        let next64 = read_u64_at(bytes, 18);
        if next64 > usize::MAX as u64 {
            return Err(DbError::CorruptPage);
        }
        let count = count64 as usize;
        let mut cells: Vec<Cell> = Vec::new();
        let mut j: usize = 0;
        while j < count
            invariant
                j <= count,
                count <= LEAF_NODE_MAX_CELLS,
                count as u64 == crate::codec::word_at(bytes@, 10),
                bytes@.len() == PAGE_SIZE,
                bytes@[0] == 0,
                cells@.len() == j,
                forall|i: int| 0 <= i < j ==> (#[trigger] cells@[i])@ == decode_cell(bytes@, i),
                forall|i: int| 0 <= i < j ==> fits_usize((#[trigger] decode_cell(bytes@, i)).0),
            decreases count - j,
        {
            let off = LEAF_NODE_CELLS_OFFSET + j * CELL_SIZE;
            let key64 = read_u64_at(bytes, off);
            proof {
                assert(key64 == decode_cell(bytes@, j as int).0);
            }
            if key64 > usize::MAX as u64 {
                return Err(DbError::CorruptPage);
            }
            let value = slice_to_vec(slice_subrange(bytes, off + 8, off + CELL_SIZE));
            cells.push(Cell::new(key64 as usize, value));
            j = j + 1;
        }
        let n = Node {
            node_type: NodeType::Leaf,
            is_root,
            parent_page_num: parent64 as usize,
            cells,
            next_leaf_num: next64 as usize,
            keys: Vec::new(),
            right_child_key: 0,
        };
        proof {
            assert(page_parses(bytes@));
            assert(n@ =~= decode_v(bytes@));
        }
        Ok(n)
    }

    fn deserialize_internal_node(bytes: &[u8]) -> (r: Result<Node, DbError>)
        requires
            bytes@.len() == PAGE_SIZE,
            bytes@[0] == 1,
        ensures
            match r {
                Ok(n) => page_parses(bytes@) && n@ == decode_v(bytes@),
                Err(e) => e == DbError::CorruptPage && !page_parses(bytes@),
            },
    {
        let is_root = *slice_index_get(bytes, 1) == 1;
        let parent64 = read_u64_at(bytes, 2);
        if parent64 > usize::MAX as u64 {
            return Err(DbError::CorruptPage);
        }
        let count64 = read_u64_at(bytes, 10);
        if count64 > INTERNAL_NODE_MAX_CELLS as u64 {
            return Err(DbError::CorruptPage);
        }
        let right64 = read_u64_at(bytes, 18);
        if right64 > usize::MAX as u64 {
            return Err(DbError::CorruptPage);
        }
        let count = count64 as usize;
        let mut keys: Vec<InternalCell> = Vec::new();
        let mut j: usize = 0;
        while j < count
            invariant
                j <= count,
                count <= INTERNAL_NODE_MAX_CELLS,
                count as u64 == crate::codec::word_at(bytes@, 10),
                bytes@.len() == PAGE_SIZE,
                bytes@[0] == 1,
                keys@.len() == j,
                forall|i: int| 0 <= i < j ==> (#[trigger] keys@[i])@ == decode_pair(bytes@, i),
                forall|i: int|
                    0 <= i < j ==> fits_usize((#[trigger] decode_pair(bytes@, i)).0) && fits_usize(
                        decode_pair(bytes@, i).1,
                    ),
            decreases count - j,
        {
            let off = KEY_VALUE_OFFSET + j * INTERNAL_CELL_SIZE;
            let key64 = read_u64_at(bytes, off);
            let page64 = read_u64_at(bytes, off + 8);
            proof {
                assert(key64 == decode_pair(bytes@, j as int).0);
                assert(page64 == decode_pair(bytes@, j as int).1);
            }
            if key64 > usize::MAX as u64 || page64 > usize::MAX as u64 {
                return Err(DbError::CorruptPage);
            }
            keys.push(InternalCell::new(key64 as usize, page64 as usize));
            j = j + 1;
        }
        let n = Node {
            node_type: NodeType::Internal,
            is_root,
            parent_page_num: parent64 as usize,
            cells: Vec::new(),
            next_leaf_num: 0,
            keys,
            right_child_key: right64 as usize,
        };
        proof {
            assert(page_parses(bytes@));
            assert(n@ =~= decode_v(bytes@));
        }
        Ok(n)
    }
}

} // verus!
