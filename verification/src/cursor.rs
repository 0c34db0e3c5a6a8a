//! The cursor: a position `(page, cell)` in the tree.
//!
//! A cursor locates a key by descending from the root, walks forward
//! through the leaf chain, reads the row it points at, and inserts at
//! the position it found. It holds only the position; every operation
//! borrows the table.

use vstd::prelude::*;

use crate::errors::DbError;
use crate::node::{child_at, leaf_keys, num_lt, NodeType, NodeV};
use crate::row::Row;
use crate::table::Table;
use crate::tree::{
    child, kv, lemma_kv_children_index, lemma_kv_children_sorted, lemma_slot_offset_monotone,
    root, slot_offset, target_page, target_slot, tree_wf,
};

verus! {

pub struct Cursor {
    pub page_num: usize,
    pub cell_num: usize,
    pub end_of_table: bool,
}

/// Whether `page` holds a leaf of the tree: the root itself, or one of
/// the internal root's children.
pub open spec fn is_leaf_page(nodes: Seq<NodeV>, page: u64) -> bool {
    if root(nodes).node_type == NodeType::Leaf {
        page == 0
    } else {
        exists|i: int|
            0 <= i <= root(nodes).keys.len() && #[trigger] child_at(root(nodes), i) == page
    }
}

/// The slot of the leaf at `page`: 0 for a root leaf, else the child
/// slot whose page it is.
pub open spec fn page_slot(nodes: Seq<NodeV>, page: u64) -> int {
    if root(nodes).node_type == NodeType::Leaf {
        0
    } else {
        choose|i: int|
            0 <= i <= root(nodes).keys.len() && #[trigger] child_at(root(nodes), i) == page
    }
}

/// A cursor that sits inside the tree: on a leaf page, at or just past
/// its last cell.
pub open spec fn cursor_wf(c: Cursor, nodes: Seq<NodeV>) -> bool {
    &&& is_leaf_page(nodes, c.page_num as u64)
    &&& c.page_num < nodes.len()
    &&& c.cell_num <= nodes[c.page_num as int].cells.len()
}

/// The row index a cursor stands at: the rows of the leaves before its
/// leaf, plus its cell number.
pub open spec fn cursor_index(c: Cursor, nodes: Seq<NodeV>) -> int {
    slot_offset(nodes, page_slot(nodes, c.page_num as u64)) + c.cell_num
}

/// A child page's slot is recovered exactly by `page_slot`.
pub proof fn lemma_page_slot_of(nodes: Seq<NodeV>, i: int)
    requires
        tree_wf(nodes),
        root(nodes).node_type == NodeType::Internal,
        0 <= i <= root(nodes).keys.len(),
    ensures
        is_leaf_page(nodes, child_at(root(nodes), i)),
        page_slot(nodes, child_at(root(nodes), i)) == i,
{
    let p = child_at(root(nodes), i);
    assert(is_leaf_page(nodes, p));
    let w = page_slot(nodes, p);
    assert(0 <= w <= root(nodes).keys.len() && child_at(root(nodes), w) == p);
    if w != i {
        assert(child_at(root(nodes), w) != child_at(root(nodes), i));
    }
}

/// Where a valid cursor's row sits in `kv`, and how long `kv` is.
pub proof fn lemma_cursor_index(c: Cursor, nodes: Seq<NodeV>)
    requires
        tree_wf(nodes),
        cursor_wf(c, nodes),
    ensures
        0 <= cursor_index(c, nodes) <= kv(nodes).len(),
        c.cell_num < nodes[c.page_num as int].cells.len() ==> cursor_index(c, nodes) < kv(
            nodes,
        ).len() && kv(nodes)[cursor_index(c, nodes)] == nodes[c.page_num as int].cells[c.cell_num as int],
        nodes[c.page_num as int] == child(nodes, page_slot(nodes, c.page_num as u64)) || (root(
            nodes,
        ).node_type == NodeType::Leaf && c.page_num == 0),
        root(nodes).node_type == NodeType::Internal ==> kv(nodes).len() == slot_offset(
            nodes,
            root(nodes).keys.len() + 1 as int,
        ),
        root(nodes).node_type == NodeType::Internal ==> slot_offset(
            nodes,
            page_slot(nodes, c.page_num as u64) + 1,
        ) == slot_offset(nodes, page_slot(nodes, c.page_num as u64)) + nodes[c.page_num as int].cells.len(),
{
    if root(nodes).node_type == NodeType::Leaf {
        assert(c.page_num == 0);
        assert(page_slot(nodes, 0) == 0);
        assert(kv(nodes) == root(nodes).cells);
    } else {
        let s = page_slot(nodes, c.page_num as u64);
        assert(0 <= s <= root(nodes).keys.len() && child_at(root(nodes), s) == c.page_num as u64);
        assert(child(nodes, s) == nodes[c.page_num as int]);
        lemma_kv_children_index(nodes, 0);
        lemma_slot_offset_monotone(nodes, 0, s);
        lemma_slot_offset_monotone(nodes, s + 1, root(nodes).keys.len() + 1 as int);
        assert(slot_offset(nodes, s + 1) == slot_offset(nodes, s) + child(nodes, s).cells.len());
        if c.cell_num < nodes[c.page_num as int].cells.len() {
            assert(kv(nodes)[slot_offset(nodes, s) + c.cell_num] == child(
                nodes,
                s,
            ).cells[c.cell_num as int]);
        }
    }
}

impl Cursor {
    /// A cursor at the first row: the leftmost leaf, cell 0. The table
    /// is at its end already exactly when it holds no rows.
    pub fn table_start(table: &mut Table) -> (c: Cursor)
        requires
            old(table).wf(),
        ensures
            final(table).wf(),
            final(table).pager.node_seq() == old(table).pager.node_seq(),
            final(table).pager.disk@ == old(table).pager.disk@,
            final(table).root_page_num == old(table).root_page_num,
            cursor_wf(c, old(table).pager.node_seq()),
            c.cell_num == 0,
            cursor_index(c, old(table).pager.node_seq()) == 0,
            c.end_of_table <==> old(table)@.len() == 0,
    {
        let ghost nodes = old(table).pager.node_seq();
        let page_num = match table.pager.node_type_of(0) {
            NodeType::Leaf => 0,
            NodeType::Internal => {
                proof {
                    lemma_page_slot_of(nodes, 0);
                }
                table.pager.child_page_at(0, 0)
            },
        };
        let cell_count = table.pager.cell_count_of(page_num);
        let end_of_table = cell_count == 0;
        proof {
            if root(nodes).node_type == NodeType::Leaf {
                assert(page_slot(nodes, 0) == 0);
                assert(kv(nodes) == root(nodes).cells);
            } else {
                assert(child(nodes, 0) == nodes[page_num as int]);
                lemma_kv_children_sorted(nodes, 0);
                assert(cell_count >= 1);
                assert(kv(nodes).len() >= 1);
            }
        }
        Cursor { page_num, cell_num: 0, end_of_table }
    }

    /// A cursor at a given position; it is at the table's end when its
    /// cell sits just past the leaf's cells.
    pub fn new(table: &mut Table, page_num: usize, cell_num: usize) -> (c: Cursor)
        requires
            old(table).wf(),
            page_num < old(table).pager.nodes_count,
        ensures
            final(table).wf(),
            final(table).pager.node_seq() == old(table).pager.node_seq(),
            final(table).pager.disk@ == old(table).pager.disk@,
            final(table).root_page_num == old(table).root_page_num,
            c.page_num == page_num,
            c.cell_num == cell_num,
            c.end_of_table <==> cell_num == old(table).pager.nview(page_num as int).cells.len(),
    {
        let cell_count = table.pager.cell_count_of(page_num);
        let end_of_table = cell_count == cell_num;
        Cursor { page_num, cell_num, end_of_table }
    }

    /// Descends from the root to the position `key` holds, or would be
    /// inserted at.
    pub fn table_find(table: &mut Table, key: usize) -> (c: Cursor)
        requires
            old(table).wf(),
        ensures
            final(table).wf(),
            final(table).pager.node_seq() == old(table).pager.node_seq(),
            final(table).pager.disk@ == old(table).pager.disk@,
            final(table).root_page_num == old(table).root_page_num,
            c.page_num as u64 == target_page(old(table).pager.node_seq(), key as u64),
            c.cell_num as int == num_lt(
                leaf_keys(old(table).pager.nview(c.page_num as int)),
                key as u64,
            ),
            c.end_of_table <==> c.cell_num == old(table).pager.nview(
                c.page_num as int,
            ).cells.len(),
            cursor_wf(c, old(table).pager.node_seq()),
    {
        let root_page_num = table.get_root_page_num();
        match table.pager.node_type_of(root_page_num) {
            NodeType::Leaf => Self::leaf_node_find(table, root_page_num, key),
            NodeType::Internal => Self::internal_node_find(table, root_page_num, key),
        }
    }

    /// Routes `key` through the internal node at `page_num` and finds
    /// its position in the leaf below.
    fn internal_node_find(table: &mut Table, page_num: usize, key: usize) -> (c: Cursor)
        requires
            old(table).wf(),
            page_num == 0,
            old(table).pager.nview(0).node_type == NodeType::Internal,
        ensures
            final(table).wf(),
            final(table).pager.node_seq() == old(table).pager.node_seq(),
            final(table).pager.disk@ == old(table).pager.disk@,
            final(table).root_page_num == old(table).root_page_num,
            c.page_num as u64 == target_page(old(table).pager.node_seq(), key as u64),
            c.cell_num as int == num_lt(
                leaf_keys(old(table).pager.nview(c.page_num as int)),
                key as u64,
            ),
            c.end_of_table <==> c.cell_num == old(table).pager.nview(
                c.page_num as int,
            ).cells.len(),
            cursor_wf(c, old(table).pager.node_seq()),
    {
        let ghost nodes = old(table).pager.node_seq();
        proof {
            crate::node::lemma_num_lt_sorted(crate::node::internal_keys(root(nodes)), key as u64);
        }
        let idx = table.pager.find_child_index(page_num, key);
        proof {
            assert(idx == target_slot(nodes, key as u64));
            assert(1 <= child_at(root(nodes), idx as int) < nodes.len());
            lemma_page_slot_of(nodes, idx as int);
        }
        let child_page = table.pager.child_page_at(page_num, idx);
        match table.pager.node_type_of(child_page) {
            NodeType::Leaf => Self::leaf_node_find(table, child_page, key),
            NodeType::Internal => {
                proof {
                    assert(child(nodes, idx as int).node_type == NodeType::Leaf);
                }
                vstd::pervasive::unreached()
            },
        }
    }

    /// Binary search inside the sorted leaf at `page_num`: the cell of
    /// `key` if it is present, else its insertion position.
    fn leaf_node_find(table: &mut Table, page_num: usize, key: usize) -> (c: Cursor)
        requires
            old(table).wf(),
            page_num < old(table).pager.nodes_count,
            is_leaf_page(old(table).pager.node_seq(), page_num as u64),
        ensures
            final(table).wf(),
            final(table).pager.node_seq() == old(table).pager.node_seq(),
            final(table).pager.disk@ == old(table).pager.disk@,
            final(table).root_page_num == old(table).root_page_num,
            c.page_num == page_num,
            c.cell_num as int == num_lt(
                leaf_keys(old(table).pager.nview(page_num as int)),
                key as u64,
            ),
            c.end_of_table <==> c.cell_num == old(table).pager.nview(
                page_num as int,
            ).cells.len(),
            cursor_wf(c, old(table).pager.node_seq()),
    {
        let ghost nodes = old(table).pager.node_seq();
        let ghost leafv = old(table).pager.nview(page_num as int);
        let ghost lk = leaf_keys(leafv);
        proof {
            if root(nodes).node_type == NodeType::Leaf {
                assert(page_num == 0);
                assert(crate::tree::leaf_wf(leafv));
            } else {
                let s = page_slot(nodes, page_num as u64);
                assert(0 <= s <= root(nodes).keys.len() && child_at(root(nodes), s)
                    == page_num as u64);
                assert(child(nodes, s) == nodes[page_num as int]);
                assert(crate::tree::leaf_wf(leafv));
            }
            crate::node::lemma_num_lt_sorted(lk, key as u64);
            assert(forall|a: int| 0 <= a < lk.len() ==> (#[trigger] lk[a]) == leafv.cells[a].0);
        }
        let cell_count = table.pager.cell_count_of(page_num);
        let mut min_index: usize = 0;
        let mut one_past_max_index: usize = cell_count;
        while min_index != one_past_max_index
            invariant
                table.wf(),
                nodes == old(table).pager.node_seq(),
                table.pager.node_seq() == nodes,
                table.pager.disk@ == old(table).pager.disk@,
                table.root_page_num == old(table).root_page_num,
                page_num < table.pager.nodes_count,
                page_num < nodes.len(),
                is_leaf_page(nodes, page_num as u64),
                leafv == nodes[page_num as int],
                leafv == old(table).pager.nview(page_num as int),
                lk == leaf_keys(leafv),
                lk.len() == leafv.cells.len(),
                crate::node::sorted_strict(lk),
                forall|a: int| 0 <= a < lk.len() ==> (#[trigger] lk[a]) == leafv.cells[a].0,
                0 <= min_index <= one_past_max_index <= leafv.cells.len(),
                forall|j: int| 0 <= j < min_index ==> lk[j] < key as u64,
                forall|j: int| one_past_max_index <= j < lk.len() ==> lk[j] > key as u64,
            decreases one_past_max_index - min_index,
        {
            let index = min_index + (one_past_max_index - min_index) / 2;
            proof {
                assert(table.pager.nview(page_num as int) == table.pager.node_seq()[page_num as int]);
            }
            let key_at_index = table.pager.get_key(page_num, index);
            proof {
                assert(lk[index as int] == key_at_index as u64);
            }
            if key_at_index == key {
                proof {
                    crate::node::lemma_num_lt_sorted(lk, key as u64);
                    let n = num_lt(lk, key as u64);
                    if n < index {
                        assert(lk[n] >= key as u64);
                        assert(lk[n] < lk[index as int]);
                    }
                    if n > index {
                        assert(lk[index as int] < key as u64);
                    }
                    assert(index as int == num_lt(lk, key as u64));
                    assert(table.pager.nview(page_num as int) == table.pager.node_seq()[page_num as int]);
                }
                let c = Self::new(table, page_num, index);
                proof {
                    assert(old(table).pager.nview(page_num as int) == nodes[page_num as int]);
                }
                return c;
            }
            if key_at_index > key {
                one_past_max_index = index;
            } else {
                min_index = index + 1;
            }
        }
        proof {
            crate::node::lemma_num_lt_sorted(lk, key as u64);
            let n = num_lt(lk, key as u64);
            if n < min_index {
                assert(lk[n] < key as u64);
                assert(lk[n] >= key as u64);
            }
            if n > min_index {
                assert(lk[min_index as int] >= key as u64);
                assert(lk[min_index as int] < key as u64);
            }
            assert(table.pager.nview(page_num as int) == table.pager.node_seq()[page_num as int]);
        }
        let c = Self::new(table, page_num, min_index);
        proof {
            assert(old(table).pager.nview(page_num as int) == nodes[page_num as int]);
        }
        c
    }

    pub fn get_page_num(&self) -> (r: usize)
        ensures
            r == self.page_num,
    {
        self.page_num
    }

    pub fn get_cell_num(&self) -> (r: usize)
        ensures
            r == self.cell_num,
    {
        self.cell_num
    }

    pub fn is_end_of_table(&self) -> (r: bool)
        ensures
            r == self.end_of_table,
    {
        self.end_of_table
    }

    /// A cursor just past the last cell of the root page, marked at the
    /// table's end.
    pub fn table_end(table: &mut Table) -> (c: Cursor)
        requires
            old(table).wf(),
        ensures
            final(table).wf(),
            final(table).pager.node_seq() == old(table).pager.node_seq(),
            final(table).pager.disk@ == old(table).pager.disk@,
            final(table).root_page_num == old(table).root_page_num,
            c.page_num == old(table).root_page_num,
            c.cell_num == old(table).pager.nview(0).cells.len(),
            c.end_of_table,
    {
        let page_num = table.get_root_page_num();
        let cell_count = table.pager.cell_count_of(page_num);
        Cursor { page_num, cell_num: cell_count, end_of_table: true }
    }

    /// Moves one row forward: to the next cell of this leaf, then along
    /// the next-leaf chain; past the last row the cursor is at the end.
    pub fn advance(&mut self, table: &mut Table)
        requires
            old(table).wf(),
            old(self).page_num < old(table).pager.nodes_count,
            old(self).cell_num <= old(table).pager.node_seq()[old(self).page_num as int].cells.len(),
            !old(self).end_of_table ==> cursor_wf(*old(self), old(table).pager.node_seq())
                && old(self).cell_num < old(table).pager.node_seq()[old(
                self,
            ).page_num as int].cells.len(),
        ensures
            final(table).wf(),
            final(table).pager.node_seq() == old(table).pager.node_seq(),
            final(table).pager.disk@ == old(table).pager.disk@,
            final(table).root_page_num == old(table).root_page_num,
            // past the last row, advancing never leaves the end state.
            old(self).end_of_table ==> final(self).end_of_table,
            !old(self).end_of_table ==> ({
                let nodes = old(table).pager.node_seq();
                if cursor_index(*old(self), nodes) + 1 < kv(nodes).len() {
                    &&& cursor_wf(*final(self), nodes)
                    &&& !final(self).end_of_table
                    &&& cursor_index(*final(self), nodes) == cursor_index(*old(self), nodes) + 1
                    &&& final(self).cell_num < nodes[final(self).page_num as int].cells.len()
                } else {
                    final(self).end_of_table
                }
            }),
    {
        let ghost nodes = old(table).pager.node_seq();
        let ghost oc = *self;
        proof {
            if !oc.end_of_table {
                lemma_cursor_index(*self, nodes);
            }
            assert(crate::codec::node_clean(old(table).pager.nview(oc.page_num as int)));
            assert(nodes[oc.page_num as int].cells.len()
                <= crate::constant::LEAF_NODE_MAX_CELLS);
        }
        self.cell_num = self.cell_num + 1;
        proof {
            assert(table.pager.nview(oc.page_num as int) == table.pager.node_seq()[oc.page_num as int]);
        }
        let count = table.pager.cell_count_of(self.page_num);
        if self.cell_num >= count {
            let next = table.pager.next_leaf_of(self.page_num);
            proof {
                if !oc.end_of_table {
                    let s = page_slot(nodes, oc.page_num as u64);
                    if root(nodes).node_type == NodeType::Internal {
                        assert(child(nodes, s) == nodes[oc.page_num as int]);
                        if s < root(nodes).keys.len() {
                            assert(child(nodes, s).next_leaf == child_at(root(nodes), s + 1));
                            assert(1 <= child_at(root(nodes), s + 1) < nodes.len());
                            lemma_page_slot_of(nodes, s + 1);
                            let c2 = Cursor { page_num: next, cell_num: 0, end_of_table: false };
                            lemma_cursor_index(c2, nodes);
                            assert(child(nodes, s + 1).cells.len() >= 1);
                            assert(slot_offset(nodes, s + 1) == slot_offset(nodes, s)
                                + nodes[oc.page_num as int].cells.len());
                            assert(cursor_index(c2, nodes) == cursor_index(oc, nodes) + 1);
                            assert(cursor_index(c2, nodes) < kv(nodes).len());
                        } else {
                            assert(child(nodes, s).next_leaf == 0);
                            assert(cursor_index(oc, nodes) + 1 == kv(nodes).len());
                        }
                    } else {
                        assert(nodes[0].next_leaf == 0);
                        assert(kv(nodes) == root(nodes).cells);
                        assert(cursor_index(oc, nodes) + 1 == kv(nodes).len());
                    }
                }
            }
            if next != 0 {
                self.page_num = next;
                self.cell_num = 0;
            } else {
                self.end_of_table = true;
            }
        } else {
            proof {
                if !oc.end_of_table {
                    lemma_cursor_index(*self, nodes);
                    assert(cursor_index(*self, nodes) == cursor_index(oc, nodes) + 1);
                    assert(cursor_index(*self, nodes) < kv(nodes).len());
                }
            }
        }
    }

    /// The row bytes the cursor stands on.
    pub fn select(&self, table: &mut Table) -> (r: Vec<u8>)
        requires
            old(table).wf(),
            cursor_wf(*self, old(table).pager.node_seq()),
            self.cell_num < old(table).pager.node_seq()[self.page_num as int].cells.len(),
        ensures
            final(table).wf(),
            final(table).pager.node_seq() == old(table).pager.node_seq(),
            final(table).pager.disk@ == old(table).pager.disk@,
            final(table).root_page_num == old(table).root_page_num,
            r@ == kv(old(table).pager.node_seq())[cursor_index(
                *self,
                old(table).pager.node_seq(),
            )].1,
    {
        proof {
            lemma_cursor_index(*self, old(table).pager.node_seq());
        }
        table.select(self.page_num, self.cell_num)
    }

    /// Inserts `row` at this cursor's position, which located the
    /// row's id.
    pub fn insert(&self, table: &mut Table, row: &Row) -> (r: Result<(), DbError>)
        requires
            old(table).wf(),
            self.page_num as u64 == target_page(old(table).pager.node_seq(), row.id as u64),
            self.cell_num as int == num_lt(
                leaf_keys(old(table).pager.nview(self.page_num as int)),
                row.id as u64,
            ),
        ensures
            final(table).wf(),
            final(table).pager.disk@ == old(table).pager.disk@,
            match r {
                Ok(()) => {
                    &&& !crate::table::contains_key(old(table)@, row.id as u64)
                    &&& crate::row::row_fits(row.user_name@, row.email@)
                    &&& final(table)@ == crate::tree::kv_insert(
                        old(table)@,
                        row.id as u64,
                        crate::row::spec_row_bytes(row.id, row.user_name@, row.email@),
                    )
                },
                Err(e) => {
                    &&& final(table)@ == old(table)@
                    &&& (e == DbError::DuplicateKey <==> crate::table::contains_key(
                        old(table)@,
                        row.id as u64,
                    ))
                    &&& (e == DbError::RowTooLarge ==> !crate::row::row_fits(
                        row.user_name@,
                        row.email@,
                    ))
                    &&& (e == DbError::CapacityExceeded ==> crate::row::row_fits(
                        row.user_name@,
                        row.email@,
                    ) && !crate::tree::insert_fits(old(table).pager.node_seq(), row.id as u64))
                    &&& (e == DbError::DuplicateKey || e == DbError::RowTooLarge || e
                        == DbError::CapacityExceeded)
                },
            },
    {
        table.insert(self.page_num, self.cell_num, row)
    }
}

impl Table {
    /// Inserts `row` keyed by its id: locates the position with a
    /// cursor descent and inserts there. The errors are those of
    /// `Table::insert`, each leaving the table unchanged.
    pub fn insert_row(&mut self, row: &Row) -> (r: Result<(), DbError>)
        requires
            old(self).wf(),
        ensures
            final(self).wf(),
            final(self).pager.disk@ == old(self).pager.disk@,
            match r {
                Ok(()) => {
                    &&& !crate::table::contains_key(old(self)@, row.id as u64)
                    &&& crate::row::row_fits(row.user_name@, row.email@)
                    &&& final(self)@ == crate::tree::kv_insert(
                        old(self)@,
                        row.id as u64,
                        crate::row::spec_row_bytes(row.id, row.user_name@, row.email@),
                    )
                },
                Err(e) => {
                    &&& final(self)@ == old(self)@
                    &&& (e == DbError::DuplicateKey <==> crate::table::contains_key(
                        old(self)@,
                        row.id as u64,
                    ))
                    &&& (e == DbError::RowTooLarge ==> !crate::row::row_fits(
                        row.user_name@,
                        row.email@,
                    ))
                    &&& (e == DbError::CapacityExceeded ==> crate::row::row_fits(
                        row.user_name@,
                        row.email@,
                    ) && !crate::tree::insert_fits(old(self).pager.node_seq(), row.id as u64))
                    &&& (e == DbError::DuplicateKey || e == DbError::RowTooLarge || e
                        == DbError::CapacityExceeded)
                },
            },
    {
        let cursor = Cursor::table_find(self, row.get_id() as usize);
        cursor.insert(self, row)
    }

    /// Every row, in key order: what a full `select` statement prints.
    pub fn select_all(&mut self) -> (r: Vec<Vec<u8>>)
        requires
            old(self).wf(),
        ensures
            final(self).wf(),
            final(self).pager.node_seq() == old(self).pager.node_seq(),
            final(self).pager.disk@ == old(self).pager.disk@,
            final(self).root_page_num == old(self).root_page_num,
            r@.len() == old(self)@.len(),
            forall|i: int| 0 <= i < r@.len() ==> (#[trigger] r@[i])@ == old(self)@[i].1,
    {
        let ghost nodes = old(self).pager.node_seq();
        let mut out: Vec<Vec<u8>> = Vec::new();
        let mut cursor = Cursor::table_start(self);
        proof {
            lemma_cursor_index(cursor, nodes);
        }
        while !cursor.is_end_of_table()
            invariant
                self.wf(),
                self.pager.node_seq() == nodes,
                self.pager.disk@ == old(self).pager.disk@,
                self.root_page_num == old(self).root_page_num,
                out@.len() <= kv(nodes).len(),
                !cursor.end_of_table ==> cursor_wf(cursor, nodes) && cursor.cell_num < nodes[cursor.page_num as int].cells.len()
                    && cursor_index(cursor, nodes) == out@.len(),
                cursor.end_of_table ==> out@.len() == kv(nodes).len(),
                forall|i: int| 0 <= i < out@.len() ==> (#[trigger] out@[i])@ == kv(nodes)[i].1,
            decreases kv(nodes).len() - out@.len(),
        {
            proof {
                lemma_cursor_index(cursor, nodes);
                assert(cursor_index(cursor, nodes) < kv(nodes).len());
            }
            let row_bytes = cursor.select(self);
            out.push(row_bytes);
            cursor.advance(self);
            proof {
                if cursor.end_of_table {
                    assert(out@.len() == kv(nodes).len());
                }
            }
        }
        out
    }
}

} // verus!
