//! The table: a thin owner of a pager, keyed by row id.
//!
//! A table is opened over a file image, holds the root page number
//! (always page 0), and exposes insert, point select and flush. Its
//! mathematical content is the sequence of `(key, row bytes)` pairs in
//! key order.

use vstd::prelude::*;

use crate::codec::image_nodes;
use crate::constant::{PAGE_SIZE, TABLE_MAX_PAGES};
use crate::errors::DbError;
use crate::node::{leaf_keys, num_lt, NodeType};
use crate::pager::Pager;
use crate::row::{row_fits, spec_row_bytes, Row};
use crate::tree::{
    image_wf, insert_fits, kv, kv_insert, lemma_find_position, lemma_kv_children_index,
    lemma_slot_offset_monotone, lemma_target_slot, root, slot_offset, target_page, target_slot,
    tree_wf,
};

verus! {

pub struct Table {
    pub root_page_num: usize,
    pub pager: Pager,
}

impl View for Table {
    type V = Seq<(u64, Seq<u8>)>;

    open spec fn view(&self) -> Seq<(u64, Seq<u8>)> {
        kv(self.pager.node_seq())
    }
}

/// Whether `key` is stored in the rows `s`.
pub open spec fn contains_key(s: Seq<(u64, Seq<u8>)>, key: u64) -> bool {
    exists|i: int| 0 <= i < s.len() && (#[trigger] s[i]).0 == key
}

impl Table {
    pub open spec fn wf(self) -> bool {
        &&& self.pager.wf()
        &&& self.root_page_num == 0
    }

    /// Opens a table over a file image: an empty image starts a fresh
    /// database with an empty root leaf; any other image must decode to
    /// a well-formed tree. The root is recorded at page 0.
    pub fn open_db_connection(image: Vec<u8>) -> (r: Result<Self, DbError>)
        ensures
            match r {
                Ok(t) => {
                    &&& image_wf(image@)
                    &&& t.wf()
                    &&& t.pager.disk@ == image@
                    // the page layout is the file's: every page decodes in
                    // place, so point reads after a reopen line up.
                    &&& t.pager.nodes_count == (if image@.len() == 0 {
                        1int
                    } else {
                        crate::codec::image_npages(image@)
                    })
                    &&& (image@.len() == 0 ==> t.pager.node_seq() == seq![
                        crate::node::Node::fresh_root_leaf_v(),
                    ])
                    &&& (image@.len() > 0 ==> t.pager.node_seq() == image_nodes(image@))
                    &&& t@ == (if image@.len() == 0 {
                        Seq::<(u64, Seq<u8>)>::empty()
                    } else {
                        kv(image_nodes(image@))
                    })
                },
                Err(e) => {
                    &&& !image_wf(image@)
                    &&& e == (if image@.len() % (PAGE_SIZE as nat) == 0
                        && crate::codec::image_npages(image@) > TABLE_MAX_PAGES {
                        DbError::CapacityExceeded
                    } else {
                        DbError::CorruptPage
                    })
                },
            },
    {
        let ghost empty_image = image@.len() == 0;
        let pager = match Pager::new(image) {
            Ok(p) => p,
            Err(e) => {
                return Err(e);
            },
        };
        let ghost pre = pager;
        let mut t = Self { root_page_num: 0, pager };
        // touch page 0: a fresh database materializes its root leaf
        // here, and the root is its own parent either way.
        let root_page_num = t.pager.get_node_mut(0).get_parent_page_num();
        t.root_page_num = root_page_num;
        proof {
            if empty_image {
                assert(pre.nodes_count == 0);
                assert(t.pager.node_seq() =~= seq![crate::node::Node::fresh_root_leaf_v()]);
                assert(crate::tree::leaf_wf(root(t.pager.node_seq())));
                assert(tree_wf(t.pager.node_seq()));
                assert(t@ =~= Seq::<(u64, Seq<u8>)>::empty());
                assert(root_page_num == 0);
            } else {
                assert(t.pager.nview(0) == pre.nview(0));
                assert forall|i: int|
                    0 <= i < t.pager.nodes_count implies t.pager.nview(i) == pre.nview(i) by {
                    if i != 0 {
                        assert(t.pager.nodes@[i] == pre.nodes@[i]);
                    }
                }
                assert(t.pager.node_seq() =~= pre.node_seq());
                assert(root(pre.node_seq()).parent == 0);
                assert(root_page_num == 0);
            }
            assert forall|i: int| 0 <= i < t.pager.nodes_count implies crate::codec::node_clean(
                #[trigger] t.pager.nview(i),
            ) by {
                if i == 0 {
                    if empty_image {
                        assert(t.pager.nview(0) == crate::node::Node::fresh_root_leaf_v());
                    } else {
                        assert(crate::codec::node_clean(pre.nview(0)));
                    }
                } else {
                    assert(t.pager.nodes@[i] == pre.nodes@[i]);
                    assert(t.pager.nview(i) == pre.nview(i));
                    assert(crate::codec::node_clean(pre.nview(i)));
                }
            }
            assert forall|i: int|
                t.pager.nodes_count <= i < TABLE_MAX_PAGES implies !t.pager.cached(i) by {
                assert(t.pager.nodes@[i] == pre.nodes@[i]);
                assert(!pre.cached(i));
            }
            assert forall|i: int| 0 <= i < t.pager.nodes_count implies t.pager.cached(i) || (i
                < t.pager.disk_pages() && crate::codec::page_parses(
                crate::codec::image_page(t.pager.disk@, i),
            )) by {
                if i != 0 {
                    assert(t.pager.nodes@[i] == pre.nodes@[i]);
                    assert(pre.cached(i) || (i < pre.disk_pages() && crate::codec::page_parses(
                        crate::codec::image_page(pre.disk@, i),
                    )));
                }
            }
            assert(t.pager.cache_wf());
            assert(t.wf());
        }
        Ok(t)
    }

    /// Inserts `row` at the position the cursor found for its id.
    /// Reports `DuplicateKey` if the id is already stored,
    /// `RowTooLarge` if a string overflows its window, and
    /// `CapacityExceeded` if a needed split cannot proceed; each error
    /// leaves the table unchanged.
    pub fn insert(&mut self, page_num: usize, cell_num: usize, row: &Row) -> (r: Result<
        (),
        DbError,
    >)
        requires
            old(self).wf(),
            page_num as u64 == target_page(old(self).pager.node_seq(), row.id as u64),
            cell_num as int == num_lt(
                leaf_keys(old(self).pager.nview(page_num as int)),
                row.id as u64,
            ),
        ensures
            final(self).wf(),
            final(self).pager.disk@ == old(self).pager.disk@,
            match r {
                Ok(()) => {
                    &&& !contains_key(old(self)@, row.id as u64)
                    &&& row_fits(row.user_name@, row.email@)
                    &&& insert_fits(old(self).pager.node_seq(), row.id as u64)
                    &&& final(self)@ == kv_insert(
                        old(self)@,
                        row.id as u64,
                        spec_row_bytes(row.id, row.user_name@, row.email@),
                    )
                    // a leaf with room takes the cell in place: no page is
                    // allocated and no other page changes.
                    &&& (old(self).pager.nview(page_num as int).cells.len()
                        < crate::constant::LEAF_NODE_MAX_CELLS ==> {
                        &&& final(self).pager.nodes_count == old(self).pager.nodes_count
                        &&& final(self).pager.node_seq()[page_num as int] == (crate::node::NodeV {
                            cells: old(self).pager.nview(page_num as int).cells.insert(
                                cell_num as int,
                                (
                                    row.id as u64,
                                    spec_row_bytes(row.id, row.user_name@, row.email@),
                                ),
                            ),
                            ..old(self).pager.nview(page_num as int)
                        })
                        &&& forall|i: int|
                            0 <= i < old(self).pager.nodes_count && i != page_num
                                ==> final(self).pager.node_seq()[i] == old(
                                self,
                            ).pager.node_seq()[i]
                    })
                    // a root-leaf split promotes the root: an internal root
                    // with one key over two fresh pages.
                    &&& (old(self).pager.nview(page_num as int).cells.len()
                        == crate::constant::LEAF_NODE_MAX_CELLS && root(
                        old(self).pager.node_seq(),
                    ).node_type == NodeType::Leaf ==> {
                        &&& final(self).pager.nodes_count == old(self).pager.nodes_count + 2
                        &&& root(final(self).pager.node_seq()).node_type == NodeType::Internal
                        &&& root(final(self).pager.node_seq()).keys.len() == 1
                    })
                    // a child-leaf split adds one page and one routing key.
                    &&& (old(self).pager.nview(page_num as int).cells.len()
                        == crate::constant::LEAF_NODE_MAX_CELLS && root(
                        old(self).pager.node_seq(),
                    ).node_type == NodeType::Internal ==> {
                        &&& final(self).pager.nodes_count == old(self).pager.nodes_count + 1
                        &&& root(final(self).pager.node_seq()).keys.len() == root(
                            old(self).pager.node_seq(),
                        ).keys.len() + 1
                    })
                },
                Err(e) => {
                    &&& final(self)@ == old(self)@
                    &&& (e == DbError::DuplicateKey <==> contains_key(old(self)@, row.id as u64))
                    &&& (e == DbError::RowTooLarge ==> !row_fits(row.user_name@, row.email@))
                    &&& (e == DbError::CapacityExceeded ==> row_fits(row.user_name@, row.email@)
                        && !insert_fits(old(self).pager.node_seq(), row.id as u64))
                    &&& (e == DbError::DuplicateKey || e == DbError::RowTooLarge || e
                        == DbError::CapacityExceeded)
                },
            },
    {
        let ghost olds = old(self).pager.node_seq();
        let ghost k64 = row.id as u64;
        let ghost leafv = old(self).pager.nview(page_num as int);
        let row_id = row.get_id() as usize;
        proof {
            // where the routed position sits inside the whole table.
            if root(olds).node_type == NodeType::Leaf {
                assert(page_num == 0);
                crate::tree::lemma_root_leaf_position(olds, k64);
            } else {
                crate::node::lemma_num_lt_sorted(crate::node::internal_keys(root(olds)), k64);
                let s = target_slot(olds, k64);
                assert(1 <= crate::node::child_at(root(olds), s) < olds.len());
                assert(crate::tree::child(olds, s) == olds[page_num as int]);
                lemma_target_slot(olds, k64);
                lemma_kv_children_index(olds, 0);
                lemma_slot_offset_monotone(olds, 0, s);
                lemma_slot_offset_monotone(olds, s + 1, root(olds).keys.len() + 1 as int);
            }
            assert(page_num < old(self).pager.nodes_count);
            assert(crate::tree::leaf_wf(leafv));
            crate::node::lemma_num_lt_sorted(leaf_keys(leafv), k64);
            lemma_find_position(olds, k64);
        }
        let cell_count = self.pager.cell_count_of(page_num);
        if cell_count > cell_num {
            let target_key = self.pager.get_key(page_num, cell_num);
            if target_key == row_id {
                proof {
                    // the key at the found position is the stored key.
                    let n = num_lt(crate::tree::keys_of(old(self)@), k64);
                    if root(olds).node_type == NodeType::Leaf {
                        assert(old(self)@[n] == leafv.cells[cell_num as int]);
                    } else {
                        let s = target_slot(olds, k64);
                        assert(kv(olds)[slot_offset(olds, s) + cell_num] == crate::tree::child(
                            olds,
                            s,
                        ).cells[cell_num as int]);
                    }
                    assert(contains_key(old(self)@, k64));
                    assert(self.pager.node_seq() =~= olds);
                }
                return Err(DbError::DuplicateKey);
            }
        }
        proof {
            // the found position does not hold the key, so no row does.
            let n = num_lt(crate::tree::keys_of(old(self)@), k64);
            if cell_count > cell_num {
                if root(olds).node_type == NodeType::Leaf {
                    assert(old(self)@[n] == leafv.cells[cell_num as int]);
                } else {
                    let s = target_slot(olds, k64);
                    assert(kv(olds)[slot_offset(olds, s) + cell_num] == crate::tree::child(
                        olds,
                        s,
                    ).cells[cell_num as int]);
                }
            } else {
                assert(cell_num == leafv.cells.len());
                if n < kv(olds).len() {
                    if root(olds).node_type == NodeType::Leaf {
                        assert(old(self)@[n] == leafv.cells[cell_num as int]);
                    } else {
                        // the next row lies in a later leaf, above the key.
                        let s = target_slot(olds, k64);
                        assert(kv(olds)[n].0 >= k64);
                        assert(kv(olds)[n].0 != k64 ==> !contains_key(old(self)@, k64));
                        if kv(olds)[n].0 == k64 {
                            // impossible: every key from the found position on
                            // in this leaf is above `key`, and the leaf ends.
                            lemma_kv_sorted_helper(olds, k64, s, n);
                        }
                    }
                }
            }
            assert(!contains_key(old(self)@, k64));
            assert(forall|i: int|
                0 <= i < kv(olds).len() ==> (#[trigger] kv(olds)[i]).0 != k64);
        }
        let bytes = match row.serialize() {
            Ok(b) => b,
            Err(e) => {
                proof {
                    assert(self.pager.node_seq() =~= olds);
                }
                return Err(e);
            },
        };
        match self.pager.insert(row_id, bytes.as_slice(), page_num, cell_num) {
            Ok(()) => Ok(()),
            Err(e) => Err(e),
        }
    }

    /// The row bytes at cell `cell_num` of the leaf at `page_num`.
    pub fn select(&mut self, page_num: usize, cell_num: usize) -> (r: Vec<u8>)
        requires
            old(self).wf(),
            page_num < old(self).pager.nodes_count,
            cell_num < old(self).pager.nview(page_num as int).cells.len(),
        ensures
            r@ == old(self).pager.nview(page_num as int).cells[cell_num as int].1,
            final(self).wf(),
            final(self).pager.node_seq() == old(self).pager.node_seq(),
            final(self).pager.disk@ == old(self).pager.disk@,
            final(self)@ == old(self)@,
            final(self).root_page_num == old(self).root_page_num,
    {
        self.pager.select(page_num, cell_num)
    }

    pub fn get_pager_mut(&mut self) -> (r: &mut Pager)
        ensures
            *r == old(self).pager,
            final(self).pager == *final(r),
            final(self).root_page_num == old(self).root_page_num,
    {
        &mut self.pager
    }

    pub fn get_pager(&self) -> (r: &Pager)
        ensures
            r == &self.pager,
    {
        &self.pager
    }

    pub fn get_root_page_num(&self) -> (r: usize)
        ensures
            r == self.root_page_num,
    {
        self.root_page_num
    }

    /// Writes every page back into the backing image. After a flush the
    /// image alone reopens to the same table.
    pub fn flush(&mut self) -> (r: Result<(), DbError>)
        requires
            old(self).wf(),
        ensures
            r is Ok,
            final(self).wf(),
            final(self)@ == old(self)@,
            final(self).root_page_num == old(self).root_page_num,
            image_wf(final(self).pager.disk@),
            final(self).pager.disk@.len() > 0,
            kv(image_nodes(final(self).pager.disk@)) == old(self)@,
            // byte for byte: each page is the cached node's serialization,
            // or its untouched old bytes.
            forall|i: int|
                0 <= i < old(self).pager.nodes_count ==> crate::codec::image_page(
                    final(self).pager.disk@,
                    i,
                ) == (if old(self).pager.cached(i) {
                    crate::codec::spec_node_bytes(old(self).pager.nview(i))
                } else {
                    crate::codec::image_page(old(self).pager.disk@, i)
                }),
    {
        let r = self.pager.flush();
        proof {
            assert(self.pager.disk@.len() == old(self).pager.nodes_count * PAGE_SIZE);
            assert(image_nodes(self.pager.disk@) == old(self).pager.node_seq());
            assert(tree_wf(image_nodes(self.pager.disk@)));
            assert(crate::codec::image_npages(self.pager.disk@) == old(self).pager.nodes_count);
        }
        r
    }

    /// The backing image, as the last open or flush left it.
    pub fn file_bytes(&self) -> (r: &Vec<u8>)
        ensures
            r@ == self.pager.disk@,
    {
        &self.pager.disk
    }
}

/// Law: a well-formed table's rows carry strictly ascending keys, so a
/// scan returns them in ascending id order after every insert.
pub proof fn lemma_rows_sorted(t: Table)
    requires
        t.wf(),
    ensures
        forall|a: int, b: int| 0 <= a < b < t@.len() ==> (#[trigger] t@[a]).0 < (
        #[trigger] t@[b]).0,
{
    crate::tree::lemma_kv_sorted(t.pager.node_seq());
}

/// In an internal-root tree, a key routed past the end of its leaf is
/// absent from the whole table.
proof fn lemma_kv_sorted_helper(olds: Seq<crate::node::NodeV>, key: u64, s: int, n: int)
    requires
        tree_wf(olds),
        root(olds).node_type == NodeType::Internal,
        s == target_slot(olds, key),
        n == num_lt(crate::tree::keys_of(kv(olds)), key),
        n == slot_offset(olds, s) + crate::tree::child(olds, s).cells.len(),
        0 <= n < kv(olds).len(),
        num_lt(leaf_keys(crate::tree::child(olds, s)), key) == crate::tree::child(
            olds,
            s,
        ).cells.len(),
    ensures
        kv(olds)[n].0 != key,
{
    // row `n` is the first cell of the next slot, whose keys exceed the
    // routing key at or above `key`.
    let kk = root(olds).keys.len() as int;
    crate::node::lemma_num_lt_sorted(crate::node::internal_keys(root(olds)), key);
    assert(0 <= s <= kk);
    lemma_kv_children_index(olds, 0);
    if s == kk {
        // the right child is the last leaf: position n is past the end.
        lemma_slot_offset_monotone(olds, s + 1, kk + 1 as int);
        assert(kv(olds).len() == slot_offset(olds, kk + 1 as int));
        assert(n >= kv(olds).len());
    } else {
        assert(kv(olds)[slot_offset(olds, s + 1)] == crate::tree::child(olds, s + 1).cells[0]);
        assert(n == slot_offset(olds, s + 1));
        assert(crate::tree::child(olds, s).cells.last().0 < crate::tree::child(
            olds,
            s + 1,
        ).cells.first().0);
        // the routing key of slot s sits at or above `key`.
        assert(crate::node::internal_keys(root(olds))[s] >= key);
        assert(root(olds).keys[s].0 == crate::tree::child(olds, s).cells.last().0);
        assert(kv(olds)[n].0 > key);
    }
}

} // verus!
