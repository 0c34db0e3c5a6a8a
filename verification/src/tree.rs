//! The shape of the whole tree, as a specification over the sequence of
//! its pages' node views.
//!
//! The engine splits leaves and promotes the root in place, but never
//! splits an internal node, so a tree is always one of two shapes: a
//! single root leaf at page 0, or an internal root at page 0 whose
//! children are all leaves. `tree_wf` captures that shape together with
//! the key invariants; `kv` reads off the stored rows in key order.

use vstd::prelude::*;

use crate::codec::node_clean;
use crate::constant::TABLE_MAX_PAGES;
use crate::node::{
    child_at, internal_keys, leaf_keys, lemma_num_lt_sorted, num_lt, sorted_strict,
    spec_child_index, NodeType, NodeV,
};

verus! {

pub open spec fn root(nodes: Seq<NodeV>) -> NodeV {
    nodes[0]
}

/// The node of the root's child in slot `i` (the slot one past the keys
/// is the right child).
pub open spec fn child(nodes: Seq<NodeV>, i: int) -> NodeV {
    nodes[child_at(root(nodes), i) as int]
}

/// A well-formed leaf page: clean for the codec, keys strictly sorted.
pub open spec fn leaf_wf(v: NodeV) -> bool {
    &&& v.node_type == NodeType::Leaf
    &&& node_clean(v)
    &&& sorted_strict(leaf_keys(v))
}

/// A well-formed internal page: clean, at least one routing key, keys
/// strictly sorted.
pub open spec fn internal_wf(v: NodeV) -> bool {
    &&& v.node_type == NodeType::Internal
    &&& node_clean(v)
    &&& 1 <= v.keys.len()
    &&& sorted_strict(internal_keys(v))
}

/// The whole-tree invariant over the allocated pages.
///
/// Page 0 is the root. Either it is the only page and a leaf, or it is
/// internal and the other pages are exactly its children: non-empty
/// leaves in key order, each routing key equal to its child's largest
/// key, consecutive leaves strictly separated and chained by their
/// next-leaf pointers, the rightmost ending the chain with 0.
pub open spec fn tree_wf(nodes: Seq<NodeV>) -> bool {
    &&& 1 <= nodes.len() <= TABLE_MAX_PAGES
    &&& root(nodes).is_root
    &&& root(nodes).parent == 0
    &&& if root(nodes).node_type == NodeType::Leaf {
        &&& leaf_wf(root(nodes))
        &&& root(nodes).next_leaf == 0
        &&& nodes.len() == 1
    } else {
        &&& internal_wf(root(nodes))
        &&& nodes.len() == root(nodes).keys.len() + 2
        &&& forall|i: int|
            0 <= i <= root(nodes).keys.len() ==> 1 <= #[trigger] child_at(root(nodes), i)
                < nodes.len()
        &&& forall|i: int, j: int|
            0 <= i < j <= root(nodes).keys.len() ==> child_at(root(nodes), i) != child_at(
                root(nodes),
                j,
            )
        &&& forall|i: int|
            0 <= i <= root(nodes).keys.len() ==> {
                let c = #[trigger] child(nodes, i);
                &&& leaf_wf(c)
                &&& c.cells.len() >= 1
                &&& !c.is_root
                &&& c.parent == 0
            }
        &&& forall|i: int|
            0 <= i < root(nodes).keys.len() ==> (#[trigger] root(nodes).keys[i]).0 == child(
                nodes,
                i,
            ).cells.last().0
        &&& forall|i: int, j: int|
            #![trigger child(nodes, i), child(nodes, j)]
            0 <= i && j == i + 1 && j <= root(nodes).keys.len() ==> child(nodes, i).cells.last().0
                < child(nodes, j).cells.first().0
        &&& forall|i: int, j: int|
            #![trigger child(nodes, i), child_at(root(nodes), j)]
            0 <= i && j == i + 1 && j <= root(nodes).keys.len() ==> child(nodes, i).next_leaf
                == child_at(root(nodes), j)
        &&& child(nodes, root(nodes).keys.len() as int).next_leaf == 0
    }
}

/// The rows held by the children from slot `i` on, in slot order.
pub open spec fn kv_children(nodes: Seq<NodeV>, i: int) -> Seq<(u64, Seq<u8>)>
    decreases root(nodes).keys.len() + 1 - i,
{
    if i < 0 || i > root(nodes).keys.len() {
        Seq::empty()
    } else {
        child(nodes, i).cells + kv_children(nodes, i + 1)
    }
}

/// Every row of the tree, in key order.
pub open spec fn kv(nodes: Seq<NodeV>) -> Seq<(u64, Seq<u8>)> {
    if root(nodes).node_type == NodeType::Leaf {
        root(nodes).cells
    } else {
        kv_children(nodes, 0)
    }
}

/// The keys of a row sequence.
pub open spec fn keys_of(s: Seq<(u64, Seq<u8>)>) -> Seq<u64> {
    Seq::new(s.len(), |i: int| s[i].0)
}

/// `s` with `(key, val)` inserted at its sorted position.
pub open spec fn kv_insert(s: Seq<(u64, Seq<u8>)>, key: u64, val: Seq<u8>) -> Seq<(u64, Seq<u8>)> {
    s.insert(num_lt(keys_of(s), key), (key, val))
}

/// The child slot that routes `key` (meaningful for an internal root).
pub open spec fn target_slot(nodes: Seq<NodeV>, key: u64) -> int {
    num_lt(internal_keys(root(nodes)), key)
}

/// The page of the leaf that holds, or would receive, `key`.
pub open spec fn target_page(nodes: Seq<NodeV>, key: u64) -> u64 {
    if root(nodes).node_type == NodeType::Leaf {
        0
    } else {
        child_at(root(nodes), target_slot(nodes, key))
    }
}

/// How many rows the children before slot `i` hold.
pub open spec fn slot_offset(nodes: Seq<NodeV>, i: int) -> int
    decreases i,
{
    if i <= 0 {
        0
    } else {
        slot_offset(nodes, i - 1) + child(nodes, i - 1).cells.len()
    }
}

/// Whether an insert of `key` can proceed: its leaf has room, or the
/// pages and parent keys a split would need are available.
pub open spec fn insert_fits(nodes: Seq<NodeV>, key: u64) -> bool {
    ||| nodes[target_page(nodes, key) as int].cells.len() < crate::constant::LEAF_NODE_MAX_CELLS
    ||| (root(nodes).node_type == NodeType::Leaf && nodes.len() + 2 <= TABLE_MAX_PAGES)
    ||| (root(nodes).node_type == NodeType::Internal && root(nodes).keys.len()
        < crate::constant::INTERNAL_NODE_MAX_CELLS && nodes.len() + 1 <= TABLE_MAX_PAGES)
}

/// The lower half a full leaf keeps after a split: the cells below the
/// split point, with the new cell inserted there if its position falls
/// inside.
pub open spec fn split_lower(cells: Seq<(u64, Seq<u8>)>, cell_num: int, c: (u64, Seq<u8>)) -> Seq<
    (u64, Seq<u8>),
> {
    let sp = cells.len() as int / 2;
    if cell_num <= sp {
        cells.take(sp).insert(cell_num, c)
    } else {
        cells.take(sp)
    }
}

/// The upper half a split moves to the fresh leaf.
pub open spec fn split_upper(cells: Seq<(u64, Seq<u8>)>, cell_num: int, c: (u64, Seq<u8>)) -> Seq<
    (u64, Seq<u8>),
> {
    let sp = cells.len() as int / 2;
    if cell_num <= sp {
        cells.skip(sp)
    } else {
        cells.skip(sp).insert(cell_num - sp, c)
    }
}

/// The two halves of a split hold the old cells plus the new one.
pub proof fn lemma_split_parts(cells: Seq<(u64, Seq<u8>)>, cell_num: int, c: (u64, Seq<u8>))
    requires
        0 <= cell_num <= cells.len(),
    ensures
        split_lower(cells, cell_num, c) + split_upper(cells, cell_num, c) == cells.insert(
            cell_num,
            c,
        ),
        split_lower(cells, cell_num, c).len() >= cells.len() as int / 2,
        split_upper(cells, cell_num, c).len() >= cells.len() - cells.len() as int / 2,
{
    let sp = cells.len() as int / 2;
    if cell_num <= sp {
        assert(split_lower(cells, cell_num, c) + split_upper(cells, cell_num, c) =~= cells.insert(
            cell_num,
            c,
        ));
    } else {
        assert(split_lower(cells, cell_num, c) + split_upper(cells, cell_num, c) =~= cells.insert(
            cell_num,
            c,
        ));
    }
}

/// What a split makes of a sorted leaf: two sorted, non-empty halves
/// that together hold the old cells plus the new one, separated at the
/// split point, with known first and last keys.
pub proof fn lemma_split_leaf(cells: Seq<(u64, Seq<u8>)>, j: int, c: (u64, Seq<u8>))
    requires
        sorted_strict(keys_of(cells)),
        forall|i: int| 0 <= i < cells.len() ==> (#[trigger] cells[i]).0 != c.0,
        j == num_lt(keys_of(cells), c.0),
        2 <= cells.len(),
    ensures
        split_lower(cells, j, c) + split_upper(cells, j, c) == cells.insert(j, c),
        1 <= split_lower(cells, j, c).len(),
        1 <= split_upper(cells, j, c).len(),
        sorted_strict(keys_of(split_lower(cells, j, c))),
        sorted_strict(keys_of(split_upper(cells, j, c))),
        split_lower(cells, j, c).last().0 < split_upper(cells, j, c).first().0,
        split_lower(cells, j, c).first().0 == (if j == 0 {
            c.0
        } else {
            cells.first().0
        }),
        split_upper(cells, j, c).last().0 == (if j == cells.len() {
            c.0
        } else {
            cells.last().0
        }),
{
    let ks = keys_of(cells);
    lemma_num_lt_sorted(ks, c.0);
    assert(forall|i: int| 0 <= i < cells.len() ==> (#[trigger] ks[i]) == cells[i].0);
    lemma_split_parts(cells, j, c);
    lemma_sorted_insert(ks, c.0);
    let combined = cells.insert(j, c);
    assert(keys_of(combined) =~= ks.insert(j, c.0));
    assert(sorted_strict(keys_of(combined)));
    let lower = split_lower(cells, j, c);
    let upper = split_upper(cells, j, c);
    let ll = lower.len() as int;
    assert(lower =~= combined.take(ll));
    assert(upper =~= combined.skip(ll));
    assert forall|a: int, b: int|
        0 <= a < b < keys_of(lower).len() implies keys_of(lower)[a] < keys_of(lower)[b] by {
        assert(keys_of(lower)[a] == combined[a].0);
        assert(keys_of(lower)[b] == combined[b].0);
        assert(keys_of(combined)[a] < keys_of(combined)[b]);
    }
    assert forall|a: int, b: int|
        0 <= a < b < keys_of(upper).len() implies keys_of(upper)[a] < keys_of(upper)[b] by {
        assert(keys_of(upper)[a] == combined[ll + a].0);
        assert(keys_of(upper)[b] == combined[ll + b].0);
        assert(keys_of(combined)[ll + a] < keys_of(combined)[ll + b]);
    }
    assert(lower.last() == combined[ll - 1]);
    assert(upper.first() == combined[ll]);
    assert(keys_of(combined)[ll - 1] < keys_of(combined)[ll]);
    assert(lower.first() == combined[0]);
    assert(upper.last() == combined[combined.len() - 1]);
    if j == 0 {
        assert(combined[0] == c);
    } else {
        assert(combined[0] == cells[0]);
    }
    if j == cells.len() {
        assert(combined[combined.len() - 1] == c);
    } else {
        assert(combined[combined.len() - 1] == cells[cells.len() - 1]);
    }
}

// ------------------------------------------------------------------
// Counting lemmas for `num_lt`.
pub proof fn lemma_num_lt_concat(a: Seq<u64>, b: Seq<u64>, k: u64)
    ensures
        num_lt(a + b, k) == num_lt(a, k) + num_lt(b, k),
    decreases b.len(),
{
    if b.len() == 0 {
        assert(a + b =~= a);
    } else {
        lemma_num_lt_concat(a, b.drop_last(), k);
        assert((a + b).drop_last() =~= a + b.drop_last());
        assert((a + b).last() == b.last());
    }
}

pub proof fn lemma_num_lt_all(s: Seq<u64>, k: u64)
    ensures
        (forall|i: int| 0 <= i < s.len() ==> s[i] < k) ==> num_lt(s, k) == s.len(),
        (forall|i: int| 0 <= i < s.len() ==> s[i] >= k) ==> num_lt(s, k) == 0,
    decreases s.len(),
{
    if s.len() > 0 {
        lemma_num_lt_all(s.drop_last(), k);
        assert(forall|i: int| 0 <= i < s.len() - 1 ==> s.drop_last()[i] == s[i]);
    }
}

// ------------------------------------------------------------------
// Where each leaf's rows sit inside `kv`.
/// The rows from slot `i` on are the slots' cells laid end to end; in
/// particular slot `i`'s cell `j` is row `slot_offset + j`.
pub proof fn lemma_kv_children_index(nodes: Seq<NodeV>, i: int)
    requires
        tree_wf(nodes),
        root(nodes).node_type == NodeType::Internal,
        0 <= i <= root(nodes).keys.len(),
    ensures
        kv_children(nodes, i).len() == slot_offset(nodes, root(nodes).keys.len() + 1 as int)
            - slot_offset(nodes, i),
        forall|s: int, j: int|
            i <= s <= root(nodes).keys.len() && 0 <= j < child(nodes, s).cells.len()
                ==> kv_children(nodes, i)[slot_offset(nodes, s) - slot_offset(nodes, i) + j]
                == (#[trigger] child(nodes, s).cells[j]),
    decreases root(nodes).keys.len() + 1 - i,
{
    let top = root(nodes).keys.len() as int;
    if i == top {
        assert(kv_children(nodes, i + 1) == Seq::<(u64, Seq<u8>)>::empty());
        assert(kv_children(nodes, i) == child(nodes, i).cells + kv_children(nodes, i + 1));
        assert(kv_children(nodes, i) =~= child(nodes, i).cells);
    } else {
        lemma_kv_children_index(nodes, i + 1);
        assert forall|s: int, j: int|
            i <= s <= top && 0 <= j < child(nodes, s).cells.len() implies kv_children(nodes, i)[
            slot_offset(nodes, s) - slot_offset(nodes, i) + j] == (#[trigger] child(
            nodes,
            s,
        ).cells[j]) by {
            if s == i {
                assert(kv_children(nodes, i)[j] == child(nodes, i).cells[j]);
            } else {
                assert(kv_children(nodes, i + 1)[slot_offset(nodes, s) - slot_offset(nodes, i + 1)
                    + j] == child(nodes, s).cells[j]);
                lemma_slot_offset_monotone(nodes, i + 1, s);
                assert(kv_children(nodes, i)[child(nodes, i).cells.len() + (slot_offset(nodes, s)
                    - slot_offset(nodes, i + 1) + j)] == kv_children(nodes, i + 1)[slot_offset(
                    nodes,
                    s,
                ) - slot_offset(nodes, i + 1) + j]);
            }
        }
    }
}

pub proof fn lemma_slot_offset_monotone(nodes: Seq<NodeV>, i: int, j: int)
    requires
        0 <= i <= j,
    ensures
        slot_offset(nodes, i) <= slot_offset(nodes, j),
    decreases j - i,
{
    if i < j {
        lemma_slot_offset_monotone(nodes, i, j - 1);
    }
}

/// The keys from slot `i` on, all at or above the first key of slot `i`
/// and strictly sorted.
pub proof fn lemma_kv_children_sorted(nodes: Seq<NodeV>, i: int)
    requires
        tree_wf(nodes),
        root(nodes).node_type == NodeType::Internal,
        0 <= i <= root(nodes).keys.len(),
    ensures
        sorted_strict(keys_of(kv_children(nodes, i))),
        kv_children(nodes, i).len() >= 1,
        forall|a: int|
            0 <= a < kv_children(nodes, i).len() ==> (#[trigger] kv_children(nodes, i)[a]).0
                >= child(nodes, i).cells.first().0,
    decreases root(nodes).keys.len() + 1 - i,
{
    let top = root(nodes).keys.len() as int;
    let c = child(nodes, i).cells;
    assert(leaf_wf(child(nodes, i)));
    assert(forall|j: int| 0 <= j < c.len() ==> (#[trigger] leaf_keys(child(nodes, i))[j]) == c[j].0);
    if i == top {
        assert(kv_children(nodes, i + 1) == Seq::<(u64, Seq<u8>)>::empty());
        assert(kv_children(nodes, i) == c + kv_children(nodes, i + 1));
        assert(kv_children(nodes, i) =~= c);
        assert forall|a: int, b: int|
            0 <= a < b < keys_of(c).len() implies keys_of(c)[a] < keys_of(c)[b] by {
            assert(leaf_keys(child(nodes, i))[a] < leaf_keys(child(nodes, i))[b]);
        }
        assert forall|a: int| 0 <= a < c.len() implies (#[trigger] c[a]).0 >= c.first().0 by {
            if a > 0 {
                assert(leaf_keys(child(nodes, i))[0] < leaf_keys(child(nodes, i))[a]);
            }
        }
    } else {
        lemma_kv_children_sorted(nodes, i + 1);
        let rest = kv_children(nodes, i + 1);
        let whole = kv_children(nodes, i);
        assert(whole == c + rest);
        // within this slot the keys climb; the next slot starts above
        // this slot's largest key.
        assert(c.last().0 < child(nodes, i + 1).cells.first().0);
        assert forall|a: int, b: int|
            0 <= a < b < whole.len() implies (#[trigger] whole[a]).0 < (#[trigger] whole[b]).0 by {
            if b < c.len() {
                assert(leaf_keys(child(nodes, i))[a] < leaf_keys(child(nodes, i))[b]);
            } else if a >= c.len() {
                assert(keys_of(rest)[a - c.len()] == rest[a - c.len()].0);
                assert(keys_of(rest)[b - c.len()] == rest[b - c.len()].0);
                assert(keys_of(rest)[a - c.len()] < keys_of(rest)[b - c.len()]);
            } else {
                assert(whole[a] == c[a]);
                assert(whole[b] == rest[b - c.len()]);
                if a < c.len() - 1 {
                    assert(leaf_keys(child(nodes, i))[a] < leaf_keys(child(nodes, i))[c.len() - 1]);
                }
                assert(c[a].0 <= c.last().0);
                assert(rest[b - c.len()].0 >= child(nodes, i + 1).cells.first().0);
            }
        }
        assert forall|a: int, b: int|
            0 <= a < b < keys_of(whole).len() implies keys_of(whole)[a] < keys_of(whole)[b] by {
            assert(keys_of(whole)[a] == whole[a].0);
            assert(keys_of(whole)[b] == whole[b].0);
        }
        assert forall|a: int|
            0 <= a < whole.len() implies (#[trigger] whole[a]).0 >= c.first().0 by {
            if a == 0 {
            } else {
                assert(whole[0].0 < whole[a].0);
                assert(whole[0] == c[0]);
            }
        }
    }
}

/// Law: in a well-formed tree the stored rows carry strictly ascending
/// keys — a scan returns them in strictly ascending key order.
pub proof fn lemma_kv_sorted(nodes: Seq<NodeV>)
    requires
        tree_wf(nodes),
    ensures
        sorted_strict(keys_of(kv(nodes))),
        forall|a: int, b: int|
            0 <= a < b < kv(nodes).len() ==> (#[trigger] kv(nodes)[a]).0 < (
            #[trigger] kv(nodes)[b]).0,
{
    if root(nodes).node_type == NodeType::Leaf {
        let c = root(nodes).cells;
        assert(forall|j: int|
            0 <= j < c.len() ==> (#[trigger] leaf_keys(root(nodes))[j]) == c[j].0);
        assert forall|a: int, b: int|
            0 <= a < b < keys_of(c).len() implies keys_of(c)[a] < keys_of(c)[b] by {
            assert(leaf_keys(root(nodes))[a] < leaf_keys(root(nodes))[b]);
        }
        assert forall|a: int, b: int|
            0 <= a < b < c.len() implies (#[trigger] c[a]).0 < (#[trigger] c[b]).0 by {
            assert(keys_of(c)[a] < keys_of(c)[b]);
        }
    } else {
        lemma_kv_children_sorted(nodes, 0);
        let whole = kv(nodes);
        assert forall|a: int, b: int|
            0 <= a < b < whole.len() implies (#[trigger] whole[a]).0 < (#[trigger] whole[b]).0 by {
            assert(keys_of(whole)[a] < keys_of(whole)[b]);
        }
    }
}

/// Law: a leaf's largest key precedes every key of the leaf its
/// next-leaf pointer names. Over the slots of a well-formed tree: slot
/// `i` chains to slot `i + 1`, and their key ranges are separated.
pub proof fn lemma_leaf_chain(nodes: Seq<NodeV>, i: int)
    requires
        tree_wf(nodes),
        root(nodes).node_type == NodeType::Internal,
        0 <= i < root(nodes).keys.len(),
    ensures
        child(nodes, i).next_leaf == child_at(root(nodes), i + 1),
        child(nodes, i).cells.last().0 < child(nodes, i + 1).cells.first().0,
        forall|a: int, b: int|
            0 <= a < child(nodes, i).cells.len() && 0 <= b < child(nodes, i + 1).cells.len()
                ==> (#[trigger] child(nodes, i).cells[a]).0 < (
            #[trigger] child(nodes, i + 1).cells[b]).0,
{
    let c = child(nodes, i).cells;
    let d = child(nodes, i + 1).cells;
    assert(leaf_wf(child(nodes, i)));
    assert(leaf_wf(child(nodes, i + 1)));
    assert forall|a: int, b: int|
        0 <= a < c.len() && 0 <= b < d.len() implies (#[trigger] c[a]).0 < (#[trigger] d[b]).0 by {
        if a < c.len() - 1 {
            assert(leaf_keys(child(nodes, i))[a] < leaf_keys(child(nodes, i))[c.len() - 1]);
        }
        if b > 0 {
            assert(leaf_keys(child(nodes, i + 1))[0] < leaf_keys(child(nodes, i + 1))[b]);
        }
    }
}

/// Counting the keys below `key`, child by child: the children before
/// the slot that routes `key` hold only smaller keys, those after it
/// only larger ones.
proof fn lemma_count_children(nodes: Seq<NodeV>, key: u64, i: int)
    requires
        tree_wf(nodes),
        root(nodes).node_type == NodeType::Internal,
        0 <= i <= root(nodes).keys.len(),
    ensures
        i <= target_slot(nodes, key) ==> num_lt(keys_of(kv_children(nodes, i)), key)
            == slot_offset(nodes, target_slot(nodes, key)) - slot_offset(nodes, i) + num_lt(
            leaf_keys(child(nodes, target_slot(nodes, key))),
            key,
        ),
        i > target_slot(nodes, key) ==> num_lt(keys_of(kv_children(nodes, i)), key) == 0,
    decreases root(nodes).keys.len() + 1 - i,
{
    let top = root(nodes).keys.len() as int;
    let s = target_slot(nodes, key);
    let ik = internal_keys(root(nodes));
    lemma_num_lt_sorted(ik, key);
    assert(0 <= s <= top);
    assert(forall|j: int| 0 <= j < ik.len() ==> (#[trigger] ik[j]) == root(nodes).keys[j].0);
    let c = child(nodes, i).cells;
    assert(leaf_wf(child(nodes, i)));
    assert(forall|j: int| 0 <= j < c.len() ==> (#[trigger] leaf_keys(child(nodes, i))[j]) == c[j].0);
    assert(keys_of(c) =~= leaf_keys(child(nodes, i)));
    // Every key of slot i relates to key according to i's place around s.
    if i < s {
        // keys of slot i are at most the routing key, which is below `key`.
        lemma_routing_bounds(nodes, i);
        assert(ik[i] < key);
        assert forall|j: int| 0 <= j < keys_of(c).len() implies keys_of(c)[j] < key by {
            assert(c[j].0 <= root(nodes).keys[i].0);
        }
        lemma_num_lt_all(keys_of(c), key);
        assert(num_lt(keys_of(c), key) == c.len());
    }
    if i > s {
        // keys of slot i sit above the previous routing key, which is at
        // or above `key`.
        assert(ik[i - 1] >= key);
        assert(child(nodes, i - 1).cells.last().0 < child(nodes, i).cells.first().0);
        assert(root(nodes).keys[i - 1].0 == child(nodes, i - 1).cells.last().0);
        assert forall|j: int| 0 <= j < keys_of(c).len() implies keys_of(c)[j] >= key by {
            if j > 0 {
                assert(leaf_keys(child(nodes, i))[0] < leaf_keys(child(nodes, i))[j]);
            }
            assert(c[j].0 >= c.first().0);
        }
        lemma_num_lt_all(keys_of(c), key);
        assert(num_lt(keys_of(c), key) == 0);
    }
    if i == top {
        assert(kv_children(nodes, i + 1) == Seq::<(u64, Seq<u8>)>::empty());
        assert(kv_children(nodes, i) == c + kv_children(nodes, i + 1));
        assert(kv_children(nodes, i) =~= c);
        if i <= s {
            assert(i == s);
        }
    } else {
        lemma_count_children(nodes, key, i + 1);
        assert(kv_children(nodes, i) == c + kv_children(nodes, i + 1));
        assert(keys_of(kv_children(nodes, i)) =~= keys_of(c) + keys_of(kv_children(nodes, i + 1)));
        lemma_num_lt_concat(keys_of(c), keys_of(kv_children(nodes, i + 1)), key);
    }
}

/// Where `key` sits globally: counting rows below `key` over the whole
/// tree equals counting them inside the leaf that routing reaches,
/// shifted by the rows of the leaves before it.
pub proof fn lemma_target_slot(nodes: Seq<NodeV>, key: u64)
    requires
        tree_wf(nodes),
        root(nodes).node_type == NodeType::Internal,
    ensures
        0 <= target_slot(nodes, key) <= root(nodes).keys.len(),
        num_lt(keys_of(kv(nodes)), key) == slot_offset(nodes, target_slot(nodes, key)) + num_lt(
            leaf_keys(child(nodes, target_slot(nodes, key))),
            key,
        ),
{
    lemma_num_lt_sorted(internal_keys(root(nodes)), key);
    lemma_count_children(nodes, key, 0);
}

/// Where `key` sits in a single root leaf.
pub proof fn lemma_root_leaf_position(nodes: Seq<NodeV>, key: u64)
    requires
        tree_wf(nodes),
        root(nodes).node_type == NodeType::Leaf,
    ensures
        num_lt(keys_of(kv(nodes)), key) == num_lt(leaf_keys(root(nodes)), key),
{
    assert(keys_of(root(nodes).cells) =~= leaf_keys(root(nodes)));
}

/// The position `num_lt` names splits the rows at `key`, and `key` is
/// present exactly when that position holds it.
pub proof fn lemma_find_position(nodes: Seq<NodeV>, key: u64)
    requires
        tree_wf(nodes),
    ensures
        ({
            let s = kv(nodes);
            let n = num_lt(keys_of(s), key);
            &&& 0 <= n <= s.len()
            &&& forall|i: int| 0 <= i < n ==> (#[trigger] s[i]).0 < key
            &&& forall|i: int| n <= i < s.len() ==> (#[trigger] s[i]).0 >= key
            &&& ((exists|i: int| 0 <= i < s.len() && (#[trigger] s[i]).0 == key) <==> (n < s.len()
                && s[n].0 == key))
        }),
{
    let s = kv(nodes);
    lemma_kv_sorted(nodes);
    lemma_num_lt_sorted(keys_of(s), key);
    let n = num_lt(keys_of(s), key);
    assert(forall|i: int| 0 <= i < s.len() ==> (#[trigger] keys_of(s)[i]) == s[i].0);
    assert forall|i: int| 0 <= i < n implies (#[trigger] s[i]).0 < key by {
        assert(keys_of(s)[i] < key);
    }
    assert forall|i: int| n <= i < s.len() implies (#[trigger] s[i]).0 >= key by {
        assert(keys_of(s)[i] >= key);
    }
    if n < s.len() && s[n as int].0 == key {
        assert(exists|i: int| 0 <= i < s.len() && (#[trigger] s[i]).0 == key);
    }
    if exists|i: int| 0 <= i < s.len() && (#[trigger] s[i]).0 == key {
        let w = choose|i: int| 0 <= i < s.len() && (#[trigger] s[i]).0 == key;
        assert(w >= n);
        if w > n {
            assert(s[n as int].0 < s[w].0);
        }
    }
}

/// The file images a database can be opened from: whole pages, within
/// the page budget, empty or decoding to a well-formed tree.
pub open spec fn image_wf(b: Seq<u8>) -> bool {
    &&& b.len() % (crate::constant::PAGE_SIZE as nat) == 0
    &&& crate::codec::image_npages(b) <= TABLE_MAX_PAGES
    &&& (b.len() > 0 ==> crate::codec::image_parses(b) && tree_wf(crate::codec::image_nodes(b)))
}

proof fn lemma_sorted_chain(s: Seq<u64>, a: int, b: int)
    requires
        forall|i: int| 0 <= i < s.len() - 1 ==> #[trigger] s[i] < s[i + 1],
        0 <= a < b < s.len(),
    ensures
        s[a] < s[b],
    decreases b - a,
{
    if a + 1 < b {
        lemma_sorted_chain(s, a, b - 1);
    }
}

/// A key sequence whose consecutive entries climb is strictly sorted.
pub proof fn lemma_sorted_from_consecutive(s: Seq<u64>)
    requires
        forall|i: int| 0 <= i < s.len() - 1 ==> #[trigger] s[i] < s[i + 1],
    ensures
        sorted_strict(s),
{
    assert forall|a: int, b: int| 0 <= a < b < s.len() implies s[a] < s[b] by {
        lemma_sorted_chain(s, a, b);
    }
}

// ------------------------------------------------------------------
// Sequence surgery.
/// Inserting into the left part of a concatenation.
pub proof fn lemma_insert_concat_left(
    a: Seq<(u64, Seq<u8>)>,
    b: Seq<(u64, Seq<u8>)>,
    n: int,
    c: (u64, Seq<u8>),
)
    requires
        0 <= n <= a.len(),
    ensures
        a.insert(n, c) + b == (a + b).insert(n, c),
{
    assert(a.insert(n, c) + b =~= (a + b).insert(n, c));
}

/// Inserting into the right part of a concatenation.
pub proof fn lemma_insert_concat_right(
    a: Seq<(u64, Seq<u8>)>,
    b: Seq<(u64, Seq<u8>)>,
    n: int,
    c: (u64, Seq<u8>),
)
    requires
        0 <= n <= b.len(),
    ensures
        a + b.insert(n, c) == (a + b).insert(a.len() + n, c),
{
    assert(a + b.insert(n, c) =~= (a + b).insert(a.len() + n, c));
}

/// Inserting a fresh key at its counted position keeps a sorted key
/// sequence sorted.
pub proof fn lemma_sorted_insert(s: Seq<u64>, k: u64)
    requires
        sorted_strict(s),
        forall|i: int| 0 <= i < s.len() ==> s[i] != k,
    ensures
        sorted_strict(s.insert(num_lt(s, k), k)),
{
    lemma_num_lt_sorted(s, k);
    let n = num_lt(s, k);
    let t = s.insert(n, k);
    assert forall|i: int, j: int| 0 <= i < j < t.len() implies t[i] < t[j] by {
        if i < n {
            assert(t[i] == s[i]);
        } else if i == n {
            assert(t[i] == k);
        } else {
            assert(t[i] == s[i - 1]);
        }
        if j < n {
            assert(t[j] == s[j]);
        } else if j == n {
            assert(t[j] == k);
        } else {
            assert(t[j] == s[j - 1]);
        }
    }
}

/// How `kv_children` changes when one child's cells gain a cell and
/// everything else stays: rows shift by one slot-local insertion.
proof fn lemma_kv_update_child_from(
    olds: Seq<NodeV>,
    news: Seq<NodeV>,
    s: int,
    j: int,
    c: (u64, Seq<u8>),
    i: int,
)
    requires
        tree_wf(olds),
        root(olds).node_type == NodeType::Internal,
        0 <= s <= root(olds).keys.len(),
        root(news).node_type == NodeType::Internal,
        root(news).keys.len() == root(olds).keys.len(),
        forall|t: int|
            0 <= t <= root(olds).keys.len() ==> child_at(root(news), t) == child_at(
                root(olds),
                t,
            ),
        forall|t: int|
            0 <= t <= root(olds).keys.len() && t != s ==> (#[trigger] child(news, t)).cells
                == child(olds, t).cells,
        child(news, s).cells == child(olds, s).cells.insert(j, c),
        0 <= j <= child(olds, s).cells.len(),
        0 <= i <= root(olds).keys.len(),
    ensures
        i <= s ==> kv_children(news, i) == kv_children(olds, i).insert(
            slot_offset(olds, s) - slot_offset(olds, i) + j,
            c,
        ),
        i > s ==> kv_children(news, i) == kv_children(olds, i),
    decreases root(olds).keys.len() + 1 - i,
{
    let top = root(olds).keys.len() as int;
    lemma_kv_children_index(olds, i);
    if i == top {
        assert(kv_children(olds, i + 1) == Seq::<(u64, Seq<u8>)>::empty());
        assert(kv_children(news, i + 1) == Seq::<(u64, Seq<u8>)>::empty());
        assert(kv_children(olds, i) == child(olds, i).cells + kv_children(olds, i + 1));
        assert(kv_children(news, i) == child(news, i).cells + kv_children(news, i + 1));
        assert(kv_children(olds, i) =~= child(olds, i).cells);
        assert(kv_children(news, i) =~= child(news, i).cells);
        if i == s {
            assert(kv_children(news, i) == kv_children(olds, i).insert(j, c));
        }
    } else {
        lemma_kv_update_child_from(olds, news, s, j, c, i + 1);
        assert(kv_children(olds, i) == child(olds, i).cells + kv_children(olds, i + 1));
        assert(kv_children(news, i) == child(news, i).cells + kv_children(news, i + 1));
        if i > s {
        } else if i == s {
            lemma_insert_concat_left(child(olds, i).cells, kv_children(olds, i + 1), j, c);
        } else {
            lemma_kv_children_index(olds, i + 1);
            lemma_insert_concat_right(
                child(olds, i).cells,
                kv_children(olds, i + 1),
                slot_offset(olds, s) - slot_offset(olds, i + 1) + j,
                c,
            );
        }
    }
}

/// Law of the plain insert: when only the routed child's cells change,
/// by one insertion, the tree's rows change by that one insertion.
pub proof fn lemma_kv_update_child(
    olds: Seq<NodeV>,
    news: Seq<NodeV>,
    s: int,
    j: int,
    c: (u64, Seq<u8>),
)
    requires
        tree_wf(olds),
        root(olds).node_type == NodeType::Internal,
        0 <= s <= root(olds).keys.len(),
        root(news).node_type == NodeType::Internal,
        root(news).keys.len() == root(olds).keys.len(),
        forall|t: int|
            0 <= t <= root(olds).keys.len() ==> child_at(root(news), t) == child_at(
                root(olds),
                t,
            ),
        forall|t: int|
            0 <= t <= root(olds).keys.len() && t != s ==> (#[trigger] child(news, t)).cells
                == child(olds, t).cells,
        child(news, s).cells == child(olds, s).cells.insert(j, c),
        0 <= j <= child(olds, s).cells.len(),
    ensures
        kv_children(news, 0) == kv_children(olds, 0).insert(slot_offset(olds, s) + j, c),
{
    lemma_kv_update_child_from(olds, news, s, j, c, 0);
}

/// How `kv_children` changes when the routed child splits in two, its
/// combined cells being the old cells plus one insertion, and the
/// later children shift one slot to the right.
#[verifier::rlimit(60)]
#[verifier::spinoff_prover]
proof fn lemma_kv_split_child_from(
    olds: Seq<NodeV>,
    news: Seq<NodeV>,
    s: int,
    j: int,
    c: (u64, Seq<u8>),
    i: int,
)
    requires
        tree_wf(olds),
        root(olds).node_type == NodeType::Internal,
        0 <= s <= root(olds).keys.len(),
        root(news).node_type == NodeType::Internal,
        root(news).keys.len() == root(olds).keys.len() + 1,
        forall|t: int|
            0 <= t < s ==> child_at(root(news), t) == child_at(root(olds), t),
        forall|t: int|
            0 <= t < s ==> (#[trigger] child(news, t)).cells == child(olds, t).cells,
        child(news, s).cells + child(news, s + 1).cells == child(olds, s).cells.insert(j, c),
        forall|t: int|
            s + 2 <= t <= root(olds).keys.len() + 1 ==> (#[trigger] child(news, t)).cells == child(
                olds,
                t - 1,
            ).cells,
        0 <= j <= child(olds, s).cells.len(),
        0 <= i <= root(olds).keys.len(),
    ensures
        i <= s ==> kv_children(news, i) == kv_children(olds, i).insert(
            slot_offset(olds, s) - slot_offset(olds, i) + j,
            c,
        ),
        i > s ==> kv_children(news, i + 1) == kv_children(olds, i),
    decreases root(olds).keys.len() + 1 - i,
{
    let top = root(olds).keys.len() as int;
    lemma_kv_children_index(olds, i);
    if i == top {
        assert(kv_children(olds, i + 1) == Seq::<(u64, Seq<u8>)>::empty());
        assert(kv_children(news, i + 2) == Seq::<(u64, Seq<u8>)>::empty());
        assert(kv_children(olds, i) == child(olds, i).cells + kv_children(olds, i + 1));
        assert(kv_children(olds, i) =~= child(olds, i).cells);
        if i > s {
            assert(kv_children(news, i + 1) == child(news, i + 1).cells + kv_children(
                news,
                i + 2,
            ));
            assert(kv_children(news, i + 1) =~= child(news, i + 1).cells);
        } else {
            // i == s == top: the last two children of the new tree hold
            // the split halves.
            assert(kv_children(news, s + 1) == child(news, s + 1).cells + kv_children(
                news,
                s + 2,
            ));
            assert(kv_children(news, s + 1) =~= child(news, s + 1).cells);
            assert(kv_children(news, s) == child(news, s).cells + kv_children(news, s + 1));
            assert(kv_children(news, s) =~= child(news, s).cells + child(news, s + 1).cells);
            assert(kv_children(news, s) == child(olds, s).cells.insert(j, c));
        }
    } else {
        lemma_kv_split_child_from(olds, news, s, j, c, i + 1);
        assert(kv_children(olds, i) == child(olds, i).cells + kv_children(olds, i + 1));
        if i > s {
            assert(kv_children(news, i + 1) == child(news, i + 1).cells + kv_children(
                news,
                i + 2,
            ));
            assert(child(news, i + 1).cells == child(olds, i).cells);
        } else if i == s {
            assert(kv_children(news, s + 1) == child(news, s + 1).cells + kv_children(
                news,
                s + 2,
            ));
            assert(kv_children(news, s) == child(news, s).cells + kv_children(news, s + 1));
            assert(kv_children(news, s) =~= (child(news, s).cells + child(news, s + 1).cells)
                + kv_children(news, s + 2));
            assert(kv_children(news, s + 2) == kv_children(olds, s + 1));
            lemma_insert_concat_left(child(olds, s).cells, kv_children(olds, s + 1), j, c);
        } else {
            assert(kv_children(news, i) == child(news, i).cells + kv_children(news, i + 1));
            lemma_kv_children_index(olds, i + 1);
            lemma_insert_concat_right(
                child(olds, i).cells,
                kv_children(olds, i + 1),
                slot_offset(olds, s) - slot_offset(olds, i + 1) + j,
                c,
            );
        }
    }
}

/// Law of the leaf split: when the routed child splits into two halves
/// that together hold its cells plus one insertion, and the later
/// children keep their cells one slot over, the tree's rows change by
/// that one insertion.
pub proof fn lemma_kv_split_child(
    olds: Seq<NodeV>,
    news: Seq<NodeV>,
    s: int,
    j: int,
    c: (u64, Seq<u8>),
)
    requires
        tree_wf(olds),
        root(olds).node_type == NodeType::Internal,
        0 <= s <= root(olds).keys.len(),
        root(news).node_type == NodeType::Internal,
        root(news).keys.len() == root(olds).keys.len() + 1,
        forall|t: int|
            0 <= t < s ==> child_at(root(news), t) == child_at(root(olds), t),
        forall|t: int|
            0 <= t < s ==> (#[trigger] child(news, t)).cells == child(olds, t).cells,
        child(news, s).cells + child(news, s + 1).cells == child(olds, s).cells.insert(j, c),
        forall|t: int|
            s + 2 <= t <= root(olds).keys.len() + 1 ==> (#[trigger] child(news, t)).cells == child(
                olds,
                t - 1,
            ).cells,
        0 <= j <= child(olds, s).cells.len(),
    ensures
        kv_children(news, 0) == kv_children(olds, 0).insert(slot_offset(olds, s) + j, c),
{
    lemma_kv_split_child_from(olds, news, s, j, c, 0);
}

// ------------------------------------------------------------------
// What each insert path does to the tree.
/// A fresh key is absent from the leaf that routes it.
proof fn lemma_fresh_key_not_in_leaf(nodes: Seq<NodeV>, key: u64)
    requires
        tree_wf(nodes),
        root(nodes).node_type == NodeType::Internal,
        forall|i: int| 0 <= i < kv(nodes).len() ==> (#[trigger] kv(nodes)[i]).0 != key,
    ensures
        ({
            let s = target_slot(nodes, key);
            forall|i: int|
                0 <= i < child(nodes, s).cells.len() ==> (#[trigger] child(nodes, s).cells[i]).0
                    != key
        }),
{
    let s = target_slot(nodes, key);
    lemma_num_lt_sorted(internal_keys(root(nodes)), key);
    lemma_kv_children_index(nodes, 0);
    lemma_slot_offset_monotone(nodes, 0, s);
    lemma_slot_offset_monotone(nodes, s + 1, root(nodes).keys.len() + 1 as int);
    assert forall|i: int|
        0 <= i < child(nodes, s).cells.len() implies (#[trigger] child(nodes, s).cells[i]).0
        != key by {
        assert(kv_children(nodes, 0)[slot_offset(nodes, s) + i] == child(nodes, s).cells[i]);
        assert(slot_offset(nodes, s + 1) == slot_offset(nodes, s) + child(nodes, s).cells.len());
        assert(0 <= slot_offset(nodes, s) + i < kv(nodes).len());
    }
}

/// When the leaf that routes `key` is keyed (not the right child), the
/// insertion lands strictly inside it, so its largest key stays.
proof fn lemma_keyed_child_insert_inside(nodes: Seq<NodeV>, key: u64)
    requires
        tree_wf(nodes),
        root(nodes).node_type == NodeType::Internal,
        forall|i: int| 0 <= i < kv(nodes).len() ==> (#[trigger] kv(nodes)[i]).0 != key,
        target_slot(nodes, key) < root(nodes).keys.len(),
    ensures
        num_lt(leaf_keys(child(nodes, target_slot(nodes, key))), key) < child(
            nodes,
            target_slot(nodes, key),
        ).cells.len(),
{
    let s = target_slot(nodes, key);
    let c = child(nodes, s).cells;
    let lk = leaf_keys(child(nodes, s));
    lemma_num_lt_sorted(internal_keys(root(nodes)), key);
    lemma_fresh_key_not_in_leaf(nodes, key);
    lemma_num_lt_sorted(lk, key);
    assert(internal_keys(root(nodes))[s] == root(nodes).keys[s].0);
    assert(root(nodes).keys[s].0 == c.last().0);
    assert(lk[c.len() - 1] == c.last().0);
    // the routing key is at or above `key`, and differs from it, so the
    // last leaf key is strictly above `key`.
    assert(c.last().0 >= key);
    assert(c.last().0 != key);
    if num_lt(lk, key) == c.len() {
        assert(lk[c.len() - 1] < key);
    }
}

/// Law of the plain insert into a single root leaf.
pub proof fn lemma_insert_root_leaf(olds: Seq<NodeV>, news: Seq<NodeV>, key: u64, val: Seq<u8>)
    requires
        tree_wf(olds),
        root(olds).node_type == NodeType::Leaf,
        forall|i: int| 0 <= i < kv(olds).len() ==> (#[trigger] kv(olds)[i]).0 != key,
        key <= usize::MAX as u64,
        val.len() == crate::constant::ROW_SIZE,
        root(olds).cells.len() < crate::constant::LEAF_NODE_MAX_CELLS,
        news.len() == olds.len(),
        news[0] == (NodeV {
            cells: root(olds).cells.insert(num_lt(leaf_keys(root(olds)), key), (key, val)),
            ..root(olds)
        }),
    ensures
        tree_wf(news),
        kv(news) == kv_insert(kv(olds), key, val),
{
    let lk = leaf_keys(root(olds));
    let j = num_lt(lk, key);
    lemma_num_lt_sorted(lk, key);
    assert(forall|i: int| 0 <= i < lk.len() ==> (#[trigger] lk[i]) == root(olds).cells[i].0);
    assert forall|i: int| 0 <= i < lk.len() implies lk[i] != key by {
        assert(kv(olds)[i] == root(olds).cells[i]);
    }
    lemma_sorted_insert(lk, key);
    assert(leaf_keys(root(news)) =~= lk.insert(j, key));
    assert(sorted_strict(leaf_keys(root(news))));
    assert forall|i: int|
        0 <= i < news[0].cells.len() implies (#[trigger] news[0].cells[i]).1.len()
        == crate::constant::ROW_SIZE && (#[trigger] news[0].cells[i]).0 <= usize::MAX as u64 by {
        if i < j {
            assert(news[0].cells[i] == root(olds).cells[i]);
        } else if i == j {
        } else {
            assert(news[0].cells[i] == root(olds).cells[i - 1]);
        }
    }
    assert(tree_wf(news));
    lemma_root_leaf_position(olds, key);
    assert(kv(news) == kv_insert(kv(olds), key, val));
}

/// Law of the plain insert into a child leaf with room, under an
/// internal root.
pub proof fn lemma_insert_into_child(olds: Seq<NodeV>, news: Seq<NodeV>, key: u64, val: Seq<u8>)
    requires
        tree_wf(olds),
        root(olds).node_type == NodeType::Internal,
        forall|i: int| 0 <= i < kv(olds).len() ==> (#[trigger] kv(olds)[i]).0 != key,
        key <= usize::MAX as u64,
        val.len() == crate::constant::ROW_SIZE,
        child(olds, target_slot(olds, key)).cells.len() < crate::constant::LEAF_NODE_MAX_CELLS,
        news.len() == olds.len(),
        news[child_at(root(olds), target_slot(olds, key)) as int] == (NodeV {
            cells: child(olds, target_slot(olds, key)).cells.insert(
                num_lt(leaf_keys(child(olds, target_slot(olds, key))), key),
                (key, val),
            ),
            ..child(olds, target_slot(olds, key))
        }),
        forall|i: int|
            0 <= i < olds.len() && i != child_at(root(olds), target_slot(olds, key)) as int
                ==> news[i] == olds[i],
    ensures
        tree_wf(news),
        kv(news) == kv_insert(kv(olds), key, val),
{
    let s = target_slot(olds, key);
    let k = root(olds).keys.len() as int;
    lemma_num_lt_sorted(internal_keys(root(olds)), key);
    let p = child_at(root(olds), s) as int;
    let leafv = child(olds, s);
    let lk = leaf_keys(leafv);
    let j = num_lt(lk, key);
    lemma_num_lt_sorted(lk, key);
    assert(forall|i: int| 0 <= i < lk.len() ==> (#[trigger] lk[i]) == leafv.cells[i].0);
    lemma_fresh_key_not_in_leaf(olds, key);
    assert(forall|i: int| 0 <= i < lk.len() ==> lk[i] != key);
    lemma_sorted_insert(lk, key);
    assert(news[0] == olds[0]);
    assert(root(news) == root(olds));
    assert(forall|t: int|
        0 <= t <= k ==> #[trigger] child_at(root(news), t) == child_at(root(olds), t));
    assert forall|t: int| 0 <= t <= k && t != s implies (#[trigger] child(news, t)) == child(
        olds,
        t,
    ) by {
        assert(child_at(root(olds), t) != child_at(root(olds), s));
    }
    assert(child(news, s) == news[p]);
    let newleaf = news[p];
    assert(leaf_keys(newleaf) =~= lk.insert(j, key));
    assert(sorted_strict(leaf_keys(newleaf)));
    assert forall|i: int|
        0 <= i < newleaf.cells.len() implies (#[trigger] newleaf.cells[i]).1.len()
        == crate::constant::ROW_SIZE && (#[trigger] newleaf.cells[i]).0 <= usize::MAX as u64 by {
        if i < j {
            assert(newleaf.cells[i] == leafv.cells[i]);
        } else if i == j {
        } else {
            assert(newleaf.cells[i] == leafv.cells[i - 1]);
        }
    }
    assert(leaf_wf(newleaf));
    // the largest key of a keyed child stays put, and the smallest key
    // stays above the previous child's range.
    if s < k {
        lemma_keyed_child_insert_inside(olds, key);
        assert(newleaf.cells.last() == leafv.cells.last());
    }
    if s >= 1 {
        assert(internal_keys(root(olds))[s - 1] < key);
        assert(root(olds).keys[s - 1].0 == child(olds, s - 1).cells.last().0);
        if j == 0 {
            assert(newleaf.cells.first().0 == key);
        } else {
            assert(newleaf.cells.first() == leafv.cells.first());
        }
        assert(child(news, s - 1).cells.last().0 < newleaf.cells.first().0);
    }
    assert forall|i2: int, j2: int|
        0 <= i2 && j2 == i2 + 1 && j2 <= root(news).keys.len() implies child(
        news,
        i2,
    ).cells.last().0 < child(news, j2).cells.first().0 by {
        if j2 == s {
        } else if i2 == s {
            if s < k {
                assert(child(olds, i2).cells.last().0 < child(olds, j2).cells.first().0);
            }
        } else {
            assert(child(news, i2) == child(olds, i2));
            assert(child(news, j2) == child(olds, j2));
            assert(child(olds, i2).cells.last().0 < child(olds, j2).cells.first().0);
        }
    }
    assert(tree_wf(news));
    lemma_kv_update_child(olds, news, s, j, (key, val));
    lemma_target_slot(olds, key);
    assert(kv(news) == kv_insert(kv(olds), key, val));
}

/// Law of the root promotion: splitting a full root leaf yields a
/// two-leaf tree under a fresh internal root that holds the rows plus
/// the new one.
pub proof fn lemma_root_split(olds: Seq<NodeV>, news: Seq<NodeV>, key: u64, val: Seq<u8>)
    requires
        tree_wf(olds),
        root(olds).node_type == NodeType::Leaf,
        forall|i: int| 0 <= i < kv(olds).len() ==> (#[trigger] kv(olds)[i]).0 != key,
        key <= usize::MAX as u64,
        val.len() == crate::constant::ROW_SIZE,
        root(olds).cells.len() == crate::constant::LEAF_NODE_MAX_CELLS,
        news.len() == 3,
        ({
            let j = num_lt(leaf_keys(root(olds)), key);
            let c = (key, val);
            let lower = split_lower(root(olds).cells, j, c);
            let upper = split_upper(root(olds).cells, j, c);
            &&& news[0] == (NodeV {
                node_type: NodeType::Internal,
                is_root: true,
                parent: 0,
                cells: Seq::empty(),
                next_leaf: 0,
                keys: seq![(lower.last().0, 2u64)],
                right_child: 1,
            })
            &&& news[1] == (NodeV {
                node_type: NodeType::Leaf,
                is_root: false,
                parent: root(olds).parent,
                cells: upper,
                next_leaf: root(olds).next_leaf,
                keys: Seq::empty(),
                right_child: 0,
            })
            &&& news[2] == (NodeV {
                node_type: NodeType::Leaf,
                is_root: false,
                parent: 0,
                cells: lower,
                next_leaf: 1,
                keys: Seq::empty(),
                right_child: 0,
            })
        }),
    ensures
        tree_wf(news),
        kv(news) == kv_insert(kv(olds), key, val),
{
    let cells = root(olds).cells;
    let lk = leaf_keys(root(olds));
    let j = num_lt(lk, key);
    let c = (key, val);
    let lower = split_lower(cells, j, c);
    let upper = split_upper(cells, j, c);
    lemma_num_lt_sorted(lk, key);
    assert(forall|i: int| 0 <= i < lk.len() ==> (#[trigger] lk[i]) == cells[i].0);
    assert forall|i: int| 0 <= i < lk.len() implies lk[i] != key by {
        assert(kv(olds)[i] == cells[i]);
    }
    assert forall|i: int| 0 <= i < cells.len() implies (#[trigger] cells[i]).0 != key by {
        assert(lk[i] == cells[i].0);
    }
    lemma_split_leaf(cells, j, c);
    let combined = cells.insert(j, c);
    // every cell of either half is an old cell or the new one.
    assert forall|i: int|
        0 <= i < combined.len() implies (#[trigger] combined[i]).1.len()
        == crate::constant::ROW_SIZE && (#[trigger] combined[i]).0 <= usize::MAX as u64 by {
        if i < j {
            assert(combined[i] == cells[i]);
        } else if i == j {
        } else {
            assert(combined[i] == cells[i - 1]);
        }
    }
    let ll = lower.len() as int;
    assert(lower =~= combined.take(ll));
    assert(upper =~= combined.skip(ll));
    assert(forall|i: int| 0 <= i < lower.len() ==> (#[trigger] lower[i]) == combined[i]);
    assert(forall|i: int| 0 <= i < upper.len() ==> (#[trigger] upper[i]) == combined[ll + i]);
    // the shape of the new tree, slot by slot.
    assert(root(news) == news[0]);
    assert(child_at(root(news), 0) == 2);
    assert(child_at(root(news), 1) == 1);
    assert(child(news, 0) == news[2]);
    assert(child(news, 1) == news[1]);
    assert(leaf_keys(news[2]) =~= keys_of(lower));
    assert(leaf_keys(news[1]) =~= keys_of(upper));
    assert(internal_keys(root(news)) =~= seq![lower.last().0]);
    assert(leaf_wf(news[2]));
    assert(leaf_wf(news[1]));
    assert(upper.last() == upper[upper.len() - 1]);
    assert(lower.last() == lower[ll - 1]);
    assert(upper.first() == upper[0]);
    assert(lower.first() == lower[0]);
    assert(tree_wf(news));
    // the rows: lower then upper, which is the old rows plus the new.
    assert(kv_children(news, 2) == Seq::<(u64, Seq<u8>)>::empty());
    assert(kv_children(news, 1) == child(news, 1).cells + kv_children(news, 2));
    assert(kv_children(news, 0) == child(news, 0).cells + kv_children(news, 1));
    assert(kv(news) =~= lower + upper);
    lemma_root_leaf_position(olds, key);
    assert(kv(news) == kv_insert(kv(olds), key, val));
}

/// Facts needed while a child split is in flight: where the routing
/// key of the split leaf sits, that the halves are non-empty, and that
/// the parent's keys stay sorted once that routing key is lowered to
/// the lower half's largest key.
pub proof fn lemma_child_split_setup(olds: Seq<NodeV>, key: u64, val: Seq<u8>)
    requires
        tree_wf(olds),
        root(olds).node_type == NodeType::Internal,
        forall|i: int| 0 <= i < kv(olds).len() ==> (#[trigger] kv(olds)[i]).0 != key,
        child(olds, target_slot(olds, key)).cells.len() == crate::constant::LEAF_NODE_MAX_CELLS,
    ensures
        ({
            let s = target_slot(olds, key);
            let kk = root(olds).keys.len() as int;
            let p = child_at(root(olds), s) as int;
            let L = child(olds, s);
            let j = num_lt(leaf_keys(L), key);
            let c = (key, val);
            let lower = split_lower(L.cells, j, c);
            let upper = split_upper(L.cells, j, c);
            let keys2 = if s < kk {
                root(olds).keys.update(s, (lower.last().0, root(olds).keys[s].1))
            } else {
                root(olds).keys
            };
            &&& 0 <= s <= kk
            &&& 1 <= p < olds.len()
            &&& 0 <= j <= L.cells.len()
            &&& 1 <= lower.len() <= crate::constant::LEAF_NODE_MAX_CELLS
            &&& 1 <= upper.len() <= crate::constant::LEAF_NODE_MAX_CELLS
            &&& spec_child_index(root(olds), L.cells.last().0) == s
            &&& sorted_strict(Seq::new(keys2.len(), |i: int| keys2[i].0))
            &&& ((root(olds).right_child == p as u64) <==> (s == kk))
            &&& 1 <= root(olds).right_child < olds.len()
            &&& (s == kk ==> upper.last().0 > lower.last().0)
            &&& (s < kk ==> upper.last().0 == L.cells.last().0 && child(olds, kk).cells.last().0
                > upper.last().0)
            &&& (s < kk ==> spec_child_index(
                NodeV { keys: keys2, ..root(olds) },
                upper.last().0,
            ) == s + 1)
            &&& lower.last().0 < upper.first().0
        }),
{
    let s = target_slot(olds, key);
    let kk = root(olds).keys.len() as int;
    let ik = internal_keys(root(olds));
    lemma_num_lt_sorted(ik, key);
    assert(forall|i: int| 0 <= i < ik.len() ==> (#[trigger] ik[i]) == root(olds).keys[i].0);
    let p = child_at(root(olds), s) as int;
    let L = child(olds, s);
    let lk = leaf_keys(L);
    let j = num_lt(lk, key);
    lemma_num_lt_sorted(lk, key);
    assert(forall|i: int| 0 <= i < lk.len() ==> (#[trigger] lk[i]) == L.cells[i].0);
    lemma_fresh_key_not_in_leaf(olds, key);
    assert(forall|i: int| 0 <= i < L.cells.len() ==> (#[trigger] L.cells[i]).0 != key);
    let c = (key, val);
    lemma_split_leaf(L.cells, j, c);
    let lower = split_lower(L.cells, j, c);
    let upper = split_upper(L.cells, j, c);
    // the split leaf's largest key routes to its own slot.
    let old_max = L.cells.last().0;
    assert(lk[L.cells.len() - 1] == old_max);
    if s < kk {
        assert(ik[s] == old_max);
        lemma_num_lt_sorted(ik, old_max);
        let n = num_lt(ik, old_max);
        if n < s {
            assert(ik[n] >= old_max);
            assert(ik[n] < ik[s]);
        }
        if n > s {
            assert(ik[s] < old_max);
        }
        lemma_keyed_child_insert_inside(olds, key);
        assert(upper.last().0 == old_max);
        // the right child's keys sit above every routing key.
        lemma_routing_bounds(olds, kk);
        assert(child(olds, kk).cells.len() >= 1);
        assert(child(olds, kk).cells[child(olds, kk).cells.len() - 1].0 > root(
            olds,
        ).keys.last().0);
        assert(root(olds).keys.last().0 == ik[kk - 1]);
        assert(ik[s] <= ik[kk - 1]);
    } else {
        // all routing keys lie below the right child's keys.
        lemma_routing_bounds(olds, kk);
        assert(child(olds, kk).cells[child(olds, kk).cells.len() - 1].0 > root(
            olds,
        ).keys.last().0);
        assert forall|i: int| 0 <= i < ik.len() implies ik[i] < old_max by {
            assert(ik[i] <= ik[kk - 1]);
            assert(root(olds).keys.last().0 == ik[kk - 1]);
            assert(child(olds, kk).cells[child(olds, kk).cells.len() - 1].0 == old_max);
        }
        lemma_num_lt_all(ik, old_max);
        assert(upper.last() == upper[upper.len() - 1]);
        assert(upper.first() == upper[0]);
        if upper.len() > 1 {
            assert(keys_of(upper)[0] < keys_of(upper)[upper.len() - 1]);
        }
    }
    // distinct child pages: the right child is the split leaf exactly
    // when the split leaf is the right child.
    if s < kk {
        assert(child_at(root(olds), s) != child_at(root(olds), kk));
    }
    assert(1 <= child_at(root(olds), kk) < olds.len());
    // the lowered routing key keeps the parent's keys sorted.
    let keys2 = if s < kk {
        root(olds).keys.update(s, (lower.last().0, root(olds).keys[s].1))
    } else {
        root(olds).keys
    };
    let ik2 = Seq::new(keys2.len(), |i: int| keys2[i].0);
    if s < kk {
        assert(lower.last().0 < upper.first().0);
        assert(upper.first() == upper[0]);
        assert(upper.last() == upper[upper.len() - 1]);
        if upper.len() > 1 {
            assert(keys_of(upper)[0] < keys_of(upper)[upper.len() - 1]);
            assert(keys_of(upper)[0] == upper[0].0);
            assert(keys_of(upper)[upper.len() - 1] == upper[upper.len() - 1].0);
        }
        assert(upper.first().0 <= upper.last().0);
        assert(upper.last().0 == root(olds).keys[s].0);
        if s >= 1 {
            assert(ik[s - 1] == child(olds, s - 1).cells.last().0);
            assert(child(olds, s - 1).cells.last().0 < child(olds, s).cells.first().0);
            assert(lower.first() == lower[0]);
            if j == 0 {
                assert(ik[s - 1] < key);
                assert(lower.first().0 == key);
            } else {
                assert(lower.first().0 == L.cells.first().0);
            }
            assert(lower.last() == lower[lower.len() - 1]);
            if lower.len() > 1 {
                assert(keys_of(lower)[0] < keys_of(lower)[lower.len() - 1]);
                assert(keys_of(lower)[0] == lower[0].0);
                assert(keys_of(lower)[lower.len() - 1] == lower[lower.len() - 1].0);
            }
            assert(lower.first().0 <= lower.last().0);
            assert(ik[s - 1] < lower.last().0);
        }
        assert forall|a: int, b: int| 0 <= a < b < ik2.len() implies ik2[a] < ik2[b] by {
            if a != s && b != s {
                assert(ik2[a] == ik[a]);
                assert(ik2[b] == ik[b]);
            } else if a == s {
                assert(ik2[b] == ik[b]);
                assert(ik2[a] == lower.last().0);
                assert(ik[s] < ik[b]);
            } else {
                assert(ik2[a] == ik[a]);
                assert(ik2[b] == lower.last().0);
                assert(ik[a] <= ik[s - 1]);
            }
        }
        // in the lowered parent the old maximum routes one slot right.
        let root2 = NodeV { keys: keys2, ..root(olds) };
        let old_max2 = upper.last().0;
        assert(internal_keys(root2) =~= ik2);
        lemma_num_lt_sorted(ik2, old_max2);
        let n2 = num_lt(ik2, old_max2);
        assert(ik2[s] == lower.last().0);
        assert(lower.last().0 < old_max2);
        assert forall|i: int| 0 <= i <= s implies ik2[i] < old_max2 by {
            if i < s {
                assert(ik2[i] == ik[i]);
                assert(ik[i] < ik[s]);
                assert(ik[s] == old_max2);
            }
        }
        assert forall|i: int| s + 1 <= i < ik2.len() implies ik2[i] >= old_max2 by {
            assert(ik2[i] == ik[i]);
            assert(ik[s] < ik[i]);
            assert(ik[s] == old_max2);
        }
        if n2 < s + 1 {
            assert(ik2[n2] >= old_max2);
            assert(ik2[n2] < old_max2);
        }
        if n2 > s + 1 {
            assert(ik2[s + 1] < old_max2);
            assert(ik2[s + 1] >= old_max2);
        }
    } else {
        assert(ik2 =~= ik);
    }
}

/// Law of a right-child split: when the right child overflows, it
/// splits, its lower half becomes the last keyed child and the fresh
/// upper half the new right child; the rows gain the new one.
#[verifier::rlimit(100)]
#[verifier::spinoff_prover]
pub proof fn lemma_child_split_right(olds: Seq<NodeV>, news: Seq<NodeV>, key: u64, val: Seq<u8>)
    requires
        tree_wf(olds),
        root(olds).node_type == NodeType::Internal,
        forall|i: int| 0 <= i < kv(olds).len() ==> (#[trigger] kv(olds)[i]).0 != key,
        key <= usize::MAX as u64,
        val.len() == crate::constant::ROW_SIZE,
        target_slot(olds, key) == root(olds).keys.len(),
        child(olds, target_slot(olds, key)).cells.len() == crate::constant::LEAF_NODE_MAX_CELLS,
        root(olds).keys.len() < crate::constant::INTERNAL_NODE_MAX_CELLS,
        news.len() == olds.len() + 1,
        ({
            let s = target_slot(olds, key);
            let p = child_at(root(olds), s) as int;
            let L = child(olds, s);
            let j = num_lt(leaf_keys(L), key);
            let c = (key, val);
            let lower = split_lower(L.cells, j, c);
            let upper = split_upper(L.cells, j, c);
            let np = olds.len() as int;
            &&& news[p] == (NodeV { cells: lower, next_leaf: np as u64, ..L })
            &&& news[np] == (NodeV {
                node_type: NodeType::Leaf,
                is_root: false,
                parent: L.parent,
                cells: upper,
                next_leaf: L.next_leaf,
                keys: Seq::empty(),
                right_child: 0,
            })
            &&& news[0] == (NodeV {
                keys: root(olds).keys.push((lower.last().0, p as u64)),
                right_child: np as u64,
                ..root(olds)
            })
            &&& forall|i: int| 1 <= i < olds.len() && i != p ==> news[i] == olds[i]
        }),
    ensures
        tree_wf(news),
        kv(news) == kv_insert(kv(olds), key, val),
{
    let s = target_slot(olds, key);
    let kk = root(olds).keys.len() as int;
    let p = child_at(root(olds), s) as int;
    let L = child(olds, s);
    let lk = leaf_keys(L);
    let j = num_lt(lk, key);
    let c = (key, val);
    let lower = split_lower(L.cells, j, c);
    let upper = split_upper(L.cells, j, c);
    let np = olds.len() as int;
    let ik = internal_keys(root(olds));
    lemma_num_lt_sorted(ik, key);
    assert(forall|i: int| 0 <= i < ik.len() ==> (#[trigger] ik[i]) == root(olds).keys[i].0);
    lemma_num_lt_sorted(lk, key);
    assert(forall|i: int| 0 <= i < lk.len() ==> (#[trigger] lk[i]) == L.cells[i].0);
    lemma_fresh_key_not_in_leaf(olds, key);
    assert(forall|i: int| 0 <= i < L.cells.len() ==> (#[trigger] L.cells[i]).0 != key);
    lemma_child_split_setup(olds, key, val);
    lemma_split_leaf(L.cells, j, c);
    let combined = L.cells.insert(j, c);
    assert forall|i: int|
        0 <= i < combined.len() implies (#[trigger] combined[i]).1.len()
        == crate::constant::ROW_SIZE && (#[trigger] combined[i]).0 <= usize::MAX as u64
        && combined[i].0 > ik[kk - 1] by {
        lemma_routing_bounds(olds, kk);
        if i < j {
            assert(combined[i] == L.cells[i]);
        } else if i == j {
            assert(ik[kk - 1] < key);
        } else {
            assert(combined[i] == L.cells[i - 1]);
        }
    }
    let ll = lower.len() as int;
    assert(lower =~= combined.take(ll));
    assert(upper =~= combined.skip(ll));
    assert(forall|i: int| 0 <= i < lower.len() ==> (#[trigger] lower[i]) == combined[i]);
    assert(forall|i: int| 0 <= i < upper.len() ==> (#[trigger] upper[i]) == combined[ll + i]);
    // the new root's keys and children, slot by slot.
    let keys3 = root(olds).keys.push((lower.last().0, p as u64));
    assert(root(news).keys == keys3);
    assert(root(news).keys.len() == kk + 1);
    assert(internal_keys(root(news)) =~= ik.push(lower.last().0));
    assert forall|t: int| 0 <= t < kk implies #[trigger] child_at(root(news), t) == child_at(
        root(olds),
        t,
    ) by {
        assert(keys3[t] == root(olds).keys[t]);
    }
    assert(child_at(root(news), kk) == p as u64);
    assert(child_at(root(news), kk + 1) == np as u64);
    assert forall|t: int| 0 <= t < kk implies (#[trigger] child(news, t)) == child(olds, t) by {
        assert(child_at(root(olds), t) != child_at(root(olds), s));
        assert(1 <= child_at(root(olds), t) < olds.len());
    }
    assert(child(news, kk) == news[p]);
    assert(child(news, kk + 1) == news[np]);
    // sortedness of the grown key list.
    assert(lower.last() == lower[ll - 1]);
    assert(lower.last().0 > ik[kk - 1]);
    assert forall|a: int, b: int|
        0 <= a < b < internal_keys(root(news)).len() implies internal_keys(root(news))[a]
        < internal_keys(root(news))[b] by {
        if b < kk {
            assert(internal_keys(root(news))[a] == ik[a]);
            assert(internal_keys(root(news))[b] == ik[b]);
        } else {
            assert(internal_keys(root(news))[b] == lower.last().0);
            assert(internal_keys(root(news))[a] == ik[a]);
            assert(ik[a] <= ik[kk - 1]);
        }
    }
    // well-formed leaves in every slot.
    assert(leaf_keys(news[p]) =~= keys_of(lower));
    assert(leaf_keys(news[np]) =~= keys_of(upper));
    assert(leaf_wf(news[p]));
    assert(leaf_wf(news[np]));
    // separation and the chain across consecutive slots.
    assert(upper.first() == upper[0]);
    assert(upper.last() == upper[upper.len() - 1]);
    assert(lower.first() == lower[0]);
    assert forall|i2: int, j2: int|
        0 <= i2 && j2 == i2 + 1 && j2 <= kk + 1 implies child(news, i2).cells.last().0 < child(
        news,
        j2,
    ).cells.first().0 by {
        if j2 < kk {
            assert(child(news, i2) == child(olds, i2));
            assert(child(news, j2) == child(olds, j2));
            assert(child(olds, i2).cells.last().0 < child(olds, j2).cells.first().0);
        } else if j2 == kk {
            assert(child(news, i2) == child(olds, i2));
            assert(child(olds, i2).cells.last().0 < child(olds, j2).cells.first().0);
            assert(child(olds, kk) == olds[p]);
            if j == 0 {
                assert(lower.first().0 == key);
                assert(ik[kk - 1] < key);
                assert(child(olds, i2).cells.last().0 == root(olds).keys[i2].0);
            } else {
                assert(lower.first().0 == L.cells.first().0);
            }
        } else {
            assert(child(news, i2).cells.last().0 == lower.last().0);
            assert(child(news, j2).cells.first().0 == upper.first().0);
        }
    }
    assert forall|i2: int, j2: int|
        #![trigger child(news, i2), child_at(root(news), j2)]
        0 <= i2 && j2 == i2 + 1 && j2 <= kk + 1 implies child(news, i2).next_leaf == child_at(
        root(news),
        j2,
    ) by {
        if j2 < kk {
            assert(child(news, i2) == child(olds, i2));
            assert(child(olds, i2).next_leaf == child_at(root(olds), j2));
        } else if j2 == kk {
            assert(child(news, i2) == child(olds, i2));
            assert(child(olds, i2).next_leaf == child_at(root(olds), kk));
        } else {
            assert(child(news, i2) == news[p]);
        }
    }
    assert(child(news, kk + 1).next_leaf == L.next_leaf);
    assert(child(olds, kk).next_leaf == 0);
    assert(tree_wf(news));
    // the rows change by one insertion at the split leaf's position.
    lemma_kv_split_child(olds, news, s, j, c);
    lemma_target_slot(olds, key);
    assert(kv(news) == kv_insert(kv(olds), key, val));
}

/// Law of a keyed-child split: when a keyed child overflows, it splits;
/// its routing key drops to the lower half's largest key and the upper
/// half is routed in one slot to the right; the rows gain the new one.
#[verifier::rlimit(100)]
#[verifier::spinoff_prover]
pub proof fn lemma_child_split_keyed(olds: Seq<NodeV>, news: Seq<NodeV>, key: u64, val: Seq<u8>)
    requires
        tree_wf(olds),
        root(olds).node_type == NodeType::Internal,
        forall|i: int| 0 <= i < kv(olds).len() ==> (#[trigger] kv(olds)[i]).0 != key,
        key <= usize::MAX as u64,
        val.len() == crate::constant::ROW_SIZE,
        target_slot(olds, key) < root(olds).keys.len(),
        child(olds, target_slot(olds, key)).cells.len() == crate::constant::LEAF_NODE_MAX_CELLS,
        root(olds).keys.len() < crate::constant::INTERNAL_NODE_MAX_CELLS,
        news.len() == olds.len() + 1,
        ({
            let s = target_slot(olds, key);
            let p = child_at(root(olds), s) as int;
            let L = child(olds, s);
            let j = num_lt(leaf_keys(L), key);
            let c = (key, val);
            let lower = split_lower(L.cells, j, c);
            let upper = split_upper(L.cells, j, c);
            let np = olds.len() as int;
            let keys2 = root(olds).keys.update(s, (lower.last().0, root(olds).keys[s].1));
            &&& news[p] == (NodeV { cells: lower, next_leaf: np as u64, ..L })
            &&& news[np] == (NodeV {
                node_type: NodeType::Leaf,
                is_root: false,
                parent: L.parent,
                cells: upper,
                next_leaf: L.next_leaf,
                keys: Seq::empty(),
                right_child: 0,
            })
            &&& news[0] == (NodeV {
                keys: keys2.insert(s + 1, (upper.last().0, np as u64)),
                ..root(olds)
            })
            &&& forall|i: int| 1 <= i < olds.len() && i != p ==> news[i] == olds[i]
        }),
    ensures
        tree_wf(news),
        kv(news) == kv_insert(kv(olds), key, val),
{
    let s = target_slot(olds, key);
    let kk = root(olds).keys.len() as int;
    let p = child_at(root(olds), s) as int;
    let L = child(olds, s);
    let lk = leaf_keys(L);
    let j = num_lt(lk, key);
    let c = (key, val);
    let lower = split_lower(L.cells, j, c);
    let upper = split_upper(L.cells, j, c);
    let np = olds.len() as int;
    let ik = internal_keys(root(olds));
    lemma_num_lt_sorted(ik, key);
    assert(forall|i: int| 0 <= i < ik.len() ==> (#[trigger] ik[i]) == root(olds).keys[i].0);
    lemma_num_lt_sorted(lk, key);
    assert(forall|i: int| 0 <= i < lk.len() ==> (#[trigger] lk[i]) == L.cells[i].0);
    lemma_fresh_key_not_in_leaf(olds, key);
    assert(forall|i: int| 0 <= i < L.cells.len() ==> (#[trigger] L.cells[i]).0 != key);
    lemma_child_split_setup(olds, key, val);
    lemma_split_leaf(L.cells, j, c);
    let combined = L.cells.insert(j, c);
    assert forall|i: int|
        0 <= i < combined.len() implies (#[trigger] combined[i]).1.len()
        == crate::constant::ROW_SIZE && (#[trigger] combined[i]).0 <= usize::MAX as u64 by {
        if i < j {
            assert(combined[i] == L.cells[i]);
        } else if i == j {
        } else {
            assert(combined[i] == L.cells[i - 1]);
        }
    }
    let ll = lower.len() as int;
    assert(lower =~= combined.take(ll));
    assert(upper =~= combined.skip(ll));
    assert(forall|i: int| 0 <= i < lower.len() ==> (#[trigger] lower[i]) == combined[i]);
    assert(forall|i: int| 0 <= i < upper.len() ==> (#[trigger] upper[i]) == combined[ll + i]);
    assert(lower.first() == lower[0]);
    assert(lower.last() == lower[ll - 1]);
    assert(upper.first() == upper[0]);
    assert(upper.last() == upper[upper.len() - 1]);
    // the new root's keys and children, slot by slot.
    let keys2 = root(olds).keys.update(s, (lower.last().0, root(olds).keys[s].1));
    let keys3 = keys2.insert(s + 1, (upper.last().0, np as u64));
    let ik2 = Seq::new(keys2.len(), |i: int| keys2[i].0);
    assert(root(news).keys == keys3);
    assert(root(news).keys.len() == kk + 1);
    assert(internal_keys(root(news)) =~= ik2.insert(s + 1, upper.last().0));
    assert forall|t: int| 0 <= t < s implies #[trigger] child_at(root(news), t) == child_at(
        root(olds),
        t,
    ) by {
        assert(keys3[t] == root(olds).keys[t]);
    }
    assert(keys3[s] == keys2[s]);
    assert(child_at(root(news), s) == p as u64);
    assert(child_at(root(news), s + 1) == np as u64);
    assert forall|t: int|
        s + 2 <= t <= kk implies #[trigger] child_at(root(news), t) == child_at(
        root(olds),
        t - 1,
    ) by {
        assert(keys3[t] == keys2[t - 1]);
        assert(keys2[t - 1] == root(olds).keys[t - 1]);
    }
    assert(child_at(root(news), kk + 1) == child_at(root(olds), kk));
    assert forall|t: int|
        0 <= t <= kk + 1 && t != s && t != s + 1 implies (#[trigger] child(news, t)) == child(
        olds,
        (if t < s {
            t
        } else {
            t - 1
        }),
    ) by {
        let t0 = if t < s {
            t
        } else {
            t - 1
        };
        assert(child_at(root(news), t) == child_at(root(olds), t0));
        assert(child_at(root(olds), t0) != child_at(root(olds), s));
        assert(1 <= child_at(root(olds), t0) < olds.len());
    }
    assert(child(news, s) == news[p]);
    assert(child(news, s + 1) == news[np]);
    // sortedness of the grown key list.
    assert(sorted_strict(ik2));
    assert(ik2[s] == lower.last().0);
    if upper.len() > 1 {
        assert(keys_of(upper)[0] < keys_of(upper)[upper.len() - 1]);
        assert(keys_of(upper)[0] == upper[0].0);
        assert(keys_of(upper)[upper.len() - 1] == upper[upper.len() - 1].0);
    }
    assert(upper.first().0 <= upper.last().0);
    assert(lower.last().0 < upper.last().0);
    assert(upper.last().0 == ik[s]);
    assert forall|a: int, b: int|
        0 <= a < b < internal_keys(root(news)).len() implies internal_keys(root(news))[a]
        < internal_keys(root(news))[b] by {
        let ik3 = internal_keys(root(news));
        assert(ik3 =~= ik2.insert(s + 1, upper.last().0));
        if a < s + 1 {
            assert(ik3[a] == ik2[a]);
        } else if a == s + 1 {
            assert(ik3[a] == upper.last().0);
        } else {
            assert(ik3[a] == ik2[a - 1]);
        }
        if b < s + 1 {
            assert(ik3[b] == ik2[b]);
        } else if b == s + 1 {
            assert(ik3[b] == upper.last().0);
        } else {
            assert(ik3[b] == ik2[b - 1]);
        }
        if a <= s && b == s + 1 {
            if a < s {
                assert(ik2[a] == ik[a]);
                assert(ik[a] < ik[s]);
            } else {
                assert(ik2[s] == lower.last().0);
            }
        }
        if a == s + 1 && b > s + 1 {
            assert(ik2[b - 1] == ik[b - 1]);
            assert(ik[s] < ik[b - 1]);
        }
    }
    // well-formed leaves in every slot.
    assert(leaf_keys(news[p]) =~= keys_of(lower));
    assert(leaf_keys(news[np]) =~= keys_of(upper));
    assert(leaf_wf(news[p]));
    assert(leaf_wf(news[np]));
    // routing keys match their children's largest keys.
    assert forall|t: int| 0 <= t < kk + 1 implies (#[trigger] root(news).keys[t]).0 == child(
        news,
        t,
    ).cells.last().0 by {
        if t < s {
            assert(root(news).keys[t] == root(olds).keys[t]);
            assert(child(news, t) == child(olds, t));
        } else if t == s {
            assert(root(news).keys[s].0 == lower.last().0);
        } else if t == s + 1 {
            assert(root(news).keys[t].0 == upper.last().0);
        } else {
            assert(root(news).keys[t] == root(olds).keys[t - 1]);
            assert(child(news, t) == child(olds, t - 1));
        }
    }
    // separation and the chain across consecutive slots.
    assert forall|i2: int, j2: int|
        0 <= i2 && j2 == i2 + 1 && j2 <= kk + 1 implies child(news, i2).cells.last().0 < child(
        news,
        j2,
    ).cells.first().0 by {
        if j2 < s {
            assert(child(news, i2) == child(olds, i2));
            assert(child(news, j2) == child(olds, j2));
            assert(child(olds, i2).cells.last().0 < child(olds, j2).cells.first().0);
        } else if j2 == s {
            assert(child(news, i2) == child(olds, i2));
            assert(child(olds, i2).cells.last().0 < child(olds, s).cells.first().0);
            if j == 0 {
                assert(lower.first().0 == key);
                assert(ik[s - 1] < key);
                assert(child(olds, i2).cells.last().0 == root(olds).keys[i2].0);
            } else {
                assert(lower.first().0 == L.cells.first().0);
            }
        } else if j2 == s + 1 {
        } else if j2 == s + 2 {
            assert(child(news, j2) == child(olds, s + 1));
            assert(child(news, i2).cells.last().0 == upper.last().0);
            assert(upper.last().0 == child(olds, s).cells.last().0);
            assert(child(olds, s).cells.last().0 < child(olds, s + 1).cells.first().0);
        } else {
            assert(child(news, i2) == child(olds, i2 - 1));
            assert(child(news, j2) == child(olds, j2 - 1));
            assert(child(olds, i2 - 1).cells.last().0 < child(olds, j2 - 1).cells.first().0);
        }
    }
    assert forall|i2: int, j2: int|
        #![trigger child(news, i2), child_at(root(news), j2)]
        0 <= i2 && j2 == i2 + 1 && j2 <= kk + 1 implies child(news, i2).next_leaf == child_at(
        root(news),
        j2,
    ) by {
        if j2 < s {
            assert(child(news, i2) == child(olds, i2));
            assert(child(olds, i2).next_leaf == child_at(root(olds), j2));
        } else if j2 == s {
            assert(child(news, i2) == child(olds, i2));
            assert(child(olds, i2).next_leaf == child_at(root(olds), s));
        } else if j2 == s + 1 {
            assert(child(news, i2) == news[p]);
        } else if j2 == s + 2 {
            assert(child(news, i2) == news[np]);
            assert(child(olds, s).next_leaf == child_at(root(olds), s + 1));
            assert(child_at(root(news), j2) == child_at(root(olds), s + 1));
        } else {
            assert(child(news, i2) == child(olds, i2 - 1));
            assert(child(olds, i2 - 1).next_leaf == child_at(root(olds), j2 - 1));
        }
    }
    assert(child(news, kk + 1) == child(olds, kk));
    assert(child(olds, kk).next_leaf == 0);
    assert(tree_wf(news));
    // the rows change by one insertion at the split leaf's position.
    lemma_kv_split_child(olds, news, s, j, c);
    lemma_target_slot(olds, key);
    assert(kv(news) == kv_insert(kv(olds), key, val));
}

/// Law: every key under a keyed child stays at or below its routing
/// key, and every key under the right child lies strictly above the
/// last routing key.
pub proof fn lemma_routing_bounds(nodes: Seq<NodeV>, i: int)
    requires
        tree_wf(nodes),
        root(nodes).node_type == NodeType::Internal,
        0 <= i <= root(nodes).keys.len(),
    ensures
        i < root(nodes).keys.len() ==> forall|j: int|
            0 <= j < child(nodes, i).cells.len() ==> (#[trigger] child(nodes, i).cells[j]).0
                <= root(nodes).keys[i].0,
        i == root(nodes).keys.len() ==> forall|j: int|
            0 <= j < child(nodes, i).cells.len() ==> (#[trigger] child(nodes, i).cells[j]).0
                > root(nodes).keys.last().0,
{
    let c = child(nodes, i).cells;
    assert(leaf_wf(child(nodes, i)));
    if i < root(nodes).keys.len() {
        assert forall|j: int| 0 <= j < c.len() implies (#[trigger] c[j]).0 <= root(
            nodes,
        ).keys[i].0 by {
            if j < c.len() - 1 {
                assert(leaf_keys(child(nodes, i))[j] < leaf_keys(child(nodes, i))[c.len() - 1]);
            }
        }
    } else {
        let k = root(nodes).keys.len() - 1;
        assert(root(nodes).keys.last().0 == child(nodes, k).cells.last().0);
        assert(child(nodes, k).cells.last().0 < c.first().0);
        assert forall|j: int| 0 <= j < c.len() implies (#[trigger] c[j]).0 > root(
            nodes,
        ).keys.last().0 by {
            if j > 0 {
                assert(leaf_keys(child(nodes, i))[0] < leaf_keys(child(nodes, i))[j]);
            }
        }
    }
}

} // verus!
