//! The byte format of one page, as a specification.
//!
//! A page is `PAGE_SIZE` bytes: a node-type byte, an is-root byte, the
//! parent page word, then the variant's fields — for a leaf the cell
//! count, the next-leaf word and the cells; for an internal node the key
//! count, the right-child word and the key/child pairs — and zero
//! padding to the end of the page.

use vstd::prelude::*;
use vstd::bytes::{spec_u64_from_le_bytes, spec_u64_to_le_bytes};

use crate::bytes_util::zero_pad;
use crate::constant::{
    CELL_SIZE, CELLS_COUNT_OFFSET, INTERNAL_CELL_SIZE, INTERNAL_NODE_MAX_CELLS, KEY_COUNT_OFFSET,
    KEY_VALUE_OFFSET, LEAF_NEXT_LEAF_OFFSET, LEAF_NODE_CELLS_OFFSET, LEAF_NODE_MAX_CELLS,
    PAGE_SIZE, RIGHT_CHILD_OFFSET, ROW_SIZE,
};
use crate::node::{NodeType, NodeV};

verus! {

pub open spec fn type_byte(t: NodeType) -> u8 {
    if t == NodeType::Leaf {
        0u8
    } else {
        1u8
    }
}

pub open spec fn bool_byte(b: bool) -> u8 {
    if b {
        1u8
    } else {
        0u8
    }
}

pub open spec fn fits_usize(x: u64) -> bool {
    x <= usize::MAX as u64
}

/// The common header: node type, is-root flag, parent page word.
pub open spec fn common_bytes(v: NodeV) -> Seq<u8> {
    seq![type_byte(v.node_type), bool_byte(v.is_root)] + spec_u64_to_le_bytes(v.parent)
}

/// One leaf cell on disk: the key word followed by the row image.
pub open spec fn cell_bytes(c: (u64, Seq<u8>)) -> Seq<u8> {
    spec_u64_to_le_bytes(c.0) + c.1
}

pub open spec fn cells_bytes(cells: Seq<(u64, Seq<u8>)>) -> Seq<u8>
    decreases cells.len(),
{
    if cells.len() == 0 {
        Seq::empty()
    } else {
        cells_bytes(cells.drop_last()) + cell_bytes(cells.last())
    }
}

/// One internal pair on disk: the routing key word, then the child page word.
pub open spec fn pair_bytes(p: (u64, u64)) -> Seq<u8> {
    spec_u64_to_le_bytes(p.0) + spec_u64_to_le_bytes(p.1)
}

pub open spec fn pairs_bytes(keys: Seq<(u64, u64)>) -> Seq<u8>
    decreases keys.len(),
{
    if keys.len() == 0 {
        Seq::empty()
    } else {
        pairs_bytes(keys.drop_last()) + pair_bytes(keys.last())
    }
}

/// The nodes whose variant fields fit one page: at most the maximum
/// number of entries, and each leaf value exactly one row wide.
pub open spec fn node_serializable(v: NodeV) -> bool {
    if v.node_type == NodeType::Leaf {
        &&& v.cells.len() <= LEAF_NODE_MAX_CELLS
        &&& forall|j: int| 0 <= j < v.cells.len() ==> (#[trigger] v.cells[j]).1.len() == ROW_SIZE
    } else {
        v.keys.len() <= INTERNAL_NODE_MAX_CELLS
    }
}

/// A node whose byte image decodes back to it exactly: it is
/// serializable, the other variant's fields are empty, and every word
/// fits a `usize`.
pub open spec fn node_clean(v: NodeV) -> bool {
    &&& node_serializable(v)
    &&& fits_usize(v.parent)
    &&& if v.node_type == NodeType::Leaf {
        &&& v.keys.len() == 0
        &&& v.right_child == 0
        &&& fits_usize(v.next_leaf)
        &&& forall|j: int| 0 <= j < v.cells.len() ==> fits_usize((#[trigger] v.cells[j]).0)
    } else {
        &&& v.cells.len() == 0
        &&& v.next_leaf == 0
        &&& fits_usize(v.right_child)
        &&& forall|j: int|
            0 <= j < v.keys.len() ==> fits_usize((#[trigger] v.keys[j]).0) && fits_usize(
                v.keys[j].1,
            )
    }
}

/// The byte image of a node.
pub open spec fn spec_node_bytes(v: NodeV) -> Seq<u8> {
    if v.node_type == NodeType::Leaf {
        zero_pad(
            common_bytes(v) + spec_u64_to_le_bytes(v.cells.len() as u64) + spec_u64_to_le_bytes(
                v.next_leaf,
            ) + cells_bytes(v.cells),
            PAGE_SIZE as nat,
        )
    } else {
        zero_pad(
            common_bytes(v) + spec_u64_to_le_bytes(v.keys.len() as u64) + spec_u64_to_le_bytes(
                v.right_child,
            ) + pairs_bytes(v.keys),
            PAGE_SIZE as nat,
        )
    }
}

// Decoding.
pub open spec fn word_at(b: Seq<u8>, off: int) -> u64 {
    spec_u64_from_le_bytes(b.subrange(off, off + 8))
}

pub open spec fn decode_cell(b: Seq<u8>, j: int) -> (u64, Seq<u8>) {
    (
        word_at(b, LEAF_NODE_CELLS_OFFSET + j * CELL_SIZE),
        b.subrange(
            LEAF_NODE_CELLS_OFFSET + j * CELL_SIZE + 8,
            LEAF_NODE_CELLS_OFFSET + (j + 1) * CELL_SIZE,
        ),
    )
}

pub open spec fn decode_pair(b: Seq<u8>, j: int) -> (u64, u64) {
    (
        word_at(b, KEY_VALUE_OFFSET + j * INTERNAL_CELL_SIZE),
        word_at(b, KEY_VALUE_OFFSET + j * INTERNAL_CELL_SIZE + 8),
    )
}

/// The node a page decodes to. Meaningful only when `page_parses` holds.
pub open spec fn decode_v(b: Seq<u8>) -> NodeV {
    if b[0] == 0 {
        NodeV {
            node_type: NodeType::Leaf,
            is_root: b[1] == 1,
            parent: word_at(b, 2),
            cells: Seq::new(word_at(b, CELLS_COUNT_OFFSET as int) as nat, |j: int| decode_cell(b, j)),
            next_leaf: word_at(b, LEAF_NEXT_LEAF_OFFSET as int),
            keys: Seq::empty(),
            right_child: 0,
        }
    } else {
        NodeV {
            node_type: NodeType::Internal,
            is_root: b[1] == 1,
            parent: word_at(b, 2),
            cells: Seq::empty(),
            next_leaf: 0,
            keys: Seq::new(word_at(b, KEY_COUNT_OFFSET as int) as nat, |j: int| decode_pair(b, j)),
            right_child: word_at(b, RIGHT_CHILD_OFFSET as int),
        }
    }
}

/// The pages that `Node::deserialize` accepts: a known node type byte,
/// an entry count within the node's capacity, and every word small
/// enough for this platform's `usize`.
pub open spec fn page_parses(b: Seq<u8>) -> bool {
    &&& b.len() == PAGE_SIZE
    &&& (b[0] == 0 || b[0] == 1)
    &&& fits_usize(word_at(b, 2))
    &&& if b[0] == 0 {
        &&& word_at(b, CELLS_COUNT_OFFSET as int) <= LEAF_NODE_MAX_CELLS as u64
        &&& fits_usize(word_at(b, LEAF_NEXT_LEAF_OFFSET as int))
        &&& forall|j: int|
            0 <= j < word_at(b, CELLS_COUNT_OFFSET as int) ==> fits_usize(
                (#[trigger] decode_cell(b, j)).0,
            )
    } else {
        &&& word_at(b, KEY_COUNT_OFFSET as int) <= INTERNAL_NODE_MAX_CELLS as u64
        &&& fits_usize(word_at(b, RIGHT_CHILD_OFFSET as int))
        &&& forall|j: int|
            0 <= j < word_at(b, KEY_COUNT_OFFSET as int) ==> fits_usize(
                (#[trigger] decode_pair(b, j)).0,
            ) && fits_usize(decode_pair(b, j).1)
    }
}

pub proof fn lemma_cells_bytes_len(cells: Seq<(u64, Seq<u8>)>)
    requires
        forall|j: int| 0 <= j < cells.len() ==> (#[trigger] cells[j]).1.len() == ROW_SIZE,
    ensures
        cells_bytes(cells).len() == cells.len() * CELL_SIZE,
    decreases cells.len(),
{
    if cells.len() > 0 {
        assert(forall|i: int|
            0 <= i < cells.drop_last().len() ==> (#[trigger] cells.drop_last()[i]) == cells[i]);
        lemma_cells_bytes_len(cells.drop_last());
        vstd::bytes::lemma_auto_spec_u64_to_from_le_bytes();
        assert(cells.last() == cells[cells.len() - 1]);
        assert(cell_bytes(cells.last()).len() == CELL_SIZE);
    }
}

pub proof fn lemma_pairs_bytes_len(keys: Seq<(u64, u64)>)
    ensures
        pairs_bytes(keys).len() == keys.len() * INTERNAL_CELL_SIZE,
    decreases keys.len(),
{
    if keys.len() > 0 {
        lemma_pairs_bytes_len(keys.drop_last());
        vstd::bytes::lemma_auto_spec_u64_to_from_le_bytes();
    }
}

/// The slice of the flattened cells that holds cell `j`.
pub proof fn lemma_cells_bytes_index(cells: Seq<(u64, Seq<u8>)>, j: int)
    requires
        forall|i: int| 0 <= i < cells.len() ==> (#[trigger] cells[i]).1.len() == ROW_SIZE,
        0 <= j < cells.len(),
    ensures
        cells_bytes(cells).subrange(j * CELL_SIZE, (j + 1) * CELL_SIZE) == cell_bytes(cells[j]),
    decreases cells.len(),
{
    assert(forall|i: int|
        0 <= i < cells.drop_last().len() ==> (#[trigger] cells.drop_last()[i]) == cells[i]);
    lemma_cells_bytes_len(cells);
    lemma_cells_bytes_len(cells.drop_last());
    vstd::bytes::lemma_auto_spec_u64_to_from_le_bytes();
    assert(cells.last() == cells[cells.len() - 1]);
    assert(cell_bytes(cells.last()).len() == CELL_SIZE);
    if j == cells.len() - 1 {
        assert(cells_bytes(cells).subrange(j * CELL_SIZE, (j + 1) * CELL_SIZE) =~= cell_bytes(
            cells[j],
        ));
    } else {
        lemma_cells_bytes_index(cells.drop_last(), j);
        assert(cells_bytes(cells).subrange(j * CELL_SIZE, (j + 1) * CELL_SIZE) =~= cells_bytes(
            cells.drop_last(),
        ).subrange(j * CELL_SIZE, (j + 1) * CELL_SIZE));
    }
}

/// The slice of the flattened pairs that holds pair `j`.
pub proof fn lemma_pairs_bytes_index(keys: Seq<(u64, u64)>, j: int)
    requires
        0 <= j < keys.len(),
    ensures
        pairs_bytes(keys).subrange(j * INTERNAL_CELL_SIZE, (j + 1) * INTERNAL_CELL_SIZE)
            == pair_bytes(keys[j]),
    decreases keys.len(),
{
    lemma_pairs_bytes_len(keys);
    lemma_pairs_bytes_len(keys.drop_last());
    vstd::bytes::lemma_auto_spec_u64_to_from_le_bytes();
    assert(keys.last() == keys[keys.len() - 1]);
    assert(pair_bytes(keys.last()).len() == INTERNAL_CELL_SIZE);
    if j == keys.len() - 1 {
        assert(pairs_bytes(keys).subrange(j * INTERNAL_CELL_SIZE, (j + 1) * INTERNAL_CELL_SIZE)
            =~= pair_bytes(keys[j]));
    } else {
        lemma_pairs_bytes_index(keys.drop_last(), j);
        assert(pairs_bytes(keys).subrange(j * INTERNAL_CELL_SIZE, (j + 1) * INTERNAL_CELL_SIZE)
            =~= pairs_bytes(keys.drop_last()).subrange(
            j * INTERNAL_CELL_SIZE,
            (j + 1) * INTERNAL_CELL_SIZE,
        ));
    }
}

pub proof fn lemma_node_bytes_len(v: NodeV)
    requires
        node_serializable(v),
    ensures
        spec_node_bytes(v).len() == PAGE_SIZE,
{
    vstd::bytes::lemma_auto_spec_u64_to_from_le_bytes();
    if v.node_type == NodeType::Leaf {
        lemma_cells_bytes_len(v.cells);
        assert(v.cells.len() * CELL_SIZE <= LEAF_NODE_MAX_CELLS * CELL_SIZE);
    } else {
        lemma_pairs_bytes_len(v.keys);
        assert(v.keys.len() * INTERNAL_CELL_SIZE <= INTERNAL_NODE_MAX_CELLS * INTERNAL_CELL_SIZE);
    }
}

/// A parsing page decodes to a clean node.
pub proof fn lemma_decode_clean(b: Seq<u8>)
    requires
        page_parses(b),
    ensures
        node_clean(decode_v(b)),
{
}

// ------------------------------------------------------------------
// The whole file: the pages laid end to end.
/// The byte image of a sequence of nodes, page by page.
pub open spec fn image_of(nodes: Seq<NodeV>) -> Seq<u8>
    decreases nodes.len(),
{
    if nodes.len() == 0 {
        Seq::empty()
    } else {
        image_of(nodes.drop_last()) + spec_node_bytes(nodes.last())
    }
}

pub open spec fn image_npages(b: Seq<u8>) -> int {
    b.len() as int / PAGE_SIZE as int
}

/// Page `i` of a file image.
pub open spec fn image_page(b: Seq<u8>, i: int) -> Seq<u8> {
    b.subrange(i * PAGE_SIZE, (i + 1) * PAGE_SIZE)
}

/// A file image of whole pages, each of which parses.
pub open spec fn image_parses(b: Seq<u8>) -> bool {
    &&& b.len() % (PAGE_SIZE as nat) == 0
    &&& forall|i: int| 0 <= i < image_npages(b) ==> page_parses(#[trigger] image_page(b, i))
}

/// The nodes a file image decodes to.
pub open spec fn image_nodes(b: Seq<u8>) -> Seq<NodeV> {
    Seq::new(image_npages(b) as nat, |i: int| decode_v(image_page(b, i)))
}

pub proof fn lemma_image_len(nodes: Seq<NodeV>)
    requires
        forall|i: int| 0 <= i < nodes.len() ==> node_serializable(#[trigger] nodes[i]),
    ensures
        image_of(nodes).len() == nodes.len() * PAGE_SIZE,
    decreases nodes.len(),
{
    if nodes.len() > 0 {
        assert(forall|i: int|
            0 <= i < nodes.drop_last().len() ==> (#[trigger] nodes.drop_last()[i]) == nodes[i]);
        lemma_image_len(nodes.drop_last());
        lemma_node_bytes_len(nodes.last());
        assert(nodes.last() == nodes[nodes.len() - 1]);
    }
}

pub proof fn lemma_image_page_of(nodes: Seq<NodeV>, i: int)
    requires
        forall|i: int| 0 <= i < nodes.len() ==> node_serializable(#[trigger] nodes[i]),
        0 <= i < nodes.len(),
    ensures
        image_page(image_of(nodes), i) == spec_node_bytes(nodes[i]),
    decreases nodes.len(),
{
    assert(forall|j: int|
        0 <= j < nodes.drop_last().len() ==> (#[trigger] nodes.drop_last()[j]) == nodes[j]);
    lemma_image_len(nodes);
    lemma_image_len(nodes.drop_last());
    lemma_node_bytes_len(nodes.last());
    assert(nodes.last() == nodes[nodes.len() - 1]);
    if i == nodes.len() - 1 {
        assert(image_page(image_of(nodes), i) =~= spec_node_bytes(nodes[i]));
    } else {
        lemma_image_page_of(nodes.drop_last(), i);
        assert(image_page(image_of(nodes), i) =~= image_page(image_of(nodes.drop_last()), i));
    }
}

/// Law: writing every page of a tree of clean nodes and reading the
/// file back yields the same nodes.
pub proof fn lemma_image_round_trip(nodes: Seq<NodeV>)
    requires
        forall|i: int| 0 <= i < nodes.len() ==> node_clean(#[trigger] nodes[i]),
    ensures
        image_of(nodes).len() == nodes.len() * PAGE_SIZE,
        image_parses(image_of(nodes)),
        image_nodes(image_of(nodes)) == nodes,
{
    let b = image_of(nodes);
    lemma_image_len(nodes);
    assert(image_npages(b) == nodes.len());
    assert forall|i: int| 0 <= i < image_npages(b) implies page_parses(
        #[trigger] image_page(b, i),
    ) && decode_v(image_page(b, i)) == nodes[i] by {
        lemma_image_page_of(nodes, i);
        lemma_node_round_trip(nodes[i]);
    }
    assert(image_nodes(b) =~= nodes);
}

/// Law: a clean node's byte image parses, and decodes back to the node.
#[verifier::rlimit(60)]
#[verifier::spinoff_prover]
pub proof fn lemma_node_round_trip(v: NodeV)
    requires
        node_clean(v),
    ensures
        page_parses(spec_node_bytes(v)),
        decode_v(spec_node_bytes(v)) == v,
{
    let b = spec_node_bytes(v);
    vstd::bytes::lemma_auto_spec_u64_to_from_le_bytes();
    if v.node_type == NodeType::Leaf {
        lemma_cells_bytes_len(v.cells);
        let body = common_bytes(v) + spec_u64_to_le_bytes(v.cells.len() as u64)
            + spec_u64_to_le_bytes(v.next_leaf) + cells_bytes(v.cells);
        assert(body.len() == LEAF_NODE_CELLS_OFFSET + v.cells.len() * CELL_SIZE);
        assert(v.cells.len() * CELL_SIZE <= LEAF_NODE_MAX_CELLS * CELL_SIZE);
        assert(body.len() <= PAGE_SIZE);
        assert(b.len() == PAGE_SIZE);
        assert(b[0] == 0);
        assert(b.subrange(2, 10) =~= spec_u64_to_le_bytes(v.parent));
        assert(b.subrange(10, 18) =~= spec_u64_to_le_bytes(v.cells.len() as u64));
        assert(b.subrange(18, 26) =~= spec_u64_to_le_bytes(v.next_leaf));
        assert(word_at(b, 2) == v.parent);
        assert(word_at(b, CELLS_COUNT_OFFSET as int) == v.cells.len() as u64);
        assert(word_at(b, LEAF_NEXT_LEAF_OFFSET as int) == v.next_leaf);
        assert forall|j: int| 0 <= j < v.cells.len() implies decode_cell(b, j) == v.cells[j] by {
            lemma_cells_bytes_index(v.cells, j);
            assert(b.subrange(
                LEAF_NODE_CELLS_OFFSET + j * CELL_SIZE,
                LEAF_NODE_CELLS_OFFSET + (j + 1) * CELL_SIZE,
            ) =~= cells_bytes(v.cells).subrange(j * CELL_SIZE, (j + 1) * CELL_SIZE));
            assert(b.subrange(
                LEAF_NODE_CELLS_OFFSET + j * CELL_SIZE,
                LEAF_NODE_CELLS_OFFSET + j * CELL_SIZE + 8,
            ) =~= cell_bytes(v.cells[j]).subrange(0, 8));
            assert(cell_bytes(v.cells[j]).subrange(0, 8) =~= spec_u64_to_le_bytes(v.cells[j].0));
            assert(cell_bytes(v.cells[j]).subrange(8, CELL_SIZE as int) =~= v.cells[j].1);
            assert(b.subrange(
                LEAF_NODE_CELLS_OFFSET + j * CELL_SIZE + 8,
                LEAF_NODE_CELLS_OFFSET + (j + 1) * CELL_SIZE,
            ) =~= b.subrange(
                LEAF_NODE_CELLS_OFFSET + j * CELL_SIZE,
                LEAF_NODE_CELLS_OFFSET + (j + 1) * CELL_SIZE,
            ).subrange(8, CELL_SIZE as int));
        }
        assert(decode_v(b).cells =~= v.cells);
        assert(decode_v(b) =~= v);
    } else {
        lemma_pairs_bytes_len(v.keys);
        let body = common_bytes(v) + spec_u64_to_le_bytes(v.keys.len() as u64)
            + spec_u64_to_le_bytes(v.right_child) + pairs_bytes(v.keys);
        assert(body.len() == KEY_VALUE_OFFSET + v.keys.len() * INTERNAL_CELL_SIZE);
        assert(v.keys.len() * INTERNAL_CELL_SIZE <= INTERNAL_NODE_MAX_CELLS * INTERNAL_CELL_SIZE);
        assert(body.len() <= PAGE_SIZE);
        assert(b.len() == PAGE_SIZE);
        assert(b[0] == 1);
        assert(b.subrange(2, 10) =~= spec_u64_to_le_bytes(v.parent));
        assert(b.subrange(10, 18) =~= spec_u64_to_le_bytes(v.keys.len() as u64));
        assert(b.subrange(18, 26) =~= spec_u64_to_le_bytes(v.right_child));
        assert(word_at(b, 2) == v.parent);
        assert(word_at(b, KEY_COUNT_OFFSET as int) == v.keys.len() as u64);
        assert(word_at(b, RIGHT_CHILD_OFFSET as int) == v.right_child);
        assert forall|j: int| 0 <= j < v.keys.len() implies decode_pair(b, j) == v.keys[j] by {
            lemma_pairs_bytes_index(v.keys, j);
            assert(b.subrange(
                KEY_VALUE_OFFSET + j * INTERNAL_CELL_SIZE,
                KEY_VALUE_OFFSET + (j + 1) * INTERNAL_CELL_SIZE,
            ) =~= pairs_bytes(v.keys).subrange(
                j * INTERNAL_CELL_SIZE,
                (j + 1) * INTERNAL_CELL_SIZE,
            ));
            assert(b.subrange(
                KEY_VALUE_OFFSET + j * INTERNAL_CELL_SIZE,
                KEY_VALUE_OFFSET + j * INTERNAL_CELL_SIZE + 8,
            ) =~= pair_bytes(v.keys[j]).subrange(0, 8));
            assert(b.subrange(
                KEY_VALUE_OFFSET + j * INTERNAL_CELL_SIZE + 8,
                KEY_VALUE_OFFSET + (j + 1) * INTERNAL_CELL_SIZE,
            ) =~= pair_bytes(v.keys[j]).subrange(8, 16));
            assert(pair_bytes(v.keys[j]).subrange(0, 8) =~= spec_u64_to_le_bytes(v.keys[j].0));
            assert(pair_bytes(v.keys[j]).subrange(8, 16) =~= spec_u64_to_le_bytes(v.keys[j].1));
        }
        assert(decode_v(b).keys =~= v.keys);
        assert(decode_v(b) =~= v);
    }
}

} // verus!
