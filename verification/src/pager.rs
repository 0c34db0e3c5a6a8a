//! The pager: the page cache over a file image, and the insert path.
//!
//! The pager owns the backing file image and a fixed array of optional
//! nodes indexed by page number. A node is materialized lazily, on the
//! first access of its page; `flush` serializes every cached node back
//! into the image at `page * PAGE_SIZE`. The pager also owns the insert
//! algorithm: a plain insert into a leaf with room, a leaf split with a
//! new-root promotion when the root itself overflows, and the routing
//! of a split into the parent otherwise.

use vstd::prelude::*;
use vstd::slice::slice_subrange;
use vstd::std_specs::vec::vec_index_mut;

use crate::codec::{
    decode_v, image_npages, image_page, image_parses, image_nodes, node_clean, page_parses,
};
use crate::constant::{LEAF_NODE_MAX_CELLS, PAGE_SIZE, ROW_SIZE, TABLE_MAX_PAGES};
use crate::errors::DbError;
use crate::node::{child_at, leaf_keys, num_lt, Node, NodeType, NodeV};
use crate::tree::{
    child, insert_fits, internal_wf, kv, kv_insert, leaf_wf, root, target_page, target_slot,
    tree_wf,
};

verus! {

/// Whether a leaf's keys climb strictly from cell to cell.
fn check_leaf_sorted(node: &Node) -> (r: bool)
    ensures
        r == crate::node::sorted_strict(leaf_keys(node@)),
{
    let ghost lk = leaf_keys(node@);
    proof {
        assert(forall|a: int| 0 <= a < lk.len() ==> (#[trigger] lk[a]) == node@.cells[a].0);
    }
    let n = node.get_cell_count();
    let mut i: usize = 1;
    while i < n
        invariant
            1 <= i,
            n == node@.cells.len(),
            lk == leaf_keys(node@),
            forall|a: int| 0 <= a < lk.len() ==> (#[trigger] lk[a]) == node@.cells[a].0,
            forall|a: int| 0 <= a < i - 1 && a < lk.len() - 1 ==> #[trigger] lk[a] < lk[a + 1],
        decreases n - i,
    {
        if node.get_key(i - 1) >= node.get_key(i) {
            proof {
                assert(lk[i - 1] >= lk[i as int]);
            }
            return false;
        }
        i = i + 1;
    }
    proof {
        crate::tree::lemma_sorted_from_consecutive(lk);
    }
    true
}

/// Whether an internal node's routing keys climb strictly.
fn check_internal_sorted(node: &Node) -> (r: bool)
    ensures
        r == crate::node::sorted_strict(crate::node::internal_keys(node@)),
{
    let ghost ik = crate::node::internal_keys(node@);
    proof {
        assert(forall|a: int| 0 <= a < ik.len() ==> (#[trigger] ik[a]) == node@.keys[a].0);
    }
    let n = node.get_key_count();
    let mut i: usize = 1;
    while i < n
        invariant
            1 <= i,
            n == node@.keys.len(),
            ik == crate::node::internal_keys(node@),
            forall|a: int| 0 <= a < ik.len() ==> (#[trigger] ik[a]) == node@.keys[a].0,
            forall|a: int| 0 <= a < i - 1 && a < ik.len() - 1 ==> #[trigger] ik[a] < ik[a + 1],
        decreases n - i,
    {
        if node.get_internal_key(i - 1) >= node.get_internal_key(i) {
            proof {
                assert(ik[i - 1] >= ik[i as int]);
            }
            return false;
        }
        i = i + 1;
    }
    proof {
        crate::tree::lemma_sorted_from_consecutive(ik);
    }
    true
}

pub struct Pager {
    /// The backing file's bytes, as read at open and rewritten by flush.
    pub disk: Vec<u8>,
    /// The page cache: one optional node per page slot.
    pub nodes: Vec<Option<Node>>,
    /// The number of pages ever allocated; pages are never freed.
    pub nodes_count: usize,
}

impl Pager {
    /// The number of whole pages the backing image holds.
    pub open spec fn disk_pages(self) -> int {
        image_npages(self.disk@)
    }

    pub open spec fn cached(self, i: int) -> bool {
        self.nodes@[i] is Some
    }

    /// The node page `i` holds: the cached node, or the one its image
    /// bytes decode to.
    pub open spec fn nview(self, i: int) -> NodeV {
        if self.cached(i) {
            self.nodes@[i]->Some_0@
        } else {
            decode_v(image_page(self.disk@, i))
        }
    }

    /// The allocated pages' nodes, in page order.
    pub open spec fn node_seq(self) -> Seq<NodeV> {
        Seq::new(self.nodes_count as nat, |i: int| self.nview(i))
    }

    /// The cache and image representation invariant: full slot array,
    /// whole pages on disk, nothing cached beyond the allocated pages,
    /// every allocated page either cached or parseable from the image,
    /// and every allocated page's node clean.
    pub open spec fn cache_wf(self) -> bool {
        &&& self.nodes@.len() == TABLE_MAX_PAGES
        &&& self.nodes_count <= TABLE_MAX_PAGES
        &&& self.disk@.len() == self.disk_pages() * PAGE_SIZE
        &&& self.disk_pages() <= self.nodes_count
        &&& forall|i: int| self.nodes_count <= i < TABLE_MAX_PAGES ==> !self.cached(i)
        &&& forall|i: int|
            0 <= i < self.nodes_count ==> self.cached(i) || (i < self.disk_pages()
                && page_parses(image_page(self.disk@, i)))
        &&& forall|i: int| 0 <= i < self.nodes_count ==> node_clean(#[trigger] self.nview(i))
    }

    pub open spec fn wf(self) -> bool {
        &&& self.cache_wf()
        &&& tree_wf(self.node_seq())
    }

    /// The rows the pager holds, in key order.
    pub open spec fn view_kv(self) -> Seq<(u64, Seq<u8>)> {
        kv(self.node_seq())
    }

    /// Decides whether a non-empty page image decodes to a well-formed
    /// tree: every page parses, the root at page 0 is marked and
    /// anchored, and — when it is internal — the children are exactly
    /// the remaining pages, in key order, correctly routed and chained.
    #[verifier::rlimit(100)]
    #[verifier::spinoff_prover]
    fn validate_image(image: &Vec<u8>) -> (r: bool)
        requires
            image@.len() % (PAGE_SIZE as nat) == 0,
            PAGE_SIZE <= image@.len(),
            image@.len() <= TABLE_MAX_PAGES * PAGE_SIZE,
        ensures
            r == (image_parses(image@) && tree_wf(image_nodes(image@))),
    {
        let ghost ins = image_nodes(image@);
        let npages = image.len() / PAGE_SIZE;
        proof {
            assert(image_npages(image@) == npages);
            assert(ins.len() == npages);
        }
        // every page must parse.
        let mut i: usize = 0;
        while i < npages
            invariant
                i <= npages,
                npages == image_npages(image@),
                npages * PAGE_SIZE == image@.len(),
                npages <= TABLE_MAX_PAGES,
                ins == image_nodes(image@),
                forall|t: int|
                    0 <= t < i ==> page_parses(#[trigger] image_page(image@, t)),
            decreases npages - i,
        {
            let bytes = slice_subrange(image.as_slice(), i * PAGE_SIZE, (i + 1) * PAGE_SIZE);
            proof {
                assert(bytes@ =~= image_page(image@, i as int));
            }
            match Node::deserialize(bytes) {
                Ok(_) => {},
                Err(_) => {
                    return false;
                },
            }
            i = i + 1;
        }
        proof {
            assert(image_parses(image@));
            assert forall|t: int| 0 <= t < npages implies node_clean(#[trigger] ins[t]) by {
                crate::codec::lemma_decode_clean(image_page(image@, t));
            }
        }
        // the root node.
        let bytes0 = slice_subrange(image.as_slice(), 0, PAGE_SIZE);
        proof {
            assert(bytes0@ =~= image_page(image@, 0));
        }
        let root_node = match Node::deserialize(bytes0) {
            Ok(n) => n,
            Err(_) => vstd::pervasive::unreached(),
        };
        proof {
            assert(root_node@ == ins[0]);
            assert(root(ins) == ins[0]);
        }
        if !root_node.is_root {
            return false;
        }
        if root_node.get_parent_page_num() != 0 {
            return false;
        }
        match root_node.get_node_type() {
            NodeType::Leaf => {
                if npages != 1 {
                    return false;
                }
                if root_node.get_next_leaf_num() != 0 {
                    return false;
                }
                if !check_leaf_sorted(&root_node) {
                    return false;
                }
                proof {
                    assert(leaf_wf(root(ins)));
                    assert(tree_wf(ins));
                }
                true
            },
            NodeType::Internal => {
                let keys_count = root_node.get_key_count();
                if keys_count < 1 {
                    return false;
                }
                if !check_internal_sorted(&root_node) {
                    return false;
                }
                if npages != keys_count + 2 {
                    return false;
                }
                // child pages: in range and pairwise distinct.
                let mut t: usize = 0;
                while t <= keys_count
                    invariant
                        t <= keys_count + 1,
                        keys_count == root(ins).keys.len(),
                        keys_count + 2 == npages,
                        npages <= TABLE_MAX_PAGES,
                        npages == image_npages(image@),
                        ins == image_nodes(image@),
                        ins.len() == npages,
                        root_node@ == root(ins),
                        root(ins).node_type == NodeType::Internal,
                        forall|u: int|
                            0 <= u < t ==> 1 <= #[trigger] child_at(root(ins), u) < npages,
                        forall|u: int, v: int|
                            0 <= u < v < t ==> child_at(root(ins), u) != child_at(root(ins), v),
                    decreases keys_count + 1 - t,
                {
                    let p = root_node.internal_node_children(t);
                    if p < 1 || p >= npages {
                        proof {
                            assert(root(ins).node_type == NodeType::Internal);
                            if tree_wf(ins) {
                                assert(1 <= child_at(root(ins), t as int) < ins.len());
                            }
                        }
                        return false;
                    }
                    let mut u: usize = 0;
                    while u < t
                        invariant
                            u <= t,
                            t <= keys_count,
                            keys_count == root(ins).keys.len(),
                            ins == image_nodes(image@),
                            root_node@ == root(ins),
                            root(ins).node_type == NodeType::Internal,
                            ins.len() == npages,
                            keys_count + 2 == npages,
                            p as u64 == child_at(root(ins), t as int),
                            forall|w: int|
                                0 <= w < u ==> child_at(root(ins), w) != child_at(
                                    root(ins),
                                    t as int,
                                ),
                        decreases t - u,
                    {
                        let q = root_node.internal_node_children(u);
                        if q == p {
                            proof {
                                assert(root(ins).node_type == NodeType::Internal);
                                assert(q as u64 == child_at(root(ins), u as int));
                                assert(child_at(root(ins), u as int) == child_at(
                                    root(ins),
                                    t as int,
                                ));
                                assert(!tree_wf(ins)) by {
                                    if tree_wf(ins) {
                                        assert(child_at(root(ins), u as int) != child_at(
                                            root(ins),
                                            t as int,
                                        ));
                                    }
                                }
                            }
                            return false;
                        }
                        u = u + 1;
                    }
                    t = t + 1;
                }
                // each child: a sorted, non-empty, unmarked leaf, routed
                // by its largest key and chained to the next.
                let mut prev_last: usize = 0;
                let mut prev_next: usize = 0;
                let mut t: usize = 0;
                while t <= keys_count
                    invariant
                        t <= keys_count + 1,
                        keys_count == root(ins).keys.len(),
                        keys_count + 2 == npages,
                        npages == image_npages(image@),
                        npages * PAGE_SIZE == image@.len(),
                        npages <= TABLE_MAX_PAGES,
                        ins == image_nodes(image@),
                        image_parses(image@),
                        root_node@ == root(ins),
                        root(ins).node_type == NodeType::Internal,
                        forall|u: int|
                            0 <= u <= keys_count ==> 1 <= #[trigger] child_at(root(ins), u)
                                < npages,
                        forall|u: int, v: int|
                            0 <= u < v <= keys_count ==> child_at(root(ins), u) != child_at(
                                root(ins),
                                v,
                            ),
                        forall|u: int|
                            0 <= u < t ==> {
                                let cu = #[trigger] child(ins, u);
                                leaf_wf(cu) && cu.cells.len() >= 1 && !cu.is_root && cu.parent == 0
                            },
                        forall|u: int|
                            0 <= u < t && u < keys_count ==> (#[trigger] root(ins).keys[u]).0
                                == child(ins, u).cells.last().0,
                        forall|u: int, v: int|
                            #![trigger child(ins, u), child(ins, v)]
                            0 <= u && v == u + 1 && v < t ==> child(ins, u).cells.last().0 < child(
                                ins,
                                v,
                            ).cells.first().0,
                        forall|u: int, v: int|
                            #![trigger child(ins, u), child_at(root(ins), v)]
                            0 <= u && v == u + 1 && v < t ==> child(ins, u).next_leaf == child_at(
                                root(ins),
                                v,
                            ),
                        t >= 1 ==> prev_last as u64 == child(ins, t - 1).cells.last().0,
                        t >= 1 ==> prev_next as u64 == child(ins, t - 1).next_leaf,
                    decreases keys_count + 1 - t,
                {
                    let p = root_node.internal_node_children(t);
                    proof {
                        assert(1 <= child_at(root(ins), t as int) < npages);
                    }
                    let bytes = slice_subrange(
                        image.as_slice(),
                        p * PAGE_SIZE,
                        (p + 1) * PAGE_SIZE,
                    );
                    proof {
                        assert(bytes@ =~= image_page(image@, p as int));
                        assert(page_parses(image_page(image@, p as int)));
                    }
                    let cur = match Node::deserialize(bytes) {
                        Ok(n) => n,
                        Err(_) => vstd::pervasive::unreached(),
                    };
                    proof {
                        assert(cur@ == ins[p as int]);
                        assert(cur@ == child(ins, t as int));
                        if tree_wf(ins) {
                            assert(leaf_wf(child(ins, t as int)));
                            assert(child(ins, t as int).cells.len() >= 1);
                            assert(!child(ins, t as int).is_root);
                            assert(child(ins, t as int).parent == 0);
                            if t < keys_count {
                                assert(root(ins).keys[t as int].0 == child(
                                    ins,
                                    t as int,
                                ).cells.last().0);
                            }
                            if t >= 1 {
                                assert(child(ins, t - 1).cells.last().0 < child(
                                    ins,
                                    t as int,
                                ).cells.first().0);
                                assert(child(ins, t - 1).next_leaf == child_at(
                                    root(ins),
                                    t as int,
                                ));
                            }
                        }
                    }
                    if cur.is_parent_node() {
                        return false;
                    }
                    if cur.is_root {
                        return false;
                    }
                    if cur.get_parent_page_num() != 0 {
                        return false;
                    }
                    let count = cur.get_cell_count();
                    if count == 0 {
                        return false;
                    }
                    if !check_leaf_sorted(&cur) {
                        return false;
                    }
                    let cur_last = cur.get_key(count - 1);
                    proof {
                        assert(cur_last as u64 == child(ins, t as int).cells.last().0);
                    }
                    if t < keys_count {
                        if root_node.get_internal_key(t) != cur_last {
                            return false;
                        }
                    }
                    if t >= 1 {
                        if prev_next != p {
                            return false;
                        }
                        let cur_first = cur.get_key(0);
                        proof {
                            assert(cur_first as u64 == child(ins, t as int).cells.first().0);
                        }
                        if prev_last >= cur_first {
                            return false;
                        }
                    }
                    prev_last = cur_last;
                    prev_next = cur.get_next_leaf_num();
                    t = t + 1;
                }
                if prev_next != 0 {
                    return false;
                }
                proof {
                    assert(internal_wf(root(ins)));
                    assert(child(ins, keys_count as int).next_leaf == 0);
                    assert(tree_wf(ins));
                }
                true
            },
        }
    }

    /// Opens a pager over a file image: it must hold whole pages, at
    /// most `TABLE_MAX_PAGES` of them, and — unless it is empty —
    /// decode to a well-formed tree. The page count is the file's page
    /// count, every cache slot starts empty, and the image is left as
    /// it was; a fresh database's root leaf appears only when page 0 is
    /// first touched.
    pub fn new(image: Vec<u8>) -> (r: Result<Pager, DbError>)
        ensures
            match r {
                Ok(p) => {
                    &&& crate::tree::image_wf(image@)
                    &&& p.cache_wf()
                    &&& p.disk@ == image@
                    &&& p.nodes_count == image_npages(image@)
                    &&& forall|i: int| 0 <= i < TABLE_MAX_PAGES ==> !p.cached(i)
                    &&& (image@.len() > 0 ==> tree_wf(p.node_seq()) && p.node_seq() == image_nodes(
                        image@,
                    ))
                },
                Err(e) => {
                    &&& !crate::tree::image_wf(image@)
                    &&& e == (if image@.len() % (PAGE_SIZE as nat) == 0 && image_npages(image@)
                        > TABLE_MAX_PAGES {
                        DbError::CapacityExceeded
                    } else {
                        DbError::CorruptPage
                    })
                },
            },
    {
        if image.len() % PAGE_SIZE != 0 {
            return Err(DbError::CorruptPage);
        }
        let npages = image.len() / PAGE_SIZE;
        if npages > TABLE_MAX_PAGES {
            return Err(DbError::CapacityExceeded);
        }
        if npages > 0 {
            if !Self::validate_image(&image) {
                return Err(DbError::CorruptPage);
            }
        }
        let mut nodes: Vec<Option<Node>> = Vec::new();
        while nodes.len() < TABLE_MAX_PAGES
            invariant
                nodes@.len() <= TABLE_MAX_PAGES,
                forall|i: int| 0 <= i < nodes@.len() ==> (#[trigger] nodes@[i]) is None,
            decreases TABLE_MAX_PAGES - nodes@.len(),
        {
            nodes.push(None);
        }
        let p = Pager { disk: image, nodes, nodes_count: npages };
        proof {
            assert forall|i: int| 0 <= i < TABLE_MAX_PAGES implies !p.cached(i) by {
                assert(p.nodes@[i] is None);
            }
            assert forall|i: int| 0 <= i < p.nodes_count implies node_clean(
                #[trigger] p.nview(i),
            ) by {
                crate::codec::lemma_decode_clean(image_page(p.disk@, i));
            }
            assert(p.cache_wf());
            if npages > 0 {
                assert(p.node_seq() =~= image_nodes(image@));
            }
        }
        Ok(p)
    }

    /// Materializes page `page_num` in the cache if it is not there,
    /// reading and decoding its bytes from the image.
    fn load_page_from_file(&mut self, page_num: usize)
        requires
            old(self).cache_wf(),
            page_num < old(self).nodes_count,
        ensures
            final(self).cache_wf(),
            final(self).disk@ == old(self).disk@,
            final(self).nodes_count == old(self).nodes_count,
            final(self).cached(page_num as int),
            forall|i: int|
                0 <= i < TABLE_MAX_PAGES && i != page_num ==> final(self).nodes@[i] == old(
                    self,
                ).nodes@[i],
            forall|i: int|
                0 <= i < old(self).nodes_count ==> final(self).nview(i) == old(self).nview(i),
            final(self).node_seq() == old(self).node_seq(),
    {
        if self.nodes[page_num].is_none() {
            proof {
                assert(!old(self).cached(page_num as int));
                assert(page_num < old(self).disk_pages());
                assert((page_num + 1) * PAGE_SIZE <= old(self).disk_pages() * PAGE_SIZE);
            }
            let bytes = slice_subrange(
                self.disk.as_slice(),
                page_num * PAGE_SIZE,
                (page_num + 1) * PAGE_SIZE,
            );
            proof {
                assert(bytes@ =~= image_page(self.disk@, page_num as int));
                assert(page_parses(bytes@));
            }
            let node = match Node::deserialize(bytes) {
                Ok(n) => n,
                Err(_) => vstd::pervasive::unreached(),
            };
            let slot = vec_index_mut(&mut self.nodes, page_num);
            *slot = Some(node);
        }
        proof {
            assert forall|i: int|
                0 <= i < old(self).nodes_count implies self.nview(i) == old(self).nview(i) by {
                if i != page_num {
                    assert(self.nodes@[i] == old(self).nodes@[i]);
                }
            }
            assert(self.node_seq() =~= old(self).node_seq());
            assert forall|i: int| 0 <= i < self.nodes_count implies node_clean(
                #[trigger] self.nview(i),
            ) by {
                assert(self.nview(i) == old(self).nview(i));
                assert(node_clean(old(self).nview(i)));
            }
            assert forall|i: int|
                self.nodes_count <= i < TABLE_MAX_PAGES implies !self.cached(i) by {
                assert(self.nodes@[i] == old(self).nodes@[i]);
                assert(!old(self).cached(i));
            }
            assert forall|i: int| 0 <= i < self.nodes_count implies self.cached(i) || (i
                < self.disk_pages() && page_parses(image_page(self.disk@, i))) by {
                if i == page_num {
                    assert(self.cached(i));
                } else {
                    assert(self.nodes@[i] == old(self).nodes@[i]);
                    assert(old(self).cached(i) || (i < old(self).disk_pages() && page_parses(
                        image_page(old(self).disk@, i),
                    )));
                }
            }
        }
    }

    /// Takes page `page_num`'s node out of the cache, materializing it
    /// first if needed. The slot is left empty until `set_node` refills
    /// it, so `cache_wf` is suspended in between.
    fn take_node(&mut self, page_num: usize) -> (r: Node)
        requires
            old(self).cache_wf(),
            page_num < old(self).nodes_count,
        ensures
            r@ == old(self).nview(page_num as int),
            final(self).disk@ == old(self).disk@,
            final(self).nodes_count == old(self).nodes_count,
            final(self).nodes@.len() == TABLE_MAX_PAGES,
            final(self).nodes@[page_num as int] is None,
            forall|i: int|
                0 <= i < TABLE_MAX_PAGES && i != page_num ==> final(self).nodes@[i] == old(
                    self,
                ).nodes@[i],
    {
        self.load_page_from_file(page_num);
        let slot = vec_index_mut(&mut self.nodes, page_num);
        match slot.take() {
            Some(n) => n,
            None => vstd::pervasive::unreached(),
        }
    }

    /// Installs `node` at page `page_num`.
    fn set_node(&mut self, node: Node, page_num: usize)
        requires
            old(self).nodes@.len() == TABLE_MAX_PAGES,
            page_num < TABLE_MAX_PAGES,
        ensures
            final(self).disk@ == old(self).disk@,
            final(self).nodes_count == old(self).nodes_count,
            final(self).nodes@.len() == TABLE_MAX_PAGES,
            final(self).nodes@[page_num as int] == Some(node),
            final(self).cached(page_num as int),
            final(self).nview(page_num as int) == node@,
            forall|i: int|
                0 <= i < TABLE_MAX_PAGES && i != page_num ==> final(self).nodes@[i] == old(
                    self,
                ).nodes@[i],
    {
        let slot = vec_index_mut(&mut self.nodes, page_num);
        *slot = Some(node);
    }

    /// The page number a new node would get: pages are never freed, so
    /// allocation is monotonic.
    pub fn get_empty_page_num(&mut self) -> (r: usize)
        ensures
            r == old(self).nodes_count,
            *final(self) == *old(self),
    {
        self.nodes_count
    }

    pub fn get_page_count(&self) -> (r: usize)
        ensures
            r == self.nodes_count,
    {
        self.nodes_count
    }

    /// A shared borrow of page `page_num`'s node, if it is cached.
    pub fn get_node(&self, page_num: usize) -> (r: Option<&Node>)
        requires
            page_num < self.nodes@.len(),
        ensures
            match r {
                Some(n) => self.cached(page_num as int) && n@ == self.nview(page_num as int),
                None => !self.cached(page_num as int),
            },
    {
        self.nodes[page_num].as_ref()
    }

    /// A mutable borrow of page `page_num`'s node, materializing it on
    /// a cache miss. On a fresh database — no page allocated yet — the
    /// touch of page 0 materializes it as a new empty root leaf and
    /// allocates it.
    pub fn get_node_mut(&mut self, page_num: usize) -> (r: &mut Node)
        requires
            old(self).cache_wf(),
            page_num < old(self).nodes_count || (old(self).nodes_count == 0 && page_num == 0),
        ensures
            (*r)@ == (if old(self).nodes_count == 0 {
                Node::fresh_root_leaf_v()
            } else {
                old(self).nview(page_num as int)
            }),
            final(self).disk@ == old(self).disk@,
            final(self).nodes_count == (if old(self).nodes_count == 0 {
                1int
            } else {
                old(self).nodes_count as int
            }),
            final(self).nodes@.len() == TABLE_MAX_PAGES,
            final(self).nodes@[page_num as int] == Some(*final(r)),
            forall|i: int|
                0 <= i < TABLE_MAX_PAGES && i != page_num ==> final(self).nodes@[i] == old(
                    self,
                ).nodes@[i],
    {
        if self.nodes_count == 0 {
            let mut root_node = Node::new_leaf();
            root_node.set_is_root(true);
            self.set_node(root_node, 0);
            self.nodes_count = 1;
        } else {
            self.load_page_from_file(page_num);
        }
        let slot = vec_index_mut(&mut self.nodes, page_num);
        match slot.as_mut() {
            Some(n) => n,
            None => vstd::pervasive::unreached(),
        }
    }

    /// Appends `node` at the next free page, allocating it.
    fn append_new_node(&mut self, node: Node)
        requires
            old(self).nodes@.len() == TABLE_MAX_PAGES,
            old(self).nodes_count < TABLE_MAX_PAGES,
        ensures
            final(self).nodes_count == old(self).nodes_count + 1,
            final(self).disk@ == old(self).disk@,
            final(self).nodes@.len() == TABLE_MAX_PAGES,
            final(self).nodes@[old(self).nodes_count as int] == Some(node),
            forall|i: int|
                0 <= i < TABLE_MAX_PAGES && i != old(self).nodes_count ==> final(self).nodes@[i]
                    == old(self).nodes@[i],
    {
        let c = self.nodes_count;
        self.set_node(node, c);
        self.nodes_count = self.nodes_count + 1;
    }

    /// Moves the upper half of a full leaf's cells into a fresh leaf,
    /// preserving their order.
    fn redistribute_cells(split_old_node: &mut Node, split_new_node: &mut Node)
        requires
            old(split_old_node)@.cells.len() == LEAF_NODE_MAX_CELLS,
            old(split_new_node)@.cells.len() == 0,
        ensures
            final(split_old_node)@ == (NodeV {
                cells: old(split_old_node)@.cells.take(LEAF_NODE_MAX_CELLS as int / 2),
                ..old(split_old_node)@
            }),
            final(split_new_node)@ == (NodeV {
                cells: old(split_old_node)@.cells.skip(LEAF_NODE_MAX_CELLS as int / 2),
                ..old(split_new_node)@
            }),
    {
        let ghost orig = old(split_old_node)@.cells;
        let split_old_node_cell_count = split_old_node.get_cell_count();
        let old_node_new_max_cells = split_old_node_cell_count / 2;
        while split_old_node.get_cell_count() > old_node_new_max_cells
            invariant
                old_node_new_max_cells == LEAF_NODE_MAX_CELLS as int / 2,
                orig.len() == LEAF_NODE_MAX_CELLS,
                split_new_node@.cells.len() <= orig.len() - old_node_new_max_cells,
                split_new_node@ == (NodeV {
                    cells: orig.subrange(
                        old_node_new_max_cells as int,
                        old_node_new_max_cells + split_new_node@.cells.len(),
                    ),
                    ..old(split_new_node)@
                }),
                split_old_node@ == (NodeV {
                    cells: orig.take(old_node_new_max_cells as int) + orig.skip(
                        old_node_new_max_cells + split_new_node@.cells.len(),
                    ),
                    ..old(split_old_node)@
                }),
            decreases split_old_node@.cells.len(),
        {
            let ghost moved = split_new_node@.cells.len() as int;
            let key = split_old_node.get_key(old_node_new_max_cells);
            let value = vstd::slice::slice_to_vec(split_old_node.get_value(old_node_new_max_cells));
            split_new_node.push_cell(crate::node::Cell::new(key, value));
            split_old_node.remove_cell(old_node_new_max_cells);
            proof {
                let sp = old_node_new_max_cells as int;
                assert(split_new_node@.cells =~= orig.subrange(sp, sp + moved + 1));
                assert(split_old_node@.cells =~= orig.take(sp) + orig.skip(sp + moved + 1));
            }
        }
        proof {
            let sp = old_node_new_max_cells as int;
            assert(split_new_node@.cells =~= orig.skip(sp));
            assert(split_old_node@.cells =~= orig.take(sp));
            assert(split_old_node@ =~= (NodeV { cells: orig.take(sp), ..old(split_old_node)@ }));
            assert(split_new_node@ =~= (NodeV { cells: orig.skip(sp), ..old(split_new_node)@ }));
        }
    }

    /// Splits the full leaf at `page_num` around its midpoint, placing
    /// the new cell in whichever half its position falls, links the
    /// fresh right sibling into the leaf chain, and installs it at a
    /// newly allocated page, whose number it returns.
    fn leaf_node_split_and_insert(
        &mut self,
        page_num: usize,
        cell_num: usize,
        key: usize,
        value: &[u8],
    ) -> (r: usize)
        requires
            old(self).cache_wf(),
            page_num < old(self).nodes_count,
            old(self).nodes_count < TABLE_MAX_PAGES,
            old(self).nview(page_num as int).node_type == NodeType::Leaf,
            old(self).nview(page_num as int).cells.len() == LEAF_NODE_MAX_CELLS,
            cell_num <= LEAF_NODE_MAX_CELLS,
            value@.len() == ROW_SIZE,
        ensures
            r == old(self).nodes_count,
            final(self).nodes_count == old(self).nodes_count + 1,
            final(self).disk@ == old(self).disk@,
            final(self).nodes@.len() == TABLE_MAX_PAGES,
            final(self).cache_wf(),
            final(self).cached(page_num as int),
            final(self).cached(r as int),
            final(self).nview(page_num as int) == (NodeV {
                cells: crate::tree::split_lower(
                    old(self).nview(page_num as int).cells,
                    cell_num as int,
                    (key as u64, value@),
                ),
                next_leaf: r as u64,
                ..old(self).nview(page_num as int)
            }),
            final(self).nview(r as int) == (NodeV {
                node_type: NodeType::Leaf,
                is_root: false,
                parent: old(self).nview(page_num as int).parent,
                cells: crate::tree::split_upper(
                    old(self).nview(page_num as int).cells,
                    cell_num as int,
                    (key as u64, value@),
                ),
                next_leaf: old(self).nview(page_num as int).next_leaf,
                keys: Seq::empty(),
                right_child: 0,
            }),
            forall|i: int|
                0 <= i < TABLE_MAX_PAGES && i != page_num && i != r ==> final(self).nodes@[i]
                    == old(self).nodes@[i],
    {
        let nodes_count = self.get_empty_page_num();
        let mut new_node = Node::new_leaf();
        let mut old_node = self.take_node(page_num);
        new_node.set_parent_page_num(old_node.get_parent_page_num());
        new_node.set_next_leaf_num(old_node.get_next_leaf_num());
        old_node.set_next_leaf_num(nodes_count);
        Self::redistribute_cells(&mut old_node, &mut new_node);
        let old_node_cell_count = old_node.get_cell_count();
        if cell_num <= old_node_cell_count {
            old_node.insert_key_value(key, value, cell_num);
        } else {
            new_node.insert_key_value(key, value, cell_num - old_node_cell_count);
        }
        self.set_node(old_node, page_num);
        self.append_new_node(new_node);
        proof {
            let o = old(self).nview(page_num as int);
            let c = (key as u64, value@);
            assert(self.nview(page_num as int) =~= (NodeV {
                cells: crate::tree::split_lower(o.cells, cell_num as int, c),
                next_leaf: nodes_count as u64,
                ..o
            }));
            assert(self.nview(nodes_count as int) =~= (NodeV {
                node_type: NodeType::Leaf,
                is_root: false,
                parent: o.parent,
                cells: crate::tree::split_upper(o.cells, cell_num as int, c),
                next_leaf: o.next_leaf,
                keys: Seq::empty(),
                right_child: 0,
            }));
            assert(node_clean(old(self).nview(page_num as int)));
            assert forall|i: int| 0 <= i < self.nodes_count implies node_clean(
                #[trigger] self.nview(i),
            ) by {
                if i != page_num && i != nodes_count {
                    assert(self.nodes@[i] == old(self).nodes@[i]);
                    assert(self.nview(i) == old(self).nview(i));
                    assert(node_clean(old(self).nview(i)));
                }
            }
            assert forall|i: int|
                self.nodes_count <= i < TABLE_MAX_PAGES implies !self.cached(i) by {
                assert(self.nodes@[i] == old(self).nodes@[i]);
                assert(!old(self).cached(i));
            }
            assert forall|i: int| 0 <= i < self.nodes_count implies self.cached(i) || (i
                < self.disk_pages() && page_parses(image_page(self.disk@, i))) by {
                if i != page_num && i != nodes_count {
                    assert(self.nodes@[i] == old(self).nodes@[i]);
                    assert(old(self).cached(i) || (i < old(self).disk_pages() && page_parses(
                        image_page(old(self).disk@, i),
                    )));
                }
            }
        }
        nodes_count
    }

    /// Promotes the root in place: copies the root leaf's remaining
    /// cells into a fresh left child, then turns page `root_page_num`
    /// into an internal node routing through the left child's largest
    /// key, with the split's new leaf as the right child.
    fn create_new_root_node(&mut self, root_page_num: usize, right_child_page_num: usize)
        requires
            old(self).cache_wf(),
            root_page_num < old(self).nodes_count,
            old(self).nodes_count < TABLE_MAX_PAGES,
            old(self).nview(root_page_num as int).node_type == NodeType::Leaf,
            1 <= old(self).nview(root_page_num as int).cells.len() <= LEAF_NODE_MAX_CELLS,
        ensures
            final(self).nodes_count == old(self).nodes_count + 1,
            final(self).disk@ == old(self).disk@,
            final(self).nodes@.len() == TABLE_MAX_PAGES,
            final(self).cache_wf(),
            final(self).nview(root_page_num as int) == (NodeV {
                node_type: NodeType::Internal,
                is_root: true,
                parent: root_page_num as u64,
                cells: Seq::empty(),
                next_leaf: 0,
                keys: seq![
                    (
                        old(self).nview(root_page_num as int).cells.last().0,
                        old(self).nodes_count as u64,
                    ),
                ],
                right_child: right_child_page_num as u64,
            }),
            final(self).nview(old(self).nodes_count as int) == (NodeV {
                node_type: NodeType::Leaf,
                is_root: false,
                parent: root_page_num as u64,
                cells: old(self).nview(root_page_num as int).cells,
                next_leaf: right_child_page_num as u64,
                keys: Seq::empty(),
                right_child: 0,
            }),
            forall|i: int|
                0 <= i < TABLE_MAX_PAGES && i != root_page_num && i != old(self).nodes_count
                    ==> final(self).nodes@[i] == old(self).nodes@[i],
    {
        let mut left_child_node = Node::new_leaf();
        let root_node = self.take_node(root_page_num);
        let root_node_cell_count = root_node.get_cell_count();
        let mut cell_id: usize = 0;
        while cell_id < root_node_cell_count
            invariant
                cell_id <= root_node_cell_count,
                root_node_cell_count == root_node@.cells.len(),
                root_node@.cells.len() <= LEAF_NODE_MAX_CELLS,
                root_node@ == old(self).nview(root_page_num as int),
                left_child_node@ == (NodeV {
                    cells: root_node@.cells.take(cell_id as int),
                    ..Node::empty_leaf_v()
                }),
            decreases root_node_cell_count - cell_id,
        {
            proof {
                assert(left_child_node@.cells.len() == cell_id);
            }
            let key = root_node.get_key(cell_id);
            let value = vstd::slice::slice_to_vec(root_node.get_value(cell_id));
            left_child_node.push_cell(crate::node::Cell::new(key, value));
            cell_id = cell_id + 1;
            proof {
                assert(left_child_node@.cells =~= root_node@.cells.take(cell_id as int));
                assert(left_child_node@ =~= (NodeV {
                    cells: root_node@.cells.take(cell_id as int),
                    ..Node::empty_leaf_v()
                }));
            }
        }
        proof {
            assert(root_node@.cells.take(root_node@.cells.len() as int) =~= root_node@.cells);
        }
        let last_key = root_node.get_key(root_node_cell_count - 1);
        left_child_node.set_parent_page_num(root_page_num);
        left_child_node.set_next_leaf_num(right_child_page_num);
        let mut new_root_node = Node::new_internal();
        new_root_node.set_parent_page_num(root_page_num);
        let left_page = self.get_empty_page_num();
        self.set_node(left_child_node, left_page);
        new_root_node.set_is_root(true);
        new_root_node.set_right_child_key(right_child_page_num);
        proof {
            assert(new_root_node@.keys.len() == new_root_node.keys@.len());
            assert(new_root_node@.keys.len() == 0);
        }
        new_root_node.internal_node_insert(last_key, left_page);
        self.nodes_count = self.nodes_count + 1;
        self.set_node(new_root_node, root_page_num);
        proof {
            let o = old(self).nview(root_page_num as int);
            assert(self.nview(root_page_num as int) =~= (NodeV {
                node_type: NodeType::Internal,
                is_root: true,
                parent: root_page_num as u64,
                cells: Seq::empty(),
                next_leaf: 0,
                keys: seq![(o.cells.last().0, old(self).nodes_count as u64)],
                right_child: right_child_page_num as u64,
            }));
            assert(self.nview(left_page as int) =~= (NodeV {
                node_type: NodeType::Leaf,
                is_root: false,
                parent: root_page_num as u64,
                cells: o.cells,
                next_leaf: right_child_page_num as u64,
                keys: Seq::empty(),
                right_child: 0,
            }));
            assert(node_clean(o));
            assert forall|i: int| 0 <= i < self.nodes_count implies node_clean(
                #[trigger] self.nview(i),
            ) by {
                if i != root_page_num && i != left_page {
                    assert(self.nodes@[i] == old(self).nodes@[i]);
                    assert(self.nview(i) == old(self).nview(i));
                    assert(node_clean(old(self).nview(i)));
                }
            }
            assert forall|i: int|
                self.nodes_count <= i < TABLE_MAX_PAGES implies !self.cached(i) by {
                assert(self.nodes@[i] == old(self).nodes@[i]);
                assert(!old(self).cached(i));
            }
            assert forall|i: int| 0 <= i < self.nodes_count implies self.cached(i) || (i
                < self.disk_pages() && page_parses(image_page(self.disk@, i))) by {
                if i != root_page_num && i != left_page {
                    assert(self.nodes@[i] == old(self).nodes@[i]);
                    assert(old(self).cached(i) || (i < old(self).disk_pages() && page_parses(
                        image_page(old(self).disk@, i),
                    )));
                }
            }
        }
    }

    /// Routes a split's new leaf into the parent: if its keys run past
    /// the right child's, the right child becomes a keyed entry and the
    /// new leaf the right child; otherwise the new leaf's largest key
    /// and page are inserted at their routing slot.
    fn internal_node_insert(&mut self, parent_page_num: usize, new_page_num: usize)
        requires
            old(self).cache_wf(),
            parent_page_num < old(self).nodes_count,
            new_page_num < old(self).nodes_count,
            old(self).nview(parent_page_num as int).node_type == NodeType::Internal,
            1 <= old(self).nview(parent_page_num as int).keys.len()
                < crate::constant::INTERNAL_NODE_MAX_CELLS,
            crate::node::sorted_strict(
                crate::node::internal_keys(old(self).nview(parent_page_num as int)),
            ),
            old(self).nview(parent_page_num as int).right_child < old(self).nodes_count,
            old(self).nview(
                old(self).nview(parent_page_num as int).right_child as int,
            ).node_type == NodeType::Leaf,
            old(self).nview(old(self).nview(parent_page_num as int).right_child as int).cells.len()
                >= 1,
            old(self).nview(new_page_num as int).node_type == NodeType::Leaf,
            old(self).nview(new_page_num as int).cells.len() >= 1,
        ensures
            final(self).nodes_count == old(self).nodes_count,
            final(self).disk@ == old(self).disk@,
            final(self).nodes@.len() == TABLE_MAX_PAGES,
            final(self).cache_wf(),
            ({
                let parent = old(self).nview(parent_page_num as int);
                let new_max = old(self).nview(new_page_num as int).cells.last().0;
                let rc_max = old(self).nview(parent.right_child as int).cells.last().0;
                if new_max > rc_max {
                    final(self).nview(parent_page_num as int) == (NodeV {
                        keys: parent.keys.push((rc_max, parent.right_child)),
                        right_child: new_page_num as u64,
                        ..parent
                    })
                } else {
                    final(self).nview(parent_page_num as int) == (NodeV {
                        keys: parent.keys.insert(
                            crate::node::spec_child_index(parent, new_max),
                            (new_max, new_page_num as u64),
                        ),
                        ..parent
                    })
                }
            }),
            forall|i: int|
                0 <= i < old(self).nodes_count && i != parent_page_num ==> final(self).nview(i)
                    == old(self).nview(i),
    {
        self.load_page_from_file(new_page_num);
        let new_node_max_key = match self.nodes[new_page_num].as_ref() {
            Some(n) => n.get_node_max_key(),
            None => vstd::pervasive::unreached(),
        };
        self.load_page_from_file(parent_page_num);
        let (new_child_index, parent_right_child_key) = match self.nodes[parent_page_num].as_ref() {
            Some(parent_node) => {
                let idx = parent_node.internal_find_child_index_by_key(new_node_max_key);
                let rc = parent_node.internal_node_children(parent_node.get_key_count());
                (idx, rc)
            },
            None => vstd::pervasive::unreached(),
        };
        self.load_page_from_file(parent_right_child_key);
        let right_child_node_max_key = match self.nodes[parent_right_child_key].as_ref() {
            Some(n) => n.get_node_max_key(),
            None => vstd::pervasive::unreached(),
        };
        let ghost mid = *self;
        let mut parent_node = self.take_node(parent_page_num);
        proof {
            crate::node::lemma_num_lt_sorted(
                crate::node::internal_keys(parent_node@),
                new_node_max_key as u64,
            );
        }
        if new_node_max_key > right_child_node_max_key {
            parent_node.internal_node_insert(right_child_node_max_key, parent_right_child_key);
            parent_node.set_right_child_key(new_page_num);
        } else {
            parent_node.internal_node_insert_by_index(
                new_node_max_key,
                new_page_num,
                new_child_index,
            );
        }
        self.set_node(parent_node, parent_page_num);
        proof {
            let parent = old(self).nview(parent_page_num as int);
            assert forall|i: int|
                0 <= i < old(self).nodes_count && i != parent_page_num implies self.nview(i) == old(
                self,
            ).nview(i) by {
                assert(self.nodes@[i] == mid.nodes@[i]);
                assert(mid.nview(i) == old(self).nview(i));
            }
            assert forall|i: int| 0 <= i < self.nodes_count implies node_clean(
                #[trigger] self.nview(i),
            ) by {
                if i != parent_page_num {
                    assert(self.nview(i) == old(self).nview(i));
                    assert(node_clean(old(self).nview(i)));
                } else {
                    assert(node_clean(parent));
                }
            }
            assert forall|i: int|
                self.nodes_count <= i < TABLE_MAX_PAGES implies !self.cached(i) by {
                assert(self.nodes@[i] == mid.nodes@[i]);
                assert(!mid.cached(i));
            }
            assert forall|i: int| 0 <= i < self.nodes_count implies self.cached(i) || (i
                < self.disk_pages() && page_parses(image_page(self.disk@, i))) by {
                if i != parent_page_num {
                    assert(self.nodes@[i] == mid.nodes@[i]);
                    assert(mid.cached(i) || (i < mid.disk_pages() && page_parses(
                        image_page(mid.disk@, i),
                    )));
                }
            }
        }
    }

    /// Inserts `(key, value)` at the position the cursor found: cell
    /// `cell_index` of the leaf at `node_index`. A leaf with room takes
    /// the cell directly; a full leaf splits, promoting the root in
    /// place when the root itself overflowed, else routing the new
    /// right sibling into the parent. `CapacityExceeded` is reported,
    /// with the table unchanged, exactly when the split would need a
    /// parent key or a page that is not available.
    #[verifier::rlimit(100)]
    #[verifier::spinoff_prover]
    pub fn insert(
        &mut self,
        key: usize,
        value: &[u8],
        node_index: usize,
        cell_index: usize,
    ) -> (r: Result<(), DbError>)
        requires
            old(self).wf(),
            value@.len() == ROW_SIZE,
            node_index as u64 == target_page(old(self).node_seq(), key as u64),
            cell_index as int == num_lt(leaf_keys(old(self).nview(node_index as int)), key as u64),
            forall|i: int|
                0 <= i < kv(old(self).node_seq()).len() ==> (#[trigger] kv(
                    old(self).node_seq(),
                )[i]).0 != key as u64,
        ensures
            final(self).disk@ == old(self).disk@,
            final(self).wf(),
            match r {
                Ok(()) => {
                    &&& insert_fits(old(self).node_seq(), key as u64)
                    &&& kv(final(self).node_seq()) == kv_insert(
                        kv(old(self).node_seq()),
                        key as u64,
                        value@,
                    )
                    // a leaf with room takes the cell in place: no page is
                    // allocated and no other page changes.
                    &&& (old(self).nview(node_index as int).cells.len() < LEAF_NODE_MAX_CELLS
                        ==> {
                        &&& final(self).nodes_count == old(self).nodes_count
                        &&& final(self).node_seq()[node_index as int] == (NodeV {
                            cells: old(self).nview(node_index as int).cells.insert(
                                cell_index as int,
                                (key as u64, value@),
                            ),
                            ..old(self).nview(node_index as int)
                        })
                        &&& forall|i: int|
                            0 <= i < old(self).nodes_count && i != node_index
                                ==> final(self).node_seq()[i] == old(self).node_seq()[i]
                    })
                    // a root-leaf split allocates the two pages of the
                    // promotion and leaves an internal root with one key.
                    &&& (old(self).nview(node_index as int).cells.len() == LEAF_NODE_MAX_CELLS
                        && root(old(self).node_seq()).node_type == NodeType::Leaf ==> {
                        &&& final(self).nodes_count == old(self).nodes_count + 2
                        &&& root(final(self).node_seq()).node_type == NodeType::Internal
                        &&& root(final(self).node_seq()).keys.len() == 1
                    })
                    // a child-leaf split allocates one page and adds one
                    // routing key to the root.
                    &&& (old(self).nview(node_index as int).cells.len() == LEAF_NODE_MAX_CELLS
                        && root(old(self).node_seq()).node_type == NodeType::Internal ==> {
                        &&& final(self).nodes_count == old(self).nodes_count + 1
                        &&& root(final(self).node_seq()).keys.len() == root(
                            old(self).node_seq(),
                        ).keys.len() + 1
                    })
                },
                Err(e) => e == DbError::CapacityExceeded && !insert_fits(
                    old(self).node_seq(),
                    key as u64,
                ) && final(self).node_seq() == old(self).node_seq(),
            },
    {
        let ghost olds = old(self).node_seq();
        let ghost k64 = key as u64;
        let ghost leafv = old(self).nview(node_index as int);
        proof {
            assert(root(olds) == old(self).nview(0));
            if root(olds).node_type == NodeType::Leaf {
                assert(node_index == 0);
            } else {
                crate::node::lemma_num_lt_sorted(
                    crate::node::internal_keys(root(olds)),
                    k64,
                );
                let s = target_slot(olds, k64);
                assert(1 <= child_at(root(olds), s) < olds.len());
                assert(child(olds, s) == olds[node_index as int]);
                assert(leaf_wf(child(olds, s)));
            }
            assert(node_index < old(self).nodes_count);
            assert(olds[node_index as int] == leafv);
            assert(leaf_wf(leafv));
            crate::node::lemma_num_lt_sorted(leaf_keys(leafv), k64);
            assert(0 <= cell_index <= leafv.cells.len());
        }
        self.load_page_from_file(node_index);
        let (cell_count, parent_page) = match self.nodes[node_index].as_ref() {
            Some(n) => (n.get_cell_count(), n.get_parent_page_num()),
            None => vstd::pervasive::unreached(),
        };
        if cell_count < LEAF_NODE_MAX_CELLS {
            let mut node = self.take_node(node_index);
            node.insert_key_value(key, value, cell_index);
            self.set_node(node, node_index);
            proof {
                let news = self.node_seq();
                assert(news.len() == olds.len());
                assert forall|i: int|
                    0 <= i < olds.len() && i != node_index implies news[i] == olds[i] by {
                    assert(self.nodes@[i] == old(self).nodes@[i]);
                }
                assert(news[node_index as int] =~= (NodeV {
                    cells: leafv.cells.insert(cell_index as int, (k64, value@)),
                    ..leafv
                }));
                if root(olds).node_type == NodeType::Leaf {
                    crate::tree::lemma_insert_root_leaf(olds, news, k64, value@);
                } else {
                    crate::tree::lemma_insert_into_child(olds, news, k64, value@);
                }
                assert(tree_wf(news));
                assert forall|i: int| 0 <= i < self.nodes_count implies node_clean(
                    #[trigger] self.nview(i),
                ) by {
                    if i != node_index {
                        assert(self.nview(i) == old(self).nview(i));
                        assert(node_clean(old(self).nview(i)));
                    } else {
                        if root(olds).node_type == NodeType::Leaf {
                            assert(leaf_wf(root(news)));
                        } else {
                            assert(leaf_wf(child(news, target_slot(olds, k64))));
                            assert(child(news, target_slot(olds, k64)) == news[node_index as int]);
                        }
                    }
                }
                assert forall|i: int|
                    self.nodes_count <= i < TABLE_MAX_PAGES implies !self.cached(i) by {
                    assert(self.nodes@[i] == old(self).nodes@[i]);
                    assert(!old(self).cached(i));
                }
                assert forall|i: int| 0 <= i < self.nodes_count implies self.cached(i) || (i
                    < self.disk_pages() && page_parses(image_page(self.disk@, i))) by {
                    if i != node_index {
                        assert(self.nodes@[i] == old(self).nodes@[i]);
                        assert(old(self).cached(i) || (i < old(self).disk_pages() && page_parses(
                            image_page(old(self).disk@, i),
                        )));
                    }
                }
                assert(self.wf());
            }
            return Ok(());
        }
        proof {
            assert(leafv.cells.len() == LEAF_NODE_MAX_CELLS);
        }
        if parent_page == node_index {
            // the root leaf itself overflowed: split it and promote.
            proof {
                if root(olds).node_type == NodeType::Internal {
                    assert(leafv.parent == 0);
                    assert(node_index >= 1);
                }
                assert(root(olds).node_type == NodeType::Leaf);
                assert(olds.len() == 1);
            }
            if self.nodes_count + 2 > TABLE_MAX_PAGES {
                proof {
                    assert(self.node_seq() =~= olds);
                }
                return Err(DbError::CapacityExceeded);
            }
            proof {
                let lk = leaf_keys(leafv);
                assert(forall|i: int| 0 <= i < lk.len() ==> (#[trigger] lk[i]) == leafv.cells[i].0);
                assert forall|i: int| 0 <= i < lk.len() implies lk[i] != k64 by {
                    assert(kv(olds)[i] == leafv.cells[i]);
                }
                assert forall|i: int|
                    0 <= i < leafv.cells.len() implies (#[trigger] leafv.cells[i]).0 != k64 by {
                    assert(lk[i] == leafv.cells[i].0);
                }
                crate::tree::lemma_split_leaf(leafv.cells, cell_index as int, (k64, value@));
            }
            let right_page = self.leaf_node_split_and_insert(node_index, cell_index, key, value);
            proof {
                assert(right_page == 1);
                assert(self.nview(0).cells.len() >= 1);
            }
            self.create_new_root_node(node_index, right_page);
            proof {
                let news = self.node_seq();
                let c = (k64, value@);
                let lower = crate::tree::split_lower(leafv.cells, cell_index as int, c);
                let upper = crate::tree::split_upper(leafv.cells, cell_index as int, c);
                assert(news.len() == 3);
                assert(news[0] =~= (NodeV {
                    node_type: NodeType::Internal,
                    is_root: true,
                    parent: 0,
                    cells: Seq::empty(),
                    next_leaf: 0,
                    keys: seq![(lower.last().0, 2u64)],
                    right_child: 1,
                }));
                assert(news[1] =~= (NodeV {
                    node_type: NodeType::Leaf,
                    is_root: false,
                    parent: root(olds).parent,
                    cells: upper,
                    next_leaf: root(olds).next_leaf,
                    keys: Seq::empty(),
                    right_child: 0,
                }));
                assert(news[2] =~= (NodeV {
                    node_type: NodeType::Leaf,
                    is_root: false,
                    parent: 0,
                    cells: lower,
                    next_leaf: 1,
                    keys: Seq::empty(),
                    right_child: 0,
                }));
                crate::tree::lemma_root_split(olds, news, k64, value@);
                assert(tree_wf(news));
                assert forall|i: int| 0 <= i < self.nodes_count implies node_clean(
                    #[trigger] self.nview(i),
                ) by {
                    if i == 0 {
                        assert(internal_wf(root(news)));
                    } else if i == 1 {
                        assert(leaf_wf(child(news, 1)));
                        assert(child(news, 1) == news[1]);
                    } else {
                        assert(leaf_wf(child(news, 0)));
                        assert(child(news, 0) == news[2]);
                    }
                }
                assert(self.wf());
            }
            return Ok(());
        }
        // a child leaf under the internal root overflowed.
        proof {
            if root(olds).node_type == NodeType::Leaf {
                assert(node_index == 0);
                assert(leafv.is_root);
                assert(leafv.parent == 0);
            }
            assert(root(olds).node_type == NodeType::Internal);
            assert(leafv.parent == 0);
            assert(parent_page == 0);
        }
        self.load_page_from_file(parent_page);
        let keys_count = match self.nodes[parent_page].as_ref() {
            Some(n) => n.get_key_count(),
            None => vstd::pervasive::unreached(),
        };
        if keys_count >= crate::constant::INTERNAL_NODE_MAX_CELLS || self.nodes_count + 1
            > TABLE_MAX_PAGES {
            proof {
                assert(self.node_seq() =~= olds);
            }
            return Err(DbError::CapacityExceeded);
        }
        let ghost s = target_slot(olds, k64);
        let ghost kk = root(olds).keys.len() as int;
        proof {
            crate::tree::lemma_child_split_setup(olds, k64, value@);
        }
        let old_max = match self.nodes[node_index].as_ref() {
            Some(n) => n.get_node_max_key(),
            None => vstd::pervasive::unreached(),
        };
        proof {
            assert(old_max as u64 == leafv.cells.last().0);
        }
        let right_page = self.leaf_node_split_and_insert(node_index, cell_index, key, value);
        let ghost c = (k64, value@);
        let ghost lower = crate::tree::split_lower(leafv.cells, cell_index as int, c);
        let ghost upper = crate::tree::split_upper(leafv.cells, cell_index as int, c);
        let new_max = match self.nodes[node_index].as_ref() {
            Some(n) => n.get_node_max_key(),
            None => vstd::pervasive::unreached(),
        };
        proof {
            assert(self.nview(node_index as int).cells == lower);
            assert(new_max as u64 == lower.last().0);
        }
        let ghost st1 = *self;
        let mut parent_node = self.take_node(parent_page);
        parent_node.update_internal_node_key(old_max, new_max);
        self.set_node(parent_node, parent_page);
        let ghost keys2 = if s < kk {
            root(olds).keys.update(s, (lower.last().0, root(olds).keys[s].1))
        } else {
            root(olds).keys
        };
        proof {
            // the parent now routes through the lowered key.
            assert(st1.nview(0) == root(olds));
            assert(crate::node::spec_child_index(root(olds), old_max as u64) == s);
            assert(self.nview(0) =~= (NodeV { keys: keys2, ..root(olds) }));
            assert forall|i: int|
                0 <= i < old(self).nodes_count && i != parent_page && i != node_index implies
                self.nview(i) == old(self).nview(i) by {
                assert(self.nodes@[i] == st1.nodes@[i]);
            }
            assert(self.nview(node_index as int) == st1.nview(node_index as int));
            // the cache invariant survives the key rewrite.
            assert forall|i: int| 0 <= i < self.nodes_count implies node_clean(
                #[trigger] self.nview(i),
            ) by {
                if i != parent_page {
                    assert(self.nodes@[i] == st1.nodes@[i]);
                    assert(node_clean(st1.nview(i)));
                } else {
                    assert(node_clean(root(olds)));
                }
            }
            assert forall|i: int|
                self.nodes_count <= i < TABLE_MAX_PAGES implies !self.cached(i) by {
                assert(self.nodes@[i] == st1.nodes@[i]);
                assert(!st1.cached(i));
            }
            assert forall|i: int| 0 <= i < self.nodes_count implies self.cached(i) || (i
                < self.disk_pages() && page_parses(image_page(self.disk@, i))) by {
                if i != parent_page {
                    assert(self.nodes@[i] == st1.nodes@[i]);
                    assert(st1.cached(i) || (i < st1.disk_pages() && page_parses(
                        image_page(st1.disk@, i),
                    )));
                }
            }
            assert(self.cache_wf());
            // what the router will see.
            assert(crate::node::internal_keys(self.nview(0)) =~= Seq::new(
                keys2.len(),
                |i: int| keys2[i].0,
            ));
            assert(self.nview(right_page as int).cells == upper);
            assert(self.nview(0).right_child == root(olds).right_child);
            assert(1 <= root(olds).right_child < olds.len());
            if s == kk {
                assert(root(olds).right_child == node_index as u64);
                assert(self.nview(root(olds).right_child as int).cells == lower);
            } else {
                assert(root(olds).right_child == child_at(root(olds), kk));
                assert(root(olds).right_child != child_at(root(olds), s));
                assert(self.nview(root(olds).right_child as int) == child(olds, kk));
            }
        }
        let ghost st2 = *self;
        self.internal_node_insert(parent_page, right_page);
        proof {
            let news = self.node_seq();
            let np = olds.len() as int;
            assert(news.len() == olds.len() + 1);
            assert forall|i: int|
                1 <= i < olds.len() && i != node_index implies news[i] == olds[i] by {
                assert(self.nview(i) == st2.nview(i));
            }
            assert(news[node_index as int] == st2.nview(node_index as int));
            assert(news[node_index as int] =~= (NodeV {
                cells: lower,
                next_leaf: np as u64,
                ..leafv
            }));
            assert(news[np] == st2.nview(np));
            assert(news[np] =~= (NodeV {
                node_type: NodeType::Leaf,
                is_root: false,
                parent: leafv.parent,
                cells: upper,
                next_leaf: leafv.next_leaf,
                keys: Seq::empty(),
                right_child: 0,
            }));
            // which routing branch ran, and what it produced.
            let new_max2 = st2.nview(right_page as int).cells.last().0;
            let rc = st2.nview(0).right_child;
            let rc_max = st2.nview(rc as int).cells.last().0;
            assert(new_max2 == upper.last().0);
            if s == kk {
                assert(rc == node_index as u64);
                assert(rc_max == lower.last().0);
                assert(new_max2 > rc_max);
                assert(news[0] == (NodeV {
                    keys: keys2.push((rc_max, rc)),
                    right_child: right_page as u64,
                    ..st2.nview(0)
                }));
                assert(news[0] =~= (NodeV {
                    keys: root(olds).keys.push((lower.last().0, node_index as u64)),
                    right_child: np as u64,
                    ..root(olds)
                }));
                crate::tree::lemma_child_split_right(olds, news, k64, value@);
            } else {
                assert(rc == child_at(root(olds), kk));
                assert(rc_max == child(olds, kk).cells.last().0);
                assert(rc_max > new_max2);
                assert(crate::node::spec_child_index(st2.nview(0), new_max2) == s + 1);
                assert(news[0] == (NodeV {
                    keys: keys2.insert(s + 1, (new_max2, right_page as u64)),
                    ..st2.nview(0)
                }));
                assert(news[0] =~= (NodeV {
                    keys: keys2.insert(s + 1, (upper.last().0, np as u64)),
                    ..root(olds)
                }));
                crate::tree::lemma_child_split_keyed(olds, news, k64, value@);
            }
            assert(tree_wf(news));
            assert(self.wf());
        }
        Ok(())
    }

    /// Writes every allocated page back into the backing image: cached
    /// nodes are serialized and taken out of the cache, pages never
    /// materialized keep their bytes. The image afterwards holds
    /// exactly the allocated pages, and decodes to the same nodes.
    pub fn flush(&mut self) -> (r: Result<(), DbError>)
        requires
            old(self).wf(),
        ensures
            r is Ok,
            final(self).wf(),
            final(self).nodes_count == old(self).nodes_count,
            final(self).node_seq() == old(self).node_seq(),
            final(self).disk@.len() == old(self).nodes_count * PAGE_SIZE,
            image_parses(final(self).disk@),
            image_nodes(final(self).disk@) == old(self).node_seq(),
            // byte for byte: a cached node's page is its serialization; a
            // page never materialized keeps its old bytes.
            forall|i: int|
                0 <= i < old(self).nodes_count ==> image_page(final(self).disk@, i) == (if old(
                    self,
                ).cached(i) {
                    crate::codec::spec_node_bytes(old(self).nview(i))
                } else {
                    image_page(old(self).disk@, i)
                }),
            forall|i: int| 0 <= i < TABLE_MAX_PAGES ==> !final(self).cached(i),
    {
        let ghost olds = old(self).node_seq();
        let mut out: Vec<u8> = Vec::new();
        let mut i: usize = 0;
        while i < self.nodes_count
            invariant
                i <= self.nodes_count,
                self.nodes_count == old(self).nodes_count,
                self.disk@ == old(self).disk@,
                self.nodes@.len() == TABLE_MAX_PAGES,
                old(self).cache_wf(),
                olds == old(self).node_seq(),
                forall|t: int| i <= t < TABLE_MAX_PAGES ==> self.nodes@[t] == old(self).nodes@[t],
                forall|t: int| 0 <= t < i ==> !self.cached(t),
                out@.len() == i * PAGE_SIZE,
                forall|t: int|
                    0 <= t < i ==> page_parses(#[trigger] image_page(out@, t)) && decode_v(
                        image_page(out@, t),
                    ) == olds[t],
                forall|t: int|
                    0 <= t < i ==> image_page(out@, t) == (if old(self).cached(t) {
                        crate::codec::spec_node_bytes(old(self).nview(t))
                    } else {
                        image_page(old(self).disk@, t)
                    }),
            decreases self.nodes_count - i,
        {
            proof {
                assert(old(self).nview(i as int) == olds[i as int]);
                assert(node_clean(old(self).nview(i as int)));
            }
            let ghost out0 = out@;
            let ghost snap = *self;
            proof {
                assert(snap.nodes@[i as int] == old(self).nodes@[i as int]);
            }
            let slot = vec_index_mut(&mut self.nodes, i);
            match slot.take() {
                None => {
                    // never materialized: its image bytes still stand.
                    proof {
                        assert(!old(self).cached(i as int));
                        assert(i < old(self).disk_pages());
                        assert((i + 1) * PAGE_SIZE <= old(self).disk_pages() * PAGE_SIZE);
                    }
                    let bytes = slice_subrange(
                        self.disk.as_slice(),
                        i * PAGE_SIZE,
                        (i + 1) * PAGE_SIZE,
                    );
                    crate::bytes_util::push_bytes(&mut out, bytes);
                    proof {
                        assert(bytes@ =~= image_page(self.disk@, i as int));
                        assert(image_page(out@, i as int) =~= image_page(self.disk@, i as int));
                        assert(page_parses(image_page(self.disk@, i as int)));
                        assert(decode_v(image_page(self.disk@, i as int)) == olds[i as int]);
                    }
                },
                Some(node) => {
                    proof {
                        assert(old(self).cached(i as int));
                        assert(node@ == olds[i as int]);
                        assert(olds[i as int] == old(self).nview(i as int));
                        crate::codec::lemma_node_round_trip(node@);
                    }
                    let page = node.serialize();
                    crate::bytes_util::push_bytes(&mut out, page.as_slice());
                    proof {
                        assert(image_page(out@, i as int) =~= page@);
                    }
                },
            }
            i = i + 1;
            proof {
                assert(self.nodes@[i - 1] is None);
                assert forall|t: int| 0 <= t < i implies !self.cached(t) by {
                    if t < i - 1 {
                        assert(self.nodes@[t] == snap.nodes@[t]);
                        assert(!snap.cached(t));
                    }
                }
                assert forall|t: int|
                    0 <= t < i implies page_parses(#[trigger] image_page(out@, t)) && decode_v(
                    image_page(out@, t),
                ) == olds[t] by {
                    if t < i - 1 {
                        assert(image_page(out@, t) =~= image_page(out0, t));
                    }
                }
                assert forall|t: int|
                    0 <= t < i implies image_page(out@, t) == (if old(self).cached(t) {
                        crate::codec::spec_node_bytes(old(self).nview(t))
                    } else {
                        image_page(old(self).disk@, t)
                    }) by {
                    if t < i - 1 {
                        assert(image_page(out@, t) =~= image_page(out0, t));
                    }
                }
            }
        }
        let ghost snap2 = *self;
        self.disk = out;
        proof {
            assert(self.nodes@ == snap2.nodes@);
            assert forall|t: int| 0 <= t < TABLE_MAX_PAGES implies !self.cached(t) by {
                if t < self.nodes_count {
                    assert(!snap2.cached(t));
                } else {
                    assert(snap2.nodes@[t] == old(self).nodes@[t]);
                    assert(!old(self).cached(t));
                }
            }
            assert(self.disk@.len() == self.nodes_count * PAGE_SIZE);
            assert(self.disk_pages() == self.nodes_count);
            assert forall|t: int| 0 <= t < self.nodes_count implies self.nview(t) == olds[t] by {
                assert(page_parses(image_page(self.disk@, t)));
            }
            assert(self.node_seq() =~= olds);
            assert(image_nodes(self.disk@) =~= olds);
            assert forall|t: int| 0 <= t < self.nodes_count implies node_clean(
                #[trigger] self.nview(t),
            ) by {
                assert(self.nview(t) == olds[t]);
                assert(node_clean(old(self).nview(t)));
            }
            assert(self.cache_wf());
        }
        Ok(())
    }

    /// The number of cells the leaf at `page_num` holds.
    pub(crate) fn cell_count_of(&mut self, page_num: usize) -> (r: usize)
        requires
            old(self).cache_wf(),
            page_num < old(self).nodes_count,
        ensures
            r == old(self).nview(page_num as int).cells.len(),
            final(self).cache_wf(),
            final(self).disk@ == old(self).disk@,
            final(self).nodes_count == old(self).nodes_count,
            final(self).node_seq() == old(self).node_seq(),
    {
        self.load_page_from_file(page_num);
        match self.nodes[page_num].as_ref() {
            Some(n) => n.get_cell_count(),
            None => vstd::pervasive::unreached(),
        }
    }

    /// The node type of the page at `page_num`.
    pub(crate) fn node_type_of(&mut self, page_num: usize) -> (r: NodeType)
        requires
            old(self).cache_wf(),
            page_num < old(self).nodes_count,
        ensures
            r == old(self).nview(page_num as int).node_type,
            final(self).cache_wf(),
            final(self).disk@ == old(self).disk@,
            final(self).nodes_count == old(self).nodes_count,
            final(self).node_seq() == old(self).node_seq(),
    {
        self.load_page_from_file(page_num);
        match self.nodes[page_num].as_ref() {
            Some(n) => n.get_node_type(),
            None => vstd::pervasive::unreached(),
        }
    }

    /// The next-leaf pointer of the leaf at `page_num`.
    pub(crate) fn next_leaf_of(&mut self, page_num: usize) -> (r: usize)
        requires
            old(self).cache_wf(),
            page_num < old(self).nodes_count,
        ensures
            r as u64 == old(self).nview(page_num as int).next_leaf,
            final(self).cache_wf(),
            final(self).disk@ == old(self).disk@,
            final(self).nodes_count == old(self).nodes_count,
            final(self).node_seq() == old(self).node_seq(),
    {
        self.load_page_from_file(page_num);
        match self.nodes[page_num].as_ref() {
            Some(n) => n.get_next_leaf_num(),
            None => vstd::pervasive::unreached(),
        }
    }

    /// The child page in slot `idx` of the internal node at `page_num`.
    pub(crate) fn child_page_at(&mut self, page_num: usize, idx: usize) -> (r: usize)
        requires
            old(self).cache_wf(),
            page_num < old(self).nodes_count,
            idx <= old(self).nview(page_num as int).keys.len(),
        ensures
            r as u64 == child_at(old(self).nview(page_num as int), idx as int),
            final(self).cache_wf(),
            final(self).disk@ == old(self).disk@,
            final(self).nodes_count == old(self).nodes_count,
            final(self).node_seq() == old(self).node_seq(),
    {
        self.load_page_from_file(page_num);
        match self.nodes[page_num].as_ref() {
            Some(n) => n.internal_node_children(idx),
            None => vstd::pervasive::unreached(),
        }
    }

    /// The slot the internal node at `page_num` routes `key` to.
    pub(crate) fn find_child_index(&mut self, page_num: usize, key: usize) -> (r: usize)
        requires
            old(self).cache_wf(),
            page_num < old(self).nodes_count,
            crate::node::sorted_strict(
                crate::node::internal_keys(old(self).nview(page_num as int)),
            ),
        ensures
            r == crate::node::spec_child_index(old(self).nview(page_num as int), key as u64),
            final(self).cache_wf(),
            final(self).disk@ == old(self).disk@,
            final(self).nodes_count == old(self).nodes_count,
            final(self).node_seq() == old(self).node_seq(),
    {
        self.load_page_from_file(page_num);
        match self.nodes[page_num].as_ref() {
            Some(n) => n.internal_find_child_index_by_key(key),
            None => vstd::pervasive::unreached(),
        }
    }

    /// The row bytes of cell `cell_num` of the leaf at `page_num`.
    pub fn select(&mut self, page_num: usize, cell_num: usize) -> (r: Vec<u8>)
        requires
            old(self).cache_wf(),
            page_num < old(self).nodes_count,
            cell_num < old(self).nview(page_num as int).cells.len(),
        ensures
            r@ == old(self).nview(page_num as int).cells[cell_num as int].1,
            final(self).cache_wf(),
            final(self).disk@ == old(self).disk@,
            final(self).nodes_count == old(self).nodes_count,
            final(self).node_seq() == old(self).node_seq(),
    {
        self.load_page_from_file(page_num);
        let node = match self.nodes[page_num].as_ref() {
            Some(n) => n,
            None => vstd::pervasive::unreached(),
        };
        vstd::slice::slice_to_vec(node.get_value(cell_num))
    }

    /// The key of cell `cell_num` of the leaf at `page_num`.
    pub fn get_key(&mut self, page_num: usize, cell_num: usize) -> (r: usize)
        requires
            old(self).cache_wf(),
            page_num < old(self).nodes_count,
            cell_num < old(self).nview(page_num as int).cells.len(),
        ensures
            r as u64 == old(self).nview(page_num as int).cells[cell_num as int].0,
            final(self).cache_wf(),
            final(self).disk@ == old(self).disk@,
            final(self).nodes_count == old(self).nodes_count,
            final(self).node_seq() == old(self).node_seq(),
    {
        self.load_page_from_file(page_num);
        let node = match self.nodes[page_num].as_ref() {
            Some(n) => n,
            None => vstd::pervasive::unreached(),
        };
        node.get_key(cell_num)
    }
}

} // verus!
