//! A tree kept in two files: fixed-size node records, and the blocks of
//! child map entries that the records point into.
use vstd::prelude::*;
use vstd::bytes::{spec_u64_to_le_bytes, u64_to_le_bytes};
use crate::layout::{
    append_bytes, block_bytes, children_to_buf, meta_bytes, node_children_to_buf, splice,
    NODE_CHILD_META_OFFSET, entries_at, last_key_index, lemma_last_key_index, node_at, node_id_to_pos, node_to_buf,
    pos_of_id, pos_to_node_id, read_u16, read_u32, read_u64, record_bytes, write_bytes, ChildMap,
    lemma_entries_bytes, lemma_entries_decode, lemma_entries_same, lemma_node_at_counters, lemma_node_at_meta, lemma_node_at_same,
    lemma_record_fields, lemma_record_inside, lemma_splice, lemma_uint_roundtrips, entries_bytes, MAP_LENGTH, NODE_LENGTH, NO_PARENT,
};
use crate::utils::{add_and_subtract, offset_value};
use crate::{Iter, NodeData, NodeId, OpenMode, TreeFileError};

verus! {

broadcast use vstd::seq::group_seq_axioms;

/// The contents of the two files of a tree.
pub struct TreeFiles {
    pub nodes: Vec<u8>,
    pub map: Vec<u8>,
}

/// A tree held as the images of its node file and its map file.
pub struct TreeMap {
    nodes: Vec<u8>,
    maps: Vec<u8>,
}

/// The children meta of a record.
struct ChildrenMeta {
    first_child_pos: u64,
    n_children: u32,
    max_children: u32,
}

/// The entries of a child block, and the last one that holds the key looked for.
struct ChildrenMaps {
    key_hit: Option<ChildMap>,
    child_maps: Vec<ChildMap>,
}

/// The record of a top node that allows `max` children.
pub open spec fn top_record(max: u32) -> Seq<u8> {
    record_bytes(NO_PARENT, 0, 0, 0, 0, max)
}

/// The images a tree starts from, given the images of the files found (if
/// any): `None` where they must exist and do not. A torn record at the end of
/// the node file is left out; an empty node file gets a top node.
pub open spec fn opened_images(
    max_top_children: u32,
    open_mode: OpenMode,
    existing: Option<(Seq<u8>, Seq<u8>)>,
) -> Option<(Seq<u8>, Seq<u8>)> {
    let found = match open_mode {
        OpenMode::TruncateCreate => Some((Seq::<u8>::empty(), Seq::<u8>::empty())),
        OpenMode::OpenCreate => match existing {
            Some(e) => Some(e),
            None => Some((Seq::<u8>::empty(), Seq::<u8>::empty())),
        },
        OpenMode::MustExist => existing,
    };
    match found {
        None => None,
        Some(f) => {
            let kept = f.0.subrange(0, f.0.len() as int / NODE_LENGTH as int * NODE_LENGTH as int);
            if kept.len() == 0 {
                Some((top_record(max_top_children), f.1))
            } else {
                Some((kept, f.1))
            }
        },
    }
}

pub open spec fn files_view(f: TreeFiles) -> (Seq<u8>, Seq<u8>) {
    (f.nodes@, f.map@)
}

/// Whether a child block lies wholly inside the map file and holds its live entries.
pub open spec fn block_inside(maps: Seq<u8>, first_child_pos: u64, n_children: u32, max_children: u32) -> bool {
    n_children <= max_children && first_child_pos + MAP_LENGTH * max_children <= maps.len()
}

/// Whether the child block that `d` points to can be read whole: true of a
/// node without children.
pub open spec fn block_readable(maps: Seq<u8>, d: NodeData) -> bool {
    d.n_children == 0 || block_inside(maps, d.first_child_pos, d.n_children, d.max_children)
}

/// Whether a child block of capacity `max_children` can be held in memory.
pub open spec fn block_fits(max_children: u32) -> bool {
    MAP_LENGTH * max_children <= usize::MAX
}

/// The last entry with `key`, if any.
pub open spec fn key_hit(cs: Seq<ChildMap>, key: u16) -> Option<ChildMap> {
    if last_key_index(cs, key) >= 0 {
        Some(cs[last_key_index(cs, key)])
    } else {
        None
    }
}

/// The key and the node id of a child map entry.
pub open spec fn key_and_id(c: ChildMap) -> (u16, NodeId) {
    (c.key, (c.node_pos / NODE_LENGTH as u64) as NodeId)
}

impl TreeMap {
    pub closed spec fn node_image(&self) -> Seq<u8> {
        self.nodes@
    }

    pub closed spec fn map_image(&self) -> Seq<u8> {
        self.maps@
    }

    /// The node file holds whole records, and at least the top one.
    pub open spec fn inv(&self) -> bool {
        &&& self.node_image().len() as int % NODE_LENGTH as int == 0
        &&& self.node_image().len() >= NODE_LENGTH
        &&& self.node_image().len() <= usize::MAX
        &&& self.map_image().len() <= usize::MAX
    }

    pub open spec fn len_spec(&self) -> nat {
        self.node_image().len() / NODE_LENGTH as nat
    }

    pub open spec fn node(&self, id: int) -> NodeData {
        node_at(self.node_image(), pos_of_id(id))
    }

    pub open spec fn readable(&self, id: int) -> bool {
        block_readable(self.map_image(), self.node(id))
    }

    /// The live entries of the child block of node `id`.
    pub open spec fn entries(&self, id: int) -> Seq<ChildMap> {
        entries_at(
            self.map_image(),
            self.node(id).first_child_pos as int,
            self.node(id).n_children as nat,
        )
    }

    /// The children of node `id`, as (key, node id), in order of insertion.
    pub open spec fn children(&self, id: int) -> Seq<(u16, NodeId)> {
        self.entries(id).map_values(|c: ChildMap| key_and_id(c))
    }

    /// Entry `j` of node `i` points at a whole record whose parent is `i`.
    pub open spec fn child_linked(&self, i: int, j: int) -> bool {
        let c = self.entries(i)[j];
        &&& c.node_pos as int % NODE_LENGTH as int == 0
        &&& (c.node_pos as int / NODE_LENGTH as int) < self.len_spec()
        &&& self.node(c.node_pos as int / NODE_LENGTH as int).parent == Some(i as NodeId)
    }

    /// Node `i` has a parent, added before it, and is among its parent's entries.
    pub open spec fn parent_linked(&self, i: int) -> bool {
        match self.node(i).parent {
            Some(p) => {
                &&& p < i
                &&& exists|j: int|
                    0 <= j < self.node(p as int).n_children && #[trigger] self.entries(
                        p as int,
                    )[j].node_pos == pos_of_id(i)
            },
            None => false,
        }
    }

    /// No two live entries of node `i` share a key.
    pub open spec fn keys_unique(&self, i: int) -> bool {
        forall|j: int, k: int|
            0 <= j < k < self.node(i).n_children ==> #[trigger] self.entries(i)[j].key
                != #[trigger] self.entries(i)[k].key
    }

    /// The child blocks of nodes `a` and `b` do not overlap.
    pub open spec fn blocks_apart(&self, a: int, b: int) -> bool {
        let da = self.node(a);
        let db = self.node(b);
        ||| a == b
        ||| da.n_children == 0
        ||| db.n_children == 0
        ||| da.first_child_pos + MAP_LENGTH * da.max_children <= db.first_child_pos
        ||| db.first_child_pos + MAP_LENGTH * db.max_children <= da.first_child_pos
    }

    /// The invariants of a tree built by this library: the top node has no
    /// parent, every other node is listed by its parent, every live entry
    /// points back, keys are unique per node, and child blocks lie inside the
    /// map file without overlapping.
    pub open spec fn wf(&self) -> bool {
        let n = self.len_spec() as int;
        &&& self.inv()
        &&& self.node(0).parent is None
        &&& forall|i: int| 0 <= i < n ==> #[trigger] self.readable(i)
        &&& forall|i: int| 0 < i < n ==> #[trigger] self.parent_linked(i)
        &&& forall|i: int, j: int|
            0 <= i < n && 0 <= j < self.node(i).n_children ==> #[trigger] self.child_linked(i, j)
        &&& forall|i: int| 0 <= i < n ==> #[trigger] self.keys_unique(i)
        &&& forall|a: int, b: int| 0 <= a < n && 0 <= b < n ==> #[trigger] self.blocks_apart(a, b)
    }

    /// The node that `add_child` appends.
    pub open spec fn new_child(
        &self,
        node: int,
        hits: u64,
        score: u64,
        max_children: u32,
    ) -> NodeData {
        let x = self.len_spec() as int;
        NodeData {
            node_id: x as NodeId,
            node_pos: pos_of_id(x) as u64,
            parent: Some(node as NodeId),
            hits,
            score,
            first_child_pos: 0,
            n_children: 0,
            max_children,
        }
    }

    /// `self` is `old` with a child added to `node`, under `key`.
    pub open spec fn child_added(
        &self,
        old: &TreeMap,
        node: int,
        key: u16,
        hits: u64,
        score: u64,
        max_children: u32,
    ) -> bool {
        let x = old.len_spec() as int;
        let p = old.node(node);
        &&& self.inv()
        &&& self.len_spec() == x + 1
        &&& forall|i: int| 0 <= i < x && i != node ==> #[trigger] self.node(i) == old.node(i)
        &&& self.node(node) == (NodeData {
            node_id: p.node_id,
            node_pos: p.node_pos,
            parent: p.parent,
            hits: p.hits,
            score: p.score,
            first_child_pos: if p.n_children == 0 {
                old.map_image().len() as u64
            } else {
                p.first_child_pos
            },
            n_children: (p.n_children + 1) as u32,
            max_children: p.max_children,
        })
        &&& self.node(x) == old.new_child(node, hits, score, max_children)
        &&& self.map_image().len() == if p.n_children == 0 {
            old.map_image().len() + MAP_LENGTH * p.max_children
        } else {
            old.map_image().len() as int
        }
        &&& self.entries(node) == old.entries(node).push(
            ChildMap { node_pos: pos_of_id(x) as u64, key },
        )
    }

    /// Opens a tree from the images of its two files (`None` where they do
    /// not both exist), as `open_mode` says.
    pub fn new(max_top_children: u32, open_mode: OpenMode, existing: Option<TreeFiles>) -> (r:
        Result<TreeMap, TreeFileError>)
        ensures
            match opened_images(
                max_top_children,
                open_mode,
                match existing {
                    Some(f) => Some(files_view(f)),
                    None => None,
                },
            ) {
                Some(images) => r matches Ok(t) && t.inv() && t.node_image() == images.0
                    && t.map_image() == images.1 && (t.node_image() == top_record(max_top_children)
                    ==> t.wf()),
                None => r == Err::<TreeMap, TreeFileError>(TreeFileError::NonExistingFiles),
            },
    {
        let (mut nodes, maps) = match open_mode {
            OpenMode::TruncateCreate => (Vec::new(), Vec::new()),
            OpenMode::OpenCreate => match existing {
                Some(f) => (f.nodes, f.map),
                None => (Vec::new(), Vec::new()),
            },
            OpenMode::MustExist => match existing {
                Some(f) => (f.nodes, f.map),
                None => {
                    return Err(TreeFileError::NonExistingFiles);
                },
            },
        };
        let ghost found = nodes@;
        let n_nodes: usize = nodes.len() / NODE_LENGTH;
        assert(n_nodes * NODE_LENGTH <= nodes.len()) by (nonlinear_arith)
            requires
                n_nodes as int == nodes@.len() as int / 40,
        ;
        nodes.truncate(n_nodes * NODE_LENGTH);
        assert(n_nodes == 0 <==> n_nodes * NODE_LENGTH == 0) by (nonlinear_arith);
        assert((n_nodes * NODE_LENGTH) % NODE_LENGTH as int == 0) by (nonlinear_arith);
        assert(n_nodes > 0 ==> n_nodes * NODE_LENGTH >= NODE_LENGTH) by (nonlinear_arith);
        proof {
            lemma_uint_roundtrips();
        }
        assert(nodes@ =~= found.subrange(0, found.len() as int / NODE_LENGTH as int * NODE_LENGTH as int));
        if n_nodes == 0 {
            add_node(&mut nodes, NO_PARENT, 0, 0, max_top_children);
            assert(nodes@ =~= top_record(max_top_children));
        }
        let _nodes_len: usize = nodes.len();
        let _maps_len: usize = maps.len();
        let t = TreeMap { nodes, maps };
        proof {
            if t.node_image() == top_record(max_top_children) {
                lemma_top_only_wf(t, max_top_children);
            }
        }
        Ok(t)
    }

    /// The images of the two files.
    pub fn into_files(self) -> (r: TreeFiles)
        ensures
            r.nodes@ == self.node_image(),
            r.map@ == self.map_image(),
    {
        TreeFiles { nodes: self.nodes, map: self.maps }
    }

    /// The image of the node file.
    pub fn node_file(&self) -> (r: &Vec<u8>)
        ensures
            r@ == self.node_image(),
    {
        &self.nodes
    }

    /// The image of the map file.
    pub fn map_file(&self) -> (r: &Vec<u8>)
        ensures
            r@ == self.map_image(),
    {
        &self.maps
    }

    pub fn get_top(&self) -> (r: NodeId)
        ensures
            r == 0,
    {
        0
    }

    /// The number of nodes, the top included.
    pub fn len(&self) -> (r: usize)
        ensures
            r == self.len_spec(),
    {
        self.nodes.len() / NODE_LENGTH
    }

    /// Whether `add_child(node, key, ..)` fails for a reason of the tree's
    /// own rules: no room for children, or the key taken.
    pub open spec fn add_child_refused(&self, node: int, key: u16) -> bool {
        let p = self.node(node);
        &&& 0 <= node < self.len_spec()
        &&& if p.n_children == 0 {
            p.max_children == 0
        } else {
            self.readable(node) && (key_hit(self.entries(node), key) is Some || p.n_children
                >= p.max_children)
        }
    }

    /// Whether `add_child(node, key, ..)` succeeds.
    pub open spec fn add_child_allowed(&self, node: int, key: u16) -> bool {
        let p = self.node(node);
        &&& 0 <= node < self.len_spec()
        &&& if p.n_children == 0 {
            p.max_children > 0 && block_fits(p.max_children)
        } else {
            self.readable(node) && key_hit(self.entries(node), key) is None && p.n_children
                < p.max_children
        }
    }

    pub open spec fn same_images(&self, other: &TreeMap) -> bool {
        self.node_image() == other.node_image() && self.map_image() == other.map_image()
    }

    /// Adds a child with `key` under `node`, with the given counters and room
    /// for `max_children` children of its own; returns its id.
    pub fn add_child(
        &mut self,
        node: NodeId,
        key: u16,
        hits: u64,
        score: u64,
        max_children: u32,
    ) -> (r: Result<NodeId, TreeFileError>)
        requires
            old(self).inv(),
        ensures
            final(self).add_result(old(self), node as int, key, hits, score, max_children, r),
    {
        check_presence(&self.nodes, node)?;
        proof {
            lemma_record_inside(node as int, self.nodes.len() as int);
        }
        let ghost old_self = *self;
        let maps_len = self.maps.len();
        let parent_pos = node_id_to_pos(node);
        let child_pos = self.nodes.len() as u64;
        let children_meta = get_node_child_meta(&self.nodes, parent_pos);
        let mapped = if children_meta.n_children == 0 {
            new_children_child_mappings(
                &mut self.nodes,
                &mut self.maps,
                parent_pos,
                key,
                child_pos,
                &children_meta,
            )
        } else {
            update_children_child_mappings(
                &mut self.nodes,
                &mut self.maps,
                parent_pos,
                key,
                child_pos,
                &children_meta,
            )
        };
        if let Err(e) = mapped {
            proof {
                if old_self.wf() {
                    lemma_wf_same_structure(old_self, *self);
                }
            }
            return Err(e);
        }
        add_node(&mut self.nodes, parent_pos, hits, score, max_children);
        let _nodes_len: usize = self.nodes.len();
        let _maps_len: usize = self.maps.len();
        proof {
            let x = old_self.len_spec() as int;
            let c = ChildMap { node_pos: pos_of_id(x) as u64, key };
            assert(child_pos == pos_of_id(x));
            let p = old_self.node(node as int);
            lemma_nodes_after_add(
                old_self.nodes@,
                node as int,
                if p.n_children == 0 {
                    old_self.maps@.len() as u64
                } else {
                    p.first_child_pos
                },
                (p.n_children + 1) as u32,
                p.max_children,
                hits,
                score,
                max_children,
            );
            let start = self.node(node as int).first_child_pos as int;
            if p.n_children == 0 {
                lemma_entries_bytes(seq![c]);
                assert(start == maps_len);
                assert(old_self.entries(node as int) =~= Seq::<ChildMap>::empty());
                assert(seq![c] =~= old_self.entries(node as int).push(c));
                assert(self.maps@.subrange(
                    start,
                    start + MAP_LENGTH * p.max_children,
                ) =~= block_bytes(seq![c], p.max_children as nat));
                lemma_block_entries(self.maps@, start, seq![c], p.max_children as nat);
            } else {
                let cs = old_self.entries(node as int).push(c);
                lemma_entries_bytes(cs);
                assert(block_bytes(cs, p.max_children as nat).len() == MAP_LENGTH * p.max_children);
                lemma_splice(
                    old_self.maps@,
                    start,
                    block_bytes(cs, p.max_children as nat),
                );
                lemma_block_entries(self.maps@, start, cs, p.max_children as nat);
            }
            if old_self.wf() {
                assert forall|i: int|
                    0 <= i < x && i != node && old_self.node(i).n_children > 0 implies #[trigger] self.entries(
                    i,
                ) == old_self.entries(i) by {
                    let d = old_self.node(i);
                    assert(old_self.readable(i));
                    assert(old_self.blocks_apart(i, node as int));
                    let a = d.first_child_pos as int;
                    let b = a + MAP_LENGTH * d.max_children;
                    assert(self.maps@.subrange(a, b) =~= old_self.maps@.subrange(a, b));
                    lemma_entries_same(
                        self.maps@,
                        old_self.maps@,
                        a,
                        d.n_children as nat,
                        d.max_children as nat,
                    );
                }
                lemma_add_child_wf(old_self, *self, node as int, key, hits, score, max_children);
            }
        }
        Ok(pos_to_node_id(child_pos))
    }

    /// What `get_node(node)` returns.
    pub open spec fn node_result(&self, node: int, r: Result<NodeData, TreeFileError>) -> bool {
        if 0 <= node < self.len_spec() {
            r == Ok::<NodeData, TreeFileError>(self.node(node))
        } else {
            r == Err::<NodeData, TreeFileError>(TreeFileError::NonExistingNode)
        }
    }

    /// What `get_child(node, key)` returns.
    pub open spec fn child_result(
        &self,
        node: int,
        key: u16,
        r: Result<Option<NodeData>, TreeFileError>,
    ) -> bool {
        if !(0 <= node < self.len_spec()) {
            r == Err::<Option<NodeData>, TreeFileError>(TreeFileError::NonExistingNode)
        } else if !self.readable(node) {
            r is Err && r->Err_0 is FileIOError
        } else {
            match self.child_lookup(node, key) {
                None => r == Ok::<Option<NodeData>, TreeFileError>(None),
                Some(c) => if c.node_pos + NODE_LENGTH <= self.node_image().len() {
                    r == Ok::<Option<NodeData>, TreeFileError>(
                        Some(node_at(self.node_image(), c.node_pos as int)),
                    )
                } else {
                    r is Err && r->Err_0 is FileIOError
                },
            }
        }
    }

    /// What `get_parent(node)` returns.
    pub open spec fn parent_result(&self, node: int, r: Result<Option<NodeData>, TreeFileError>) -> bool {
        if !(0 <= node < self.len_spec()) {
            r == Err::<Option<NodeData>, TreeFileError>(TreeFileError::NonExistingNode)
        } else {
            match self.node(node).parent {
                None => r == Ok::<Option<NodeData>, TreeFileError>(None),
                Some(p) => if p < self.len_spec() {
                    r == Ok::<Option<NodeData>, TreeFileError>(Some(self.node(p as int)))
                } else {
                    r is Err && r->Err_0 is FileIOError
                },
            }
        }
    }

    /// What `get_child_iter(node)` hands out.
    pub open spec fn iter_children(&self, node: int) -> Seq<(u16, NodeId)> {
        if 0 <= node < self.len_spec() && self.readable(node) {
            self.children(node)
        } else {
            Seq::empty()
        }
    }

    /// `self` and `r` are what `old.add_child(node, key, hits, score, max_children)` leaves and returns.
    pub open spec fn add_result(
        &self,
        old: &TreeMap,
        node: int,
        key: u16,
        hits: u64,
        score: u64,
        max_children: u32,
        r: Result<NodeId, TreeFileError>,
    ) -> bool {
        &&& self.inv()
        &&& !(0 <= node < old.len_spec()) ==> r == Err::<NodeId, TreeFileError>(
            TreeFileError::NonExistingNode,
        )
        &&& old.add_child_refused(node, key) ==> r is Err && r->Err_0 is LogicError
        &&& 0 <= node < old.len_spec() && !old.add_child_refused(node, key)
            && !old.add_child_allowed(node, key) ==> r is Err && r->Err_0 is FileIOError
        &&& r is Err ==> self.same_images(old)
        &&& old.add_child_allowed(node, key) ==> r == Ok::<NodeId, TreeFileError>(
            old.len_spec() as NodeId,
        ) && self.child_added(old, node, key, hits, score, max_children)
        &&& old.wf() ==> self.wf()
    }

    /// `self` and `r` are what `old.update_node_add(node, hits, score)` leaves and returns.
    pub open spec fn update_result(
        &self,
        old: &TreeMap,
        node: int,
        hits: i64,
        score: i64,
        r: Result<(), TreeFileError>,
    ) -> bool {
        let d = old.node(node);
        &&& self.inv()
        &&& old.wf() ==> self.wf()
        &&& !(0 <= node < old.len_spec()) ==> r == Err::<(), TreeFileError>(
            TreeFileError::NonExistingNode,
        )
        &&& 0 <= node < old.len_spec() && (offset_value(d.hits, hits) is None || offset_value(
            d.score,
            score,
        ) is None) ==> r is Err && r->Err_0 is LogicError
        &&& r is Err ==> self.same_images(old)
        &&& 0 <= node < old.len_spec() && offset_value(d.hits, hits) is Some && offset_value(
            d.score,
            score,
        ) is Some ==> {
            &&& r is Ok
            &&& self.map_image() == old.map_image()
            &&& self.len_spec() == old.len_spec()
            &&& forall|i: int|
                0 <= i < old.len_spec() && i != node ==> #[trigger] self.node(i) == old.node(i)
            &&& self.node(node) == (NodeData {
                node_id: d.node_id,
                node_pos: d.node_pos,
                parent: d.parent,
                hits: offset_value(d.hits, hits)->Some_0,
                score: offset_value(d.score, score)->Some_0,
                first_child_pos: d.first_child_pos,
                n_children: d.n_children,
                max_children: d.max_children,
            })
        }
    }

    /// The entry that `get_child(node, key)` follows, if any.
    pub open spec fn child_lookup(&self, node: int, key: u16) -> Option<ChildMap> {
        if self.node(node).n_children == 0 {
            None
        } else {
            key_hit(self.entries(node), key)
        }
    }

    /// The child of `node` with `key`, if any.
    pub fn get_child(&self, node: NodeId, key: u16) -> (r: Result<Option<NodeData>, TreeFileError>)
        requires
            self.inv(),
        ensures
            self.child_result(node as int, key, r),
    {
        check_presence(&self.nodes, node)?;
        proof {
            lemma_record_inside(node as int, self.nodes.len() as int);
        }
        let parent_pos = node_id_to_pos(node);
        let children_meta = get_node_child_meta(&self.nodes, parent_pos);
        if children_meta.n_children == 0 {
            return Ok(None);
        }
        let res = get_children_maps(&self.maps, key, &children_meta)?;
        match res.key_hit {
            Some(c) => Ok(Some(read_node(&self.nodes, c.node_pos)?)),
            None => Ok(None),
        }
    }

    /// The parent of `node`, if it has one.
    pub fn get_parent(&self, node: NodeId) -> (r: Result<Option<NodeData>, TreeFileError>)
        requires
            self.inv(),
        ensures
            self.parent_result(node as int, r),
    {
        check_presence(&self.nodes, node)?;
        proof {
            lemma_record_inside(node as int, self.nodes.len() as int);
        }
        let node_data = get_node(&self.nodes, node_id_to_pos(node));
        match node_data.parent {
            Some(node_id) => {
                if node_id >= self.nodes.len() / NODE_LENGTH {
                    return Err(
                        TreeFileError::FileIOError {
                            msg: "while reading from node file: parent lies beyond its end".to_owned(),
                        },
                    );
                }
                proof {
                    lemma_record_inside(node_id as int, self.nodes.len() as int);
                }
                Ok(Some(get_node(&self.nodes, node_id_to_pos(node_id))))
            },
            None => Ok(None),
        }
    }

    /// Moves the counters of `node` by the given deltas; fails, changing
    /// nothing, where either would leave the range of `u64`.
    pub fn update_node_add(&mut self, node: NodeId, hits: i64, score: i64) -> (r: Result<
        (),
        TreeFileError,
    >)
        requires
            old(self).inv(),
        ensures
            final(self).update_result(old(self), node as int, hits, score, r),
    {
        check_presence(&self.nodes, node)?;
        proof {
            lemma_record_inside(node as int, self.nodes.len() as int);
        }
        let ghost old_self = *self;
        let ghost old_nodes = self.nodes@;
        let mut node_data = get_node(&self.nodes, node_id_to_pos(node));
        node_data.hits = add_and_subtract(node_data.hits, hits)?;
        node_data.score = add_and_subtract(node_data.score, score)?;
        update_node(&mut self.nodes, &node_data);
        proof {
            let pos = pos_of_id(node as int);
            lemma_uint_roundtrips();
            lemma_node_at_counters(old_nodes, pos, node_data.hits, node_data.score);
            lemma_splice(
                old_nodes,
                pos + 8,
                spec_u64_to_le_bytes(node_data.hits) + spec_u64_to_le_bytes(node_data.score),
            );
            assert forall|i: int|
                0 <= i < old_nodes.len() as int / NODE_LENGTH as int && i != node implies #[trigger] node_at(
                self.nodes@,
                pos_of_id(i),
            ) == node_at(old_nodes, pos_of_id(i)) by {
                lemma_record_inside(i, old_nodes.len() as int);
                lemma_node_at_same(self.nodes@, old_nodes, pos_of_id(i));
            }
            if old_self.wf() {
                lemma_wf_same_structure(old_self, *self);
            }
        }
        Ok(())
    }

    /// The children of `node`, as (key, node id); none where `node` does not
    /// exist or its child block cannot be read.
    pub fn get_child_iter(&self, node: NodeId) -> (r: Iter)
        requires
            self.inv(),
        ensures
            r.remaining() == self.iter_children(node as int),
    {
        if check_presence(&self.nodes, node).is_err() {
            return Iter::new(Vec::new());
        }
        proof {
            lemma_record_inside(node as int, self.nodes.len() as int);
        }
        let children_meta = get_node_child_meta(&self.nodes, node_id_to_pos(node));
        if children_meta.n_children == 0 {
            assert(self.children(node as int) =~= Seq::empty());
            return Iter::new(Vec::new());
        }
        match get_children_vec(&self.maps, &children_meta) {
            Ok(key_vals) => Iter::new(key_vals),
            Err(_) => Iter::new(Vec::new()),
        }
    }

    pub fn get_node(&self, node: NodeId) -> (r: Result<NodeData, TreeFileError>)
        requires
            self.inv(),
        ensures
            self.node_result(node as int, r),
    {
        check_presence(&self.nodes, node)?;
        proof {
            lemma_record_inside(node as int, self.nodes.len() as int);
        }
        Ok(get_node(&self.nodes, node_id_to_pos(node)))
    }
}

/// Reads the children meta of the record that starts at `node_pos`.
fn get_node_child_meta(nodes: &Vec<u8>, node_pos: u64) -> (r: ChildrenMeta)
    requires
        node_pos + NODE_LENGTH <= nodes.len(),
    ensures
        r.first_child_pos == node_at(nodes@, node_pos as int).first_child_pos,
        r.n_children == node_at(nodes@, node_pos as int).n_children,
        r.max_children == node_at(nodes@, node_pos as int).max_children,
{
    let p = node_pos as usize + NODE_CHILD_META_OFFSET;
    ChildrenMeta {
        first_child_pos: read_u64(nodes, p),
        n_children: read_u32(nodes, p + 8),
        max_children: read_u32(nodes, p + 12),
    }
}

/// Rewrites the children meta of the record that starts at `node_pos`.
fn update_node_child_meta(nodes: &mut Vec<u8>, node_pos: u64, children_meta: &ChildrenMeta)
    requires
        node_pos + NODE_LENGTH <= old(nodes).len(),
    ensures
        final(nodes)@ == splice(
            old(nodes)@,
            node_pos + NODE_CHILD_META_OFFSET,
            meta_bytes(
                children_meta.first_child_pos,
                children_meta.n_children,
                children_meta.max_children,
            ),
        ),
{
    let buf = node_children_to_buf(
        children_meta.first_child_pos,
        children_meta.n_children,
        children_meta.max_children,
    );
    write_bytes(nodes, node_pos as usize + NODE_CHILD_META_OFFSET, &buf);
}

/// The error for a child block that lies beyond the end of the map file.
fn block_outside() -> (r: TreeFileError)
    ensures
        r is FileIOError,
{
    TreeFileError::FileIOError {
        msg: "while reading from map file: child block lies beyond its end".to_owned(),
    }
}

/// Checks that the block of `children_meta` lies inside the map file.
fn check_block(maps: &Vec<u8>, children_meta: &ChildrenMeta) -> (r: Result<(), TreeFileError>)
    ensures
        block_inside(
            maps@,
            children_meta.first_child_pos,
            children_meta.n_children,
            children_meta.max_children,
        ) ==> r is Ok,
        !block_inside(
            maps@,
            children_meta.first_child_pos,
            children_meta.n_children,
            children_meta.max_children,
        ) ==> r is Err && r->Err_0 is FileIOError,
{
    let size: u64 = MAP_LENGTH as u64 * children_meta.max_children as u64;
    let len: u64 = maps.len() as u64;
    if children_meta.n_children > children_meta.max_children || children_meta.first_child_pos > len
        || size > len - children_meta.first_child_pos {
        Err(block_outside())
    } else {
        Ok(())
    }
}

/// Reads the live entries of a child block, and the last one with `key`.
fn get_children_maps(maps: &Vec<u8>, key: u16, children_meta: &ChildrenMeta) -> (r: Result<
    ChildrenMaps,
    TreeFileError,
>)
    ensures
        block_inside(
            maps@,
            children_meta.first_child_pos,
            children_meta.n_children,
            children_meta.max_children,
        ) ==> r is Ok && r->Ok_0.child_maps@ == entries_at(
            maps@,
            children_meta.first_child_pos as int,
            children_meta.n_children as nat,
        ) && r->Ok_0.key_hit == key_hit(r->Ok_0.child_maps@, key),
        !block_inside(
            maps@,
            children_meta.first_child_pos,
            children_meta.n_children,
            children_meta.max_children,
        ) ==> r is Err && r->Err_0 is FileIOError,
{
    check_block(maps, children_meta)?;
    let len = maps.len();
    let start = children_meta.first_child_pos as usize;
    let n = children_meta.n_children as usize;
    let mut child_no: usize = 0;
    let mut children_maps = ChildrenMaps { key_hit: None, child_maps: Vec::new() };
    while child_no < n
        invariant
            child_no <= n,
            n == children_meta.n_children,
            n <= children_meta.max_children,
            start == children_meta.first_child_pos,
            start + MAP_LENGTH * children_meta.max_children <= maps.len(),
            children_maps.child_maps@ == entries_at(maps@, start as int, child_no as nat),
            children_maps.key_hit == key_hit(children_maps.child_maps@, key),
        decreases n - child_no,
    {
        assert(MAP_LENGTH * child_no + MAP_LENGTH <= MAP_LENGTH * children_meta.max_children)
            by (nonlinear_arith)
            requires
                child_no < children_meta.max_children,
        ;
        let offset = start + MAP_LENGTH * child_no;
        let node_pos = read_u64(maps, offset);
        let child_key = read_u16(maps, offset + 8);
        let c = ChildMap { node_pos, key: child_key };
        let ghost before = children_maps.child_maps@;
        if child_key == key {
            children_maps.key_hit = Some(c);
        }
        children_maps.child_maps.push(c);
        proof {
            let cs = children_maps.child_maps@;
            assert(cs.drop_last() =~= before);
            lemma_last_key_index(before, key);
            assert(last_key_index(cs, key) == if child_key == key {
                before.len() as int
            } else {
                last_key_index(before, key)
            });
        }
        child_no = child_no + 1;
        assert(children_maps.child_maps@ =~= entries_at(maps@, start as int, child_no as nat));
    }
    Ok(children_maps)
}

/// Rewrites a child block whole with `children_maps`.
fn update_children_maps(
    maps: &mut Vec<u8>,
    children_maps: &Vec<ChildMap>,
    children_meta: &ChildrenMeta,
)
    requires
        block_inside(
            old(maps)@,
            children_meta.first_child_pos,
            children_meta.n_children,
            children_meta.max_children,
        ),
        children_maps.len() <= children_meta.max_children,
    ensures
        final(maps)@ == splice(
            old(maps)@,
            children_meta.first_child_pos as int,
            block_bytes(children_maps@, children_meta.max_children as nat),
        ),
{
    let len = maps.len();
    let buf = children_to_buf(children_maps, children_meta.max_children);
    write_bytes(maps, children_meta.first_child_pos as usize, &buf);
}

/// Appends a new child block of capacity `max_children` that holds `child_map`;
/// returns where it starts.
fn add_child_map(maps: &mut Vec<u8>, child_map: ChildMap, max_children: u32) -> (r: u64)
    requires
        1 <= max_children,
        block_fits(max_children),
    ensures
        r == old(maps)@.len(),
        final(maps)@ == old(maps)@ + block_bytes(seq![child_map], max_children as nat),
{
    let children = vec![child_map];
    assert(children@ =~= seq![child_map]);
    let buf = children_to_buf(&children, max_children);
    let children_pos = maps.len() as u64;
    append_bytes(maps, &buf);
    children_pos
}

/// Gives a node without children its child block, holding the new child as
/// its first entry, and points the node's record at it.
fn new_children_child_mappings(
    nodes: &mut Vec<u8>,
    maps: &mut Vec<u8>,
    parent_pos: u64,
    key: u16,
    child_pos: u64,
    children_meta: &ChildrenMeta,
) -> (r: Result<(), TreeFileError>)
    requires
        parent_pos + NODE_LENGTH <= old(nodes).len(),
    ensures
        children_meta.max_children == 0 ==> r is Err && r->Err_0 is LogicError,
        children_meta.max_children > 0 && !block_fits(children_meta.max_children) ==> r is Err
            && r->Err_0 is FileIOError,
        r is Err ==> final(nodes)@ == old(nodes)@ && final(maps)@ == old(maps)@,
        children_meta.max_children > 0 && block_fits(children_meta.max_children) ==> r is Ok
            && final(maps)@ == old(maps)@ + block_bytes(
            seq![ChildMap { node_pos: child_pos, key }],
            children_meta.max_children as nat,
        ) && final(nodes)@ == splice(
            old(nodes)@,
            parent_pos + NODE_CHILD_META_OFFSET,
            meta_bytes(old(maps)@.len() as u64, 1, children_meta.max_children),
        ),
{
    if children_meta.max_children == 0 {
        return Err(
            TreeFileError::LogicError {
                msg: "trying to add more children than allowed for parent".to_owned(),
            },
        );
    }
    if children_meta.max_children as u64 * MAP_LENGTH as u64 > usize::MAX as u64 {
        return Err(
            TreeFileError::FileIOError {
                msg: "while writing to map file: child block too large for memory".to_owned(),
            },
        );
    }
    let new_child_map = ChildMap { node_pos: child_pos, key };
    let first_child_pos = add_child_map(maps, new_child_map, children_meta.max_children);
    let new_meta = ChildrenMeta {
        first_child_pos,
        n_children: 1,
        max_children: children_meta.max_children,
    };
    update_node_child_meta(nodes, parent_pos, &new_meta);
    Ok(())
}

/// Adds the new child at the end of the live entries of an existing child
/// block, unless its key is already there or the block is full.
fn update_children_child_mappings(
    nodes: &mut Vec<u8>,
    maps: &mut Vec<u8>,
    parent_pos: u64,
    key: u16,
    child_pos: u64,
    children_meta: &ChildrenMeta,
) -> (r: Result<(), TreeFileError>)
    requires
        parent_pos + NODE_LENGTH <= old(nodes).len(),
    ensures
        ({
            let inside = block_inside(
                old(maps)@,
                children_meta.first_child_pos,
                children_meta.n_children,
                children_meta.max_children,
            );
            let es = entries_at(
                old(maps)@,
                children_meta.first_child_pos as int,
                children_meta.n_children as nat,
            );
            &&& !inside ==> r is Err && r->Err_0 is FileIOError
            &&& inside && (key_hit(es, key) is Some || children_meta.n_children
                >= children_meta.max_children) ==> r is Err && r->Err_0 is LogicError
            &&& r is Err ==> final(nodes)@ == old(nodes)@ && final(maps)@ == old(maps)@
            &&& inside && key_hit(es, key) is None && children_meta.n_children
                < children_meta.max_children ==> r is Ok && final(maps)@ == splice(
                old(maps)@,
                children_meta.first_child_pos as int,
                block_bytes(
                    es.push(ChildMap { node_pos: child_pos, key }),
                    children_meta.max_children as nat,
                ),
            ) && final(nodes)@ == splice(
                old(nodes)@,
                parent_pos + NODE_CHILD_META_OFFSET,
                meta_bytes(
                    children_meta.first_child_pos,
                    (children_meta.n_children + 1) as u32,
                    children_meta.max_children,
                ),
            )
        }),
{
    let mut res = get_children_maps(maps, key, children_meta)?;
    if res.key_hit.is_some() {
        return Err(
            TreeFileError::LogicError {
                msg: "key already present, would turn existing child node to a ghost node".to_owned(),
            },
        );
    }
    res.child_maps.push(ChildMap { node_pos: child_pos, key });
    if res.child_maps.len() > children_meta.max_children as usize {
        return Err(
            TreeFileError::LogicError {
                msg: "trying to add more children than allowed for parent".to_owned(),
            },
        );
    }
    let new_children_len = res.child_maps.len() as u32;
    update_children_maps(maps, &res.child_maps, children_meta);
    let new_meta = ChildrenMeta {
        first_child_pos: children_meta.first_child_pos,
        n_children: new_children_len,
        max_children: children_meta.max_children,
    };
    update_node_child_meta(nodes, parent_pos, &new_meta);
    Ok(())
}

/// What a node file reads as after the children meta of record `p` is
/// rewritten and a record is appended for its new child.
proof fn lemma_nodes_after_add(
    nodes: Seq<u8>,
    p: int,
    first_child_pos: u64,
    n_children: u32,
    max_children: u32,
    hits: u64,
    score: u64,
    child_max: u32,
)
    requires
        nodes.len() as int % NODE_LENGTH as int == 0,
        nodes.len() <= usize::MAX,
        0 <= p < nodes.len() as int / NODE_LENGTH as int,
    ensures
        ({
            let x = nodes.len() as int / NODE_LENGTH as int;
            let t = splice(
                nodes,
                pos_of_id(p) + NODE_CHILD_META_OFFSET,
                meta_bytes(first_child_pos, n_children, max_children),
            ) + record_bytes(pos_of_id(p) as u64, hits, score, 0, 0, child_max);
            let d = node_at(nodes, pos_of_id(p));
            &&& t.len() == nodes.len() + NODE_LENGTH
            &&& forall|i: int|
                0 <= i < x && i != p ==> #[trigger] node_at(t, pos_of_id(i)) == node_at(
                    nodes,
                    pos_of_id(i),
                )
            &&& node_at(t, pos_of_id(p)) == (NodeData {
                node_id: d.node_id,
                node_pos: d.node_pos,
                parent: d.parent,
                hits: d.hits,
                score: d.score,
                first_child_pos,
                n_children,
                max_children,
            })
            &&& node_at(t, pos_of_id(x)) == (NodeData {
                node_id: x as NodeId,
                node_pos: pos_of_id(x) as u64,
                parent: Some(p as NodeId),
                hits,
                score,
                first_child_pos: 0,
                n_children: 0,
                max_children: child_max,
            })
        }),
{
    lemma_uint_roundtrips();
    let x = nodes.len() as int / NODE_LENGTH as int;
    let pp = pos_of_id(p);
    let m = meta_bytes(first_child_pos, n_children, max_children);
    let s1 = splice(nodes, pp + NODE_CHILD_META_OFFSET, m);
    let rec = record_bytes(pp as u64, hits, score, 0, 0, child_max);
    let t = s1 + rec;
    lemma_record_inside(p, nodes.len() as int);
    lemma_splice(nodes, pp + NODE_CHILD_META_OFFSET, m);
    assert(nodes.len() == pos_of_id(x));
    assert forall|i: int| 0 <= i < x && i != p implies #[trigger] node_at(t, pos_of_id(i))
        == node_at(nodes, pos_of_id(i)) by {
        lemma_record_inside(i, nodes.len() as int);
        let a = pos_of_id(i);
        assert(t.subrange(a, a + NODE_LENGTH as int) =~= s1.subrange(a, a + NODE_LENGTH as int));
        assert(s1.subrange(a, a + NODE_LENGTH as int) == nodes.subrange(
            a,
            a + NODE_LENGTH as int,
        ));
        lemma_node_at_same(t, nodes, a);
    }
    lemma_node_at_meta(nodes, pp, first_child_pos, n_children, max_children);
    assert(t.subrange(pp, pp + NODE_LENGTH as int) =~= s1.subrange(pp, pp + NODE_LENGTH as int));
    lemma_node_at_same(t, s1, pp);
    assert(t.subrange(pos_of_id(x), pos_of_id(x) + NODE_LENGTH as int) =~= rec);
    lemma_record_fields(t, pos_of_id(x), pp as u64, hits, score, 0, 0, child_max);
    assert(pos_of_id(x) / NODE_LENGTH as int == x);
    assert((pp as u64) != NO_PARENT);
    assert((pp as u64 / NODE_LENGTH as u64) as int == p);
}

/// A tree of a top node alone is well formed.
proof fn lemma_top_only_wf(t: TreeMap, max: u32)
    requires
        t.inv(),
        t.node_image() == top_record(max),
    ensures
        t.wf(),
{
    lemma_uint_roundtrips();
    assert(t.node_image().subrange(0, 40) =~= top_record(max));
    lemma_record_fields(t.node_image(), 0, NO_PARENT, 0, 0, 0, 0, max);
    assert(t.len_spec() == 1);
    assert(t.node(0).n_children == 0);
    assert forall|i: int| 0 <= i < 1 implies #[trigger] t.readable(i) by {}
    assert forall|i: int| 0 <= i < 1 implies #[trigger] t.keys_unique(i) by {}
    assert forall|a: int, b: int| 0 <= a < 1 && 0 <= b < 1 implies #[trigger] t.blocks_apart(
        a,
        b,
    ) by {}
}

/// A node holds no more children than its block allows, and lists as many
/// children as its count says.
pub proof fn lemma_children_bounded(t: TreeMap, id: int)
    requires
        t.wf(),
        0 <= id < t.len_spec(),
    ensures
        t.node(id).n_children <= t.node(id).max_children,
        t.children(id).len() == t.node(id).n_children,
{
    assert(t.readable(id));
}

/// Every node but the top has a parent, whose children list it; the top has
/// none.
pub proof fn lemma_parent_lists_child(t: TreeMap, x: int)
    requires
        t.wf(),
        0 <= x < t.len_spec(),
    ensures
        x == 0 ==> t.node(x).parent is None,
        x > 0 ==> ({
            let p = t.node(x).parent->Some_0 as int;
            &&& t.node(x).parent is Some
            &&& p < x
            &&& t.node(p).node_id == p
            &&& t.readable(p)
            &&& exists|key: u16| #[trigger] t.children(p).contains((key, x as NodeId))
        }),
{
    if x > 0 {
        assert(t.parent_linked(x));
        let p = t.node(x).parent->Some_0 as int;
        assert(t.readable(p));
        let j = choose|j: int|
            0 <= j < t.node(p).n_children && #[trigger] t.entries(p)[j].node_pos == pos_of_id(x);
        let c = t.entries(p)[j];
        assert(pos_of_id(x) / NODE_LENGTH as int == x);
        assert(t.children(p)[j] == (c.key, x as NodeId));
        assert(t.children(p).contains((c.key, x as NodeId)));
        assert(pos_of_id(p) / NODE_LENGTH as int == p);
    }
}

/// Looking a key up under a node follows exactly the entry that iterating
/// its children lists under that key, and that entry leads to the child's
/// record.
pub proof fn lemma_lookup_matches_iteration(t: TreeMap, id: int, key: u16, e: NodeId)
    requires
        t.wf(),
        0 <= id < t.len_spec(),
    ensures
        t.readable(id),
        (t.child_lookup(id, key) is Some && key_and_id(t.child_lookup(id, key)->Some_0).1 == e)
            <==> t.children(id).contains((key, e)),
        t.child_lookup(id, key) is Some ==> ({
            let c = t.child_lookup(id, key)->Some_0;
            let k = key_and_id(c).1 as int;
            &&& c.node_pos + NODE_LENGTH <= t.node_image().len()
            &&& node_at(t.node_image(), c.node_pos as int) == t.node(k)
            &&& t.node(k).node_id == k
        }),
{
    assert(t.readable(id));
    assert(t.keys_unique(id));
    let es = t.entries(id);
    let n = t.node(id).n_children as int;
    lemma_last_key_index(es, key);
    let i = last_key_index(es, key);
    if t.children(id).contains((key, e)) {
        let j = choose|j: int| 0 <= j < t.children(id).len() && t.children(id)[j] == (key, e);
        assert(es[j].key == key);
        if i != j {
            assert(es[i].key != es[j].key);
        }
    }
    if i >= 0 && n > 0 {
        assert(t.children(id)[i] == key_and_id(es[i]));
    }
    if t.child_lookup(id, key) is Some {
        let c = t.child_lookup(id, key)->Some_0;
        assert(t.child_linked(id, i));
        let k = c.node_pos as int / NODE_LENGTH as int;
        lemma_record_inside(k, t.node_image().len() as int);
        assert(pos_of_id(k) == c.node_pos);
        assert(pos_of_id(k) / NODE_LENGTH as int == k);
    }
}

/// A node with as many children as it allows refuses another one.
pub proof fn lemma_full_node_refuses(t: TreeMap, id: int, key: u16)
    requires
        t.wf(),
        0 <= id < t.len_spec(),
        t.node(id).n_children == t.node(id).max_children,
    ensures
        t.add_child_refused(id, key),
{
    assert(t.readable(id));
}

/// A key already among a node's children is refused.
pub proof fn lemma_duplicate_key_refused(t: TreeMap, id: int, key: u16, e: NodeId)
    requires
        t.wf(),
        0 <= id < t.len_spec(),
        t.children(id).contains((key, e)),
    ensures
        t.add_child_refused(id, key),
{
    lemma_lookup_matches_iteration(t, id, key, e);
}

/// Reopening the files of a tree, without `TruncateCreate`, gives back the
/// same images, so every query answers as before.
pub proof fn lemma_reopen_round_trip(t: TreeMap, max_top_children: u32, open_mode: OpenMode)
    requires
        t.inv(),
        open_mode != OpenMode::TruncateCreate,
    ensures
        opened_images(max_top_children, open_mode, Some((t.node_image(), t.map_image()))) == Some(
            (t.node_image(), t.map_image()),
        ),
{
    let n = t.node_image();
    assert(n.len() as int / NODE_LENGTH as int * NODE_LENGTH as int == n.len());
    assert(n.subrange(0, n.len() as int) =~= n);
}

/// Opening the images that an opening produced, with `OpenCreate`, produces
/// them again.
pub proof fn lemma_open_idempotent(
    max_top_children: u32,
    other_max: u32,
    open_mode: OpenMode,
    existing: Option<(Seq<u8>, Seq<u8>)>,
)
    requires
        opened_images(max_top_children, open_mode, existing) is Some,
    ensures
        opened_images(
            other_max,
            OpenMode::OpenCreate,
            opened_images(max_top_children, open_mode, existing),
        ) == opened_images(max_top_children, open_mode, existing),
{
    lemma_uint_roundtrips();
    let im = opened_images(max_top_children, open_mode, existing)->Some_0;
    let found = match open_mode {
        OpenMode::TruncateCreate => (Seq::<u8>::empty(), Seq::<u8>::empty()),
        OpenMode::OpenCreate => match existing {
            Some(e) => e,
            None => (Seq::<u8>::empty(), Seq::<u8>::empty()),
        },
        OpenMode::MustExist => existing->Some_0,
    };
    let k = found.0.len() as int / NODE_LENGTH as int * NODE_LENGTH as int;
    assert(k % NODE_LENGTH as int == 0) by (nonlinear_arith)
        requires
            k == found.0.len() as int / NODE_LENGTH as int * NODE_LENGTH as int,
    ;
    assert(0 <= k <= found.0.len()) by (nonlinear_arith)
        requires
            k == found.0.len() as int / NODE_LENGTH as int * NODE_LENGTH as int,
    ;
    assert(im.0.len() as int % NODE_LENGTH as int == 0);
    assert(im.0.len() > 0);
    assert(im.0.len() as int / NODE_LENGTH as int * NODE_LENGTH as int == im.0.len());
    assert(im.0.subrange(0, im.0.len() as int) =~= im.0);
}

/// Well-formedness holds of a tree whose records differ from those of a
/// well-formed one in their counters at most.
proof fn lemma_wf_same_structure(a: TreeMap, b: TreeMap)
    requires
        a.wf(),
        b.inv(),
        b.map_image() == a.map_image(),
        b.len_spec() == a.len_spec(),
        forall|i: int|
            0 <= i < a.len_spec() ==> {
                &&& #[trigger] b.node(i).parent == a.node(i).parent
                &&& b.node(i).first_child_pos == a.node(i).first_child_pos
                &&& b.node(i).n_children == a.node(i).n_children
                &&& b.node(i).max_children == a.node(i).max_children
            },
    ensures
        b.wf(),
{
    let n = a.len_spec() as int;
    assert forall|i: int| 0 <= i < n implies #[trigger] b.entries(i) == a.entries(i) by {
        assert(b.node(i).parent == a.node(i).parent);
    }
    assert(b.node(0).parent == a.node(0).parent);
    assert forall|i: int| 0 <= i < n implies #[trigger] b.readable(i) by {
        assert(b.node(i).parent == a.node(i).parent);
        assert(a.readable(i));
    }
    assert forall|i: int| 0 < i < n implies #[trigger] b.parent_linked(i) by {
        assert(b.node(i).parent == a.node(i).parent);
        assert(a.parent_linked(i));
        let q = a.node(i).parent->Some_0 as int;
        assert(b.node(q).parent == a.node(q).parent);
        assert(b.entries(q) == a.entries(q));
    }
    assert forall|i: int, j: int| 0 <= i < n && 0 <= j < b.node(i).n_children implies #[trigger] b.child_linked(
        i,
        j,
    ) by {
        assert(b.node(i).parent == a.node(i).parent);
        assert(a.child_linked(i, j));
        assert(b.entries(i) == a.entries(i));
        let k = a.entries(i)[j].node_pos as int / NODE_LENGTH as int;
        assert(b.node(k).parent == a.node(k).parent);
    }
    assert forall|i: int| 0 <= i < n implies #[trigger] b.keys_unique(i) by {
        assert(b.node(i).parent == a.node(i).parent);
        assert(a.keys_unique(i));
        assert(b.entries(i) == a.entries(i));
    }
    assert forall|x: int, y: int| 0 <= x < n && 0 <= y < n implies #[trigger] b.blocks_apart(
        x,
        y,
    ) by {
        assert(b.node(x).parent == a.node(x).parent);
        assert(b.node(y).parent == a.node(y).parent);
        assert(a.blocks_apart(x, y));
    }
}

/// Adding a child keeps a well-formed tree well formed.
proof fn lemma_add_child_wf(
    o: TreeMap,
    t: TreeMap,
    p: int,
    key: u16,
    hits: u64,
    score: u64,
    child_max: u32,
)
    requires
        o.wf(),
        o.add_child_allowed(p, key),
        t.child_added(&o, p, key, hits, score, child_max),
        forall|i: int|
            0 <= i < o.len_spec() && i != p && o.node(i).n_children > 0 ==> #[trigger] t.entries(
                i,
            ) == o.entries(i),
    ensures
        t.wf(),
{
    let x = o.len_spec() as int;
    let n = t.len_spec() as int;
    let dp = o.node(p);
    let newc = ChildMap { node_pos: pos_of_id(x) as u64, key };
    assert(pos_of_id(x) / NODE_LENGTH as int == x);
    assert(pos_of_id(x) % NODE_LENGTH as int == 0);
    assert(t.node(x) == o.new_child(p, hits, score, child_max));
    // parents are kept
    assert forall|k: int| 0 <= k < x implies #[trigger] t.node(k).parent == o.node(k).parent by {
        if k != p {
            assert(t.node(k) == o.node(k));
        }
    }
    // the entries of `p` gain the new child
    assert forall|j: int| 0 <= j < dp.n_children implies #[trigger] t.entries(p)[j] == o.entries(
        p,
    )[j] by {}
    assert(t.entries(p)[dp.n_children as int] == newc);
    lemma_last_key_index(o.entries(p), key);
    assert(o.readable(p));
    // the top node keeps no parent
    assert(t.node(0).parent is None) by {
        assert(o.node(0).parent is None);
    }
    assert forall|i: int| 0 <= i < n implies #[trigger] t.readable(i) by {
        if i < x && i != p {
            assert(o.readable(i));
            assert(t.node(i) == o.node(i));
        }
    }
    assert forall|i: int| 0 < i < n implies #[trigger] t.parent_linked(i) by {
        if i == x {
            assert(t.entries(p)[dp.n_children as int].node_pos == pos_of_id(i));
        } else {
            assert(o.parent_linked(i));
            let q = o.node(i).parent->Some_0 as int;
            assert(t.node(i).parent == o.node(i).parent);
            let j = choose|j: int|
                0 <= j < o.node(q).n_children && #[trigger] o.entries(q)[j].node_pos == pos_of_id(
                    i,
                );
            if q == p {
                assert(t.entries(q)[j].node_pos == pos_of_id(i));
            } else {
                assert(t.node(q) == o.node(q));
                assert(t.entries(q) == o.entries(q));
                assert(t.entries(q)[j].node_pos == pos_of_id(i));
            }
        }
    }
    assert forall|i: int, j: int| 0 <= i < n && 0 <= j < t.node(i).n_children implies #[trigger] t.child_linked(
        i,
        j,
    ) by {
        if i == p {
            if j < dp.n_children {
                assert(o.child_linked(i, j));
                let k = o.entries(i)[j].node_pos as int / NODE_LENGTH as int;
                assert(t.node(k).parent == o.node(k).parent);
            }
        } else if i < x {
            assert(t.node(i) == o.node(i));
            assert(o.child_linked(i, j));
            assert(t.entries(i) == o.entries(i));
            let k = o.entries(i)[j].node_pos as int / NODE_LENGTH as int;
            assert(t.node(k).parent == o.node(k).parent);
        }
    }
    assert forall|i: int| 0 <= i < n implies #[trigger] t.keys_unique(i) by {
        assert forall|j: int, k: int| 0 <= j < k < t.node(i).n_children implies #[trigger] t.entries(
            i,
        )[j].key != #[trigger] t.entries(i)[k].key by {
            if i == p {
                assert(o.keys_unique(i));
                if k < dp.n_children {
                    assert(o.entries(i)[j].key != o.entries(i)[k].key);
                }
            } else if i < x {
                assert(t.node(i) == o.node(i));
                assert(o.keys_unique(i));
                assert(t.entries(i) == o.entries(i));
                assert(o.entries(i)[j].key != o.entries(i)[k].key);
            }
        }
    }
    assert forall|a: int, b: int| 0 <= a < n && 0 <= b < n implies #[trigger] t.blocks_apart(
        a,
        b,
    ) by {
        if a < x && b < x {
            assert(o.blocks_apart(a, b));
            assert(o.readable(a));
            assert(o.readable(b));
            if a != p {
                assert(t.node(a) == o.node(a));
            }
            if b != p {
                assert(t.node(b) == o.node(b));
            }
        }
    }
}

/// The live entries of a block written whole from `cs`.
proof fn lemma_block_entries(maps: Seq<u8>, start: int, cs: Seq<ChildMap>, max: nat)
    requires
        0 <= start,
        cs.len() <= max,
        start + MAP_LENGTH * max <= maps.len(),
        maps.subrange(start, start + MAP_LENGTH * max) == block_bytes(cs, max),
    ensures
        entries_at(maps, start, cs.len()) == cs,
{
    lemma_entries_bytes(cs);
    assert(MAP_LENGTH * cs.len() <= MAP_LENGTH * max) by (nonlinear_arith)
        requires
            cs.len() <= max,
    ;
    assert(maps.subrange(start, start + MAP_LENGTH * cs.len()) =~= block_bytes(cs, max).subrange(
        0,
        MAP_LENGTH * cs.len() as int,
    ));
    assert(block_bytes(cs, max).subrange(0, MAP_LENGTH * cs.len() as int) =~= entries_bytes(cs));
    lemma_entries_decode(maps, start, cs);
}

/// Reads the live entries of a child block as (key, node id).
fn get_children_vec(maps: &Vec<u8>, children_meta: &ChildrenMeta) -> (r: Result<
    Vec<(u16, NodeId)>,
    TreeFileError,
>)
    ensures
        block_inside(
            maps@,
            children_meta.first_child_pos,
            children_meta.n_children,
            children_meta.max_children,
        ) ==> r is Ok && r->Ok_0@ == entries_at(
            maps@,
            children_meta.first_child_pos as int,
            children_meta.n_children as nat,
        ).map_values(|c: ChildMap| key_and_id(c)),
        !block_inside(
            maps@,
            children_meta.first_child_pos,
            children_meta.n_children,
            children_meta.max_children,
        ) ==> r is Err && r->Err_0 is FileIOError,
{
    check_block(maps, children_meta)?;
    let len = maps.len();
    let start = children_meta.first_child_pos as usize;
    let n = children_meta.n_children as usize;
    let ghost es = entries_at(maps@, start as int, n as nat);
    let mut child_no: usize = 0;
    let mut res: Vec<(u16, NodeId)> = Vec::new();
    while child_no < n
        invariant
            child_no <= n,
            n == children_meta.n_children,
            n <= children_meta.max_children,
            start == children_meta.first_child_pos,
            start + MAP_LENGTH * children_meta.max_children <= maps.len(),
            es == entries_at(maps@, start as int, n as nat),
            res@ == es.subrange(0, child_no as int).map_values(|c: ChildMap| key_and_id(c)),
        decreases n - child_no,
    {
        assert(MAP_LENGTH * child_no + MAP_LENGTH <= MAP_LENGTH * children_meta.max_children)
            by (nonlinear_arith)
            requires
                child_no < children_meta.max_children,
        ;
        let offset = start + MAP_LENGTH * child_no;
        let node_pos = read_u64(maps, offset);
        let key = read_u16(maps, offset + 8);
        res.push((key, pos_to_node_id(node_pos)));
        child_no = child_no + 1;
        assert(res@ =~= es.subrange(0, child_no as int).map_values(|c: ChildMap| key_and_id(c)));
    }
    assert(es.subrange(0, n as int) =~= es);
    Ok(res)
}

/// Rewrites the counters of the record of `node_data`.
fn update_node(nodes: &mut Vec<u8>, node_data: &NodeData)
    requires
        node_data.node_pos + NODE_LENGTH <= old(nodes).len(),
    ensures
        final(nodes)@ == splice(
            old(nodes)@,
            node_data.node_pos + 8,
            spec_u64_to_le_bytes(node_data.hits) + spec_u64_to_le_bytes(node_data.score),
        ),
{
    let mut buf = u64_to_le_bytes(node_data.hits);
    append_bytes(&mut buf, &u64_to_le_bytes(node_data.score));
    proof {
        lemma_uint_roundtrips();
    }
    write_bytes(nodes, node_data.node_pos as usize + 8, &buf);
}

/// `NonExistingNode` unless `node` has a record.
fn check_presence(nodes: &Vec<u8>, node: NodeId) -> (r: Result<(), TreeFileError>)
    ensures
        node < nodes@.len() as int / NODE_LENGTH as int ==> r is Ok,
        node >= nodes@.len() as int / NODE_LENGTH as int ==> r == Err::<(), TreeFileError>(
            TreeFileError::NonExistingNode,
        ),
{
    if node >= nodes.len() / NODE_LENGTH {
        Err(TreeFileError::NonExistingNode)
    } else {
        Ok(())
    }
}

/// Reads the record that starts at `node_pos`; a `FileIOError` where it
/// does not lie wholly inside the node file.
fn read_node(nodes: &Vec<u8>, node_pos: u64) -> (r: Result<NodeData, TreeFileError>)
    ensures
        node_pos + NODE_LENGTH <= nodes.len() ==> r == Ok::<NodeData, TreeFileError>(
            node_at(nodes@, node_pos as int),
        ),
        node_pos + NODE_LENGTH > nodes.len() ==> r is Err && r->Err_0 is FileIOError,
{
    let len = nodes.len() as u64;
    if node_pos > len || len - node_pos < NODE_LENGTH as u64 {
        return Err(
            TreeFileError::FileIOError {
                msg: "while reading from node file: record lies beyond its end".to_owned(),
            },
        );
    }
    Ok(get_node(nodes, node_pos))
}

/// Reads the record that starts at `node_pos`.
fn get_node(nodes: &Vec<u8>, node_pos: u64) -> (r: NodeData)
    requires
        node_pos + NODE_LENGTH <= nodes.len(),
    ensures
        r == node_at(nodes@, node_pos as int),
{
    let p = node_pos as usize;
    let parent_pos = read_u64(nodes, p);
    NodeData {
        node_id: pos_to_node_id(node_pos),
        node_pos,
        parent: if parent_pos == NO_PARENT {
            None
        } else {
            Some(pos_to_node_id(parent_pos))
        },
        hits: read_u64(nodes, p + 8),
        score: read_u64(nodes, p + 16),
        first_child_pos: read_u64(nodes, p + 24),
        n_children: read_u32(nodes, p + 32),
        max_children: read_u32(nodes, p + 36),
    }
}

/// Appends a record without children; returns where it starts.
fn add_node(nodes: &mut Vec<u8>, parent_pos: u64, hits: u64, score: u64, max_children: u32) -> (r:
    u64)
    ensures
        r == old(nodes)@.len(),
        final(nodes)@ == old(nodes)@ + record_bytes(parent_pos, hits, score, 0, 0, max_children),
{
    let node_pos = nodes.len() as u64;
    let node_data = NodeData {
        node_id: 0,
        node_pos,
        parent: None,
        hits,
        score,
        first_child_pos: 0,
        n_children: 0,
        max_children,
    };
    let buf = node_to_buf(parent_pos, &node_data);
    append_bytes(nodes, &buf);
    node_pos
}

} // verus!
