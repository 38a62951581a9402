//! The on-disk layout: fixed-size node records, child map entries, and the
//! little-endian integers they are made of, read from and written into the
//! byte images of the files.
use vstd::prelude::*;
use vstd::bytes::*;
use vstd::slice::slice_subrange;
use crate::{NodeData, NodeId};

verus! {

broadcast use vstd::seq::group_seq_axioms;

/// Size of a node record in the node file.
pub const NODE_LENGTH: usize = 40;
/// Size of a child map entry in the map file.
pub const MAP_LENGTH: usize = 10;
/// Offset of the children meta (first child block, count, capacity) inside a record.
pub const NODE_CHILD_META_OFFSET: usize = 24;
/// Size of the children meta.
pub const NODE_CHILD_META_LENGTH: usize = 16;
/// The parent position of a node without parent.
pub const NO_PARENT: u64 = 0xffff_ffff_ffff_ffff;

/// One entry of a child block: where the child's record is, and its key.
#[derive(Clone, Copy, Debug, PartialEq, Eq, Structural)]
pub struct ChildMap {
    pub node_pos: u64,
    pub key: u16,
}

pub open spec fn u64_at(s: Seq<u8>, pos: int) -> u64 {
    spec_u64_from_le_bytes(s.subrange(pos, pos + 8))
}

pub open spec fn u32_at(s: Seq<u8>, pos: int) -> u32 {
    spec_u32_from_le_bytes(s.subrange(pos, pos + 4))
}

pub open spec fn u16_at(s: Seq<u8>, pos: int) -> u16 {
    spec_u16_from_le_bytes(s.subrange(pos, pos + 2))
}

/// `s` with the bytes from `pos` on replaced by `t`.
pub open spec fn splice(s: Seq<u8>, pos: int, t: Seq<u8>) -> Seq<u8> {
    s.subrange(0, pos) + t + s.subrange(pos + t.len(), s.len() as int)
}

pub open spec fn pos_of_id(id: int) -> int {
    id * NODE_LENGTH as int
}

/// The node whose record starts at byte `pos` of the node file.
pub open spec fn node_at(nodes: Seq<u8>, pos: int) -> NodeData {
    let parent_pos = u64_at(nodes, pos);
    NodeData {
        node_id: (pos / NODE_LENGTH as int) as NodeId,
        node_pos: pos as u64,
        parent: if parent_pos == NO_PARENT {
            None
        } else {
            Some((parent_pos / NODE_LENGTH as u64) as NodeId)
        },
        hits: u64_at(nodes, pos + 8),
        score: u64_at(nodes, pos + 16),
        first_child_pos: u64_at(nodes, pos + 24),
        n_children: u32_at(nodes, pos + 32),
        max_children: u32_at(nodes, pos + 36),
    }
}

/// The bytes of a node record.
pub open spec fn record_bytes(
    parent_pos: u64,
    hits: u64,
    score: u64,
    first_child_pos: u64,
    n_children: u32,
    max_children: u32,
) -> Seq<u8> {
    spec_u64_to_le_bytes(parent_pos) + spec_u64_to_le_bytes(hits) + spec_u64_to_le_bytes(score)
        + meta_bytes(first_child_pos, n_children, max_children)
}

/// The bytes of the children meta of a record.
pub open spec fn meta_bytes(first_child_pos: u64, n_children: u32, max_children: u32) -> Seq<u8> {
    spec_u64_to_le_bytes(first_child_pos) + spec_u32_to_le_bytes(n_children)
        + spec_u32_to_le_bytes(max_children)
}

/// The child map entry that starts at byte `pos` of the map file.
pub open spec fn entry_at(maps: Seq<u8>, pos: int) -> ChildMap {
    ChildMap { node_pos: u64_at(maps, pos), key: u16_at(maps, pos + 8) }
}

/// The first `n` entries of the block that starts at `start`.
pub open spec fn entries_at(maps: Seq<u8>, start: int, n: nat) -> Seq<ChildMap> {
    Seq::new(n, |j: int| entry_at(maps, start + MAP_LENGTH as int * j))
}

pub open spec fn entry_bytes(c: ChildMap) -> Seq<u8> {
    spec_u64_to_le_bytes(c.node_pos) + spec_u16_to_le_bytes(c.key)
}

pub open spec fn entries_bytes(cs: Seq<ChildMap>) -> Seq<u8>
    decreases cs.len(),
{
    if cs.len() == 0 {
        Seq::empty()
    } else {
        entries_bytes(cs.drop_last()) + entry_bytes(cs.last())
    }
}

/// A child block of capacity `max`: the entries, then all-ones bytes.
pub open spec fn block_bytes(cs: Seq<ChildMap>, max: nat) -> Seq<u8> {
    entries_bytes(cs) + Seq::new(
        (MAP_LENGTH as int * (max - cs.len())) as nat,
        |i: int| 0xffu8,
    )
}

/// Index of the last entry with `key`, or -1.
pub open spec fn last_key_index(cs: Seq<ChildMap>, key: u16) -> int
    decreases cs.len(),
{
    if cs.len() == 0 {
        -1
    } else if cs.last().key == key {
        cs.len() - 1
    } else {
        last_key_index(cs.drop_last(), key)
    }
}

pub proof fn lemma_last_key_index(cs: Seq<ChildMap>, key: u16)
    ensures
        -1 <= last_key_index(cs, key) < cs.len(),
        last_key_index(cs, key) >= 0 ==> cs[last_key_index(cs, key)].key == key,
        forall|j: int|
            last_key_index(cs, key) < j < cs.len() ==> #[trigger] cs[j].key != key,
    decreases cs.len(),
{
    if cs.len() > 0 {
        let d = cs.drop_last();
        lemma_last_key_index(d, key);
        assert forall|j: int| last_key_index(cs, key) < j < cs.len() implies #[trigger] cs[j].key
            != key by {
            if j < cs.len() - 1 {
                assert(cs[j] == d[j]);
            }
        }
    }
}

/// A record of a node file of `len` bytes lies wholly inside it.
pub proof fn lemma_record_inside(id: int, len: int)
    requires
        0 <= id < len / NODE_LENGTH as int,
        0 <= len,
    ensures
        id * NODE_LENGTH + NODE_LENGTH <= len,
        0 <= id * NODE_LENGTH,
{
    assert(id * NODE_LENGTH + NODE_LENGTH <= len) by (nonlinear_arith)
        requires
            0 <= id < len / NODE_LENGTH as int,
            0 <= len,
    ;
    assert(0 <= id * NODE_LENGTH) by (nonlinear_arith)
        requires
            0 <= id,
    ;
}

/// A record reads the same from two images that agree on its bytes.
pub proof fn lemma_node_at_same(s1: Seq<u8>, s2: Seq<u8>, pos: int)
    requires
        0 <= pos,
        pos + NODE_LENGTH <= s1.len(),
        pos + NODE_LENGTH <= s2.len(),
        s1.subrange(pos, pos + NODE_LENGTH as int) == s2.subrange(pos, pos + NODE_LENGTH as int),
    ensures
        node_at(s1, pos) == node_at(s2, pos),
{
    let a = s1.subrange(pos, pos + NODE_LENGTH as int);
    assert forall|i: int, j: int| 0 <= i <= j <= NODE_LENGTH implies #[trigger] s1.subrange(
        pos + i,
        pos + j,
    ) == s2.subrange(pos + i, pos + j) by {
        assert(s1.subrange(pos + i, pos + j) =~= a.subrange(i, j));
        assert(s2.subrange(pos + i, pos + j) =~= a.subrange(i, j));
    }
    assert(s1.subrange(pos + 0, pos + 8) == s2.subrange(pos + 0, pos + 8));
}

/// Rewriting the children meta of a record changes those three fields alone.
pub proof fn lemma_node_at_meta(
    s: Seq<u8>,
    pos: int,
    first_child_pos: u64,
    n_children: u32,
    max_children: u32,
)
    requires
        0 <= pos,
        pos + NODE_LENGTH <= s.len(),
    ensures
        ({
            let t = splice(
                s,
                pos + NODE_CHILD_META_OFFSET,
                meta_bytes(first_child_pos, n_children, max_children),
            );
            let d = node_at(s, pos);
            node_at(t, pos) == (NodeData {
                node_id: d.node_id,
                node_pos: d.node_pos,
                parent: d.parent,
                hits: d.hits,
                score: d.score,
                first_child_pos,
                n_children,
                max_children,
            })
        }),
{
    lemma_uint_roundtrips();
    let m = meta_bytes(first_child_pos, n_children, max_children);
    let t = splice(s, pos + NODE_CHILD_META_OFFSET, m);
    lemma_splice(s, pos + NODE_CHILD_META_OFFSET, m);
    assert(t.subrange(pos, pos + 8) == s.subrange(pos, pos + 8));
    assert(t.subrange(pos + 8, pos + 16) == s.subrange(pos + 8, pos + 16));
    assert(t.subrange(pos + 16, pos + 24) == s.subrange(pos + 16, pos + 24));
    let mm = t.subrange(pos + 24, pos + 40);
    assert(t.subrange(pos + 24, pos + 32) =~= mm.subrange(0, 8));
    assert(t.subrange(pos + 32, pos + 36) =~= mm.subrange(8, 12));
    assert(t.subrange(pos + 36, pos + 40) =~= mm.subrange(12, 16));
    assert(m.subrange(0, 8) =~= spec_u64_to_le_bytes(first_child_pos));
    assert(m.subrange(8, 12) =~= spec_u32_to_le_bytes(n_children));
    assert(m.subrange(12, 16) =~= spec_u32_to_le_bytes(max_children));
}

/// Rewriting the counters of a record changes those two fields alone.
pub proof fn lemma_node_at_counters(s: Seq<u8>, pos: int, hits: u64, score: u64)
    requires
        0 <= pos,
        pos + NODE_LENGTH <= s.len(),
    ensures
        ({
            let t = splice(s, pos + 8, spec_u64_to_le_bytes(hits) + spec_u64_to_le_bytes(score));
            let d = node_at(s, pos);
            node_at(t, pos) == (NodeData {
                node_id: d.node_id,
                node_pos: d.node_pos,
                parent: d.parent,
                hits,
                score,
                first_child_pos: d.first_child_pos,
                n_children: d.n_children,
                max_children: d.max_children,
            })
        }),
{
    lemma_uint_roundtrips();
    let c = spec_u64_to_le_bytes(hits) + spec_u64_to_le_bytes(score);
    let t = splice(s, pos + 8, c);
    lemma_splice(s, pos + 8, c);
    assert(t.subrange(pos, pos + 8) == s.subrange(pos, pos + 8));
    assert(t.subrange(pos + 24, pos + 32) == s.subrange(pos + 24, pos + 32));
    assert(t.subrange(pos + 32, pos + 36) == s.subrange(pos + 32, pos + 36));
    assert(t.subrange(pos + 36, pos + 40) == s.subrange(pos + 36, pos + 40));
    let cc = t.subrange(pos + 8, pos + 24);
    assert(t.subrange(pos + 8, pos + 16) =~= cc.subrange(0, 8));
    assert(t.subrange(pos + 16, pos + 24) =~= cc.subrange(8, 16));
    assert(c.subrange(0, 8) =~= spec_u64_to_le_bytes(hits));
    assert(c.subrange(8, 16) =~= spec_u64_to_le_bytes(score));
}

/// Entries read the same from two images that agree on their block.
pub proof fn lemma_entries_same(m1: Seq<u8>, m2: Seq<u8>, start: int, n: nat, max: nat)
    requires
        0 <= start,
        n <= max,
        start + MAP_LENGTH * max <= m1.len(),
        start + MAP_LENGTH * max <= m2.len(),
        m1.subrange(start, start + MAP_LENGTH * max) == m2.subrange(
            start,
            start + MAP_LENGTH * max,
        ),
    ensures
        entries_at(m1, start, n) == entries_at(m2, start, n),
{
    let b = m1.subrange(start, start + MAP_LENGTH * max);
    assert forall|j: int| 0 <= j < n implies #[trigger] entries_at(m1, start, n)[j] == entries_at(
        m2,
        start,
        n,
    )[j] by {
        let q = start + MAP_LENGTH * j;
        let o = MAP_LENGTH * j;
        assert(o + MAP_LENGTH <= MAP_LENGTH * max) by (nonlinear_arith)
            requires
                j < max,
                o == MAP_LENGTH * j,
        ;
        assert(m1.subrange(q, q + 8) =~= b.subrange(o, o + 8));
        assert(m2.subrange(q, q + 8) =~= b.subrange(o, o + 8));
        assert(m1.subrange(q + 8, q + 10) =~= b.subrange(o + 8, o + 10));
        assert(m2.subrange(q + 8, q + 10) =~= b.subrange(o + 8, o + 10));
    }
    assert(entries_at(m1, start, n) =~= entries_at(m2, start, n));
}

pub proof fn lemma_uint_roundtrips()
    ensures
        forall|x: u64|
            #![trigger spec_u64_to_le_bytes(x)]
            {
                &&& spec_u64_to_le_bytes(x).len() == 8
                &&& spec_u64_from_le_bytes(spec_u64_to_le_bytes(x)) == x
            },
        forall|x: u32|
            #![trigger spec_u32_to_le_bytes(x)]
            {
                &&& spec_u32_to_le_bytes(x).len() == 4
                &&& spec_u32_from_le_bytes(spec_u32_to_le_bytes(x)) == x
            },
        forall|x: u16|
            #![trigger spec_u16_to_le_bytes(x)]
            {
                &&& spec_u16_to_le_bytes(x).len() == 2
                &&& spec_u16_from_le_bytes(spec_u16_to_le_bytes(x)) == x
            },
{
    lemma_auto_spec_u64_to_from_le_bytes();
    lemma_auto_spec_u32_to_from_le_bytes();
    lemma_auto_spec_u16_to_from_le_bytes();
}

/// Reading a span that a splice left alone gives the old bytes; reading the
/// spliced span gives the new ones.
pub proof fn lemma_splice(s: Seq<u8>, pos: int, t: Seq<u8>)
    requires
        0 <= pos,
        pos + t.len() <= s.len(),
    ensures
        splice(s, pos, t).len() == s.len(),
        splice(s, pos, t).subrange(pos, pos + t.len()) == t,
        forall|a: int, b: int|
            #![trigger splice(s, pos, t).subrange(a, b)]
            0 <= a <= b <= s.len() && (b <= pos || pos + t.len() <= a) ==> splice(
                s,
                pos,
                t,
            ).subrange(a, b) == s.subrange(a, b),
{
    let r = splice(s, pos, t);
    assert(r.subrange(pos, pos + t.len()) =~= t);
    assert forall|a: int, b: int|
        0 <= a <= b <= s.len() && (b <= pos || pos + t.len() <= a) implies #[trigger] r.subrange(
        a,
        b,
    ) == s.subrange(a, b) by {
        assert(r.subrange(a, b) =~= s.subrange(a, b));
    }
}

/// The fields of a record read back from its bytes.
pub proof fn lemma_record_fields(
    nodes: Seq<u8>,
    pos: int,
    parent_pos: u64,
    hits: u64,
    score: u64,
    first_child_pos: u64,
    n_children: u32,
    max_children: u32,
)
    requires
        0 <= pos,
        pos + 40 <= nodes.len(),
        nodes.subrange(pos, pos + 40) == record_bytes(
            parent_pos,
            hits,
            score,
            first_child_pos,
            n_children,
            max_children,
        ),
    ensures
        u64_at(nodes, pos) == parent_pos,
        u64_at(nodes, pos + 8) == hits,
        u64_at(nodes, pos + 16) == score,
        u64_at(nodes, pos + 24) == first_child_pos,
        u32_at(nodes, pos + 32) == n_children,
        u32_at(nodes, pos + 36) == max_children,
{
    lemma_uint_roundtrips();
    let r = record_bytes(parent_pos, hits, score, first_child_pos, n_children, max_children);
    assert(nodes.subrange(pos, pos + 8) =~= r.subrange(0, 8));
    assert(nodes.subrange(pos + 8, pos + 16) =~= r.subrange(8, 16));
    assert(nodes.subrange(pos + 16, pos + 24) =~= r.subrange(16, 24));
    assert(nodes.subrange(pos + 24, pos + 32) =~= r.subrange(24, 32));
    assert(nodes.subrange(pos + 32, pos + 36) =~= r.subrange(32, 36));
    assert(nodes.subrange(pos + 36, pos + 40) =~= r.subrange(36, 40));
    assert(r.subrange(0, 8) =~= spec_u64_to_le_bytes(parent_pos));
    assert(r.subrange(8, 16) =~= spec_u64_to_le_bytes(hits));
    assert(r.subrange(16, 24) =~= spec_u64_to_le_bytes(score));
    assert(r.subrange(24, 32) =~= spec_u64_to_le_bytes(first_child_pos));
    assert(r.subrange(32, 36) =~= spec_u32_to_le_bytes(n_children));
    assert(r.subrange(36, 40) =~= spec_u32_to_le_bytes(max_children));
}

pub proof fn lemma_entries_bytes(cs: Seq<ChildMap>)
    ensures
        entries_bytes(cs).len() == MAP_LENGTH as int * cs.len(),
        forall|j: int|
            0 <= j < cs.len() ==> #[trigger] entries_bytes(cs).subrange(
                MAP_LENGTH as int * j,
                MAP_LENGTH as int * j + MAP_LENGTH as int,
            ) == entry_bytes(cs[j]),
    decreases cs.len(),
{
    lemma_uint_roundtrips();
    if cs.len() > 0 {
        let d = cs.drop_last();
        lemma_entries_bytes(d);
        let b = entries_bytes(cs);
        assert forall|j: int| 0 <= j < cs.len() implies #[trigger] b.subrange(
            MAP_LENGTH as int * j,
            MAP_LENGTH as int * j + MAP_LENGTH as int,
        ) == entry_bytes(cs[j]) by {
            if j < cs.len() - 1 {
                assert(cs[j] == d[j]);
                assert(b.subrange(MAP_LENGTH as int * j, MAP_LENGTH as int * j + MAP_LENGTH as int)
                    =~= entries_bytes(d).subrange(
                    MAP_LENGTH as int * j,
                    MAP_LENGTH as int * j + MAP_LENGTH as int,
                ));
            } else {
                assert(b.subrange(MAP_LENGTH as int * j, MAP_LENGTH as int * j + MAP_LENGTH as int)
                    =~= entry_bytes(cs.last()));
            }
        }
    }
}

pub proof fn lemma_entry_fields(maps: Seq<u8>, pos: int, c: ChildMap)
    requires
        0 <= pos,
        pos + MAP_LENGTH <= maps.len(),
        maps.subrange(pos, pos + MAP_LENGTH as int) == entry_bytes(c),
    ensures
        entry_at(maps, pos) == c,
{
    lemma_uint_roundtrips();
    assert(maps.subrange(pos, pos + 8) =~= entry_bytes(c).subrange(0, 8));
    assert(maps.subrange(pos + 8, pos + 10) =~= entry_bytes(c).subrange(8, 10));
    assert(entry_bytes(c).subrange(0, 8) =~= spec_u64_to_le_bytes(c.node_pos));
    assert(entry_bytes(c).subrange(8, 10) =~= spec_u16_to_le_bytes(c.key));
}

/// Entries written as bytes read back as the same entries.
pub proof fn lemma_entries_decode(maps: Seq<u8>, start: int, cs: Seq<ChildMap>)
    requires
        0 <= start,
        start + MAP_LENGTH as int * cs.len() <= maps.len(),
        maps.subrange(start, start + MAP_LENGTH as int * cs.len()) == entries_bytes(cs),
    ensures
        entries_at(maps, start, cs.len()) == cs,
{
    lemma_entries_bytes(cs);
    let e = entries_at(maps, start, cs.len());
    assert forall|j: int| 0 <= j < cs.len() implies #[trigger] e[j] == cs[j] by {
        let p = start + MAP_LENGTH as int * j;
        assert(MAP_LENGTH as int * j + MAP_LENGTH as int <= MAP_LENGTH as int * cs.len())
            by (nonlinear_arith)
            requires
                j < cs.len(),
        ;
        assert(maps.subrange(p, p + MAP_LENGTH as int) =~= entries_bytes(cs).subrange(
            MAP_LENGTH as int * j,
            MAP_LENGTH as int * j + MAP_LENGTH as int,
        ));
        lemma_entry_fields(maps, p, cs[j]);
    }
    assert(e =~= cs);
}

pub fn read_u64(buf: &Vec<u8>, pos: usize) -> (r: u64)
    requires
        pos + 8 <= buf.len(),
    ensures
        r == u64_at(buf@, pos as int),
{
    u64_from_le_bytes(slice_subrange(buf.as_slice(), pos, pos + 8))
}

pub fn read_u32(buf: &Vec<u8>, pos: usize) -> (r: u32)
    requires
        pos + 4 <= buf.len(),
    ensures
        r == u32_at(buf@, pos as int),
{
    u32_from_le_bytes(slice_subrange(buf.as_slice(), pos, pos + 4))
}

pub fn read_u16(buf: &Vec<u8>, pos: usize) -> (r: u16)
    requires
        pos + 2 <= buf.len(),
    ensures
        r == u16_at(buf@, pos as int),
{
    u16_from_le_bytes(slice_subrange(buf.as_slice(), pos, pos + 2))
}

/// Overwrites the bytes of `buf` from `pos` on with `bytes`.
pub fn write_bytes(buf: &mut Vec<u8>, pos: usize, bytes: &Vec<u8>)
    requires
        pos + bytes.len() <= old(buf).len(),
    ensures
        final(buf)@ == splice(old(buf)@, pos as int, bytes@),
{
    let ghost s = buf@;
    let mut i: usize = 0;
    assert(buf@ =~= splice(s, pos as int, bytes@.subrange(0, 0)));
    while i < bytes.len()
        invariant
            i <= bytes.len(),
            pos + bytes.len() <= s.len(),
            buf.len() == s.len(),
            buf@ == splice(s, pos as int, bytes@.subrange(0, i as int)),
        decreases bytes.len() - i,
    {
        buf.set(pos + i, bytes[i]);
        i = i + 1;
        assert(buf@ =~= splice(s, pos as int, bytes@.subrange(0, i as int)));
    }
    assert(bytes@.subrange(0, i as int) =~= bytes@);
}

/// Appends `bytes` to `buf`.
pub fn append_bytes(buf: &mut Vec<u8>, bytes: &Vec<u8>)
    ensures
        final(buf)@ == old(buf)@ + bytes@,
{
    let ghost s = buf@;
    let mut i: usize = 0;
    while i < bytes.len()
        invariant
            i <= bytes.len(),
            buf@ == s + bytes@.subrange(0, i as int),
        decreases bytes.len() - i,
    {
        buf.push(bytes[i]);
        i = i + 1;
        assert(buf@ =~= s + bytes@.subrange(0, i as int));
    }
    assert(bytes@.subrange(0, i as int) =~= bytes@);
}

/// The id of the node whose record starts at `pos`.
pub fn pos_to_node_id(pos: u64) -> (r: NodeId)
    ensures
        r == (pos / NODE_LENGTH as u64) as NodeId,
{
    (pos / NODE_LENGTH as u64) as NodeId
}

/// Where the record of node `node_id` starts.
pub fn node_id_to_pos(node_id: NodeId) -> (r: u64)
    requires
        node_id * NODE_LENGTH <= usize::MAX,
    ensures
        r == pos_of_id(node_id as int),
{
    node_id as u64 * NODE_LENGTH as u64
}

/// The bytes of the record of `node_data`, with the given parent position.
pub fn node_to_buf(parent_pos: u64, node_data: &NodeData) -> (r: Vec<u8>)
    ensures
        r@ == record_bytes(
            parent_pos,
            node_data.hits,
            node_data.score,
            node_data.first_child_pos,
            node_data.n_children,
            node_data.max_children,
        ),
        r@.len() == NODE_LENGTH,
{
    let mut buf = u64_to_le_bytes(parent_pos);
    append_bytes(&mut buf, &u64_to_le_bytes(node_data.hits));
    append_bytes(&mut buf, &u64_to_le_bytes(node_data.score));
    let meta = node_children_to_buf(
        node_data.first_child_pos,
        node_data.n_children,
        node_data.max_children,
    );
    append_bytes(&mut buf, &meta);
    assert(buf@ =~= record_bytes(
        parent_pos,
        node_data.hits,
        node_data.score,
        node_data.first_child_pos,
        node_data.n_children,
        node_data.max_children,
    ));
    buf
}

/// The bytes of a children meta.
pub fn node_children_to_buf(children_pos: u64, children_len: u32, children_max: u32) -> (r: Vec<
    u8,
>)
    ensures
        r@ == meta_bytes(children_pos, children_len, children_max),
        r@.len() == NODE_CHILD_META_LENGTH,
{
    let mut buf = u64_to_le_bytes(children_pos);
    append_bytes(&mut buf, &u32_to_le_bytes(children_len));
    append_bytes(&mut buf, &u32_to_le_bytes(children_max));
    assert(buf@ =~= meta_bytes(children_pos, children_len, children_max));
    buf
}

/// The bytes of a child block of capacity `max_children` holding `children`.
pub fn children_to_buf(children: &Vec<ChildMap>, max_children: u32) -> (r: Vec<u8>)
    requires
        children.len() <= max_children,
        MAP_LENGTH * max_children <= usize::MAX,
    ensures
        r@ == block_bytes(children@, max_children as nat),
        r@.len() == MAP_LENGTH * max_children,
{
    let mut buf: Vec<u8> = Vec::new();
    let mut i: usize = 0;
    while i < children.len()
        invariant
            i <= children.len(),
            buf@ == entries_bytes(children@.subrange(0, i as int)),
        decreases children.len() - i,
    {
        let c = children[i];
        append_bytes(&mut buf, &u64_to_le_bytes(c.node_pos));
        append_bytes(&mut buf, &u16_to_le_bytes(c.key));
        proof {
            assert(children@.subrange(0, i + 1).drop_last() =~= children@.subrange(0, i as int));
        }
        i = i + 1;
        assert(buf@ =~= entries_bytes(children@.subrange(0, i as int)));
    }
    assert(children@.subrange(0, i as int) =~= children@);
    proof {
        lemma_entries_bytes(children@);
    }
    let ghost e = buf@;
    let total: usize = MAP_LENGTH * max_children as usize;
    while buf.len() < total
        invariant
            e.len() <= buf.len() <= total,
            total == MAP_LENGTH * max_children,
            buf@.subrange(0, e.len() as int) == e,
            forall|k: int| e.len() <= k < buf.len() ==> buf@[k] == 0xffu8,
        decreases total - buf.len(),
    {
        buf.push(0xffu8);
        assert(buf@.subrange(0, e.len() as int) =~= e);
    }
    assert(buf@ =~= block_bytes(children@, max_children as nat));
    buf
}

} // verus!
