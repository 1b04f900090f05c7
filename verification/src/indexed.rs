use std::collections::HashMap;
use vstd::prelude::*;
use vstd::std_specs::hash::group_hash_axioms;

use crate::id_range::{upd_range, IdRange};
use crate::vec_buffer::{kept, swap_items, VecBuffer};

verus! {

broadcast use group_hash_axioms;

/// The part of an OSM element that the index reads: its kind, its id and,
/// for nodes, its coordinates in nanodegrees.
#[derive(Clone, Copy, Debug, PartialEq, Eq, Structural)]
pub enum Element {
    Node { id: i64, nano_lat: i64, nano_lon: i64 },
    DenseNode { id: i64, nano_lat: i64, nano_lon: i64 },
    Way { id: i64 },
    Relation { id: i64 },
}

/// The id ranges of one data block: of its dense nodes and of its ways.
#[derive(Clone, Copy, Debug, PartialEq, Eq, Structural)]
pub struct Block {
    pub nodes: IdRange,
    pub ways: IdRange,
}

/// The ids of the dense nodes among `els`, in order.
pub open spec fn dense_node_ids(els: Seq<Element>) -> Seq<i64>
    decreases els.len(),
{
    if els.len() == 0 {
        Seq::empty()
    } else {
        let rest = dense_node_ids(els.drop_last());
        match els.last() {
            Element::DenseNode { id, .. } => rest.push(id),
            _ => rest,
        }
    }
}

/// The ids of the ways among `els`, in order.
pub open spec fn way_ids(els: Seq<Element>) -> Seq<i64>
    decreases els.len(),
{
    if els.len() == 0 {
        Seq::empty()
    } else {
        let rest = way_ids(els.drop_last());
        match els.last() {
            Element::Way { id } => rest.push(id),
            _ => rest,
        }
    }
}

/// `r` is the smallest range holding all of `ids`, or `1..=0` when there
/// are none.
pub open spec fn is_hull(r: IdRange, ids: Seq<i64>) -> bool {
    if ids.len() == 0 {
        r == (IdRange { start: 1, end: 0 })
    } else {
        &&& ids.contains(r.start)
        &&& ids.contains(r.end)
        &&& forall|i: int| 0 <= i < ids.len() ==> r.start <= #[trigger] ids[i] <= r.end
    }
}

proof fn lemma_hull_push(r: IdRange, ids: Seq<i64>, v: i64, r2: IdRange)
    requires
        is_hull(r, ids),
        r.spec_is_empty() ==> r2 == (IdRange { start: v, end: v }),
        !r.spec_is_empty() ==> r2 == (IdRange {
            start: if r.start <= v { r.start } else { v },
            end: if r.end >= v { r.end } else { v },
        }),
    ensures
        is_hull(r2, ids.push(v)),
{
    let s = ids.push(v);
    assert(s[s.len() - 1] == v);
    if ids.len() == 0 {
        assert(s.contains(v));
    } else {
        let i0 = choose|i: int| 0 <= i < ids.len() && ids[i] == r.start;
        let i1 = choose|i: int| 0 <= i < ids.len() && ids[i] == r.end;
        assert(s[i0] == r.start);
        assert(s[i1] == r.end);
        assert forall|i: int| 0 <= i < s.len() implies r2.start <= #[trigger] s[i] <= r2.end by {
            if i < ids.len() {
                assert(s[i] == ids[i]);
            }
        }
    }
}

/// The element of `els` that entry `k` of `dense_node_ids` comes from: a
/// dense node with that id.
pub proof fn lemma_dense_node_id_source(els: Seq<Element>, k: int) -> (i: int)
    requires
        0 <= k < dense_node_ids(els).len(),
    ensures
        0 <= i < els.len(),
        els[i] is DenseNode,
        els[i]->DenseNode_id == dense_node_ids(els)[k],
    decreases els.len(),
{
    let rest = els.drop_last();
    let ids = dense_node_ids(els);
    let rids = dense_node_ids(rest);
    if k < rids.len() {
        assert(ids[k] == rids[k]);
        let i = lemma_dense_node_id_source(rest, k);
        assert(els[i] == rest[i]);
        i
    } else {
        match els.last() {
            Element::DenseNode { id, .. } => {
                assert(ids == rids.push(id));
            },
            _ => {
                assert(ids == rids);
            },
        }
        els.len() - 1
    }
}

/// Each dense node's id is listed by `dense_node_ids`.
pub proof fn lemma_dense_node_id_listed(els: Seq<Element>, i: int)
    requires
        0 <= i < els.len(),
        els[i] is DenseNode,
    ensures
        dense_node_ids(els).contains(els[i]->DenseNode_id),
    decreases els.len(),
{
    let rest = els.drop_last();
    let ids = dense_node_ids(els);
    let rids = dense_node_ids(rest);
    if i < els.len() - 1 {
        assert(els[i] == rest[i]);
        lemma_dense_node_id_listed(rest, i);
        let k = choose|k: int| 0 <= k < rids.len() && rids[k] == rest[i]->DenseNode_id;
        assert(ids[k] == rids[k]);
    } else {
        assert(ids[ids.len() - 1] == els[i]->DenseNode_id);
    }
}

/// The element of `els` that entry `k` of `way_ids` comes from: a way with
/// that id.
pub proof fn lemma_way_id_source(els: Seq<Element>, k: int) -> (i: int)
    requires
        0 <= k < way_ids(els).len(),
    ensures
        0 <= i < els.len(),
        els[i] is Way,
        els[i]->Way_id == way_ids(els)[k],
    decreases els.len(),
{
    let rest = els.drop_last();
    let ids = way_ids(els);
    let rids = way_ids(rest);
    if k < rids.len() {
        assert(ids[k] == rids[k]);
        let i = lemma_way_id_source(rest, k);
        assert(els[i] == rest[i]);
        i
    } else {
        match els.last() {
            Element::Way { id } => {
                assert(ids == rids.push(id));
            },
            _ => {
                assert(ids == rids);
            },
        }
        els.len() - 1
    }
}

/// Each way's id is listed by `way_ids`.
pub proof fn lemma_way_id_listed(els: Seq<Element>, i: int)
    requires
        0 <= i < els.len(),
        els[i] is Way,
    ensures
        way_ids(els).contains(els[i]->Way_id),
    decreases els.len(),
{
    let rest = els.drop_last();
    let ids = way_ids(els);
    let rids = way_ids(rest);
    if i < els.len() - 1 {
        assert(els[i] == rest[i]);
        lemma_way_id_listed(rest, i);
        let k = choose|k: int| 0 <= k < rids.len() && rids[k] == rest[i]->Way_id;
        assert(ids[k] == rids[k]);
    } else {
        assert(ids[ids.len() - 1] == els[i]->Way_id);
    }
}

/// The ranges of a block, said of its elements: the node range spans the
/// ids of its dense nodes and nothing else, the way range the ids of its
/// ways and nothing else; a range with no such element is `1..=0`.
pub proof fn lemma_block_ranges_from_elements(els: Seq<Element>, nodes: IdRange, ways: IdRange)
    requires
        is_hull(nodes, dense_node_ids(els)),
        is_hull(ways, way_ids(els)),
    ensures
        (forall|i: int| 0 <= i < els.len() ==> !(#[trigger] els[i] is DenseNode))
            ==> nodes == (IdRange { start: 1, end: 0 }),
        forall|i: int|
            0 <= i < els.len() && #[trigger] els[i] is DenseNode ==> nodes.start
                <= els[i]->DenseNode_id <= nodes.end,
        (exists|i: int| 0 <= i < els.len() && #[trigger] els[i] is DenseNode) ==> {
            &&& exists|i: int|
                0 <= i < els.len() && #[trigger] els[i] is DenseNode && els[i]->DenseNode_id
                    == nodes.start
            &&& exists|i: int|
                0 <= i < els.len() && #[trigger] els[i] is DenseNode && els[i]->DenseNode_id
                    == nodes.end
        },
        (forall|i: int| 0 <= i < els.len() ==> !(#[trigger] els[i] is Way)) ==> ways == (IdRange {
            start: 1,
            end: 0,
        }),
        forall|i: int|
            0 <= i < els.len() && #[trigger] els[i] is Way ==> ways.start <= els[i]->Way_id
                <= ways.end,
        (exists|i: int| 0 <= i < els.len() && #[trigger] els[i] is Way) ==> {
            &&& exists|i: int|
                0 <= i < els.len() && #[trigger] els[i] is Way && els[i]->Way_id == ways.start
            &&& exists|i: int|
                0 <= i < els.len() && #[trigger] els[i] is Way && els[i]->Way_id == ways.end
        },
{
    let nids = dense_node_ids(els);
    let wids = way_ids(els);
    if nids.len() > 0 {
        let a = choose|k: int| 0 <= k < nids.len() && nids[k] == nodes.start;
        let b = choose|k: int| 0 <= k < nids.len() && nids[k] == nodes.end;
        let ia = lemma_dense_node_id_source(els, a);
        let ib = lemma_dense_node_id_source(els, b);
        assert(els[ia] is DenseNode && els[ia]->DenseNode_id == nodes.start);
        assert(els[ib] is DenseNode && els[ib]->DenseNode_id == nodes.end);
    }
    if wids.len() > 0 {
        let a = choose|k: int| 0 <= k < wids.len() && wids[k] == ways.start;
        let b = choose|k: int| 0 <= k < wids.len() && wids[k] == ways.end;
        let ia = lemma_way_id_source(els, a);
        let ib = lemma_way_id_source(els, b);
        assert(els[ia] is Way && els[ia]->Way_id == ways.start);
        assert(els[ib] is Way && els[ib]->Way_id == ways.end);
    }
    assert forall|i: int| 0 <= i < els.len() && #[trigger] els[i] is DenseNode implies nodes.start
        <= els[i]->DenseNode_id <= nodes.end by {
        lemma_dense_node_id_listed(els, i);
        let k = choose|k: int| 0 <= k < nids.len() && nids[k] == els[i]->DenseNode_id;
        assert(nids[k] == els[i]->DenseNode_id);
    }
    assert forall|i: int| 0 <= i < els.len() && #[trigger] els[i] is Way implies ways.start
        <= els[i]->Way_id <= ways.end by {
        lemma_way_id_listed(els, i);
        let k = choose|k: int| 0 <= k < wids.len() && wids[k] == els[i]->Way_id;
        assert(wids[k] == els[i]->Way_id);
    }
    if exists|i: int| 0 <= i < els.len() && #[trigger] els[i] is DenseNode {
        let i = choose|i: int| 0 <= i < els.len() && #[trigger] els[i] is DenseNode;
        lemma_dense_node_id_listed(els, i);
    }
    if exists|i: int| 0 <= i < els.len() && #[trigger] els[i] is Way {
        let i = choose|i: int| 0 <= i < els.len() && #[trigger] els[i] is Way;
        lemma_way_id_listed(els, i);
    }
}

impl Block {
    /// The id ranges of a data block from its elements: the node range
    /// spans the ids of its dense nodes, the way range the ids of its ways.
    pub fn from_elements(elements: &Vec<Element>) -> (b: Block)
        ensures
            is_hull(b.nodes, dense_node_ids(elements@)),
            is_hull(b.ways, way_ids(elements@)),
            (forall|i: int| 0 <= i < elements@.len() ==> !(#[trigger] elements@[i] is DenseNode))
                ==> b.nodes == (IdRange { start: 1, end: 0 }),
            forall|i: int|
                0 <= i < elements@.len() && #[trigger] elements@[i] is DenseNode ==> b.nodes.start
                    <= elements@[i]->DenseNode_id <= b.nodes.end,
            (exists|i: int| 0 <= i < elements@.len() && #[trigger] elements@[i] is DenseNode) ==> {
                &&& exists|i: int|
                    0 <= i < elements@.len() && #[trigger] elements@[i] is DenseNode
                        && elements@[i]->DenseNode_id == b.nodes.start
                &&& exists|i: int|
                    0 <= i < elements@.len() && #[trigger] elements@[i] is DenseNode
                        && elements@[i]->DenseNode_id == b.nodes.end
            },
            (forall|i: int| 0 <= i < elements@.len() ==> !(#[trigger] elements@[i] is Way))
                ==> b.ways == (IdRange { start: 1, end: 0 }),
            forall|i: int|
                0 <= i < elements@.len() && #[trigger] elements@[i] is Way ==> b.ways.start
                    <= elements@[i]->Way_id <= b.ways.end,
            (exists|i: int| 0 <= i < elements@.len() && #[trigger] elements@[i] is Way) ==> {
                &&& exists|i: int|
                    0 <= i < elements@.len() && #[trigger] elements@[i] is Way && elements@[i]->Way_id
                        == b.ways.start
                &&& exists|i: int|
                    0 <= i < elements@.len() && #[trigger] elements@[i] is Way && elements@[i]->Way_id
                        == b.ways.end
            },
    {
        let mut nodes = IdRange::empty();
        let mut ways = IdRange::empty();
        let mut i: usize = 0;
        while i < elements.len()
            invariant
                i <= elements.len(),
                is_hull(nodes, dense_node_ids(elements@.take(i as int))),
                is_hull(ways, way_ids(elements@.take(i as int))),
            decreases elements.len() - i,
        {
            let ghost before = elements@.take(i as int);
            let ghost after = elements@.take(i + 1);
            assert(after.drop_last() =~= before);
            let ghost old_nodes = nodes;
            let ghost old_ways = ways;
            match elements[i] {
                Element::DenseNode { id, .. } => {
                    upd_range(&mut nodes, id);
                    proof {
                        lemma_hull_push(old_nodes, dense_node_ids(before), id, nodes);
                    }
                },
                Element::Way { id } => {
                    upd_range(&mut ways, id);
                    proof {
                        lemma_hull_push(old_ways, way_ids(before), id, ways);
                    }
                },
                _ => {},
            }
            i += 1;
        }
        assert(elements@.take(elements.len() as int) =~= elements@);
        proof {
            lemma_block_ranges_from_elements(elements@, nodes, ways);
        }
        Block { nodes, ways }
    }
}

/// The coordinates that a block's elements give each node id: plain and
/// dense nodes both count, and a later element overrides an earlier one.
pub open spec fn node_map_of(els: Seq<Element>) -> Map<i64, (i64, i64)>
    decreases els.len(),
{
    if els.len() == 0 {
        Map::empty()
    } else {
        let rest = node_map_of(els.drop_last());
        match els.last() {
            Element::Node { id, nano_lat, nano_lon } => rest.insert(id, (nano_lat, nano_lon)),
            Element::DenseNode { id, nano_lat, nano_lon } => rest.insert(id, (nano_lat, nano_lon)),
            _ => rest,
        }
    }
}

/// The element a node map entry comes from: the last plain or dense node
/// of `els` with that id, whose coordinates the entry holds unchanged.
pub proof fn lemma_node_map_source(els: Seq<Element>, id: i64) -> (i: int)
    requires
        node_map_of(els).contains_key(id),
    ensures
        0 <= i < els.len(),
        ((els[i] is Node && els[i]->Node_id == id && node_map_of(els)[id] == (els[i]->Node_nano_lat, els[i]->Node_nano_lon)) || (els[i] is DenseNode && els[i]->DenseNode_id == id && node_map_of(els)[id] == (els[i]->DenseNode_nano_lat, els[i]->DenseNode_nano_lon))),
        forall|j: int| i < j < els.len() ==> !((#[trigger] els[j] is Node && #[trigger] els[j]->Node_id == id) || (#[trigger] els[j] is DenseNode && #[trigger] els[j]->DenseNode_id == id)),
    decreases els.len(),
{
    let rest = els.drop_last();
    let last = els.len() - 1;
    assert(els[last] == els.last());
    if ((els.last() is Node && els.last()->Node_id == id) || (els.last() is DenseNode && els.last()->DenseNode_id == id)) {
        last
    } else {
        assert(node_map_of(rest).contains_key(id));
        assert(node_map_of(els)[id] == node_map_of(rest)[id]);
        let i = lemma_node_map_source(rest, id);
        assert(els[i] == rest[i]);
        assert forall|j: int| i < j < els.len() implies !((#[trigger] els[j] is Node && #[trigger] els[j]->Node_id == id) || (#[trigger] els[j] is DenseNode && #[trigger] els[j]->DenseNode_id == id)) by {
            if j < last {
                assert(els[j] == rest[j]);
            }
        }
        i
    }
}

/// Every plain or dense node of `els` has an entry in the node map.
pub proof fn lemma_node_map_has_node(els: Seq<Element>, i: int, id: i64)
    requires
        0 <= i < els.len(),
        ((els[i] is Node && els[i]->Node_id == id) || (els[i] is DenseNode && els[i]->DenseNode_id == id)),
    ensures
        node_map_of(els).contains_key(id),
    decreases els.len(),
{
    let rest = els.drop_last();
    if i < els.len() - 1 {
        assert(els[i] == rest[i]);
        lemma_node_map_has_node(rest, i, id);
    } else {
        assert(els[i] == els.last());
    }
}

/// The node map of `els`, said of the elements: it has an entry for an id
/// exactly when some plain or dense node has that id, and the entry holds,
/// unchanged, the coordinates of the last such node.
pub proof fn lemma_node_map_from_elements(els: Seq<Element>)
    ensures
        forall|id: i64|
            #[trigger] node_map_of(els).contains_key(id) <==> exists|i: int|
                0 <= i < els.len() && ((#[trigger] els[i] is Node && #[trigger] els[i]->Node_id == id) || (#[trigger] els[i] is DenseNode && #[trigger] els[i]->DenseNode_id == id)),
        forall|id: i64|
            #[trigger] node_map_of(els).contains_key(id) ==> exists|i: int|
                0 <= i < els.len() && ((#[trigger] els[i] is Node && #[trigger] els[i]->Node_id == id && node_map_of(els)[id] == (#[trigger] els[i]->Node_nano_lat, #[trigger] els[i]->Node_nano_lon)) || (#[trigger] els[i] is DenseNode && #[trigger] els[i]->DenseNode_id == id && node_map_of(els)[id] == (#[trigger] els[i]->DenseNode_nano_lat, #[trigger] els[i]->DenseNode_nano_lon)))
                    && forall|j: int| i < j < els.len() ==> !((#[trigger] els[j] is Node && #[trigger] els[j]->Node_id == id) || (#[trigger] els[j] is DenseNode && #[trigger] els[j]->DenseNode_id == id)),
{
    assert forall|id: i64| #[trigger] node_map_of(els).contains_key(id) <==> exists|i: int|
        0 <= i < els.len() && ((#[trigger] els[i] is Node && #[trigger] els[i]->Node_id == id) || (#[trigger] els[i] is DenseNode && #[trigger] els[i]->DenseNode_id == id)) by {
        if node_map_of(els).contains_key(id) {
            let i = lemma_node_map_source(els, id);
            assert(((els[i] is Node && els[i]->Node_id == id) || (els[i] is DenseNode && els[i]->DenseNode_id == id)));
        }
        if exists|i: int| 0 <= i < els.len() && ((#[trigger] els[i] is Node && #[trigger] els[i]->Node_id == id) || (#[trigger] els[i] is DenseNode && #[trigger] els[i]->DenseNode_id == id)) {
            let i = choose|i: int| 0 <= i < els.len() && ((#[trigger] els[i] is Node && #[trigger] els[i]->Node_id == id) || (#[trigger] els[i] is DenseNode && #[trigger] els[i]->DenseNode_id == id));
            lemma_node_map_has_node(els, i, id);
        }
    }
    assert forall|id: i64| #[trigger] node_map_of(els).contains_key(id) implies exists|i: int|
        0 <= i < els.len() && ((#[trigger] els[i] is Node && #[trigger] els[i]->Node_id == id && node_map_of(els)[id] == (#[trigger] els[i]->Node_nano_lat, #[trigger] els[i]->Node_nano_lon)) || (#[trigger] els[i] is DenseNode && #[trigger] els[i]->DenseNode_id == id && node_map_of(els)[id] == (#[trigger] els[i]->DenseNode_nano_lat, #[trigger] els[i]->DenseNode_nano_lon)))
            && forall|j: int| i < j < els.len() ==> !((#[trigger] els[j] is Node && #[trigger] els[j]->Node_id == id) || (#[trigger] els[j] is DenseNode && #[trigger] els[j]->DenseNode_id == id)) by {
        let i = lemma_node_map_source(els, id);
        assert(((els[i] is Node && els[i]->Node_id == id && node_map_of(els)[id] == (els[i]->Node_nano_lat, els[i]->Node_nano_lon)) || (els[i] is DenseNode && els[i]->DenseNode_id == id && node_map_of(els)[id] == (els[i]->DenseNode_nano_lat, els[i]->DenseNode_nano_lon))));
    }
}

/// Builds the map from node id to coordinates of a block's elements.
pub fn node_map(elements: &Vec<Element>) -> (m: HashMap<i64, (i64, i64)>)
    ensures
        m@ == node_map_of(elements@),
        forall|id: i64|
            #[trigger] m@.contains_key(id) <==> exists|i: int|
                0 <= i < elements@.len() && ((#[trigger] elements@[i] is Node && #[trigger] elements@[i]->Node_id == id) || (#[trigger] elements@[i] is DenseNode && #[trigger] elements@[i]->DenseNode_id == id)),
        forall|id: i64|
            #[trigger] m@.contains_key(id) ==> exists|i: int|
                0 <= i < elements@.len() && ((#[trigger] elements@[i] is Node && #[trigger] elements@[i]->Node_id == id && m@[id] == (#[trigger] elements@[i]->Node_nano_lat, #[trigger] elements@[i]->Node_nano_lon)) || (#[trigger] elements@[i] is DenseNode && #[trigger] elements@[i]->DenseNode_id == id && m@[id] == (#[trigger] elements@[i]->DenseNode_nano_lat, #[trigger] elements@[i]->DenseNode_nano_lon)))
                    && forall|j: int| i < j < elements@.len() ==> !((#[trigger] elements@[j] is Node && #[trigger] elements@[j]->Node_id == id) || (#[trigger] elements@[j] is DenseNode && #[trigger] elements@[j]->DenseNode_id == id)),
{
    proof {
        lemma_node_map_from_elements(elements@);
    }
    let mut m: HashMap<i64, (i64, i64)> = HashMap::new();
    let mut i: usize = 0;
    while i < elements.len()
        invariant
            i <= elements.len(),
            m@ == node_map_of(elements@.take(i as int)),
        decreases elements.len() - i,
    {
        let ghost before = elements@.take(i as int);
        assert(elements@.take(i + 1).drop_last() =~= before);
        match elements[i] {
            Element::Node { id, nano_lat, nano_lon } => {
                m.insert(id, (nano_lat, nano_lon));
            },
            Element::DenseNode { id, nano_lat, nano_lon } => {
                m.insert(id, (nano_lat, nano_lon));
            },
            _ => {},
        }
        i += 1;
    }
    assert(elements@.take(elements.len() as int) =~= elements@);
    m
}

/// The block at index `k` is the first whose node range holds `id`.
pub open spec fn is_first_node_block(blocks: Seq<(u64, Block)>, id: i64, k: int) -> bool {
    &&& 0 <= k < blocks.len()
    &&& blocks[k].1.nodes.spec_contains(id)
    &&& forall|j: int| 0 <= j < k ==> !(#[trigger] blocks[j]).1.nodes.spec_contains(id)
}

/// Some block's node range holds `id`.
pub open spec fn in_file(blocks: Seq<(u64, Block)>, id: i64) -> bool {
    exists|k: int| 0 <= k < blocks.len() && (#[trigger] blocks[k]).1.nodes.spec_contains(id)
}

/// The offset of the first block whose node range holds `id`.
pub open spec fn node_block_offset(blocks: Seq<(u64, Block)>, id: i64) -> u64 {
    blocks[choose|k: int| is_first_node_block(blocks, id, k)].0
}

/// The offsets of the blocks that hold ways, in order.
pub open spec fn way_block_offsets(blocks: Seq<(u64, Block)>) -> Seq<u64>
    decreases blocks.len(),
{
    if blocks.len() == 0 {
        Seq::empty()
    } else {
        let rest = way_block_offsets(blocks.drop_last());
        if !blocks.last().1.ways.spec_is_empty() {
            rest.push(blocks.last().0)
        } else {
            rest
        }
    }
}

/// The way blocks, said of the blocks: the offsets of exactly the blocks
/// whose way range is not empty, in block order.
pub proof fn lemma_way_blocks_filter(blocks: Seq<(u64, Block)>)
    ensures
        way_block_offsets(blocks) == blocks.filter_map((|b: (u64, Block)| if b.1.ways.start <= b.1.ways.end { Some(b.0) } else { None })),
    decreases blocks.len(),
{
    if blocks.len() > 0 {
        lemma_way_blocks_filter(blocks.drop_last());
    }
}

/// Among all cached maps but the last, the one at `n` is the first cached
/// for `offset`.
pub open spec fn first_cached_at(
    cached: Seq<(u64, HashMap<i64, (i64, i64)>)>,
    offset: u64,
    n: int,
) -> bool {
    &&& 0 <= n && n + 1 < cached.len()
    &&& cached[n].0 == offset
    &&& forall|m: int| 0 <= m < n ==> (#[trigger] cached[m]).0 != offset
}

/// The index of the first cached map for `offset`, among all but the last.
pub open spec fn cached_index(cached: Seq<(u64, HashMap<i64, (i64, i64)>)>, offset: u64) -> int {
    choose|n: int| first_cached_at(cached, offset, n)
}

proof fn lemma_cached_index_unique(cached: Seq<(u64, HashMap<i64, (i64, i64)>)>, offset: u64, n: int)
    requires
        first_cached_at(cached, offset, n),
    ensures
        cached_index(cached, offset) == n,
{
    let n2 = cached_index(cached, offset);
    assert(first_cached_at(cached, offset, n2));
    if n2 < n {
        assert(cached[n2].0 != offset);
    } else if n < n2 {
        assert(cached[n].0 != offset);
    }
}

/// None of the cached maps but the last is cached for `offset`.
pub open spec fn not_cached(cached: Seq<(u64, HashMap<i64, (i64, i64)>)>, offset: u64) -> bool {
    forall|m: int| 0 <= m < cached.len() - 1 ==> (#[trigger] cached[m]).0 != offset
}

/// Where a node lookup stands.
#[derive(Clone, Copy, Debug, PartialEq, Eq, Structural)]
pub enum NodeLookup {
    /// The node's coordinates, from a cached node map.
    Found(i64, i64),
    /// The block's node map is cached but has no entry for the node.
    NotInBlock,
    /// The node map of the block at this offset is not cached: its
    /// elements are to be read and handed to `load_node`.
    Load(u64),
}

/// The id ranges of the data blocks of a PBF file, with a cache of the
/// node maps of recently read blocks.
pub struct Indexed {
    blocks: Vec<(u64, Block)>,
    nodes: VecBuffer<(u64, HashMap<i64, (i64, i64)>)>,
}

impl Indexed {
    /// The blocks, as offset and id ranges.
    pub closed spec fn blocks(&self) -> Seq<(u64, Block)> {
        self.blocks@
    }

    /// The cached node maps, most recently used first.
    pub closed spec fn cached(&self) -> Seq<(u64, HashMap<i64, (i64, i64)>)> {
        self.nodes@
    }

    /// How many node maps the cache holds at most.
    pub closed spec fn cache_capacity(&self) -> nat {
        self.nodes.capacity()
    }

    /// An index over `blocks` with an empty cache for 100 node maps.
    pub fn new(blocks: Vec<(u64, Block)>) -> (r: Indexed)
        ensures
            r.blocks() == blocks@,
            r.cached() == Seq::<(u64, HashMap<i64, (i64, i64)>)>::empty(),
            r.cache_capacity() == 100,
    {
        Indexed { blocks, nodes: VecBuffer::with_capacity(100) }
    }

    fn find_node_block(&self, node_id: i64) -> (r: Option<usize>)
        ensures
            match r {
                Some(k) => is_first_node_block(self.blocks(), node_id, k as int),
                None => !in_file(self.blocks(), node_id),
            },
    {
        let mut k: usize = 0;
        while k < self.blocks.len()
            invariant
                k <= self.blocks.len(),
                forall|j: int| 0 <= j < k ==> !(#[trigger] self.blocks@[j]).1.nodes.spec_contains(node_id),
            decreases self.blocks.len() - k,
        {
            if self.blocks[k].1.nodes.contains(node_id) {
                return Some(k);
            }
            k += 1;
        }
        None
    }

    /// Whether some block's node range holds `node_id`.
    pub fn contains_node(&self, node_id: i64) -> (b: bool)
        ensures
            b == in_file(self.blocks(), node_id),
    {
        match self.find_node_block(node_id) {
            Some(_) => true,
            None => false,
        }
    }

    /// The offset of the first block whose node range holds `node_id`.
    pub fn lookup_node_offset(&self, node_id: i64) -> (off: u64)
        requires
            in_file(self.blocks(), node_id),
        ensures
            exists|k: int| is_first_node_block(self.blocks(), node_id, k) && off == self.blocks()[k].0,
            off == node_block_offset(self.blocks(), node_id),
    {
        match self.find_node_block(node_id) {
            Some(k) => {
                proof {
                    lemma_first_node_block_unique(self.blocks(), node_id, k as int);
                }
                self.blocks[k].0
            },
            None => 0,
        }
    }

    /// The offsets of the blocks that hold ways.
    pub fn way_blocks(&self) -> (r: Vec<u64>)
        ensures
            r@ == way_block_offsets(self.blocks()),
            r@ == self.blocks().filter_map((|b: (u64, Block)| if b.1.ways.start <= b.1.ways.end { Some(b.0) } else { None })),
    {
        proof {
            lemma_way_blocks_filter(self.blocks());
        }
        let mut r: Vec<u64> = Vec::new();
        let mut k: usize = 0;
        while k < self.blocks.len()
            invariant
                k <= self.blocks.len(),
                r@ == way_block_offsets(self.blocks@.take(k as int)),
            decreases self.blocks.len() - k,
        {
            assert(self.blocks@.take(k + 1).drop_last() =~= self.blocks@.take(k as int));
            if !self.blocks[k].1.ways.is_empty() {
                r.push(self.blocks[k].0);
            }
            k += 1;
        }
        assert(self.blocks@.take(self.blocks.len() as int) =~= self.blocks@);
        r
    }

    /// Looks `node_id` up in the cached node map of the first block whose
    /// node range holds it. A cached map is found as `VecBuffer::lookup`
    /// finds it and is moved to the front of the cache.
    pub fn lookup_node(&mut self, node_id: i64) -> (r: NodeLookup)
        requires
            in_file(old(self).blocks(), node_id),
        ensures
            final(self).blocks() == old(self).blocks(),
            final(self).cache_capacity() == old(self).cache_capacity(),
            ({
                let off = node_block_offset(old(self).blocks(), node_id);
                let c = old(self).cached();
                match r {
                    NodeLookup::Load(o) => {
                        &&& o == off
                        &&& not_cached(c, off)
                        &&& final(self).cached() == c
                    },
                    NodeLookup::Found(lat, lon) => {
                        let n = cached_index(c, off);
                        &&& first_cached_at(c, off, n)
                        &&& final(self).cached() == swap_items(c, 0, n)
                        &&& c[n].1@.contains_key(node_id)
                        &&& c[n].1@[node_id] == (lat, lon)
                    },
                    NodeLookup::NotInBlock => {
                        let n = cached_index(c, off);
                        &&& first_cached_at(c, off, n)
                        &&& final(self).cached() == swap_items(c, 0, n)
                        &&& !c[n].1@.contains_key(node_id)
                    },
                }
            }),
    {
        let off = self.lookup_node_offset(node_id);
        let ghost c = self.nodes@;
        let same_offset = |e: &(u64, HashMap<i64, (i64, i64)>)| -> (b: bool)
            ensures
                b == (e.0 == off),
            { e.0 == off };
        let hit = self.nodes.promote(same_offset);
        match hit {
            Some(n) => {
                let coords = match self.nodes.first().1.get(&node_id) {
                    Some(c) => Some(*c),
                    None => None,
                };
                proof {
                    lemma_cached_index_unique(c, off, n as int);
                }
                match coords {
                    Some(ll) => NodeLookup::Found(ll.0, ll.1),
                    None => NodeLookup::NotInBlock,
                }
            },
            None => NodeLookup::Load(off),
        }
    }

    /// Builds the node map of the block at `offset` from its elements,
    /// puts it at the front of the cache and looks `node_id` up in it.
    pub fn load_node(&mut self, node_id: i64, offset: u64, elements: &Vec<Element>) -> (r: Option<
        (i64, i64),
    >)
        ensures
            final(self).blocks() == old(self).blocks(),
            final(self).cache_capacity() == old(self).cache_capacity(),
            final(self).cached().len() == 1 + kept(old(self).cached(), old(self).cache_capacity()).len(),
            final(self).cached()[0].0 == offset,
            final(self).cached()[0].1@ == node_map_of(elements@),
            final(self).cached().drop_first() == kept(old(self).cached(), old(self).cache_capacity()),
            r == (if node_map_of(elements@).contains_key(node_id) {
                Some(node_map_of(elements@)[node_id])
            } else {
                None
            }),
            r is None <==> forall|i: int| 0 <= i < elements@.len() ==> !((#[trigger] elements@[i] is Node && #[trigger] elements@[i]->Node_id == node_id) || (#[trigger] elements@[i] is DenseNode && #[trigger] elements@[i]->DenseNode_id == node_id)),
            forall|c: (i64, i64)|
                r == Some(c) ==> exists|i: int|
                    0 <= i < elements@.len() && ((#[trigger] elements@[i] is Node && #[trigger] elements@[i]->Node_id == node_id && c == (#[trigger] elements@[i]->Node_nano_lat, #[trigger] elements@[i]->Node_nano_lon)) || (#[trigger] elements@[i] is DenseNode && #[trigger] elements@[i]->DenseNode_id == node_id && c == (#[trigger] elements@[i]->DenseNode_nano_lat, #[trigger] elements@[i]->DenseNode_nano_lon)))
                        && forall|j: int| i < j < elements@.len() ==> !((#[trigger] elements@[j] is Node && #[trigger] elements@[j]->Node_id == node_id) || (#[trigger] elements@[j] is DenseNode && #[trigger] elements@[j]->DenseNode_id == node_id)),
    {
        proof {
            lemma_node_map_from_elements(elements@);
        }
        let map = node_map(elements);
        let r = match map.get(&node_id) {
            Some(coords) => Some(*coords),
            None => None,
        };
        self.nodes.push((offset, map));
        assert(self.nodes@.drop_first() =~= kept(old(self).nodes@, old(self).nodes.capacity()));
        r
    }
}

/// There is only one first block holding an id.
proof fn lemma_first_node_block_unique(blocks: Seq<(u64, Block)>, id: i64, k: int)
    requires
        is_first_node_block(blocks, id, k),
    ensures
        node_block_offset(blocks, id) == blocks[k].0,
{
    let k2 = choose|k2: int| is_first_node_block(blocks, id, k2);
    assert(is_first_node_block(blocks, id, k2));
    if k2 < k {
        assert(!blocks[k2].1.nodes.spec_contains(id));
    } else if k < k2 {
        assert(!blocks[k].1.nodes.spec_contains(id));
    }
}

/// The node map that `load_node` has just put at the front of the cache is
/// the one the next `lookup_node` for a node of that block uses, provided
/// the cache then holds at least one other map (the last cached map is
/// never looked at).
pub proof fn lemma_loaded_map_is_used(cached: Seq<(u64, HashMap<i64, (i64, i64)>)>, offset: u64)
    requires
        cached.len() >= 2,
        cached[0].0 == offset,
    ensures
        first_cached_at(cached, offset, 0),
        cached_index(cached, offset) == 0,
        swap_items(cached, 0, 0) == cached,
{
    lemma_cached_index_unique(cached, offset, 0);
    assert(swap_items(cached, 0, 0) =~= cached);
}

} // verus!
