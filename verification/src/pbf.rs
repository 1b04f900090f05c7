use vstd::arithmetic::div_mod::{lemma_add_mod_noop, lemma_small_mod};
use vstd::prelude::*;

verus! {

/// 2^64, the modulus of the counters.
pub open spec fn modulus() -> nat {
    0x1_0000_0000_0000_0000
}

/// A count kept in a `u64` that wraps around.
pub open spec fn wrapped(n: nat) -> u64 {
    (n % modulus()) as u64
}

/// Wrapping sum of two counters.
pub open spec fn wrap_add(a: u64, b: u64) -> u64 {
    wrapped((a + b) as nat)
}

/// The larger of two `u64`s.
pub open spec fn max_u64(a: u64, b: u64) -> u64 {
    if a >= b { a } else { b }
}

/// A node id as the unsigned number the statistics compare: its bits read
/// as a `u64`.
pub open spec fn node_key(id: i64) -> u64 {
    #[verifier::truncate]
    (id as u64)
}

/// A way is a closed polygon when it has at least three node references
/// and its first and last reference are the same node.
pub open spec fn spec_is_polygon(refs: Seq<i64>) -> bool {
    refs.len() >= 3 && refs[0] == refs[refs.len() - 1]
}

/// The largest key among the node references of a way, or 0.
pub open spec fn max_key(refs: Seq<i64>) -> u64
    decreases refs.len(),
{
    if refs.len() == 0 {
        0
    } else {
        max_u64(max_key(refs.drop_last()), node_key(refs.last()))
    }
}

/// Statistics over the ways of a file: the largest node key referenced,
/// and how many ways are polygons and how many are lines (each counter
/// wrapping at 2^64).
#[derive(Clone, Copy, Debug, PartialEq, Eq, Structural)]
pub struct WayCounts {
    pub max_node: u64,
    pub polygons: u64,
    pub lines: u64,
}

/// The number of polygons among `ways`.
pub open spec fn polygon_count(ways: Seq<Seq<i64>>) -> nat
    decreases ways.len(),
{
    if ways.len() == 0 {
        0
    } else {
        polygon_count(ways.drop_last()) + if spec_is_polygon(ways.last()) { 1nat } else { 0nat }
    }
}

/// The number of lines (ways that are not polygons) among `ways`.
pub open spec fn line_count(ways: Seq<Seq<i64>>) -> nat
    decreases ways.len(),
{
    if ways.len() == 0 {
        0
    } else {
        line_count(ways.drop_last()) + if spec_is_polygon(ways.last()) { 0nat } else { 1nat }
    }
}

/// The largest node key referenced by any of `ways`, or 0.
pub open spec fn max_node_of(ways: Seq<Seq<i64>>) -> u64
    decreases ways.len(),
{
    if ways.len() == 0 {
        0
    } else {
        max_u64(max_node_of(ways.drop_last()), max_key(ways.last()))
    }
}

/// The statistics of `ways`.
pub open spec fn counts_of(ways: Seq<Seq<i64>>) -> WayCounts {
    WayCounts {
        max_node: max_node_of(ways),
        polygons: wrapped(polygon_count(ways)),
        lines: wrapped(line_count(ways)),
    }
}

/// The statistics `c` with one more way, `refs`, counted in.
pub open spec fn with_way(c: WayCounts, refs: Seq<i64>) -> WayCounts {
    WayCounts {
        max_node: max_u64(c.max_node, max_key(refs)),
        polygons: wrap_add(c.polygons, if spec_is_polygon(refs) { 1 } else { 0 }),
        lines: wrap_add(c.lines, if spec_is_polygon(refs) { 0 } else { 1 }),
    }
}

/// The statistics of two disjoint sets of ways, combined.
pub open spec fn merged(a: WayCounts, b: WayCounts) -> WayCounts {
    WayCounts {
        max_node: max_u64(a.max_node, b.max_node),
        polygons: wrap_add(a.polygons, b.polygons),
        lines: wrap_add(a.lines, b.lines),
    }
}

/// Whether the way with node references `refs` is a closed polygon.
pub fn is_polygon(refs: &Vec<i64>) -> (b: bool)
    ensures
        b == spec_is_polygon(refs@),
        b <==> (refs@.len() >= 3 && refs@[0] == refs@[refs@.len() - 1]),
{
    proof {
        lemma_polygon_is_closed_way(refs@);
    }
    refs.len() >= 3 && refs[0] == refs[refs.len() - 1]
}

impl WayCounts {
    /// The statistics of no ways.
    pub fn new() -> (c: WayCounts)
        ensures
            c == counts_of(Seq::empty()),
    {
        WayCounts { max_node: 0, polygons: 0, lines: 0 }
    }

    /// Counts in one more way, with node references `refs`.
    pub fn add_way(&mut self, refs: &Vec<i64>)
        ensures
            *final(self) == with_way(*old(self), refs@),
            final(self).max_node >= old(self).max_node,
            forall|i: int| 0 <= i < refs@.len() ==> final(self).max_node >= node_key(#[trigger] refs@[i]),
            final(self).max_node == old(self).max_node || exists|i: int|
                0 <= i < refs@.len() && final(self).max_node == node_key(#[trigger] refs@[i]),
            (refs@.len() >= 3 && refs@[0] == refs@[refs@.len() - 1]) ==> {
                &&& final(self).polygons == (if old(self).polygons == u64::MAX { 0 } else { old(self).polygons + 1 })
                &&& final(self).lines == old(self).lines
            },
            !(refs@.len() >= 3 && refs@[0] == refs@[refs@.len() - 1]) ==> {
                &&& final(self).lines == (if old(self).lines == u64::MAX { 0 } else { old(self).lines + 1 })
                &&& final(self).polygons == old(self).polygons
            },
    {
        proof {
            lemma_max_key_is_largest(refs@);
            lemma_polygon_is_closed_way(refs@);
        }
        let mut i: usize = 0;
        let mut max_node = self.max_node;
        while i < refs.len()
            invariant
                i <= refs.len(),
                max_node == max_u64(old(self).max_node, max_key(refs@.take(i as int))),
            decreases refs.len() - i,
        {
            assert(refs@.take(i + 1).drop_last() =~= refs@.take(i as int));
            #[verifier::truncate]
            let key = refs[i] as u64;
            if key > max_node {
                max_node = key;
            }
            i += 1;
        }
        assert(refs@.take(refs.len() as int) =~= refs@);
        self.max_node = max_node;
        if is_polygon(refs) {
            self.polygons = self.polygons.wrapping_add(1);
        } else {
            self.lines = self.lines.wrapping_add(1);
        }
    }

    /// The statistics of the ways of `self` and `other` together.
    pub fn merge(&self, other: &WayCounts) -> (c: WayCounts)
        ensures
            c == merged(*self, *other),
    {
        WayCounts {
            max_node: if self.max_node >= other.max_node { self.max_node } else { other.max_node },
            polygons: self.polygons.wrapping_add(other.polygons),
            lines: self.lines.wrapping_add(other.lines),
        }
    }
}

proof fn lemma_wrapped_add(x: nat, y: nat)
    ensures
        wrapped(x + y) == wrap_add(wrapped(x), wrapped(y)),
{
    lemma_add_mod_noop(x as int, y as int, modulus() as int);
}

/// Counting one more way in step by step gives the statistics of all ways.
pub proof fn lemma_counts_push(ways: Seq<Seq<i64>>, refs: Seq<i64>)
    ensures
        counts_of(ways.push(refs)) == with_way(counts_of(ways), refs),
{
    let w = ways.push(refs);
    assert(w.drop_last() =~= ways);
    lemma_wrapped_add(polygon_count(ways), if spec_is_polygon(refs) { 1nat } else { 0nat });
    lemma_wrapped_add(line_count(ways), if spec_is_polygon(refs) { 0nat } else { 1nat });
}

/// The statistics of two runs of ways, merged, are those of both runs
/// together: the order in which blocks are counted and merged does not
/// matter.
pub proof fn lemma_counts_concat(a: Seq<Seq<i64>>, b: Seq<Seq<i64>>)
    ensures
        counts_of(a + b) == merged(counts_of(a), counts_of(b)),
    decreases b.len(),
{
    if b.len() == 0 {
        assert(a + b =~= a);
        assert(wrapped(0) == 0);
        lemma_wrapped_add(polygon_count(a), 0);
        lemma_wrapped_add(line_count(a), 0);
    } else {
        let b0 = b.drop_last();
        lemma_counts_concat(a, b0);
        assert((a + b).drop_last() =~= a + b0);
        assert((a + b).last() == b.last());
        lemma_wrapped_add(polygon_count(a), polygon_count(b));
        lemma_wrapped_add(line_count(a), line_count(b));
        lemma_sums_concat(a, b);
    }
}

proof fn lemma_sums_concat(a: Seq<Seq<i64>>, b: Seq<Seq<i64>>)
    ensures
        polygon_count(a + b) == polygon_count(a) + polygon_count(b),
        line_count(a + b) == line_count(a) + line_count(b),
        max_node_of(a + b) == max_u64(max_node_of(a), max_node_of(b)),
    decreases b.len(),
{
    if b.len() == 0 {
        assert(a + b =~= a);
    } else {
        let b0 = b.drop_last();
        lemma_sums_concat(a, b0);
        assert((a + b).drop_last() =~= a + b0);
        assert((a + b).last() == b.last());
    }
}

/// Merging statistics does not depend on the order of its arguments.
pub proof fn lemma_merge_commutative(a: WayCounts, b: WayCounts)
    ensures
        merged(a, b) == merged(b, a),
{
}

/// Merging statistics does not depend on how merges are grouped.
pub proof fn lemma_merge_associative(a: WayCounts, b: WayCounts, c: WayCounts)
    ensures
        merged(merged(a, b), c) == merged(a, merged(b, c)),
{
    lemma_add_mod_noop(a.polygons + b.polygons, c.polygons as int, modulus() as int);
    lemma_add_mod_noop(a.polygons as int, b.polygons + c.polygons, modulus() as int);
    lemma_add_mod_noop(a.lines + b.lines, c.lines as int, modulus() as int);
    lemma_add_mod_noop(a.lines as int, b.lines + c.lines, modulus() as int);
    lemma_small_mod(c.polygons as nat, modulus());
    lemma_small_mod(a.polygons as nat, modulus());
    lemma_small_mod(c.lines as nat, modulus());
    lemma_small_mod(a.lines as nat, modulus());
}

/// The statistics of no ways change nothing in a merge.
pub proof fn lemma_merge_identity(c: WayCounts)
    ensures
        merged(counts_of(Seq::empty()), c) == c,
{
    lemma_small_mod(c.polygons as nat, modulus());
    lemma_small_mod(c.lines as nat, modulus());
}

/// Every way is counted once, as a polygon or as a line.
pub proof fn lemma_every_way_counted(ways: Seq<Seq<i64>>)
    ensures
        polygon_count(ways) + line_count(ways) == ways.len(),
        wrap_add(counts_of(ways).polygons, counts_of(ways).lines) == wrapped(ways.len()),
    decreases ways.len(),
{
    if ways.len() > 0 {
        lemma_every_way_counted(ways.drop_last());
    }
    lemma_wrapped_add(polygon_count(ways), line_count(ways));
}

/// The key `max_key` gives a way is at least the key of each of its node
/// references, and is the key of one of them when there is any.
pub proof fn lemma_max_key_is_largest(refs: Seq<i64>)
    ensures
        forall|i: int| 0 <= i < refs.len() ==> max_key(refs) >= node_key(#[trigger] refs[i]),
        refs.len() > 0 ==> exists|i: int| 0 <= i < refs.len() && max_key(refs) == node_key(#[trigger] refs[i]),
        refs.len() == 0 ==> max_key(refs) == 0,
    decreases refs.len(),
{
    if refs.len() > 0 {
        let rest = refs.drop_last();
        lemma_max_key_is_largest(rest);
        assert forall|i: int| 0 <= i < refs.len() implies max_key(refs) >= node_key(#[trigger] refs[i]) by {
            if i < refs.len() - 1 {
                assert(refs[i] == rest[i]);
            }
        }
        if max_key(refs) == node_key(refs.last()) {
            assert(max_key(refs) == node_key(refs[refs.len() - 1]));
        } else {
            let j = choose|j: int| 0 <= j < rest.len() && max_key(rest) == node_key(#[trigger] rest[j]);
            assert(refs[j] == rest[j]);
        }
    }
}

/// A way is a polygon exactly when it has at least three node references
/// and its first and last references are equal, whatever its length.
pub proof fn lemma_polygon_is_closed_way(refs: Seq<i64>)
    ensures
        spec_is_polygon(refs) <==> (refs.len() >= 3 && refs[0] == refs[refs.len() - 1]),
{
}

/// Counting a way into fresh statistics gives the largest key among its
/// node references, and one polygon or one line as the way is closed or not.
pub proof fn lemma_single_way_counts(refs: Seq<i64>)
    ensures
        forall|i: int| 0 <= i < refs.len() ==> with_way(counts_of(Seq::empty()), refs).max_node
            >= node_key(#[trigger] refs[i]),
        refs.len() > 0 ==> exists|i: int|
            0 <= i < refs.len() && with_way(counts_of(Seq::empty()), refs).max_node == node_key(
                #[trigger] refs[i],
            ),
        refs.len() == 0 ==> with_way(counts_of(Seq::empty()), refs).max_node == 0,
        (refs.len() >= 3 && refs[0] == refs[refs.len() - 1]) ==> with_way(counts_of(Seq::empty()), refs)
            == (WayCounts { max_node: with_way(counts_of(Seq::empty()), refs).max_node, polygons: 1, lines: 0 }),
        !(refs.len() >= 3 && refs[0] == refs[refs.len() - 1]) ==> with_way(counts_of(Seq::empty()), refs)
            == (WayCounts { max_node: with_way(counts_of(Seq::empty()), refs).max_node, polygons: 0, lines: 1 }),
{
    lemma_max_key_is_largest(refs);
    assert(wrapped(0) == 0);
    assert(wrap_add(0, 1) == 1);
    assert(wrap_add(0, 0) == 0);
}

} // verus!
