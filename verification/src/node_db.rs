use byte_slice_cast::{AsMutSliceOf, AsSliceOf};
use memmap::MmapMut;
use vstd::prelude::*;

verus! {

#[verifier::external_type_specification]
#[verifier::external_body]
pub struct ExMmapMut(MmapMut);

/// The bytes of a writable memory map, read as `i64` words in the
/// machine's byte order.
pub uninterp spec fn mapped_words(map: MmapMut) -> Seq<i64>;

/// Whether the map's bytes can be viewed as `i64` words: its address is
/// 8-aligned and its length a multiple of 8 (or it is empty).
pub uninterp spec fn words_castable(map: MmapMut) -> bool;

/// The map's bytes as `i64` words, through
/// `byte_slice_cast::AsSliceOf::as_slice_of::<i64>` (which only looks at
/// the address and length and reinterprets the bytes in place); `None`
/// where that call reports an alignment or length mismatch.
#[verifier::external_body]
fn words_of(map: &MmapMut) -> (r: Option<&[i64]>)
    ensures
        match r {
            Some(w) => words_castable(*map) && w@ == mapped_words(*map),
            None => !words_castable(*map),
        },
{
    match map.as_slice_of::<i64>() {
        Ok(w) => Some(w),
        Err(_) => None,
    }
}

/// Writes word `index` of the map, through
/// `byte_slice_cast::AsMutSliceOf::as_mut_slice_of::<i64>`: the other words
/// keep their values, and the map's address and length do not change, so
/// it stays castable.
#[verifier::external_body]
fn set_word(map: &mut MmapMut, index: usize, value: i64)
    requires
        words_castable(*old(map)),
        index < mapped_words(*old(map)).len(),
    ensures
        words_castable(*final(map)),
        mapped_words(*final(map)) == mapped_words(*old(map)).update(index as int, value),
{
    map.as_mut_slice_of::<i64>().unwrap()[index] = value;
}

/// The coordinates stored for node `id`: words `2 * id` and `2 * id + 1`.
pub open spec fn slot(words: Seq<i64>, id: int) -> (i64, i64) {
    (words[2 * id], words[2 * id + 1])
}

/// `words` with the coordinates of node `id` set to `(lat, lon)`.
pub open spec fn with_slot(words: Seq<i64>, id: int, lat: i64, lon: i64) -> Seq<i64> {
    words.update(2 * id, lat).update(2 * id + 1, lon)
}

/// The number of bytes a store for node ids `0..=nodes` takes, or `None`
/// where that does not fit in a `u64`.
pub fn file_len(nodes: u64) -> (r: Option<u64>)
    ensures
        match r {
            Some(n) => n == (nodes + 1) * 16,
            None => (nodes + 1) * 16 > u64::MAX,
        },
{
    if nodes >= 0x0fff_ffff_ffff_ffff {
        None
    } else {
        Some((nodes + 1) * 8 * 2)
    }
}

/// A flat store of node coordinates over a memory map: node `id` has its
/// latitude in word `2 * id` and its longitude in word `2 * id + 1`.
pub struct NodeDB {
    mmap: MmapMut,
}

impl View for NodeDB {
    type V = Seq<i64>;

    closed spec fn view(&self) -> Seq<i64> {
        mapped_words(self.mmap)
    }
}

/// A store over `mmap`, or `None` where its bytes cannot be read as words.
pub fn new(mmap: MmapMut) -> (r: Option<NodeDB>)
    ensures
        match r {
            Some(db) => db.wf() && db@ == mapped_words(mmap),
            None => !words_castable(mmap),
        },
{
    let castable = match words_of(&mmap) {
        Some(_) => true,
        None => false,
    };
    if castable {
        Some(NodeDB { mmap })
    } else {
        None
    }
}

impl NodeDB {
    /// The store's words can be read.
    pub closed spec fn wf(&self) -> bool {
        words_castable(self.mmap)
    }

    /// The number of node ids the store has room for.
    pub open spec fn slots(&self) -> int {
        (self@.len() / 2) as int
    }

    /// The number of node ids the store has room for: ids `0..capacity`.
    pub fn capacity(&self) -> (n: u64)
        requires
            self.wf(),
        ensures
            n == self.slots(),
    {
        match words_of(&self.mmap) {
            Some(w) => (w.len() / 2) as u64,
            None => 0,
        }
    }

    /// The coordinates stored for `node_id`.
    pub fn lookup(&self, node_id: i64) -> (r: (i64, i64))
        requires
            self.wf(),
            0 <= node_id < self.slots(),
        ensures
            r == slot(self@, node_id as int),
    {
        match words_of(&self.mmap) {
            Some(w) => {
                let len = w.len();
                assert(node_id < len / 2);
                let i = node_id as usize;
                (w[2 * i], w[2 * i + 1])
            },
            None => (0, 0),
        }
    }

    /// Stores `(lat, lon)` for `node_id`.
    pub fn set(&mut self, node_id: i64, lat: i64, lon: i64)
        requires
            old(self).wf(),
            0 <= node_id < old(self).slots(),
        ensures
            final(self).wf(),
            final(self)@ == with_slot(old(self)@, node_id as int, lat, lon),
    {
        let len = match words_of(&self.mmap) {
            Some(w) => w.len(),
            None => 0,
        };
        assert(node_id < len / 2);
        let i = node_id as usize;
        set_word(&mut self.mmap, 2 * i, lat);
        set_word(&mut self.mmap, 2 * i + 1, lon);
    }
}

/// A lookup after a set of the same node gives what was set.
pub proof fn lemma_lookup_after_set(words: Seq<i64>, id: int, lat: i64, lon: i64)
    requires
        0 <= id < words.len() / 2,
    ensures
        slot(with_slot(words, id, lat, lon), id) == (lat, lon),
        with_slot(words, id, lat, lon).len() == words.len(),
{
}

/// A set of one node leaves every other node as it was.
pub proof fn lemma_set_keeps_others(words: Seq<i64>, id: int, other: int, lat: i64, lon: i64)
    requires
        0 <= id < words.len() / 2,
        0 <= other < words.len() / 2,
        id != other,
    ensures
        slot(with_slot(words, id, lat, lon), other) == slot(words, other),
{
}

/// Storing for a node what it already holds changes nothing.
pub proof fn lemma_set_same_is_identity(words: Seq<i64>, id: int)
    requires
        0 <= id < words.len() / 2,
    ensures
        with_slot(words, id, slot(words, id).0, slot(words, id).1) == words,
{
    assert(with_slot(words, id, slot(words, id).0, slot(words, id).1) =~= words);
}

/// A second set of the same node overrides the first.
pub proof fn lemma_set_twice(words: Seq<i64>, id: int, a: i64, b: i64, c: i64, d: i64)
    requires
        0 <= id < words.len() / 2,
    ensures
        with_slot(with_slot(words, id, a, b), id, c, d) == with_slot(words, id, c, d),
{
    assert(with_slot(with_slot(words, id, a, b), id, c, d) =~= with_slot(words, id, c, d));
}

} // verus!
