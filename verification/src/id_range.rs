use vstd::prelude::*;

verus! {

/// An inclusive range of OSM ids; it is empty when `start > end`.
#[derive(Clone, Copy, Debug, PartialEq, Eq, Structural)]
pub struct IdRange {
    pub start: i64,
    pub end: i64,
}

impl IdRange {
    pub open spec fn spec_is_empty(self) -> bool {
        self.start > self.end
    }

    pub open spec fn spec_contains(self, id: i64) -> bool {
        self.start <= id <= self.end
    }

    /// The range that nothing has been added to yet: `1..=0`.
    pub fn empty() -> (r: IdRange)
        ensures
            r == (IdRange { start: 1, end: 0 }),
            r.spec_is_empty(),
    {
        IdRange { start: 1, end: 0 }
    }

    pub fn is_empty(&self) -> (b: bool)
        ensures
            b == self.spec_is_empty(),
            b <==> self.start > self.end,
    {
        self.start > self.end
    }

    pub fn contains(&self, id: i64) -> (b: bool)
        ensures
            b == self.spec_contains(id),
            b <==> (self.start <= id && id <= self.end),
    {
        self.start <= id && id <= self.end
    }
}

/// The smallest of two ids.
pub open spec fn min_id(a: i64, b: i64) -> i64 {
    if a <= b { a } else { b }
}

/// The largest of two ids.
pub open spec fn max_id(a: i64, b: i64) -> i64 {
    if a >= b { a } else { b }
}

/// Widens `range` so that it holds `value`: an empty range becomes
/// `value..=value`, any other grows to the smallest range holding both.
pub fn upd_range(range: &mut IdRange, value: i64)
    ensures
        old(range).spec_is_empty() ==> *final(range) == (IdRange { start: value, end: value }),
        !old(range).spec_is_empty() ==> *final(range) == (IdRange {
            start: min_id(old(range).start, value),
            end: max_id(old(range).end, value),
        }),
        final(range).spec_contains(value),
        forall|id: i64| old(range).spec_contains(id) ==> final(range).spec_contains(id),
        final(range).start <= value <= final(range).end,
        old(range).start > old(range).end ==> final(range).start == value && final(range).end == value,
        old(range).start <= old(range).end ==> {
            &&& final(range).start <= old(range).start
            &&& final(range).end >= old(range).end
            &&& (final(range).start == old(range).start || final(range).start == value)
            &&& (final(range).end == old(range).end || final(range).end == value)
        },
{
    if range.is_empty() {
        *range = IdRange { start: value, end: value };
    } else {
        let start = if range.start <= value { range.start } else { value };
        let end = if range.end >= value { range.end } else { value };
        *range = IdRange { start, end };
    }
}

} // verus!
