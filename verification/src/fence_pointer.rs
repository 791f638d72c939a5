//! Fence pointers: an inclusive key range `[low, high]` summarizing one
//! on-disk block of a run.

use vstd::prelude::*;

verus! {

use vstd::std_specs::cmp::PartialOrdSpec;

/// An inclusive key range `[low, high]` for one block. A lookup consults the
/// fence pointers to find the unique block that may hold a key.
pub struct FencePointer<T> {
    low: T,
    high: T,
}

impl<T: PartialOrd> FencePointer<T> {
    /// The key stored as the low end of the range.
    pub closed spec fn low_spec(&self) -> T {
        self.low
    }

    /// The key stored as the high end of the range.
    pub closed spec fn high_spec(&self) -> T {
        self.high
    }

    /// Whether `x` falls inside the inclusive range, stated over the
    /// comparison model of `T`.
    pub open spec fn in_range_spec(&self, x: T) -> bool {
        &&& x.partial_cmp_spec(&self.low_spec()) matches Some(
            core::cmp::Ordering::Greater
            | core::cmp::Ordering::Equal,
        )
        &&& x.partial_cmp_spec(&self.high_spec()) matches Some(
            core::cmp::Ordering::Less
            | core::cmp::Ordering::Equal,
        )
    }

    pub fn in_range(&self, x: &T) -> (r: bool)
        ensures
            T::obeys_partial_cmp_spec() ==> (r <==> self.in_range_spec(*x)),
    {
        *x >= self.low && *x <= self.high
    }

    pub fn new(l: T, h: T) -> (r: FencePointer<T>)
        ensures
            r.low_spec() == l,
            r.high_spec() == h,
    {
        FencePointer { low: l, high: h }
    }
}

/// Fence pointers over `i32` keys, the key type of the store.
impl FencePointer<i32> {
    /// For integer keys the range test is plain integer order.
    pub open spec fn contains_key(&self, x: int) -> bool {
        self.low_spec() <= x <= self.high_spec()
    }

    /// The low end of the range.
    pub fn low_key(&self) -> (r: i32)
        ensures
            r == self.low_spec(),
    {
        self.low
    }

    /// The high end of the range.
    pub fn high_key(&self) -> (r: i32)
        ensures
            r == self.high_spec(),
    {
        self.high
    }

    /// The number of bytes a fence pointer over `i32` occupies in run
    /// metadata: two four-byte keys.
    pub fn size_in_bytes(&self) -> (r: usize)
        ensures
            r == 8,
    {
        8
    }
}

proof fn in_range_matches_contains_key(fp: FencePointer<i32>, x: i32)
    ensures
        fp.in_range_spec(x) <==> fp.contains_key(x as int),
{
}

} // verus!
