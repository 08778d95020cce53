//! The two-partition result collector.
//!
//! Every match a walk records is either exact — the folded base name
//! equals the query — or merely contains the query. The two kinds are
//! kept apart from the moment they are classified; workers fill private
//! collectors and the partitions are concatenated once, at shutdown.

use vstd::prelude::*;

verus! {

/// One classified match, holding the path it was found at.
pub enum SearchResult {
    /// The folded name contains the query without being equal to it.
    Contains(Vec<u8>),
    /// The folded name equals the query.
    Exact(Vec<u8>),
}

impl SearchResult {
    /// Wraps a path as a containing match.
    pub fn contains(path: Vec<u8>) -> (r: Self)
        ensures
            r == SearchResult::Contains(path),
    {
        Self::Contains(path)
    }

    /// Wraps a path as an exact match.
    pub fn exact(path: Vec<u8>) -> (r: Self)
        ensures
            r == SearchResult::Exact(path),
    {
        Self::Exact(path)
    }
}

/// The collected matches of a walk, partitioned into exact and
/// containing ones. Order within a partition carries no meaning until a
/// later sort stage.
pub struct SearchResults {
    /// Paths whose folded base name equals the query.
    pub exact: Vec<Vec<u8>>,
    /// Paths whose folded base name contains the query.
    pub contains: Vec<Vec<u8>>,
}

impl SearchResults {
    /// The exact partition as byte strings.
    pub open spec fn exact_view(self) -> Seq<Seq<u8>> {
        self.exact@.map_values(|v: Vec<u8>| v@)
    }

    /// The containing partition as byte strings.
    pub open spec fn contains_view(self) -> Seq<Seq<u8>> {
        self.contains@.map_values(|v: Vec<u8>| v@)
    }

    /// An empty collector.
    pub fn new() -> (r: Self)
        ensures
            r.exact@ == Seq::<Vec<u8>>::empty(),
            r.contains@ == Seq::<Vec<u8>>::empty(),
    {
        let r = Self { exact: Vec::new(), contains: Vec::new() };
        proof {
            assert(r.exact@ =~= Seq::<Vec<u8>>::empty());
            assert(r.contains@ =~= Seq::<Vec<u8>>::empty());
        }
        r
    }

    /// An empty collector with room reserved in both partitions.
    pub fn with_capacity(capacity: usize) -> (r: Self)
        ensures
            r.exact@ == Seq::<Vec<u8>>::empty(),
            r.contains@ == Seq::<Vec<u8>>::empty(),
    {
        let r = Self { exact: Vec::with_capacity(capacity), contains: Vec::with_capacity(capacity) };
        proof {
            assert(r.exact@ =~= Seq::<Vec<u8>>::empty());
            assert(r.contains@ =~= Seq::<Vec<u8>>::empty());
        }
        r
    }

    /// Appends one classified match to the partition of its kind.
    pub fn push(&mut self, result: SearchResult)
        ensures
            match result {
                SearchResult::Exact(p) => final(self).exact@ == old(self).exact@.push(p)
                    && final(self).contains@ == old(self).contains@,
                SearchResult::Contains(p) => final(self).contains@ == old(self).contains@.push(p)
                    && final(self).exact@ == old(self).exact@,
            },
    {
        match result {
            SearchResult::Contains(r) => self.contains.push(r),
            SearchResult::Exact(r) => self.exact.push(r),
        }
    }

    /// Concatenates another collector's partitions onto this one's.
    pub fn merge(&mut self, other: SearchResults)
        ensures
            final(self).exact@ == old(self).exact@ + other.exact@,
            final(self).contains@ == old(self).contains@ + other.contains@,
    {
        let mut other = other;
        self.exact.append(&mut other.exact);
        self.contains.append(&mut other.contains);
    }
}

} // verus!
