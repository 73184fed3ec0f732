use vstd::prelude::*;

verus! {

/// The value most recently recorded for the source `(ptr, size)` in
/// `entries`, if any.
pub open spec fn lookup_in(entries: Seq<(usize, usize, u64)>, ptr: usize, size: usize) -> Option<u64>
    decreases entries.len(),
{
    if entries.len() == 0 {
        None
    } else if entries.last().0 == ptr && entries.last().1 == size {
        Some(entries.last().2)
    } else {
        lookup_in(entries.drop_last(), ptr, size)
    }
}

/// Remembers, for the span of one root conversion, which encoded value each
/// source `(address, byte size)` was given, so that the same source is encoded
/// once and shared.
pub struct MemoizationCache {
    entries: Vec<(usize, usize, u64)>,
    active: bool,
}

impl MemoizationCache {
    /// Whether a root conversion is in progress.
    pub closed spec fn is_active(&self) -> bool {
        self.active
    }

    /// The bits recorded for `(ptr, size)` in the current root conversion.
    pub closed spec fn cached(&self, ptr: usize, size: usize) -> Option<u64> {
        if self.active {
            lookup_in(self.entries@, ptr, size)
        } else {
            None
        }
    }

    pub fn new() -> (r: MemoizationCache)
        ensures
            !r.is_active(),
    {
        MemoizationCache { entries: Vec::new(), active: false }
    }

    /// Open the cache for a root conversion, empty.
    pub fn start(&mut self)
        requires
            !old(self).is_active(),
        ensures
            final(self).is_active(),
            forall|p: usize, s: usize| #[trigger] final(self).cached(p, s).is_none(),
    {
        self.entries = Vec::new();
        self.active = true;
    }

    /// Close the cache at the end of a root conversion, dropping its entries.
    pub fn finish(&mut self)
        ensures
            !final(self).is_active(),
    {
        self.entries = Vec::new();
        self.active = false;
    }

    /// The bits recorded for `(ptr, size)`, if any.
    pub fn get(&self, ptr: usize, size: usize) -> (r: Option<u64>)
        ensures
            r == self.cached(ptr, size),
    {
        if !self.active {
            return None;
        }
        let mut j = self.entries.len();
        proof {
            assert(self.entries@.take(j as int) =~= self.entries@);
        }
        while j > 0
            invariant
                j <= self.entries@.len(),
                self.active,
                lookup_in(self.entries@.take(j as int), ptr, size) == lookup_in(self.entries@, ptr, size),
            decreases j,
        {
            let e = self.entries[j - 1];
            proof {
                assert(self.entries@.take(j as int).last() == self.entries@[j - 1]);
                assert(self.entries@.take(j as int).drop_last() =~= self.entries@.take(j - 1));
            }
            if e.0 == ptr && e.1 == size {
                return Some(e.2);
            }
            j = j - 1;
        }
        None
    }

    /// Record `bits` for `(ptr, size)`; outside a root conversion nothing is
    /// recorded.
    pub fn insert(&mut self, ptr: usize, size: usize, bits: u64)
        ensures
            final(self).is_active() == old(self).is_active(),
            old(self).is_active() ==> final(self).cached(ptr, size) == Some(bits),
            forall|p: usize, s: usize|
                !(p == ptr && s == size) ==> #[trigger] final(self).cached(p, s) == old(self).cached(p, s),
    {
        if self.active {
            let ghost before = self.entries@;
            self.entries.push((ptr, size, bits));
            proof {
                assert(self.entries@.drop_last() =~= before);
            }
        }
    }
}

} // verus!
