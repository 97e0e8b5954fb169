//! Crawl manifest: the set of source identifiers that have already
//! been processed, used by the orchestrating caller for deduplication.

use vstd::prelude::*;

verus! {

/// The set of already processed source identifiers.
#[derive(Debug)]
pub struct Manifest {
    pub processed_ids: Vec<String>,
}

impl Manifest {
    /// The set of identifiers the manifest holds.
    pub open spec fn ids(self) -> Set<Seq<char>> {
        Set::new(|s: Seq<char>| exists|i: int| 0 <= i < self.processed_ids@.len() && self.processed_ids@[i]@ == s)
    }

    /// An empty manifest.
    pub fn new() -> (m: Manifest)
        ensures
            m.ids() == Set::<Seq<char>>::empty(),
    {
        let m = Manifest { processed_ids: Vec::new() };
        proof {
            assert(m.ids() =~= Set::<Seq<char>>::empty());
        }
        m
    }

    /// Whether `id` has been marked processed.
    pub fn is_processed(&self, id: &str) -> (r: bool)
        ensures
            r == self.ids().contains(id@),
    {
        let n = self.processed_ids.len();
        let mut i: usize = 0;
        while i < n
            invariant
                n == self.processed_ids@.len(),
                i <= n,
                forall|k: int| 0 <= k < i ==> self.processed_ids@[k]@ != id@,
            decreases n - i,
        {
            if crate::text::str_eq(self.processed_ids[i].as_str(), id) {
                assert(self.ids().contains(id@));
                return true;
            }
            i += 1;
        }
        assert(!self.ids().contains(id@));
        false
    }

    /// Adds `id` to the set of processed identifiers.
    pub fn mark_processed(&mut self, id: String)
        ensures
            final(self).ids() == old(self).ids().insert(id@),
    {
        let ghost old_ids = self.ids();
        self.processed_ids.push(id);
        proof {
            assert(self.ids() =~= old_ids.insert(id@)) by {
                assert forall|s: Seq<char>| self.ids().contains(s) implies old_ids.insert(id@).contains(s) by {
                    let i = choose|i: int| 0 <= i < self.processed_ids@.len() && self.processed_ids@[i]@ == s;
                    if i < self.processed_ids@.len() - 1 {
                        assert(old_ids.contains(s));
                    }
                }
                assert forall|s: Seq<char>| old_ids.insert(id@).contains(s) implies self.ids().contains(s) by {
                    if old_ids.contains(s) {
                        let i = choose|i: int| 0 <= i < old(self).processed_ids@.len() && old(self).processed_ids@[i]@ == s;
                        assert(self.processed_ids@[i]@ == s);
                    } else {
                        assert(self.processed_ids@[self.processed_ids@.len() - 1]@ == id@);
                    }
                }
            }
        }
    }
}

} // verus!
