//! The hash-cons table: a map from node content to its canonical arena
//! index. The graph keeps it in step with the arena so that at any moment
//! at most one live index exists per distinct node content.

use vstd::prelude::*;
use crate::node::BasicNode3d;

verus! {

/// A content-to-index lookup table. Abstractly it is a map from the eight
/// child handles of a node to the arena index canonically holding that
/// content.
pub struct HashConsTable {
    entries: Vec<(BasicNode3d, u32)>,
    lookup: Ghost<Map<Seq<u32>, u32>>,
}

impl View for HashConsTable {
    type V = Map<Seq<u32>, u32>;

    closed spec fn view(&self) -> Map<Seq<u32>, u32> {
        self.lookup@
    }
}

impl HashConsTable {
    /// The stored entries and the abstract map agree: every entry is in the
    /// map, every mapped content has an entry, and no content is stored
    /// twice.
    pub closed spec fn wf(self) -> bool {
        &&& forall|j: int|
            0 <= j < self.entries@.len() ==> self.lookup@.contains_key(
                (#[trigger] self.entries@[j]).0@,
            ) && self.lookup@[self.entries@[j].0@] == self.entries@[j].1
        &&& forall|c: Seq<u32>|
            self.lookup@.contains_key(c) ==> exists|j: int|
                0 <= j < self.entries@.len() && (#[trigger] self.entries@[j]).0@ == c
        &&& forall|j: int, k: int|
            0 <= j < self.entries@.len() && 0 <= k < self.entries@.len() && j != k
                ==> (#[trigger] self.entries@[j]).0@ != (#[trigger] self.entries@[k]).0@
    }

    /// An empty table.
    pub fn new() -> (r: HashConsTable)
        ensures
            r.wf(),
            forall|c: Seq<u32>| !r@.contains_key(c),
    {
        HashConsTable { entries: Vec::new(), lookup: Ghost(Map::empty()) }
    }

    /// The canonical index for `node`'s content, if that content is present.
    pub fn find(&self, node: &BasicNode3d) -> (r: Option<u32>)
        requires
            self.wf(),
        ensures
            r matches Some(i) ==> self@.contains_key(node@) && self@[node@] == i,
            r is None <==> !self@.contains_key(node@),
    {
        let n = self.entries.len();
        let mut j: usize = 0;
        while j < n
            invariant
                self.wf(),
                n == self.entries@.len(),
                j <= n,
                forall|k: int| 0 <= k < j ==> (#[trigger] self.entries@[k]).0 != *node,
            decreases n - j,
        {
            if self.entries[j].0 == *node {
                return Some(self.entries[j].1);
            }
            proof {
                BasicNode3d::lemma_view_injective(self.entries@[j as int].0, *node);
            }
            j = j + 1;
        }
        proof {
            if self@.contains_key(node@) {
                let w = choose|k: int|
                    0 <= k < self.entries@.len() && (#[trigger] self.entries@[k]).0@
                        == node@;
                BasicNode3d::lemma_view_injective(self.entries@[w].0, *node);
            }
        }
        None
    }

    /// Record `idx` as the canonical index for `node`'s content, which must
    /// not be present yet.
    pub fn insert(&mut self, node: BasicNode3d, idx: u32)
        requires
            old(self).wf(),
            !old(self)@.contains_key(node@),
        ensures
            final(self).wf(),
            final(self)@ == old(self)@.insert(node@, idx),
    {
        self.entries.push((node, idx));
        proof {
            self.lookup@ = self.lookup@.insert(node@, idx);
            let es = self.entries@;
            let n = es.len() as int;
            assert forall|k: int| 0 <= k < n implies self.lookup@.contains_key(
                (#[trigger] es[k]).0@,
            ) && self.lookup@[es[k].0@] == es[k].1 by {
                if k < n - 1 {
                    assert(es[k] == old(self).entries@[k]);
                    assert(old(self)@.contains_key(es[k].0@));
                }
            }
            assert forall|c: Seq<u32>| self.lookup@.contains_key(c) implies exists|k: int|
                0 <= k < n && (#[trigger] es[k]).0@ == c by {
                if c == node@ {
                    assert(es[n - 1].0@ == c);
                } else {
                    let w = choose|w: int|
                        0 <= w < old(self).entries@.len() && (#[trigger] old(
                            self,
                        ).entries@[w]).0@ == c;
                    assert(es[w].0@ == c);
                }
            }
            assert forall|k1: int, k2: int| 0 <= k1 < n && 0 <= k2 < n && k1 != k2
                implies (#[trigger] es[k1]).0@ != (#[trigger] es[k2]).0@ by {
                if k1 < n - 1 && k2 < n - 1 {
                    assert(es[k1] == old(self).entries@[k1]);
                    assert(es[k2] == old(self).entries@[k2]);
                } else if k1 == n - 1 {
                    assert(es[k2] == old(self).entries@[k2]);
                    assert(old(self)@.contains_key(es[k2].0@));
                } else {
                    assert(es[k1] == old(self).entries@[k1]);
                    assert(old(self)@.contains_key(es[k1].0@));
                }
            }
        }
    }

    /// Drop the mapping for `node`'s content, which must be present.
    pub fn remove(&mut self, node: &BasicNode3d)
        requires
            old(self).wf(),
            old(self)@.contains_key(node@),
        ensures
            final(self).wf(),
            final(self)@ == old(self)@.remove(node@),
    {
        let ghost old_entries = self.entries@;
        let n = self.entries.len();
        let mut j: usize = 0;
        while j < n
            invariant
                self.wf(),
                self@.contains_key(node@),
                self.entries@ == old_entries,
                self@ == old(self)@,
                n == self.entries@.len(),
                j <= n,
                forall|k: int| 0 <= k < j ==> (#[trigger] self.entries@[k]).0 != *node,
            decreases n - j,
        {
            if self.entries[j].0 == *node {
                let ghost pre = self.lookup@;
                self.entries.swap_remove(j);
                proof {
                    self.lookup@ = self.lookup@.remove(node@);
                    assert(old_entries[j as int].0@ == node@);
                    assert forall|k: int| 0 <= k < self.entries@.len() implies
                        self.lookup@.contains_key((#[trigger] self.entries@[k]).0@)
                            && self.lookup@[self.entries@[k].0@] == self.entries@[k].1 by {
                        if k == j {
                            assert(self.entries@[k] == old_entries[old_entries.len() - 1]);
                        } else {
                            assert(self.entries@[k] == old_entries[k]);
                        }
                        assert(self.entries@[k].0@ != node@);
                    }
                    assert forall|c: Seq<u32>| self.lookup@.contains_key(c) implies
                        exists|k: int|
                            0 <= k < self.entries@.len() && (#[trigger] self.entries@[
                                k
                            ]).0@ == c by {
                        assert(pre.contains_key(c) && c != node@);
                        let w = choose|w: int|
                            0 <= w < old_entries.len() && (#[trigger] old_entries[w]).0@
                                == c;
                        assert(w != j);
                        if w == old_entries.len() - 1 {
                            assert(self.entries@[j as int] == old_entries[w]);
                            assert(self.entries@[j as int].0@ == c);
                        } else {
                            assert(self.entries@[w] == old_entries[w]);
                            assert(self.entries@[w].0@ == c);
                        }
                    }
                    assert forall|k1: int, k2: int|
                        0 <= k1 < self.entries@.len() && 0 <= k2 < self.entries@.len()
                            && k1 != k2 implies (#[trigger] self.entries@[k1]).0@ != (
                    #[trigger] self.entries@[k2]).0@ by {
                        let m1: int = if k1 == j { old_entries.len() - 1 } else { k1 };
                        let m2: int = if k2 == j { old_entries.len() - 1 } else { k2 };
                        assert(self.entries@[k1] == old_entries[m1]);
                        assert(self.entries@[k2] == old_entries[m2]);
                    }
                }
                return;
            }
            proof {
                BasicNode3d::lemma_view_injective(self.entries@[j as int].0, *node);
            }
            j = j + 1;
        }
        proof {
            let w = choose|k: int|
                0 <= k < self.entries@.len() && (#[trigger] self.entries@[k]).0@ == node@;
            BasicNode3d::lemma_view_injective(self.entries@[w].0, *node);
            assert(false);
        }
    }
}

} // verus!
