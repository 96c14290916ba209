//! The node arena: a slab-style pool of branch nodes indexed by dense
//! integer handles, with first-fit reuse of freed slots. The storage itself
//! is `lilypads::Pond`; this module states what each pool operation does
//! over two named views: the map of occupied slots and the slot count of
//! the backing storage.
//!
//! The pool is used strictly grow-only, one slot at a time: `write` may
//! reserve at most the slot just past the current storage, and nothing here
//! ever shrinks the pool. `Pond`'s accelerated free-slot summary stays
//! exact only under that discipline — a shrinking resize (as in
//! `Pond::trim`) masks away the summary bit of the last partial word and
//! leaves the pool inconsistent — so compaction is done by the graph
//! rebuilding into a fresh pool instead of by `Pond::trim`.

use vstd::prelude::*;
use crate::node::BasicNode3d;

verus! {

/// The pool of nodes. The backing store is a `lilypads::Pond` of raw
/// eight-child arrays; everything the graph knows about it is stated by the
/// contracts in this module.
#[verifier::external_body]
pub struct NodeArena {
    pond: lilypads::Pond<[u32; 8]>,
}

/// What the arena holds: each occupied slot index, mapped to the eight
/// child handles of the node stored there.
pub uninterp spec fn arena_contents(a: NodeArena) -> Map<nat, Seq<u32>>;

/// How many slots the arena's backing storage holds, occupied or free.
pub uninterp spec fn arena_slots(a: NodeArena) -> nat;

/// The arena's views are well formed: finitely many occupied slots, all of
/// them inside the backing storage, each holding exactly eight children.
pub open spec fn arena_wf(a: NodeArena) -> bool {
    &&& arena_contents(a).dom().finite()
    &&& forall|k: nat| arena_contents(a).contains_key(k) ==> k < arena_slots(a)
    &&& forall|k: nat| arena_contents(a).contains_key(k) ==> (
        #[trigger] arena_contents(a)[k]).len() == 8
}

impl NodeArena {
    /// Relies on `lilypads::Pond::new`: a pool with no slots at all.
    #[verifier::external_body]
    pub fn new() -> (r: NodeArena)
        ensures
            arena_slots(r) == 0,
            forall|k: nat| !arena_contents(r).contains_key(k),
            arena_wf(r),
    {
        let pond = lilypads::Pond::new();
        NodeArena { pond }
    }

    /// Relies on `lilypads::Pond::insert`: stores the node in the first
    /// free slot (sequentially), growing the storage by one slot only when
    /// every slot is occupied, and returns the slot's index.
    #[verifier::external_body]
    pub fn insert(&mut self, node: BasicNode3d) -> (i: u32)
        requires
            arena_wf(*old(self)),
            arena_slots(*old(self)) < 0xFFFF_FFFF,
        ensures
            arena_wf(*final(self)),
            !arena_contents(*old(self)).contains_key(i as nat),
            forall|k: nat| k < i as nat ==> arena_contents(*old(self)).contains_key(k),
            arena_contents(*final(self)) == arena_contents(*old(self)).insert(
                i as nat,
                node@,
            ),
            i as nat <= arena_slots(*old(self)),
            arena_slots(*final(self)) == if (i as nat) < arena_slots(*old(self)) {
                arena_slots(*old(self))
            } else {
                arena_slots(*old(self)) + 1
            },
    {
        self.pond.insert(node.naive()) as u32
    }

    /// Relies on `lilypads::Pond::next_index`: the index `insert` would
    /// assign next — the first free slot, or the slot count if none is free.
    #[verifier::external_body]
    pub fn next_index(&self) -> (i: u32)
        requires
            arena_wf(*self),
            arena_slots(*self) < 0xFFFF_FFFF,
        ensures
            !arena_contents(*self).contains_key(i as nat),
            forall|k: nat| k < i as nat ==> arena_contents(*self).contains_key(k),
            i as nat <= arena_slots(*self),
    {
        self.pond.next_index() as u32
    }

    /// Relies on `lilypads::Pond::write`: reserves slot `i`, overwrites it
    /// with `node`, and returns the former content if the slot was
    /// occupied. Reserving is allowed at most one slot past the current
    /// storage: growing by exactly one is what the pool's free-slot
    /// summary repairs on the following bit write.
    #[verifier::external_body]
    pub fn write(&mut self, i: u32, node: BasicNode3d) -> (r: Option<BasicNode3d>)
        requires
            arena_wf(*old(self)),
            i as nat <= arena_slots(*old(self)),
        ensures
            arena_wf(*final(self)),
            arena_contents(*final(self)) == arena_contents(*old(self)).insert(
                i as nat,
                node@,
            ),
            arena_slots(*final(self)) == if (i as nat) < arena_slots(*old(self)) {
                arena_slots(*old(self))
            } else {
                i as nat + 1
            },
            r is Some <==> arena_contents(*old(self)).contains_key(i as nat),
            r matches Some(n) ==> n@ == arena_contents(*old(self))[i as nat],
    {
        self.pond.write(i as usize, node.naive()).map(|a| BasicNode3d::new(&a))
    }

    /// Relies on `lilypads::Pond::free`: vacates slot `i` and returns its
    /// content, or returns nothing if the slot was already free. The
    /// backing storage keeps its size.
    #[verifier::external_body]
    pub fn free(&mut self, i: u32) -> (r: Option<BasicNode3d>)
        requires
            arena_wf(*old(self)),
        ensures
            arena_wf(*final(self)),
            arena_slots(*final(self)) == arena_slots(*old(self)),
            arena_contents(*final(self)) == arena_contents(*old(self)).remove(i as nat),
            r is Some <==> arena_contents(*old(self)).contains_key(i as nat),
            r matches Some(n) ==> n@ == arena_contents(*old(self))[i as nat],
    {
        self.pond.free(i as usize).map(|a| BasicNode3d::new(&a))
    }

    /// Relies on `lilypads::Pond::get`: the node in slot `i`, which must be
    /// occupied.
    #[verifier::external_body]
    pub fn get(&self, i: u32) -> (r: BasicNode3d)
        requires
            arena_contents(*self).contains_key(i as nat),
        ensures
            r@ == arena_contents(*self)[i as nat],
    {
        BasicNode3d::new(self.pond.get(i as usize).unwrap())
    }

    /// Relies on `lilypads::Pond::is_occupied`: whether slot `i` holds a node.
    #[verifier::external_body]
    pub fn is_occupied(&self, i: u32) -> (r: bool)
        ensures
            r == arena_contents(*self).contains_key(i as nat),
    {
        self.pond.is_occupied(i as usize)
    }

    /// Relies on `lilypads::Pond::len`: the size of the backing storage.
    #[verifier::external_body]
    pub fn len(&self) -> (r: usize)
        ensures
            r == arena_slots(*self),
    {
        self.pond.len()
    }

}

} // verus!
