//! Branch nodes and the octant selectors that index their children.

use vstd::prelude::*;

verus! {

/// One of the eight octants of a cube. The discriminant is a 3-bit code:
/// bit 0 selects the right half (x), bit 1 the bottom half (y), bit 2 the
/// back half (z).
#[derive(Clone, Copy, PartialEq, Eq, Structural, Debug, Hash)]
pub enum Zorder3d {
    FrontTopLeft,
    FrontTopRight,
    FrontBottomLeft,
    FrontBottomRight,
    BackTopLeft,
    BackTopRight,
    BackBottomLeft,
    BackBottomRight,
}

impl Zorder3d {
    /// The 3-bit octant code of this selector.
    pub open spec fn code(self) -> int {
        match self {
            Zorder3d::FrontTopLeft => 0,
            Zorder3d::FrontTopRight => 1,
            Zorder3d::FrontBottomLeft => 2,
            Zorder3d::FrontBottomRight => 3,
            Zorder3d::BackTopLeft => 4,
            Zorder3d::BackTopRight => 5,
            Zorder3d::BackBottomLeft => 6,
            Zorder3d::BackBottomRight => 7,
        }
    }

    /// The selector whose octant code is `c`.
    pub open spec fn from_code(c: int) -> Zorder3d {
        if c == 0 {
            Zorder3d::FrontTopLeft
        } else if c == 1 {
            Zorder3d::FrontTopRight
        } else if c == 2 {
            Zorder3d::FrontBottomLeft
        } else if c == 3 {
            Zorder3d::FrontBottomRight
        } else if c == 4 {
            Zorder3d::BackTopLeft
        } else if c == 5 {
            Zorder3d::BackTopRight
        } else if c == 6 {
            Zorder3d::BackBottomLeft
        } else {
            Zorder3d::BackBottomRight
        }
    }

    /// A selector round-trips through its code.
    pub proof fn lemma_code_inverse(self)
        ensures
            Zorder3d::from_code(self.code()) == self,
            0 <= self.code() < 8,
    {
    }

    /// The position of this octant inside a node's child array.
    pub fn to_index(&self) -> (r: usize)
        ensures
            r == self.code(),
    {
        match self {
            Zorder3d::FrontTopLeft => 0,
            Zorder3d::FrontTopRight => 1,
            Zorder3d::FrontBottomLeft => 2,
            Zorder3d::FrontBottomRight => 3,
            Zorder3d::BackTopLeft => 4,
            Zorder3d::BackTopRight => 5,
            Zorder3d::BackBottomLeft => 6,
            Zorder3d::BackBottomRight => 7,
        }
    }

    /// The selector of the octant at offset `(x, y, z)` within a split cube,
    /// each axis offset being 0 or 1.
    pub fn new(x: u32, y: u32, z: u32) -> (r: Zorder3d)
        requires
            x < 2,
            y < 2,
            z < 2,
        ensures
            r.code() == x + 2 * y + 4 * z,
    {
        if z == 0 {
            if y == 0 {
                if x == 0 {
                    Zorder3d::FrontTopLeft
                } else {
                    Zorder3d::FrontTopRight
                }
            } else {
                if x == 0 {
                    Zorder3d::FrontBottomLeft
                } else {
                    Zorder3d::FrontBottomRight
                }
            }
        } else {
            if y == 0 {
                if x == 0 {
                    Zorder3d::BackTopLeft
                } else {
                    Zorder3d::BackTopRight
                }
            } else {
                if x == 0 {
                    Zorder3d::BackBottomLeft
                } else {
                    Zorder3d::BackBottomRight
                }
            }
        }
    }

    /// The axis offsets `(x, y, z)` of this octant, each 0 or 1.
    pub fn to_coord(&self) -> (r: (u32, u32, u32))
        ensures
            r.0 == self.code() % 2,
            r.1 == (self.code() / 2) % 2,
            r.2 == self.code() / 4,
    {
        match self {
            Zorder3d::FrontTopLeft => (0, 0, 0),
            Zorder3d::FrontTopRight => (1, 0, 0),
            Zorder3d::FrontBottomLeft => (0, 1, 0),
            Zorder3d::FrontBottomRight => (1, 1, 0),
            Zorder3d::BackTopLeft => (0, 0, 1),
            Zorder3d::BackTopRight => (1, 0, 1),
            Zorder3d::BackBottomLeft => (0, 1, 1),
            Zorder3d::BackBottomRight => (1, 1, 1),
        }
    }

    /// All eight selectors, in octant-code order.
    pub fn all() -> (r: Vec<Zorder3d>)
        ensures
            r@.len() == 8,
            forall|i: int| 0 <= i < 8 ==> #[trigger] r@[i].code() == i,
    {
        let mut v: Vec<Zorder3d> = Vec::new();
        v.push(Zorder3d::FrontTopLeft);
        v.push(Zorder3d::FrontTopRight);
        v.push(Zorder3d::FrontBottomLeft);
        v.push(Zorder3d::FrontBottomRight);
        v.push(Zorder3d::BackTopLeft);
        v.push(Zorder3d::BackTopRight);
        v.push(Zorder3d::BackBottomLeft);
        v.push(Zorder3d::BackBottomRight);
        v
    }
}

/// A branch node: exactly eight child handles, one per octant, in
/// octant-code order. Equality and hashing are structural, so a node is
/// identified by its child contents alone.
#[derive(Clone, Copy, PartialEq, Eq, Structural, Debug, Hash)]
pub struct BasicNode3d {
    c0: u32,
    c1: u32,
    c2: u32,
    c3: u32,
    c4: u32,
    c5: u32,
    c6: u32,
    c7: u32,
}

impl View for BasicNode3d {
    type V = Seq<u32>;

    closed spec fn view(&self) -> Seq<u32> {
        seq![self.c0, self.c1, self.c2, self.c3, self.c4, self.c5, self.c6, self.c7]
    }
}

impl BasicNode3d {
    /// A node whose children are the first eight entries of `children`.
    pub fn new(children: &[u32]) -> (r: BasicNode3d)
        requires
            children@.len() == 8,
        ensures
            r@ == children@,
    {
        let r = BasicNode3d {
            c0: children[0],
            c1: children[1],
            c2: children[2],
            c3: children[3],
            c4: children[4],
            c5: children[5],
            c6: children[6],
            c7: children[7],
        };
        proof {
            assert(r@ =~= children@);
        }
        r
    }

    /// A node all eight of whose children are `index`.
    pub fn uniform(index: u32) -> (r: BasicNode3d)
        ensures
            r@.len() == 8,
            forall|i: int| 0 <= i < 8 ==> r@[i] == index,
    {
        BasicNode3d {
            c0: index,
            c1: index,
            c2: index,
            c3: index,
            c4: index,
            c5: index,
            c6: index,
            c7: index,
        }
    }

    /// The child handle in octant `child`.
    pub fn get(&self, child: Zorder3d) -> (r: u32)
        ensures
            r == self@[child.code()],
    {
        match child {
            Zorder3d::FrontTopLeft => self.c0,
            Zorder3d::FrontTopRight => self.c1,
            Zorder3d::FrontBottomLeft => self.c2,
            Zorder3d::FrontBottomRight => self.c3,
            Zorder3d::BackTopLeft => self.c4,
            Zorder3d::BackTopRight => self.c5,
            Zorder3d::BackBottomLeft => self.c6,
            Zorder3d::BackBottomRight => self.c7,
        }
    }

    /// Overwrite the child handle in octant `child`.
    pub fn set(&mut self, child: Zorder3d, index: u32)
        ensures
            final(self)@ =~= old(self)@.update(child.code(), index),
    {
        match child {
            Zorder3d::FrontTopLeft => self.c0 = index,
            Zorder3d::FrontTopRight => self.c1 = index,
            Zorder3d::FrontBottomLeft => self.c2 = index,
            Zorder3d::FrontBottomRight => self.c3 = index,
            Zorder3d::BackTopLeft => self.c4 = index,
            Zorder3d::BackTopRight => self.c5 = index,
            Zorder3d::BackBottomLeft => self.c6 = index,
            Zorder3d::BackBottomRight => self.c7 = index,
        }
    }

    /// A copy of this node with the child in octant `child` replaced.
    pub fn with_child(&self, child: Zorder3d, index: u32) -> (r: BasicNode3d)
        ensures
            r@ =~= self@.update(child.code(), index),
    {
        let mut new = *self;
        new.set(child, index);
        new
    }

    /// The raw child array of this node, in octant-code order.
    pub fn naive(&self) -> (r: [u32; 8])
        ensures
            r@ == self@,
    {
        let r = [self.c0, self.c1, self.c2, self.c3, self.c4, self.c5, self.c6, self.c7];
        proof {
            assert(r@ =~= self@);
        }
        r
    }

    /// A node always has exactly eight children.
    pub proof fn lemma_arity(self)
        ensures
            self@.len() == 8,
    {
    }

    /// Two nodes with the same child contents are the same node.
    pub proof fn lemma_view_injective(a: BasicNode3d, b: BasicNode3d)
        ensures
            a@ == b@ ==> a == b,
    {
        if a@ == b@ {
            assert(a@[0] == b@[0]);
            assert(a@[1] == b@[1]);
            assert(a@[2] == b@[2]);
            assert(a@[3] == b@[3]);
            assert(a@[4] == b@[4]);
            assert(a@[5] == b@[5]);
            assert(a@[6] == b@[6]);
            assert(a@[7] == b@[7]);
        }
    }
}

/// Nodes that the sparse directed graph can store: structurally comparable
/// and hashable branch records.
pub trait GraphNode {
}

impl GraphNode for BasicNode3d {
}

} // verus!
