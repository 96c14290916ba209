//! Consumers' view of the graph: a handle pairing a root with its height,
//! point samples, and the floor terrain built out of graph edits.

use vstd::prelude::*;
use vstd::arithmetic::power2::lemma2_to64;
use crate::codec::{spec_path_from, lemma_cells_diverge, lemma_path_from_len, Cell};
use crate::node::Zorder3d;
use crate::sdg::SparseDirectedGraph;

verus! {

/// A root handle into the graph together with the height of the volume it
/// addresses: paths of exactly `height` selectors resolve cells under it.
#[derive(Clone, Copy, PartialEq, Eq, Structural, Debug)]
pub struct DagRef {
    pub head: u32,
    pub height: u32,
}

impl DagRef {
    /// Pair a root handle with the height of its volume.
    pub fn new(head: u32, height: u32) -> (r: DagRef)
        ensures
            r.head == head,
            r.height == height,
    {
        DagRef { head, height }
    }
}

/// The value and resolution a point sample came back with: `value` is the
/// terminal index the sample resolved to, `height` the height of the
/// uniform region it was found in.
#[derive(Clone, Copy, PartialEq, Eq, Structural, Debug)]
pub struct Sample {
    pub value: u32,
    pub height: u32,
}

impl Sample {
    /// A sample is solid exactly when its value is not the empty terminal.
    pub fn is_solid(&self) -> (r: bool)
        ensures
            r == (self.value != 0),
    {
        self.value != 0
    }
}

/// The depth-4 selector path of a cell in the floor volume.
pub open spec fn cell_path(x: u32, y: u32, z: u32) -> Seq<Zorder3d> {
    spec_path_from(x as nat, y as nat, z as nat, 4)
}

/// The cells of the raised block the floor carries on its ground layer.
pub open spec fn block_cell(x: u32, y: u32, z: u32) -> bool {
    3 <= x <= 4 && 1 <= y <= 2 && 3 <= z <= 4
}

/// One edit leaves every other cell's reading in place: if a write to cell
/// `(wx, wy, wz)` turned `h1` into `h2` (with the edit's divergence
/// guarantee), then any distinct cell reads after the write what it read
/// before.
proof fn lemma_cell_transfer(
    s_old: SparseDirectedGraph,
    s_new: SparseDirectedGraph,
    h1: u32,
    h2: u32,
    wx: u32,
    wy: u32,
    wz: u32,
    a: u32,
    b: u32,
    c: u32,
    v: u32,
)
    requires
        wx < 16 && wy < 16 && wz < 16,
        a < 16 && b < 16 && c < 16,
        !(a == wx && b == wy && c == wz),
        s_old.spec_descend(h1, cell_path(a, b, c)) == v,
        forall|path2: Seq<Zorder3d>, k: int|
            #![trigger path2[k], s_new.spec_descend(h2, path2)]
            (0 <= k < cell_path(wx, wy, wz).len() && k < path2.len() && (forall|m: int|
                0 <= m < k ==> path2[m] == cell_path(wx, wy, wz)[m]) && path2[k]
                != cell_path(wx, wy, wz)[k]) ==> s_new.spec_descend(h2, path2)
                == s_old.spec_descend(h1, path2),
    ensures
        s_new.spec_descend(h2, cell_path(a, b, c)) == v,
{
    lemma2_to64();
    let p2 = cell_path(a, b, c);
    let wp = cell_path(wx, wy, wz);
    lemma_path_from_len(a as nat, b as nat, c as nat, 4);
    lemma_path_from_len(wx as nat, wy as nat, wz as nat, 4);
    let k = lemma_cells_diverge(
        a as nat,
        b as nat,
        c as nat,
        wx as nat,
        wy as nat,
        wz as nat,
        4,
    );
    assert(p2[k] != wp[k]);
    assert(s_new.spec_descend(h2, p2) == s_old.spec_descend(h1, p2));
}

/// Build the floor terrain: over a volume of height 4, set every cell of
/// the ground layer to the solid leaf, then raise a small two-cell-tall
/// block near the middle. Returns the resulting root paired with its
/// height; the caller ends up holding one root reference on it. The
/// contract fixes every cell: the ground layer and the block read the
/// solid leaf, everything else in the volume reads the empty leaf.
pub fn floor(sdg: &mut SparseDirectedGraph) -> (r: DagRef)
    requires
        old(sdg).wf(),
        old(sdg).counts_positive(),
        old(sdg).spec_is_leaf(0),
        old(sdg).spec_is_leaf(1),
        old(sdg).slots() + 1100 <= 0x0010_0000,
        old(sdg).roots().len() <= 0x0010_0000,
    ensures
        final(sdg).wf(),
        final(sdg).counts_positive(),
        final(sdg).live(r.head),
        final(sdg).roots().count(r.head) >= 1,
        r.height == 4,
        forall|x: u32| final(sdg).spec_is_leaf(x) == old(sdg).spec_is_leaf(x),
        forall|x: u32, z: u32|
            x < 16 && z < 16 ==> final(sdg).spec_descend(r.head, #[trigger] cell_path(
                x,
                0,
                z,
            )) == 1,
        forall|x: u32, y: u32, z: u32|
            block_cell(x, y, z) ==> final(sdg).spec_descend(r.head, #[trigger] cell_path(
                x,
                y,
                z,
            )) == 1,
        forall|x: u32, y: u32, z: u32|
            x < 16 && y < 16 && z < 16 && y != 0 && !block_cell(x, y, z)
                ==> final(sdg).spec_descend(r.head, #[trigger] cell_path(x, y, z)) == 0,
{
    let ghost g0 = *old(sdg);
    proof {
        broadcast use vstd::multiset::group_multiset_axioms;
        broadcast use vstd::multiset::group_multiset_properties;

        g0.lemma_leaf_live(0);
        g0.lemma_leaf_live(1);
    }
    let mut head = sdg.get_root(0);
    proof {
        lemma2_to64();
        assert forall|a: u32, b: u32, c: u32| a < 16 && b < 16 && c < 16 implies
            sdg.spec_descend(head, #[trigger] cell_path(a, b, c)) == 0 by {
            sdg.lemma_descend_from_leaf(0, cell_path(a, b, c));
        }
    }
    let mut x = 0u32;
    while x < 16
        invariant
            sdg.wf(),
            sdg.counts_positive(),
            sdg.live(head),
            sdg.roots().count(head) >= 1,
            sdg.live(1),
            x <= 16,
            forall|v: u32| sdg.spec_is_leaf(v) == g0.spec_is_leaf(v),
            sdg.slots() <= g0.slots() + 4 * (16 * x as nat),
            sdg.roots().len() == g0.roots().len() + 1,
            g0.slots() + 1100 <= 0x0010_0000,
            g0.roots().len() <= 0x0010_0000,
            forall|a: u32, c: u32|
                a < 16 && c < 16 && a < x ==> sdg.spec_descend(head, #[trigger] cell_path(
                    a,
                    0,
                    c,
                )) == 1,
            forall|a: u32, b: u32, c: u32|
                a < 16 && b < 16 && c < 16 && b != 0 ==> sdg.spec_descend(
                    head,
                    #[trigger] cell_path(a, b, c),
                ) == 0,
        decreases 16 - x,
    {
        let mut z = 0u32;
        while z < 16
            invariant
                sdg.wf(),
                sdg.counts_positive(),
                sdg.live(head),
                sdg.roots().count(head) >= 1,
                sdg.live(1),
                x < 16,
                z <= 16,
                forall|v: u32| sdg.spec_is_leaf(v) == g0.spec_is_leaf(v),
                sdg.slots() <= g0.slots() + 4 * (16 * x as nat + z as nat),
                sdg.roots().len() == g0.roots().len() + 1,
                g0.slots() + 1100 <= 0x0010_0000,
                g0.roots().len() <= 0x0010_0000,
                forall|a: u32, c: u32|
                    a < 16 && c < 16 && (a < x || (a == x && c < z)) ==> sdg.spec_descend(
                        head,
                        #[trigger] cell_path(a, 0, c),
                    ) == 1,
                forall|a: u32, b: u32, c: u32|
                    a < 16 && b < 16 && c < 16 && b != 0 ==> sdg.spec_descend(
                        head,
                        #[trigger] cell_path(a, b, c),
                    ) == 0,
            decreases 16 - z,
        {
            proof {
                lemma2_to64();
            }
            let ghost pre = *sdg;
            let ghost h1 = head;
            let path = Zorder3d::path_from(Cell::new(x, 0, z), 4);
            head = sdg.set_node(head, &path, 1);
            proof {
                lemma2_to64();
                assert(path@ == cell_path(x, 0, z));
                assert forall|a: u32, c: u32|
                    a < 16 && c < 16 && (a < x || (a == x && c < z + 1)) implies
                    sdg.spec_descend(head, #[trigger] cell_path(a, 0, c)) == 1 by {
                    if a == x && c == z {
                        assert(sdg.spec_descend(head, path@) == 1);
                    } else {
                        lemma_cell_transfer(pre, *sdg, h1, head, x, 0, z, a, 0, c, 1);
                    }
                }
                assert forall|a: u32, b: u32, c: u32|
                    a < 16 && b < 16 && c < 16 && b != 0 implies sdg.spec_descend(
                        head,
                        #[trigger] cell_path(a, b, c),
                    ) == 0 by {
                    lemma_cell_transfer(pre, *sdg, h1, head, x, 0, z, a, b, c, 0);
                }
            }
            z = z + 1;
        }
        x = x + 1;
    }
    let mut y = 1u32;
    while y <= 2
        invariant
            sdg.wf(),
            sdg.counts_positive(),
            sdg.live(head),
            sdg.roots().count(head) >= 1,
            sdg.live(1),
            1 <= y <= 3,
            forall|v: u32| sdg.spec_is_leaf(v) == g0.spec_is_leaf(v),
            sdg.slots() <= g0.slots() + 4 * 256 + 4 * (8 * (y as nat - 1)),
            sdg.roots().len() == g0.roots().len() + 1,
            g0.slots() + 1100 <= 0x0010_0000,
            g0.roots().len() <= 0x0010_0000,
            forall|a: u32, c: u32|
                a < 16 && c < 16 ==> sdg.spec_descend(head, #[trigger] cell_path(a, 0, c))
                    == 1,
            forall|a: u32, b: u32, c: u32|
                block_cell(a, b, c) && b < y ==> sdg.spec_descend(
                    head,
                    #[trigger] cell_path(a, b, c),
                ) == 1,
            forall|a: u32, b: u32, c: u32|
                a < 16 && b < 16 && c < 16 && b != 0 && !block_cell(a, b, c)
                    ==> sdg.spec_descend(head, #[trigger] cell_path(a, b, c)) == 0,
        decreases 3 - y,
    {
        let mut bx = 3u32;
        while bx <= 4
            invariant
                sdg.wf(),
                sdg.counts_positive(),
                sdg.live(head),
                sdg.roots().count(head) >= 1,
                sdg.live(1),
                1 <= y <= 2,
                3 <= bx <= 5,
                forall|v: u32| sdg.spec_is_leaf(v) == g0.spec_is_leaf(v),
                sdg.slots() <= g0.slots() + 4 * 256 + 4 * (8 * (y as nat - 1) + 4 * (bx
                    as nat - 3)),
                sdg.roots().len() == g0.roots().len() + 1,
                g0.slots() + 1100 <= 0x0010_0000,
                g0.roots().len() <= 0x0010_0000,
                forall|a: u32, c: u32|
                    a < 16 && c < 16 ==> sdg.spec_descend(head, #[trigger] cell_path(
                        a,
                        0,
                        c,
                    )) == 1,
                forall|a: u32, b: u32, c: u32|
                    block_cell(a, b, c) && (b < y || (b == y && a < bx))
                        ==> sdg.spec_descend(head, #[trigger] cell_path(a, b, c)) == 1,
                forall|a: u32, b: u32, c: u32|
                    a < 16 && b < 16 && c < 16 && b != 0 && !block_cell(a, b, c)
                        ==> sdg.spec_descend(head, #[trigger] cell_path(a, b, c)) == 0,
            decreases 5 - bx,
        {
            let mut bz = 3u32;
            while bz <= 4
                invariant
                    sdg.wf(),
                    sdg.counts_positive(),
                    sdg.live(head),
                    sdg.roots().count(head) >= 1,
                    sdg.live(1),
                    1 <= y <= 2,
                    3 <= bx <= 4,
                    3 <= bz <= 5,
                    forall|v: u32| sdg.spec_is_leaf(v) == g0.spec_is_leaf(v),
                    sdg.slots() <= g0.slots() + 4 * 256 + 4 * (8 * (y as nat - 1) + 4 * (
                    bx as nat - 3) + 2 * (bz as nat - 3)),
                    sdg.roots().len() == g0.roots().len() + 1,
                    g0.slots() + 1100 <= 0x0010_0000,
                    g0.roots().len() <= 0x0010_0000,
                    forall|a: u32, c: u32|
                        a < 16 && c < 16 ==> sdg.spec_descend(head, #[trigger] cell_path(
                            a,
                            0,
                            c,
                        )) == 1,
                    forall|a: u32, b: u32, c: u32|
                        block_cell(a, b, c) && (b < y || (b == y && (a < bx || (a == bx
                            && c < bz)))) ==> sdg.spec_descend(
                            head,
                            #[trigger] cell_path(a, b, c),
                        ) == 1,
                    forall|a: u32, b: u32, c: u32|
                        a < 16 && b < 16 && c < 16 && b != 0 && !block_cell(a, b, c)
                            ==> sdg.spec_descend(head, #[trigger] cell_path(a, b, c))
                            == 0,
                decreases 5 - bz,
            {
                proof {
                    lemma2_to64();
                }
                let ghost pre = *sdg;
                let ghost h1 = head;
                let path = Zorder3d::path_from(Cell::new(bx, y, bz), 4);
                head = sdg.set_node(head, &path, 1);
                proof {
                    lemma2_to64();
                    assert(path@ == cell_path(bx, y, bz));
                    assert forall|a: u32, c: u32| a < 16 && c < 16 implies
                        sdg.spec_descend(head, #[trigger] cell_path(a, 0, c)) == 1 by {
                        lemma_cell_transfer(pre, *sdg, h1, head, bx, y, bz, a, 0, c, 1);
                    }
                    assert forall|a: u32, b: u32, c: u32|
                        block_cell(a, b, c) && (b < y || (b == y && (a < bx || (a == bx
                            && c < bz + 1)))) implies sdg.spec_descend(
                            head,
                            #[trigger] cell_path(a, b, c),
                        ) == 1 by {
                        if a == bx && b == y && c == bz {
                            assert(sdg.spec_descend(head, path@) == 1);
                        } else {
                            lemma_cell_transfer(
                                pre,
                                *sdg,
                                h1,
                                head,
                                bx,
                                y,
                                bz,
                                a,
                                b,
                                c,
                                1,
                            );
                        }
                    }
                    assert forall|a: u32, b: u32, c: u32|
                        a < 16 && b < 16 && c < 16 && b != 0 && !block_cell(a, b, c)
                        implies sdg.spec_descend(head, #[trigger] cell_path(a, b, c))
                        == 0 by {
                        lemma_cell_transfer(pre, *sdg, h1, head, bx, y, bz, a, b, c, 0);
                    }
                }
                bz = bz + 1;
            }
            bx = bx + 1;
        }
        y = y + 1;
    }
    DagRef::new(head, 4)
}

} // verus!
