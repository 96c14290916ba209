//! The Morton-order path codec: converting between a 3D cell coordinate at
//! a given octree depth and the root-first sequence of octant selectors
//! that addresses it.

use vstd::prelude::*;
use vstd::arithmetic::power2::{pow2, lemma_pow2_unfold};
use vstd::bits::lemma_u64_shl_is_mul;
use crate::node::Zorder3d;

verus! {

/// A 3D cell coordinate inside a cubic grid.
#[derive(Clone, Copy, PartialEq, Eq, Structural, Debug)]
pub struct Cell {
    pub x: u32,
    pub y: u32,
    pub z: u32,
}

impl Cell {
    /// The cell at `(x, y, z)`.
    pub fn new(x: u32, y: u32, z: u32) -> (r: Cell)
        ensures
            r == (Cell { x, y, z }),
    {
        Cell { x, y, z }
    }

    /// Every axis coordinate fits in a grid of `2^depth` cells per side.
    pub open spec fn in_range(self, depth: nat) -> bool {
        self.x < pow2(depth) && self.y < pow2(depth) && self.z < pow2(depth)
    }
}

/// The root-first selector path of the cell `(x, y, z)` at depth `depth`:
/// the selector at position `i` packs bit `depth - 1 - i` of each axis.
pub open spec fn spec_path_from(x: nat, y: nat, z: nat, depth: nat) -> Seq<Zorder3d>
    decreases depth,
{
    if depth == 0 {
        Seq::empty()
    } else {
        spec_path_from(x / 2, y / 2, z / 2, (depth - 1) as nat).push(
            Zorder3d::from_code((x % 2 + 2 * (y % 2) + 4 * (z % 2)) as int),
        )
    }
}

/// The cell a root-first selector path addresses: each selector contributes
/// one bit per axis, most significant first.
pub open spec fn spec_to_cell(p: Seq<Zorder3d>) -> (nat, nat, nat)
    decreases p.len(),
{
    if p.len() == 0 {
        (0, 0, 0)
    } else {
        let rest = spec_to_cell(p.drop_last());
        let c = p.last().code();
        (
            (2 * rest.0 + (c % 2)) as nat,
            (2 * rest.1 + ((c / 2) % 2)) as nat,
            (2 * rest.2 + (c / 4)) as nat,
        )
    }
}

/// A path of length `depth` addresses cells below `2^depth` on every axis.
pub proof fn lemma_to_cell_bound(p: Seq<Zorder3d>)
    ensures
        spec_to_cell(p).0 < pow2(p.len()),
        spec_to_cell(p).1 < pow2(p.len()),
        spec_to_cell(p).2 < pow2(p.len()),
    decreases p.len(),
{
    if p.len() == 0 {
        assert(pow2(0) == 1) by {
            vstd::arithmetic::power2::lemma2_to64();
        }
    } else {
        lemma_to_cell_bound(p.drop_last());
        lemma_pow2_unfold(p.len());
        assert(0 <= p.last().code() < 8);
    }
}

/// Round trip of the path codec: for every depth `d` and every cell with
/// each axis below `2^d`, decoding the encoded path gives the cell back.
pub proof fn lemma_codec_roundtrip(x: nat, y: nat, z: nat, depth: nat)
    requires
        x < pow2(depth),
        y < pow2(depth),
        z < pow2(depth),
    ensures
        spec_to_cell(spec_path_from(x, y, z, depth)) == (x, y, z),
    decreases depth,
{
    if depth == 0 {
        assert(pow2(0) == 1) by {
            vstd::arithmetic::power2::lemma2_to64();
        }
    } else {
        let d1 = (depth - 1) as nat;
        lemma_pow2_unfold(depth);
        assert(x / 2 < pow2(d1) && y / 2 < pow2(d1) && z / 2 < pow2(d1)) by {
            assert(x < 2 * pow2(d1) ==> x / 2 < pow2(d1)) by (nonlinear_arith);
            assert(y < 2 * pow2(d1) ==> y / 2 < pow2(d1)) by (nonlinear_arith);
            assert(z < 2 * pow2(d1) ==> z / 2 < pow2(d1)) by (nonlinear_arith);
        }
        lemma_codec_roundtrip(x / 2, y / 2, z / 2, d1);
        let q = spec_path_from(x / 2, y / 2, z / 2, d1);
        let s = Zorder3d::from_code((x % 2 + 2 * (y % 2) + 4 * (z % 2)) as int);
        assert(q.push(s).drop_last() =~= q);
        assert(s.code() == x % 2 + 2 * (y % 2) + 4 * (z % 2));
    }
}


/// An encoded path has one selector per level.
pub proof fn lemma_path_from_len(x: nat, y: nat, z: nat, depth: nat)
    ensures
        spec_path_from(x, y, z, depth).len() == depth,
    decreases depth,
{
    if depth > 0 {
        lemma_path_from_len(x / 2, y / 2, z / 2, (depth - 1) as nat);
    }
}

/// Two unequal selector sequences of the same length have a first
/// position where they differ.
pub proof fn lemma_seq_first_diff(p1: Seq<Zorder3d>, p2: Seq<Zorder3d>) -> (k: int)
    requires
        p1.len() == p2.len(),
        p1 != p2,
    ensures
        0 <= k < p1.len(),
        forall|m: int| 0 <= m < k ==> p1[m] == p2[m],
        p1[k] != p2[k],
    decreases p1.len(),
{
    if p1.len() == 0 {
        assert(p1 =~= p2);
        0
    } else if p1[0] != p2[0] {
        0
    } else {
        if p1.skip(1) == p2.skip(1) {
            assert forall|i: int| 0 <= i < p1.len() implies p1[i] == p2[i] by {
                if i > 0 {
                    assert(p1.skip(1)[i - 1] == p2.skip(1)[i - 1]);
                }
            }
            assert(p1 =~= p2);
            0
        } else {
            let k1 = lemma_seq_first_diff(p1.skip(1), p2.skip(1));
            assert forall|m: int| 0 <= m < k1 + 1 implies p1[m] == p2[m] by {
                if m > 0 {
                    assert(p1.skip(1)[m - 1] == p2.skip(1)[m - 1]);
                }
            }
            assert(p1.skip(1)[k1] == p1[k1 + 1]);
            assert(p2.skip(1)[k1] == p2[k1 + 1]);
            k1 + 1
        }
    }
}

/// Distinct in-range cells encode to paths that first diverge at some
/// level: equal paths would decode to the same cell.
pub proof fn lemma_cells_diverge(
    x1: nat,
    y1: nat,
    z1: nat,
    x2: nat,
    y2: nat,
    z2: nat,
    depth: nat,
) -> (k: int)
    requires
        x1 < pow2(depth),
        y1 < pow2(depth),
        z1 < pow2(depth),
        x2 < pow2(depth),
        y2 < pow2(depth),
        z2 < pow2(depth),
        !(x1 == x2 && y1 == y2 && z1 == z2),
    ensures
        0 <= k < depth,
        forall|m: int|
            0 <= m < k ==> spec_path_from(x1, y1, z1, depth)[m] == spec_path_from(
                x2,
                y2,
                z2,
                depth,
            )[m],
        spec_path_from(x1, y1, z1, depth)[k] != spec_path_from(x2, y2, z2, depth)[k],
{
    let p1 = spec_path_from(x1, y1, z1, depth);
    let p2 = spec_path_from(x2, y2, z2, depth);
    lemma_path_from_len(x1, y1, z1, depth);
    lemma_path_from_len(x2, y2, z2, depth);
    if p1 == p2 {
        lemma_codec_roundtrip(x1, y1, z1, depth);
        lemma_codec_roundtrip(x2, y2, z2, depth);
        assert(false);
    }
    lemma_seq_first_diff(p1, p2)
}

/// The bottom-up worker of [`Zorder3d::path_from`]: the low bit of each
/// axis selects the deepest level, the rest of the coordinate recurses.
fn path_from_rec(x: u32, y: u32, z: u32, depth: u32) -> (p: Vec<Zorder3d>)
    requires
        depth <= 32,
    ensures
        p@ == spec_path_from(x as nat, y as nat, z as nat, depth as nat),
        p@.len() == depth,
    decreases depth,
{
    if depth == 0 {
        Vec::new()
    } else {
        let mut p = path_from_rec(x / 2, y / 2, z / 2, depth - 1);
        p.push(Zorder3d::new(x % 2, y % 2, z % 2));
        proof {
            let s = Zorder3d::from_code((x as nat % 2 + 2 * (y as nat % 2) + 4 * (z as nat
                % 2)) as int);
            assert(p@.last().code() == s.code());
            p@.last().lemma_code_inverse();
            s.lemma_code_inverse();
        }
        p
    }
}

impl Zorder3d {
    /// Encode: the root-first selector path of `cell` at depth `depth`.
    /// A coordinate at or above `2^depth` on any axis is a caller error and
    /// is excluded by precondition; see [`Zorder3d::path_from_checked`] for
    /// the total variant.
    pub fn path_from(cell: Cell, depth: u32) -> (p: Vec<Zorder3d>)
        requires
            depth <= 32,
            cell.in_range(depth as nat),
        ensures
            p@ == spec_path_from(cell.x as nat, cell.y as nat, cell.z as nat, depth as nat),
            p@.len() == depth,
    {
        path_from_rec(cell.x, cell.y, cell.z, depth)
    }

    /// Encode, checking the coordinate: `Some` exactly when every axis of
    /// `cell` is below `2^depth`, and `None` otherwise — an out-of-range
    /// coordinate is never wrapped or clamped into a path.
    pub fn path_from_checked(cell: Cell, depth: u32) -> (r: Option<Vec<Zorder3d>>)
        requires
            depth <= 32,
        ensures
            r matches Some(p) ==> p@ == spec_path_from(
                cell.x as nat,
                cell.y as nat,
                cell.z as nat,
                depth as nat,
            ),
            r is Some <==> cell.in_range(depth as nat),
    {
        proof {
            vstd::bits::lemma_u64_pow2_no_overflow(depth as nat);
            lemma_u64_shl_is_mul(1u64, depth as u64);
        }
        let lim: u64 = 1u64 << depth;
        if (cell.x as u64) < lim && (cell.y as u64) < lim && (cell.z as u64) < lim {
            Some(Self::path_from(cell, depth))
        } else {
            None
        }
    }

    /// Decode: the cell a root-first selector path addresses.
    pub fn to_cell(path: &Vec<Zorder3d>) -> (c: Cell)
        requires
            path@.len() <= 32,
        ensures
            (c.x as nat, c.y as nat, c.z as nat) == spec_to_cell(path@),
    {
        proof {
            vstd::arithmetic::power2::lemma2_to64();
        }
        let ghost full = path@;
        let mut x: u32 = 0;
        let mut y: u32 = 0;
        let mut z: u32 = 0;
        let mut i: usize = 0;
        while i < path.len()
            invariant
                path@ == full,
                full.len() <= 32,
                i <= full.len(),
                (x as nat, y as nat, z as nat) == spec_to_cell(full.take(i as int)),
                x < pow2(i as nat),
                y < pow2(i as nat),
                z < pow2(i as nat),
            decreases full.len() - i,
        {
            proof {
                lemma_to_cell_bound(full.take(i as int));
                lemma_pow2_unfold((i + 1) as nat);
                assert(pow2(32) == 0x1_0000_0000) by {
                    vstd::arithmetic::power2::lemma2_to64();
                }
                if ((i + 1) as nat) < 32 {
                    vstd::arithmetic::power2::lemma_pow2_strictly_increases(
                        (i + 1) as nat,
                        32,
                    );
                }
                assert(full.take(i + 1).drop_last() =~= full.take(i as int));
            }
            let sel = path[i];
            let (bx, by, bz) = sel.to_coord();
            x = 2 * x + bx;
            y = 2 * y + by;
            z = 2 * z + bz;
            i = i + 1;
        }
        proof {
            assert(full.take(full.len() as int) =~= full);
        }
        Cell { x, y, z }
    }
}

} // verus!
