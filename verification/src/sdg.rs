//! The sparse directed graph: root acquisition, copy-on-write point edits,
//! structural lookups and cascading reference-counted reclamation over the
//! node arena and the hash-cons table.
//!
//! The abstract state is the map of live slots (`nodes_map`), the per-slot
//! reference counts (`refs_at`), the content-to-index table (`table`), the
//! registered leaves (`leaves_seq`) and the multiset of root references the
//! callers hold (`roots`). Well-formedness ties them together: children of
//! live nodes are live, the table is a bijection between live indices and
//! their contents, leaves are self-referential, and every reference count
//! equals the number of live parent child-slots naming the index plus the
//! root references held on it.

use vstd::prelude::*;
use vstd::multiset::Multiset;
use crate::arena::{NodeArena, arena_contents, arena_slots, arena_wf};
use crate::node::{BasicNode3d, Zorder3d};
use crate::table::HashConsTable;

verus! {

/// How many of the entries of `s` equal `x`.
pub open spec fn count_in(s: Seq<u32>, x: u32) -> nat
    decreases s.len(),
{
    if s.len() == 0 {
        0
    } else {
        count_in(s.drop_last(), x) + (if s.last() == x {
            1nat
        } else {
            0nat
        })
    }
}

/// How many child slots of the node in slot `j` name `x` — zero when the
/// slot is free or holds a leaf (a leaf's self-references are not counted).
pub open spec fn slot_refs(nodes: Map<nat, Seq<u32>>, leaves: Seq<u32>, j: nat, x: u32) -> nat {
    if nodes.contains_key(j) && !leaves.contains(j as u32) {
        count_in(nodes[j], x)
    } else {
        0
    }
}

/// The total number of child slots naming `x` over the non-leaf nodes in
/// slots `0 .. upto`.
pub open spec fn ref_sum(
    nodes: Map<nat, Seq<u32>>,
    leaves: Seq<u32>,
    upto: nat,
    x: u32,
) -> nat
    decreases upto,
{
    if upto == 0 {
        0
    } else {
        ref_sum(nodes, leaves, (upto - 1) as nat, x) + slot_refs(
            nodes,
            leaves,
            (upto - 1) as nat,
            x,
        )
    }
}

/// Every child of a live node is live, and every live node has eight
/// children.
pub open spec fn closed_map(nodes: Map<nat, Seq<u32>>) -> bool {
    &&& forall|j: nat| #[trigger] nodes.contains_key(j) ==> nodes[j].len() == 8
    &&& forall|j: nat, c: int|
        nodes.contains_key(j) && 0 <= c < 8 ==> nodes.contains_key(
            (#[trigger] nodes[j][c]) as nat,
        )
}

/// The index reached from `head` by following `path` one selector at a
/// time; following stops (and self-loops) at a slot that is not live, which
/// under well-formedness happens only for leaves' self-references.
pub open spec fn map_descend(nodes: Map<nat, Seq<u32>>, head: u32, path: Seq<Zorder3d>) -> u32
    decreases path.len(),
{
    if path.len() == 0 {
        head
    } else if nodes.contains_key(head as nat) {
        map_descend(nodes, nodes[head as nat][path[0].code()], path.skip(1))
    } else {
        head
    }
}

/// Descending from a live node of a closed map lands on a live node.
pub proof fn lemma_descend_live(nodes: Map<nat, Seq<u32>>, head: u32, path: Seq<Zorder3d>)
    requires
        closed_map(nodes),
        nodes.contains_key(head as nat),
    ensures
        nodes.contains_key(map_descend(nodes, head, path) as nat),
    decreases path.len(),
{
    if path.len() > 0 {
        path[0].lemma_code_inverse();
        lemma_descend_live(nodes, nodes[head as nat][path[0].code()], path.skip(1));
    }
}

/// Descent depends only on the slots reachable in the smaller map: a second
/// map that agrees with `n1` on all of `n1`'s live slots descends alike.
pub proof fn lemma_descend_frame(
    n1: Map<nat, Seq<u32>>,
    n2: Map<nat, Seq<u32>>,
    head: u32,
    path: Seq<Zorder3d>,
)
    requires
        closed_map(n1),
        n1.contains_key(head as nat),
        forall|k: nat| #[trigger] n1.contains_key(k) ==> n2.contains_key(k) && n2[k] == n1[k],
    ensures
        map_descend(n2, head, path) == map_descend(n1, head, path),
    decreases path.len(),
{
    if path.len() > 0 {
        path[0].lemma_code_inverse();
        lemma_descend_frame(n1, n2, n1[head as nat][path[0].code()], path.skip(1));
    }
}


/// Extending a prefix by one position adds that position's match.
pub proof fn lemma_count_take_step(s: Seq<u32>, p: int, x: u32)
    requires
        0 <= p < s.len(),
    ensures
        count_in(s.take(p + 1), x) == count_in(s.take(p), x) + (if s[p] == x {
            1nat
        } else {
            0nat
        }),
{
    assert(s.take(p + 1).drop_last() =~= s.take(p));
    assert(s.take(p + 1).last() == s[p]);
}

/// A value is counted zero times exactly when no position holds it.
pub proof fn lemma_count_zero(s: Seq<u32>, x: u32)
    ensures
        (count_in(s, x) == 0) <==> (forall|k: int| 0 <= k < s.len() ==> s[k] != x),
    decreases s.len(),
{
    if s.len() > 0 {
        lemma_count_zero(s.drop_last(), x);
        assert forall|k: int| 0 <= k < s.len() - 1 implies s.drop_last()[k] == s[k] by {}
    }
}

/// No value is counted more often than the sequence is long.
pub proof fn lemma_count_le_len(s: Seq<u32>, x: u32)
    ensures
        count_in(s, x) <= s.len(),
    decreases s.len(),
{
    if s.len() > 0 {
        lemma_count_le_len(s.drop_last(), x);
    }
}

/// Two states whose slots all count alike sum alike.
pub proof fn lemma_sum_congruent(
    n1: Map<nat, Seq<u32>>,
    l1: Seq<u32>,
    n2: Map<nat, Seq<u32>>,
    l2: Seq<u32>,
    upto: nat,
    x: u32,
)
    requires
        forall|j: nat| j < upto ==> slot_refs(n2, l2, j, x) == slot_refs(n1, l1, j, x),
    ensures
        ref_sum(n2, l2, upto, x) == ref_sum(n1, l1, upto, x),
    decreases upto,
{
    if upto > 0 {
        lemma_sum_congruent(n1, l1, n2, l2, (upto - 1) as nat, x);
    }
}

/// Changing what a single slot counts shifts the sum by exactly that
/// slot's difference.
pub proof fn lemma_sum_frame(
    n1: Map<nat, Seq<u32>>,
    l1: Seq<u32>,
    n2: Map<nat, Seq<u32>>,
    l2: Seq<u32>,
    upto: nat,
    k: nat,
    x: u32,
)
    requires
        k < upto,
        forall|j: nat|
            j < upto && j != k ==> slot_refs(n2, l2, j, x) == slot_refs(n1, l1, j, x),
    ensures
        ref_sum(n2, l2, upto, x) + slot_refs(n1, l1, k, x) == ref_sum(n1, l1, upto, x)
            + slot_refs(n2, l2, k, x),
    decreases upto,
{
    if k == upto - 1 {
        lemma_sum_congruent(n1, l1, n2, l2, (upto - 1) as nat, x);
    } else {
        lemma_sum_frame(n1, l1, n2, l2, (upto - 1) as nat, k, x);
    }
}

/// A sum is at least any single slot's count.
pub proof fn lemma_sum_at_least_slot(
    nodes: Map<nat, Seq<u32>>,
    leaves: Seq<u32>,
    upto: nat,
    j: nat,
    x: u32,
)
    requires
        j < upto,
    ensures
        ref_sum(nodes, leaves, upto, x) >= slot_refs(nodes, leaves, j, x),
    decreases upto,
{
    if j < upto - 1 {
        lemma_sum_at_least_slot(nodes, leaves, (upto - 1) as nat, j, x);
    }
}

/// A zero sum means every slot in range counts zero.
pub proof fn lemma_sum_zero(nodes: Map<nat, Seq<u32>>, leaves: Seq<u32>, upto: nat, x: u32)
    requires
        ref_sum(nodes, leaves, upto, x) == 0,
    ensures
        forall|j: nat| j < upto ==> slot_refs(nodes, leaves, j, x) == 0,
    decreases upto,
{
    if upto > 0 {
        lemma_sum_zero(nodes, leaves, (upto - 1) as nat, x);
    }
}

/// Eight children per slot bound the sum.
pub proof fn lemma_sum_bound(nodes: Map<nat, Seq<u32>>, leaves: Seq<u32>, upto: nat, x: u32)
    requires
        forall|j: nat| #[trigger] nodes.contains_key(j) ==> nodes[j].len() == 8,
    ensures
        ref_sum(nodes, leaves, upto, x) <= 8 * upto,
    decreases upto,
{
    if upto > 0 {
        lemma_sum_bound(nodes, leaves, (upto - 1) as nat, x);
        if nodes.contains_key((upto - 1) as nat) {
            lemma_count_le_len(nodes[(upto - 1) as nat], x);
        }
    }
}


/// Two closed maps that agree on their common slots descend alike from a
/// slot live in both.
pub proof fn lemma_descend_agree(
    fm: Map<nat, Seq<u32>>,
    om: Map<nat, Seq<u32>>,
    x: u32,
    p: Seq<Zorder3d>,
)
    requires
        closed_map(fm),
        closed_map(om),
        fm.contains_key(x as nat),
        om.contains_key(x as nat),
        forall|j: u32|
            fm.contains_key(j as nat) && om.contains_key(j as nat) ==> fm[j as nat]
                == om[j as nat],
    ensures
        map_descend(fm, x, p) == map_descend(om, x, p),
    decreases p.len(),
{
    if p.len() > 0 {
        p[0].lemma_code_inverse();
        let c = fm[x as nat][p[0].code()];
        assert(fm.contains_key((fm[x as nat][p[0].code()]) as nat));
        assert(om.contains_key((om[x as nat][p[0].code()]) as nat));
        lemma_descend_agree(fm, om, c, p.skip(1));
    }
}

/// Descent along a concatenated path is descent along the first part,
/// then the second.
pub proof fn lemma_descend_concat(
    m: Map<nat, Seq<u32>>,
    x: u32,
    a: Seq<Zorder3d>,
    b: Seq<Zorder3d>,
)
    ensures
        map_descend(m, x, a + b) == map_descend(m, map_descend(m, x, a), b),
    decreases a.len(),
{
    if a.len() == 0 {
        assert(a + b =~= b);
    } else {
        assert((a + b)[0] == a[0]);
        assert((a + b).skip(1) =~= a.skip(1) + b);
        if m.contains_key(x as nat) {
            lemma_descend_concat(m, m[x as nat][a[0].code()], a.skip(1), b);
        } else {
            assert(map_descend(m, x, a) == x);
            if b.len() > 0 {
                assert(map_descend(m, x, b) == x);
            }
            assert(map_descend(m, x, a + b) == x);
        }
    }
}

/// The heart of copy-on-write preservation: descending the rebuilt chain
/// (`chain`, in map `fm`) along a path that first diverges from the edited
/// path at level `k` lands exactly where the old trail (`trail`, in map
/// `om`) does — every cell off the edited path keeps its value.
pub proof fn lemma_divergent_descend(
    fm: Map<nat, Seq<u32>>,
    om: Map<nat, Seq<u32>>,
    trail: Seq<u32>,
    chain: Seq<u32>,
    path: Seq<Zorder3d>,
    path2: Seq<Zorder3d>,
    i: int,
    k: int,
)
    requires
        closed_map(fm),
        closed_map(om),
        trail.len() == path.len() + 1,
        chain.len() == path.len() + 1,
        0 <= i <= k < path.len(),
        k < path2.len(),
        forall|m: int| i <= m < k ==> path2[m] == path[m],
        path2[k] != path[k],
        forall|m: int| i <= m <= path.len() ==> om.contains_key((#[trigger] trail[m]) as nat),
        forall|m: int|
            i <= m < path.len() ==> #[trigger] trail[m + 1] == om[trail[m] as nat][path[
                m
            ].code()],
        fm.contains_key(chain[i] as nat),
        forall|m: int|
            i <= m < path.len() && fm.contains_key((#[trigger] chain[m]) as nat)
                ==> fm[chain[m] as nat] == om[trail[m] as nat].update(
                path[m].code(),
                chain[m + 1],
            ),
        forall|j: u32|
            fm.contains_key(j as nat) && om.contains_key(j as nat) ==> fm[j as nat]
                == om[j as nat],
    ensures
        map_descend(fm, chain[i], path2.skip(i)) == map_descend(om, trail[i], path2.skip(i)),
    decreases k - i,
{
    path[i].lemma_code_inverse();
    path2[i].lemma_code_inverse();
    assert(fm[chain[i] as nat] == om[trail[i] as nat].update(path[i].code(), chain[i + 1]));
    assert(om[trail[i] as nat].len() == 8);
    assert(path2.skip(i)[0] == path2[i]);
    assert(path2.skip(i).skip(1) =~= path2.skip(i + 1));
    if i == k {
        assert(path2[k].code() != path[k].code()) by {
            if path2[k].code() == path[k].code() {
                assert(Zorder3d::from_code(path2[k].code()) == Zorder3d::from_code(
                    path[k].code(),
                ));
            }
        }
        let c = om[trail[k] as nat][path2[k].code()];
        assert(fm[chain[k] as nat][path2[k].code()] == c);
        assert(om.contains_key((om[trail[k] as nat][path2[k].code()]) as nat));
        assert(fm.contains_key((fm[chain[k] as nat][path2[k].code()]) as nat));
        lemma_descend_agree(fm, om, c, path2.skip(k + 1));
    } else {
        assert(path2[i] == path[i]);
        assert(fm[chain[i] as nat][path2[i].code()] == chain[i + 1]);
        assert(fm.contains_key((fm[chain[i] as nat][path2[i].code()]) as nat));
        assert(om[trail[i] as nat][path2[i].code()] == trail[i + 1]);
        lemma_divergent_descend(fm, om, trail, chain, path, path2, i + 1, k);
    }
}

/// Inserting into a sequence adds exactly that element to what it contains.
pub proof fn lemma_insert_contains(s: Seq<u32>, p: int, v: u32)
    requires
        0 <= p <= s.len(),
    ensures
        forall|x: u32| s.insert(p, v).contains(x) <==> s.contains(x) || x == v,
{
    let t = s.insert(p, v);
    assert forall|x: u32| t.contains(x) <==> s.contains(x) || x == v by {
        if t.contains(x) {
            let k = choose|k: int| 0 <= k < t.len() && t[k] == x;
            if k < p {
                assert(s[k] == x);
            } else if k == p {
                assert(x == v);
            } else {
                assert(s[k - 1] == x);
            }
        }
        if s.contains(x) {
            let k = choose|k: int| 0 <= k < s.len() && s[k] == x;
            if k < p {
                assert(t[k] == x);
            } else {
                assert(t[k + 1] == x);
            }
        }
        if x == v {
            assert(t[p] == x);
        }
    }
}


/// Appending a sequence's first `k` entries to a queue adds their counts.
pub proof fn lemma_queue_count(base: Seq<u32>, node: Seq<u32>, q: Seq<u32>, x: u32)
    requires
        q == base + node.map_values(|v: u32| v),
    ensures
        count_in(q, x) == count_in(base, x) + count_in(node, x),
    decreases node.len(),
{
    if node.len() == 0 {
        assert(q =~= base);
    } else {
        let shorter = base + node.drop_last().map_values(|v: u32| v);
        assert(q.drop_last() =~= shorter);
        assert(q.last() == node.last());
        lemma_queue_count(base, node.drop_last(), shorter, x);
    }
}


/// Slots past every live index add nothing to a sum.
pub proof fn lemma_sum_tail_zero(
    nodes: Map<nat, Seq<u32>>,
    leaves: Seq<u32>,
    u1: nat,
    u2: nat,
    x: u32,
)
    requires
        u1 <= u2,
        forall|j: nat| u1 <= j < u2 ==> !nodes.contains_key(j),
    ensures
        ref_sum(nodes, leaves, u2, x) == ref_sum(nodes, leaves, u1, x),
    decreases u2 - u1,
{
    if u2 > u1 {
        lemma_sum_tail_zero(nodes, leaves, u1, (u2 - 1) as nat, x);
    }
}


/// The termination budget of one slot at a given rank: powers of nine,
/// enough to pay for a node and its eight strictly lower-ranked children.
pub open spec fn wt(r: nat) -> nat
    decreases r,
{
    if r == 0 {
        1
    } else {
        9 * wt((r - 1) as nat)
    }
}

/// Budgets are positive.
pub proof fn lemma_wt_pos(r: nat)
    ensures
        wt(r) >= 1,
    decreases r,
{
    if r > 0 {
        lemma_wt_pos((r - 1) as nat);
    }
}

/// Budgets grow with rank.
pub proof fn lemma_wt_mono(r1: nat, r2: nat)
    requires
        r1 <= r2,
    ensures
        wt(r1) <= wt(r2),
    decreases r2,
{
    if r1 < r2 {
        lemma_wt_mono(r1, (r2 - 1) as nat);
        lemma_wt_pos((r2 - 1) as nat);
    }
}

/// The budget of one queued slot: leaves and dead slots cost one step,
/// a live non-leaf costs a full budget one rank above its own.
pub open spec fn node_weight(g: SparseDirectedGraph, x: u32) -> nat {
    if g.live(x) && !g.spec_is_leaf(x) {
        wt(g.rank_of(x) + 1)
    } else {
        1
    }
}

/// The total budget of a queue of slots.
pub open spec fn queue_measure(g: SparseDirectedGraph, s: Seq<u32>) -> nat
    decreases s.len(),
{
    if s.len() == 0 {
        0
    } else {
        queue_measure(g, s.drop_last()) + node_weight(g, s.last())
    }
}

/// Budgets add over concatenation.
pub proof fn lemma_measure_concat(g: SparseDirectedGraph, a: Seq<u32>, b: Seq<u32>)
    ensures
        queue_measure(g, a + b) == queue_measure(g, a) + queue_measure(g, b),
    decreases b.len(),
{
    if b.len() == 0 {
        assert(a + b =~= a);
    } else {
        assert((a + b).drop_last() =~= a + b.drop_last());
        assert((a + b).last() == b.last());
        lemma_measure_concat(g, a, b.drop_last());
    }
}

/// Splitting a queue at a position splits its budget.
pub proof fn lemma_measure_split(g: SparseDirectedGraph, s: Seq<u32>, i: int)
    requires
        0 <= i < s.len(),
    ensures
        queue_measure(g, s.skip(i)) == node_weight(g, s[i]) + queue_measure(
            g,
            s.skip(i + 1),
        ),
{
    assert(s.skip(i) =~= seq![s[i]] + s.skip(i + 1));
    lemma_measure_concat(g, seq![s[i]], s.skip(i + 1));
    assert(seq![s[i]].drop_last() =~= Seq::<u32>::empty());
    assert(seq![s[i]].last() == s[i]);
    assert(queue_measure(g, seq![s[i]].drop_last()) == 0);
    assert(queue_measure(g, seq![s[i]]) == node_weight(g, s[i]));
}

/// A per-slot budget bound bounds the whole queue's budget.
pub proof fn lemma_measure_bound(g: SparseDirectedGraph, s: Seq<u32>, b: nat)
    requires
        forall|k: int| 0 <= k < s.len() ==> node_weight(g, #[trigger] s[k]) <= b,
    ensures
        queue_measure(g, s) <= b * s.len(),
    decreases s.len(),
{
    if s.len() > 0 {
        lemma_measure_bound(g, s.drop_last(), b);
        assert(b * (s.len() - 1) + b == b * s.len()) by (nonlinear_arith);
    }
}

/// How many of the listed slots are live non-leaves (branches).
pub open spec fn count_branches(g: SparseDirectedGraph, s: Seq<u32>) -> nat
    decreases s.len(),
{
    if s.len() == 0 {
        0
    } else {
        count_branches(g, s.drop_last()) + (if g.spec_is_leaf(s.last()) {
            0nat
        } else {
            1nat
        })
    }
}

/// The largest rank among the first `c` non-leaf children named by `node`
/// in graph `g` (zero when there are none).
pub open spec fn max_rank_upto(g: SparseDirectedGraph, node: Seq<u32>, c: int) -> nat
    decreases c,
{
    if c <= 0 {
        0
    } else {
        let rc: nat = if g.spec_is_leaf(node[c - 1]) {
            0
        } else {
            g.rank_of(node[c - 1])
        };
        if rc > max_rank_upto(g, node, c - 1) {
            rc
        } else {
            max_rank_upto(g, node, c - 1)
        }
    }
}

/// Every non-leaf child ranks strictly below one more than the maximum.
pub proof fn lemma_max_rank(g: SparseDirectedGraph, node: Seq<u32>, cc: int)
    ensures
        forall|c: int|
            0 <= c < cc && !g.spec_is_leaf(#[trigger] node[c]) ==> g.rank_of(node[c]) < 1
                + max_rank_upto(g, node, cc),
    decreases cc,
{
    if cc > 0 {
        lemma_max_rank(g, node, cc - 1);
        assert(max_rank_upto(g, node, cc) >= max_rank_upto(g, node, cc - 1));
    }
}

/// A sorted, content-addressed, reference-counted store of octree nodes.
pub struct SparseDirectedGraph {
    nodes: NodeArena,
    ref_count: Vec<u32>,
    index_lookup: HashConsTable,
    leaves: Vec<u32>,
    root_refs: Ghost<Multiset<u32>>,
    root_tally: usize,
    node_rank: Ghost<Map<nat, nat>>,
}

impl SparseDirectedGraph {
    /// The live slots: each occupied arena index, mapped to its node's
    /// eight child handles.
    pub closed spec fn nodes_map(self) -> Map<nat, Seq<u32>> {
        arena_contents(self.nodes)
    }

    /// The size of the arena's backing storage, free slots included.
    pub closed spec fn slots(self) -> nat {
        arena_slots(self.nodes)
    }

    /// The reference count of slot `i` (zero where no count was recorded).
    pub closed spec fn refs_at(self, i: u32) -> nat {
        if (i as int) < self.ref_count@.len() {
            self.ref_count@[i as int] as nat
        } else {
            0
        }
    }

    /// The registered leaf indices, in increasing order.
    pub closed spec fn leaves_seq(self) -> Seq<u32> {
        self.leaves@
    }

    /// The content-to-canonical-index table.
    pub closed spec fn table(self) -> Map<Seq<u32>, u32> {
        self.index_lookup@
    }

    /// The multiset of root references the callers hold.
    pub closed spec fn roots(self) -> Multiset<u32> {
        self.root_refs@
    }

    /// Whether slot `i` is live (occupied).
    pub open spec fn live(self, i: u32) -> bool {
        self.nodes_map().contains_key(i as nat)
    }

    /// The eight child handles of the live slot `i`.
    pub open spec fn node_at(self, i: u32) -> Seq<u32> {
        self.nodes_map()[i as nat]
    }

    /// Whether `i` is a registered leaf.
    pub open spec fn spec_is_leaf(self, i: u32) -> bool {
        self.leaves_seq().contains(i)
    }

    /// The index reached from `head` by following `path`.
    pub open spec fn spec_descend(self, head: u32, path: Seq<Zorder3d>) -> u32 {
        map_descend(self.nodes_map(), head, path)
    }

    /// Every reference count balances the books up to the pending
    /// decrements in `extra`: count = live parent child-slots + held roots
    /// + pending queue entries.
    pub open spec fn rc_pending(self, extra: Seq<u32>) -> bool {
        forall|x: u32|
            #[trigger] self.refs_at(x) == ref_sum(
                self.nodes_map(),
                self.leaves_seq(),
                self.slots(),
                x,
            ) + self.roots().count(x) + count_in(extra, x)
    }

    /// Reclamation is complete: every live non-leaf slot is still
    /// referenced — no slot that nothing reaches survives a collection, so
    /// a count of zero and liveness never coexist outside the leaves.
    pub open spec fn counts_positive(self) -> bool {
        forall|j: u32|
            self.live(j) && !self.spec_is_leaf(j) ==> #[trigger] self.refs_at(j) >= 1
    }

    /// The ghost rank of slot `i`: a bound on the height of the subtree
    /// under it, maintained so that non-leaf children always rank strictly
    /// below their parents.
    pub closed spec fn rank_of(self, i: u32) -> nat {
        self.node_rank@[i as nat]
    }

    /// The live graph is ranked, hence acyclic off the leaves: every
    /// non-leaf child of a live non-leaf ranks strictly below its parent.
    pub open spec fn ranked(self) -> bool {
        forall|j: u32, c: int|
            self.live(j) && !self.spec_is_leaf(j) && 0 <= c < 8 && !self.spec_is_leaf(
                #[trigger] self.node_at(j)[c] as u32,
            ) ==> self.rank_of(self.node_at(j)[c] as u32) < self.rank_of(j)
    }

    /// The structural invariant: arena and table views well formed, all
    /// live slots inside the storage, children of live nodes live, the
    /// table a bijection between live slots and their contents, leaves
    /// sorted, live and self-referential, and held roots live.
    pub closed spec fn wf_core(self) -> bool {
        &&& arena_wf(self.nodes)
        &&& self.index_lookup.wf()
        &&& self.slots() <= 0xFFFF_FFFF
        &&& closed_map(self.nodes_map())
        &&& forall|c: Seq<u32>|
            #[trigger] self.table().contains_key(c) ==> self.nodes_map().contains_key(
                self.table()[c] as nat,
            ) && self.nodes_map()[self.table()[c] as nat] == c
        &&& forall|j: nat|
            #[trigger] self.nodes_map().contains_key(j) ==> self.table().contains_key(
                self.nodes_map()[j],
            ) && self.table()[self.nodes_map()[j]] == j as u32
        &&& forall|a: int, b: int|
            0 <= a < b < self.leaves_seq().len() ==> #[trigger] self.leaves_seq()[a]
                < #[trigger] self.leaves_seq()[b]
        &&& forall|k: int|
            0 <= k < self.leaves_seq().len() ==> self.nodes_map().contains_key(
                (#[trigger] self.leaves_seq()[k]) as nat,
            )
        &&& forall|k: int, c: int|
            0 <= k < self.leaves_seq().len() && 0 <= c < 8 ==> (#[trigger] self.nodes_map()[
                self.leaves_seq()[k] as nat
            ][c]) == self.leaves_seq()[k]
        &&& forall|x: u32|
            #[trigger] self.roots().count(x) > 0 ==> self.nodes_map().contains_key(x as nat)
    }

    /// The executable root counter agrees with the ghost root multiset.
    pub closed spec fn roots_counted(self) -> bool {
        self.root_tally as nat == self.roots().len()
    }

    /// The full invariant: structure plus exact reference-count accounting
    /// plus the executable root counter.
    pub closed spec fn wf(self) -> bool {
        &&& self.wf_core()
        &&& self.rc_pending(Seq::empty())
        &&& self.roots_counted()
    }

    /// Room for `extra` more allocations without any reference count or
    /// index arithmetic overflowing.
    pub open spec fn has_headroom(self, extra: nat) -> bool {
        8 * (self.slots() + extra) + self.roots().len() + 16 < 0xFFFF_FFFF
    }

    /// An empty graph: no slots, no leaves, no table entries, no roots.
    pub fn new() -> (r: SparseDirectedGraph)
        ensures
            r.wf(),
            forall|i: u32| !r.live(i),
            forall|i: u32| !r.spec_is_leaf(i),
            forall|i: u32| r.roots().count(i) == 0,
            forall|i: u32| r.refs_at(i) == 0,
            r.slots() == 0,
            r.counts_positive(),
            r.ranked(),
    {
        let r = SparseDirectedGraph {
            nodes: NodeArena::new(),
            ref_count: Vec::new(),
            index_lookup: HashConsTable::new(),
            leaves: Vec::new(),
            root_refs: Ghost(Multiset::empty()),
            root_tally: 0,
            node_rank: Ghost(Map::empty()),
        };
        proof {
            broadcast use vstd::multiset::group_multiset_axioms;

            let e = Multiset::<u32>::empty();
            if e.len() > 0 {
                vstd::multiset::lemma_multiset_empty_len(e);
                let w = choose|v: u32| 0 < e.count(v);
                assert(false);
            }
        }
        r
    }

    /// Whether `idx` is a registered leaf.
    pub fn is_leaf(&self, idx: u32) -> (r: bool)
        ensures
            r == self.spec_is_leaf(idx),
    {
        let n = self.leaves.len();
        let mut k: usize = 0;
        while k < n
            invariant
                n == self.leaves@.len(),
                k <= n,
                forall|m: int| 0 <= m < k ==> self.leaves@[m] != idx,
            decreases n - k,
        {
            if self.leaves[k] == idx {
                return true;
            }
            k = k + 1;
        }
        false
    }

    /// The node stored in the live slot `idx`.
    pub fn node(&self, idx: u32) -> (r: BasicNode3d)
        requires
            self.live(idx),
        ensures
            r@ == self.node_at(idx),
    {
        self.nodes.get(idx)
    }

    /// The child handle of the live slot `idx` in octant `child`.
    pub fn child(&self, idx: u32, child: Zorder3d) -> (r: u32)
        requires
            self.wf(),
            self.live(idx),
        ensures
            r == self.node_at(idx)[child.code()],
            self.live(r),
    {
        proof {
            child.lemma_code_inverse();
        }
        self.node(idx).get(child)
    }

    /// The reference count currently recorded for `idx`.
    pub fn get_ref(&self, idx: u32) -> (r: u32)
        requires
            self.wf(),
            self.live(idx),
        ensures
            r == self.refs_at(idx),
    {
        if (idx as usize) < self.ref_count.len() {
            self.ref_count[idx as usize]
        } else {
            0
        }
    }

    /// The canonical index of a node with content equal to `node`, if one
    /// is live.
    fn find_index(&self, node: &BasicNode3d) -> (r: Option<u32>)
        requires
            self.wf(),
        ensures
            r matches Some(i) ==> self.live(i) && self.node_at(i) == node@,
            r is None ==> forall|j: u32| self.live(j) ==> self.node_at(j) != node@,
    {
        let r = self.index_lookup.find(node);
        proof {
            if r matches Some(i) {
                assert(self.table().contains_key(node@));
                assert(self.nodes_map().contains_key(self.table()[node@] as nat));
            }
            if r is None {
                assert forall|j: u32| self.live(j) implies self.node_at(j) != node@ by {
                    assert(self.table().contains_key(self.nodes_map()[j as nat]));
                }
            }
        }
        r
    }

    /// The trail of `path` from `head`: the visited index at every level,
    /// starting with `head` itself.
    fn get_trail(&self, head: u32, path: &Vec<Zorder3d>) -> (trail: Vec<u32>)
        requires
            self.wf(),
            self.live(head),
        ensures
            trail@.len() == path@.len() + 1,
            trail@[0] == head,
            forall|k: int| 0 <= k <= path@.len() ==> self.live(#[trigger] trail@[k]),
            forall|k: int|
                0 <= k < path@.len() ==> #[trigger] trail@[k + 1] == self.node_at(
                    trail@[k],
                )[path@[k].code()],
    {
        let mut trail: Vec<u32> = Vec::new();
        trail.push(head);
        let n = path.len();
        let mut step: usize = 0;
        while step < n
            invariant
                self.wf(),
                self.live(head),
                n == path@.len(),
                step <= n,
                trail@.len() == step + 1,
                trail@[0] == head,
                forall|k: int| 0 <= k <= step ==> self.live(#[trigger] trail@[k]),
                forall|k: int|
                    0 <= k < step ==> #[trigger] trail@[k + 1] == self.node_at(
                        trail@[k],
                    )[path@[k].code()],
            decreases n - step,
        {
            let next = self.child(trail[step], path[step]);
            trail.push(next);
            step = step + 1;
        }
        trail
    }

    /// A trail's last element is where descent along the path lands.
    proof fn lemma_trail_is_descend(self, trail: Seq<u32>, path: Seq<Zorder3d>, at: int)
        requires
            self.wf_core(),
            trail.len() == path.len() + 1,
            0 <= at <= path.len(),
            self.live(trail[at]),
            forall|k: int| at <= k < path.len() ==> #[trigger] trail[k + 1] == self.node_at(
                trail[k],
            )[path[k].code()],
            forall|k: int| at <= k <= path.len() ==> self.live(#[trigger] trail[k]),
        ensures
            self.spec_descend(trail[at], path.skip(at)) == trail[path.len() as int],
        decreases path.len() - at,
    {
        if at == path.len() {
            assert(path.skip(at).len() == 0);
        } else {
            self.lemma_trail_is_descend(trail, path, at + 1);
            assert(path.skip(at)[0] == path[at]);
            assert(path.skip(at).skip(1) =~= path.skip(at + 1));
        }
    }

    /// Follow `path` from the live index `head` and return the index it
    /// lands on. A pure read: no mutation, no reference-count change.
    pub fn descend(&self, head: u32, path: &Vec<Zorder3d>) -> (r: u32)
        requires
            self.wf(),
            self.live(head),
        ensures
            r == self.spec_descend(head, path@),
            self.live(r),
    {
        let trail = self.get_trail(head, path);
        proof {
            self.lemma_trail_is_descend(trail@, path@, 0);
            assert(path@.skip(0) =~= path@);
        }
        trail[path.len()]
    }

    /// Record one more reference to `idx`, growing the count array to reach
    /// it if needed.
    fn add_ref(&mut self, idx: u32)
        requires
            old(self).refs_at(idx) < 0xFFFF_FFFF,
            idx < 0xFFFF_FFFF,
        ensures
            forall|x: u32|
                final(self).refs_at(x) == old(self).refs_at(x) + (if x == idx {
                    1nat
                } else {
                    0nat
                }),
            final(self).nodes == old(self).nodes,
            final(self).index_lookup == old(self).index_lookup,
            final(self).leaves == old(self).leaves,
            final(self).root_refs == old(self).root_refs,
            final(self).root_tally == old(self).root_tally,
            final(self).node_rank == old(self).node_rank,
            final(self).nodes_map() == old(self).nodes_map(),
            final(self).slots() == old(self).slots(),
            final(self).leaves_seq() == old(self).leaves_seq(),
            final(self).table() == old(self).table(),
            final(self).roots() == old(self).roots(),
            old(self).wf_core() ==> final(self).wf_core(),
    {
        let i = idx as usize;
        while self.ref_count.len() <= i
            invariant
                i < 0xFFFF_FFFF,
                self.nodes == old(self).nodes,
                self.index_lookup == old(self).index_lookup,
                self.leaves == old(self).leaves,
                self.root_refs == old(self).root_refs,
                self.root_tally == old(self).root_tally,
                self.node_rank == old(self).node_rank,
                old(self).ref_count@.len() <= self.ref_count@.len(),
                forall|k: int|
                    0 <= k < self.ref_count@.len() ==> #[trigger] self.ref_count@[k] == (
                    if k < old(self).ref_count@.len() {
                        old(self).ref_count@[k]
                    } else {
                        0u32
                    }),
            decreases i + 1 - self.ref_count.len(),
        {
            self.ref_count.push(0u32);
        }
        let c = self.ref_count[i];
        assert(c == old(self).refs_at(idx));
        self.ref_count[i] = c + 1;
        proof {
            assert forall|x: u32|
                self.refs_at(x) == old(self).refs_at(x) + (if x == idx {
                    1nat
                } else {
                    0nat
                }) by {}
            if old(self).wf_core() {
                assert(self.nodes_map() == old(self).nodes_map());
                assert(self.table() == old(self).table());
                assert(self.leaves_seq() == old(self).leaves_seq());
                assert(self.roots() == old(self).roots());
                assert(self.slots() == old(self).slots());
                assert(self.wf_core());
            }
        }
    }

    /// Acquire an extra reference on the live index `idx` and hand it back
    /// as a root handle.
    pub fn get_root(&mut self, idx: u32) -> (r: u32)
        requires
            old(self).wf(),
            old(self).live(idx),
            old(self).has_headroom(0),
        ensures
            r == idx,
            final(self).wf(),
            final(self).nodes_map() == old(self).nodes_map(),
            final(self).slots() == old(self).slots(),
            final(self).leaves_seq() == old(self).leaves_seq(),
            final(self).table() == old(self).table(),
            final(self).roots() == old(self).roots().insert(idx),
            final(self).roots().len() == old(self).roots().len() + 1,
            forall|x: u32|
                final(self).refs_at(x) == old(self).refs_at(x) + (if x == idx {
                    1nat
                } else {
                    0nat
                }),
            old(self).counts_positive() ==> final(self).counts_positive(),
    {
        proof {
            broadcast use vstd::multiset::group_multiset_axioms;
            broadcast use vstd::multiset::group_multiset_properties;

            old(self).lemma_refs_bounded(idx);
        }
        proof {
            assert(old(self).root_tally as nat == old(self).roots().len());
        }
        self.root_tally = self.root_tally + 1;
        let ghost bumped = *self;
        proof {
            assert forall|x: u32| bumped.refs_at(x) == old(self).refs_at(x) by {}
        }
        self.add_ref(idx);
        let ghost mid = *self;
        proof {
            broadcast use vstd::multiset::group_multiset_axioms;
            broadcast use vstd::multiset::group_multiset_properties;

            self.root_refs@ = self.root_refs@.insert(idx);
            assert(self.roots().len() == old(self).roots().len() + 1);
            assert(self.root_tally == old(self).root_tally + 1);
            assert forall|x: u32|
                self.refs_at(x) == ref_sum(
                    self.nodes_map(),
                    self.leaves_seq(),
                    self.slots(),
                    x,
                ) + self.roots().count(x) + count_in(Seq::empty(), x) by {
                assert(mid.refs_at(x) == bumped.refs_at(x) + (if x == idx {
                    1nat
                } else {
                    0nat
                }));
                assert(bumped.refs_at(x) == old(self).refs_at(x));
                assert(self.refs_at(x) == mid.refs_at(x));
                assert(old(self).refs_at(x) == ref_sum(
                    old(self).nodes_map(),
                    old(self).leaves_seq(),
                    old(self).slots(),
                    x,
                ) + old(self).roots().count(x) + count_in(Seq::empty(), x));
                if x == idx {
                    assert(self.roots().count(x) == old(self).roots().count(x) + 1);
                } else {
                    assert(self.roots().count(x) == old(self).roots().count(x));
                }
            }
            if old(self).counts_positive() {
                assert forall|j: u32|
                    self.live(j) && !self.spec_is_leaf(j) implies self.refs_at(j) >= 1 by {
                    assert(mid.refs_at(j) == bumped.refs_at(j) + (if j == idx {
                        1nat
                    } else {
                        0nat
                    }));
                    assert(bumped.refs_at(j) == old(self).refs_at(j));
                    assert(self.refs_at(j) == mid.refs_at(j));
                    assert(old(self).refs_at(j) >= 1);
                }
            }
        }
        idx
    }


    /// Register a new terminal value: allocate a self-referential node,
    /// record its index in the sorted leaf set, and hash-cons its content.
    /// The new leaf starts with a zero reference count.
    pub fn add_leaf(&mut self) -> (idx: u32)
        requires
            old(self).wf(),
            old(self).has_headroom(1),
        ensures
            final(self).wf(),
            !old(self).live(idx),
            final(self).live(idx),
            final(self).spec_is_leaf(idx),
            final(self).node_at(idx).len() == 8,
            forall|c: int| 0 <= c < 8 ==> final(self).node_at(idx)[c] == idx,
            forall|x: u32|
                final(self).spec_is_leaf(x) <==> old(self).spec_is_leaf(x) || x == idx,
            forall|j: u32|
                old(self).live(j) ==> final(self).live(j) && final(self).node_at(j)
                    == old(self).node_at(j),
            forall|j: u32| final(self).live(j) ==> old(self).live(j) || j == idx,
            forall|x: u32| final(self).refs_at(x) == old(self).refs_at(x),
            final(self).roots() == old(self).roots(),
            old(self).slots() <= final(self).slots() <= old(self).slots() + 1,
            idx as nat <= old(self).slots(),
            forall|k: u32| k < idx ==> old(self).live(k),
            old(self).counts_positive() ==> final(self).counts_positive(),
            old(self).ranked() ==> final(self).ranked(),
    {
        let idx = self.nodes.next_index();
        let leaf = BasicNode3d::uniform(idx);
        let ghost pre = *self;
        let _ = self.nodes.write(idx, leaf);
        let ghost mid = *self;
        proof {
            assert(self.nodes_map() == pre.nodes_map().insert(idx as nat, leaf@));
            // The new content cannot be hash-consed yet: a live node with
            // this content would have the fresh index as a live child.
            if pre.table().contains_key(leaf@) {
                let j = pre.table()[leaf@];
                assert(pre.nodes_map()[j as nat] == leaf@);
                assert(pre.nodes_map().contains_key((pre.nodes_map()[j as nat][0]) as nat));
                assert(false);
            }
            // Fresh index: not a leaf of the old state either.
            if pre.leaves_seq().contains(idx) {
                let k = choose|k: int|
                    0 <= k < pre.leaves_seq().len() && pre.leaves_seq()[k] == idx;
                assert(pre.nodes_map().contains_key(pre.leaves_seq()[k] as nat));
                assert(false);
            }
        }
        let n = self.leaves.len();
        let mut p: usize = 0;
        while p < n && self.leaves[p] < idx
            invariant
                n == self.leaves@.len(),
                p <= n,
                forall|k: int| 0 <= k < p ==> #[trigger] self.leaves@[k] < idx,
            decreases n - p,
        {
            p = p + 1;
        }
        let ghost old_leaves = self.leaves@;
        self.leaves.insert(p, idx);
        self.index_lookup.insert(leaf, idx);
        proof {
            let new_leaves = self.leaves@;
            let nm = self.nodes_map();
            let onm = pre.nodes_map();
            assert(new_leaves == old_leaves.insert(p as int, idx));
            lemma_insert_contains(old_leaves, p as int, idx);
            // Sortedness around the insertion point.
            assert forall|a: int, b: int|
                0 <= a < b < new_leaves.len() implies #[trigger] new_leaves[a] < #[trigger] new_leaves[b] by {
                if a < p && b == p {
                    assert(new_leaves[a] == old_leaves[a]);
                } else if a == p && b > p {
                    assert(new_leaves[b] == old_leaves[b - 1]);
                    assert(old_leaves[b - 1] >= idx || p < old_leaves.len());
                    if p < old_leaves.len() {
                        assert(old_leaves[p as int] >= idx);
                        assert(old_leaves[p as int] != idx);
                        if b - 1 > p {
                            assert(old_leaves[p as int] < old_leaves[b - 1]);
                        }
                    }
                    assert(old_leaves[b - 1] != idx);
                } else if a < p && b > p {
                    assert(new_leaves[a] == old_leaves[a]);
                    assert(new_leaves[b] == old_leaves[b - 1]);
                    if a < b - 1 {
                    } else {
                        assert(a == b - 1);
                        assert(old_leaves[a] < idx);
                        assert(old_leaves[b - 1] < idx);
                        assert(old_leaves[b - 1] != idx);
                        if p < old_leaves.len() {
                            assert(old_leaves[p as int] > idx);
                        }
                        assert(b - 1 >= p);
                        assert(false);
                    }
                } else if a < p && b < p {
                    assert(new_leaves[a] == old_leaves[a]);
                    assert(new_leaves[b] == old_leaves[b]);
                } else if a > p && b > p {
                    assert(new_leaves[a] == old_leaves[a - 1]);
                    assert(new_leaves[b] == old_leaves[b - 1]);
                }
            }
            // Reference-count accounting is untouched: the new slot counts
            // zero (it is a leaf), every other slot counts as before.
            assert forall|x: u32|
                self.refs_at(x) == ref_sum(nm, new_leaves, self.slots(), x)
                    + self.roots().count(x) + count_in(Seq::empty(), x) by {
                assert forall|j: nat|
                    j < pre.slots() && j != idx as nat implies slot_refs(nm, new_leaves, j, x)
                        == slot_refs(onm, old_leaves, j, x) by {
                    assert(new_leaves.contains(j as u32) <==> old_leaves.contains(j as u32)
                        || j as u32 == idx);
                    if nm.contains_key(j) {
                        assert(nm[j] == onm[j]);
                    }
                }
                assert(slot_refs(nm, new_leaves, idx as nat, x) == 0);
                assert(slot_refs(onm, old_leaves, idx as nat, x) == 0);
                if (idx as nat) < pre.slots() {
                    lemma_sum_frame(
                        onm,
                        old_leaves,
                        nm,
                        new_leaves,
                        pre.slots(),
                        idx as nat,
                        x,
                    );
                    assert(self.slots() == pre.slots());
                } else {
                    lemma_sum_congruent(onm, old_leaves, nm, new_leaves, pre.slots(), x);
                    if self.slots() == pre.slots() + 1 {
                        assert(ref_sum(nm, new_leaves, self.slots(), x) == ref_sum(
                            nm,
                            new_leaves,
                            pre.slots(),
                            x,
                        ) + slot_refs(nm, new_leaves, pre.slots(), x));
                        assert(idx as nat == pre.slots());
                    }
                }
                assert(pre.refs_at(x) == ref_sum(onm, old_leaves, pre.slots(), x)
                    + pre.roots().count(x) + count_in(Seq::empty(), x));
                assert(self.refs_at(x) == pre.refs_at(x));
            }
            if pre.counts_positive() {
                assert forall|j: u32|
                    self.live(j) && !self.spec_is_leaf(j) implies self.refs_at(j) >= 1 by {
                    assert(j != idx);
                    assert(pre.live(j) && !pre.spec_is_leaf(j));
                    assert(self.refs_at(j) == pre.refs_at(j));
                }
            }
            if pre.ranked() {
                assert forall|j: u32, c: int|
                    self.live(j) && !self.spec_is_leaf(j) && 0 <= c < 8
                        && !self.spec_is_leaf(#[trigger] self.node_at(j)[c] as u32)
                    implies self.rank_of(self.node_at(j)[c] as u32) < self.rank_of(j) by {
                    assert(self.spec_is_leaf(idx));
                    assert(j != idx);
                    assert(pre.live(j) && !pre.spec_is_leaf(j));
                    assert(self.node_at(j) == pre.node_at(j));
                    let ch = pre.node_at(j)[c] as u32;
                    assert(!pre.spec_is_leaf(ch));
                    assert(self.rank_of(ch) == pre.rank_of(ch));
                    assert(self.rank_of(j) == pre.rank_of(j));
                }
            }
        }
        idx
    }


    /// Allocate a fresh slot for `node`, count one reference from it to
    /// each of its children, and hash-cons its content.
    fn add_node(&mut self, node: BasicNode3d) -> (idx: u32)
        requires
            old(self).wf(),
            old(self).has_headroom(1),
            node@.len() == 8,
            forall|c: int| 0 <= c < 8 ==> old(self).live(#[trigger] node@[c]),
            !old(self).table().contains_key(node@),
        ensures
            final(self).wf(),
            !old(self).live(idx),
            final(self).live(idx),
            final(self).node_at(idx) == node@,
            final(self).nodes_map() == old(self).nodes_map().insert(idx as nat, node@),
            !final(self).spec_is_leaf(idx),
            final(self).leaves_seq() == old(self).leaves_seq(),
            final(self).roots() == old(self).roots(),
            old(self).slots() <= final(self).slots() <= old(self).slots() + 1,
            forall|j: u32|
                old(self).live(j) ==> final(self).live(j) && final(self).node_at(j)
                    == old(self).node_at(j),
            forall|x: u32|
                final(self).refs_at(x) == old(self).refs_at(x) + count_in(node@, x),
            old(self).ranked() ==> final(self).ranked(),
    {
        proof {
            assert forall|x: u32| old(self).refs_at(x) + 16 < 0xFFFF_FFFF by {
                old(self).lemma_refs_bounded(x);
            }
        }
        let idx = self.nodes.insert(node);
        proof {
            self.node_rank@ = self.node_rank@.insert(
                idx as nat,
                1 + max_rank_upto(*old(self), node@, 8),
            );
        }
        let ghost mid = *self;
        proof {
            // The fresh slot is no registered leaf: leaves are live.
            if mid.leaves_seq().contains(idx) {
                let k = choose|k: int|
                    0 <= k < old(self).leaves_seq().len() && old(self).leaves_seq()[k]
                        == idx;
                assert(old(self).nodes_map().contains_key(
                    old(self).leaves_seq()[k] as nat,
                ));
                assert(false);
            }
            assert forall|x: u32| #[trigger] mid.refs_at(x) + 16 < 0xFFFF_FFFF by {
                assert(mid.refs_at(x) == old(self).refs_at(x));
                old(self).lemma_refs_bounded(x);
            }
            assert forall|x: u32|
                #[trigger] self.refs_at(x) == mid.refs_at(x) + count_in(
                    node@.take(0int),
                    x,
                ) by {
                assert(node@.take(0int).len() == 0);
            }
        }
        let sels = Zorder3d::all();
        let mut k: usize = 0;
        while k < 8
            invariant
                k <= 8,
                node@.len() == 8,
                sels@.len() == 8,
                forall|i: int| 0 <= i < 8 ==> #[trigger] sels@[i].code() == i,
                forall|c: int| 0 <= c < 8 ==> old(self).live(#[trigger] node@[c]),
                old(self).slots() <= 0xFFFF_FFFF,
                forall|j: nat|
                    old(self).nodes_map().contains_key(j) ==> j < old(self).slots(),
                self.nodes == mid.nodes,
                self.index_lookup == mid.index_lookup,
                self.leaves == mid.leaves,
                self.root_refs == mid.root_refs,
                self.root_tally == mid.root_tally,
                self.node_rank == mid.node_rank,
                forall|x: u32|
                    #[trigger] self.refs_at(x) == mid.refs_at(x) + count_in(
                        node@.take(k as int),
                        x,
                    ),
                forall|x: u32| #[trigger] mid.refs_at(x) + 16 < 0xFFFF_FFFF,
            decreases 8 - k,
        {
            let child = node.get(sels[k]);
            let ghost sk = *self;
            proof {
                lemma_count_le_len(node@.take(k as int), child);
                assert(node@.take(k as int).len() == k);
                assert(old(self).live(node@[k as int]));
                assert((child as nat) < old(self).slots());
                assert(sk.refs_at(child) == mid.refs_at(child) + count_in(
                    node@.take(k as int),
                    child,
                ));
            }
            self.add_ref(child);
            proof {
                assert forall|x: u32|
                    self.refs_at(x) == mid.refs_at(x) + count_in(
                        node@.take(k as int + 1),
                        x,
                    ) by {
                    lemma_count_take_step(node@, k as int, x);
                    assert(sk.refs_at(x) == mid.refs_at(x) + count_in(
                        node@.take(k as int),
                        x,
                    ));
                    assert(self.refs_at(x) == sk.refs_at(x) + (if x == child {
                        1nat
                    } else {
                        0nat
                    }));
                    assert(sels@[k as int].code() == k as int);
                    assert(node@[k as int] == child);
                }
            }
            k = k + 1;
        }
        let ghost s8 = *self;
        self.index_lookup.insert(node, idx);
        proof {
            let nm = self.nodes_map();
            let onm = old(self).nodes_map();
            let lv = self.leaves_seq();
            assert(nm == onm.insert(idx as nat, node@));
            assert(!lv.contains(idx));
            // Accounting: the new slot counts its eight children, nothing
            // else changed.
            assert forall|x: u32|
                self.refs_at(x) == ref_sum(nm, lv, self.slots(), x) + self.roots().count(
                    x,
                ) + count_in(Seq::empty(), x) by {
                assert(node@.take(8) =~= node@);
                assert(s8.refs_at(x) == mid.refs_at(x) + count_in(node@.take(8), x));
                assert(self.refs_at(x) == s8.refs_at(x));
                assert(self.refs_at(x) == mid.refs_at(x) + count_in(node@, x));
                assert(mid.refs_at(x) == old(self).refs_at(x));
                assert forall|j: nat|
                    j < old(self).slots() && j != idx as nat implies slot_refs(
                        nm,
                        lv,
                        j,
                        x,
                    ) == slot_refs(onm, lv, j, x) by {
                    if nm.contains_key(j) {
                        assert(nm[j] == onm[j]);
                    }
                }
                assert(slot_refs(nm, lv, idx as nat, x) == count_in(node@, x));
                assert(slot_refs(onm, lv, idx as nat, x) == 0);
                if (idx as nat) < old(self).slots() {
                    lemma_sum_frame(onm, lv, nm, lv, old(self).slots(), idx as nat, x);
                    assert(self.slots() == old(self).slots());
                } else {
                    lemma_sum_congruent(onm, lv, nm, lv, old(self).slots(), x);
                    assert(idx as nat == old(self).slots());
                    assert(self.slots() == old(self).slots() + 1);
                    assert(ref_sum(nm, lv, self.slots(), x) == ref_sum(
                        nm,
                        lv,
                        old(self).slots(),
                        x,
                    ) + slot_refs(nm, lv, idx as nat, x));
                }
                assert(old(self).refs_at(x) == ref_sum(onm, lv, old(self).slots(), x)
                    + old(self).roots().count(x) + count_in(Seq::empty(), x));
            }
            assert forall|x: u32|
                self.refs_at(x) == old(self).refs_at(x) + count_in(node@, x) by {
                assert(node@.take(8) =~= node@);
                assert(s8.refs_at(x) == mid.refs_at(x) + count_in(node@.take(8), x));
                assert(self.refs_at(x) == s8.refs_at(x));
                assert(mid.refs_at(x) == old(self).refs_at(x));
            }
        }
        proof {
            // The graph stays ranked: the fresh node was ranked one above
            // its highest-ranked non-leaf child on allocation, and the
            // children are old live slots with untouched ranks and leaf
            // statuses.
            let g0 = *old(self);
            if g0.ranked() {
                lemma_max_rank(g0, node@, 8);
                assert forall|j: u32, c: int|
                    self.live(j) && !self.spec_is_leaf(j) && 0 <= c < 8
                        && !self.spec_is_leaf(#[trigger] self.node_at(j)[c] as u32)
                    implies self.rank_of(self.node_at(j)[c] as u32) < self.rank_of(j) by {
                    assert(self.node_rank@ == g0.node_rank@.insert(
                        idx as nat,
                        1 + max_rank_upto(g0, node@, 8),
                    ));
                    if j == idx {
                        let ch = node@[c];
                        assert(g0.live(ch));
                        assert(ch != idx);
                        assert(self.rank_of(ch) == g0.rank_of(ch));
                        assert(g0.rank_of(ch) < 1 + max_rank_upto(g0, node@, 8));
                        assert(self.rank_of(idx) == 1 + max_rank_upto(g0, node@, 8));
                    } else {
                        assert(g0.live(j));
                        assert(self.node_at(j) == g0.node_at(j));
                        let ch = g0.node_at(j)[c];
                        assert(g0.live(ch));
                        assert(ch != idx);
                        assert(self.rank_of(ch) == g0.rank_of(ch));
                        assert(self.rank_of(j) == g0.rank_of(j));
                    }
                }
            }
        }
        idx
    }

    /// Rebuild the path bottom-up: at every level, a candidate equal to the
    /// old node but with the child along the path replaced by the previous
    /// step's result is either reused through the hash-cons table or
    /// freshly allocated.
    fn propagate_change(&mut self, path: &Vec<Zorder3d>, trail: &Vec<u32>, new_child: u32) -> (res: (
        u32,
        Ghost<Seq<u32>>,
    ))
        requires
            old(self).wf(),
            old(self).has_headroom(path@.len()),
            trail@.len() == path@.len() + 1,
            forall|k: int| 0 <= k <= path@.len() ==> old(self).live(#[trigger] trail@[k]),
            forall|k: int|
                0 <= k < path@.len() ==> #[trigger] trail@[k + 1] == old(self).node_at(
                    trail@[k],
                )[path@[k].code()],
            old(self).live(new_child),
        ensures
            final(self).wf(),
            final(self).live(res.0),
            final(self).spec_descend(res.0, path@) == new_child,
            forall|j: u32|
                old(self).live(j) ==> final(self).live(j) && final(self).node_at(j)
                    == old(self).node_at(j),
            final(self).leaves_seq() == old(self).leaves_seq(),
            final(self).roots() == old(self).roots(),
            old(self).slots() <= final(self).slots() <= old(self).slots() + path@.len(),
            res.1@.len() == path@.len() + 1,
            res.1@[0] == res.0,
            res.1@[path@.len() as int] == new_child,
            forall|m: int| 0 <= m <= path@.len() ==> final(self).live(#[trigger] res.1@[m]),
            forall|m: int|
                0 <= m < path@.len() ==> #[trigger] final(self).node_at(res.1@[m]) == old(
                    self,
                ).node_at(trail@[m]).update(path@[m].code(), res.1@[m + 1]),
            forall|x: u32| final(self).refs_at(x) >= old(self).refs_at(x),
            forall|j: u32|
                final(self).live(j) && !old(self).live(j) ==> exists|m: int|
                    0 <= m < res.1@.len() && res.1@[m] == j,
            old(self).ranked() ==> final(self).ranked(),
    {
        let ghost g0 = *old(self);
        let mut cur = new_child;
        let mut d = path.len();
        let ghost mut chain: Seq<u32> = seq![new_child];
        proof {
            assert(path@.skip(d as int).len() == 0);
        }
        while d > 0
            invariant
                self.wf(),
                d <= path@.len(),
                trail@.len() == path@.len() + 1,
                g0.wf(),
                g0.has_headroom(path@.len()),
                forall|k: int| 0 <= k <= path@.len() ==> g0.live(#[trigger] trail@[k]),
                forall|k: int|
                    0 <= k < path@.len() ==> #[trigger] trail@[k + 1] == g0.node_at(
                        trail@[k],
                    )[path@[k].code()],
                forall|j: u32|
                    g0.live(j) ==> self.live(j) && self.node_at(j) == g0.node_at(j),
                self.leaves_seq() == g0.leaves_seq(),
                self.roots() == g0.roots(),
                g0.slots() <= self.slots() <= g0.slots() + (path@.len() - d),
                self.live(cur),
                self.spec_descend(cur, path@.skip(d as int)) == new_child,
                chain.len() == path@.len() + 1 - d,
                chain[0] == cur,
                chain[chain.len() - 1] == new_child,
                forall|m: int| 0 <= m < chain.len() ==> self.live(#[trigger] chain[m]),
                forall|m: int|
                    0 <= m < chain.len() - 1 ==> #[trigger] self.node_at(chain[m])
                        == g0.node_at(trail@[d + m]).update(
                        path@[d + m].code(),
                        chain[m + 1],
                    ),
                forall|x: u32| self.refs_at(x) >= g0.refs_at(x),
                forall|j: u32|
                    self.live(j) && !g0.live(j) ==> exists|m: int|
                        0 <= m < chain.len() && chain[m] == j,
                g0.ranked() ==> self.ranked(),
            decreases d,
        {
            d = d - 1;
            let old_node = self.node(trail[d]);
            let new_node = old_node.with_child(path[d], cur);
            proof {
                path@[d as int].lemma_code_inverse();
                old_node.lemma_arity();
                assert(old_node@ == g0.node_at(trail@[d as int]));
                assert(new_node@ == old_node@.update(path@[d as int].code(), cur));
                assert forall|c: int| 0 <= c < 8 implies self.live(
                    #[trigger] new_node@[c],
                ) by {
                    if c == path@[d as int].code() {
                        assert(new_node@[c] == cur);
                    } else {
                        assert(new_node@[c] == old_node@[c]);
                        assert(self.nodes_map().contains_key(
                            (self.nodes_map()[trail@[d as int] as nat][c]) as nat,
                        ));
                    }
                }
            }
            let found = self.find_index(&new_node);
            let ghost before = *self;
            let next = match found {
                Some(i) => i,
                None => {
                    proof {
                        // Absent from the table: no live node holds this
                        // content, so the candidate must be allocated.
                        if self.table().contains_key(new_node@) {
                            assert(self.nodes_map().contains_key(
                                self.table()[new_node@] as nat,
                            ));
                            assert(self.node_at(self.table()[new_node@])
                                == new_node@);
                        }
                    }
                    self.add_node(new_node)
                },
            };
            proof {
                assert(self.node_at(next) == new_node@);
                assert(self.node_at(next)[path@[d as int].code()] == cur);
                lemma_descend_frame(
                    before.nodes_map(),
                    self.nodes_map(),
                    cur,
                    path@.skip(d + 1 as int),
                );
                assert(path@.skip(d as int)[0] == path@[d as int]);
                assert(path@.skip(d as int).skip(1) =~= path@.skip(d + 1 as int));
                assert(self.spec_descend(next, path@.skip(d as int)) == map_descend(
                    self.nodes_map(),
                    cur,
                    path@.skip(d + 1 as int),
                ));
                // The chain entries built so far survive this allocation
                // untouched.
                let grown = seq![next] + chain;
                assert forall|m: int| 0 <= m < grown.len() implies self.live(
                    #[trigger] grown[m],
                ) by {
                    if m > 0 {
                        assert(grown[m] == chain[m - 1]);
                        assert(before.live(chain[m - 1]));
                    }
                }
                assert forall|m: int|
                    0 <= m < grown.len() - 1 implies #[trigger] self.node_at(grown[m])
                        == g0.node_at(trail@[d + m]).update(
                        path@[d + m].code(),
                        grown[m + 1],
                    ) by {
                    if m == 0 {
                        assert(grown[1] == chain[0]);
                    } else {
                        assert(grown[m] == chain[m - 1]);
                        assert(grown[m + 1] == chain[m]);
                        assert(before.live(chain[m - 1]));
                        assert(self.node_at(chain[m - 1]) == before.node_at(chain[m - 1]));
                    }
                }
                // Everything newly live is on the chain: this iteration
                // added at most `next`, and the rest was already accounted.
                assert forall|j: u32| self.live(j) && !g0.live(j) implies exists|m: int|
                    0 <= m < grown.len() && grown[m] == j by {
                    if j == next {
                        assert(grown[0] == j);
                    } else {
                        assert(before.live(j));
                        let m0 = choose|m: int|
                            0 <= m < chain.len() && chain[m] == j;
                        assert(grown[m0 + 1] == j);
                    }
                }
                chain = grown;
            }
            cur = next;
        }
        proof {
            assert(path@.skip(0) =~= path@);
        }
        (cur, Ghost(chain))
    }


    /// Take back one reference to `idx`. A non-leaf whose count reaches
    /// zero is freed: its slot vacated, its table entry removed, and one
    /// reference to each of its eight children taken back in turn, via an
    /// explicit work stack rather than recursion.
    fn decrement_ref(&mut self, idx: u32)
        requires
            old(self).wf_core(),
            old(self).rc_pending(seq![idx]),
            old(self).live(idx),
            old(self).counts_positive(),
            old(self).roots_counted(),
        ensures
            final(self).wf(),
            final(self).counts_positive(),
            old(self).ranked() ==> final(self).ranked(),
            final(self).leaves_seq() == old(self).leaves_seq(),
            final(self).roots() == old(self).roots(),
            final(self).slots() == old(self).slots(),
            forall|j: u32|
                final(self).live(j) ==> old(self).live(j) && final(self).node_at(j)
                    == old(self).node_at(j),
            forall|j: u32| old(self).spec_is_leaf(j) ==> final(self).live(j),
    {
        let ghost g0 = *old(self);
        let mut queue: Vec<u32> = Vec::new();
        queue.push(idx);
        proof {
            assert(queue@ =~= seq![idx]);
        }
        let sels = Zorder3d::all();
        while queue.len() > 0
            invariant
                sels@.len() == 8,
                forall|i: int| 0 <= i < 8 ==> #[trigger] sels@[i].code() == i,
                self.wf_core(),
                self.rc_pending(queue@),
                self.counts_positive(),
                g0.ranked() ==> self.ranked(),
                forall|k: int| 0 <= k < queue@.len() ==> self.live(#[trigger] queue@[k]),
                self.leaves_seq() == g0.leaves_seq(),
                self.roots() == g0.roots(),
                self.root_tally == g0.root_tally,
                self.slots() == g0.slots(),
                forall|j: u32|
                    self.live(j) ==> g0.live(j) && self.node_at(j) == g0.node_at(j),
            decreases self.nodes_map().dom().len(), queue@.len(),
        {
            let ghost q_pre = queue@;
            let ghost s_pre = *self;
            let cur = match queue.pop() {
                Some(c) => c,
                None => vstd::pervasive::unreached(),
            };
            proof {
                assert(queue@ =~= q_pre.drop_last());
                assert(cur == q_pre.last());
                assert(count_in(q_pre, cur) >= 1);
                assert(s_pre.refs_at(cur) >= 1);
            }
            let c = self.ref_count[cur as usize];
            self.ref_count[cur as usize] = c - 1;
            let ghost s_dec = *self;
            proof {
                assert forall|x: u32|
                    self.refs_at(x) == ref_sum(
                        self.nodes_map(),
                        self.leaves_seq(),
                        self.slots(),
                        x,
                    ) + self.roots().count(x) + count_in(queue@, x) by {
                    assert(s_pre.refs_at(x) == ref_sum(
                        s_pre.nodes_map(),
                        s_pre.leaves_seq(),
                        s_pre.slots(),
                        x,
                    ) + s_pre.roots().count(x) + count_in(q_pre, x));
                    if x == cur {
                        assert(self.refs_at(x) + 1 == s_pre.refs_at(x));
                        assert(count_in(queue@, x) + 1 == count_in(q_pre, x));
                    } else {
                        assert(self.refs_at(x) == s_pre.refs_at(x));
                        assert(count_in(queue@, x) == count_in(q_pre, x));
                    }
                }
            }
            if c - 1 == 0 && !self.is_leaf(cur) {
                let old_node = self.node(cur);
                let ghost nm = self.nodes_map();
                let ghost lv = self.leaves_seq();
                proof {
                    // A count of zero means no live slot and no root still
                    // reaches this index, and the cascade queue holds no
                    // more copies of it.
                    assert(self.refs_at(cur) == 0);
                    assert(ref_sum(nm, lv, self.slots(), cur) == 0);
                    lemma_sum_zero(nm, lv, self.slots(), cur);
                    assert(count_in(queue@, cur) == 0);
                    assert(self.roots().count(cur) == 0);
                }
                let _ = self.nodes.free(cur);
                let ghost nm2 = self.nodes_map();
                proof {
                    assert(nm2 == nm.remove(cur as nat));
                    // No surviving slot mentions the freed index.
                    assert forall|j: nat, ci: int|
                        nm2.contains_key(j) && 0 <= ci < 8 implies (#[trigger] nm2[j][ci])
                            != cur by {
                        assert(nm2[j] == nm[j]);
                        assert(slot_refs(nm, lv, j, cur) == 0);
                        if !lv.contains(j as u32) {
                            lemma_count_zero(nm[j], cur);
                        } else {
                            assert(nm[j][ci] == j as u32);
                        }
                    }
                }
                self.index_lookup.remove(&old_node);
                proof {
                    let tb = s_dec.table();
                    assert(self.table() == tb.remove(old_node@));
                    // Table and arena stay in bijection.
                    assert forall|cc: Seq<u32>|
                        #[trigger] self.table().contains_key(cc) implies nm2.contains_key(
                            self.table()[cc] as nat,
                        ) && nm2[self.table()[cc] as nat] == cc by {
                        assert(tb.contains_key(cc) && cc != old_node@);
                        if tb[cc] == cur {
                            assert(nm[cur as nat] == cc);
                            assert(false);
                        }
                    }
                    assert forall|j: nat|
                        #[trigger] nm2.contains_key(j) implies self.table().contains_key(
                            nm2[j],
                        ) && self.table()[nm2[j]] == j as u32 by {
                        assert(nm.contains_key(j) && j != cur as nat);
                        if nm[j] == old_node@ {
                            assert(tb[nm[j]] == j as u32);
                            assert(tb[nm[cur as nat]] == cur);
                            assert(false);
                        }
                    }
                }
                let ghost s_freed = *self;
                let ghost q_freed = queue@;
                let mut k: usize = 0;
                while k < 8
                    invariant
                        k <= 8,
                        sels@.len() == 8,
                        forall|i: int| 0 <= i < 8 ==> #[trigger] sels@[i].code() == i,
                        old_node@.len() == 8,
                        *self == s_freed,
                        queue@ == q_freed + old_node@.take(k as int).map_values(|v: u32| v),
                        queue@.len() == q_freed.len() + k,
                        forall|m: int|
                            0 <= m < queue@.len() ==> #[trigger] queue@[m] == (if m
                                < q_freed.len() {
                                q_freed[m]
                            } else {
                                old_node@[m - q_freed.len()]
                            }),
                    decreases 8 - k,
                {
                    queue.push(old_node.get(sels[k]));
                    proof {
                        assert(old_node@.take(k as int + 1).drop_last() =~= old_node@.take(
                            k as int,
                        ));
                        assert(queue@.drop_last() =~= (q_freed + old_node@.take(
                            k as int,
                        ).map_values(|v: u32| v)));
                        assert(queue@ =~= q_freed + old_node@.take(k as int + 1).map_values(
                            |v: u32| v,
                        ));
                    }
                    k = k + 1;
                }
                proof {
                    assert(old_node@.take(8) =~= old_node@);
                    // The freed node's eight children are now queued; the
                    // books balance again.
                    assert forall|x: u32|
                        self.refs_at(x) == ref_sum(nm2, lv, self.slots(), x)
                            + self.roots().count(x) + count_in(queue@, x) by {
                        lemma_sum_frame(nm, lv, nm2, lv, self.slots(), cur as nat, x);
                        assert(slot_refs(nm, lv, cur as nat, x) == count_in(old_node@, x));
                        assert(slot_refs(nm2, lv, cur as nat, x) == 0);
                        assert forall|j: nat|
                            j < self.slots() && j != cur as nat implies slot_refs(
                                nm2,
                                lv,
                                j,
                                x,
                            ) == slot_refs(nm, lv, j, x) by {
                            if nm2.contains_key(j) {
                                assert(nm2[j] == nm[j]);
                            }
                        }
                        lemma_queue_count(q_freed, old_node@, queue@, x);
                        assert(s_dec.refs_at(x) == ref_sum(nm, lv, s_dec.slots(), x)
                            + s_dec.roots().count(x) + count_in(q_freed, x));
                        assert(self.refs_at(x) == s_dec.refs_at(x));
                    }
                    // Queue entries stay live: the freed index queued no
                    // copy of itself.
                    assert forall|m: int| 0 <= m < queue@.len() implies self.live(
                        #[trigger] queue@[m],
                    ) by {
                        if m < q_freed.len() {
                            assert(queue@[m] == q_freed[m]);
                            assert(count_in(q_freed, cur) == 0);
                            lemma_count_zero(q_freed, cur);
                            assert(q_freed[m] != cur);
                            assert(s_dec.live(q_freed[m]));
                        } else {
                            assert(queue@[m] == old_node@[m - q_freed.len()]);
                            assert(nm.contains_key((old_node@[m - q_freed.len()]) as nat));
                            assert(count_in(old_node@, cur) == 0) by {
                                assert(slot_refs(nm, lv, cur as nat, cur) == 0);
                            }
                            lemma_count_zero(old_node@, cur);
                        }
                    }
                    // The sorted leaf set survives: the freed index was no
                    // leaf.
                    assert forall|m: int|
                        0 <= m < self.leaves_seq().len() implies nm2.contains_key(
                            (#[trigger] self.leaves_seq()[m]) as nat,
                        ) by {
                        assert(self.leaves_seq()[m] == lv[m]);
                        assert(lv.contains(lv[m]));
                        assert(nm.contains_key(lv[m] as nat));
                        assert(lv[m] != cur);
                    }
                    broadcast use vstd::set::group_set_axioms;

                    assert(nm2.dom() =~= nm.dom().remove(cur as nat));
                    assert(nm2.dom().len() < nm.dom().len());
                    // Only the freed slot left the live set, and only its
                    // count changed; everything else keeps a positive count.
                    assert forall|j: u32|
                        self.live(j) && !self.spec_is_leaf(j) implies self.refs_at(j)
                            >= 1 by {
                        assert(j != cur);
                        assert(s_pre.live(j) && !s_pre.spec_is_leaf(j));
                        assert(self.refs_at(j) == s_pre.refs_at(j));
                    }
                    if g0.ranked() {
                        assert forall|j: u32, c: int|
                            self.live(j) && !self.spec_is_leaf(j) && 0 <= c < 8
                                && !self.spec_is_leaf(
                                #[trigger] self.node_at(j)[c] as u32,
                            ) implies self.rank_of(self.node_at(j)[c] as u32)
                                < self.rank_of(j) by {
                            assert(s_pre.live(j) && !s_pre.spec_is_leaf(j));
                            assert(self.node_at(j) == s_pre.node_at(j));
                            assert(!s_pre.spec_is_leaf(s_pre.node_at(j)[c] as u32));
                            assert(self.node_rank == s_pre.node_rank);
                        }
                    }
                }
            } else {
                proof {
                    // Nothing was freed: either the slot is a leaf (exempt)
                    // or its count stayed positive.
                    assert forall|j: u32|
                        self.live(j) && !self.spec_is_leaf(j) implies self.refs_at(j)
                            >= 1 by {
                        if j == cur {
                            assert(self.refs_at(cur) == c - 1);
                        } else {
                            assert(self.refs_at(j) == s_pre.refs_at(j));
                        }
                    }
                    if g0.ranked() {
                        assert forall|j: u32, ci: int|
                            self.live(j) && !self.spec_is_leaf(j) && 0 <= ci < 8
                                && !self.spec_is_leaf(
                                #[trigger] self.node_at(j)[ci] as u32,
                            ) implies self.rank_of(self.node_at(j)[ci] as u32)
                                < self.rank_of(j) by {
                            assert(s_pre.live(j) && !s_pre.spec_is_leaf(j));
                            assert(self.node_at(j) == s_pre.node_at(j));
                            assert(!s_pre.spec_is_leaf(s_pre.node_at(j)[ci] as u32));
                            assert(self.node_rank == s_pre.node_rank);
                        }
                    }
                }
            }
        }
        proof {
            assert forall|j: u32| g0.spec_is_leaf(j) implies self.live(j) by {
                let m = choose|m: int|
                    0 <= m < g0.leaves_seq().len() && g0.leaves_seq()[m] == j;
                assert(self.leaves_seq()[m] == j);
                assert(self.nodes_map().contains_key(self.leaves_seq()[m] as nat));
            }
        }
    }



    /// After the bottom-up rebuild and the root exchange, every live
    /// non-leaf is referenced: old slots keep their (only grown) counts,
    /// and each rebuilt chain slot is the rooted new head, the written
    /// value, a leaf, or a child of a live non-leaf chain parent.
    proof fn lemma_rebuild_counts_positive(
        g0: SparseDirectedGraph,
        s1: SparseDirectedGraph,
        s3: SparseDirectedGraph,
        trail: Seq<u32>,
        chain: Seq<u32>,
        path: Seq<Zorder3d>,
        new_head: u32,
        new_idx: u32,
    )
        requires
            g0.wf(),
            g0.counts_positive(),
            s1.wf(),
            trail.len() == path.len() + 1,
            chain.len() == path.len() + 1,
            chain[0] == new_head,
            chain[path.len() as int] == new_idx,
            g0.live(new_idx),
            forall|j: u32| g0.live(j) ==> s1.live(j) && s1.node_at(j) == g0.node_at(j),
            s1.leaves_seq() == g0.leaves_seq(),
            forall|x: u32| s1.refs_at(x) >= g0.refs_at(x),
            forall|j: u32|
                s1.live(j) && !g0.live(j) ==> exists|m: int|
                    0 <= m < chain.len() && chain[m] == j,
            forall|m: int| 0 <= m <= path.len() ==> s1.live(#[trigger] chain[m]),
            forall|m: int| 0 <= m <= path.len() ==> g0.live(#[trigger] trail[m]),
            forall|m: int|
                0 <= m < path.len() ==> #[trigger] s1.node_at(chain[m]) == g0.node_at(
                    trail[m],
                ).update(path[m].code(), chain[m + 1]),
            s3.nodes_map() == s1.nodes_map(),
            s3.slots() == s1.slots(),
            s3.leaves_seq() == s1.leaves_seq(),
            forall|x: u32|
                s3.refs_at(x) == s1.refs_at(x) + (if x == new_head {
                    1nat
                } else {
                    0nat
                }),
        ensures
            s3.counts_positive(),
    {
        assert forall|j: u32|
            s3.live(j) && !s3.spec_is_leaf(j) implies s3.refs_at(j) >= 1 by {
            if g0.live(j) {
                assert(s1.refs_at(j) >= g0.refs_at(j));
                assert(g0.refs_at(j) >= 1);
            } else {
                let m = choose|m: int| 0 <= m < chain.len() && chain[m] == j;
                if m == path.len() {
                    assert(chain[m] == new_idx);
                    assert(false);
                } else if m == 0 {
                    assert(j == new_head);
                } else {
                    let p = chain[m - 1];
                    assert(s1.live(p));
                    assert(s1.node_at(p) == g0.node_at(trail[m - 1]).update(
                        path[m - 1].code(),
                        chain[m],
                    ));
                    path[m - 1].lemma_code_inverse();
                    assert(s1.node_at(p)[path[m - 1].code()] == j);
                    if s1.spec_is_leaf(p) {
                        let w = choose|w: int|
                            0 <= w < s1.leaves_seq().len() && s1.leaves_seq()[w] == p;
                        assert(s1.nodes_map()[s1.leaves_seq()[w] as nat][path[m
                            - 1].code()] == s1.leaves_seq()[w]);
                        assert(j == p);
                        assert(s3.spec_is_leaf(j));
                        assert(false);
                    } else {
                        let nm1 = s1.nodes_map();
                        let lv1 = s1.leaves_seq();
                        assert(count_in(nm1[p as nat], j) >= 1) by {
                            lemma_count_zero(nm1[p as nat], j);
                        }
                        assert(slot_refs(nm1, lv1, p as nat, j) >= 1);
                        assert((p as nat) < s1.slots());
                        lemma_sum_at_least_slot(nm1, lv1, s1.slots(), p as nat, j);
                        assert(s1.refs_at(j) == ref_sum(nm1, lv1, s1.slots(), j)
                            + s1.roots().count(j) + count_in(Seq::empty(), j));
                    }
                }
            }
        }
    }

    /// The sole mutation entry point: a copy-on-write, bottom-up,
    /// deduplicating rebuild of `path` from `head`, pointing the addressed
    /// cell at `new_idx`. Returns the new head, acquiring one root
    /// reference on it and releasing the caller's root reference on `head`
    /// (cascading reclamation of whatever becomes unreachable). Writing a
    /// value that is already there changes nothing and returns `head`.
    #[verifier::rlimit(100)]
    pub fn set_node(&mut self, head: u32, path: &Vec<Zorder3d>, new_idx: u32) -> (r: u32)
        requires
            old(self).wf(),
            old(self).counts_positive(),
            old(self).live(head),
            old(self).live(new_idx),
            old(self).roots().count(head) >= 1,
            old(self).has_headroom(path@.len() + 1),
        ensures
            final(self).wf(),
            final(self).counts_positive(),
            old(self).ranked() ==> final(self).ranked(),
            final(self).live(r),
            final(self).live(new_idx),
            final(self).spec_descend(r, path@) == new_idx,
            final(self).roots() == old(self).roots().remove(head).insert(r),
            old(self).spec_descend(head, path@) == new_idx ==> r == head && *final(self)
                == *old(self),
            final(self).roots().len() == old(self).roots().len(),
            forall|x: u32| final(self).spec_is_leaf(x) == old(self).spec_is_leaf(x),
            forall|x: u32|
                old(self).spec_is_leaf(x) ==> final(self).live(x) && final(self).node_at(x)
                    == old(self).node_at(x),
            forall|j: u32|
                final(self).live(j) && old(self).live(j) ==> final(self).node_at(j)
                    == old(self).node_at(j),
            old(self).slots() <= final(self).slots() <= old(self).slots() + path@.len(),
            forall|path2: Seq<Zorder3d>, k: int|
                #![trigger path2[k], final(self).spec_descend(r, path2)]
                (0 <= k < path@.len() && k < path2.len() && (forall|m: int|
                    0 <= m < k ==> path2[m] == path@[m]) && path2[k] != path@[k])
                    ==> final(self).spec_descend(r, path2) == old(self).spec_descend(
                    head,
                    path2,
                ),
            forall|path2: Seq<Zorder3d>|
                #![trigger final(self).spec_descend(r, path2)]
                (path2.len() >= path@.len() && path2.take(path@.len() as int) == path@)
                    ==> final(self).spec_descend(r, path2) == old(self).spec_descend(
                    new_idx,
                    path2.skip(path@.len() as int),
                ),
    {
        proof {
            broadcast use vstd::multiset::group_multiset_axioms;
            broadcast use vstd::multiset::group_multiset_properties;

        }
        let trail = self.get_trail(head, path);
        let last = trail[path.len()];
        proof {
            self.lemma_trail_is_descend(trail@, path@, 0);
            assert(path@.skip(0) =~= path@);
            assert(last == self.spec_descend(head, path@));
        }
        if last == new_idx {
            proof {
                let rr = old(self).roots();
                assert(rr.remove(head).insert(head) =~= rr);
                assert forall|path2: Seq<Zorder3d>|
                    path2.len() >= path@.len() && path2.take(path@.len() as int) == path@
                    implies self.spec_descend(head, path2) == self.spec_descend(
                        new_idx,
                        path2.skip(path@.len() as int),
                    ) by {
                    assert(path2 =~= path@ + path2.skip(path@.len() as int));
                    lemma_descend_concat(
                        self.nodes_map(),
                        head,
                        path@,
                        path2.skip(path@.len() as int),
                    );
                }
            }
            return head;
        }
        let (new_head, chain) = self.propagate_change(path, &trail, new_idx);
        let ghost s1 = *self;
        proof {
            assert forall|x: u32| s1.refs_at(x) + 16 < 0xFFFF_FFFF by {
                s1.lemma_refs_bounded(x);
            }
        }
        self.add_ref(new_head);
        let ghost s2 = *self;
        proof {
            broadcast use vstd::multiset::group_multiset_axioms;
            broadcast use vstd::multiset::group_multiset_properties;

            self.root_refs@ = self.root_refs@.insert(new_head).remove(head);
            let s3 = *self;
            // Structure is untouched by the count bump and the ghost root
            // exchange; roots stay live because the new head is rooted.
            assert(s3.nodes_map() == s1.nodes_map());
            assert(s3.table() == s1.table());
            assert(s3.leaves_seq() == s1.leaves_seq());
            assert(s3.slots() == s1.slots());
            assert(s3.wf_core()) by {
                assert forall|x: u32|
                    #[trigger] s3.roots().count(x) > 0 implies s3.nodes_map().contains_key(
                        x as nat,
                    ) by {
                    if x != new_head && x != head {
                        assert(s3.roots().count(x) == s1.roots().count(x));
                    }
                    if s1.roots().count(x) > 0 {
                        assert(s1.nodes_map().contains_key(x as nat));
                    }
                }
            }
            // One pending decrement on the old head balances the books.
            assert forall|x: u32|
                #[trigger] s3.refs_at(x) == ref_sum(
                    s3.nodes_map(),
                    s3.leaves_seq(),
                    s3.slots(),
                    x,
                ) + s3.roots().count(x) + count_in(seq![head], x) by {
                assert(s1.refs_at(x) == ref_sum(
                    s1.nodes_map(),
                    s1.leaves_seq(),
                    s1.slots(),
                    x,
                ) + s1.roots().count(x) + count_in(Seq::empty(), x));
                assert(s2.refs_at(x) == s1.refs_at(x) + (if x == new_head {
                    1nat
                } else {
                    0nat
                }));
                assert(s3.refs_at(x) == s2.refs_at(x));
                assert(count_in(seq![head], x) == (if x == head {
                    1nat
                } else {
                    0nat
                })) by {
                    assert(seq![head].drop_last() =~= Seq::<u32>::empty());
                }
                if x == head && x == new_head {
                } else if x == head {
                    assert(s3.roots().count(x) + 1 == s1.roots().count(x));
                } else if x == new_head {
                    assert(s3.roots().count(x) == s1.roots().count(x) + 1);
                } else {
                    assert(s3.roots().count(x) == s1.roots().count(x));
                }
            }
            // The root multiset keeps its size through the exchange, so
            // the executable counter stays in step.
            let rr1 = s1.roots();
            let mm = rr1.insert(new_head);
            assert(s3.roots() == mm.remove(head));
            assert(mm.count(head) >= 1);
            assert(mm =~= mm.remove(head).insert(head));
            assert(mm.len() == mm.remove(head).len() + 1);
            assert(mm.len() == rr1.len() + 1);
            assert(s3.roots().len() == rr1.len());
            assert(s3.root_tally == s1.root_tally);
            assert(s3.roots_counted());
            if old(self).ranked() {
                assert(s3.nodes_map() == s1.nodes_map());
                assert(s3.leaves_seq() == s1.leaves_seq());
                assert(s3.node_rank == s1.node_rank);
                assert forall|j: u32, c: int|
                    s3.live(j) && !s3.spec_is_leaf(j) && 0 <= c < 8 && !s3.spec_is_leaf(
                        #[trigger] s3.node_at(j)[c] as u32,
                    ) implies s3.rank_of(s3.node_at(j)[c] as u32) < s3.rank_of(j) by {
                    assert(s1.live(j) && !s1.spec_is_leaf(j));
                    assert(s1.node_at(j) == s3.node_at(j));
                    assert(!s1.spec_is_leaf(s1.node_at(j)[c] as u32));
                }
            }
            assert(s3.live(head));
            assert forall|x: u32|
                s3.refs_at(x) == s1.refs_at(x) + (if x == new_head {
                    1nat
                } else {
                    0nat
                }) by {
                assert(s2.refs_at(x) == s1.refs_at(x) + (if x == new_head {
                    1nat
                } else {
                    0nat
                }));
                assert(s3.refs_at(x) == s2.refs_at(x));
            }
            Self::lemma_rebuild_counts_positive(
                *old(self),
                s1,
                s3,
                trail@,
                chain@,
                path@,
                new_head,
                new_idx,
            );
            assert(s3.counts_positive());
        }
        let ghost s3 = *self;
        self.decrement_ref(head);
        proof {
            broadcast use vstd::multiset::group_multiset_axioms;
            broadcast use vstd::multiset::group_multiset_properties;

            // The new head survives the cascade (it is rooted), and descent
            // below it reads only surviving slots, so the rebuilt path still
            // leads to the written value.
            assert(self.roots().count(new_head) > 0);
            assert(self.live(new_head));
            assert forall|k: nat| #[trigger] self.nodes_map().contains_key(k)
                implies s3.nodes_map().contains_key(k) && s3.nodes_map()[k]
                == self.nodes_map()[k] by {
                assert(k < self.slots());
                let j = k as u32;
                assert(j as nat == k);
                assert(self.live(j));
                assert(s3.live(j) && self.node_at(j) == s3.node_at(j));
            }
            lemma_descend_frame(self.nodes_map(), s3.nodes_map(), new_head, path@);
            assert(self.spec_descend(new_head, path@) == new_idx);
            lemma_descend_live(self.nodes_map(), new_head, path@);
            assert(self.roots() =~= old(self).roots().remove(head).insert(new_head));
            // The root multiset keeps its size: one reference released, one
            // acquired.
            let rr = old(self).roots();
            assert(rr =~= rr.remove(head).insert(head));
            assert(rr.len() == rr.remove(head).len() + 1);
            assert(self.roots().len() == rr.remove(head).len() + 1);
            // Copy-on-write preservation: any path that diverges from the
            // edited one reads exactly what it did before the edit.
            assert(closed_map(self.nodes_map()));
            assert(closed_map(old(self).nodes_map()));
            assert(s3.nodes_map() == s1.nodes_map());
            assert forall|j: u32|
                self.nodes_map().contains_key(j as nat) && old(self).nodes_map().contains_key(
                    j as nat,
                ) implies self.nodes_map()[j as nat] == old(self).nodes_map()[j as nat] by {
                assert(self.live(j) && old(self).live(j));
                assert(s3.live(j) && self.node_at(j) == s3.node_at(j));
                assert(s1.live(j));
                assert(s1.node_at(j) == old(self).node_at(j));
            }
            assert forall|m: int|
                0 <= m < path@.len() && self.live(#[trigger] chain@[m]) implies self.node_at(
                    chain@[m],
                ) == old(self).node_at(trail@[m]).update(path@[m].code(), chain@[m + 1]) by {
                assert(s3.live(chain@[m]) && self.node_at(chain@[m]) == s3.node_at(
                    chain@[m],
                ));
                assert(s1.node_at(chain@[m]) == old(self).node_at(trail@[m]).update(
                    path@[m].code(),
                    chain@[m + 1],
                ));
            }
            assert forall|path2: Seq<Zorder3d>, k: int|
                0 <= k < path@.len() && k < path2.len() && (forall|m: int|
                    0 <= m < k ==> path2[m] == path@[m]) && path2[k] != path@[k]
                implies self.spec_descend(new_head, path2) == old(self).spec_descend(
                    head,
                    path2,
                ) by {
                lemma_divergent_descend(
                    self.nodes_map(),
                    old(self).nodes_map(),
                    trail@,
                    chain@,
                    path@,
                    path2,
                    0,
                    k,
                );
                assert(path2.skip(0) =~= path2);
            }
            // A path extending the edited one continues from the written
            // value, whose subtree the edit left untouched.
            assert forall|path2: Seq<Zorder3d>|
                path2.len() >= path@.len() && path2.take(path@.len() as int) == path@
                implies self.spec_descend(new_head, path2) == old(self).spec_descend(
                    new_idx,
                    path2.skip(path@.len() as int),
                ) by {
                let ext = path2.skip(path@.len() as int);
                assert(path2 =~= path@ + ext);
                lemma_descend_concat(self.nodes_map(), new_head, path@, ext);
                lemma_descend_agree(
                    self.nodes_map(),
                    old(self).nodes_map(),
                    new_idx,
                    ext,
                );
            }
        }
        new_head
    }


    /// Unregister the leaf `leaf`, which must be completely unreferenced:
    /// its slot is vacated, its table entry removed, and its index taken
    /// out of the sorted leaf set.
    pub fn _remove_leaf(&mut self, leaf: u32)
        requires
            old(self).wf(),
            old(self).spec_is_leaf(leaf),
            old(self).refs_at(leaf) == 0,
        ensures
            final(self).wf(),
            !final(self).live(leaf),
            forall|x: u32|
                final(self).spec_is_leaf(x) <==> old(self).spec_is_leaf(x) && x != leaf,
            forall|j: u32| #[trigger] final(self).live(j) <==> old(self).live(j) && j != leaf,
            forall|j: u32|
                final(self).live(j) ==> final(self).node_at(j) == old(self).node_at(j),
            forall|x: u32| final(self).refs_at(x) == old(self).refs_at(x),
            final(self).roots() == old(self).roots(),
            final(self).slots() == old(self).slots(),
            old(self).counts_positive() ==> final(self).counts_positive(),
            old(self).ranked() ==> final(self).ranked(),
    {
        let ghost g0 = *old(self);
        let ghost lv = g0.leaves_seq();
        let ghost nm = g0.nodes_map();
        let n = self.leaves.len();
        let mut p: usize = 0;
        while p < n && self.leaves[p] != leaf
            invariant
                *self == g0,
                n == self.leaves@.len(),
                p <= n,
                forall|k: int| 0 <= k < p ==> #[trigger] self.leaves@[k] != leaf,
                self.leaves@.contains(leaf),
            decreases n - p,
        {
            p = p + 1;
        }
        proof {
            if p == n {
                let w = choose|w: int| 0 <= w < lv.len() && lv[w] == leaf;
                assert(false);
            }
            assert(lv[p as int] == leaf);
            // An unreferenced leaf: no live slot and no root reaches it.
            assert(ref_sum(nm, lv, g0.slots(), leaf) == 0);
            lemma_sum_zero(nm, lv, g0.slots(), leaf);
            assert(g0.roots().count(leaf) == 0);
        }
        let old_node = self.node(leaf);
        let _ = self.nodes.free(leaf);
        let ghost nm2 = self.nodes_map();
        proof {
            assert(nm2 == nm.remove(leaf as nat));
            // No surviving slot mentions the removed leaf.
            assert forall|j: nat, ci: int|
                nm2.contains_key(j) && 0 <= ci < 8 implies (#[trigger] nm2[j][ci]) != leaf by {
                assert(nm2[j] == nm[j]);
                assert(slot_refs(nm, lv, j, leaf) == 0);
                if !lv.contains(j as u32) {
                    lemma_count_zero(nm[j], leaf);
                } else {
                    let w = choose|w: int| 0 <= w < lv.len() && lv[w] == j as u32;
                    assert(nm[j][ci] == j as u32);
                }
            }
        }
        self.index_lookup.remove(&old_node);
        let ghost tb = g0.table();
        self.leaves.remove(p);
        proof {
            let lv2 = self.leaves_seq();
            assert(lv2 == lv.remove(p as int));
            // Strictly sorted, so the removed index occurs exactly once.
            assert forall|x: u32| lv2.contains(x) <==> lv.contains(x) && x != leaf by {
                if lv2.contains(x) {
                    let k = choose|k: int| 0 <= k < lv2.len() && lv2[k] == x;
                    if k < p {
                        assert(lv[k] == x);
                        assert(lv[k] != lv[p as int]);
                    } else {
                        assert(lv[k + 1] == x);
                        assert(lv[k + 1] != lv[p as int]);
                    }
                }
                if lv.contains(x) && x != leaf {
                    let k = choose|k: int| 0 <= k < lv.len() && lv[k] == x;
                    assert(k != p);
                    if k < p {
                        assert(lv2[k] == x);
                    } else {
                        assert(lv2[k - 1] == x);
                    }
                }
            }
            assert forall|a: int, b: int|
                0 <= a < b < lv2.len() implies #[trigger] lv2[a] < #[trigger] lv2[b] by {
                let ma: int = if a < p { a } else { a + 1 };
                let mb: int = if b < p { b } else { b + 1 };
                assert(lv2[a] == lv[ma]);
                assert(lv2[b] == lv[mb]);
            }
            // The table stays a bijection with the surviving slots.
            assert forall|cc: Seq<u32>|
                #[trigger] self.table().contains_key(cc) implies nm2.contains_key(
                    self.table()[cc] as nat,
                ) && nm2[self.table()[cc] as nat] == cc by {
                assert(tb.contains_key(cc) && cc != old_node@);
                if tb[cc] == leaf {
                    assert(nm[leaf as nat] == cc);
                    assert(false);
                }
            }
            assert forall|j: nat|
                #[trigger] nm2.contains_key(j) implies self.table().contains_key(nm2[j])
                    && self.table()[nm2[j]] == j as u32 by {
                assert(nm.contains_key(j) && j != leaf as nat);
                if nm[j] == old_node@ {
                    assert(tb[nm[j]] == j as u32);
                    assert(tb[nm[leaf as nat]] == leaf);
                    assert(false);
                }
            }
            // Sums are unchanged: the leaf slot counted nothing before and
            // is gone now, and the leaf test of every other slot is as it
            // was.
            assert forall|x: u32|
                self.refs_at(x) == ref_sum(nm2, lv2, self.slots(), x) + self.roots().count(
                    x,
                ) + count_in(Seq::empty(), x) by {
                assert forall|j: nat|
                    j < g0.slots() && j != leaf as nat implies slot_refs(nm2, lv2, j, x)
                        == slot_refs(nm, lv, j, x) by {
                    if nm2.contains_key(j) {
                        assert(nm2[j] == nm[j]);
                    }
                    assert(lv2.contains(j as u32) <==> lv.contains(j as u32));
                }
                assert(slot_refs(nm, lv, leaf as nat, x) == 0);
                assert(slot_refs(nm2, lv2, leaf as nat, x) == 0);
                lemma_sum_frame(nm, lv, nm2, lv2, g0.slots(), leaf as nat, x);
                assert(g0.refs_at(x) == ref_sum(nm, lv, g0.slots(), x) + g0.roots().count(
                    x,
                ) + count_in(Seq::empty(), x));
                assert(self.refs_at(x) == g0.refs_at(x));
            }
            if g0.counts_positive() {
                assert forall|j: u32|
                    self.live(j) && !self.spec_is_leaf(j) implies self.refs_at(j) >= 1 by {
                    assert(j != leaf);
                    assert(g0.live(j) && !g0.spec_is_leaf(j));
                    assert(self.refs_at(j) == g0.refs_at(j));
                }
            }
            if g0.ranked() {
                assert forall|j: u32, ci: int|
                    self.live(j) && !self.spec_is_leaf(j) && 0 <= ci < 8
                        && !self.spec_is_leaf(#[trigger] self.node_at(j)[ci] as u32)
                    implies self.rank_of(self.node_at(j)[ci] as u32) < self.rank_of(
                        j,
                    ) by {
                    assert(j != leaf);
                    assert(g0.live(j));
                    assert(self.node_at(j) == g0.node_at(j));
                    let ch = g0.node_at(j)[ci] as u32;
                    assert(ch != leaf);
                    assert(self.spec_is_leaf(ch) == g0.spec_is_leaf(ch));
                    assert(self.spec_is_leaf(j) == g0.spec_is_leaf(j));
                    assert(self.node_rank == g0.node_rank);
                }
            }
        }
    }

    /// How many root references the callers hold, over all indices.
    pub fn root_count(&self) -> (r: usize)
        requires
            self.wf(),
        ensures
            r as nat == self.roots().len(),
    {
        self.root_tally
    }

    /// Whether slot `idx` is live (occupied by a node).
    pub fn is_occupied(&self, idx: u32) -> (r: bool)
        ensures
            r == self.live(idx),
    {
        self.nodes.is_occupied(idx)
    }

    /// The size of the arena's backing storage, in node slots.
    pub fn slot_count(&self) -> (r: usize)
        ensures
            r == self.slots(),
    {
        self.nodes.len()
    }

    /// Drop the free tail of the storage. Callers may only do this while
    /// the live slots are already contiguous from slot zero — otherwise
    /// indices would be remapped under the graph. The pool itself is never
    /// shrunk (see the arena module): the live prefix is copied into a
    /// fresh pool slot by slot, which then replaces the old one.
    pub fn trim(&mut self)
        requires
            old(self).wf(),
            forall|j: nat, m: nat|
                old(self).nodes_map().contains_key(j) && m < j ==> old(
                    self,
                ).nodes_map().contains_key(m),
        ensures
            final(self).wf(),
            final(self).nodes_map() == old(self).nodes_map(),
            final(self).leaves_seq() == old(self).leaves_seq(),
            final(self).table() == old(self).table(),
            final(self).roots() == old(self).roots(),
            forall|x: u32| final(self).refs_at(x) == old(self).refs_at(x),
            forall|k: nat|
                final(self).nodes_map().contains_key(k) <==> k < final(self).slots(),
            final(self).slots() <= old(self).slots(),
            old(self).counts_positive() ==> final(self).counts_positive(),
            old(self).ranked() ==> final(self).ranked(),
    {
        let ghost g0 = *old(self);
        let total = self.nodes.len();
        let mut n: usize = 0;
        while n < total && self.nodes.is_occupied(n as u32)
            invariant
                *self == g0,
                total == g0.slots(),
                total <= 0xFFFF_FFFF,
                n <= total,
                forall|m: nat| m < n ==> g0.nodes_map().contains_key(m),
            decreases total - n,
        {
            n = n + 1;
        }
        proof {
            // The live slots are exactly the prefix below `n`: everything
            // below is occupied by the scan, and a live slot at or above
            // `n` would, by the downward closure of occupancy, make slot
            // `n` itself live — but the scan stopped on a free slot (or on
            // the end of the storage, above every slot).
            assert forall|k: nat| g0.nodes_map().contains_key(k) implies k < n as nat by {
                if k >= n as nat && (n as nat) < g0.slots() {
                    assert(g0.nodes_map().contains_key(n as nat));
                }
            }
        }
        let mut fresh = NodeArena::new();
        let mut k: usize = 0;
        while k < n
            invariant
                *self == g0,
                g0.wf(),
                n <= total,
                total == g0.slots(),
                total <= 0xFFFF_FFFF,
                forall|m: nat| m < n ==> g0.nodes_map().contains_key(m),
                k <= n,
                arena_wf(fresh),
                arena_slots(fresh) == k,
                forall|m: nat| arena_contents(fresh).contains_key(m) <==> m < k,
                forall|m: nat|
                    m < k ==> arena_contents(fresh)[m] == #[trigger] g0.nodes_map()[m],
            decreases n - k,
        {
            let node = self.nodes.get(k as u32);
            let _ = fresh.write(k as u32, node);
            k = k + 1;
        }
        self.nodes = fresh;
        proof {
            assert(self.nodes_map() =~= g0.nodes_map());
            assert(self.slots() == n);
            assert(self.index_lookup == g0.index_lookup);
            assert(self.leaves == g0.leaves);
            assert(self.root_refs == g0.root_refs);
            assert(closed_map(self.nodes_map()));
            assert(self.table() == g0.table());
            assert(self.leaves_seq() == g0.leaves_seq());
            assert(self.roots() == g0.roots());
            assert(self.wf_core());
            assert forall|x: u32|
                self.refs_at(x) == ref_sum(
                    self.nodes_map(),
                    self.leaves_seq(),
                    self.slots(),
                    x,
                ) + self.roots().count(x) + count_in(Seq::empty(), x) by {
                lemma_sum_tail_zero(
                    g0.nodes_map(),
                    g0.leaves_seq(),
                    n as nat,
                    g0.slots(),
                    x,
                );
                lemma_sum_congruent(
                    g0.nodes_map(),
                    g0.leaves_seq(),
                    self.nodes_map(),
                    self.leaves_seq(),
                    n as nat,
                    x,
                );
                assert(g0.refs_at(x) == ref_sum(
                    g0.nodes_map(),
                    g0.leaves_seq(),
                    g0.slots(),
                    x,
                ) + g0.roots().count(x) + count_in(Seq::empty(), x));
                assert(self.refs_at(x) == g0.refs_at(x));
            }
            if g0.counts_positive() {
                assert forall|j: u32|
                    self.live(j) && !self.spec_is_leaf(j) implies self.refs_at(j) >= 1 by {
                    assert(g0.live(j) && !g0.spec_is_leaf(j));
                    assert(self.refs_at(j) == g0.refs_at(j));
                }
            }
            if g0.ranked() {
                assert forall|j: u32, ci: int|
                    self.live(j) && !self.spec_is_leaf(j) && 0 <= ci < 8
                        && !self.spec_is_leaf(#[trigger] self.node_at(j)[ci] as u32)
                    implies self.rank_of(self.node_at(j)[ci] as u32) < self.rank_of(
                        j,
                    ) by {
                    assert(g0.live(j) && !g0.spec_is_leaf(j));
                    assert(self.node_at(j) == g0.node_at(j));
                    assert(!g0.spec_is_leaf(g0.node_at(j)[ci] as u32));
                    assert(self.node_rank == g0.node_rank);
                }
            }
        }
    }

    /// The raw node memory as the GPU sees it: eight consecutive 32-bit
    /// child handles per slot, with every free slot filled by the
    /// all-ones sentinel so a shader never dereferences garbage.
    pub fn bulk_view(&self) -> (v: Vec<u32>)
        requires
            self.wf(),
        ensures
            v@.len() == 8 * self.slots(),
            forall|k: nat, c: int|
                self.nodes_map().contains_key(k) && 0 <= c < 8 ==> v@[8 * k + c]
                    == self.nodes_map()[k][c],
            forall|k: nat, c: int|
                k < self.slots() && !self.nodes_map().contains_key(k) && 0 <= c < 8 ==> (
                #[trigger] v@[8 * k + c]) == 0xFFFF_FFFFu32,
    {
        let sels = Zorder3d::all();
        let total = self.nodes.len();
        let mut v: Vec<u32> = Vec::new();
        let mut k: usize = 0;
        while k < total
            invariant
                self.wf(),
                sels@.len() == 8,
                forall|i: int| 0 <= i < 8 ==> #[trigger] sels@[i].code() == i,
                total == self.slots(),
                total <= 0xFFFF_FFFF,
                k <= total,
                v@.len() == 8 * k,
                forall|m: nat, c: int|
                    m < k && self.nodes_map().contains_key(m) && 0 <= c < 8 ==> v@[8 * m + c]
                        == self.nodes_map()[m][c],
                forall|m: nat, c: int|
                    m < k && !self.nodes_map().contains_key(m) && 0 <= c < 8 ==> (
                    #[trigger] v@[8 * m + c]) == 0xFFFF_FFFFu32,
            decreases total - k,
        {
            let live_here = self.nodes.is_occupied(k as u32);
            if live_here {
                let node = self.nodes.get(k as u32);
                let mut c: usize = 0;
                while c < 8
                    invariant
                        self.wf(),
                        sels@.len() == 8,
                        forall|i: int| 0 <= i < 8 ==> #[trigger] sels@[i].code() == i,
                        k < total,
                        total == self.slots(),
                        total <= 0xFFFF_FFFF,
                        self.nodes_map().contains_key(k as nat),
                        node@ == self.nodes_map()[k as nat],
                        node@.len() == 8,
                        c <= 8,
                        v@.len() == 8 * k + c,
                        forall|m: nat, cc: int|
                            m < k && self.nodes_map().contains_key(m) && 0 <= cc < 8
                                ==> v@[8 * m + cc] == self.nodes_map()[m][cc],
                        forall|m: nat, cc: int|
                            m < k && !self.nodes_map().contains_key(m) && 0 <= cc < 8
                                ==> (#[trigger] v@[8 * m + cc]) == 0xFFFF_FFFFu32,
                        forall|cc: int| 0 <= cc < c ==> v@[8 * (k as nat) + cc] == node@[cc],
                    decreases 8 - c,
                {
                    v.push(node.get(sels[c]));
                    c = c + 1;
                }
            } else {
                let mut c: usize = 0;
                while c < 8
                    invariant
                        self.wf(),
                        sels@.len() == 8,
                        forall|i: int| 0 <= i < 8 ==> #[trigger] sels@[i].code() == i,
                        k < total,
                        total == self.slots(),
                        total <= 0xFFFF_FFFF,
                        !self.nodes_map().contains_key(k as nat),
                        c <= 8,
                        v@.len() == 8 * k + c,
                        forall|m: nat, cc: int|
                            m < k && self.nodes_map().contains_key(m) && 0 <= cc < 8
                                ==> v@[8 * m + cc] == self.nodes_map()[m][cc],
                        forall|m: nat, cc: int|
                            m < k && !self.nodes_map().contains_key(m) && 0 <= cc < 8
                                ==> (#[trigger] v@[8 * m + cc]) == 0xFFFF_FFFFu32,
                        forall|cc: int| 0 <= cc < c ==> (#[trigger] v@[8 * (k as nat)
                            + cc]) == 0xFFFF_FFFFu32,
                    decreases 8 - c,
                {
                    v.push(0xFFFF_FFFFu32);
                    c = c + 1;
                }
            }
            k = k + 1;
        }
        v
    }



    /// Expanding one breadth-first entry: appending the eight children of
    /// the live non-leaf `cur` (entry `i`) keeps the output's layout — one
    /// more branch counted, its block exactly at the old end — and strictly
    /// shrinks the remaining termination budget.
    #[verifier::rlimit(100)]
    proof fn lemma_bfs_expand(
        g: SparseDirectedGraph,
        pre: Seq<u32>,
        out: Seq<u32>,
        i: int,
        cur: u32,
        node: Seq<u32>,
    )
        requires
            g.wf(),
            g.ranked(),
            0 <= i < pre.len(),
            pre[i] == cur,
            g.live(cur),
            !g.spec_is_leaf(cur),
            node == g.nodes_map()[cur as nat],
            out == pre + node,
            forall|k: int| 0 <= k < pre.len() ==> g.live(#[trigger] pre[k]),
            pre.len() == 1 + 8 * count_branches(g, pre.take(i)),
            forall|k: int|
                0 <= k < i && !g.spec_is_leaf(#[trigger] pre[k]) ==> 9 + 8
                    * count_branches(g, pre.take(k)) <= pre.len() && (forall|c: int|
                    0 <= c < 8 ==> pre[1 + 8 * count_branches(g, pre.take(k)) + c] == (
                    #[trigger] g.node_at(pre[k])[c])),
        ensures
            out.len() == 1 + 8 * count_branches(g, out.take(i + 1)),
            forall|k: int| 0 <= k < out.len() ==> g.live(#[trigger] out[k]),
            forall|k: int|
                0 <= k < i + 1 && !g.spec_is_leaf(#[trigger] out[k]) ==> 9 + 8
                    * count_branches(g, out.take(k)) <= out.len() && (forall|c: int|
                    0 <= c < 8 ==> out[1 + 8 * count_branches(g, out.take(k)) + c] == (
                    #[trigger] g.node_at(out[k])[c])),
            queue_measure(g, out.skip(i + 1)) < queue_measure(g, pre.skip(i)),
    {
        assert(node.len() == 8);
        lemma_measure_split(g, pre, i);
        assert(pre.take(i + 1).drop_last() =~= pre.take(i));
        assert(out.take(i + 1) =~= pre.take(i + 1));
        assert(pre.take(i + 1).last() == cur);
        assert(count_branches(g, out.take(i + 1)) == count_branches(g, pre.take(i)) + 1);
        assert forall|k: int| 0 <= k < out.len() implies g.live(#[trigger] out[k]) by {
            if k < pre.len() {
                assert(out[k] == pre[k]);
            } else {
                assert(out[k] == node[k - pre.len()]);
                assert(g.nodes_map().contains_key(
                    (g.nodes_map()[cur as nat][k - pre.len()]) as nat,
                ));
            }
        }
        assert forall|k: int|
            0 <= k < i + 1 && !g.spec_is_leaf(#[trigger] out[k]) implies 9 + 8
                * count_branches(g, out.take(k)) <= out.len() && (forall|c: int|
                0 <= c < 8 ==> out[1 + 8 * count_branches(g, out.take(k)) + c] == (
                #[trigger] g.node_at(out[k])[c])) by {
            assert(out.take(k) =~= pre.take(k));
            if k < i {
                assert(out[k] == pre[k]);
                assert(!g.spec_is_leaf(pre[k]));
                assert(9 + 8 * count_branches(g, pre.take(k)) <= pre.len());
                assert forall|c: int|
                    0 <= c < 8 implies out[1 + 8 * count_branches(g, out.take(k)) + c]
                        == (#[trigger] g.node_at(out[k])[c]) by {
                    assert(pre[1 + 8 * count_branches(g, pre.take(k)) + c] == g.node_at(
                        pre[k],
                    )[c]);
                    assert(out[1 + 8 * count_branches(g, pre.take(k)) + c] == pre[1 + 8
                        * count_branches(g, pre.take(k)) + c]);
                }
            } else {
                assert(out[k] == cur);
                assert(1 + 8 * count_branches(g, pre.take(i)) == pre.len());
                assert forall|c: int|
                    0 <= c < 8 implies out[1 + 8 * count_branches(g, out.take(k)) + c]
                        == (#[trigger] g.node_at(out[k])[c]) by {
                    assert(out[pre.len() + c] == node[c]);
                }
            }
        }
        let rk = g.rank_of(cur);
        assert(node_weight(g, cur) == wt(rk + 1));
        assert(wt(rk + 1) == 9 * wt(rk));
        assert forall|k: int| 0 <= k < node.len() implies node_weight(
            g,
            #[trigger] node[k],
        ) <= wt(rk) by {
            let ch = node[k];
            if g.live(ch) && !g.spec_is_leaf(ch) {
                assert(g.rank_of(g.node_at(cur)[k] as u32) < g.rank_of(cur));
                lemma_wt_mono(g.rank_of(ch) + 1, rk);
            } else {
                lemma_wt_pos(rk);
            }
        }
        lemma_measure_bound(g, node, wt(rk));
        assert(out.skip(i + 1) =~= pre.skip(i + 1) + node);
        lemma_measure_concat(g, pre.skip(i + 1), node);
        lemma_wt_pos(rk);
    }

    /// Passing one breadth-first leaf entry: the output is unchanged, one
    /// step of budget is paid, and the layout carries over.
    proof fn lemma_bfs_pass(g: SparseDirectedGraph, pre: Seq<u32>, i: int, cur: u32)
        requires
            0 <= i < pre.len(),
            pre[i] == cur,
            g.spec_is_leaf(cur),
            pre.len() == 1 + 8 * count_branches(g, pre.take(i)),
            forall|k: int|
                0 <= k < i && !g.spec_is_leaf(#[trigger] pre[k]) ==> 9 + 8
                    * count_branches(g, pre.take(k)) <= pre.len() && (forall|c: int|
                    0 <= c < 8 ==> pre[1 + 8 * count_branches(g, pre.take(k)) + c] == (
                    #[trigger] g.node_at(pre[k])[c])),
        ensures
            pre.len() == 1 + 8 * count_branches(g, pre.take(i + 1)),
            forall|k: int|
                0 <= k < i + 1 && !g.spec_is_leaf(#[trigger] pre[k]) ==> 9 + 8
                    * count_branches(g, pre.take(k)) <= pre.len() && (forall|c: int|
                    0 <= c < 8 ==> pre[1 + 8 * count_branches(g, pre.take(k)) + c] == (
                    #[trigger] g.node_at(pre[k])[c])),
            queue_measure(g, pre.skip(i + 1)) < queue_measure(g, pre.skip(i)),
    {
        lemma_measure_split(g, pre, i);
        assert(pre.take(i + 1).drop_last() =~= pre.take(i));
        assert(pre.take(i + 1).last() == cur);
        assert(count_branches(g, pre.take(i + 1)) == count_branches(g, pre.take(i)));
        assert(node_weight(g, cur) >= 1);
        assert forall|k: int|
            0 <= k < i + 1 && !g.spec_is_leaf(#[trigger] pre[k]) implies 9 + 8
                * count_branches(g, pre.take(k)) <= pre.len() && (forall|c: int|
                0 <= c < 8 ==> pre[1 + 8 * count_branches(g, pre.take(k)) + c] == (
                #[trigger] g.node_at(pre[k])[c])) by {
            assert(k != i);
        }
    }

    /// Enumerate the indices reachable from `head` in breadth-first order,
    /// stopping at leaves: the result starts with `head`, every entry is
    /// live, and the eight children of the result's `n`-th non-leaf entry
    /// sit at positions `1 + 8n` through `8 + 8n`, in octant order. Shared
    /// subtrees are visited once per reference (the walk keeps no visited
    /// set); the walk terminates because non-leaf children always rank
    /// strictly below their parents.
    #[verifier::rlimit(100)]
    pub fn bfs_nodes(&self, head: u32) -> (r: Vec<u32>)
        requires
            self.wf(),
            self.ranked(),
            self.live(head),
        ensures
            r@.len() >= 1,
            r@[0] == head,
            forall|k: int| 0 <= k < r@.len() ==> self.live(#[trigger] r@[k]),
            forall|k: int|
                0 <= k < r@.len() && !self.spec_is_leaf(#[trigger] r@[k]) ==> 9 + 8
                    * count_branches(*self, r@.take(k)) <= r@.len() && (forall|c: int|
                    0 <= c < 8 ==> r@[1 + 8 * count_branches(*self, r@.take(k)) + c] == (
                    #[trigger] self.node_at(r@[k])[c])),
    {
        let sels = Zorder3d::all();
        let mut out: Vec<u32> = Vec::new();
        out.push(head);
        proof {
            assert(out@.take(0int) =~= Seq::<u32>::empty());
        }
        let mut i: usize = 0;
        while i < out.len()
            invariant
                self.wf(),
                self.ranked(),
                self.live(head),
                sels@.len() == 8,
                forall|m: int| 0 <= m < 8 ==> #[trigger] sels@[m].code() == m,
                1 <= out@.len(),
                out@[0] == head,
                i <= out@.len(),
                forall|k: int| 0 <= k < out@.len() ==> self.live(#[trigger] out@[k]),
                out@.len() == 1 + 8 * count_branches(*self, out@.take(i as int)),
                forall|k: int|
                    0 <= k < i && !self.spec_is_leaf(#[trigger] out@[k]) ==> 9 + 8
                        * count_branches(*self, out@.take(k)) <= out@.len() && (forall|
                        c: int,
                    |
                        0 <= c < 8 ==> out@[1 + 8 * count_branches(*self, out@.take(k))
                            + c] == (#[trigger] self.node_at(out@[k])[c])),
            decreases queue_measure(*self, out@.skip(i as int)),
        {
            let ghost pre = out@;
            let cur = out[i];
            if !self.is_leaf(cur) {
                let node = self.node(cur);
                proof {
                    node.lemma_arity();
                }
                let mut c: usize = 0;
                while c < 8
                    invariant
                        self.wf(),
                        sels@.len() == 8,
                        forall|m: int| 0 <= m < 8 ==> #[trigger] sels@[m].code() == m,
                        c <= 8,
                        i < pre.len(),
                        self.live(cur),
                        node@ == self.node_at(cur),
                        node@.len() == 8,
                        out@ == pre + node@.take(c as int),
                    decreases 8 - c,
                {
                    out.push(node.get(sels[c]));
                    proof {
                        assert(node@.take(c as int + 1).drop_last() =~= node@.take(
                            c as int,
                        ));
                        assert(out@ =~= pre + node@.take(c as int + 1));
                    }
                    c = c + 1;
                }
                proof {
                    assert(node@.take(8) =~= node@);
                    assert(out@ == pre + node@);
                    Self::lemma_bfs_expand(*self, pre, out@, i as int, cur, node@);
                }
            } else {
                proof {
                    Self::lemma_bfs_pass(*self, pre, i as int, cur);
                }
            }
            i = i + 1;
        }
        proof {
            assert(out@.take(out@.len() as int) =~= out@);
        }
        out
    }

    /// Canonicalization: no two live indices share identical content — any
    /// two live nodes with the same child handles are one and the same
    /// index, so content lookups have one canonical answer.
    pub proof fn lemma_canonicalization(self, i: u32, j: u32)
        requires
            self.wf(),
            self.live(i),
            self.live(j),
            self.node_at(i) == self.node_at(j),
        ensures
            i == j,
    {
        assert(self.table()[self.nodes_map()[i as nat]] == i);
        assert(self.table()[self.nodes_map()[j as nat]] == j);
    }

    /// Content lookups have one canonical answer: the table maps a content
    /// to a live index holding exactly that content, and every live index
    /// holding it is that one — so looking up two nodes with identical
    /// child contents gives the same index.
    pub proof fn lemma_find_canonical(self, n: Seq<u32>)
        requires
            self.wf(),
        ensures
            self.table().contains_key(n) ==> self.live(self.table()[n])
                && self.node_at(self.table()[n]) == n,
            forall|j: u32|
                self.live(j) && #[trigger] self.node_at(j) == n ==> self.table().contains_key(
                    n,
                ) && self.table()[n] == j,
    {
        assert forall|j: u32|
            self.live(j) && #[trigger] self.node_at(j) == n implies
            self.table().contains_key(n) && self.table()[n] == j by {
            assert(self.table().contains_key(self.nodes_map()[j as nat]));
        }
    }

    /// Exact reference-count accounting: in a well-formed graph, every
    /// index's count equals the number of live non-leaf child slots naming
    /// it plus the root references held on it — so no sequence of
    /// `get_root`/`set_node` calls can drive a count below zero: a count is
    /// decremented only when a parent or root reference actually goes away.
    pub proof fn lemma_ref_count_accounting(self, x: u32)
        requires
            self.wf(),
        ensures
            self.refs_at(x) == ref_sum(
                self.nodes_map(),
                self.leaves_seq(),
                self.slots(),
                x,
            ) + self.roots().count(x),
    {
        assert(count_in(Seq::empty(), x) == 0);
        assert(self.refs_at(x) == ref_sum(
            self.nodes_map(),
            self.leaves_seq(),
            self.slots(),
            x,
        ) + self.roots().count(x) + count_in(Seq::empty(), x));
    }

    /// Descent from a leaf lands on the leaf itself, whatever the path:
    /// its eight children are its own index.
    pub proof fn lemma_descend_from_leaf(self, l: u32, p: Seq<Zorder3d>)
        requires
            self.wf(),
            self.spec_is_leaf(l),
        ensures
            self.spec_descend(l, p) == l,
        decreases p.len(),
    {
        if p.len() > 0 {
            self.lemma_leaf_live(l);
            p[0].lemma_code_inverse();
            let w = choose|w: int|
                0 <= w < self.leaves_seq().len() && self.leaves_seq()[w] == l;
            assert(self.nodes_map()[self.leaves_seq()[w] as nat][p[0].code()]
                == self.leaves_seq()[w]);
            self.lemma_descend_from_leaf(l, p.skip(1));
        }
    }

    /// A registered leaf is always live.
    pub proof fn lemma_leaf_live(self, x: u32)
        requires
            self.wf(),
            self.spec_is_leaf(x),
        ensures
            self.live(x),
    {
        let m = choose|m: int|
            0 <= m < self.leaves_seq().len() && self.leaves_seq()[m] == x;
        assert(self.nodes_map().contains_key(self.leaves_seq()[m] as nat));
    }

    /// Any reference count is bounded by eight per slot plus the held roots.
    pub proof fn lemma_refs_bounded(self, x: u32)
        requires
            self.wf(),
        ensures
            self.refs_at(x) <= 8 * self.slots() + self.roots().len(),
    {
        broadcast use vstd::multiset::group_multiset_axioms;

        lemma_sum_bound(self.nodes_map(), self.leaves_seq(), self.slots(), x);
        assert(self.roots().count(x) <= self.roots().len());
        assert(count_in(Seq::empty(), x) == 0);
    }
}

} // verus!
