use vstd::prelude::*;

use crate::gen_grid2d::{Grid2D, Points2D, point_ok, dist2, COORD_LIMIT};

verus! {

/// An alternating-axis binary spatial tree over a snapshot of a point
/// sequence. Each node owns one point together with the position ("source
/// index") that point had in the sequence the tree was built from, and owns
/// at most two children. A node at depth `d` splits on axis `d % 2`
/// (0 = x, 1 = y): every point in its left subtree is strictly smaller on
/// that axis, every point in its right subtree is greater or equal (ties go
/// right). The tree is never rebalanced; its shape is determined entirely
/// by insertion order.
#[derive(PartialEq, Debug)]
pub struct KDTree {
    pub id: usize,
    pub position: Grid2D,
    pub left: Option<Box<KDTree>>,
    pub right: Option<Box<KDTree>>,
}

/// The coordinate of `p` on the axis a node at depth `depth` splits on.
pub open spec fn axis_coord(p: Grid2D, depth: int) -> int {
    if depth % 2 == 0 {
        p.x as int
    } else {
        p.y as int
    }
}

/// `p` lies strictly within `radius` of `q` (compared on squares, so the
/// statement is exact for integer coordinates).
pub open spec fn in_range(p: Grid2D, q: Grid2D, radius: int) -> bool {
    dist2(p, q) < radius * radius
}

impl KDTree {
    /// A leaf holding `p` with source index `id`.
    pub open spec fn spec_new(p: Grid2D, id: usize) -> KDTree {
        KDTree { id, position: p, left: None, right: None }
    }

    /// Number of nodes in an optional subtree.
    pub open spec fn opt_size(o: Option<Box<KDTree>>) -> int
        decreases o,
    {
        match o {
            None => 0,
            Some(n) => n.spec_size(),
        }
    }

    /// Number of nodes in the tree.
    pub open spec fn spec_size(self) -> int
        decreases self,
    {
        1 + Self::opt_size(self.left) + Self::opt_size(self.right)
    }

    /// Maximum root-to-leaf edge count of an optional subtree, counted so
    /// that an absent child contributes -1 to its parent's depth.
    pub open spec fn opt_depth(o: Option<Box<KDTree>>) -> int
        decreases o,
    {
        match o {
            None => -1,
            Some(n) => n.spec_depth(),
        }
    }

    /// Maximum root-to-leaf edge count: 0 for a single node.
    pub open spec fn spec_depth(self) -> int
        decreases self,
    {
        let l = Self::opt_depth(self.left);
        let r = Self::opt_depth(self.right);
        1 + if l >= r {
            l
        } else {
            r
        }
    }

    /// An optional subtree holds an entry with source index `id` at point `p`.
    pub open spec fn opt_contains(o: Option<Box<KDTree>>, id: usize, p: Grid2D) -> bool
        decreases o,
    {
        match o {
            None => false,
            Some(n) => n.contains_entry(id, p),
        }
    }

    /// The tree holds an entry with source index `id` at point `p`.
    pub open spec fn contains_entry(self, id: usize, p: Grid2D) -> bool
        decreases self,
    {
        ||| (self.id == id && self.position == p)
        ||| Self::opt_contains(self.left, id, p)
        ||| Self::opt_contains(self.right, id, p)
    }

    /// Every point stored in an optional subtree is within the coordinate bound.
    pub open spec fn opt_bounded(o: Option<Box<KDTree>>) -> bool
        decreases o,
    {
        match o {
            None => true,
            Some(n) => n.bounded(),
        }
    }

    /// Every point stored in the tree is within the coordinate bound.
    pub open spec fn bounded(self) -> bool
        decreases self,
    {
        &&& point_ok(self.position)
        &&& Self::opt_bounded(self.left)
        &&& Self::opt_bounded(self.right)
    }

    /// Well-formedness of an optional subtree rooted at depth `depth`.
    pub open spec fn opt_wf(o: Option<Box<KDTree>>, depth: int) -> bool
        decreases o,
    {
        match o {
            None => true,
            Some(n) => n.wf_at(depth),
        }
    }

    /// The alternating-axis ordering invariant for a node at depth `depth`:
    /// on the node's own axis, every left-subtree point is strictly below
    /// the node's coordinate and every right-subtree point is at or above
    /// it, and both subtrees are themselves well formed one level deeper.
    pub open spec fn wf_at(self, depth: int) -> bool
        decreases self,
    {
        &&& forall|j: usize, q: Grid2D|
            Self::opt_contains(self.left, j, q) ==> axis_coord(q, depth) < axis_coord(
                self.position,
                depth,
            )
        &&& forall|j: usize, q: Grid2D|
            Self::opt_contains(self.right, j, q) ==> axis_coord(q, depth) >= axis_coord(
                self.position,
                depth,
            )
        &&& Self::opt_wf(self.left, depth + 1)
        &&& Self::opt_wf(self.right, depth + 1)
    }

    /// The tree that results from inserting `p` with source index `id` into
    /// `self`, where `self` stands at depth `depth`: descend left where `p`
    /// is strictly smaller on the node's axis, right otherwise, and attach a
    /// new leaf at the first empty slot reached.
    pub open spec fn spec_insert(self, p: Grid2D, depth: int, id: usize) -> KDTree
        decreases self,
    {
        if axis_coord(p, depth) < axis_coord(self.position, depth) {
            match self.left {
                None => KDTree { left: Some(Box::new(Self::spec_new(p, id))), ..self },
                Some(l) => KDTree {
                    left: Some(Box::new(l.spec_insert(p, depth + 1, id))),
                    ..self
                },
            }
        } else {
            match self.right {
                None => KDTree { right: Some(Box::new(Self::spec_new(p, id))), ..self },
                Some(r) => KDTree {
                    right: Some(Box::new(r.spec_insert(p, depth + 1, id))),
                    ..self
                },
            }
        }
    }
    /// The tree built from the first `n` points of `s` (for `1 <= n`):
    /// `s[0]` becomes the root with source index 0, and `s[1] .. s[n-1]`
    /// are inserted in sequence order, each starting at the root at depth 0,
    /// carrying its sequence position as source index.
    pub open spec fn spec_construct_prefix(s: Seq<Grid2D>, n: int) -> KDTree
        decreases n,
    {
        if n <= 1 {
            Self::spec_new(s[0], 0)
        } else {
            Self::spec_construct_prefix(s, n - 1).spec_insert(s[n - 1], 0, (n - 1) as usize)
        }
    }

    /// The tree built from the whole point sequence `s` in order.
    pub open spec fn spec_construct(s: Seq<Grid2D>) -> KDTree {
        Self::spec_construct_prefix(s, s.len() as int)
    }

    /// The sequence of source indices an optional subtree contributes to a
    /// neighbor search.
    pub open spec fn opt_near_seq(o: Option<Box<KDTree>>, q: Grid2D, radius: int, depth: int) -> Seq<usize>
        decreases o,
    {
        match o {
            None => Seq::empty(),
            Some(n) => n.near_seq(q, radius, depth),
        }
    }

    /// The sequence of source indices, in traversal order, that a
    /// radius-bounded search for `q` reports from `self` standing at depth
    /// `depth`: the node's own index first when the node's point lies
    /// strictly within `radius` of `q`; then, when the node's splitting
    /// plane lies outside the search window on the node's axis, only the
    /// one child that can still hold in-range points; otherwise both
    /// children, right before left.
    pub open spec fn near_seq(self, q: Grid2D, radius: int, depth: int) -> Seq<usize>
        decreases self,
    {
        let hit: Seq<usize> = if in_range(self.position, q, radius) {
            seq![self.id]
        } else {
            Seq::empty()
        };
        let a = axis_coord(self.position, depth);
        let qa = axis_coord(q, depth);
        let rest: Seq<usize> = if a < qa - radius {
            Self::opt_near_seq(self.right, q, radius, depth + 1)
        } else if qa + radius < a {
            Self::opt_near_seq(self.left, q, radius, depth + 1)
        } else {
            Self::opt_near_seq(self.right, q, radius, depth + 1) + Self::opt_near_seq(
                self.left,
                q,
                radius,
                depth + 1,
            )
        };
        hit + rest
    }

    /// The tree holds some entry whose point lies strictly within `radius`
    /// of `q` under source index `id`.
    pub open spec fn has_entry_in_range(self, id: usize, q: Grid2D, radius: int) -> bool {
        exists|p: Grid2D| self.contains_entry(id, p) && in_range(p, q, radius)
    }
}

/// A point whose coordinate on the splitting axis lies outside the window
/// `[query - radius, query + radius]` cannot lie within `radius` of the
/// query: its squared distance already exceeds the squared radius on that
/// axis alone.
pub proof fn lemma_axis_gap_excludes(p: Grid2D, q: Grid2D, radius: int, depth: int)
    requires
        radius >= 0,
        axis_coord(p, depth) < axis_coord(q, depth) - radius || axis_coord(q, depth) + radius
            < axis_coord(p, depth),
    ensures
        !in_range(p, q, radius),
{
    let dxv = p.x - q.x;
    let dyv = p.y - q.y;
    let da = axis_coord(p, depth) - axis_coord(q, depth);
    assert(da == dxv || da == dyv);
    assert(da * da > radius * radius) by (nonlinear_arith)
        requires
            radius >= 0,
            da > radius || da < -radius,
    ;
    assert(dxv * dxv >= 0 && dyv * dyv >= 0) by (nonlinear_arith);
    assert(dist2(p, q) == dxv * dxv + dyv * dyv);
}

/// The entries of a tree after an insertion are exactly the old entries
/// together with the inserted (index, point) pair.
pub proof fn lemma_insert_entries(t: KDTree, p: Grid2D, depth: int, id: usize)
    ensures
        forall|j: usize, q: Grid2D|
            #[trigger] t.spec_insert(p, depth, id).contains_entry(j, q) <==> (t.contains_entry(
                j,
                q,
            ) || (j == id && q == p)),
    decreases t,
{
    reveal_with_fuel(KDTree::contains_entry, 3);
    reveal_with_fuel(KDTree::opt_contains, 3);
    let t2 = t.spec_insert(p, depth, id);
    if axis_coord(p, depth) < axis_coord(t.position, depth) {
        match t.left {
            None => {
                assert forall|j: usize, q: Grid2D|
                    t2.contains_entry(j, q) <==> (t.contains_entry(j, q) || (j == id && q
                        == p)) by {
                    assert(KDTree::opt_contains(t2.left, j, q) == KDTree::spec_new(
                        p,
                        id,
                    ).contains_entry(j, q));
                    assert(KDTree::opt_contains(t.left, j, q) == false);
                }
            }
            Some(l) => {
                lemma_insert_entries(*l, p, depth + 1, id);
                assert forall|j: usize, q: Grid2D|
                    t2.contains_entry(j, q) <==> (t.contains_entry(j, q) || (j == id && q
                        == p)) by {
                    assert(KDTree::opt_contains(t2.left, j, q) == l.spec_insert(
                        p,
                        depth + 1,
                        id,
                    ).contains_entry(j, q));
                    assert(KDTree::opt_contains(t.left, j, q) == l.contains_entry(j, q));
                }
            }
        }
    } else {
        match t.right {
            None => {
                assert forall|j: usize, q: Grid2D|
                    t2.contains_entry(j, q) <==> (t.contains_entry(j, q) || (j == id && q
                        == p)) by {
                    assert(KDTree::opt_contains(t2.right, j, q) == KDTree::spec_new(
                        p,
                        id,
                    ).contains_entry(j, q));
                    assert(KDTree::opt_contains(t.right, j, q) == false);
                }
            }
            Some(r) => {
                lemma_insert_entries(*r, p, depth + 1, id);
                assert forall|j: usize, q: Grid2D|
                    t2.contains_entry(j, q) <==> (t.contains_entry(j, q) || (j == id && q
                        == p)) by {
                    assert(KDTree::opt_contains(t2.right, j, q) == r.spec_insert(
                        p,
                        depth + 1,
                        id,
                    ).contains_entry(j, q));
                    assert(KDTree::opt_contains(t.right, j, q) == r.contains_entry(j, q));
                }
            }
        }
    }
}

/// Insertion keeps every stored point within the coordinate bound when the
/// inserted point is within it.
pub proof fn lemma_insert_bounded(t: KDTree, p: Grid2D, depth: int, id: usize)
    requires
        t.bounded(),
        point_ok(p),
    ensures
        t.spec_insert(p, depth, id).bounded(),
    decreases t,
{
    reveal_with_fuel(KDTree::bounded, 3);
    reveal_with_fuel(KDTree::opt_bounded, 3);
    if axis_coord(p, depth) < axis_coord(t.position, depth) {
        match t.left {
            None => {}
            Some(l) => {
                lemma_insert_bounded(*l, p, depth + 1, id);
            }
        }
    } else {
        match t.right {
            None => {}
            Some(r) => {
                lemma_insert_bounded(*r, p, depth + 1, id);
            }
        }
    }
}

/// Insertion preserves the alternating-axis ordering invariant: the new
/// point descends left exactly where it is strictly smaller on the node's
/// axis, so it lands on the side its coordinate belongs to at every level.
pub proof fn lemma_insert_wf(t: KDTree, p: Grid2D, depth: int, id: usize)
    requires
        t.wf_at(depth),
    ensures
        t.spec_insert(p, depth, id).wf_at(depth),
    decreases t,
{
    reveal_with_fuel(KDTree::contains_entry, 3);
    reveal_with_fuel(KDTree::opt_contains, 3);
    let t2 = t.spec_insert(p, depth, id);
    if axis_coord(p, depth) < axis_coord(t.position, depth) {
        match t.left {
            None => {
                assert(KDTree::spec_new(p, id).wf_at(depth + 1));
                assert forall|j: usize, q: Grid2D|
                    KDTree::opt_contains(t2.left, j, q) implies axis_coord(q, depth) < axis_coord(
                    t2.position,
                    depth,
                ) by {
                    assert(j == id && q == p);
                }
            }
            Some(l) => {
                lemma_insert_wf(*l, p, depth + 1, id);
                lemma_insert_entries(*l, p, depth + 1, id);
                assert forall|j: usize, q: Grid2D|
                    KDTree::opt_contains(t2.left, j, q) implies axis_coord(q, depth) < axis_coord(
                    t2.position,
                    depth,
                ) by {
                    assert(l.spec_insert(p, depth + 1, id).contains_entry(j, q));
                    assert(l.contains_entry(j, q) || (j == id && q == p));
                    if l.contains_entry(j, q) {
                        assert(KDTree::opt_contains(t.left, j, q));
                    }
                }
            }
        }
    } else {
        match t.right {
            None => {
                assert(KDTree::spec_new(p, id).wf_at(depth + 1));
                assert forall|j: usize, q: Grid2D|
                    KDTree::opt_contains(t2.right, j, q) implies axis_coord(q, depth) >= axis_coord(
                    t2.position,
                    depth,
                ) by {
                    assert(j == id && q == p);
                }
            }
            Some(r) => {
                lemma_insert_wf(*r, p, depth + 1, id);
                lemma_insert_entries(*r, p, depth + 1, id);
                assert forall|j: usize, q: Grid2D|
                    KDTree::opt_contains(t2.right, j, q) implies axis_coord(q, depth) >= axis_coord(
                    t2.position,
                    depth,
                ) by {
                    assert(r.spec_insert(p, depth + 1, id).contains_entry(j, q));
                    assert(r.contains_entry(j, q) || (j == id && q == p));
                    if r.contains_entry(j, q) {
                        assert(KDTree::opt_contains(t.right, j, q));
                    }
                }
            }
        }
    }
}

/// Inserting one point grows the node count by exactly one.
pub proof fn lemma_insert_size(t: KDTree, p: Grid2D, depth: int, id: usize)
    ensures
        t.spec_insert(p, depth, id).spec_size() == t.spec_size() + 1,
    decreases t,
{
    reveal_with_fuel(KDTree::spec_size, 3);
    reveal_with_fuel(KDTree::opt_size, 3);
    if axis_coord(p, depth) < axis_coord(t.position, depth) {
        match t.left {
            None => {}
            Some(l) => {
                lemma_insert_size(*l, p, depth + 1, id);
            }
        }
    } else {
        match t.right {
            None => {}
            Some(r) => {
                lemma_insert_size(*r, p, depth + 1, id);
            }
        }
    }
}

/// An optional subtree's depth lies strictly below its node count.
pub proof fn lemma_opt_depth_bound(o: Option<Box<KDTree>>)
    ensures
        -1 <= KDTree::opt_depth(o) < KDTree::opt_size(o),
    decreases o,
{
    match o {
        None => {}
        Some(n) => {
            lemma_depth_bound(*n);
        }
    }
}

/// A tree's depth is non-negative and lies strictly below its node count.
pub proof fn lemma_depth_bound(t: KDTree)
    ensures
        0 <= t.spec_depth() < t.spec_size(),
    decreases t,
{
    lemma_opt_depth_bound(t.left);
    lemma_opt_depth_bound(t.right);
}

/// The tree built from the first `n` points of `s` holds exactly the
/// entries `(i, s[i])` for `i < n`.
pub proof fn lemma_construct_prefix_entries(s: Seq<Grid2D>, n: int)
    requires
        1 <= n <= usize::MAX,
    ensures
        forall|j: usize, q: Grid2D|
            #[trigger] KDTree::spec_construct_prefix(s, n).contains_entry(j, q) <==> (j < n && q
                == s[j as int]),
    decreases n,
{
    reveal_with_fuel(KDTree::contains_entry, 3);
    reveal_with_fuel(KDTree::opt_contains, 3);
    if n == 1 {
    } else {
        let prev = KDTree::spec_construct_prefix(s, n - 1);
        lemma_construct_prefix_entries(s, n - 1);
        lemma_insert_entries(prev, s[n - 1], 0, (n - 1) as usize);
        assert forall|j: usize, q: Grid2D|
            #[trigger] KDTree::spec_construct_prefix(s, n).contains_entry(j, q) <==> (j < n && q
                == s[j as int]) by {
            assert(KDTree::spec_construct_prefix(s, n) == prev.spec_insert(
                s[n - 1],
                0,
                (n - 1) as usize,
            ));
            assert(prev.contains_entry(j, q) <==> (j < n - 1 && q == s[j as int]));
            assert(prev.spec_insert(s[n - 1], 0, (n - 1) as usize).contains_entry(j, q)
                <==> (prev.contains_entry(j, q) || (j == (n - 1) as usize && q == s[n - 1])));
        }
    }
}

/// The tree built from any prefix of a point sequence satisfies the
/// alternating-axis ordering invariant at depth 0.
pub proof fn lemma_construct_prefix_wf(s: Seq<Grid2D>, n: int)
    requires
        1 <= n,
    ensures
        KDTree::spec_construct_prefix(s, n).wf_at(0),
    decreases n,
{
    reveal_with_fuel(KDTree::contains_entry, 3);
    reveal_with_fuel(KDTree::opt_contains, 3);
    if n == 1 {
    } else {
        lemma_construct_prefix_wf(s, n - 1);
        lemma_insert_wf(KDTree::spec_construct_prefix(s, n - 1), s[n - 1], 0, (n - 1) as usize);
    }
}

/// The tree built from the first `n` points of `s` has exactly `n` nodes.
pub proof fn lemma_construct_prefix_size(s: Seq<Grid2D>, n: int)
    requires
        1 <= n,
    ensures
        KDTree::spec_construct_prefix(s, n).spec_size() == n,
    decreases n,
{
    reveal_with_fuel(KDTree::spec_size, 3);
    reveal_with_fuel(KDTree::opt_size, 3);
    if n == 1 {
    } else {
        lemma_construct_prefix_size(s, n - 1);
        lemma_insert_size(KDTree::spec_construct_prefix(s, n - 1), s[n - 1], 0, (n - 1) as usize);
    }
}

/// When every point of the prefix is within the coordinate bound, so is
/// every point stored in the tree built from it.
pub proof fn lemma_construct_prefix_bounded(s: Seq<Grid2D>, n: int)
    requires
        1 <= n,
        forall|i: int| 0 <= i < n ==> point_ok(#[trigger] s[i]),
    ensures
        KDTree::spec_construct_prefix(s, n).bounded(),
    decreases n,
{
    reveal_with_fuel(KDTree::bounded, 3);
    reveal_with_fuel(KDTree::opt_bounded, 3);
    if n == 1 {
    } else {
        lemma_construct_prefix_bounded(s, n - 1);
        lemma_insert_bounded(
            KDTree::spec_construct_prefix(s, n - 1),
            s[n - 1],
            0,
            (n - 1) as usize,
        );
    }
}

/// Exactness of the range-pruned traversal: on a well-formed tree, the
/// reported index sequence holds an index if and only if the tree stores
/// an entry under that index whose point lies strictly within `radius` of
/// the query. Pruned subtrees lose nothing, because the ordering invariant
/// puts all their points beyond the search window on the pruning axis.
pub proof fn lemma_near_seq_exact(t: KDTree, q: Grid2D, radius: int, depth: int)
    requires
        radius >= 0,
        t.wf_at(depth),
    ensures
        forall|id: usize|
            #[trigger] t.near_seq(q, radius, depth).contains(id) <==> t.has_entry_in_range(
                id,
                q,
                radius,
            ),
    decreases t,
{
    broadcast use vstd::seq_lib::lemma_seq_concat_contains_all_elements;
    broadcast use vstd::seq_lib::lemma_seq_empty_contains_nothing;

    let ns = t.near_seq(q, radius, depth);
    let a = axis_coord(t.position, depth);
    let qa = axis_coord(q, depth);
    let hit: Seq<usize> = if in_range(t.position, q, radius) {
        seq![t.id]
    } else {
        Seq::empty()
    };
    let rseq = KDTree::opt_near_seq(t.right, q, radius, depth + 1);
    let lseq = KDTree::opt_near_seq(t.left, q, radius, depth + 1);
    match t.left {
        Some(l) => {
            lemma_near_seq_exact(*l, q, radius, depth + 1);
        }
        None => {}
    }
    match t.right {
        Some(r) => {
            lemma_near_seq_exact(*r, q, radius, depth + 1);
        }
        None => {}
    }
    if a < qa - radius {
        assert forall|j: usize, p: Grid2D|
            KDTree::opt_contains(t.left, j, p) implies !in_range(p, q, radius) by {
            lemma_axis_gap_excludes(p, q, radius, depth);
        }
        assert(ns == hit + rseq);
    } else if qa + radius < a {
        assert forall|j: usize, p: Grid2D|
            KDTree::opt_contains(t.right, j, p) implies !in_range(p, q, radius) by {
            lemma_axis_gap_excludes(p, q, radius, depth);
        }
        assert(ns == hit + lseq);
    } else {
        assert(ns == hit + (rseq + lseq));
    }
    assert forall|id: usize|
        #[trigger] ns.contains(id) <==> t.has_entry_in_range(id, q, radius) by {
        if ns.contains(id) {
            if hit.contains(id) {
                assert(in_range(t.position, q, radius) && id == t.id);
                assert(t.contains_entry(id, t.position));
            } else if rseq.contains(id) {
                match t.right {
                    Some(r) => {
                        assert(r.near_seq(q, radius, depth + 1).contains(id));
                        assert(r.has_entry_in_range(id, q, radius));
                        let p = choose|p: Grid2D|
                            r.contains_entry(id, p) && in_range(p, q, radius);
                        assert(KDTree::opt_contains(t.right, id, p));
                        assert(t.contains_entry(id, p));
                    }
                    None => {}
                }
            } else {
                assert(lseq.contains(id));
                match t.left {
                    Some(l) => {
                        assert(l.near_seq(q, radius, depth + 1).contains(id));
                        assert(l.has_entry_in_range(id, q, radius));
                        let p = choose|p: Grid2D|
                            l.contains_entry(id, p) && in_range(p, q, radius);
                        assert(KDTree::opt_contains(t.left, id, p));
                        assert(t.contains_entry(id, p));
                    }
                    None => {}
                }
            }
        }
        if t.has_entry_in_range(id, q, radius) {
            let p = choose|p: Grid2D| t.contains_entry(id, p) && in_range(p, q, radius);
            if t.id == id && t.position == p {
                assert(hit[0] == t.id);
                assert(hit.contains(id));
            } else if KDTree::opt_contains(t.left, id, p) {
                match t.left {
                    Some(l) => {
                        assert(l.contains_entry(id, p) && in_range(p, q, radius));
                        assert(l.has_entry_in_range(id, q, radius));
                        assert(l.near_seq(q, radius, depth + 1).contains(id));
                        assert(lseq == l.near_seq(q, radius, depth + 1));
                    }
                    None => {}
                }
            } else {
                assert(KDTree::opt_contains(t.right, id, p));
                match t.right {
                    Some(r) => {
                        assert(r.contains_entry(id, p) && in_range(p, q, radius));
                        assert(r.has_entry_in_range(id, q, radius));
                        assert(r.near_seq(q, radius, depth + 1).contains(id));
                        assert(rseq == r.near_seq(q, radius, depth + 1));
                    }
                    None => {}
                }
            }
        }
    }
}

/// Exactness of the neighbor search on a constructed tree: the index
/// sequence reported for a query holds exactly the positions `id` of the
/// input sequence whose point lies strictly within `radius` of the query —
/// the same set an exhaustive scan comparing squared distances against the
/// squared radius would find.
pub proof fn lemma_search_exact(s: Seq<Grid2D>, q: Grid2D, radius: int)
    requires
        1 <= s.len() <= usize::MAX,
        radius >= 0,
    ensures
        forall|id: usize|
            #[trigger] KDTree::spec_construct(s).near_seq(q, radius, 0).contains(id) <==> (id
                < s.len() && in_range(s[id as int], q, radius)),
{
    let t = KDTree::spec_construct(s);
    lemma_construct_prefix_wf(s, s.len() as int);
    lemma_construct_prefix_entries(s, s.len() as int);
    lemma_near_seq_exact(t, q, radius, 0);
    assert forall|id: usize|
        #[trigger] t.near_seq(q, radius, 0).contains(id) <==> (id < s.len() && in_range(
            s[id as int],
            q,
            radius,
        )) by {
        if t.has_entry_in_range(id, q, radius) {
            let p = choose|p: Grid2D| t.contains_entry(id, p) && in_range(p, q, radius);
            assert(id < s.len() && p == s[id as int]);
        }
        if id < s.len() && in_range(s[id as int], q, radius) {
            assert(t.contains_entry(id, s[id as int]));
            assert(t.has_entry_in_range(id, q, radius));
        }
    }
}

/// Any two points within the coordinate bound lie strictly within three
/// times that bound of each other.
pub proof fn lemma_bound_covers_all(p: Grid2D, q: Grid2D)
    requires
        point_ok(p),
        point_ok(q),
    ensures
        in_range(p, q, 3 * COORD_LIMIT as int),
{
    let l = COORD_LIMIT as int;
    let dxv = p.x - q.x;
    let dyv = p.y - q.y;
    assert(dxv * dxv + dyv * dyv < (3 * l) * (3 * l)) by (nonlinear_arith)
        requires
            l > 0,
            -2 * l <= dxv <= 2 * l,
            -2 * l <= dyv <= 2 * l,
    ;
}

/// The provable face of cutoff consistency: with a search radius of at
/// least three times the coordinate bound, a query from an in-bound point
/// over in-bound points reports every source index, so a caller that takes
/// such a radius sees exactly the same neighbor set an exhaustive scan
/// would hand it.
pub proof fn lemma_search_covers_all(s: Seq<Grid2D>, q: Grid2D, radius: int)
    requires
        1 <= s.len() <= usize::MAX,
        3 * COORD_LIMIT <= radius,
        point_ok(q),
        forall|i: int| 0 <= i < s.len() ==> point_ok(#[trigger] s[i]),
    ensures
        forall|id: usize|
            id < s.len() ==> #[trigger] KDTree::spec_construct(s).near_seq(q, radius, 0).contains(
                id,
            ),
{
    let l = COORD_LIMIT as int;
    lemma_search_exact(s, q, radius);
    assert forall|id: usize|
        id < s.len() implies #[trigger] KDTree::spec_construct(s).near_seq(q, radius, 0).contains(
        id,
    ) by {
        lemma_bound_covers_all(s[id as int], q);
        assert((3 * l) * (3 * l) <= radius * radius) by (nonlinear_arith)
            requires
                l > 0,
                radius >= 3 * l,
        ;
    }
}

/// Insertion-order determinism: the tree built from a point sequence is a
/// function of that ordered sequence alone, so two trees built from the
/// same sequence are structurally identical — same shape and the same
/// source index at every node.
pub proof fn lemma_construct_deterministic(s: Seq<Grid2D>, t1: KDTree, t2: KDTree)
    requires
        t1 == KDTree::spec_construct(s),
        t2 == KDTree::spec_construct(s),
    ensures
        t1 == t2,
{
}

/// Size law: the constructed tree has exactly one node per input point.
pub proof fn lemma_construct_size(s: Seq<Grid2D>)
    requires
        1 <= s.len(),
    ensures
        KDTree::spec_construct(s).spec_size() == s.len(),
{
    lemma_construct_prefix_size(s, s.len() as int);
}

/// Depth law for the smallest input: a tree built from a single point is
/// one leaf, of depth 0. (Non-negativity of depth for every tree is
/// `lemma_depth_bound`.)
pub proof fn lemma_single_point_depth(s: Seq<Grid2D>)
    requires
        s.len() == 1,
    ensures
        KDTree::spec_construct(s).spec_depth() == 0,
{
    reveal_with_fuel(KDTree::spec_depth, 2);
    reveal_with_fuel(KDTree::opt_depth, 2);
}

/// The constructed tree satisfies the ordering invariant at the root.
pub proof fn lemma_construct_wf(s: Seq<Grid2D>)
    requires
        1 <= s.len(),
    ensures
        KDTree::spec_construct(s).wf_at(0),
{
    lemma_construct_prefix_wf(s, s.len() as int);
}

/// A tree built from in-bound points stores only in-bound points.
pub proof fn lemma_construct_bounded(s: Seq<Grid2D>)
    requires
        1 <= s.len(),
        forall|i: int| 0 <= i < s.len() ==> point_ok(#[trigger] s[i]),
    ensures
        KDTree::spec_construct(s).bounded(),
{
    lemma_construct_prefix_bounded(s, s.len() as int);
}

/// Every optional subtree has a non-negative node count.
pub proof fn lemma_opt_size_nonneg(o: Option<Box<KDTree>>)
    ensures
        KDTree::opt_size(o) >= 0,
    decreases o,
{
    match o {
        None => {}
        Some(n) => {
            lemma_size_at_least_one(*n);
        }
    }
}

/// Every tree has at least one node.
pub proof fn lemma_size_at_least_one(t: KDTree)
    ensures
        t.spec_size() >= 1,
    decreases t,
{
    lemma_opt_size_nonneg(t.left);
    lemma_opt_size_nonneg(t.right);
}

impl KDTree {
    fn new(vector: &Grid2D, id_: usize) -> (t: Self)
        ensures
            t == Self::spec_new(*vector, id_),
    {
        Self { id: id_, position: *vector, left: None, right: None }
    }

    /// The node has no children.
    pub fn is_leaf(&self) -> (r: bool)
        ensures
            r == (self.left is None && self.right is None),
    {
        let left = &self.left;
        let right = &self.right;
        match (left, right) {
            (None, None) => true,
            _ => false,
        }
    }

    fn insert(&mut self, point: &Grid2D, depth: i32, id: usize)
        requires
            0 <= depth,
            depth + old(self).spec_size() <= i32::MAX,
        ensures
            *final(self) == old(self).spec_insert(*point, depth as int, id),
        decreases old(self).spec_size(),
    {
        proof {
            lemma_opt_size_nonneg(self.left);
            lemma_opt_size_nonneg(self.right);
        }
        let axis: i32 = depth % 2;
        let go_left: bool = if axis == 0 {
            self.position.x > point.x
        } else {
            self.position.y > point.y
        };
        if go_left {
            match self.left.take() {
                Some(mut left_node) => {
                    (&mut *left_node).insert(point, depth + 1, id);
                    self.left = Some(left_node);
                }
                None => {
                    let node = Self::new(point, id);
                    self.left = Some(Box::new(node));
                }
            }
        } else {
            match self.right.take() {
                Some(mut right_node) => {
                    (&mut *right_node).insert(point, depth + 1, id);
                    self.right = Some(right_node);
                }
                None => {
                    let node = Self::new(point, id);
                    self.right = Some(Box::new(node));
                }
            }
        }
    }

    /// Radius-bounded neighbor query. Appends to `near`, in traversal
    /// order, the source index of every stored point whose Euclidean
    /// distance to `x` is strictly less than `radius` (compared on squares,
    /// which is exact), descending only into children whose side of the
    /// splitting plane can still meet the search circle. The node is
    /// tested first, then the right subtree, then the left.
    pub fn search_points_id(&self, x: &Grid2D, radius: i64, near: &mut Vec<usize>, depth: i32)
        requires
            0 <= depth,
            depth + self.spec_size() <= i32::MAX,
            0 <= radius <= 4 * COORD_LIMIT,
            point_ok(*x),
            self.bounded(),
        ensures
            final(near)@ == old(near)@ + self.near_seq(*x, radius as int, depth as int),
            self.wf_at(depth as int) ==> forall|id: usize|
                #[trigger] final(near)@.contains(id) <==> (old(near)@.contains(id)
                    || self.has_entry_in_range(id, *x, radius as int)),
        decreases self.spec_size(),
    {
        proof {
            lemma_opt_size_nonneg(self.left);
            lemma_opt_size_nonneg(self.right);
        }
        let axis: i32 = depth % 2;
        let d2: i128 = self.position.distance_square(x);
        let ri: i128 = radius as i128;
        proof {
            assert(0 <= ri * ri <= 0x1000000000000000000000) by (nonlinear_arith)
                requires 0 <= ri <= 0x400_0000_0000;
        }
        let r2: i128 = ri * ri;
        if d2 < r2 {
            near.push(self.id);
        }
        let a: i64 = if axis == 0 {
            self.position.x
        } else {
            self.position.y
        };
        let qa: i64 = if axis == 0 {
            x.x
        } else {
            x.y
        };
        if a < qa - radius {
            match &self.right {
                Some(right_node) => {
                    right_node.search_points_id(x, radius, near, depth + 1);
                }
                None => {}
            }
        } else if qa + radius < a {
            match &self.left {
                Some(left_node) => {
                    left_node.search_points_id(x, radius, near, depth + 1);
                }
                None => {}
            }
        } else {
            match &self.right {
                Some(right_node) => {
                    right_node.search_points_id(x, radius, near, depth + 1);
                }
                None => {}
            }
            match &self.left {
                Some(left_node) => {
                    left_node.search_points_id(x, radius, near, depth + 1);
                }
                None => {}
            }
        }
        proof {
            broadcast use vstd::seq_lib::lemma_seq_concat_contains_all_elements;

            assert(near@ =~= old(near)@ + self.near_seq(*x, radius as int, depth as int));
            if self.wf_at(depth as int) {
                lemma_near_seq_exact(*self, *x, radius as int, depth as int);
            }
        }
    }

    fn create_kd_tree(&mut self, vec: &Points2D)
        requires
            1 <= vec.points@.len() <= i32::MAX,
            *old(self) == KDTree::spec_construct_prefix(vec.points@, 1),
        ensures
            *final(self) == KDTree::spec_construct(vec.points@),
    {
        let mut i: usize = 1;
        while i < vec.points.len()
            invariant
                1 <= i <= vec.points@.len() <= i32::MAX,
                *self == KDTree::spec_construct_prefix(vec.points@, i as int),
                self.spec_size() == i,
            decreases vec.points@.len() - i,
        {
            self.insert(&vec.points[i], 0, i);
            proof {
                lemma_insert_size(
                    KDTree::spec_construct_prefix(vec.points@, i as int),
                    vec.points@[i as int],
                    0,
                    i,
                );
            }
            i = i + 1;
        }
    }

    /// Builds the tree from a non-empty point sequence: the first point
    /// becomes the root with source index 0, and every remaining point is
    /// inserted in sequence order carrying its sequence position as source
    /// index. The result is pinned to `spec_construct`, so the tree is a
    /// function of the ordered input alone.
    pub fn construct_kd_tree(vec: &Points2D) -> (t: KDTree)
        requires
            1 <= vec.points@.len() <= i32::MAX,
        ensures
            t == KDTree::spec_construct(vec.points@),
            t.wf_at(0),
            t.spec_size() == vec.points@.len(),
            forall|j: usize, q: Grid2D|
                #[trigger] t.contains_entry(j, q) <==> (j < vec.points@.len() && q == vec.points@[
                    j as int
                ]),
            (forall|i: int|
                0 <= i < vec.points@.len() ==> point_ok(#[trigger] vec.points@[i]))
                ==> t.bounded(),
    {
        let first = Grid2D::new(vec.points[0].x, vec.points[0].y);
        let mut tree = KDTree::new(&first, 0);
        tree.create_kd_tree(vec);
        proof {
            lemma_construct_wf(vec.points@);
            lemma_construct_size(vec.points@);
            lemma_construct_prefix_entries(vec.points@, vec.points@.len() as int);
            if forall|i: int| 0 <= i < vec.points@.len() ==> point_ok(#[trigger] vec.points@[i]) {
                lemma_construct_bounded(vec.points@);
            }
        }
        tree
    }

    /// Maximum root-to-leaf edge count; 0 for a single-node tree.
    pub fn depth(&self) -> (d: i32)
        requires
            self.spec_size() <= i32::MAX,
        ensures
            d == self.spec_depth(),
        decreases self.spec_size(),
    {
        proof {
            lemma_opt_size_nonneg(self.left);
            lemma_opt_size_nonneg(self.right);
            lemma_opt_depth_bound(self.left);
            lemma_opt_depth_bound(self.right);
        }
        match (&self.left, &self.right) {
            (Some(left), Some(right)) => {
                let ld: i32 = left.depth();
                let rd: i32 = right.depth();
                1 + if ld >= rd {
                    ld
                } else {
                    rd
                }
            }
            (None, None) => 0,
            (None, Some(right)) => 1 + right.depth(),
            (Some(left), None) => 1 + left.depth(),
        }
    }

    /// Total node count; equals the length of the sequence the tree was
    /// built from.
    pub fn size(&self) -> (s: i32)
        requires
            self.spec_size() <= i32::MAX,
        ensures
            s == self.spec_size(),
        decreases self.spec_size(),
    {
        proof {
            lemma_opt_size_nonneg(self.left);
            lemma_opt_size_nonneg(self.right);
        }
        match (&self.left, &self.right) {
            (Some(left), Some(right)) => 1 + left.size() + right.size(),
            (None, None) => 1,
            (None, Some(right)) => 1 + right.size(),
            (Some(left), None) => 1 + left.size(),
        }
    }
}

} // verus!
