//! The k-d tree over a borrowed vector of points, and its searches: the
//! `k` nearest points of a query, and the points within a radius of it.

use vstd::prelude::*;
use vstd::std_specs::cmp::PartialOrdIs;

use crate::cpus::{cross_of_machine, default_cross, floor_log2};
use crate::point::{
    lemma_partial_bound, lemma_square_bound, lemma_square_monotone, lemma_sq_dist_fits,
    lemma_sq_dist_ge_axis, max_sq_term, partial_sq_dist, read_coords, reads_coords, sq_dist,
    TraitPoint,
};
use crate::queue::{lemma_insert_position, insert_position, push_spec, FixedSizePriorityQueue};
use crate::select::{all_len, in_bounds, key_of, rows, rows_len, seg};
use crate::tree::{
    lemma_link_indices_bounded, lemma_split_height_le, link_axes, link_indices, link_mirrors,
    link_sized, link_wf, node_indices, node_wf, recurs_build, built_root, iota, Link,
};

verus! {

/// Point `a` comes before point `b` in order of squared distance from `q`,
/// the smaller index first among equally distant points.
pub open spec fn nearer(pts: Seq<Seq<i32>>, q: Seq<i32>, a: usize, b: usize) -> bool {
    ||| sq_dist(q, pts[a as int]) < sq_dist(q, pts[b as int])
    ||| (sq_dist(q, pts[a as int]) == sq_dist(q, pts[b as int]) && a < b)
}

/// `r` answers a search for the `k` points of `s` nearest to `q`: at most
/// `k` distinct indices of `s`, all of `s` if fewer than `k`, nearest
/// first, and no index left out is nearer than the last one returned.
pub open spec fn knn_result(
    s: Set<usize>,
    pts: Seq<Seq<i32>>,
    q: Seq<i32>,
    k: nat,
    r: Seq<usize>,
) -> bool {
    &&& r.len() <= k
    &&& r.no_duplicates()
    &&& forall|i: int| 0 <= i < r.len() ==> s.contains(#[trigger] r[i])
    &&& r.len() < k ==> forall|j: usize| #[trigger] s.contains(j) ==> r.contains(j)
    &&& forall|i: int, j: int| 0 <= i < j < r.len() ==> nearer(pts, q, #[trigger] r[i], #[trigger] r[j])
    &&& forall|j: usize|
        #[trigger] s.contains(j) && !r.contains(j) && r.len() > 0 ==> sq_dist(q, pts[j as int])
            >= sq_dist(q, pts[r.last() as int])
}

/// `p` lies within `radius` of `q`.
pub open spec fn in_radius(q: Seq<i32>, p: Seq<i32>, radius: i64) -> bool {
    radius > 0 && sq_dist(q, p) < radius * radius
}

/// `r` lists, once each, the indices of `s` whose points lie within
/// `radius` of `q`.
pub open spec fn radius_result(
    s: Set<usize>,
    pts: Seq<Seq<i32>>,
    q: Seq<i32>,
    radius: i64,
    r: Seq<usize>,
) -> bool {
    &&& r.no_duplicates()
    &&& forall|j: usize| #[trigger] r.contains(j) <==> s.contains(j) && in_radius(q, pts[j as int], radius)
}

/// The indices that a radius search of the subtree `l` reports, in the
/// order it reports them: the node's point if it lies within `radius` of
/// `q`, then those of the subtree on the query's side of the node's axis,
/// then those of the other subtree unless the query lies `radius` or more
/// from the node's point on that axis.
pub open spec fn radius_visit(l: Link, cs: Seq<Seq<i32>>, q: Seq<i32>, radius: i64) -> Seq<usize>
    decreases l,
{
    match l {
        None => Seq::empty(),
        Some(n) => {
            let here = if in_radius(q, cs[n.idx as int], radius) {
                seq![n.idx]
            } else {
                Seq::empty()
            };
            let d = q[n.axis as int] - cs[n.idx as int][n.axis as int];
            let reach = radius > 0 && (if d < 0 {
                -d
            } else {
                d
            }) < radius;
            if d < 0 {
                here + radius_visit(n.left, cs, q, radius) + if reach {
                    radius_visit(n.right, cs, q, radius)
                } else {
                    Seq::empty()
                }
            } else {
                here + radius_visit(n.right, cs, q, radius) + if reach {
                    radius_visit(n.left, cs, q, radius)
                } else {
                    Seq::empty()
                }
            }
        },
    }
}

/// The queue a nearest-point search of the subtree `l` leaves, from queue
/// `s` with room for `k` entries: the node's entry is pushed, the subtree
/// on the query's side of the node's axis searched, then the other subtree
/// too unless the queue is full and its last distance is no greater than
/// the squared distance from the query to the node's point on that axis.
pub open spec fn knn_visit(
    l: Link,
    cs: Seq<Seq<i32>>,
    q: Seq<i32>,
    k: nat,
    s: Seq<(u128, usize)>,
) -> Seq<(u128, usize)>
    decreases l,
{
    match l {
        None => s,
        Some(n) => {
            let s1 = push_spec(s, (sq_dist(q, cs[n.idx as int]) as u128, n.idx), k);
            let d = q[n.axis as int] - cs[n.idx as int][n.axis as int];
            if d < 0 {
                let s2 = knn_visit(n.left, cs, q, k, s1);
                if s2.len() < k || (s2.len() > 0 && s2.last().0 > d * d) {
                    knn_visit(n.right, cs, q, k, s2)
                } else {
                    s2
                }
            } else {
                let s2 = knn_visit(n.right, cs, q, k, s1);
                if s2.len() < k || (s2.len() > 0 && s2.last().0 > d * d) {
                    knn_visit(n.left, cs, q, k, s2)
                } else {
                    s2
                }
            }
        },
    }
}

/// The indices of the entries of a queue.
pub open spec fn queue_ids(s: Seq<(u128, usize)>) -> Seq<usize> {
    s.map_values(|e: (u128, usize)| e.1)
}

/// Concatenating sequences without duplicates and without common values
/// gives a sequence without duplicates.
proof fn lemma_concat_no_dup(a: Seq<usize>, b: Seq<usize>)
    requires
        a.no_duplicates(),
        b.no_duplicates(),
        forall|x: usize| a.contains(x) ==> !b.contains(x),
    ensures
        (a + b).no_duplicates(),
{
    let c = a + b;
    assert forall|i: int, j: int| 0 <= i < c.len() && 0 <= j < c.len() && i != j implies c[i] != c[j] by {
        if i < a.len() && j >= a.len() {
            assert(c[i] == a[i] && c[j] == b[j - a.len()]);
            assert(a.contains(a[i]));
            assert(b.contains(b[j - a.len()]));
        } else if j < a.len() && i >= a.len() {
            assert(c[j] == a[j] && c[i] == b[i - a.len()]);
            assert(a.contains(a[j]));
            assert(b.contains(b[i - a.len()]));
        } else if i < a.len() {
            assert(c[i] == a[i] && c[j] == a[j]);
        } else {
            assert(c[i] == b[i - a.len()] && c[j] == b[j - a.len()]);
        }
    }
}

proof fn lemma_concat_contains(a: Seq<usize>, b: Seq<usize>, x: usize)
    ensures
        (a + b).contains(x) <==> a.contains(x) || b.contains(x),
{
    if a.contains(x) {
        let i = choose|i: int| 0 <= i < a.len() && a[i] == x;
        assert((a + b)[i] == x);
    }
    if b.contains(x) {
        let i = choose|i: int| 0 <= i < b.len() && b[i] == x;
        assert((a + b)[a.len() + i] == x);
    }
    if (a + b).contains(x) {
        let i = choose|i: int| 0 <= i < (a + b).len() && (a + b)[i] == x;
        if i < a.len() {
            assert(a[i] == x);
        } else {
            assert(b[i - a.len()] == x);
        }
    }
}

/// A radius search of a well-formed subtree reports, once each, exactly
/// its points within the radius.
pub proof fn lemma_radius_visit(l: Link, cs: Seq<Seq<i32>>, q: Seq<i32>, radius: i64, dims: nat)
    requires
        link_wf(l, cs, dims),
        all_len(cs, dims),
        q.len() == dims,
    ensures
        radius_result(link_indices(l), cs, q, radius, radius_visit(l, cs, q, radius)),
    decreases l,
{
    match l {
        None => {},
        Some(n) => {
            assert(node_wf(*n, cs, dims));
            lemma_radius_visit(n.left, cs, q, radius, dims);
            lemma_radius_visit(n.right, cs, q, radius, dims);
            lemma_link_indices_bounded(n.left, cs, dims);
            lemma_link_indices_bounded(n.right, cs, dims);
            let idx = n.idx;
            let axis = n.axis as int;
            let here = if in_radius(q, cs[idx as int], radius) {
                seq![idx]
            } else {
                Seq::<usize>::empty()
            };
            let d = q[axis] - cs[idx as int][axis];
            let reach = radius > 0 && (if d < 0 {
                -d
            } else {
                d
            }) < radius;
            let is_left = d < 0;
            let (near_l, far_l) = if is_left {
                (n.left, n.right)
            } else {
                (n.right, n.left)
            };
            let near = radius_visit(near_l, cs, q, radius);
            let far = if reach {
                radius_visit(far_l, cs, q, radius)
            } else {
                Seq::<usize>::empty()
            };
            assert(radius_visit(l, cs, q, radius) == here + near + far);
            // no point of the far side lies within the radius unless the search goes there
            if !reach {
                assert forall|j: usize| #[trigger] link_indices(far_l).contains(j) implies !in_radius(
                    q,
                    cs[j as int],
                    radius,
                ) by {
                    lemma_far_side(cs, q, idx, j, axis, is_left);
                    let dd = d;
                    if radius > 0 {
                        if dd < 0 {
                            lemma_square_monotone(-dd, radius as int);
                        } else {
                            lemma_square_monotone(dd, radius as int);
                        }
                        assert(dd * dd == (-dd) * (-dd)) by (nonlinear_arith);
                    }
                }
            }
            lemma_concat_no_dup(here, near);
            assert forall|x: usize| (here + near).contains(x) implies !far.contains(x) by {
                lemma_concat_contains(here, near, x);
                if here.contains(x) {
                    assert(x == idx);
                }
            }
            lemma_concat_no_dup(here + near, far);
            assert forall|j: usize| #[trigger] radius_visit(l, cs, q, radius).contains(j) <==> link_indices(
                l,
            ).contains(j) && in_radius(q, cs[j as int], radius) by {
                lemma_concat_contains(here + near, far, j);
                lemma_concat_contains(here, near, j);
                assert(link_indices(l) == node_indices(*n));
                if here.contains(j) {
                    assert(j == idx);
                }
                if j == idx {
                    if in_radius(q, cs[j as int], radius) {
                        assert(here[0] == j);
                    }
                }
            }
        },
    }
}

/// A queue entry: the squared distance of a point from the query, and the
/// point's index.
spec fn entry_ok(pts: Seq<Seq<i32>>, q: Seq<i32>, e: (u128, usize)) -> bool {
    e.1 < pts.len() && e.0 == sq_dist(q, pts[e.1 as int])
}

/// Entries ordered by distance, then by index.
spec fn pair_lt(a: (u128, usize), b: (u128, usize)) -> bool {
    a.0 < b.0 || (a.0 == b.0 && a.1 < b.1)
}

spec fn holds_id(s: Seq<(u128, usize)>, j: usize) -> bool {
    exists|i: int| 0 <= i < s.len() && (#[trigger] s[i]).1 == j
}

/// The queue of a nearest-point search after the points of `c` have been
/// considered: at most `k` entries of points of `c` in ascending order,
/// and any point of `c` left out is no nearer than the last entry, which
/// can only happen when the queue is full.
spec fn queue_inv(
    s: Seq<(u128, usize)>,
    k: nat,
    c: Set<usize>,
    pts: Seq<Seq<i32>>,
    q: Seq<i32>,
) -> bool {
    &&& s.len() <= k
    &&& forall|i: int| 0 <= i < s.len() ==> entry_ok(pts, q, #[trigger] s[i]) && c.contains(s[i].1)
    &&& forall|i: int, j: int| 0 <= i < j < s.len() ==> pair_lt(#[trigger] s[i], #[trigger] s[j])
    &&& forall|j: usize|
        #[trigger] c.contains(j) && !holds_id(s, j) ==> s.len() == k && (k > 0 ==> sq_dist(
            q,
            pts[j as int],
        ) >= s.last().0)
}

proof fn lemma_pair_gt(a: (u128, usize), b: (u128, usize))
    ensures
        a.is_gt(&b) <==> pair_lt(b, a),
{
}

/// Pushing the entry of a point not yet considered keeps the queue
/// invariant, with that point now considered.
proof fn lemma_knn_push(
    s: Seq<(u128, usize)>,
    x: (u128, usize),
    k: nat,
    c: Set<usize>,
    pts: Seq<Seq<i32>>,
    q: Seq<i32>,
)
    requires
        queue_inv(s, k, c, pts, q),
        entry_ok(pts, q, x),
        !c.contains(x.1),
    ensures
        queue_inv(push_spec(s, x, k), k, c.insert(x.1), pts, q),
{
    lemma_insert_position(s, x);
    let p = insert_position(s, x);
    let ins = s.insert(p, x);
    let r = push_spec(s, x, k);
    let c2 = c.insert(x.1);
    assert forall|i: int| 0 <= i < p implies pair_lt(s[i], x) by {
        lemma_pair_gt(s[i], x);
        assert(c.contains(s[i].1));
    }
    if p < s.len() {
        lemma_pair_gt(s[p], x);
    }
    assert forall|a: int, b: int| 0 <= a < b < ins.len() implies pair_lt(ins[a], ins[b]) by {
        if b < p {
            assert(ins[a] == s[a] && ins[b] == s[b]);
        } else if b == p {
            assert(ins[a] == s[a] && ins[b] == x);
        } else if a < p {
            assert(ins[a] == s[a] && ins[b] == s[b - 1]);
        } else if a == p {
            assert(ins[a] == x && ins[b] == s[b - 1]);
            if b - 1 > p {
                assert(pair_lt(s[p], s[b - 1]));
            }
        } else {
            assert(ins[a] == s[a - 1] && ins[b] == s[b - 1]);
        }
    }
    assert forall|i: int| 0 <= i < ins.len() implies entry_ok(pts, q, #[trigger] ins[i]) && c2.contains(
        ins[i].1,
    ) by {
        if i < p {
            assert(ins[i] == s[i]);
        } else if i > p {
            assert(ins[i] == s[i - 1]);
        }
    }
    assert(r.len() <= k);
    assert forall|i: int| 0 <= i < r.len() implies r[i] == ins[i] by {}
    assert forall|j: usize| #[trigger] c2.contains(j) && !holds_id(r, j) implies r.len() == k && (k
        > 0 ==> sq_dist(q, pts[j as int]) >= r.last().0) by {
        if j == x.1 {
            if p < r.len() {
                assert(r[p] == x);
                assert(holds_id(r, j));
            }
            assert(p == s.len());
            assert(r.len() == k);
            if k > 0 {
                assert(pair_lt(ins[k - 1], ins[k as int]));
            }
        } else if holds_id(s, j) {
            let m = choose|m: int| 0 <= m < s.len() && (#[trigger] s[m]).1 == j;
            let m2 = if m < p {
                m
            } else {
                m + 1
            };
            assert(ins[m2] == s[m]);
            if m2 < r.len() {
                assert(r[m2] == ins[m2]);
                assert(holds_id(r, j));
            }
            assert(r.len() == k);
            if k > 0 {
                assert(pair_lt(ins[k - 1], ins[k as int]));
            }
        } else {
            assert(s.len() == k);
            if k > 0 {
                let last = s[k - 1];
                if p == k {
                    assert(r.last() == last);
                } else if p == k - 1 {
                    assert(r.last() == x);
                    assert(pair_lt(x, last));
                } else {
                    assert(r.last() == s[k - 2]);
                    assert(pair_lt(s[k - 2], last));
                }
            }
        }
    }
}


/// A k-d tree over the points of `points`, split on axis `depth % DIM` at
/// depth `depth`. A build reads the coordinates of every point once and
/// keeps them; the searches read those of the query.
#[derive(Debug)]
pub struct KDTree<'a, T: TraitPoint> {
    root: Link,
    points: &'a Vec<T>,
    coords: Vec<Vec<i32>>,
    cross: usize,
}

impl<'a, T: TraitPoint> KDTree<'a, T> {
    #[verifier::type_invariant]
    spec fn well_formed(self) -> bool {
        &&& rows_len(self.coords@, T::DIM as nat)
        &&& link_wf(self.root, rows(self.coords@), T::DIM as nat)
    }

    /// The tree's nodes.
    pub closed spec fn root_link(self) -> Link {
        self.root
    }

    /// The coordinate rows the last build read, one per point.
    pub closed spec fn coord_vecs(self) -> Seq<Vec<i32>> {
        self.coords@
    }

    /// The indices of the points that the tree holds: none before `build`,
    /// every point after it.
    pub open spec fn indexed(self) -> Set<usize> {
        link_indices(self.root_link())
    }

    /// The points the tree is over.
    pub closed spec fn point_seq(self) -> Seq<T> {
        self.points@
    }

    /// The coordinates of the points, as the last build read them.
    pub open spec fn coords(self) -> Seq<Seq<i32>> {
        rows(self.coord_vecs())
    }

    /// The depth down to which a build may split its work.
    pub closed spec fn cross_depth(self) -> usize {
        self.cross
    }

    /// The tree has the shape of the median splits: a subtree over `m`
    /// points has `left_count(m)` of them on its left, and the nodes at
    /// depth `d` split on axis `d % DIM`.
    pub open spec fn median_shaped(self) -> bool {
        link_sized(self.root_link(), self.coord_vecs().len()) && link_axes(
            self.root_link(),
            0,
            T::DIM as nat,
        )
    }

    /// The tree is a k-d tree over the coordinates read: every node names a
    /// point and an axis, each point appears once, and the points of a left
    /// (right) subtree have no greater (no smaller) coordinate on the
    /// node's axis than the node's point.
    pub open spec fn kd_ordered(self) -> bool {
        &&& rows_len(self.coord_vecs(), T::DIM as nat)
        &&& link_wf(self.root_link(), self.coords(), T::DIM as nat)
    }

    /// The tree is the one a build over its points makes: its coordinates
    /// are values `dim` returned for each point, and its nodes are
    /// `built_root` of them.
    pub open spec fn is_built(self) -> bool {
        &&& self.coords().len() == self.point_seq().len()
        &&& forall|i: int|
            0 <= i < self.point_seq().len() ==> reads_coords(
                self.point_seq()[i],
                #[trigger] self.coords()[i],
            )
        &&& self.root_link() == built_root(self.coords(), T::DIM as nat)
    }

    /// An empty tree over `points`, with the split depth of this machine.
    pub fn new(points: &'a Vec<T>) -> (t: Self)
        ensures
            t.point_seq() == points@,
            t.indexed() == Set::<usize>::empty(),
            t.coords() == Seq::<Seq<i32>>::empty(),
            t.kd_ordered(),
            exists|n: nat| 1 <= n <= usize::MAX && #[trigger] floor_log2(n) == t.cross_depth(),
            cross_of_machine(t.cross_depth()),
    {
        let t = Self { root: None, points: points, coords: Vec::new(), cross: default_cross() };
        assert(link_indices(None) =~= Set::<usize>::empty());
        assert(rows(t.coords@) =~= Seq::<Seq<i32>>::empty());
        t
    }

    /// The same tree, over the same points and coordinates, with split
    /// depth `c`.
    pub closed spec fn with_cross(self, c: usize) -> Self {
        KDTree { root: self.root, points: self.points, coords: self.coords, cross: c }
    }

    /// Sets the split depth and changes nothing else.
    pub fn set_cross(&mut self, cross: usize)
        ensures
            *final(self) == old(self).with_cross(cross),
            final(self).cross_depth() == cross,
            final(self).root_link() == old(self).root_link(),
            final(self).coord_vecs() == old(self).coord_vecs(),
            final(self).kd_ordered(),
            final(self).point_seq() == old(self).point_seq(),
            final(self).coords() == old(self).coords(),
            final(self).indexed() == old(self).indexed(),
            final(self).median_shaped() == old(self).median_shaped(),
    {
        proof {
            use_type_invariant(&*self);
        }
        self.cross = cross;
    }

    /// The split depth.
    pub fn get_cross(&mut self) -> (c: usize)
        ensures
            c == old(self).cross_depth(),
            *final(self) == *old(self),
            old(self).kd_ordered(),
    {
        proof {
            use_type_invariant(&*self);
        }
        self.cross
    }

    /// Builds the tree over every point: reads the coordinates of each
    /// point, then puts the point of median coordinate on the first axis at
    /// the root and the points before and after it in the subtrees, split
    /// the same way on the following axes.
    pub fn build(&mut self)
        requires
            old(self).point_seq().len() > 0,
            T::DIM > 0,
        ensures
            final(self).point_seq() == old(self).point_seq(),
            final(self).cross_depth() == old(self).cross_depth(),
            final(self).coords().len() == old(self).point_seq().len(),
            forall|i: int|
                0 <= i < old(self).point_seq().len() ==> reads_coords(
                    old(self).point_seq()[i],
                    #[trigger] final(self).coords()[i],
                ),
            final(self).indexed() == Set::new(|i: usize| i < old(self).point_seq().len()),
            final(self).median_shaped(),
            final(self).kd_ordered(),
            final(self).root_link() == built_root(final(self).coords(), T::DIM as nat),
            final(self).is_built(),
            exists|b: Seq<usize>|
                b.len() == old(self).point_seq().len() && b.no_duplicates() && #[trigger] link_mirrors(
                    final(self).root_link(),
                    b,
                    0,
                    b.len() - 1,
                ),
    {
        self.cleaer();
        let n = self.points.len();
        let mut coords: Vec<Vec<i32>> = Vec::new();
        let mut i: usize = 0;
        while i < n
            invariant
                i <= n,
                n == self.points.len(),
                coords.len() == i,
                rows_len(coords@, T::DIM as nat),
                forall|j: int| 0 <= j < i ==> reads_coords(self.points@[j], #[trigger] coords@[j]@),
            decreases n - i,
        {
            let c = read_coords(&self.points[i]);
            coords.push(c);
            i = i + 1;
        }
        let mut indices: Vec<usize> = Vec::new();
        let mut i: usize = 0;
        while i < n
            invariant
                i <= n,
                indices.len() == i,
                forall|j: int| 0 <= j < i ==> indices@[j] == j,
            decreases n - i,
        {
            indices.push(i);
            i = i + 1;
        }
        let len = indices.len() - 1;
        proof {
            lemma_split_height_le(n as nat);
            assert(indices@ =~= iota(n as nat));
            assert(indices@.no_duplicates());
            assert(in_bounds(indices@, 0, len as int, n as int));
            assert(seg(indices@, 0, len as int) =~= Set::new(|j: usize| j < n)) by {
                assert forall|j: usize| j < n implies seg(indices@, 0, len as int).contains(j) by {
                    assert(indices@[j as int] == j);
                }
            }
        }
        let root = recurs_build(&coords, T::DIM, &mut indices, 0, len, 0);
        self.coords = coords;
        self.root = root;
        assert(link_mirrors(self.root, indices@, 0, indices@.len() - 1));
    }

    /// Squared Euclidean distance of the points with coordinates `l` and
    /// `r`.
    fn dist(l: &Vec<i32>, r: &Vec<i32>) -> (d: u128)
        requires
            l.len() == r.len(),
        ensures
            d == sq_dist(l@, r@),
    {
        let mut acc: u128 = 0;
        let mut i: usize = 0;
        while i < l.len()
            invariant
                i <= l.len() == r.len(),
                acc == partial_sq_dist(l@, r@, i as nat),
            decreases l.len() - i,
        {
            proof {
                lemma_partial_bound(l@, r@, i as nat);
                lemma_square_bound(l@[i as int] - r@[i as int]);
                let ii: int = i as int;
                assert(ii < 0xFFFF_FFFF_FFFF_FFFFint);
                assert(ii * max_sq_term() + max_sq_term() <= 0xFFFF_FFFF_FFFF_FFFF * max_sq_term())
                    by (nonlinear_arith)
                    requires
                        0 <= ii < 0xFFFF_FFFF_FFFF_FFFFint,
                        max_sq_term() == 0xFFFF_FFFE_0000_0001,
                ;
            }
            let base: i64 = l[i] as i64 - r[i] as i64;
            let sq: u128 = (base as i128 * base as i128) as u128;
            acc = acc + sq;
            i = i + 1;
        }
        acc
    }

    /// Searches the subtree `node` for points nearer to `query` than those
    /// in the queue: the near side of each node first, then the far side
    /// unless the queue is full and no point there can be nearer than its
    /// last entry.
    fn recurs_knn_search(
        &self,
        k: usize,
        query: &Vec<i32>,
        node: &Link,
        queue: &mut FixedSizePriorityQueue<(u128, usize)>,
        Ghost(covered): Ghost<Set<usize>>,
    )
        requires
            query.len() == T::DIM,
            rows_len(self.coords@, T::DIM as nat),
            link_wf(*node, rows(self.coords@), T::DIM as nat),
            old(queue).max == k,
            queue_inv(old(queue).vec@, k as nat, covered, rows(self.coords@), query@),
            covered.disjoint(link_indices(*node)),
        ensures
            final(queue).max == k,
            final(queue).vec@ == knn_visit(*node, rows(self.coords@), query@, k as nat, old(queue).vec@),
            queue_inv(
                final(queue).vec@,
                k as nat,
                covered.union(link_indices(*node)),
                rows(self.coords@),
                query@,
            ),
        decreases *node,
    {
        let (idx, axis, left, right) = match node {
            None => {
                assert(covered.union(link_indices(*node)) =~= covered);
                return ;
            },
            Some(n) => (n.idx, n.axis, &n.left, &n.right),
        };
        let ghost cs = rows(self.coords@);
        let ghost pts = cs;
        let ghost q = query@;
        let ghost n = match node {
            Some(n) => **n,
            None => arbitrary(),
        };
        assert(node_wf(n, cs, T::DIM as nat));
        let cur = &self.coords[idx];
        let dist = Self::dist(query, cur);
        proof {
            lemma_knn_push(queue.vec@, (dist, idx), k as nat, covered, pts, q);
        }
        queue.push((dist, idx));
        let ghost c1 = covered.insert(idx);
        let qa = query[axis];
        let ca = cur[axis];
        let is_left = if qa < ca {
            self.recurs_knn_search(k, query, left, queue, Ghost(c1));
            true
        } else {
            self.recurs_knn_search(k, query, right, queue, Ghost(c1));
            false
        };
        let ghost near = if is_left {
            link_indices(*left)
        } else {
            link_indices(*right)
        };
        let ghost far = if is_left {
            link_indices(*right)
        } else {
            link_indices(*left)
        };
        let ghost c2 = c1.union(near);
        let cond1 = queue.len() < k;
        let diff: u64 = if qa < ca {
            (ca as i64 - qa as i64) as u64
        } else {
            (qa as i64 - ca as i64) as u64
        };
        proof {
            lemma_square_bound(diff as int);
            let y: int = qa - ca;
            let dd: int = diff as int;
            assert(dd * dd == y * y) by (nonlinear_arith)
                requires
                    dd == y || dd == -y,
            ;
        }
        let diff2: u128 = diff as u128 * diff as u128;
        let cond2 = match queue.last() {
            None => false,
            Some(tuple) => tuple.0 > diff2,
        };
        proof {
            lemma_sq_dist_fits(q, cs[idx as int]);
            assert(dist == sq_dist(q, cs[idx as int]) as u128);
            assert(diff2 == (qa - ca) * (qa - ca));
        }
        if cond1 || cond2 {
            match is_left {
                true => {
                    self.recurs_knn_search(k, query, right, queue, Ghost(c2));
                },
                false => {
                    self.recurs_knn_search(k, query, left, queue, Ghost(c2));
                },
            }
            assert(c2.union(far) =~= covered.union(link_indices(*node)));
        } else {
            proof {
                let s = queue.vec@;
                lemma_link_indices_bounded(*left, cs, T::DIM as nat);
                lemma_link_indices_bounded(*right, cs, T::DIM as nat);
                assert forall|j: usize| #[trigger] far.contains(j) implies sq_dist(q, pts[j as int])
                    >= diff2 && !holds_id(s, j) by {
                    lemma_far_side(cs, q, idx, j, axis as int, is_left);
                    if is_left {
                        assert(link_indices(*right).contains(j));
                    } else {
                        assert(link_indices(*left).contains(j));
                    }
                    if holds_id(s, j) {
                        let i = choose|i: int| 0 <= i < s.len() && (#[trigger] s[i]).1 == j;
                        assert(c2.contains(s[i].1));
                    }
                }
            }
            assert(c2.union(far) =~= covered.union(link_indices(*node)));
        }
    }

    /// The indices of the `k` points nearest to the query whose coordinates
    /// are `query`, nearest first; of equally distant points in the result,
    /// the smaller index first.
    pub fn knn_search_coords(&self, query: &Vec<i32>, k: usize) -> (r: Vec<usize>)
        requires
            query.len() == T::DIM,
            k < usize::MAX,
        ensures
            r@ == queue_ids(
                knn_visit(self.root_link(), self.coords(), query@, k as nat, Seq::empty()),
            ),
            knn_result(self.indexed(), self.coords(), query@, k as nat, r@),
    {
        proof {
            use_type_invariant(self);
        }
        let mut queue: FixedSizePriorityQueue<(u128, usize)> = FixedSizePriorityQueue::new(k);
        let node = &self.root;
        self.recurs_knn_search(k, query, node, &mut queue, Ghost(Set::empty()));
        let ghost s = queue.vec@;
        let ghost pts = rows(self.coords@);
        assert(Set::<usize>::empty().union(link_indices(self.root)) =~= link_indices(self.root));
        let mut r: Vec<usize> = Vec::new();
        let mut i: usize = 0;
        while i < queue.vec.len()
            invariant
                queue.vec@ == s,
                i <= s.len(),
                r.len() == i,
                forall|j: int| 0 <= j < i ==> r@[j] == s[j].1,
            decreases s.len() - i,
        {
            r.push(queue.vec[i].1);
            i = i + 1;
        }
        proof {
            assert(r@ =~= queue_ids(s));
            assert forall|j: usize| r@.contains(j) <==> holds_id(s, j) by {
                if holds_id(s, j) {
                    let m = choose|m: int| 0 <= m < s.len() && (#[trigger] s[m]).1 == j;
                    assert(r@[m] == j);
                }
                if r@.contains(j) {
                    let m = choose|m: int| 0 <= m < r.len() && r@[m] == j;
                    assert(s[m].1 == j);
                }
            }
            assert forall|a: int, b: int| 0 <= a < r.len() && 0 <= b < r.len() && a != b implies r@[a]
                != r@[b] by {
                if a < b {
                    assert(pair_lt(s[a], s[b]));
                } else {
                    assert(pair_lt(s[b], s[a]));
                }
            }
            assert forall|a: int, b: int| 0 <= a < b < r.len() implies nearer(
                pts,
                query@,
                #[trigger] r@[a],
                #[trigger] r@[b],
            ) by {
                assert(pair_lt(s[a], s[b]));
                assert(entry_ok(pts, query@, s[a]) && entry_ok(pts, query@, s[b]));
            }
            if r.len() > 0 {
                assert(entry_ok(pts, query@, s[s.len() - 1]));
            }
        }
        r
    }

    /// The indices of the `k` points nearest to `query`, nearest first; of
    /// equally distant points in the result, the smaller index first.
    pub fn knn_search(&mut self, query: &T, k: usize) -> (r: Vec<usize>)
        requires
            k < usize::MAX,
        ensures
            *final(self) == *old(self),
            old(self).kd_ordered(),
            exists|q: Seq<i32>|
                reads_coords(*query, q) && r@ == queue_ids(
                    knn_visit(old(self).root_link(), old(self).coords(), q, k as nat, Seq::empty()),
                ) && #[trigger] knn_result(
                    old(self).indexed(),
                    old(self).coords(),
                    q,
                    k as nat,
                    r@,
                ),
    {
        proof {
            use_type_invariant(&*self);
        }
        let q = read_coords(query);
        let r = self.knn_search_coords(&q, k);
        assert(reads_coords(*query, q@) && knn_result(self.indexed(), self.coords(), q@, k as nat, r@));
        r
    }

    /// The indices of the points within `radius` of the query whose
    /// coordinates are `query`, each once, in the order the search reaches
    /// them.
    pub fn radius_search_coords(&self, query: &Vec<i32>, radius: i64) -> (r: Vec<usize>)
        requires
            query.len() == T::DIM,
        ensures
            r@ == radius_visit(self.root_link(), self.coords(), query@, radius),
            radius_result(self.indexed(), self.coords(), query@, radius, r@),
    {
        proof {
            use_type_invariant(self);
            lemma_radius_visit(self.root, rows(self.coords@), query@, radius, T::DIM as nat);
        }
        let node = &self.root;
        let mut indices: Vec<usize> = Vec::new();
        self.recurs_radius_search(radius, query, node, &mut indices);
        assert(indices@ =~= radius_visit(self.root, rows(self.coords@), query@, radius));
        indices
    }

    /// The indices of the points within `radius` of `query`, each once, in
    /// the order the search reaches them.
    pub fn radius_search(&mut self, query: &T, radius: i64) -> (r: Vec<usize>)
        ensures
            *final(self) == *old(self),
            old(self).kd_ordered(),
            exists|q: Seq<i32>|
                reads_coords(*query, q) && r@ == radius_visit(
                    old(self).root_link(),
                    old(self).coords(),
                    q,
                    radius,
                ) && #[trigger] radius_result(
                    old(self).indexed(),
                    old(self).coords(),
                    q,
                    radius,
                    r@,
                ),
    {
        proof {
            use_type_invariant(&*self);
        }
        let q = read_coords(query);
        let r = self.radius_search_coords(&q, radius);
        assert(reads_coords(*query, q@) && radius_result(self.indexed(), self.coords(), q@, radius, r@));
        r
    }

    /// Appends to `indices` the points of the subtree `node` within
    /// `radius` of `query`: the node's point if it lies within, then those
    /// of the near side, then those of the far side unless it lies a
    /// radius or more away on the node's axis.
    fn recurs_radius_search(
        &self,
        radius: i64,
        query: &Vec<i32>,
        node: &Link,
        indices: &mut Vec<usize>,
    )
        requires
            query.len() == T::DIM,
            rows_len(self.coords@, T::DIM as nat),
            link_wf(*node, rows(self.coords@), T::DIM as nat),
        ensures
            final(indices)@ == old(indices)@ + radius_visit(*node, rows(self.coords@), query@, radius),
        decreases *node,
    {
        let (idx, axis, left, right) = match node {
            None => {
                assert(old(indices)@ + Seq::<usize>::empty() =~= old(indices)@);
                return ;
            },
            Some(n) => (n.idx, n.axis, &n.left, &n.right),
        };
        let ghost cs = rows(self.coords@);
        let ghost q = query@;
        let ghost before = indices@;
        let ghost n = match node {
            Some(n) => **n,
            None => arbitrary(),
        };
        assert(node_wf(n, cs, T::DIM as nat));
        let cur = &self.coords[idx];
        let dist = Self::dist(query, cur);
        proof {
            lemma_sq_dist_fits(q, cs[idx as int]);
            let rr: int = radius as int;
            if rr > 0 {
                assert(rr * rr <= 0x4000_0000_0000_0000_0000_0000_0000_0000) by (nonlinear_arith)
                    requires
                        0 < rr <= 0x7FFF_FFFF_FFFF_FFFF,
                ;
            }
        }
        let within = radius > 0 && dist < radius as u128 * radius as u128;
        if within {
            indices.push(idx);
        }
        let ghost after_here = indices@;
        let qa = query[axis];
        let ca = cur[axis];
        let is_left = if qa < ca {
            self.recurs_radius_search(radius, query, left, indices);
            true
        } else {
            self.recurs_radius_search(radius, query, right, indices);
            false
        };
        let ghost after_near = indices@;
        let diff: u64 = if qa < ca {
            (ca as i64 - qa as i64) as u64
        } else {
            (qa as i64 - ca as i64) as u64
        };
        let go_far = radius > 0 && (diff as u128) < radius as u128;
        if go_far {
            match is_left {
                true => {
                    self.recurs_radius_search(radius, query, right, indices);
                },
                false => {
                    self.recurs_radius_search(radius, query, left, indices);
                },
            }
        }
        proof {
            let here = if within {
                seq![idx]
            } else {
                Seq::<usize>::empty()
            };
            assert(within == in_radius(q, cs[idx as int], radius));
            assert(after_here =~= before + here);
            let near = if is_left {
                radius_visit(*left, cs, q, radius)
            } else {
                radius_visit(*right, cs, q, radius)
            };
            let far = if !go_far {
                Seq::<usize>::empty()
            } else if is_left {
                radius_visit(*right, cs, q, radius)
            } else {
                radius_visit(*left, cs, q, radius)
            };
            let dd: int = qa - ca;
            assert(go_far == (radius > 0 && (if dd < 0 {
                -dd
            } else {
                dd
            }) < radius));
            assert(radius_visit(*node, cs, q, radius) == here + near + far);
            assert(indices@ =~= before + (here + near + far));
        }
    }

    fn cleaer(&mut self)
        ensures
            final(self).root is None,
            final(self).points == old(self).points,
            final(self).coords == old(self).coords,
            final(self).cross == old(self).cross,
    {
        proof {
            use_type_invariant(&*self);
        }
        self.root = None
    }
}

/// A point on the far side of a node, away from the query, lies at least
/// as far from the query as the node's splitting plane.
proof fn lemma_far_side(
    cs: Seq<Seq<i32>>,
    q: Seq<i32>,
    idx: usize,
    j: usize,
    axis: int,
    is_left: bool,
)
    requires
        0 <= axis < q.len(),
        j < cs.len(),
        idx < cs.len(),
        cs[j as int].len() == q.len(),
        cs[idx as int].len() == q.len(),
        is_left ==> q[axis] < cs[idx as int][axis] && key_of(cs, j, axis) >= key_of(cs, idx, axis),
        !is_left ==> q[axis] >= cs[idx as int][axis] && key_of(cs, j, axis) <= key_of(
            cs,
            idx,
            axis,
        ),
    ensures
        sq_dist(q, cs[j as int]) >= (q[axis] - cs[idx as int][axis]) * (q[axis]
            - cs[idx as int][axis]),
{
    let pj = cs[j as int];
    lemma_sq_dist_ge_axis(q, pj, axis, q.len());
    lemma_square_monotone(q[axis] - pj[axis], q[axis] - cs[idx as int][axis]);
}

} // verus!
