//! What holds of every answer of the searches, over the contracts of
//! `KDTree::build`, `KDTree::knn_search` and `KDTree::radius_search`.

use vstd::prelude::*;

use crate::kdtree::{
    in_radius, knn_result, knn_visit, nearer, radius_result, radius_visit, KDTree,
};
use crate::point::{reads_coords, sq_dist, TraitPoint};
use crate::tree::{built_root, Link};

verus! {

/// The indices `0 .. n`, which a built tree over `n` points holds.
pub open spec fn all_indices(n: nat) -> Set<usize> {
    Set::new(|i: usize| i < n)
}

proof fn lemma_all_indices_len(n: nat)
    requires
        n <= usize::MAX + 1,
    ensures
        all_indices(n).finite(),
        all_indices(n).len() == n,
    decreases n,
{
    if n == 0 {
        assert(all_indices(0) =~= Set::<usize>::empty());
    } else {
        lemma_all_indices_len((n - 1) as nat);
        let m = (n - 1) as usize;
        assert(all_indices(n) =~= all_indices((n - 1) as nat).insert(m));
    }
}

/// A search for the `k` nearest of `n` points returns `min(k, n)` of them.
pub proof fn law_knn_count(n: nat, pts: Seq<Seq<i32>>, q: Seq<i32>, k: nat, r: Seq<usize>)
    requires
        n <= usize::MAX + 1,
        knn_result(all_indices(n), pts, q, k, r),
    ensures
        r.len() == if k < n {
            k
        } else {
            n
        },
{
    let s = all_indices(n);
    lemma_all_indices_len(n);
    r.unique_seq_to_set();
    assert(r.to_set().subset_of(s));
    vstd::set_lib::lemma_len_subset(r.to_set(), s);
    if r.len() < k {
        assert(s.subset_of(r.to_set()));
        vstd::set_lib::lemma_len_subset(s, r.to_set());
    }
}

/// Every point a nearest-point search returns is at least as near to the
/// query as every point it leaves out.
pub proof fn law_knn_returned_nearer(
    s: Set<usize>,
    pts: Seq<Seq<i32>>,
    q: Seq<i32>,
    k: nat,
    r: Seq<usize>,
    i: int,
    j: usize,
)
    requires
        knn_result(s, pts, q, k, r),
        0 <= i < r.len(),
        s.contains(j),
        !r.contains(j),
    ensures
        sq_dist(q, pts[r[i] as int]) <= sq_dist(q, pts[j as int]),
{
    if i < r.len() - 1 {
        assert(nearer(pts, q, r[i], r[r.len() - 1]));
    }
}

/// The first point a nearest-point search returns is a nearest point of
/// the tree.
pub proof fn law_knn_first_is_nearest(
    s: Set<usize>,
    pts: Seq<Seq<i32>>,
    q: Seq<i32>,
    k: nat,
    r: Seq<usize>,
    j: usize,
)
    requires
        knn_result(s, pts, q, k, r),
        r.len() > 0,
        s.contains(j),
    ensures
        sq_dist(q, pts[r[0] as int]) <= sq_dist(q, pts[j as int]),
{
    if r.contains(j) {
        let m = choose|m: int| 0 <= m < r.len() && r[m] == j;
        if m > 0 {
            assert(nearer(pts, q, r[0], r[m]));
        }
    } else {
        law_knn_returned_nearer(s, pts, q, k, r, 0, j);
    }
}

/// In the ranking a nearest-point search returns, no point outside a radius
/// comes before a point inside it.
pub proof fn law_radius_is_nearest_prefix(
    s: Set<usize>,
    pts: Seq<Seq<i32>>,
    q: Seq<i32>,
    k: nat,
    r: Seq<usize>,
    radius: i64,
    w: Seq<usize>,
    a: int,
    b: int,
)
    requires
        knn_result(s, pts, q, k, r),
        radius_result(s, pts, q, radius, w),
        0 <= a < b < r.len(),
        w.contains(r[b]),
    ensures
        w.contains(r[a]),
{
    assert(nearer(pts, q, r[a], r[b]));
    assert(s.contains(r[a]));
    assert(in_radius(q, pts[r[b] as int], radius));
}

/// A search for at least `n` nearest of `n` points returns every one.
pub proof fn law_knn_all_covers(n: nat, pts: Seq<Seq<i32>>, q: Seq<i32>, k: nat, r: Seq<usize>)
    requires
        n <= usize::MAX + 1,
        knn_result(all_indices(n), pts, q, k, r),
        k >= n,
    ensures
        forall|j: usize| #[trigger] all_indices(n).contains(j) ==> r.contains(j),
{
    law_knn_count(n, pts, q, k, r);
    let s = all_indices(n);
    assert forall|j: usize| #[trigger] s.contains(j) implies r.contains(j) by {
        if !r.contains(j) {
            lemma_all_indices_len(n);
            r.unique_seq_to_set();
            assert(r.to_set().subset_of(s.remove(j)));
            vstd::set_lib::lemma_len_subset(r.to_set(), s.remove(j));
        }
    }
}

/// Position of the first point of `r`, at `i` or after, that `w` does not
/// hold; `r.len()` when there is none.
pub open spec fn first_outside(r: Seq<usize>, w: Seq<usize>, i: int) -> int
    decreases r.len() - i,
{
    if i < 0 || i >= r.len() {
        r.len() as int
    } else if !w.contains(r[i]) {
        i
    } else {
        first_outside(r, w, i + 1)
    }
}

proof fn lemma_first_outside(r: Seq<usize>, w: Seq<usize>, i: int)
    requires
        0 <= i <= r.len(),
    ensures
        i <= first_outside(r, w, i) <= r.len(),
        forall|m: int| i <= m < first_outside(r, w, i) ==> w.contains(#[trigger] r[m]),
        first_outside(r, w, i) < r.len() ==> !w.contains(r[first_outside(r, w, i)]),
    decreases r.len() - i,
{
    if i < r.len() && w.contains(r[i]) {
        lemma_first_outside(r, w, i + 1);
    }
}

/// When a nearest-point search returns every point, a search within a
/// radius returns the same points as the first ones of that ranking, as
/// many as it returns.
pub proof fn law_radius_is_knn_prefix(
    s: Set<usize>,
    pts: Seq<Seq<i32>>,
    q: Seq<i32>,
    k: nat,
    r: Seq<usize>,
    radius: i64,
    w: Seq<usize>,
)
    requires
        knn_result(s, pts, q, k, r),
        forall|j: usize| #[trigger] s.contains(j) ==> r.contains(j),
        radius_result(s, pts, q, radius, w),
    ensures
        w.len() <= r.len(),
        w.to_set() == r.take(w.len() as int).to_set(),
{
    lemma_first_outside(r, w, 0);
    let m = first_outside(r, w, 0);
    let pre = r.take(m);
    // no point of the ranking after position m lies within the radius
    assert forall|i: int| m <= i < r.len() implies !w.contains(#[trigger] r[i]) by {
        if w.contains(r[i]) && i > m {
            law_radius_is_nearest_prefix(s, pts, q, k, r, radius, w, m, i);
        }
    }
    assert forall|x: usize| w.to_set().contains(x) implies pre.to_set().contains(x) by {
        assert(w.contains(x));
        assert(s.contains(x));
        let i = choose|i: int| 0 <= i < r.len() && r[i] == x;
        assert(i < m);
        assert(pre[i] == x);
    }
    assert forall|x: usize| pre.to_set().contains(x) implies w.to_set().contains(x) by {
        let i = choose|i: int| 0 <= i < pre.len() && pre[i] == x;
        assert(w.contains(r[i]));
    }
    assert(w.to_set() =~= pre.to_set());
    assert(pre.no_duplicates());
    lemma_distinct_subset_len(w, pre);
    lemma_distinct_subset_len(pre, w);
}

/// No two points of `s` lie at the same distance from `q`.
pub open spec fn distinct_distances(s: Set<usize>, pts: Seq<Seq<i32>>, q: Seq<i32>) -> bool {
    forall|a: usize, b: usize|
        #![trigger s.contains(a), s.contains(b)]
        s.contains(a) && s.contains(b) && a != b ==> sq_dist(q, pts[a as int]) != sq_dist(
            q,
            pts[b as int],
        )
}

proof fn lemma_knn_prefix_upto(
    s: Set<usize>,
    pts: Seq<Seq<i32>>,
    q: Seq<i32>,
    k1: nat,
    k2: nat,
    r1: Seq<usize>,
    r2: Seq<usize>,
    i: int,
)
    requires
        knn_result(s, pts, q, k1, r1),
        knn_result(s, pts, q, k2, r2),
        distinct_distances(s, pts, q),
        0 <= i <= r1.len(),
        i <= r2.len(),
    ensures
        forall|m: int| 0 <= m < i ==> r1[m] == r2[m],
    decreases i,
{
    if i > 0 {
        let j = i - 1;
        lemma_knn_prefix_upto(s, pts, q, k1, k2, r1, r2, j);
        let a = r1[j];
        let b = r2[j];
        let da = sq_dist(q, pts[a as int]);
        let db = sq_dist(q, pts[b as int]);
        assert(s.contains(a) && s.contains(b));
        if a != b {
            assert(da != db);
            if da < db {
                // a comes before b by distance, so r2 cannot hold it after b, nor leave it out
                if r2.contains(a) {
                    let m = choose|m: int| 0 <= m < r2.len() && r2[m] == a;
                    if m < j {
                        assert(r1[m] == a);
                        assert(r1[m] == r1[j]);
                    } else {
                        assert(m != j);
                        assert(nearer(pts, q, r2[j], r2[m]));
                    }
                } else {
                    law_knn_returned_nearer(s, pts, q, k2, r2, j, a);
                }
            } else {
                if r1.contains(b) {
                    let m = choose|m: int| 0 <= m < r1.len() && r1[m] == b;
                    if m < j {
                        assert(r2[m] == b);
                        assert(r2[m] == r2[j]);
                    } else {
                        assert(m != j);
                        assert(nearer(pts, q, r1[j], r1[m]));
                    }
                } else {
                    law_knn_returned_nearer(s, pts, q, k1, r1, j, b);
                }
            }
        }
    }
}

/// When no two points are equally distant from the query, a search for
/// the `k1` nearest points returns the first `k1` points of a search for
/// the `k2 >= k1` nearest.
pub proof fn law_knn_prefix(
    s: Set<usize>,
    pts: Seq<Seq<i32>>,
    q: Seq<i32>,
    k1: nat,
    k2: nat,
    r1: Seq<usize>,
    r2: Seq<usize>,
)
    requires
        knn_result(s, pts, q, k1, r1),
        knn_result(s, pts, q, k2, r2),
        distinct_distances(s, pts, q),
        k1 <= k2,
    ensures
        r1.len() == if k1 < r2.len() {
            k1
        } else {
            r2.len()
        },
        r1 == r2.take(r1.len() as int),
{
    let n = if r1.len() < r2.len() {
        r1.len()
    } else {
        r2.len()
    };
    lemma_knn_prefix_upto(s, pts, q, k1, k2, r1, r2, n as int);
    if r1.len() < r2.len() && r1.len() < k1 {
        let x = r2[r1.len() as int];
        assert(s.contains(x));
        assert(r1.contains(x));
        let m = choose|m: int| 0 <= m < r1.len() && r1[m] == x;
        assert(r2[m] == x);
    }
    if r1.len() > r2.len() {
        assert(r2.len() < k2);
        let x = r1[r2.len() as int];
        assert(s.contains(x));
        assert(r2.contains(x));
        let m = choose|m: int| 0 <= m < r2.len() && r2[m] == x;
        assert(r1[m] == x);
    }
    assert(r1 =~= r2.take(r1.len() as int));
}

/// In a nearest-point result, no point comes after a farther one.
proof fn lemma_knn_sorted_dist(
    s: Set<usize>,
    pts: Seq<Seq<i32>>,
    q: Seq<i32>,
    k: nat,
    r: Seq<usize>,
    a: int,
    b: int,
)
    requires
        knn_result(s, pts, q, k, r),
        0 <= a <= b < r.len(),
    ensures
        sq_dist(q, pts[r[a] as int]) <= sq_dist(q, pts[r[b] as int]),
{
    if a < b {
        assert(nearer(pts, q, r[a], r[b]));
    }
}

/// A distinct sequence that holds each value of a distinct sequence is at
/// least as long.
proof fn lemma_distinct_subset_len(a: Seq<usize>, b: Seq<usize>)
    requires
        a.no_duplicates(),
        b.no_duplicates(),
        a.to_set().subset_of(b.to_set()),
    ensures
        a.len() <= b.len(),
{
    a.unique_seq_to_set();
    b.unique_seq_to_set();
    vstd::set_lib::lemma_len_subset(a.to_set(), b.to_set());
}

/// The point at position `j` of one nearest-point result is no nearer than
/// the one at position `j` of another over the same points.
proof fn lemma_knn_position_dist(
    s: Set<usize>,
    pts: Seq<Seq<i32>>,
    q: Seq<i32>,
    k1: nat,
    k2: nat,
    r1: Seq<usize>,
    r2: Seq<usize>,
    j: int,
)
    requires
        knn_result(s, pts, q, k1, r1),
        knn_result(s, pts, q, k2, r2),
        0 <= j < r1.len(),
        j < r2.len(),
    ensures
        sq_dist(q, pts[r2[j] as int]) <= sq_dist(q, pts[r1[j] as int]),
{
    let x = sq_dist(q, pts[r1[j] as int]);
    let y = sq_dist(q, pts[r2[j] as int]);
    if x < y {
        let a = r1.take(j + 1);
        let b = r2.take(j);
        assert(a.no_duplicates());
        assert(b.no_duplicates());
        if a.to_set().subset_of(b.to_set()) {
            lemma_distinct_subset_len(a, b);
        }
        let e = choose|e: usize| a.to_set().contains(e) && !b.to_set().contains(e);
        let m = choose|m: int| 0 <= m < a.len() && a[m] == e;
        assert(r1[m] == e);
        lemma_knn_sorted_dist(s, pts, q, k1, r1, m, j);
        assert(s.contains(e));
        if r2.contains(e) {
            let m2 = choose|m2: int| 0 <= m2 < r2.len() && r2[m2] == e;
            if m2 < j {
                assert(b[m2] == e);
                assert(b.to_set().contains(e));
            }
            lemma_knn_sorted_dist(s, pts, q, k2, r2, j, m2);
        } else {
            law_knn_returned_nearer(s, pts, q, k2, r2, j, e);
        }
    }
}

/// A search for the `k1` nearest points returns as many points as the
/// first `k1` of a search for the `k2 >= k1` nearest, at the same
/// distances position by position: the two differ at most by which of
/// equally distant points they return.
pub proof fn law_knn_prefix_distances(
    s: Set<usize>,
    pts: Seq<Seq<i32>>,
    q: Seq<i32>,
    k1: nat,
    k2: nat,
    r1: Seq<usize>,
    r2: Seq<usize>,
)
    requires
        knn_result(s, pts, q, k1, r1),
        knn_result(s, pts, q, k2, r2),
        k1 <= k2,
    ensures
        r1.len() == if k1 < r2.len() {
            k1
        } else {
            r2.len()
        },
        forall|j: int|
            0 <= j < r1.len() ==> sq_dist(q, pts[#[trigger] r1[j] as int]) == sq_dist(
                q,
                pts[r2[j] as int],
            ),
{
    // every point of r1 is in r2, unless r2 is full; and the other way round
    if r1.len() < k1 {
        assert(r2.to_set().subset_of(r1.to_set())) by {
            assert forall|x: usize| r2.to_set().contains(x) implies r1.to_set().contains(x) by {
                let m = choose|m: int| 0 <= m < r2.len() && r2[m] == x;
                assert(s.contains(r2[m]));
            }
        }
        lemma_distinct_subset_len(r2, r1);
    }
    if r2.len() < k2 {
        assert(r1.to_set().subset_of(r2.to_set())) by {
            assert forall|x: usize| r1.to_set().contains(x) implies r2.to_set().contains(x) by {
                let m = choose|m: int| 0 <= m < r1.len() && r1[m] == x;
                assert(s.contains(r1[m]));
            }
        }
        lemma_distinct_subset_len(r1, r2);
    }
    assert forall|j: int| 0 <= j < r1.len() implies sq_dist(q, pts[#[trigger] r1[j] as int])
        == sq_dist(q, pts[r2[j] as int]) by {
        lemma_knn_position_dist(s, pts, q, k1, k2, r1, r2, j);
        lemma_knn_position_dist(s, pts, q, k2, k1, r2, r1, j);
    }
}

/// Along any sequence of calls on a tree, the split depth is the one the
/// last `set_cross` set, or the first one: `get_cross` reads it back.
pub proof fn law_get_cross_after_calls<'a, T: TraitPoint>(
    trees: Seq<KDTree<'a, T>>,
    sets: Seq<Option<usize>>,
)
    requires
        trees.len() == sets.len() + 1,
        forall|i: int|
            0 <= i < sets.len() ==> cross_step(
                trees[i].cross_depth(),
                trees[i + 1].cross_depth(),
                #[trigger] sets[i],
            ),
    ensures
        trees.last().cross_depth() == last_set(trees[0].cross_depth(), sets),
{
    let depths = Seq::new(trees.len(), |i: int| trees[i].cross_depth());
    assert forall|i: int| 0 <= i < sets.len() implies cross_step(
        depths[i],
        depths[i + 1],
        #[trigger] sets[i],
    ) by {}
    law_cross_is_last_set(depths, sets);
}

/// What one call does to the split depth: `Some(c)` (a `set_cross(c)`)
/// sets it to `c`; `None` (a call of `build`, of a search or of
/// `get_cross`) keeps it, as their contracts state.
pub open spec fn cross_step(before: usize, after: usize, set: Option<usize>) -> bool {
    match set {
        Some(c) => after == c,
        None => after == before,
    }
}

/// The split depth after the calls `sets`, starting from `initial`: the
/// last depth set, or `initial` if none was.
pub open spec fn last_set(initial: usize, sets: Seq<Option<usize>>) -> usize
    decreases sets.len(),
{
    if sets.len() == 0 {
        initial
    } else {
        match sets.last() {
            Some(c) => c,
            None => last_set(initial, sets.drop_last()),
        }
    }
}

/// Along any sequence of calls, the split depth is the one the last
/// `set_cross` set (or the initial one): `get_cross` reads it back.
pub proof fn law_cross_is_last_set(depths: Seq<usize>, sets: Seq<Option<usize>>)
    requires
        depths.len() == sets.len() + 1,
        forall|i: int| 0 <= i < sets.len() ==> cross_step(depths[i], depths[i + 1], #[trigger] sets[i]),
    ensures
        depths.last() == last_set(depths[0], sets),
    decreases sets.len(),
{
    if sets.len() > 0 {
        let n = sets.len() - 1;
        law_cross_is_last_set(depths.drop_last(), sets.drop_last());
        assert(cross_step(depths[n], depths[n + 1], sets[n]));
        assert(depths.drop_last().last() == depths[n]);
    }
}

/// Two builds that read the same coordinates make the same tree, whatever
/// their split depths, so every later search gives the same answer.
pub proof fn law_same_coords_same_tree(
    root1: Link,
    root2: Link,
    cs1: Seq<Seq<i32>>,
    cs2: Seq<Seq<i32>>,
    dims: nat,
)
    requires
        root1 == built_root(cs1, dims),
        root2 == built_root(cs2, dims),
        cs1 == cs2,
    ensures
        root1 == root2,
        forall|q: Seq<i32>, k: nat|
            #[trigger] knn_visit(root1, cs1, q, k, Seq::empty()) == knn_visit(
                root2,
                cs2,
                q,
                k,
                Seq::empty(),
            ),
        forall|q: Seq<i32>, radius: i64|
            #[trigger] radius_visit(root1, cs1, q, radius) == radius_visit(root2, cs2, q, radius),
{
}

/// `dim` gives the same coordinate whenever it is asked the same axis of
/// the same point.
pub open spec fn dim_deterministic<T: TraitPoint>() -> bool {
    forall|p: T, d: usize, r1: i32, r2: i32|
        #[trigger] call_ensures(T::dim, (&p, d), r1) && #[trigger] call_ensures(
            T::dim,
            (&p, d),
            r2,
        ) ==> r1 == r2
}

/// Two builds over the same points, with a `dim` that always gives the same
/// coordinates, make the same tree, whatever their split depths: a rebuild
/// changes nothing, and every later search gives the same answer.
pub proof fn law_rebuild_same_tree<'a, T: TraitPoint>(t1: KDTree<'a, T>, t2: KDTree<'a, T>)
    requires
        dim_deterministic::<T>(),
        t1.point_seq() == t2.point_seq(),
        t1.is_built(),
        t2.is_built(),
    ensures
        t1.coords() == t2.coords(),
        t1.root_link() == t2.root_link(),
        forall|q: Seq<i32>, k: nat|
            #[trigger] knn_visit(t1.root_link(), t1.coords(), q, k, Seq::empty()) == knn_visit(
                t2.root_link(),
                t2.coords(),
                q,
                k,
                Seq::empty(),
            ),
        forall|q: Seq<i32>, radius: i64|
            #[trigger] radius_visit(t1.root_link(), t1.coords(), q, radius) == radius_visit(
                t2.root_link(),
                t2.coords(),
                q,
                radius,
            ),
{
    let pts = t1.point_seq();
    assert forall|i: int| 0 <= i < pts.len() implies t1.coords()[i] == t2.coords()[i] by {
        let (c1, c2) = (t1.coords()[i], t2.coords()[i]);
        assert(reads_coords(pts[i], c1) && reads_coords(pts[i], c2));
        assert forall|d: int| 0 <= d < c1.len() implies c1[d] == c2[d] by {
            assert(call_ensures(T::dim, (&pts[i], d as usize), c1[d]));
            assert(call_ensures(T::dim, (&pts[i], d as usize), c2[d]));
        }
        assert(c1 =~= c2);
    }
    assert(t1.coords() =~= t2.coords());
    law_same_coords_same_tree(
        t1.root_link(),
        t2.root_link(),
        t1.coords(),
        t2.coords(),
        T::DIM as nat,
    );
}

} // verus!
