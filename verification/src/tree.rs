//! The k-d tree: its nodes, what a well-formed tree is, and how one is
//! built by median splits.

use vstd::multiset::Multiset;
use vstd::prelude::*;

use crate::select::{
    in_bounds, key_of, lemma_ms_grow, lemma_seg_grow, range_ms, rows_len, seg, select_indirect,
    select_spec, rows,
};

verus! {

pub type Link = Option<Box<Node>>;

/// A node of the tree: the index of a point, the axis that splits its
/// subtrees, and the subtrees.
#[derive(Debug)]
pub struct Node {
    pub idx: usize,
    pub axis: usize,
    pub left: Link,
    pub right: Link,
}

/// The point indices held by a subtree.
pub open spec fn link_indices(l: Link) -> Set<usize>
    decreases l,
{
    match l {
        None => Set::empty(),
        Some(n) => node_indices(*n),
    }
}

/// The point indices held by a node and its subtrees.
pub open spec fn node_indices(n: Node) -> Set<usize>
    decreases n,
{
    link_indices(n.left).union(link_indices(n.right)).insert(n.idx)
}

/// Every node of a subtree names a point and an axis, and the points of a
/// left (right) subtree have no greater (no smaller) coordinate on the
/// node's axis than the node's point.
pub open spec fn link_ordered(l: Link, pts: Seq<Seq<i32>>, dims: nat) -> bool
    decreases l,
{
    match l {
        None => true,
        Some(n) => node_ordered(*n, pts, dims),
    }
}

pub open spec fn node_ordered(n: Node, pts: Seq<Seq<i32>>, dims: nat) -> bool
    decreases n,
{
    &&& n.idx < pts.len()
    &&& n.axis < dims
    &&& link_ordered(n.left, pts, dims)
    &&& link_ordered(n.right, pts, dims)
    &&& forall|j: usize|
        #[trigger] link_indices(n.left).contains(j) ==> key_of(pts, j, n.axis as int) <= key_of(
            pts,
            n.idx,
            n.axis as int,
        )
    &&& forall|j: usize|
        #[trigger] link_indices(n.right).contains(j) ==> key_of(pts, j, n.axis as int) >= key_of(
            pts,
            n.idx,
            n.axis as int,
        )
}

/// No point index appears twice in a subtree.
pub open spec fn link_distinct(l: Link) -> bool
    decreases l,
{
    match l {
        None => true,
        Some(n) => node_distinct(*n),
    }
}

pub open spec fn node_distinct(n: Node) -> bool
    decreases n,
{
    &&& link_distinct(n.left)
    &&& link_distinct(n.right)
    &&& !link_indices(n.left).contains(n.idx)
    &&& !link_indices(n.right).contains(n.idx)
    &&& link_indices(n.left).disjoint(link_indices(n.right))
}

/// A subtree is well formed over `pts`: ordered, and each point appears
/// once.
pub open spec fn link_wf(l: Link, pts: Seq<Seq<i32>>, dims: nat) -> bool {
    link_ordered(l, pts, dims) && link_distinct(l)
}

pub open spec fn node_wf(n: Node, pts: Seq<Seq<i32>>, dims: nat) -> bool {
    node_ordered(n, pts, dims) && node_distinct(n)
}

/// The point indices of a subtree, with their multiplicities.
pub open spec fn link_ms(l: Link) -> Multiset<usize>
    decreases l,
{
    match l {
        None => Multiset::empty(),
        Some(n) => link_ms(n.left).add(link_ms(n.right)).insert(n.idx),
    }
}

/// Position of the median split of the positions `lo ..= hi`.
pub open spec fn mid_of(lo: int, hi: int) -> int {
    if hi - lo == 1 {
        lo + 1
    } else {
        lo + (hi - lo) / 2
    }
}

/// A subtree mirrors the positions `lo ..= hi` of `s`: its root holds the
/// index at the median position, its left subtree mirrors the positions
/// before it and its right subtree those after it; no positions, no node.
pub open spec fn link_mirrors(l: Link, s: Seq<usize>, lo: int, hi: int) -> bool
    decreases l,
{
    match l {
        None => hi < lo,
        Some(n) => {
            &&& lo <= hi
            &&& n.idx == s[mid_of(lo, hi)]
            &&& link_mirrors(n.left, s, lo, mid_of(lo, hi) - 1)
            &&& link_mirrors(n.right, s, mid_of(lo, hi) + 1, hi)
        },
    }
}

/// Number of levels below the root of a median-split tree over `m` points.
pub open spec fn split_height(m: nat) -> nat
    decreases m,
{
    if m <= 1 {
        0
    } else {
        let a = split_height(left_count(m));
        let b = split_height((m - 1 - left_count(m)) as nat);
        1 + if a > b {
            a
        } else {
            b
        }
    }
}

pub proof fn lemma_split_height_le(m: nat)
    ensures
        split_height(m) <= m,
    decreases m,
{
    if m > 1 {
        lemma_split_height_le(left_count(m));
        lemma_split_height_le((m - 1 - left_count(m)) as nat);
    }
}

/// Number of points a median split of `m` points puts in the left subtree.
pub open spec fn left_count(m: nat) -> nat {
    if m == 2 {
        1
    } else {
        ((m - 1) / 2) as nat
    }
}

/// A subtree over `m` points has the shape of the median splits: the left
/// subtree holds `left_count(m)` points, the node one, the right the rest.
pub open spec fn link_sized(l: Link, m: nat) -> bool
    decreases l,
{
    match l {
        None => m == 0,
        Some(n) => m >= 1 && link_sized(n.left, left_count(m)) && link_sized(
            n.right,
            (m - 1 - left_count(m)) as nat,
        ),
    }
}

/// The nodes at depth `depth` of a subtree split on axis `depth % DIM`.
pub open spec fn link_axes(l: Link, depth: nat, dims: nat) -> bool
    decreases l,
{
    match l {
        None => true,
        Some(n) => n.axis == depth % dims && link_axes(n.left, depth + 1, dims) && link_axes(
            n.right,
            depth + 1,
            dims,
        ),
    }
}

/// In a well-formed subtree every index names a point.
pub proof fn lemma_link_indices_bounded(l: Link, pts: Seq<Seq<i32>>, dims: nat)
    requires
        link_ordered(l, pts, dims),
    ensures
        forall|j: usize| #[trigger] link_indices(l).contains(j) ==> j < pts.len(),
    decreases l,
{
    if let Some(n) = l {
        assert(node_ordered(*n, pts, dims));
        lemma_link_indices_bounded(n.left, pts, dims);
        lemma_link_indices_bounded(n.right, pts, dims);
        assert(link_indices(l) == node_indices(*n));
        assert forall|j: usize| #[trigger] link_indices(l).contains(j) implies j < pts.len() by {
            if j != n.idx && !link_indices(n.left).contains(j) {
                assert(link_indices(n.right).contains(j));
            }
        }
    }
}

/// The values held at `a ..= c` are those at `a ..= b - 1`, the one at `b`,
/// and those at `b + 1 ..= c`.
proof fn lemma_seg_split(s: Seq<usize>, a: int, b: int, c: int)
    requires
        a <= b <= c,
    ensures
        seg(s, a, c) == seg(s, a, b - 1).union(seg(s, b + 1, c)).insert(s[b]),
{
    let lhs = seg(s, a, c);
    let rhs = seg(s, a, b - 1).union(seg(s, b + 1, c)).insert(s[b]);
    assert forall|x: usize| lhs.contains(x) implies rhs.contains(x) by {
        let p = choose|p: int| a <= p <= c && s[p] == x;
        if p < b {
            assert(seg(s, a, b - 1).contains(x));
        } else if p > b {
            assert(seg(s, b + 1, c).contains(x));
        }
    }
    assert forall|x: usize| rhs.contains(x) implies lhs.contains(x) by {
        if x == s[b] {
            assert(s[b] == x);
        } else if seg(s, a, b - 1).contains(x) {
            let p = choose|p: int| a <= p <= b - 1 && s[p] == x;
            assert(s[p] == x);
        } else {
            let p = choose|p: int| b + 1 <= p <= c && s[p] == x;
            assert(s[p] == x);
        }
    }
    assert(lhs =~= rhs);
}

/// In a sequence without duplicates, separate position ranges hold
/// separate values.
proof fn lemma_seg_disjoint(s: Seq<usize>, a: int, b: int, c: int, d: int)
    requires
        s.no_duplicates(),
        0 <= a,
        b < c,
        d < s.len(),
    ensures
        seg(s, a, b).disjoint(seg(s, c, d)),
{
    assert forall|x: usize| seg(s, a, b).contains(x) implies !seg(s, c, d).contains(x) by {
        let p = choose|p: int| a <= p <= b && s[p] == x;
        if seg(s, c, d).contains(x) {
            let q = choose|q: int| c <= q <= d && s[q] == x;
            assert(s[p] == s[q]);
        }
    }
}

/// The values held at `a ..= c`, with multiplicities, are those at
/// `a ..= b - 1`, the one at `b`, and those at `b + 1 ..= c`.
proof fn lemma_ms_split(s: Seq<usize>, a: int, b: int, c: int)
    requires
        0 <= a <= b <= c < s.len(),
    ensures
        range_ms(s, a, c) == range_ms(s, a, b - 1).add(range_ms(s, b + 1, c)).insert(s[b]),
{
    broadcast use vstd::seq_lib::lemma_multiset_commutative;
    broadcast use vstd::multiset::group_multiset_axioms;
    let x = s.subrange(a, b);
    let y = s.subrange(b + 1, c + 1);
    let one = Seq::<usize>::empty().push(s[b]);
    assert(s.subrange(a, c + 1) =~= x + one + y);
    assert(s.subrange(a, b - 1 + 1) =~= x);
    assert((x + one + y).to_multiset() == (x + one).to_multiset().add(y.to_multiset()));
    assert((x + one).to_multiset() == x.to_multiset().add(one.to_multiset()));
    vstd::seq_lib::to_multiset_build(Seq::<usize>::empty(), s[b]);
    vstd::seq_lib::to_multiset_len(Seq::<usize>::empty());
    vstd::multiset::lemma_multiset_empty_len(Seq::<usize>::empty().to_multiset());
    assert(one.to_multiset() =~= Multiset::empty().insert(s[b]));
    assert(range_ms(s, a, c) =~= range_ms(s, a, b - 1).add(range_ms(s, b + 1, c)).insert(s[b]));
}

/// An empty range holds no values.
proof fn lemma_ms_empty(s: Seq<usize>, a: int, b: int)
    requires
        0 <= a == b + 1 <= s.len(),
    ensures
        range_ms(s, a, b) =~= Multiset::empty(),
{
    let e = s.subrange(a, b + 1);
    vstd::seq_lib::to_multiset_len(e);
    vstd::multiset::lemma_multiset_empty_len(e.to_multiset());
}

/// Ranges that hold the same entries hold the same values, with their
/// multiplicities.
proof fn lemma_ms_same(s: Seq<usize>, t: Seq<usize>, a: int, b: int)
    requires
        0 <= a,
        a <= b + 1,
        b < s.len(),
        b < t.len(),
        forall|x: int| a <= x <= b ==> s[x] == t[x],
    ensures
        range_ms(s, a, b) == range_ms(t, a, b),
{
    assert(s.subrange(a, b + 1) =~= t.subrange(a, b + 1));
}

/// A subtree that mirrors positions of `s` mirrors the same positions of
/// any sequence with the same entries there.
proof fn lemma_mirrors_same(l: Link, s: Seq<usize>, t: Seq<usize>, lo: int, hi: int)
    requires
        link_mirrors(l, s, lo, hi),
        forall|x: int| lo <= x <= hi ==> s[x] == t[x],
    ensures
        link_mirrors(l, t, lo, hi),
    decreases l,
{
    if let Some(n) = l {
        let m = mid_of(lo, hi);
        lemma_mirrors_same(n.left, s, t, lo, m - 1);
        lemma_mirrors_same(n.right, s, t, m + 1, hi);
    }
}

/// The subtree a median-split build makes over the positions `lo ..= hi`
/// of `s`, at depth `depth`, and the sequence it leaves: the index selected
/// into the median position on axis `depth % dims` becomes the node, the
/// positions before and after it are built the same way one level deeper.
pub open spec fn build_spec(
    s: Seq<usize>,
    lo: int,
    hi: int,
    depth: nat,
    pts: Seq<Seq<i32>>,
    dims: nat,
) -> (Link, Seq<usize>)
    decreases hi - lo,
{
    if hi < lo {
        (None, s)
    } else if hi == lo {
        (Some(Box::new(Node { idx: s[lo], axis: (depth % dims) as usize, left: None, right: None })), s)
    } else {
        let mid = mid_of(lo, hi);
        let s1 = select_spec(s, lo, hi, mid, pts, (depth % dims) as int);
        let l = build_spec(s1, lo, mid - 1, depth + 1, pts, dims);
        let r = if mid < hi {
            build_spec(l.1, mid + 1, hi, depth + 1, pts, dims)
        } else {
            (None, l.1)
        };
        (
            Some(
                Box::new(
                    Node { idx: r.1[mid], axis: (depth % dims) as usize, left: l.0, right: r.0 },
                ),
            ),
            r.1,
        )
    }
}

/// The indices `0 .. n` in order.
pub open spec fn iota(n: nat) -> Seq<usize> {
    Seq::new(n, |i: int| i as usize)
}

/// The tree a build over the coordinate rows `cs` makes.
pub open spec fn built_root(cs: Seq<Seq<i32>>, dims: nat) -> Link {
    build_spec(iota(cs.len()), 0, cs.len() - 1, 0, cs, dims).0
}

/// Builds the subtree over the point indices at `left ..= right`, whose
/// root sits at depth `depth`: the index of median coordinate on the axis
/// of that depth goes to the median position and becomes the node, the
/// indices before it form the left subtree, those after it the right one.
pub fn recurs_build(
    p: &Vec<Vec<i32>>,
    dims: usize,
    indices: &mut Vec<usize>,
    left: usize,
    right: usize,
    depth: usize,
) -> (r: Link)
    requires
        dims > 0,
        rows_len(p@, dims as nat),
        left <= right < old(indices).len(),
        in_bounds(old(indices)@, left as int, right as int, p.len() as int),
        depth + split_height((right - left + 1) as nat) <= usize::MAX,
    ensures
        (r, final(indices)@) == build_spec(
            old(indices)@,
            left as int,
            right as int,
            depth as nat,
            rows(p@),
            dims as nat,
        ),
        r is Some,
        link_mirrors(r, final(indices)@, left as int, right as int),
        link_ordered(r, rows(p@), dims as nat),
        link_ms(r) == range_ms(old(indices)@, left as int, right as int),
        link_indices(r) == seg(old(indices)@, left as int, right as int),
        link_sized(r, (right - left + 1) as nat),
        link_axes(r, depth as nat, dims as nat),
        old(indices)@.no_duplicates() ==> final(indices)@.no_duplicates() && link_distinct(r),
        final(indices).len() == old(indices).len(),
        range_ms(final(indices)@, left as int, right as int) == range_ms(
            old(indices)@,
            left as int,
            right as int,
        ),
        seg(final(indices)@, left as int, right as int) == seg(
            old(indices)@,
            left as int,
            right as int,
        ),
        forall|x: int|
            0 <= x < old(indices).len() && (x < left || x > right) ==> final(indices)@[x] == old(
                indices,
            )@[x],
        in_bounds(final(indices)@, left as int, right as int, p.len() as int),
    decreases right - left,
{
    let axis = depth % dims;
    if right == left {
        let node = Box::new(Node { idx: indices[left], axis: axis, left: None, right: None });
        proof {
            let s = indices@;
            let l = left as int;
            assert(seg(s, l, l) =~= Set::<usize>::empty().insert(s[l]));
            assert(link_indices(node.left) =~= Set::<usize>::empty());
            assert(link_indices(node.right) =~= Set::<usize>::empty());
            assert(node_indices(*node) =~= Set::<usize>::empty().insert(s[l]));
            lemma_ms_split(s, l, l, l);
            assert(s.subrange(l, l) =~= Seq::<usize>::empty());
            assert(s.subrange(l + 1, l + 1) =~= Seq::<usize>::empty());
            lemma_ms_empty(s, l, l - 1);
            lemma_ms_empty(s, l + 1, l);
            assert(link_ms(node.left) =~= Multiset::empty());
            assert(link_ms(node.right) =~= Multiset::empty());
            assert(link_ms(Some(node)) =~= range_ms(s, l, l));
            assert(mid_of(l, l) == l);
            assert(link_mirrors(node.left, s, l, l - 1));
            assert(link_mirrors(node.right, s, l + 1, l));
            assert(node.idx == s[mid_of(l, l)]);
            assert(link_mirrors(Some(node), s, l, l));
            assert(left_count(1) == 0);
            assert(axis < dims);
            assert(s[l] < p.len());
            assert(node_ordered(*node, rows(p@), dims as nat));
            assert(node_distinct(*node));
            assert(node.axis == depth as nat % (dims as nat));
            assert(link_axes(node.left, depth as nat + 1, dims as nat));
            assert(link_axes(node.right, depth as nat + 1, dims as nat));
            assert(link_axes(Some(node), depth as nat, dims as nat));
            assert(link_sized(None, 0));
            assert(link_sized(Some(node), 1));
        }
        return Some(node);
    }
    let rel = right - left;
    let mid = if rel == 1 {
        left + 1
    } else {
        left + rel / 2
    };
    proof {
        let m = (right - left + 1) as nat;
        assert(left_count(m) == mid - left);
        let a = split_height(left_count(m));
        let b = split_height((m - 1 - left_count(m)) as nat);
        assert(split_height(m) == 1 + if a > b {
            a
        } else {
            b
        });
    }
    let ghost s0 = indices@;
    select_indirect(indices, left, right, mid, p, axis, dims);
    let ghost s1 = indices@;
    let l_len = mid - left;
    let r_len = right - mid;
    let left_node = if l_len == 0 {
        None
    } else {
        recurs_build(p, dims, indices, left, mid - 1, depth + 1)
    };
    let ghost s2 = indices@;
    proof {
        assert(in_bounds(s2, mid as int, right as int, p.len() as int)) by {
            assert forall|x: int| mid <= x <= right implies (#[trigger] s2[x]) < p.len() by {
                assert(s2[x] == s1[x]);
            }
        }
    }
    let right_node = if r_len == 0 {
        None
    } else {
        recurs_build(p, dims, indices, mid + 1, right, depth + 1)
    };
    let ghost s3 = indices@;
    let node = Box::new(Node { idx: indices[mid], axis: axis, left: left_node, right: right_node });
    proof {
        let (l, m, r) = (left as int, mid as int, right as int);
        let n = p.len() as int;
        assert(mid_of(l, r) == m);
        // the tree mirrors the buffer as it ends
        lemma_mirrors_same(left_node, s2, s3, l, m - 1);
        assert(s3[m] == s1[m]);
        assert(link_mirrors(left_node, s3, l, m - 1));
        assert(link_mirrors(right_node, s3, m + 1, r));
        assert(node.idx == s3[mid_of(l, r)]);
        assert(link_mirrors(Some(node), s3, l, r));
        // the left subtree holds the values at left ..= mid - 1, before and after the right build
        lemma_seg_same(s2, s3, l, m - 1);
        assert(link_indices(left_node) == seg(s3, l, m - 1));
        // the right subtree holds the values at mid + 1 ..= right, as after the selection
        lemma_seg_same(s1, s2, m + 1, r);
        lemma_ms_same(s1, s2, m + 1, r);
        if r_len == 0 {
            assert(seg(s3, m + 1, r) =~= Set::<usize>::empty());
            assert(seg(s1, m + 1, r) =~= Set::<usize>::empty());
            assert(s1.subrange(m + 1, r + 1) =~= Seq::<usize>::empty());
            lemma_ms_empty(s1, m + 1, r);
        }
        assert(link_indices(right_node) == seg(s1, m + 1, r));
        assert(link_indices(right_node) == seg(s3, m + 1, r));
        assert(link_ms(right_node) == range_ms(s1, m + 1, r));
        // the whole range keeps its values
        lemma_seg_grow(s1, s2, l, m - 1, l, r);
        lemma_ms_grow(s1, s2, l, m - 1, l, r);
        if r_len > 0 {
            lemma_seg_grow(s2, s3, m + 1, r, l, r);
            lemma_ms_grow(s2, s3, m + 1, r, l, r);
        } else {
            assert(s3 == s2);
        }
        lemma_seg_split(s3, l, m, r);
        lemma_ms_split(s1, l, m, r);
        assert(link_ms(Some(node)) == range_ms(s0, l, r));
        lemma_in_bounds_seg(s3, s0, l, r, n);
        // the coordinates on the axis are split around the node's point
        assert forall|j: usize| #[trigger] link_indices(left_node).contains(j) implies key_of(rows(p@),
            j,
            axis as int,
        ) <= key_of(rows(p@), s3[m], axis as int) by {
            assert(seg(s1, l, m - 1).contains(j));
            let x = choose|x: int| l <= x <= m - 1 && s1[x] == j;
            assert(key_of(rows(p@), s1[x], axis as int) <= key_of(rows(p@), s1[m], axis as int));
        }
        assert forall|j: usize| #[trigger] link_indices(right_node).contains(j) implies key_of(rows(p@),
            j,
            axis as int,
        ) >= key_of(rows(p@), s3[m], axis as int) by {
            let x = choose|x: int| m + 1 <= x <= r && s1[x] == j;
            assert(key_of(rows(p@), s1[x], axis as int) >= key_of(rows(p@), s1[m], axis as int));
        }
        assert(node_indices(*node) == seg(s3, l, r));
        // separate ranges hold separate points
        if s0.no_duplicates() {
            lemma_seg_disjoint(s3, l, m - 1, m + 1, r);
            lemma_seg_disjoint(s3, l, m - 1, m, m);
            lemma_seg_disjoint(s3, m, m, m + 1, r);
            assert(seg(s3, m, m).contains(s3[m]));
            assert(node_distinct(*node));
        }
        assert(l_len > 0);
        assert(left_count((right - left + 1) as nat) == l_len);
        assert(link_sized(left_node, l_len as nat));
        assert(link_sized(right_node, r_len as nat));
        assert(node_ordered(*node, rows(p@), dims as nat));
        assert(link_axes(left_node, (depth + 1) as nat, dims as nat));
        assert(link_axes(right_node, (depth + 1) as nat, dims as nat));
        assert(node.axis == depth as nat % (dims as nat));
    }
    Some(node)
}

/// Ranges that hold the same entries hold the same values.
proof fn lemma_seg_same(s: Seq<usize>, t: Seq<usize>, a: int, b: int)
    requires
        forall|x: int| a <= x <= b ==> s[x] == t[x],
    ensures
        seg(s, a, b) == seg(t, a, b),
{
    assert forall|v: usize| seg(s, a, b).contains(v) implies seg(t, a, b).contains(v) by {
        let p = choose|p: int| a <= p <= b && s[p] == v;
        assert(t[p] == v);
    }
    assert forall|v: usize| seg(t, a, b).contains(v) implies seg(s, a, b).contains(v) by {
        let p = choose|p: int| a <= p <= b && t[p] == v;
        assert(s[p] == v);
    }
    assert(seg(s, a, b) =~= seg(t, a, b));
}

/// A range that holds the values of a range whose entries name points
/// names points too.
proof fn lemma_in_bounds_seg(s: Seq<usize>, t: Seq<usize>, a: int, b: int, n: int)
    requires
        seg(s, a, b) == seg(t, a, b),
        in_bounds(t, a, b, n),
    ensures
        in_bounds(s, a, b, n),
{
    assert forall|x: int| a <= x <= b implies (#[trigger] s[x]) < n by {
        assert(seg(s, a, b).contains(s[x]));
        let q = choose|q: int| a <= q <= b && t[q] == s[x];
        assert(t[q] < n);
    }
}

} // verus!
