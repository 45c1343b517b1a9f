//! Selection over a vector of point indices: reorders a range of the
//! indices so that the one at a given position is the one that a sort by a
//! coordinate would put there, with no greater coordinate before it and no
//! smaller one after it.

use vstd::multiset::Multiset;
use vstd::prelude::*;


verus! {

/// The values that `s` holds at the positions `lo ..= hi`.
pub open spec fn seg(s: Seq<usize>, lo: int, hi: int) -> Set<usize> {
    Set::new(|x: usize| exists|i: int| lo <= i <= hi && s[i] == x)
}

/// Coordinate on `axis` of the point whose coordinates `pts` holds at
/// index `i`.
pub open spec fn key_of(pts: Seq<Seq<i32>>, i: usize, axis: int) -> int {
    pts[i as int][axis] as int
}

/// The coordinates held by each row of `c`.
pub open spec fn rows(c: Seq<Vec<i32>>) -> Seq<Seq<i32>> {
    c.map_values(|v: Vec<i32>| v@)
}

/// Every row of `pts` holds `m` coordinates.
pub open spec fn all_len(pts: Seq<Seq<i32>>, m: nat) -> bool {
    forall|i: int| 0 <= i < pts.len() ==> (#[trigger] pts[i]).len() == m
}

/// Every row of `pts` holds `m` coordinates.
pub open spec fn rows_len(pts: Seq<Vec<i32>>, m: nat) -> bool {
    forall|i: int| 0 <= i < pts.len() ==> (#[trigger] pts[i]).len() == m
}

/// Every index held at the positions `lo ..= hi` names a point.
pub open spec fn in_bounds(s: Seq<usize>, lo: int, hi: int, n: int) -> bool {
    forall|i: int| lo <= i <= hi ==> (#[trigger] s[i]) < n
}

/// `s` with the entries at `i` and `j` exchanged.
pub open spec fn swapped(s: Seq<usize>, i: int, j: int) -> Seq<usize> {
    s.update(i, s[j]).update(j, s[i])
}

/// The values that `s` holds at the positions `lo ..= hi`, with their
/// multiplicities.
pub open spec fn range_ms(s: Seq<usize>, lo: int, hi: int) -> Multiset<usize> {
    s.subrange(lo, hi + 1).to_multiset()
}

/// An exchange of two entries inside `lo ..= hi` keeps the values held
/// there, with their multiplicities.
pub proof fn lemma_swap_ms(s: Seq<usize>, i: int, j: int, lo: int, hi: int)
    requires
        0 <= lo <= i <= hi < s.len(),
        lo <= j <= hi,
    ensures
        range_ms(swapped(s, i, j), lo, hi) == range_ms(s, lo, hi),
{
    broadcast use vstd::seq_lib::to_multiset_update;
    broadcast use vstd::multiset::group_multiset_axioms;
    let sub = s.subrange(lo, hi + 1);
    assert(swapped(s, i, j).subrange(lo, hi + 1) =~= swapped(sub, i - lo, j - lo));
    let m = sub.to_multiset();
    let u = sub.update(i - lo, sub[j - lo]);
    assert(u.to_multiset() == m.insert(sub[j - lo]).remove(sub[i - lo]));
    assert(u.update(j - lo, sub[i - lo]).to_multiset() == u.to_multiset().insert(sub[i - lo]).remove(
        u[j - lo],
    ));
    if i == j {
        assert(swapped(sub, i - lo, j - lo) =~= sub);
    } else {
        assert(u[j - lo] == sub[j - lo]);
    }
    broadcast use vstd::seq_lib::to_multiset_contains;
    assert(sub.contains(sub[i - lo]) && sub.contains(sub[j - lo]));
    assert(m.count(sub[i - lo]) > 0);
    assert(m.insert(sub[j - lo]).remove(sub[i - lo]).insert(sub[i - lo]).remove(sub[j - lo]) =~= m);
}

/// A range whose entries are a rearrangement of another's, inside a wider
/// range whose other entries are unchanged, leaves the wider range a
/// rearrangement too.
pub proof fn lemma_ms_grow(s: Seq<usize>, t: Seq<usize>, lo: int, hi: int, a: int, b: int)
    requires
        0 <= a <= lo,
        lo <= hi + 1,
        hi <= b < s.len(),
        s.len() == t.len(),
        range_ms(t, lo, hi) == range_ms(s, lo, hi),
        forall|x: int| a <= x <= b && (x < lo || x > hi) ==> t[x] == s[x],
    ensures
        range_ms(t, a, b) == range_ms(s, a, b),
{
    broadcast use vstd::seq_lib::lemma_multiset_commutative;
    let (s1, s2, s3) = (s.subrange(a, lo), s.subrange(lo, hi + 1), s.subrange(hi + 1, b + 1));
    let (t1, t2, t3) = (t.subrange(a, lo), t.subrange(lo, hi + 1), t.subrange(hi + 1, b + 1));
    assert(s.subrange(a, b + 1) =~= s1 + s2 + s3);
    assert(t.subrange(a, b + 1) =~= t1 + t2 + t3);
    assert(s1 =~= t1);
    assert(s3 =~= t3);
    assert((s1 + s2 + s3).to_multiset() == (s1 + s2).to_multiset().add(s3.to_multiset()));
    assert((t1 + t2 + t3).to_multiset() == (t1 + t2).to_multiset().add(t3.to_multiset()));
    assert((s1 + s2).to_multiset() == s1.to_multiset().add(s2.to_multiset()));
    assert((t1 + t2).to_multiset() == t1.to_multiset().add(t2.to_multiset()));
}

/// An exchange of two entries inside `lo ..= hi` keeps the values held
/// there, the entries outside, and the absence of duplicates.
pub proof fn lemma_swap(s: Seq<usize>, i: int, j: int, lo: int, hi: int)
    requires
        0 <= lo <= i <= hi < s.len(),
        lo <= j <= hi,
    ensures
        swapped(s, i, j).len() == s.len(),
        seg(swapped(s, i, j), lo, hi) == seg(s, lo, hi),
        s.no_duplicates() ==> swapped(s, i, j).no_duplicates(),
        forall|x: int| 0 <= x < s.len() && x != i && x != j ==> swapped(s, i, j)[x] == s[x],
        swapped(s, i, j)[i] == s[j],
        swapped(s, i, j)[j] == s[i],
{
    let t = swapped(s, i, j);
    assert forall|x: usize| seg(s, lo, hi).contains(x) implies seg(t, lo, hi).contains(x) by {
        let p = choose|p: int| lo <= p <= hi && s[p] == x;
        let q = if p == i {
            j
        } else if p == j {
            i
        } else {
            p
        };
        assert(t[q] == x);
    }
    assert forall|x: usize| seg(t, lo, hi).contains(x) implies seg(s, lo, hi).contains(x) by {
        let p = choose|p: int| lo <= p <= hi && t[p] == x;
        let q = if p == i {
            j
        } else if p == j {
            i
        } else {
            p
        };
        assert(s[q] == x);
    }
    assert(seg(t, lo, hi) =~= seg(s, lo, hi));
    if s.no_duplicates() {
        assert forall|a: int, b: int| 0 <= a < t.len() && 0 <= b < t.len() && a != b implies t[a]
            != t[b] by {
            let pa = if a == i {
                j
            } else if a == j {
                i
            } else {
                a
            };
            let pb = if b == i {
                j
            } else if b == j {
                i
            } else {
                b
            };
            assert(t[a] == s[pa] && t[b] == s[pb]);
        }
    }
}

/// A range that holds the values of another range, entry for entry at the
/// shared positions, holds them in the widening.
pub proof fn lemma_seg_grow(s: Seq<usize>, t: Seq<usize>, lo: int, hi: int, a: int, b: int)
    requires
        a <= lo,
        hi <= b,
        seg(t, lo, hi) == seg(s, lo, hi),
        forall|x: int| a <= x <= b && (x < lo || x > hi) ==> t[x] == s[x],
    ensures
        seg(t, a, b) == seg(s, a, b),
{
    assert forall|x: usize| seg(s, a, b).contains(x) implies seg(t, a, b).contains(x) by {
        let p = choose|p: int| a <= p <= b && s[p] == x;
        if lo <= p <= hi {
            assert(seg(s, lo, hi).contains(x));
            let q = choose|q: int| lo <= q <= hi && t[q] == x;
            assert(t[q] == x);
        } else {
            assert(t[p] == x);
        }
    }
    assert forall|x: usize| seg(t, a, b).contains(x) implies seg(s, a, b).contains(x) by {
        let p = choose|p: int| a <= p <= b && t[p] == x;
        if lo <= p <= hi {
            assert(seg(t, lo, hi).contains(x));
            let q = choose|q: int| lo <= q <= hi && s[q] == x;
            assert(s[q] == x);
        } else {
            assert(s[p] == x);
        }
    }
    assert(seg(t, a, b) =~= seg(s, a, b));
}

/// The scan of a partition from position `j` to `hi`, with the entries at
/// `lo .. store` already found smaller than `pivot`: each entry smaller
/// than `pivot` is exchanged into position `store`, which then moves on.
/// Gives the rearranged sequence and the final `store`.
pub open spec fn part_scan(
    s: Seq<usize>,
    pts: Seq<Seq<i32>>,
    axis: int,
    j: int,
    hi: int,
    store: int,
    pivot: int,
) -> (Seq<usize>, int)
    decreases hi - j,
{
    if j >= hi {
        (s, store)
    } else if key_of(pts, s[j], axis) < pivot {
        part_scan(swapped(s, store, j), pts, axis, j + 1, hi, store + 1, pivot)
    } else {
        part_scan(s, pts, axis, j + 1, hi, store, pivot)
    }
}

pub proof fn lemma_part_scan_bounds(
    s: Seq<usize>,
    pts: Seq<Seq<i32>>,
    axis: int,
    j: int,
    hi: int,
    store: int,
    pivot: int,
)
    requires
        store <= j <= hi,
    ensures
        store <= part_scan(s, pts, axis, j, hi, store, pivot).1 <= hi,
    decreases hi - j,
{
    if j < hi {
        if key_of(pts, s[j], axis) < pivot {
            lemma_part_scan_bounds(swapped(s, store, j), pts, axis, j + 1, hi, store + 1, pivot);
        } else {
            lemma_part_scan_bounds(s, pts, axis, j + 1, hi, store, pivot);
        }
    }
}

/// The partition of `lo ..= hi` around the entry in its middle: that entry
/// is moved to `hi`, the smaller entries gathered in front, and the middle
/// entry put after them. Gives the rearranged sequence and its position.
pub open spec fn partition_spec(s: Seq<usize>, lo: int, hi: int, pts: Seq<Seq<i32>>, axis: int) -> (
    Seq<usize>,
    int,
) {
    let mid = lo + (hi - lo) / 2;
    let s1 = swapped(s, mid, hi);
    let scan = part_scan(s1, pts, axis, lo, hi, lo, key_of(pts, s1[hi], axis));
    (swapped(scan.0, scan.1, hi), scan.1)
}

pub proof fn lemma_partition_bounds(s: Seq<usize>, lo: int, hi: int, pts: Seq<Seq<i32>>, axis: int)
    requires
        lo <= hi,
    ensures
        lo <= partition_spec(s, lo, hi, pts, axis).1 <= hi,
{
    let mid = lo + (hi - lo) / 2;
    let s1 = swapped(s, mid, hi);
    lemma_part_scan_bounds(s1, pts, axis, lo, hi, lo, key_of(pts, s1[hi], axis));
}

/// The selection of position `k` in `lo ..= hi`: partitions, then goes on
/// in the part that holds `k`, until the partition lands on `k` or one
/// entry is left (and changes nothing when `k` lies outside the range).
pub open spec fn select_spec(
    s: Seq<usize>,
    lo: int,
    hi: int,
    k: int,
    pts: Seq<Seq<i32>>,
    axis: int,
) -> Seq<usize>
    decreases hi - lo,
    via select_spec_decreases
{
    if lo >= hi || k < lo || k > hi {
        s
    } else {
        let part = partition_spec(s, lo, hi, pts, axis);
        let s2 = part.0;
        let p = part.1;
        if p == k {
            s2
        } else if k < p {
            select_spec(s2, lo, p - 1, k, pts, axis)
        } else {
            select_spec(s2, p + 1, hi, k, pts, axis)
        }
    }
}

#[via_fn]
proof fn select_spec_decreases(
    s: Seq<usize>,
    lo: int,
    hi: int,
    k: int,
    pts: Seq<Seq<i32>>,
    axis: int,
) {
    if lo < hi {
        lemma_partition_bounds(s, lo, hi, pts, axis);
    }
}

/// Exchanges the entries at `i` and `j`.
fn swap_entries(v: &mut Vec<usize>, i: usize, j: usize)
    requires
        i < old(v).len(),
        j < old(v).len(),
    ensures
        final(v)@ == swapped(old(v)@, i as int, j as int),
{
    let a = v[i];
    let b = v[j];
    v[i] = b;
    v[j] = a;
}

/// Splits `lo ..= hi` around the entry in its middle: returns the position
/// `p` where that entry ends, with smaller coordinates before it and
/// coordinates at least as great after it.
fn partition(
    indices: &mut Vec<usize>,
    lo: usize,
    hi: usize,
    points: &Vec<Vec<i32>>,
    axis: usize,
    dims: usize,
) -> (p: usize)
    requires
        lo <= hi < old(indices).len(),
        axis < dims,
        rows_len(points@, dims as nat),
        in_bounds(old(indices)@, lo as int, hi as int, points.len() as int),
    ensures
        lo <= p <= hi,
        (final(indices)@, p as int) == partition_spec(
            old(indices)@,
            lo as int,
            hi as int,
            rows(points@),
            axis as int,
        ),
        final(indices).len() == old(indices).len(),
        seg(final(indices)@, lo as int, hi as int) == seg(old(indices)@, lo as int, hi as int),
        range_ms(final(indices)@, lo as int, hi as int) == range_ms(
            old(indices)@,
            lo as int,
            hi as int,
        ),
        old(indices)@.no_duplicates() ==> final(indices)@.no_duplicates(),
        forall|x: int|
            0 <= x < old(indices).len() && (x < lo || x > hi) ==> final(indices)@[x] == old(
                indices,
            )@[x],
        in_bounds(final(indices)@, lo as int, hi as int, points.len() as int),
        forall|x: int|
            lo <= x < p ==> key_of(rows(points@), #[trigger] final(indices)@[x], axis as int) < key_of(rows(points@),
                final(indices)@[p as int],
                axis as int,
            ),
        forall|x: int|
            p < x <= hi ==> key_of(rows(points@), #[trigger] final(indices)@[x], axis as int) >= key_of(rows(points@),
                final(indices)@[p as int],
                axis as int,
            ),
{
    let ghost s0 = indices@;
    let mid = lo + (hi - lo) / 2;
    proof {
        lemma_swap(indices@, mid as int, hi as int, lo as int, hi as int);
        lemma_swap_ms(indices@, mid as int, hi as int, lo as int, hi as int);
    }
    swap_entries(indices, mid, hi);
    let ghost s1 = indices@;
    let pivot = points[indices[hi]][axis];
    let mut store = lo;
    let mut j = lo;
    while j < hi
        invariant
            lo <= store <= j <= hi < indices.len(),
            indices.len() == s0.len(),
            seg(indices@, lo as int, hi as int) == seg(s0, lo as int, hi as int),
            range_ms(indices@, lo as int, hi as int) == range_ms(s0, lo as int, hi as int),
            s0.no_duplicates() ==> indices@.no_duplicates(),
            forall|x: int|
                0 <= x < s0.len() && (x < lo || x > hi) ==> indices@[x] == s0[x],
            in_bounds(indices@, lo as int, hi as int, points.len() as int),
            axis < dims,
            rows_len(points@, dims as nat),
            pivot == key_of(rows(points@), indices@[hi as int], axis as int),
            s1[hi as int] == indices@[hi as int],
            part_scan(s1, rows(points@), axis as int, lo as int, hi as int, lo as int, pivot as int)
                == part_scan(
                indices@,
                rows(points@),
                axis as int,
                j as int,
                hi as int,
                store as int,
                pivot as int,
            ),
            forall|x: int|
                lo <= x < store ==> key_of(rows(points@), #[trigger] indices@[x], axis as int) < pivot,
            forall|x: int|
                store <= x < j ==> key_of(rows(points@), #[trigger] indices@[x], axis as int) >= pivot,
        decreases hi - j,
    {
        let kj = points[indices[j]][axis];
        if kj < pivot {
            proof {
                lemma_swap(indices@, store as int, j as int, lo as int, hi as int);
                lemma_swap_ms(indices@, store as int, j as int, lo as int, hi as int);
            }
            swap_entries(indices, store, j);
            store = store + 1;
        }
        j = j + 1;
    }
    proof {
        lemma_swap(indices@, store as int, hi as int, lo as int, hi as int);
        lemma_swap_ms(indices@, store as int, hi as int, lo as int, hi as int);
    }
    swap_entries(indices, store, hi);
    store
}

/// Reorders the entries at `left ..= right` so that the one at `k` has no
/// greater coordinate on `axis` before it and no smaller one after it,
/// within the range; the entries outside the range stay where they are.
pub fn select_indirect(
    indices: &mut Vec<usize>,
    left: usize,
    right: usize,
    k: usize,
    points: &Vec<Vec<i32>>,
    axis: usize,
    dims: usize,
)
    requires
        left <= k <= right < old(indices).len(),
        axis < dims,
        rows_len(points@, dims as nat),
        in_bounds(old(indices)@, left as int, right as int, points.len() as int),
    ensures
        final(indices).len() == old(indices).len(),
        seg(final(indices)@, left as int, right as int) == seg(
            old(indices)@,
            left as int,
            right as int,
        ),
        final(indices)@ == select_spec(
            old(indices)@,
            left as int,
            right as int,
            k as int,
            rows(points@),
            axis as int,
        ),
        range_ms(final(indices)@, left as int, right as int) == range_ms(
            old(indices)@,
            left as int,
            right as int,
        ),
        old(indices)@.no_duplicates() ==> final(indices)@.no_duplicates(),
        forall|x: int|
            0 <= x < old(indices).len() && (x < left || x > right) ==> final(indices)@[x] == old(
                indices,
            )@[x],
        in_bounds(final(indices)@, left as int, right as int, points.len() as int),
        forall|x: int|
            left <= x < k ==> key_of(rows(points@), #[trigger] final(indices)@[x], axis as int)
                <= key_of(rows(points@), final(indices)@[k as int], axis as int),
        forall|x: int|
            k < x <= right ==> key_of(rows(points@), #[trigger] final(indices)@[x], axis as int)
                >= key_of(rows(points@), final(indices)@[k as int], axis as int),
{
    let ghost s0 = indices@;
    let mut lo = left;
    let mut hi = right;
    while lo < hi
        invariant
            left <= lo <= k <= hi <= right < indices.len(),
            indices.len() == s0.len(),
            seg(indices@, left as int, right as int) == seg(s0, left as int, right as int),
            range_ms(indices@, left as int, right as int) == range_ms(s0, left as int, right as int),
            select_spec(s0, left as int, right as int, k as int, rows(points@), axis as int)
                == select_spec(indices@, lo as int, hi as int, k as int, rows(points@), axis as int),
            s0.no_duplicates() ==> indices@.no_duplicates(),
            forall|x: int|
                0 <= x < s0.len() && (x < left || x > right) ==> indices@[x] == s0[x],
            in_bounds(indices@, left as int, right as int, points.len() as int),
            axis < dims,
            rows_len(points@, dims as nat),
            forall|x: int, y: int|
                left <= x < lo && lo <= y <= right ==> key_of(rows(points@),
                    #[trigger] indices@[x],
                    axis as int,
                ) <= key_of(rows(points@), #[trigger] indices@[y], axis as int),
            forall|x: int, y: int|
                hi < x <= right && left <= y <= hi ==> key_of(rows(points@),
                    #[trigger] indices@[y],
                    axis as int,
                ) <= key_of(rows(points@), #[trigger] indices@[x], axis as int),
        decreases hi - lo,
    {
        let ghost before = indices@;
        let ghost lo0 = lo as int;
        let ghost hi0 = hi as int;
        let p = partition(indices, lo, hi, points, axis, dims);
        proof {
            lemma_seg_grow(before, indices@, lo0, hi0, left as int, right as int);
            lemma_ms_grow(before, indices@, lo0, hi0, left as int, right as int);
        }
        let ghost after = indices@;
        let ghost pk = key_of(rows(points@), after[p as int], axis as int);
        assert forall|y: int| lo0 <= y <= hi0 implies exists|q: int|
            lo0 <= q <= hi0 && before[q] == #[trigger] after[y] by {
            assert(seg(after, lo0, hi0).contains(after[y]));
        }
        if p == k {
            lo = k;
            hi = k;
        } else if k < p {
            hi = p - 1;
        } else {
            lo = p + 1;
        }
        assert forall|x: int, y: int| left <= x < lo && lo <= y <= right implies key_of(rows(points@),
            #[trigger] after[x],
            axis as int,
        ) <= key_of(rows(points@), #[trigger] after[y], axis as int) by {
            if x < lo0 {
                if y <= hi0 {
                    let q = choose|q: int| lo0 <= q <= hi0 && before[q] == after[y];
                    assert(key_of(rows(points@), before[x], axis as int) <= key_of(rows(points@), before[q], axis as int));
                } else {
                    assert(key_of(rows(points@), before[x], axis as int) <= key_of(rows(points@), before[y], axis as int));
                }
            } else {
                assert(x <= p);
                if x < p {
                    assert(key_of(rows(points@), after[x], axis as int) < pk);
                }
                if y <= hi0 {
                    assert(pk <= key_of(rows(points@), after[y], axis as int));
                } else {
                    let q = choose|q: int| lo0 <= q <= hi0 && before[q] == after[x];
                    assert(key_of(rows(points@), before[q], axis as int) <= key_of(rows(points@), before[y], axis as int));
                }
            }
        }
        assert forall|x: int, y: int| hi < x <= right && left <= y <= hi implies key_of(rows(points@),
            #[trigger] after[y],
            axis as int,
        ) <= key_of(rows(points@), #[trigger] after[x], axis as int) by {
            if x > hi0 {
                if y >= lo0 {
                    let q = choose|q: int| lo0 <= q <= hi0 && before[q] == after[y];
                    assert(key_of(rows(points@), before[q], axis as int) <= key_of(rows(points@), before[x], axis as int));
                } else {
                    assert(key_of(rows(points@), before[y], axis as int) <= key_of(rows(points@), before[x], axis as int));
                }
            } else {
                assert(x >= p);
                if x > p {
                    assert(key_of(rows(points@), after[x], axis as int) >= pk);
                }
                if y >= lo0 {
                    assert(pk >= key_of(rows(points@), after[y], axis as int));
                } else {
                    let q = choose|q: int| lo0 <= q <= hi0 && before[q] == after[x];
                    assert(key_of(rows(points@), before[y], axis as int) <= key_of(rows(points@), before[q], axis as int));
                }
            }
        }
    }
}

} // verus!
