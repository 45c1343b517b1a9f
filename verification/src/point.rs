//! Points of a `DIM`-dimensional integer space, the reading of their
//! coordinates, and the squared Euclidean distance between them.

use vstd::prelude::*;

verus! {

/// A point the tree can index: `DIM` integer coordinates, read one axis at
/// a time.
pub trait TraitPoint {
    /// Number of coordinates of every point of the type.
    const DIM: usize;

    /// Reads the coordinate on axis `d`.
    fn dim(&self, d: usize) -> i32
        requires
            d < Self::DIM,
    ;
}

/// `c` holds, for each axis `d < DIM`, a value that `p.dim(d)` returned.
pub open spec fn reads_coords<T: TraitPoint>(p: T, c: Seq<i32>) -> bool {
    &&& c.len() == T::DIM
    &&& forall|d: int| 0 <= d < T::DIM ==> call_ensures(T::dim, (&p, d as usize), #[trigger] c[d])
}

/// Reads every coordinate of `p`.
pub fn read_coords<T: TraitPoint>(p: &T) -> (c: Vec<i32>)
    ensures
        reads_coords(*p, c@),
{
    let mut c: Vec<i32> = Vec::new();
    let mut i: usize = 0;
    while i < T::DIM
        invariant
            i <= T::DIM,
            c.len() == i,
            forall|d: int| 0 <= d < i ==> call_ensures(T::dim, (p, d as usize), #[trigger] c@[d]),
        decreases T::DIM - i,
    {
        let v = p.dim(i);
        c.push(v);
        i = i + 1;
    }
    c
}

/// Sum of the squared differences of `a` and `b` over the axes `0 .. n`.
pub open spec fn partial_sq_dist(a: Seq<i32>, b: Seq<i32>, n: nat) -> nat
    decreases n,
{
    if n == 0 {
        0
    } else {
        let d = a[n - 1] - b[n - 1];
        (partial_sq_dist(a, b, (n - 1) as nat) + d * d) as nat
    }
}

/// Squared Euclidean distance of the points with coordinates `a` and `b`.
pub open spec fn sq_dist(a: Seq<i32>, b: Seq<i32>) -> nat {
    partial_sq_dist(a, b, a.len())
}

proof fn lemma_partial_symmetric(a: Seq<i32>, b: Seq<i32>, n: nat)
    ensures
        partial_sq_dist(a, b, n) == partial_sq_dist(b, a, n),
    decreases n,
{
    if n > 0 {
        lemma_partial_symmetric(a, b, (n - 1) as nat);
        let d = a[n - 1] - b[n - 1];
        assert(d * d == (-d) * (-d)) by (nonlinear_arith);
    }
}

proof fn lemma_partial_self(a: Seq<i32>, n: nat)
    ensures
        partial_sq_dist(a, a, n) == 0,
    decreases n,
{
    if n > 0 {
        lemma_partial_self(a, (n - 1) as nat);
    }
}

/// The squared distance is symmetric, and a point lies at distance 0 from
/// itself.
pub proof fn lemma_sq_dist_symmetric(a: Seq<i32>, b: Seq<i32>)
    requires
        a.len() == b.len(),
    ensures
        sq_dist(a, b) == sq_dist(b, a),
        sq_dist(a, a) == 0,
{
    lemma_partial_symmetric(a, b, a.len());
    lemma_partial_self(a, a.len());
}

/// Largest square of a difference of two `i32` values.
pub open spec fn max_sq_term() -> int {
    0xFFFF_FFFE_0000_0001
}

pub proof fn lemma_square_bound(d: int)
    requires
        -0xFFFF_FFFF <= d <= 0xFFFF_FFFF,
    ensures
        0 <= d * d <= max_sq_term(),
{
    assert(0 <= d * d <= 0xFFFF_FFFE_0000_0001) by (nonlinear_arith)
        requires
            -0xFFFF_FFFF <= d <= 0xFFFF_FFFF,
    ;
}

/// `x * x >= y * y` when `|x| >= |y|`.
pub proof fn lemma_square_monotone(x: int, y: int)
    requires
        (x >= 0 && x >= y && y >= 0) || (x <= 0 && x <= y && y <= 0),
    ensures
        x * x >= y * y,
{
    assert(x * x >= y * y) by (nonlinear_arith)
        requires
            (x >= 0 && x >= y && y >= 0) || (x <= 0 && x <= y && y <= 0),
    ;
}

pub proof fn lemma_partial_bound(a: Seq<i32>, b: Seq<i32>, n: nat)
    ensures
        partial_sq_dist(a, b, n) <= n * max_sq_term(),
    decreases n,
{
    if n > 0 {
        lemma_partial_bound(a, b, (n - 1) as nat);
        lemma_square_bound(a[n - 1] - b[n - 1]);
    }
}

/// The squared distance fits in a `u128`.
pub proof fn lemma_sq_dist_fits(a: Seq<i32>, b: Seq<i32>)
    requires
        a.len() <= usize::MAX,
    ensures
        sq_dist(a, b) <= u128::MAX,
{
    lemma_partial_bound(a, b, a.len());
    let n: int = a.len() as int;
    assert(n * max_sq_term() <= 0xFFFF_FFFF_FFFF_FFFF * max_sq_term()) by (nonlinear_arith)
        requires
            0 <= n <= 0xFFFF_FFFF_FFFF_FFFF,
            max_sq_term() == 0xFFFF_FFFE_0000_0001,
    ;
}

/// The squared distance is at least the squared difference on any one axis.
pub proof fn lemma_sq_dist_ge_axis(a: Seq<i32>, b: Seq<i32>, axis: int, n: nat)
    requires
        0 <= axis < n,
    ensures
        partial_sq_dist(a, b, n) >= (a[axis] - b[axis]) * (a[axis] - b[axis]),
    decreases n,
{
    let d = a[axis] - b[axis];
    if axis < n - 1 {
        lemma_sq_dist_ge_axis(a, b, axis, (n - 1) as nat);
        let e = a[n - 1] - b[n - 1];
        assert(e * e >= 0) by (nonlinear_arith);
    } else {
        assert(partial_sq_dist(a, b, (n - 1) as nat) >= 0);
    }
}

} // verus!
