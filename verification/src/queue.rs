//! A bounded queue that keeps its items in ascending order and holds at
//! most `max` of them: the smallest ones pushed so far.

use vstd::prelude::*;
use vstd::std_specs::cmp::PartialOrdIs;
use vstd::std_specs::cmp::PartialOrdSpec;
use vstd::laws_cmp::obeys_partial_cmp_spec_properties;

verus! {

/// Items in ascending order, at most `max` of them.
#[derive(Debug)]
pub struct FixedSizePriorityQueue<T> {
    pub vec: Vec<T>,
    pub max: usize,
}

/// Position of the first item of `s`, at `i` or after, that is greater than
/// `v`; `s.len()` when there is none.
pub open spec fn first_greater_from<T: PartialOrd>(s: Seq<T>, v: T, i: int) -> int
    decreases s.len() - i,
{
    if i < 0 || i >= s.len() {
        s.len() as int
    } else if s[i].is_gt(&v) {
        i
    } else {
        first_greater_from(s, v, i + 1)
    }
}

/// Position at which `push` places `v`: before the first item greater
/// than it.
pub open spec fn insert_position<T: PartialOrd>(s: Seq<T>, v: T) -> int {
    first_greater_from(s, v, 0)
}

/// The items after a `push` of `v` onto `s` in a queue of capacity `max`:
/// `v` goes before the first item greater than it, then the last item is
/// dropped if there are more than `max`.
pub open spec fn push_spec<T: PartialOrd>(s: Seq<T>, v: T, max: nat) -> Seq<T> {
    push_at(s, v, insert_position(s, v), max)
}

/// `s` with `v` inserted at `p`, less its last item if that makes more
/// than `max`.
pub open spec fn push_at<T>(s: Seq<T>, v: T, p: int, max: nat) -> Seq<T> {
    let ins = s.insert(p, v);
    if ins.len() > max {
        ins.drop_last()
    } else {
        ins
    }
}

/// `T`'s comparison operators agree with its specification.
pub open spec fn comparisons_specified<T: PartialOrd>() -> bool {
    T::obeys_partial_cmp_spec()
}

/// No item of `s` is greater than an item after it.
pub open spec fn ascending<T: PartialOrd>(s: Seq<T>) -> bool {
    forall|i: int, j: int| #![trigger s[i], s[j]] 0 <= i < j < s.len() ==> !s[i].is_gt(&s[j])
}

proof fn lemma_first_greater_from<T: PartialOrd>(s: Seq<T>, v: T, i: int)
    requires
        0 <= i <= s.len(),
    ensures
        i <= first_greater_from(s, v, i) <= s.len(),
        forall|j: int| i <= j < first_greater_from(s, v, i) ==> !(#[trigger] s[j]).is_gt(&v),
        first_greater_from(s, v, i) < s.len() ==> s[first_greater_from(s, v, i)].is_gt(&v),
    decreases s.len() - i,
{
    if i < s.len() && !s[i].is_gt(&v) {
        lemma_first_greater_from(s, v, i + 1);
    }
}

/// Where `push` places an item: no item before it is greater than the new
/// one, and the item it goes in front of is.
pub proof fn lemma_insert_position<T: PartialOrd>(s: Seq<T>, v: T)
    ensures
        0 <= insert_position(s, v) <= s.len(),
        forall|j: int| 0 <= j < insert_position(s, v) ==> !(#[trigger] s[j]).is_gt(&v),
        insert_position(s, v) < s.len() ==> s[insert_position(s, v)].is_gt(&v),
{
    lemma_first_greater_from(s, v, 0);
}

/// A push onto a queue in ascending order leaves it in ascending order,
/// for any item type whose comparison is a consistent order.
pub proof fn lemma_push_keeps_ascending<T: PartialOrd>(s: Seq<T>, v: T, max: nat)
    requires
        obeys_partial_cmp_spec_properties::<T>(),
        ascending(s),
    ensures
        ascending(push_spec(s, v, max)),
{
    reveal(obeys_partial_cmp_spec_properties);
    lemma_insert_position(s, v);
    let p = insert_position(s, v);
    let ins = s.insert(p, v);
    assert forall|a: int, b: int| 0 <= a < b < ins.len() implies !ins[a].is_gt(&ins[b]) by {
        if a < p && b < p {
            assert(ins[a] == s[a] && ins[b] == s[b]);
        } else if a < p && b == p {
            assert(ins[a] == s[a] && ins[b] == v);
        } else if a < p {
            assert(ins[a] == s[a] && ins[b] == s[b - 1]);
        } else if a == p {
            assert(ins[b] == s[b - 1]);
            assert(s[p].is_gt(&v));
            if v.is_gt(&s[b - 1]) {
                if b - 1 == p {
                    assert(s[p].partial_cmp_spec(&v) == Some(core::cmp::Ordering::Greater));
                    assert(v.partial_cmp_spec(&s[p]) == Some(core::cmp::Ordering::Greater));
                    assert(false);
                } else {
                    assert(s[p].is_gt(&s[b - 1]));
                    assert(!s[p].is_gt(&s[b - 1]));
                }
            }
        } else {
            assert(ins[a] == s[a - 1] && ins[b] == s[b - 1]);
        }
    }
    let r = push_spec(s, v, max);
    assert forall|a: int, b: int| 0 <= a < b < r.len() implies !r[a].is_gt(&r[b]) by {
        assert(r[a] == ins[a] && r[b] == ins[b]);
    }
}

/// A push onto a queue that holds at most `max` items leaves it holding
/// one more item, or `max` of them when it was full.
pub proof fn lemma_push_len<T: PartialOrd>(s: Seq<T>, v: T, max: nat)
    requires
        s.len() <= max,
    ensures
        push_spec(s, v, max).len() == if s.len() < max {
            s.len() + 1
        } else {
            max
        },
{
    lemma_insert_position(s, v);
}

/// The items after pushing each of `vs`, in order, onto `s`.
pub open spec fn pushes_spec<T: PartialOrd>(s: Seq<T>, vs: Seq<T>, max: nat) -> Seq<T>
    decreases vs.len(),
{
    if vs.len() == 0 {
        s
    } else {
        push_spec(pushes_spec(s, vs.drop_last(), max), vs.last(), max)
    }
}

/// After pushes onto a queue holding at most `max` items, it holds one item
/// more per push, up to `max`.
pub proof fn lemma_pushes_len<T: PartialOrd>(s: Seq<T>, vs: Seq<T>, max: nat)
    requires
        s.len() <= max,
    ensures
        pushes_spec(s, vs, max).len() == if s.len() + vs.len() < max {
            s.len() + vs.len()
        } else {
            max
        },
    decreases vs.len(),
{
    if vs.len() > 0 {
        lemma_pushes_len(s, vs.drop_last(), max);
        lemma_push_len(pushes_spec(s, vs.drop_last(), max), vs.last(), max);
    }
}

/// A cleared queue and a new queue of the same capacity hold the same
/// items after any pushes.
pub proof fn lemma_clear_like_new<T: PartialOrd>(
    cleared: FixedSizePriorityQueue<T>,
    fresh: FixedSizePriorityQueue<T>,
    vs: Seq<T>,
)
    requires
        cleared.vec@ == Seq::<T>::empty(),
        fresh.vec@ == Seq::<T>::empty(),
        cleared.max == fresh.max,
    ensures
        pushes_spec(cleared.vec@, vs, cleared.max as nat) == pushes_spec(
            fresh.vec@,
            vs,
            fresh.max as nat,
        ),
{
}

/// The smaller of `a` and `b`.
pub open spec fn min_len(a: nat, b: nat) -> int {
    if a < b {
        a as int
    } else {
        b as int
    }
}

/// `v` inserted before the first item of `s` greater than it.
pub open spec fn insert_sorted<T: PartialOrd>(s: Seq<T>, v: T) -> Seq<T> {
    s.insert(insert_position(s, v), v)
}

/// The items of `vs` put in order one at a time by `insert_sorted`.
pub open spec fn sorted_by_pushes<T: PartialOrd>(vs: Seq<T>) -> Seq<T>
    decreases vs.len(),
{
    if vs.len() == 0 {
        Seq::empty()
    } else {
        insert_sorted(sorted_by_pushes(vs.drop_last()), vs.last())
    }
}

/// Any two items that neither is greater than the other are the same.
pub open spec fn gt_total<T: PartialOrd>() -> bool {
    forall|x: T, y: T|
        #![trigger x.partial_cmp_spec(&y), y.partial_cmp_spec(&x)]
        !x.is_gt(&y) && !y.is_gt(&x) ==> x == y
}

proof fn lemma_sorted_by_pushes_len<T: PartialOrd>(vs: Seq<T>)
    ensures
        sorted_by_pushes(vs).len() == vs.len(),
        sorted_by_pushes(vs).to_multiset() == vs.to_multiset(),
    decreases vs.len(),
{
    broadcast use vstd::seq_lib::to_multiset_insert;
    broadcast use vstd::seq_lib::to_multiset_build;
    if vs.len() == 0 {
        assert(vs =~= Seq::<T>::empty());
    } else {
        let s = sorted_by_pushes(vs.drop_last());
        lemma_sorted_by_pushes_len(vs.drop_last());
        lemma_insert_position(s, vs.last());
        assert(vs =~= vs.drop_last().push(vs.last()));
    }
}

/// The first item greater than `v` in a prefix of `s` is the first in `s`,
/// unless `s` has none within the prefix.
proof fn lemma_insert_position_take<T: PartialOrd>(s: Seq<T>, v: T, m: int)
    requires
        0 <= m <= s.len(),
    ensures
        insert_position(s.take(m), v) == if insert_position(s, v) < m {
            insert_position(s, v)
        } else {
            m
        },
{
    lemma_insert_position(s, v);
    lemma_insert_position(s.take(m), v);
    let p = insert_position(s, v);
    let q = insert_position(s.take(m), v);
    if q < p && q < m {
        assert(s.take(m)[q] == s[q]);
    }
    if p < q {
        assert(s.take(m)[p] == s[p]);
    }
}

/// Pushing onto the first items of a sequence keeps the first items of the
/// sequence with the new item put in order.
proof fn lemma_push_onto_prefix<T: PartialOrd>(s: Seq<T>, v: T, max: nat)
    ensures
        push_spec(s.take(min_len(max, s.len())), v, max) == insert_sorted(
            s,
            v,
        ).take(min_len(max, s.len() + 1)),
{
    let m: int = min_len(max, s.len());
    lemma_insert_position(s, v);
    lemma_insert_position_take(s, v, m);
    let p = insert_position(s, v);
    let prefix = s.take(m);
    let lhs = push_spec(prefix, v, max);
    let rhs = insert_sorted(s, v).take(min_len(max, s.len() + 1));
    assert(lhs =~= rhs);
}

/// The items a new queue holds after pushes are the first `max` of the
/// pushed items put in order.
pub proof fn lemma_pushes_are_sorted_prefix<T: PartialOrd>(vs: Seq<T>, max: nat)
    ensures
        pushes_spec(Seq::empty(), vs, max) == sorted_by_pushes(vs).take(min_len(max, vs.len())),
    decreases vs.len(),
{
    if vs.len() == 0 {
        assert(sorted_by_pushes(vs).take(0) =~= Seq::<T>::empty());
    } else {
        let init = vs.drop_last();
        lemma_pushes_are_sorted_prefix(init, max);
        lemma_sorted_by_pushes_len(init);
        lemma_push_onto_prefix(sorted_by_pushes(init), vs.last(), max);
    }
}

/// Items put in order one at a time end in ascending order.
proof fn lemma_sorted_by_pushes_ascending<T: PartialOrd>(vs: Seq<T>)
    requires
        obeys_partial_cmp_spec_properties::<T>(),
    ensures
        ascending(sorted_by_pushes(vs)),
    decreases vs.len(),
{
    if vs.len() > 0 {
        let s = sorted_by_pushes(vs.drop_last());
        lemma_sorted_by_pushes_ascending(vs.drop_last());
        lemma_push_keeps_ascending(s, vs.last(), s.len() + 1);
        lemma_insert_position(s, vs.last());
        assert(push_spec(s, vs.last(), s.len() + 1) == insert_sorted(s, vs.last()));
    }
}

/// Two ascending sequences of the same items are the same, for items of
/// a total order.
proof fn lemma_ascending_unique<T: PartialOrd>(a: Seq<T>, b: Seq<T>)
    requires
        obeys_partial_cmp_spec_properties::<T>(),
        gt_total::<T>(),
        ascending(a),
        ascending(b),
        a.to_multiset() == b.to_multiset(),
    ensures
        a == b,
    decreases a.len(),
{
    broadcast use vstd::seq_lib::to_multiset_len;
    broadcast use vstd::seq_lib::to_multiset_contains;
    broadcast use vstd::seq_lib::to_multiset_remove;
    reveal(obeys_partial_cmp_spec_properties);
    vstd::seq_lib::to_multiset_len(a);
    vstd::seq_lib::to_multiset_len(b);
    assert(a.len() == b.len());
    if a.len() == 0 {
        assert(a =~= b);
    } else {
        assert(a.contains(a[0]));
        assert(b.to_multiset().count(a[0]) > 0);
        assert(b.contains(a[0]));
        let j = choose|j: int| 0 <= j < b.len() && b[j] == a[0];
        assert(b.contains(b[0]));
        assert(a.to_multiset().count(b[0]) > 0);
        assert(a.contains(b[0]));
        let i = choose|i: int| 0 <= i < a.len() && a[i] == b[0];
        if j > 0 {
            assert(!b[0].is_gt(&b[j]));
        } else {
            assert(b[0].partial_cmp_spec(&a[0]) == a[0].partial_cmp_spec(&b[0]));
        }
        if i > 0 {
            assert(!a[0].is_gt(&a[i]));
        }
        assert(!a[0].is_gt(&b[0]) && !b[0].is_gt(&a[0]));
        assert(a[0].partial_cmp_spec(&b[0]) == a[0].partial_cmp_spec(&b[0]));
        assert(b[0].partial_cmp_spec(&a[0]) == b[0].partial_cmp_spec(&a[0]));
        assert(a[0] == b[0]);
        assert(a.drop_first() =~= a.remove(0));
        assert(b.drop_first() =~= b.remove(0));
        assert forall|x: int, y: int| 0 <= x < y < a.drop_first().len() implies !a.drop_first()[x].is_gt(
            &a.drop_first()[y],
        ) by {
            assert(!a[x + 1].is_gt(&a[y + 1]));
        }
        assert forall|x: int, y: int| 0 <= x < y < b.drop_first().len() implies !b.drop_first()[x].is_gt(
            &b.drop_first()[y],
        ) by {
            assert(!b[x + 1].is_gt(&b[y + 1]));
        }
        lemma_ascending_unique(a.drop_first(), b.drop_first());
        assert forall|x: int| 0 <= x < a.len() implies a[x] == b[x] by {
            if x > 0 {
                assert(a[x] == a.drop_first()[x - 1]);
                assert(b[x] == b.drop_first()[x - 1]);
            }
        }
        assert(a =~= b);
    }
}

/// For items of a total order, what a new queue holds after pushes does
/// not depend on the order of the pushes: it is the first `max` of the
/// pushed items in ascending order.
pub proof fn law_push_order_independent<T: PartialOrd>(vs: Seq<T>, ws: Seq<T>, max: nat)
    requires
        obeys_partial_cmp_spec_properties::<T>(),
        gt_total::<T>(),
        vs.to_multiset() == ws.to_multiset(),
    ensures
        pushes_spec(Seq::empty(), vs, max) == pushes_spec(Seq::empty(), ws, max),
        ascending(pushes_spec(Seq::empty(), vs, max)),
{
    broadcast use vstd::seq_lib::to_multiset_len;
    lemma_sorted_by_pushes_len(vs);
    lemma_sorted_by_pushes_len(ws);
    lemma_sorted_by_pushes_ascending(vs);
    lemma_sorted_by_pushes_ascending(ws);
    lemma_ascending_unique(sorted_by_pushes(vs), sorted_by_pushes(ws));
    lemma_pushes_are_sorted_prefix(vs, max);
    lemma_pushes_are_sorted_prefix(ws, max);
    assert(vs.len() == ws.len());
    let s = sorted_by_pushes(vs);
    let t = s.take(min_len(max, vs.len()));
    assert forall|x: int, y: int| #![trigger t[x], t[y]] 0 <= x < y < t.len() implies !t[x].is_gt(
        &t[y],
    ) by {
        assert(!s[x].is_gt(&s[y]));
    }
}

/// Unsigned integers are items of a total order.
pub proof fn lemma_u64_total_order()
    ensures
        obeys_partial_cmp_spec_properties::<u64>(),
        gt_total::<u64>(),
{
    broadcast use vstd::laws_cmp::group_laws_cmp;
    assert(vstd::laws_cmp::obeys_cmp::<u64>());
}

impl<T> FixedSizePriorityQueue<T> where T: PartialOrd {
    /// An empty queue that holds at most `s` items.
    pub fn new(s: usize) -> (q: Self)
        requires
            s < usize::MAX,
        ensures
            q.vec@ == Seq::<T>::empty(),
            q.max == s,
    {
        Self { vec: Vec::with_capacity(s + 1), max: s }
    }

    /// Places `v` before the first item greater than it, then drops the
    /// last item if the queue holds more than `max`.
    pub fn push(&mut self, v: T)
        ensures
            comparisons_specified::<T>() ==> final(self).vec@ == push_spec(
                old(self).vec@,
                v,
                old(self).max as nat,
            ),
            exists|p: int|
                0 <= p <= old(self).vec.len() && final(self).vec@ == #[trigger] push_at(
                    old(self).vec@,
                    v,
                    p,
                    old(self).max as nat,
                ),
            final(self).max == old(self).max,
    {
        let mut i: usize = 0;
        while i < self.vec.len() && !self.vec[i].gt(&v)
            invariant
                self.vec@ == old(self).vec@,
                self.max == old(self).max,
                i <= self.vec.len(),
                comparisons_specified::<T>() ==> insert_position(self.vec@, v)
                    == first_greater_from(self.vec@, v, i as int),
            decreases self.vec.len() - i,
        {
            i = i + 1;
        }
        if i < self.vec.len() {
            self.vec.insert(i, v);
        } else {
            self.vec.push(v);
        }
        if self.vec.len() > self.max {
            self.vec.pop();
        }
        assert(self.vec@ == push_at(old(self).vec@, v, i as int, self.max as nat));
    }

    /// The item at `idx`, unless the queue is empty and has no room.
    pub fn get(&self, idx: usize) -> (r: Option<&T>)
        requires
            self.vec.len() > 0 || self.vec.len() < self.max ==> idx < self.vec.len(),
        ensures
            r == (if self.vec.len() > 0 || self.vec.len() < self.max {
                Some(&self.vec@[idx as int])
            } else {
                None
            }),
    {
        let l = self.len();
        if l > 0 || l < self.max {
            Some(&self.vec[idx])
        } else {
            None
        }
    }

    /// Number of items held.
    pub fn len(&self) -> (r: usize)
        ensures
            r == self.vec.len(),
    {
        self.vec.len()
    }

    /// The greatest item held, if any.
    pub fn last(&self) -> (r: Option<&T>)
        ensures
            r == (if self.vec.len() > 0 {
                Some(&self.vec@.last())
            } else {
                None
            }),
    {
        self.vec.last()
    }

    /// Removes every item.
    pub fn clear(&mut self)
        ensures
            final(self).vec@ == Seq::<T>::empty(),
            final(self).max == old(self).max,
    {
        self.vec.clear()
    }
}

} // verus!
