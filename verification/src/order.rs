//! Sorting by a total order.

use crate::path;
use crate::path::{PathView, VaultPath};
use vstd::prelude::*;

verus! {

/// Types whose models are totally ordered.
pub trait Ordered: DeepView + Sized {
    /// Whether `a` comes before `b`.
    spec fn before(a: Self::V, b: Self::V) -> bool;

    /// The order is strict, transitive and total.
    proof fn lemma_total_order(a: Self::V, b: Self::V, c: Self::V)
        ensures
            !Self::before(a, a),
            Self::before(a, b) && Self::before(b, c) ==> Self::before(a, c),
            Self::before(a, b) || Self::before(b, a) || a == b,
    ;

    /// Whether this value comes before `other`.
    fn precedes(&self, other: &Self) -> (r: bool)
        ensures
            r == Self::before(self.deep_view(), other.deep_view()),
    ;
}

impl Ordered for VaultPath {
    open spec fn before(a: PathView, b: PathView) -> bool {
        path::path_before(a, b)
    }

    proof fn lemma_total_order(a: PathView, b: PathView, c: PathView) {
        path::lemma_path_order(a, b, c);
    }

    fn precedes(&self, other: &VaultPath) -> (r: bool) {
        self.is_before(other)
    }
}

/// No value comes before one that stands to its left.
pub open spec fn is_sorted<T: Ordered>(s: Seq<T::V>) -> bool {
    forall|i: int, j: int|
        #![trigger s[i], s[j]]
        0 <= i < j < s.len() ==> !T::before(s[j], s[i])
}

/// The first position from `i` on of a value that comes after `x`.
pub open spec fn place<T: Ordered>(s: Seq<T::V>, x: T::V, i: int) -> int
    decreases s.len() - i,
{
    if i >= s.len() {
        s.len() as int
    } else if T::before(x, s[i]) {
        i
    } else {
        place::<T>(s, x, i + 1)
    }
}

/// The values in order, equal ones as they stood.
pub open spec fn sorted<T: Ordered>(s: Seq<T::V>) -> Seq<T::V>
    decreases s.len(),
{
    if s.len() == 0 {
        s
    } else {
        let head = sorted::<T>(s.drop_last());
        head.insert(place::<T>(head, s.last(), 0), s.last())
    }
}

proof fn lemma_place<T: Ordered>(s: Seq<T::V>, x: T::V, i: int, k: int)
    requires
        0 <= i <= k <= s.len(),
        forall|j: int| i <= j < k ==> !T::before(x, #[trigger] s[j]),
        k < s.len() ==> T::before(x, s[k]),
    ensures
        place::<T>(s, x, i) == k,
    decreases k - i,
{
    if i < k {
        lemma_place::<T>(s, x, i + 1, k);
    }
}

proof fn lemma_place_range<T: Ordered>(s: Seq<T::V>, x: T::V, i: int)
    requires
        0 <= i <= s.len(),
    ensures
        i <= place::<T>(s, x, i) <= s.len(),
        forall|j: int| i <= j < place::<T>(s, x, i) ==> !T::before(x, #[trigger] s[j]),
        place::<T>(s, x, i) < s.len() ==> T::before(x, s[place::<T>(s, x, i)]),
    decreases s.len() - i,
{
    if i < s.len() && !T::before(x, s[i]) {
        lemma_place_range::<T>(s, x, i + 1);
    }
}

/// What comes after `x` stays so to the right.
proof fn lemma_right_of<T: Ordered>(s: Seq<T::V>, x: T::V, i: int, j: int)
    requires
        is_sorted::<T>(s),
        0 <= i <= j < s.len(),
        T::before(x, s[i]),
    ensures
        T::before(x, s[j]),
{
    if i < j {
        assert(!T::before(s[j], s[i]));
        T::lemma_total_order(s[i], s[j], s[j]);
        T::lemma_total_order(x, s[i], s[j]);
    }
}

/// Sorting gives a sorted permutation.
pub proof fn lemma_sorted<T: Ordered>(s: Seq<T::V>)
    ensures
        is_sorted::<T>(sorted::<T>(s)),
        sorted::<T>(s).len() == s.len(),
        sorted::<T>(s).to_multiset() == s.to_multiset(),
        forall|x: T::V| #[trigger] sorted::<T>(s).contains(x) <==> s.contains(x),
    decreases s.len(),
{
    broadcast use vstd::seq_lib::group_to_multiset_ensures;

    if s.len() > 0 {
        let head = sorted::<T>(s.drop_last());
        let x = s.last();
        let k = place::<T>(head, x, 0);
        let r = head.insert(k, x);
        lemma_sorted::<T>(s.drop_last());
        lemma_place_range::<T>(head, x, 0);
        assert(is_sorted::<T>(r)) by {
            assert forall|i: int, j: int|
                #![trigger r[i], r[j]]
                0 <= i < j < r.len() implies !T::before(r[j], r[i]) by {
                if i < k && j == k {
                } else if i == k && j > k {
                    lemma_right_of::<T>(head, x, k, j - 1);
                    T::lemma_total_order(x, head[j - 1], x);
                } else {
                    let a = if i < k {
                        i
                    } else {
                        i - 1
                    };
                    let b = if j < k {
                        j
                    } else {
                        j - 1
                    };
                    assert(r[i] == head[a]);
                    assert(r[j] == head[b]);
                }
            }
        }
        assert(s =~= s.drop_last().push(x));
        assert(r.to_multiset() =~= head.to_multiset().insert(x));
        assert forall|y: T::V| #[trigger] sorted::<T>(s).contains(y) <==> s.contains(y) by {
            assert(r.contains(y) <==> r.to_multiset().count(y) > 0);
            assert(s.contains(y) <==> s.to_multiset().count(y) > 0);
        }
    }
}

/// Sorts a list.
pub fn sort<T: Ordered>(v: Vec<T>) -> (r: Vec<T>)
    ensures
        r.deep_view() == sorted::<T>(v.deep_view()),
{
    let ghost all = v.deep_view();
    let mut out: Vec<T> = Vec::new();
    assert(out.deep_view() =~= sorted::<T>(all.take(0)));
    for x in it: v
        invariant
            it.seq() == v@,
            all == v.deep_view(),
            out.deep_view() == sorted::<T>(all.take(it.index() as int)),
    {
        let ghost i = it.index() as int;
        let ghost s = out.deep_view();
        let ghost y = x.deep_view();
        proof {
            lemma_sorted::<T>(all.take(i));
            assert(all.take(i + 1).drop_last() =~= all.take(i));
            assert(all.take(i + 1).last() == y);
        }
        let mut lo: usize = 0;
        let mut hi: usize = out.len();
        while lo < hi
            invariant
                s == out.deep_view(),
                y == x.deep_view(),
                is_sorted::<T>(s),
                lo <= hi <= out@.len(),
                forall|j: int| 0 <= j < lo ==> !T::before(y, #[trigger] s[j]),
                hi < out@.len() ==> T::before(y, s[hi as int]),
            decreases hi - lo,
        {
            let mid: usize = lo + (hi - lo) / 2;
            assert(s[mid as int] == out[mid as int].deep_view());
            if x.precedes(&out[mid]) {
                hi = mid;
            } else {
                proof {
                    assert forall|j: int| 0 <= j < mid + 1 implies !T::before(
                        y,
                        #[trigger] s[j],
                    ) by {
                        if T::before(y, s[j]) {
                            lemma_right_of::<T>(s, y, j, mid as int);
                        }
                    }
                }
                lo = mid + 1;
            }
        }
        proof {
            lemma_place::<T>(s, y, 0, lo as int);
        }
        out.insert(lo, x);
        assert(out.deep_view() =~= s.insert(lo as int, y));
    }
    assert(all.take(all.len() as int) =~= all);
    out
}

/// The paths in order, each once.
pub open spec fn distinct(s: Seq<PathView>) -> Seq<PathView>
    decreases s.len(),
{
    if s.len() == 0 {
        s
    } else {
        let head = distinct(s.drop_last());
        if head.len() > 0 && head.last() == s.last() {
            head
        } else {
            head.push(s.last())
        }
    }
}

/// The set of paths in a list, in order.
pub open spec fn path_set(s: Seq<PathView>) -> Seq<PathView> {
    distinct(sorted::<VaultPath>(s))
}

/// Whether each path comes before the next.
pub open spec fn strictly_ordered(s: Seq<PathView>) -> bool {
    forall|i: int, j: int|
        #![trigger s[i], s[j]]
        0 <= i < j < s.len() ==> path::path_before(s[i], s[j])
}

proof fn lemma_distinct(s: Seq<PathView>)
    requires
        is_sorted::<VaultPath>(s),
    ensures
        strictly_ordered(distinct(s)),
        distinct(s).len() > 0 <==> s.len() > 0,
        s.len() > 0 ==> distinct(s).last() == s.last(),
        forall|x: PathView| #[trigger] distinct(s).contains(x) <==> s.contains(x),
    decreases s.len(),
{
    if s.len() > 0 {
        let h = s.drop_last();
        let d = distinct(h);
        let r = distinct(s);
        assert(is_sorted::<VaultPath>(h)) by {
            assert forall|i: int, j: int|
                #![trigger h[i], h[j]]
                0 <= i < j < h.len() implies !path::path_before(h[j], h[i]) by {
                assert(!path::path_before(s[j], s[i]));
            }
        }
        lemma_distinct(h);
        if d.len() > 0 && d.last() == s.last() {
            assert forall|x: PathView| #[trigger] r.contains(x) <==> s.contains(x) by {
                if s.contains(x) {
                    let i = choose|i: int| 0 <= i < s.len() && s[i] == x;
                    if i < h.len() {
                        assert(h[i] == x);
                        assert(h.contains(x));
                    } else {
                        assert(d[d.len() - 1] == x);
                    }
                }
                if r.contains(x) {
                    assert(h.contains(x));
                    let i = choose|i: int| 0 <= i < h.len() && h[i] == x;
                    assert(s[i] == x);
                }
            }
        } else {
            assert(r == d.push(s.last()));
            if d.len() > 0 {
                let m = h.len() - 1;
                assert(!path::path_before(s[h.len() as int], s[m]));
                path::lemma_path_order(h.last(), s.last(), s.last());
                assert(path::path_before(d.last(), s.last()));
            }
            assert forall|i: int, j: int|
                #![trigger r[i], r[j]]
                0 <= i < j < r.len() implies path::path_before(r[i], r[j]) by {
                if j < d.len() {
                    assert(path::path_before(d[i], d[j]));
                } else if i < d.len() - 1 {
                    assert(path::path_before(d[i], d[d.len() - 1]));
                    path::lemma_path_order(d[i], d.last(), s.last());
                }
            }
            assert forall|x: PathView| #[trigger] r.contains(x) <==> s.contains(x) by {
                if s.contains(x) {
                    let i = choose|i: int| 0 <= i < s.len() && s[i] == x;
                    if i < h.len() {
                        assert(h[i] == x);
                        assert(d.contains(x));
                        let k = choose|k: int| 0 <= k < d.len() && d[k] == x;
                        assert(r[k] == x);
                    } else {
                        assert(r[r.len() - 1] == x);
                    }
                }
                if r.contains(x) {
                    let k = choose|k: int| 0 <= k < r.len() && r[k] == x;
                    if k < d.len() {
                        assert(d[k] == x);
                        assert(d.contains(x));
                        assert(h.contains(x));
                        let i = choose|i: int| 0 <= i < h.len() && h[i] == x;
                        assert(s[i] == x);
                    } else {
                        assert(s[s.len() - 1] == x);
                    }
                }
            }
        }
    }
}

/// The set of paths in a list is strictly ordered and holds the same paths.
pub proof fn lemma_path_set(s: Seq<PathView>)
    ensures
        strictly_ordered(path_set(s)),
        forall|x: PathView| #[trigger] path_set(s).contains(x) <==> s.contains(x),
{
    lemma_sorted::<VaultPath>(s);
    lemma_distinct(sorted::<VaultPath>(s));
    assert forall|x: PathView| #[trigger] path_set(s).contains(x) <==> s.contains(x) by {
        assert(sorted::<VaultPath>(s).contains(x) <==> s.contains(x));
    }
}

/// The set of paths in a list, in order.
pub fn sorted_path_set(v: Vec<VaultPath>) -> (r: Vec<VaultPath>)
    ensures
        r.deep_view() == path_set(v.deep_view()),
{
    let ghost all = sorted::<VaultPath>(v.deep_view());
    let s: Vec<VaultPath> = sort(v);
    let mut out: Vec<VaultPath> = Vec::new();
    assert(out.deep_view() =~= distinct(all.take(0)));
    for p in it: s
        invariant
            it.seq() == s@,
            all == s.deep_view(),
            out.deep_view() == distinct(all.take(it.index() as int)),
    {
        let ghost i = it.index() as int;
        let ghost before = out.deep_view();
        proof {
            assert(all.take(i + 1).drop_last() =~= all.take(i));
            assert(all.take(i + 1).last() == p.deep_view());
        }
        let repeated: bool = if out.len() > 0 {
            assert(before.last() == out[out.len() - 1].deep_view());
            out[out.len() - 1].same(&p)
        } else {
            false
        };
        if !repeated {
            out.push(p);
            assert(out.deep_view() =~= before.push(p.deep_view()));
        }
    }
    assert(all.take(all.len() as int) =~= all);
    out
}

} // verus!
