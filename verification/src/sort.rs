//! Stable sorting by an integer key (what `sort_by_key` does on a `Vec`).

use vstd::prelude::*;

verus! {

broadcast use vstd::seq_lib::group_to_multiset_ensures;

/// Values that are ordered by an integer key.
pub trait SortKey {
    /// The key by which the value is ordered.
    spec fn sort_key(&self) -> int;

    /// Computes the key.
    fn key(&self) -> (k: u128)
        ensures
            k == self.sort_key(),
    ;
}

/// Keys never decrease along the sequence.
pub open spec fn sorted_by_key<T: SortKey>(s: Seq<T>) -> bool {
    forall|i: int, j: int| 0 <= i <= j < s.len() ==> #[trigger] s[i].sort_key() <= #[trigger] s[j].sort_key()
}

/// `x` inserted into `s` after every element whose key is not greater than its own.
pub open spec fn insert_sorted<T: SortKey>(s: Seq<T>, x: T) -> Seq<T>
    decreases s.len(),
{
    if s.len() == 0 {
        seq![x]
    } else if s.last().sort_key() <= x.sort_key() {
        s.push(x)
    } else {
        insert_sorted(s.drop_last(), x).push(s.last())
    }
}

/// The stable sort of `s` by key: elements with equal keys keep their order.
pub open spec fn stable_sort<T: SortKey>(s: Seq<T>) -> Seq<T>
    decreases s.len(),
{
    if s.len() == 0 {
        s
    } else {
        insert_sorted(stable_sort(s.drop_last()), s.last())
    }
}

/// Inserting at a position that separates smaller-or-equal keys from greater keys.
proof fn lemma_insert_sorted_at<T: SortKey>(s: Seq<T>, x: T, p: int)
    requires
        0 <= p <= s.len(),
        p > 0 ==> s[p - 1].sort_key() <= x.sort_key(),
        forall|j: int| p <= j < s.len() ==> #[trigger] s[j].sort_key() > x.sort_key(),
    ensures
        insert_sorted(s, x) == s.insert(p, x),
    decreases s.len(),
{
    if s.len() == 0 {
        assert(s.insert(p, x) =~= seq![x]);
    } else if s.last().sort_key() <= x.sort_key() {
        assert(p == s.len());
        assert(s.insert(p, x) =~= s.push(x));
    } else {
        let t = s.drop_last();
        assert(p < s.len());
        lemma_insert_sorted_at(t, x, p);
        assert(t.insert(p, x).push(s.last()) =~= s.insert(p, x));
    }
}

proof fn lemma_insert_keeps_sorted<T: SortKey>(s: Seq<T>, x: T, p: int)
    requires
        sorted_by_key(s),
        0 <= p <= s.len(),
        p > 0 ==> s[p - 1].sort_key() <= x.sort_key(),
        forall|j: int| p <= j < s.len() ==> #[trigger] s[j].sort_key() > x.sort_key(),
    ensures
        sorted_by_key(s.insert(p, x)),
{
    let r = s.insert(p, x);
    assert forall|i: int, j: int| 0 <= i <= j < r.len() implies #[trigger] r[i].sort_key()
        <= #[trigger] r[j].sort_key() by {
        if i < p && j < p {
            assert(r[i] == s[i] && r[j] == s[j]);
        } else if i < p && j == p {
            assert(r[i] == s[i]);
            assert(s[i].sort_key() <= s[p - 1].sort_key());
        } else if i < p {
            assert(r[i] == s[i] && r[j] == s[j - 1]);
        } else if i == p && j == p {
        } else if i == p {
            assert(r[j] == s[j - 1]);
        } else {
            assert(r[i] == s[i - 1] && r[j] == s[j - 1]);
        }
    }
}

/// The position at which `insert_sorted` puts `x` into a sorted sequence exists.
proof fn lemma_insert_sorted_sorted<T: SortKey>(s: Seq<T>, x: T)
    requires
        sorted_by_key(s),
    ensures
        sorted_by_key(insert_sorted(s, x)),
        insert_sorted(s, x).to_multiset() == s.to_multiset().insert(x),
        insert_sorted(s, x).len() == s.len() + 1,
    decreases s.len(),
{
    if s.len() == 0 {
        assert(seq![x] =~= Seq::<T>::empty().push(x));
    } else if s.last().sort_key() <= x.sort_key() {
        lemma_insert_keeps_sorted(s, x, s.len() as int);
        assert(s.insert(s.len() as int, x) =~= s.push(x));
    } else {
        let t = s.drop_last();
        assert(sorted_by_key(t));
        lemma_insert_sorted_sorted(t, x);
        let u = insert_sorted(t, x);
        let r = u.push(s.last());
        assert forall|i: int, j: int| 0 <= i <= j < r.len() implies #[trigger] r[i].sort_key()
            <= #[trigger] r[j].sort_key() by {
            if j == r.len() - 1 && i < j {
                // every element of u is an element of t or x, and all are <= s.last()
                assert(u.to_multiset().count(u[i]) > 0);
                if u[i] == x {
                } else {
                    assert(t.to_multiset().count(u[i]) > 0);
                    assert(t.contains(u[i]));
                    let k = choose|k: int| 0 <= k < t.len() && t[k] == u[i];
                    assert(s[k] == t[k]);
                }
            } else if j < r.len() - 1 {
                assert(r[i] == u[i] && r[j] == u[j]);
            }
        }
        assert(s =~= t.push(s.last()));
    }
}

/// The stable sort is sorted, is a permutation of its input, and has its length.
pub proof fn lemma_stable_sort_ensures<T: SortKey>(s: Seq<T>)
    ensures
        sorted_by_key(stable_sort(s)),
        stable_sort(s).to_multiset() == s.to_multiset(),
        stable_sort(s).len() == s.len(),
    decreases s.len(),
{
    if s.len() > 0 {
        lemma_stable_sort_ensures(s.drop_last());
        lemma_insert_sorted_sorted(stable_sort(s.drop_last()), s.last());
        assert(s =~= s.drop_last().push(s.last()));
    }
}

/// Sorting what is already sorted changes nothing.
pub proof fn lemma_stable_sort_sorted_id<T: SortKey>(s: Seq<T>)
    requires
        sorted_by_key(s),
    ensures
        stable_sort(s) == s,
    decreases s.len(),
{
    if s.len() > 0 {
        let t = s.drop_last();
        assert(sorted_by_key(t));
        lemma_stable_sort_sorted_id(t);
        assert(s =~= t.push(s.last()));
    }
}

/// Sorts by key, keeping the order of elements with equal keys.
pub fn sort_stable<T: SortKey + Copy>(v: &Vec<T>) -> (r: Vec<T>)
    ensures
        r@ == stable_sort(v@),
{
    let n = v.len();
    let mut out: Vec<T> = Vec::new();
    let mut i: usize = 0;
    assert(v@.take(0) =~= Seq::<T>::empty());
    while i < n
        invariant
            n == v@.len(),
            i <= n,
            out@ == stable_sort(v@.take(i as int)),
            sorted_by_key(out@),
        decreases n - i,
    {
        let x = v[i];
        let kx = x.key();
        let mut p = out.len();
        while p > 0 && out[p - 1].key() > kx
            invariant
                p <= out@.len(),
                kx == x.sort_key(),
                sorted_by_key(out@),
                forall|j: int| p <= j < out@.len() ==> #[trigger] out@[j].sort_key() > x.sort_key(),
            decreases p,
        {
            p = p - 1;
        }
        proof {
            lemma_insert_sorted_at(out@, x, p as int);
            lemma_insert_keeps_sorted(out@, x, p as int);
            assert(v@.take(i + 1).drop_last() =~= v@.take(i as int));
        }
        out.insert(p, x);
        i = i + 1;
    }
    assert(v@.take(n as int) =~= v@);
    out
}

/// Whether a value has the key `k`.
pub open spec fn has_key<T: SortKey>(k: int) -> spec_fn(T) -> bool {
    |x: T| x.sort_key() == k
}

/// The elements of `s` whose key is `k`, in their order.
pub open spec fn with_key<T: SortKey>(s: Seq<T>, k: int) -> Seq<T> {
    s.filter(has_key(k))
}

proof fn lemma_with_key_push<T: SortKey>(s: Seq<T>, x: T, k: int)
    ensures
        with_key(s.push(x), k) == with_key(s, k) + if x.sort_key() == k { seq![x] } else { Seq::<T>::empty() },
{
    reveal(Seq::filter);
    let pred = has_key::<T>(k);
    let u = s.push(x);
    assert(u.drop_last() =~= s);
    assert(u.last() == x);
    assert(with_key(u, k) == u.filter(pred));
    assert(with_key(s, k) == s.filter(pred));
    assert(u.filter(pred) == if pred(u.last()) { u.drop_last().filter(pred).push(u.last()) } else { u.drop_last().filter(pred) });
    if x.sort_key() == k {
        assert(with_key(s, k).push(x) =~= with_key(s, k) + seq![x]);
    } else {
        assert(with_key(s, k) =~= with_key(s, k) + Seq::<T>::empty());
    }
}

proof fn lemma_insert_sorted_with_key<T: SortKey>(s: Seq<T>, x: T, k: int)
    ensures
        with_key(insert_sorted(s, x), k) == with_key(s, k) + if x.sort_key() == k { seq![x] } else { Seq::<T>::empty() },
    decreases s.len(),
{
    if s.len() == 0 {
        lemma_with_key_push(s, x, k);
        assert(s.push(x) =~= seq![x]);
    } else if s.last().sort_key() <= x.sort_key() {
        lemma_with_key_push(s, x, k);
    } else {
        let t = s.drop_last();
        let y = s.last();
        lemma_insert_sorted_with_key(t, x, k);
        lemma_with_key_push(insert_sorted(t, x), y, k);
        lemma_with_key_push(t, y, k);
        assert(t.push(y) =~= s);
        // `y` and `x` cannot both have the key `k`: `y`'s key is greater
        let ex = if x.sort_key() == k { seq![x] } else { Seq::<T>::empty() };
        let ey = if y.sort_key() == k { seq![y] } else { Seq::<T>::empty() };
        assert(ex.len() == 0 || ey.len() == 0);
        assert(with_key(t, k) + ex + ey =~= with_key(t, k) + ey + ex);
    }
}

/// The sort is stable: for every key, the elements with that key come out in
/// the order they came in.
pub proof fn lemma_stable_sort_is_stable<T: SortKey>(s: Seq<T>, k: int)
    ensures
        with_key(stable_sort(s), k) == with_key(s, k),
    decreases s.len(),
{
    if s.len() > 0 {
        let t = s.drop_last();
        lemma_stable_sort_is_stable(t, k);
        lemma_insert_sorted_with_key(stable_sort(t), s.last(), k);
        lemma_with_key_push(t, s.last(), k);
        assert(t.push(s.last()) =~= s);
    }
}

} // verus!
