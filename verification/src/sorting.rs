//! Stable sorting by an integer key, as the renderer uses it for pixel rows.
use vstd::prelude::*;

verus! {

/// Values that are ordered by one integer key.
pub trait SortKey {
    spec fn sort_key(&self) -> int;

    fn key_of(&self) -> (k: i64)
        ensures
            k as int == self.sort_key(),
    ;
}

/// Inserts `e` into `s` after every element whose key is not greater than the key of `e`
/// (searching from the back), which is how a stable sort places a new element.
pub open spec fn insert_by_key<T: SortKey>(s: Seq<T>, e: T) -> Seq<T>
    decreases s.len(),
{
    if s.len() == 0 {
        seq![e]
    } else if e.sort_key() < s.last().sort_key() {
        insert_by_key(s.drop_last(), e).push(s.last())
    } else {
        s.push(e)
    }
}

/// The stable sort of `s` by key: the elements of `s` inserted one after another.
pub open spec fn stable_sort<T: SortKey>(s: Seq<T>) -> Seq<T>
    decreases s.len(),
{
    if s.len() == 0 {
        s
    } else {
        insert_by_key(stable_sort(s.drop_last()), s.last())
    }
}

/// Keys never decrease along `s`.
pub open spec fn sorted_by_key<T: SortKey>(s: Seq<T>) -> bool {
    forall|i: int, j: int| 0 <= i <= j < s.len() ==> s[i].sort_key() <= s[j].sort_key()
}

/// The elements of `s` whose key is `k`, in their order in `s`.
pub open spec fn with_key<T: SortKey>(s: Seq<T>, k: int) -> Seq<T> {
    s.filter(key_is::<T>(k))
}

/// Whether an element has key `k`.
pub open spec fn key_is<T: SortKey>(k: int) -> spec_fn(T) -> bool {
    |e: T| e.sort_key() == k
}


/// Every two elements at different positions of `s` are related by `rel`.
pub open spec fn pairwise<T>(s: Seq<T>, rel: spec_fn(T, T) -> bool) -> bool {
    forall|i: int, j: int| 0 <= i < s.len() && 0 <= j < s.len() && i != j ==> rel(s[i], s[j])
}

pub proof fn lemma_push_contains<T>(s: Seq<T>, e: T, x: T)
    ensures
        s.push(e).contains(x) <==> (s.contains(x) || x == e),
{
    if s.push(e).contains(x) {
        let k = choose|k: int| 0 <= k < s.push(e).len() && s.push(e)[k] == x;
        if k < s.len() {
            assert(s[k] == x);
        }
    }
    if s.contains(x) {
        let k = choose|k: int| 0 <= k < s.len() && s[k] == x;
        assert(s.push(e)[k] == x);
    }
    if x == e {
        assert(s.push(e)[s.len() as int] == x);
    }
}

pub proof fn lemma_drop_last_contains<T>(s: Seq<T>, x: T)
    requires
        s.len() > 0,
    ensures
        s.contains(x) <==> (s.drop_last().contains(x) || x == s.last()),
{
    assert(s.drop_last().push(s.last()) =~= s);
    lemma_push_contains(s.drop_last(), s.last(), x);
}

/// Inserting adds exactly the one element.
pub proof fn lemma_insert_contains<T: SortKey>(t: Seq<T>, e: T)
    ensures
        insert_by_key(t, e).len() == t.len() + 1,
        forall|x: T| #[trigger] insert_by_key(t, e).contains(x) <==> (t.contains(x) || x == e),
    decreases t.len(),
{
    if t.len() == 0 {
        assert forall|x: T| #[trigger] insert_by_key(t, e).contains(x) <==> (t.contains(x) || x == e) by {
            lemma_push_contains(t, e, x);
            assert(t.push(e) =~= seq![e]);
        }
    } else if e.sort_key() < t.last().sort_key() {
        lemma_insert_contains(t.drop_last(), e);
        assert forall|x: T| #[trigger] insert_by_key(t, e).contains(x) <==> (t.contains(x) || x == e) by {
            lemma_push_contains(insert_by_key(t.drop_last(), e), t.last(), x);
            lemma_drop_last_contains(t, x);
        }
    } else {
        assert forall|x: T| #[trigger] insert_by_key(t, e).contains(x) <==> (t.contains(x) || x == e) by {
            lemma_push_contains(t, e, x);
        }
    }
}

/// Sorting keeps exactly the elements of `s`.
pub proof fn lemma_sort_contains<T: SortKey>(s: Seq<T>)
    ensures
        stable_sort(s).len() == s.len(),
        forall|x: T| #[trigger] stable_sort(s).contains(x) <==> s.contains(x),
    decreases s.len(),
{
    if s.len() > 0 {
        lemma_sort_contains(s.drop_last());
        lemma_insert_contains(stable_sort(s.drop_last()), s.last());
        assert forall|x: T| #[trigger] stable_sort(s).contains(x) <==> s.contains(x) by {
            lemma_drop_last_contains(s, x);
        }
    }
}

proof fn lemma_insert_sorted<T: SortKey>(t: Seq<T>, e: T)
    requires
        sorted_by_key(t),
    ensures
        sorted_by_key(insert_by_key(t, e)),
    decreases t.len(),
{
    if t.len() > 0 {
        if e.sort_key() < t.last().sort_key() {
            let a = insert_by_key(t.drop_last(), e);
            lemma_insert_sorted(t.drop_last(), e);
            lemma_insert_contains(t.drop_last(), e);
            assert forall|i: int| 0 <= i < a.len() implies a[i].sort_key() <= t.last().sort_key() by {
                assert(a.contains(a[i]));
                if a[i] != e {
                    let k = choose|k: int| 0 <= k < t.drop_last().len() && t.drop_last()[k] == a[i];
                    assert(t[k] == a[i]);
                }
            }
        }
    }
}

/// The sorted sequence has non-decreasing keys.
pub proof fn lemma_sort_sorted<T: SortKey>(s: Seq<T>)
    ensures
        sorted_by_key(stable_sort(s)),
    decreases s.len(),
{
    if s.len() > 0 {
        lemma_sort_sorted(s.drop_last());
        lemma_insert_sorted(stable_sort(s.drop_last()), s.last());
    }
}

proof fn lemma_push_pairwise<T>(a: Seq<T>, y: T, rel: spec_fn(T, T) -> bool)
    requires
        pairwise(a, rel),
        forall|x: T| a.contains(x) ==> rel(x, y) && rel(y, x),
    ensures
        pairwise(a.push(y), rel),
{
    let b = a.push(y);
    assert forall|i: int, j: int| 0 <= i < b.len() && 0 <= j < b.len() && i != j implies rel(b[i], b[j]) by {
        if i < a.len() && j < a.len() {
            assert(b[i] == a[i] && b[j] == a[j]);
        } else if i < a.len() {
            assert(a.contains(a[i]));
            assert(b[i] == a[i]);
        } else {
            assert(a.contains(a[j]));
            assert(b[j] == a[j]);
        }
    }
}

proof fn lemma_insert_pairwise<T: SortKey>(t: Seq<T>, e: T, rel: spec_fn(T, T) -> bool)
    requires
        pairwise(t, rel),
        forall|x: T| t.contains(x) ==> rel(x, e) && rel(e, x),
    ensures
        pairwise(insert_by_key(t, e), rel),
    decreases t.len(),
{
    if t.len() == 0 {
        assert(insert_by_key(t, e) =~= seq![e]);
    } else if e.sort_key() < t.last().sort_key() {
        let t1 = t.drop_last();
        let y = t.last();
        assert(pairwise(t1, rel)) by {
            assert forall|i: int, j: int| 0 <= i < t1.len() && 0 <= j < t1.len() && i != j implies rel(t1[i], t1[j]) by {
                assert(t1[i] == t[i] && t1[j] == t[j]);
            }
        }
        assert forall|x: T| t1.contains(x) implies rel(x, e) && rel(e, x) by {
            lemma_drop_last_contains(t, x);
        }
        lemma_insert_pairwise(t1, e, rel);
        lemma_insert_contains(t1, e);
        assert(t.contains(y)) by {
            assert(t[t.len() - 1] == y);
        }
        assert forall|x: T| insert_by_key(t1, e).contains(x) implies rel(x, y) && rel(y, x) by {
            if x != e {
                let k = choose|k: int| 0 <= k < t1.len() && t1[k] == x;
                assert(t[k] == x);
                assert(rel(t[k], t[t.len() - 1]));
                assert(rel(t[t.len() - 1], t[k]));
            }
        }
        lemma_push_pairwise(insert_by_key(t1, e), y, rel);
    } else {
        lemma_push_pairwise(t, e, rel);
    }
}

/// A relation that holds between every two elements at different positions still holds after
/// sorting.
pub proof fn lemma_sort_pairwise<T: SortKey>(s: Seq<T>, rel: spec_fn(T, T) -> bool)
    requires
        pairwise(s, rel),
    ensures
        pairwise(stable_sort(s), rel),
    decreases s.len(),
{
    if s.len() > 0 {
        let s1 = s.drop_last();
        assert(pairwise(s1, rel)) by {
            assert forall|i: int, j: int| 0 <= i < s1.len() && 0 <= j < s1.len() && i != j implies rel(s1[i], s1[j]) by {
                assert(s1[i] == s[i] && s1[j] == s[j]);
            }
        }
        lemma_sort_pairwise(s1, rel);
        lemma_sort_contains(s1);
        assert forall|x: T| stable_sort(s1).contains(x) implies rel(x, s.last()) && rel(s.last(), x) by {
            let k = choose|k: int| 0 <= k < s1.len() && s1[k] == x;
            assert(s[k] == x);
            assert(rel(s[k], s[s.len() - 1]));
            assert(rel(s[s.len() - 1], s[k]));
        }
        lemma_insert_pairwise(stable_sort(s1), s.last(), rel);
    }
}

proof fn lemma_insert_with_key<T: SortKey>(t: Seq<T>, e: T, k: int)
    ensures
        with_key(insert_by_key(t, e), k) == if e.sort_key() == k {
            with_key(t, k).push(e)
        } else {
            with_key(t, k)
        },
    decreases t.len(),
{
    let f = key_is::<T>(k);
    if t.len() == 0 {
        t.lemma_filter_push(e, f);
        assert(t.push(e) =~= seq![e]);
    } else if e.sort_key() < t.last().sort_key() {
        let t1 = t.drop_last();
        lemma_insert_with_key(t1, e, k);
        insert_by_key(t1, e).lemma_filter_push(t.last(), f);
        t1.lemma_filter_push(t.last(), f);
        assert(t1.push(t.last()) =~= t);
    } else {
        t.lemma_filter_push(e, f);
    }
}

/// The sort is stable: the elements with any one key keep their order.
pub proof fn lemma_sort_stable<T: SortKey>(s: Seq<T>, k: int)
    ensures
        with_key(stable_sort(s), k) == with_key(s, k),
    decreases s.len(),
{
    let f = key_is::<T>(k);
    if s.len() > 0 {
        lemma_sort_stable(s.drop_last(), k);
        lemma_insert_with_key(stable_sort(s.drop_last()), s.last(), k);
        s.drop_last().lemma_filter_push(s.last(), f);
        assert(s.drop_last().push(s.last()) =~= s);
    }
}

proof fn lemma_insert_shape<T: SortKey>(s: Seq<T>, e: T, j: int)
    requires
        0 <= j <= s.len(),
        forall|k: int| j <= k < s.len() ==> e.sort_key() < #[trigger] s[k].sort_key(),
        j == 0 || s[j - 1].sort_key() <= e.sort_key(),
    ensures
        insert_by_key(s, e) == s.take(j).push(e) + s.skip(j),
    decreases s.len(),
{
    if s.len() == 0 {
        assert(s.take(j).push(e) + s.skip(j) =~= seq![e]);
    } else if j == s.len() {
        assert(s.take(j) =~= s);
        assert(s.skip(j) =~= Seq::<T>::empty());
        assert(s.push(e) + Seq::<T>::empty() =~= s.push(e));
    } else {
        let t = s.drop_last();
        lemma_insert_shape(t, e, j);
        assert(t.take(j) =~= s.take(j));
        assert(t.skip(j).push(s.last()) =~= s.skip(j));
        assert((t.take(j).push(e) + t.skip(j)).push(s.last()) =~= s.take(j).push(e) + s.skip(j));
    }
}

/// Inserts `e` into the vector as `insert_by_key` describes.
fn insert_into<T: SortKey>(v: &mut Vec<T>, e: T)
    ensures
        final(v)@ == insert_by_key(old(v)@, e),
{
    let ek = e.key_of();
    let mut j = v.len();
    while j > 0 && ek < v[j - 1].key_of()
        invariant
            j <= v.len(),
            ek as int == e.sort_key(),
            forall|k: int| j <= k < v.len() ==> e.sort_key() < #[trigger] v@[k].sort_key(),
        decreases j,
    {
        j = j - 1;
    }
    proof {
        lemma_insert_shape(v@, e, j as int);
        assert(v@.take(j as int).push(e) + v@.skip(j as int) =~= v@.insert(j as int, e));
    }
    v.insert(j, e);
}

/// Sorts by key, keeping the order of elements with equal keys.
pub fn sort_by_key<T: SortKey>(v: Vec<T>) -> (r: Vec<T>)
    ensures
        r@ == stable_sort(v@),
{
    let ghost all = v@;
    let mut v = v;
    let mut rest: Vec<T> = Vec::new();
    // move the elements out back to front, so that they can be inserted front to back
    while v.len() > 0
        invariant
            v@ + rest@.reverse() == all,
        decreases v.len(),
    {
        let e = v.pop().unwrap();
        proof {
            assert(v@.push(e) + rest@.reverse() =~= v@ + rest@.push(e).reverse());
        }
        rest.push(e);
    }
    assert(rest@.reverse() =~= all);
    let mut r: Vec<T> = Vec::new();
    let ghost n = rest@.len();
    while rest.len() > 0
        invariant
            rest@.reverse() == all.skip(n - rest@.len()),
            rest@.len() <= n,
            n == all.len(),
            r@ == stable_sort(all.take(n - rest@.len())),
        decreases rest.len(),
    {
        let ghost done = n - rest@.len();
        let e = rest.pop().unwrap();
        proof {
            assert(all.skip(done)[0] == e) by {
                assert(rest@.push(e).reverse()[0] == e);
            }
            assert(rest@.reverse() =~= all.skip(done + 1)) by {
                assert(all.skip(done + 1) =~= all.skip(done).drop_first());
                assert(rest@.push(e).reverse().drop_first() =~= rest@.reverse());
            }
            assert(all.take(done + 1).drop_last() =~= all.take(done));
            assert(all.take(done + 1).last() == e);
        }
        insert_into(&mut r, e);
    }
    assert(all.take(n as int) =~= all);
    r
}

} // verus!
