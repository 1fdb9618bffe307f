//! In-place sorting of vectors by a key of their elements.

use vstd::prelude::*;

verus! {

broadcast use vstd::seq_lib::group_to_multiset_ensures;

/// A total preorder on values by some key of theirs.
pub trait KeyOrder: Sized {
    /// `a`'s key is at most `b`'s.
    spec fn key_le(a: Self, b: Self) -> bool;

    fn key_le_exec(&self, other: &Self) -> (r: bool)
        ensures
            r == Self::key_le(*self, *other),
    ;

    proof fn lemma_key_total(a: Self, b: Self)
        ensures
            Self::key_le(a, b) || Self::key_le(b, a),
    ;

    proof fn lemma_key_transitive(a: Self, b: Self, c: Self)
        requires
            Self::key_le(a, b),
            Self::key_le(b, c),
        ensures
            Self::key_le(a, c),
    ;
}

/// Keys never decrease along `s`.
pub open spec fn sorted_by_key<T: KeyOrder>(s: Seq<T>) -> bool {
    forall|i: int, j: int| 0 <= i < j < s.len() ==> T::key_le(#[trigger] s[i], #[trigger] s[j])
}

/// The first position from `i` on whose element's key exceeds `x`'s: where
/// a stable insertion puts `x`.
pub open spec fn key_upper_bound<T: KeyOrder>(s: Seq<T>, x: T, i: int) -> int
    decreases s.len() - i,
{
    if i < 0 || i >= s.len() {
        s.len() as int
    } else if !T::key_le(s[i], x) {
        i
    } else {
        key_upper_bound(s, x, i + 1)
    }
}

/// `s` sorted by key, elements of equal keys kept in their order in `s`:
/// each element in turn inserted after every element whose key is at most
/// its own.
pub open spec fn stable_sort_by_key<T: KeyOrder>(s: Seq<T>) -> Seq<T>
    decreases s.len(),
{
    if s.len() == 0 {
        s
    } else {
        let t = stable_sort_by_key(s.drop_last());
        t.insert(key_upper_bound(t, s.last(), 0), s.last())
    }
}

/// The first position from `i` whose key exceeds `x`'s is `j`, where all
/// keys from `i` up to `j` are at most `x`'s and the key at `j` is not.
proof fn lemma_key_upper_bound_at<T: KeyOrder>(s: Seq<T>, x: T, i: int, j: int)
    requires
        0 <= i <= j <= s.len(),
        forall|k: int| i <= k < j ==> T::key_le(#[trigger] s[k], x),
        j < s.len() ==> !T::key_le(s[j], x),
    ensures
        key_upper_bound(s, x, i) == j,
    decreases j - i,
{
    if i < j {
        lemma_key_upper_bound_at(s, x, i + 1, j);
    }
}

proof fn lemma_key_upper_bound_props<T: KeyOrder>(s: Seq<T>, x: T, i: int)
    requires
        0 <= i <= s.len(),
    ensures
        i <= key_upper_bound(s, x, i) <= s.len(),
        forall|k: int| i <= k < key_upper_bound(s, x, i) ==> T::key_le(#[trigger] s[k], x),
        key_upper_bound(s, x, i) < s.len() ==> !T::key_le(s[key_upper_bound(s, x, i)], x),
    decreases s.len() - i,
{
    if i < s.len() && T::key_le(s[i], x) {
        lemma_key_upper_bound_props(s, x, i + 1);
    }
}

/// A stable sort by key leaves the elements in order of key, and holds each
/// element as often as before.
pub proof fn law_stable_sort_by_key<T: KeyOrder>(s: Seq<T>)
    ensures
        sorted_by_key(stable_sort_by_key(s)),
        stable_sort_by_key(s).to_multiset() == s.to_multiset(),
    decreases s.len(),
{
    if s.len() == 0 {
        assert(stable_sort_by_key(s) =~= s);
    } else {
        law_stable_sort_by_key(s.drop_last());
        let t = stable_sort_by_key(s.drop_last());
        let x = s.last();
        lemma_key_upper_bound_props(t, x, 0);
        let u = key_upper_bound(t, x, 0);
        let r = t.insert(u, x);
        assert forall|i: int, j: int| 0 <= i < j < r.len() implies T::key_le(
            #[trigger] r[i],
            #[trigger] r[j],
        ) by {
            if j < u {
                assert(r[i] == t[i] && r[j] == t[j]);
            } else if j == u {
                assert(r[i] == t[i]);
            } else if i < u {
                assert(r[i] == t[i] && r[j] == t[j - 1]);
            } else if i == u {
                assert(r[j] == t[j - 1]);
                T::lemma_key_total(t[u], x);
                if j - 1 > u {
                    T::lemma_key_transitive(x, t[u], t[j - 1]);
                }
            } else {
                assert(r[i] == t[i - 1] && r[j] == t[j - 1]);
            }
        }
        vstd::seq_lib::to_multiset_insert(t, u, x);
        assert(s =~= s.drop_last().push(x));
        vstd::seq_lib::to_multiset_build(s.drop_last(), x);
    }
}

/// Sorts `v` by key, keeping elements of equal keys in their order
/// (insertion sort).
pub fn sort_by_key<T: KeyOrder>(v: &mut Vec<T>)
    ensures
        final(v)@ == stable_sort_by_key(old(v)@),
        final(v)@.to_multiset() == old(v)@.to_multiset(),
        sorted_by_key(final(v)@),
{

    let n = v.len();
    if n <= 1 {
        proof {
            if n == 1 {
                let o = old(v)@;
                assert(o.drop_last() =~= Seq::<T>::empty());
                assert(key_upper_bound(stable_sort_by_key(o.drop_last()), o.last(), 0) == 0);
                assert(stable_sort_by_key(o) =~= o);
            }
        }
        return;
    }
    proof {
        let t1 = old(v)@.take(1);
        assert(t1.drop_last() =~= Seq::<T>::empty());
        let e = stable_sort_by_key(t1.drop_last());
        assert(e.len() == 0);
        assert(key_upper_bound(e, t1.last(), 0) == 0);
        assert(stable_sort_by_key(t1) =~= seq![old(v)@[0]]);
        assert(v@.take(1) =~= t1);
        assert(v@.skip(1) =~= old(v)@.skip(1));
    }
    let mut i: usize = 1;
    while i < n
        invariant
            v.len() == n,
            1 <= i <= n,
            v@.to_multiset() == old(v)@.to_multiset(),
            sorted_by_key(v@.take(i as int)),
            v@.take(i as int) == stable_sort_by_key(old(v)@.take(i as int)),
            v@.skip(i as int) == old(v)@.skip(i as int),
            old(v)@.len() == n,
        decreases n - i,
    {
        let ghost before = v@;
        proof {
            assert(before[i as int] == before.skip(i as int)[0]);
            assert(old(v)@[i as int] == old(v)@.skip(i as int)[0]);
        }
        let x = v.remove(i);
        proof {
            vstd::seq_lib::to_multiset_remove(before, i as int);
            assert(v@.take(i as int) =~= before.take(i as int));
        }
        let mut j: usize = i;
        while j > 0 && !v[j - 1].key_le_exec(&x)
            invariant
                v.len() == n - 1,
                0 <= j <= i,
                i < n,
                sorted_by_key(v@.take(i as int)),
                forall|k: int| j <= k < i ==> T::key_le(x, #[trigger] v@[k]) && !T::key_le(v@[k], x),
            decreases j,
        {
            proof {
                T::lemma_key_total(v@[j - 1], x);
            }
            j = j - 1;
        }
        let ghost removed = v@;
        proof {
            let pre = removed.take(i as int);
            assert forall|k: int| 0 <= k < j implies T::key_le(#[trigger] pre[k], x) by {
                assert(j > 0);
                T::lemma_key_total(removed[j - 1], x);
                assert(pre[j - 1] == removed[j - 1]);
                if k < j - 1 {
                    assert(pre[k] == removed[k]);
                    assert(removed.take(i as int)[k] == removed[k]);
                    T::lemma_key_transitive(removed[k], removed[j - 1], x);
                }
            }
            if j < i {
                assert(pre[j as int] == removed[j as int]);
            }
            lemma_key_upper_bound_at(pre, x, 0, j as int);
            let ot = old(v)@.take(i + 1);
            assert(ot.drop_last() =~= old(v)@.take(i as int));
            assert(ot.last() == x);
        }
        v.insert(j, x);
        proof {
            let pre = removed.take(i as int);
            assert(v@.take(i + 1) =~= pre.insert(j as int, x));
            assert(v@.skip(i + 1) =~= before.skip(i + 1));
            assert(before.skip(i + 1) =~= old(v)@.skip(i + 1)) by {
                assert(before.skip(i as int).skip(1) =~= before.skip(i + 1));
                assert(old(v)@.skip(i as int).skip(1) =~= old(v)@.skip(i + 1));
            }
            vstd::seq_lib::to_multiset_insert(removed, j as int, x);
            let s = v@.take((i + 1) as int);
            assert forall|a: int, b: int| 0 <= a < b < s.len() implies T::key_le(
                #[trigger] s[a],
                #[trigger] s[b],
            ) by {
                if b < j {
                    assert(s[a] == removed[a] && s[b] == removed[b]);
                    assert(removed.take(i as int)[a] == removed[a]);
                    assert(removed.take(i as int)[b] == removed[b]);
                } else if b == j {
                    // s[b] is x; everything before it is at most x
                    assert(s[a] == removed[a]);
                    assert(j > 0 && removed[j - 1] == removed.take(i as int)[j - 1]);
                    if a < j - 1 {
                        assert(removed.take(i as int)[a] == removed[a]);
                        T::lemma_key_transitive(removed[a], removed[j - 1], x);
                    }
                } else if a == j {
                    assert(s[b] == removed[b - 1]);
                } else if a < j {
                    assert(s[a] == removed[a] && s[b] == removed[b - 1]);
                    assert(removed.take(i as int)[a] == removed[a]);
                    assert(removed.take(i as int)[b - 1] == removed[b - 1]);
                } else {
                    assert(s[a] == removed[a - 1] && s[b] == removed[b - 1]);
                    assert(removed.take(i as int)[a - 1] == removed[a - 1]);
                    assert(removed.take(i as int)[b - 1] == removed[b - 1]);
                }
            }
        }
        i = i + 1;
    }
    assert(v@.take(n as int) =~= v@);
    assert(old(v)@.take(n as int) =~= old(v)@);
}

/// Rearranging a sequence rearranges its image under `f` alike.
pub proof fn lemma_to_multiset_map<A, B>(s1: Seq<A>, s2: Seq<A>, f: spec_fn(A) -> B)
    requires
        s1.to_multiset() == s2.to_multiset(),
    ensures
        s1.map_values(f).to_multiset() == s2.map_values(f).to_multiset(),
    decreases s1.len(),
{
    if s1.len() == 0 {
        assert(s2.to_multiset().len() == 0);
        assert(s1.map_values(f) =~= s2.map_values(f));
    } else {
        let x = s1.last();
        let t1 = s1.drop_last();
        assert(s1 =~= t1.push(x));
        assert(s1.contains(x)) by {
            assert(s1[s1.len() - 1] == x);
        }
        vstd::seq_lib::to_multiset_contains(s1, x);
        vstd::seq_lib::to_multiset_contains(s2, x);
        let i = s2.index_of(x);
        let t2 = s2.remove(i);
        vstd::seq_lib::to_multiset_remove(s2, i);
        assert(t1.to_multiset() =~= t2.to_multiset());
        lemma_to_multiset_map(t1, t2, f);
        let m1 = s1.map_values(f);
        let m2 = s2.map_values(f);
        assert(m1 =~= t1.map_values(f).push(f(x)));
        assert(m2.remove(i) =~= t2.map_values(f));
        vstd::seq_lib::to_multiset_remove(m2, i);
        assert(m2.contains(f(x))) by {
            assert(m2[i] == f(x));
        }
        assert(m1.to_multiset() =~= m2.to_multiset());
    }
}

} // verus!
