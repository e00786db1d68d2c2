//! A verified selection sort, generic over a total ordering that each
//! sortable record type supplies. Every report of the engine is sorted with
//! it; `le_spec(a, b)` reads "a may come after b", so the output is
//! descending with respect to the supplied relation.

use vstd::multiset::Multiset;
use vstd::prelude::*;

verus! {

/// A total, transitive "may come after" relation on a record type, with an
/// executable decision procedure.
pub trait SortOrder: Sized {
    /// `a` may stand at a later position than `b`.
    spec fn le_spec(a: &Self, b: &Self) -> bool;

    /// Decides the relation.
    fn le(a: &Self, b: &Self) -> (r: bool)
        ensures
            r == Self::le_spec(a, b),
    ;

    /// The relation is total.
    proof fn le_total(a: &Self, b: &Self)
        ensures
            Self::le_spec(a, b) || Self::le_spec(b, a),
    ;

    /// The relation is transitive.
    proof fn le_trans(a: &Self, b: &Self, c: &Self)
        requires
            Self::le_spec(a, b),
            Self::le_spec(b, c),
        ensures
            Self::le_spec(a, c),
    ;
}

/// The sequence is sorted: every later element may come after every earlier
/// one.
pub open spec fn sorted_desc<T: SortOrder>(s: Seq<T>) -> bool {
    forall|i: int, j: int| 0 <= i <= j < s.len() ==> T::le_spec(#[trigger] &s[j], #[trigger] &s[i])
}

/// Sorts the records: the result holds the same records (as a multiset) in
/// sorted order.
pub fn sort_records<T: SortOrder>(v: Vec<T>) -> (r: Vec<T>)
    ensures
        r@.to_multiset() == v@.to_multiset(),
        sorted_desc(r@),
        r@.len() == v@.len(),
{
    broadcast use vstd::seq_lib::group_to_multiset_ensures;

    let ghost orig = v@.to_multiset();
    let mut src = v;
    let mut out: Vec<T> = Vec::new();
    proof {
        assert(out@.to_multiset().add(src@.to_multiset()) =~= orig);
    }
    while src.len() > 0
        invariant
            out@.to_multiset().add(src@.to_multiset()) == orig,
            out@.len() + src@.len() == orig.len(),
            sorted_desc(out@),
            forall|i: int, k: int|
                0 <= i < out@.len() && 0 <= k < src@.len() ==> T::le_spec(
                    #[trigger] &src@[k],
                    #[trigger] &out@[i],
                ),
        decreases src@.len(),
    {
        let n = src.len();
        let mut best: usize = 0;
        proof {
            T::le_total(&src@[0], &src@[0]);
        }
        let mut k: usize = 1;
        while k < n
            invariant
                n == src@.len(),
                0 <= best < n,
                best < k <= n || (best == 0 && k <= n),
                forall|m: int| 0 <= m < k ==> T::le_spec(#[trigger] &src@[m], &src@[best as int]),
            decreases n - k,
        {
            if T::le(&src[best], &src[k]) {
                proof {
                    assert forall|m: int| 0 <= m < k + 1 implies T::le_spec(
                        #[trigger] &src@[m],
                        &src@[k as int],
                    ) by {
                        if m < k {
                            T::le_trans(&src@[m], &src@[best as int], &src@[k as int]);
                        } else {
                            T::le_total(&src@[k as int], &src@[k as int]);
                        }
                    }
                }
                best = k;
            } else {
                proof {
                    T::le_total(&src@[best as int], &src@[k as int]);
                }
            }
            k += 1;
        }
        let ghost src_before = src@;
        let ghost out_before = out@;
        let x = src.remove(best);
        out.push(x);
        proof {
            assert(src@ == src_before.remove(best as int));
            assert(out@ == out_before.push(src_before[best as int]));
            src_before.remove_ensures(best as int);
            src_before.to_multiset_ensures();
            out_before.to_multiset_ensures();
            let xv = src_before[best as int];
            assert(out@ == out_before.push(xv));
            assert(out_before.push(xv).to_multiset() =~= out_before.to_multiset().insert(xv));
            assert(src_before.contains(xv));
            assert(src_before.to_multiset().count(xv) > 0);
            assert(out@.to_multiset() =~= out_before.to_multiset().insert(xv));
            assert(src@.to_multiset() =~= src_before.to_multiset().remove(xv));
            assert(out@.to_multiset().add(src@.to_multiset()) =~= out_before.to_multiset().add(
                src_before.to_multiset(),
            ));
            assert forall|i: int, j: int| 0 <= i <= j < out@.len() implies T::le_spec(
                #[trigger] &out@[j],
                #[trigger] &out@[i],
            ) by {
                if j < out_before.len() {
                    assert(T::le_spec(&out_before[j], &out_before[i]));
                } else if i < out_before.len() {
                    assert(T::le_spec(&src_before[best as int], &out_before[i]));
                } else {
                    T::le_total(&out@[j], &out@[j]);
                }
            }
            assert forall|i: int, k2: int|
                0 <= i < out@.len() && 0 <= k2 < src@.len() implies T::le_spec(
                #[trigger] &src@[k2],
                #[trigger] &out@[i],
            ) by {
                let prior: int = if k2 < best {
                    k2
                } else {
                    k2 + 1
                };
                assert(src@[k2] == src_before[prior]);
                if i < out_before.len() {
                    assert(T::le_spec(&src_before[prior], &out_before[i]));
                } else {
                    assert(T::le_spec(&src_before[prior], &src_before[best as int]));
                }
            }
        }
    }
    proof {
        assert(src@.to_multiset() =~= Multiset::<T>::empty());
        assert(out@.to_multiset().add(Multiset::<T>::empty()) =~= out@.to_multiset());
        assert(orig.len() == v@.len()) by {
            assert(v@.to_multiset().len() == v@.len());
        }
    }
    out
}

/// A value standing at two different positions occurs at least twice in the
/// multiset of the sequence's elements.
pub proof fn lemma_count_of_two_indices<T>(s: Seq<T>, i: int, j: int)
    requires
        0 <= i < j < s.len(),
        s[i] == s[j],
    ensures
        s.to_multiset().count(s[i]) >= 2,
{
    broadcast use vstd::seq_lib::group_to_multiset_ensures;

    let t = s.remove(j);
    assert(t[i] == s[i]);
    assert(t.contains(s[i]));
    assert(t.to_multiset() =~= s.to_multiset().remove(s[j]));
    assert(t.to_multiset().count(s[i]) > 0);
}

/// Two sequences with the same multiset of elements contain each other's
/// elements, and one being duplicate-free carries over to the other.
pub proof fn lemma_multiset_perm_facts<T>(pre: Seq<T>, post: Seq<T>)
    requires
        pre.to_multiset() == post.to_multiset(),
    ensures
        forall|i: int| 0 <= i < post.len() ==> pre.contains(#[trigger] post[i]),
        forall|i: int| 0 <= i < pre.len() ==> post.contains(#[trigger] pre[i]),
        pre.no_duplicates() ==> post.no_duplicates(),
{
    broadcast use vstd::seq_lib::group_to_multiset_ensures;

    assert forall|i: int| 0 <= i < post.len() implies pre.contains(#[trigger] post[i]) by {
        assert(post.to_multiset().count(post[i]) > 0);
        assert(pre.to_multiset().count(post[i]) > 0);
    }
    assert forall|i: int| 0 <= i < pre.len() implies post.contains(#[trigger] pre[i]) by {
        assert(pre.to_multiset().count(pre[i]) > 0);
        assert(post.to_multiset().count(pre[i]) > 0);
    }
    if pre.no_duplicates() {
        pre.lemma_multiset_has_no_duplicates();
        assert forall|i: int, j: int|
            0 <= i < post.len() && 0 <= j < post.len() && i != j implies post[i] != post[j] by {
            if post[i] == post[j] {
                if i < j {
                    lemma_count_of_two_indices(post, i, j);
                } else {
                    lemma_count_of_two_indices(post, j, i);
                }
                assert(pre.to_multiset().count(post[i]) >= 2);
                assert(pre.contains(post[i]));
            }
        }
    }
}

/// Pairwise distinctness of a key carries from a sequence to any
/// rearrangement of it.
pub proof fn lemma_key_distinct_transfer<T, K>(pre: Seq<T>, post: Seq<T>, key: spec_fn(T) -> K)
    requires
        pre.to_multiset() == post.to_multiset(),
        forall|i: int, j: int|
            0 <= i < pre.len() && 0 <= j < pre.len() && i != j ==> key(#[trigger] pre[i]) != key(
                #[trigger] pre[j],
            ),
    ensures
        forall|i: int, j: int|
            0 <= i < post.len() && 0 <= j < post.len() && i != j ==> key(#[trigger] post[i]) != key(
                #[trigger] post[j],
            ),
{
    broadcast use vstd::seq_lib::group_to_multiset_ensures;

    lemma_multiset_perm_facts(pre, post);
    assert forall|i: int, j: int|
        0 <= i < post.len() && 0 <= j < post.len() && i != j implies key(#[trigger] post[i]) != key(
        #[trigger] post[j],
    ) by {
        if key(post[i]) == key(post[j]) {
            if post[i] == post[j] {
                let lo: int = if i < j {
                    i
                } else {
                    j
                };
                let hi: int = if i < j {
                    j
                } else {
                    i
                };
                lemma_count_of_two_indices(post, lo, hi);
                assert(pre.to_multiset().count(post[i]) >= 2);
                let k1 = choose|k1: int| 0 <= k1 < pre.len() && pre[k1] == post[i];
                let t = pre.remove(k1);
                assert(t.to_multiset() =~= pre.to_multiset().remove(pre[k1]));
                assert(t.to_multiset().count(post[i]) >= 1);
                assert(t.contains(post[i]));
                let k2 = choose|k2: int| 0 <= k2 < t.len() && t[k2] == post[i];
                pre.remove_ensures(k1);
                let k2o: int = if k2 < k1 {
                    k2
                } else {
                    k2 + 1
                };
                assert(pre[k2o] == post[i]);
                assert(key(pre[k1]) == key(pre[k2o]));
            } else {
                assert(pre.contains(post[i]));
                assert(pre.contains(post[j]));
                let k1 = choose|k1: int| 0 <= k1 < pre.len() && pre[k1] == post[i];
                let k2 = choose|k2: int| 0 <= k2 < pre.len() && pre[k2] == post[j];
                assert(k1 != k2);
                assert(key(pre[k1]) == key(pre[k2]));
            }
        }
    }
}

/// Keeps at most the first `count` records when a limit is given, as the
/// optional row limit of a report does.
pub fn add_optional_limit<T>(v: Vec<T>, count: Option<usize>) -> (r: Vec<T>)
    ensures
        match count {
            Some(c) => r@ == v@.take(if c <= v@.len() {
                c as int
            } else {
                v@.len() as int
            }),
            None => r@ == v@,
        },
{
    match count {
        Some(c) => {
            let mut v2 = v;
            if c <= v2.len() {
                v2.truncate(c);
                proof {
                    assert(v2@ =~= v2@.take(v2@.len() as int));
                }
            } else {
                proof {
                    assert(v2@ =~= v2@.take(v2@.len() as int));
                }
            }
            v2
        },
        None => v,
    }
}

} // verus!
