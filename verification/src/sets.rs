//! Small vector-backed sets of strings and of string pairs, with their
//! contents specified as the mathematical set of the vector's elements. The
//! vectors are kept duplicate-free, so their length is the set's size.

use vstd::prelude::*;

verus! {

/// Pushing an element inserts it into the sequence's set of values; pushing
/// an element not yet present keeps the sequence duplicate-free.
pub proof fn lemma_push_to_set<T>(s: Seq<T>, x: T)
    ensures
        s.push(x).to_set() =~= s.to_set().insert(x),
        s.no_duplicates() && !s.contains(x) ==> s.push(x).no_duplicates(),
{
    assert forall|y: T| s.push(x).to_set().contains(y) implies s.to_set().insert(x).contains(
        y,
    ) by {
        let i = choose|i: int| 0 <= i < s.push(x).len() && s.push(x)[i] == y;
        if i < s.len() {
            assert(s[i] == y);
        }
    }
    assert forall|y: T| s.to_set().insert(x).contains(y) implies s.push(x).to_set().contains(
        y,
    ) by {
        if y == x {
            assert(s.push(x)[s.len() as int] == y);
        } else {
            let i = choose|i: int| 0 <= i < s.len() && s[i] == y;
            assert(s.push(x)[i] == y);
        }
        assert(s.push(x).contains(y));
    }
    if s.no_duplicates() && !s.contains(x) {
        assert forall|i: int, j: int|
            0 <= i < s.push(x).len() && 0 <= j < s.push(x).len() && i != j implies s.push(x)[i]
            != s.push(x)[j] by {
            if i < s.len() && j < s.len() {
            } else if j == s.len() {
                assert(s.push(x)[i] == s[i]);
                assert(s.contains(s[i]));
            } else {
                assert(s.push(x)[j] == s[j]);
                assert(s.contains(s[j]));
            }
        }
    }
}

/// Swap-removing the element at `i` removes it from the set of values of a
/// duplicate-free sequence, and keeps the sequence duplicate-free.
pub proof fn lemma_swap_remove_to_set<T>(s: Seq<T>, i: int)
    requires
        0 <= i < s.len(),
        s.no_duplicates(),
    ensures
        s.update(i, s.last()).drop_last().to_set() =~= s.to_set().remove(s[i]),
        s.update(i, s.last()).drop_last().no_duplicates(),
{
    let t = s.update(i, s.last()).drop_last();
    assert forall|y: T| t.to_set().contains(y) implies s.to_set().remove(s[i]).contains(y) by {
        let k = choose|k: int| 0 <= k < t.len() && t[k] == y;
        if k == i {
            assert(s[s.len() - 1] == y);
            assert(s.contains(y));
            assert(i < s.len() - 1);
        } else {
            assert(s[k] == y);
            assert(s.contains(y));
        }
    }
    assert forall|y: T| s.to_set().remove(s[i]).contains(y) implies t.to_set().contains(y) by {
        let k = choose|k: int| 0 <= k < s.len() && s[k] == y;
        if k == s.len() - 1 {
            assert(k != i);
            assert(t[i] == y);
            assert(t.contains(y));
        } else if k == i {
        } else {
            assert(t[k] == y);
            assert(t.contains(y));
        }
    }
    assert forall|a: int, b: int| 0 <= a < t.len() && 0 <= b < t.len() && a != b implies t[a]
        != t[b] by {
        let sa: int = if a == i {
            s.len() - 1
        } else {
            a
        };
        let sb: int = if b == i {
            s.len() - 1
        } else {
            b
        };
        assert(t[a] == s[sa]);
        assert(t[b] == s[sb]);
    }
}

/// Whether the vector holds this string.
pub fn strs_contains(v: &Vec<String>, s: &String) -> (r: bool)
    ensures
        r == v.deep_view().contains(s@),
{
    let n = v.len();
    let mut i: usize = 0;
    while i < n
        invariant
            n == v@.len(),
            0 <= i <= n,
            forall|j: int| 0 <= j < i ==> v.deep_view()[j] != s@,
        decreases n - i,
    {
        assert(v.deep_view()[i as int] == v@[i as int]@);
        if v[i] == *s {
            assert(v.deep_view()[i as int] == s@);
            return true;
        }
        i += 1;
    }
    assert(forall|j: int| 0 <= j < v.deep_view().len() ==> v.deep_view()[j] != s@);
    false
}

/// Inserts a string into a duplicate-free vector unless it is already there.
pub fn strs_insert(v: &mut Vec<String>, s: String)
    requires
        old(v).deep_view().no_duplicates(),
    ensures
        final(v).deep_view().no_duplicates(),
        final(v).deep_view().to_set() == old(v).deep_view().to_set().insert(s@),
{
    let present = strs_contains(v, &s);
    if !present {
        let ghost prev = v.deep_view();
        v.push(s);
        proof {
            assert(v.deep_view() =~= prev.push(v@.last()@));
            lemma_push_to_set(prev, v@.last()@);
        }
    } else {
        proof {
            assert(v.deep_view().to_set() =~= v.deep_view().to_set().insert(s@));
        }
    }
}

/// Removes a string from a duplicate-free vector if it is there; reports
/// whether it was.
pub fn strs_remove(v: &mut Vec<String>, s: &String) -> (r: bool)
    requires
        old(v).deep_view().no_duplicates(),
    ensures
        r == old(v).deep_view().to_set().contains(s@),
        final(v).deep_view().no_duplicates(),
        final(v).deep_view().to_set() == old(v).deep_view().to_set().remove(s@),
{
    let n = v.len();
    let mut i: usize = 0;
    while i < n
        invariant
            n == v@.len(),
            0 <= i <= n,
            v@ == old(v)@,
            v.deep_view() == old(v).deep_view(),
            v.deep_view().no_duplicates(),
            forall|j: int| 0 <= j < i ==> v.deep_view()[j] != s@,
        decreases n - i,
    {
        assert(v.deep_view()[i as int] == v@[i as int]@);
        if v[i] == *s {
            let ghost prev = v.deep_view();
            let _ = v.swap_remove(i);
            proof {
                assert(v.deep_view() =~= prev.update(i as int, prev.last()).drop_last());
                lemma_swap_remove_to_set(prev, i as int);
                assert(prev[i as int] == s@);
            }
            return true;
        }
        i += 1;
    }
    proof {
        assert(forall|j: int| 0 <= j < v.deep_view().len() ==> v.deep_view()[j] != s@);
        assert(v.deep_view().to_set() =~= v.deep_view().to_set().remove(s@));
    }
    false
}

/// Whether the vector holds this pair of strings.
pub fn pairs_contains(v: &Vec<(String, String)>, a: &String, b: &String) -> (r: bool)
    ensures
        r == v.deep_view().contains((a@, b@)),
{
    let n = v.len();
    let mut i: usize = 0;
    while i < n
        invariant
            n == v@.len(),
            0 <= i <= n,
            forall|j: int| 0 <= j < i ==> v.deep_view()[j] != (a@, b@),
        decreases n - i,
    {
        assert(v.deep_view()[i as int] == (v@[i as int].0@, v@[i as int].1@));
        if v[i].0 == *a && v[i].1 == *b {
            assert(v.deep_view()[i as int] == (a@, b@));
            return true;
        }
        i += 1;
    }
    assert(forall|j: int| 0 <= j < v.deep_view().len() ==> v.deep_view()[j] != (a@, b@));
    false
}

/// Inserts a pair of strings into a duplicate-free vector unless it is
/// already there.
pub fn pairs_insert(v: &mut Vec<(String, String)>, a: String, b: String)
    requires
        old(v).deep_view().no_duplicates(),
    ensures
        final(v).deep_view().no_duplicates(),
        final(v).deep_view().to_set() == old(v).deep_view().to_set().insert((a@, b@)),
{
    let present = pairs_contains(v, &a, &b);
    if !present {
        let ghost prev = v.deep_view();
        v.push((a, b));
        proof {
            assert(v.deep_view() =~= prev.push((v@.last().0@, v@.last().1@)));
            lemma_push_to_set(prev, (v@.last().0@, v@.last().1@));
        }
    } else {
        proof {
            assert(v.deep_view().to_set() =~= v.deep_view().to_set().insert((a@, b@)));
        }
    }
}

} // verus!
