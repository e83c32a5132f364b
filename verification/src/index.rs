//! Maintenance of secondary, multi-valued indices.
//!
//! A secondary index maps a handle to the unordered collection of records
//! (handle-triples) that depend on it. The two operations here keep such
//! an index consistent under insertion and removal, and report through
//! their boolean result whether a whole entry was created or destroyed —
//! the cascade signal a containing structure relies on.

use std::collections::HashMap;

use vstd::prelude::*;

verus! {

broadcast use vstd::std_specs::hash::group_hash_axioms;

/// A triple of handles `[s, p, o]`, standing for one subject–predicate–
/// object statement with every component replaced by its index.
#[derive(Clone, Copy, Debug, PartialEq, Eq, Hash, Structural)]
pub struct IndexTriple<I> {
    pub s: I,
    pub p: I,
    pub o: I,
}

/// Replacing one element of a sequence changes its multiset accordingly.
proof fn lemma_update_multiset<A>(s: Seq<A>, i: int, x: A)
    requires
        0 <= i < s.len(),
    ensures
        s.update(i, x).to_multiset() =~= s.to_multiset().remove(s[i]).insert(x),
    decreases s.len(),
{
    broadcast use vstd::seq_lib::group_to_multiset_ensures;

    if i == s.len() - 1 {
        assert(s.update(i, x) =~= s.drop_last().push(x));
        assert(s =~= s.drop_last().push(s[i]));
        assert(s.drop_last().push(x).to_multiset() =~= s.drop_last().to_multiset().insert(x));
        assert(s.drop_last().push(s[i]).to_multiset() =~= s.drop_last().to_multiset().insert(
            s[i],
        ));
    } else {
        assert(s.update(i, x).drop_last() =~= s.drop_last().update(i, x));
        assert(s.update(i, x) =~= s.drop_last().update(i, x).push(s.last()));
        lemma_update_multiset(s.drop_last(), i, x);
        assert(s =~= s.drop_last().push(s.last()));
        assert(s.drop_last().to_multiset().contains(s[i])) by {
            assert(s.drop_last()[i] == s[i]);
            assert(s.drop_last().contains(s[i]));
        }
    }
}

/// What `Vec::swap_remove` does to the multiset of a sequence: one
/// occurrence of the removed element is gone, everything else stays.
pub proof fn lemma_swap_remove_multiset<A>(s: Seq<A>, i: int)
    requires
        0 <= i < s.len(),
    ensures
        s.update(i, s.last()).drop_last().to_multiset() =~= s.to_multiset().remove(s[i]),
{
    broadcast use vstd::seq_lib::group_to_multiset_ensures;

    if i == s.len() - 1 {
        assert(s.update(i, s.last()) =~= s);
        assert(s.drop_last() =~= s.remove(i));
    } else {
        let u = s.update(i, s.last());
        lemma_update_multiset(s, i, s.last());
        assert(u.drop_last() =~= u.remove(u.len() - 1));
        assert(u[u.len() - 1] == s.last());
        assert(s.to_multiset().contains(s[i])) by {
            assert(s.contains(s[i]));
        }
    }
}

/// Insert a value into the collection kept under `k`, creating that
/// collection if it does not exist yet.
///
/// Returns true exactly when the entry for `k` was newly created by this
/// call, meaning that "parent" indexes need to be updated.
pub fn insert_in_index(
    hm: &mut HashMap<u32, Vec<IndexTriple<u32>>>,
    k: u32,
    w: IndexTriple<u32>,
) -> (created: bool)
    ensures
        created == !old(hm)@.contains_key(k),
        forall|k2: u32|
            #![trigger final(hm)@.contains_key(k2)]
            final(hm)@.contains_key(k2) == (k2 == k || old(hm)@.contains_key(k2)),
        final(hm)@[k]@ == (if old(hm)@.contains_key(k) {
            old(hm)@[k]@.push(w)
        } else {
            seq![w]
        }),
        forall|k2: u32|
            #![trigger final(hm)@[k2]]
            k2 != k && old(hm)@.contains_key(k2) ==> final(hm)@[k2] == old(hm)@[k2],
{
    if hm.contains_key(&k) {
        let mut v = hm.remove(&k).unwrap();
        v.push(w);
        hm.insert(k, v);
        false
    } else {
        let mut v: Vec<IndexTriple<u32>> = Vec::new();
        v.push(w);
        hm.insert(k, v);
        true
    }
}

/// Remove one occurrence of a value from the collection kept under `k`,
/// deleting the whole entry if that value was the sole element. When more
/// than one element remains the removal is unordered (the slot is swapped
/// with the last element).
///
/// Returns true exactly when the entry for `k` was destroyed by this
/// call, meaning that "parent" indexes need to be updated. The key must
/// be present and its collection must contain the value; anything else is
/// a caller bug, not a recoverable condition.
pub fn remove_from_index(
    hm: &mut HashMap<u32, Vec<IndexTriple<u32>>>,
    k: u32,
    w: IndexTriple<u32>,
) -> (destroyed: bool)
    requires
        old(hm)@.contains_key(k),
        old(hm)@[k]@.contains(w),
    ensures
        destroyed == (old(hm)@[k]@.len() == 1),
        forall|k2: u32|
            #![trigger final(hm)@.contains_key(k2)]
            final(hm)@.contains_key(k2) == (old(hm)@.contains_key(k2) && !(k2 == k && old(
                hm,
            )@[k]@.len() == 1)),
        forall|k2: u32|
            #![trigger final(hm)@[k2]]
            k2 != k && old(hm)@.contains_key(k2) ==> final(hm)@[k2] == old(hm)@[k2],
        old(hm)@[k]@.len() > 1 ==> final(hm)@.contains_key(k) && final(hm)@[k]@.len() == old(
            hm,
        )@[k]@.len() - 1 && final(hm)@[k]@.to_multiset() == old(hm)@[k]@.to_multiset().remove(w),
{
    let mut v = hm.remove(&k).unwrap();
    if v.len() > 1 {
        let n = v.len();
        let mut j: usize = 0;
        let mut found: usize = n;
        while j < n
            invariant
                n == v@.len(),
                j <= n,
                found <= n,
                v@.contains(w),
                found == n ==> forall|q: int| 0 <= q < j ==> v@[q] != w,
                found < n ==> v@[found as int] == w,
            decreases n - j,
        {
            if found == n && v[j] == w {
                found = j;
            }
            j += 1;
        }
        proof {
            assert(found < n) by {
                if found == n {
                    let q = choose|q: int| 0 <= q < v@.len() && v@[q] == w;
                    assert(v@[q] == w);
                    assert(v@[q] != w);
                }
            }
        }
        let ghost before = v@;
        v.swap_remove(found);
        proof {
            lemma_swap_remove_multiset(before, found as int);
        }
        hm.insert(k, v);
        false
    } else {
        proof {
            assert(v@.contains(w));
        }
        true
    }
}

} // verus!
