//! The indexed graph layer.
//!
//! Triples of terms are stored as triples of handles, backed by one
//! interning table; per-component secondary indices are kept consistent
//! with the primary storage through the cascade-reporting operations of
//! the index maintenance module.

use std::collections::HashMap;

use vstd::multiset::Multiset;
use vstd::prelude::*;

use crate::index::{insert_in_index, lemma_swap_remove_multiset, remove_from_index, IndexTriple};
use crate::term::Term;
use crate::term_index::{InterningModel, TermIndexMap, TermTable};

verus! {

broadcast use
    vstd::std_specs::hash::group_hash_axioms,
    vstd::multiset::group_multiset_axioms,
    vstd::multiset::group_multiset_properties,
    vstd::seq_lib::group_to_multiset_ensures;

/// How often handle `h` occurs among the three components of one triple.
pub open spec fn occ_in(tr: IndexTriple<u32>, h: u32) -> nat {
    (if tr.s == h {
        1nat
    } else {
        0nat
    }) + (if tr.p == h {
        1nat
    } else {
        0nat
    }) + (if tr.o == h {
        1nat
    } else {
        0nat
    })
}

/// How often handle `h` occurs, component-wise, across a triple sequence.
pub open spec fn occ(ts: Seq<IndexTriple<u32>>, h: u32) -> nat
    decreases ts.len(),
{
    if ts.len() == 0 {
        0
    } else {
        occ(ts.drop_last(), h) + occ_in(ts.last(), h)
    }
}

/// Component `c` of a triple (subject, predicate or object).
pub open spec fn comp(tr: IndexTriple<u32>, c: int) -> u32 {
    if c == 0 {
        tr.s
    } else if c == 1 {
        tr.p
    } else {
        tr.o
    }
}

/// The multiset of stored triples whose component `c` is the handle `k`:
/// what the secondary index for component `c` must hold under key `k`.
pub open spec fn bucket(ts: Seq<IndexTriple<u32>>, k: u32, c: int) -> Multiset<IndexTriple<u32>>
    decreases ts.len(),
{
    if ts.len() == 0 {
        Multiset::empty()
    } else if comp(ts.last(), c) == k {
        bucket(ts.drop_last(), k, c).insert(ts.last())
    } else {
        bucket(ts.drop_last(), k, c)
    }
}

/// Consistency of one secondary index with the primary triple storage:
/// an entry exists exactly for the keys that occur as component `c`, and
/// holds exactly the triples in which they occur.
pub open spec fn index_ok(
    m: Map<u32, Vec<IndexTriple<u32>>>,
    ts: Seq<IndexTriple<u32>>,
    c: int,
) -> bool {
    &&& forall|k: u32| #![trigger m.contains_key(k)] m.contains_key(k) == (bucket(ts, k, c).len()
        > 0)
    &&& forall|k: u32| #![trigger m[k]] m.contains_key(k) ==> m[k]@.to_multiset() == bucket(
        ts,
        k,
        c,
    )
}

/// How often a term occurs among the three components of one term triple.
pub open spec fn occ_term(u: Seq<char>, s: Seq<char>, p: Seq<char>, o: Seq<char>) -> nat {
    (if u == s {
        1nat
    } else {
        0nat
    }) + (if u == p {
        1nat
    } else {
        0nat
    }) + (if u == o {
        1nat
    } else {
        0nat
    })
}

/// The abstract observables of an indexed graph: the interning
/// observables of its table, plus the sequence of stored handle-triples.
pub trait GraphModel: Sized {
    /// Structural well-formedness: the table is well-formed, stored
    /// triples are distinct with live components, every reference count
    /// equals the occurrence count of its handle, and all secondary
    /// indices agree with the primary storage.
    spec fn wf(&self) -> bool;

    /// The stored handle-triples, in storage order.
    spec fn stored(&self) -> Seq<IndexTriple<u32>>;

    /// Does handle `i` currently map to a term?
    spec fn live(&self, i: u32) -> bool;

    /// The term mapped by `i` (empty if not live).
    spec fn term_at(&self, i: u32) -> Seq<char>;

    /// The reference count of handle `i` (zero if not live).
    spec fn rc(&self, i: u32) -> nat;

    /// Is some live handle mapped to the term `t`?
    spec fn has_term(&self, t: Seq<char>) -> bool;

    /// The handle mapped to term `t`, when `has_term(t)`.
    spec fn index_of(&self, t: Seq<char>) -> u32;

    /// Number of currently live handles of the underlying table.
    spec fn num_live(&self) -> nat;

    /// How many handles can be live at once; constant across operations.
    spec fn capacity(&self) -> nat;

    /// The interning bijection of the underlying table, and the tie
    /// between reference counts and stored occurrences: every count is
    /// exactly the number of component positions holding that handle.
    proof fn lemma_graph_bijection(&self)
        requires
            self.wf(),
        ensures
            forall|i: u32| #[trigger] self.live(i) ==> self.has_term(self.term_at(i))
                && self.index_of(self.term_at(i)) == i && i != 0,
            forall|t: Seq<char>| #[trigger] self.has_term(t) ==> self.live(self.index_of(t))
                && self.term_at(self.index_of(t)) == t,
            forall|i: u32| #[trigger] self.live(i) <==> self.rc(i) >= 1,
            forall|i: u32| #[trigger] self.rc(i) == occ(self.stored(), i),
            forall|j: int|
                0 <= j < self.stored().len() ==> self.live(#[trigger] self.stored()[j].s)
                    && self.live(self.stored()[j].p) && self.live(self.stored()[j].o),
            self.stored().no_duplicates();
}

/// Is the term triple `(s, p, o)` present in the graph?
pub open spec fn graph_has<G: GraphModel>(g: &G, s: Seq<char>, p: Seq<char>, o: Seq<char>) -> bool {
    exists|j: int|
        0 <= j < g.stored().len() && g.term_at(#[trigger] g.stored()[j].s) == s && g.term_at(
            g.stored()[j].p,
        ) == p && g.term_at(g.stored()[j].o) == o
}

/// The reference count a term's handle carries, or zero for an absent
/// term.
pub open spec fn trc<G: GraphModel>(g: &G, u: Seq<char>) -> nat {
    if g.has_term(u) {
        g.rc(g.index_of(u))
    } else {
        0
    }
}

/// A graph of term triples stored as handle-triples over an interning
/// table, with secondary indices by subject, predicate and object.
pub trait IndexedGraph: GraphModel {
    /// Return the index for the given term, if it exists. Read-only.
    fn get_index(&self, t: &Term) -> (r: Option<u32>)
        requires
            self.wf(),
        ensures
            match r {
                Some(i) => self.has_term(t@) && i == self.index_of(t@),
                None => !self.has_term(t@),
            };

    /// Return the term for the given index, if it exists. Read-only.
    fn get_term(&self, i: u32) -> (r: Option<&Term>)
        requires
            self.wf(),
        ensures
            match r {
                Some(t) => self.live(i) && t@ == self.term_at(i),
                None => !self.live(i),
            };

    /// Insert a triple of terms, interning each component (each
    /// occurrence increments its handle's count by one, even when one
    /// term fills several positions), and return the handle-triple.
    /// Returns nothing, changing nothing, exactly when the triple is
    /// already present.
    fn insert_indexed(&mut self, s: &Term, p: &Term, o: &Term) -> (r: Option<IndexTriple<u32>>)
        requires
            old(self).wf(),
            trc(old(self), s@) + 3 <= u64::MAX,
            trc(old(self), p@) + 3 <= u64::MAX,
            trc(old(self), o@) + 3 <= u64::MAX,
            old(self).num_live() + 3 <= old(self).capacity(),
        ensures
            final(self).wf(),
            r is Some <==> !graph_has(old(self), s@, p@, o@),
            r is None ==> *final(self) == *old(self),
            r matches Some(tr) ==> {
                &&& final(self).stored() == old(self).stored().push(tr)
                &&& final(self).live(tr.s) && final(self).term_at(tr.s) == s@
                &&& final(self).live(tr.p) && final(self).term_at(tr.p) == p@
                &&& final(self).live(tr.o) && final(self).term_at(tr.o) == o@
                &&& graph_has(final(self), s@, p@, o@)
                &&& forall|u: Seq<char>|
                    #![trigger trc(final(self), u)]
                    trc(final(self), u) == trc(old(self), u) + occ_term(u, s@, p@, o@)
                &&& forall|u: Seq<char>|
                    #![trigger final(self).has_term(u)]
                    final(self).has_term(u) == (old(self).has_term(u) || u == s@ || u == p@ || u
                        == o@)
                &&& forall|u: Seq<char>|
                    #![trigger final(self).index_of(u)]
                    old(self).has_term(u) ==> final(self).index_of(u) == old(self).index_of(u)
            };

    /// Remove a triple of terms, releasing one reference per component
    /// occurrence, and return the handle-triple it was stored under.
    /// Returns nothing, changing nothing, exactly when the triple is not
    /// present (in particular when any component term is unknown).
    fn remove_indexed(&mut self, s: &Term, p: &Term, o: &Term) -> (r: Option<IndexTriple<u32>>)
        requires
            old(self).wf(),
        ensures
            final(self).wf(),
            r is Some <==> graph_has(old(self), s@, p@, o@),
            r is None ==> *final(self) == *old(self),
            r matches Some(tr) ==> {
                &&& old(self).has_term(s@) && tr.s == old(self).index_of(s@)
                &&& old(self).has_term(p@) && tr.p == old(self).index_of(p@)
                &&& old(self).has_term(o@) && tr.o == old(self).index_of(o@)
                &&& final(self).stored().to_multiset() == old(self).stored().to_multiset().remove(
                    tr,
                )
                &&& final(self).stored().len() == old(self).stored().len() - 1
                &&& !graph_has(final(self), s@, p@, o@)
                &&& forall|u: Seq<char>|
                    #![trigger trc(final(self), u)]
                    trc(final(self), u) + occ_term(u, s@, p@, o@) == trc(old(self), u)
                &&& forall|u: Seq<char>|
                    #![trigger final(self).has_term(u)]
                    final(self).has_term(u) ==> old(self).has_term(u) && final(self).index_of(u)
                        == old(self).index_of(u)
            };

    /// Release unused backing capacity; a no-op for every observable.
    fn shrink_to_fit(&mut self)
        requires
            old(self).wf(),
        ensures
            final(self).wf(),
            final(self).stored() == old(self).stored(),
            forall|j: u32| #![trigger final(self).live(j)] final(self).live(j) == old(self).live(j),
            forall|j: u32|
                #![trigger final(self).term_at(j)]
                final(self).term_at(j) == old(self).term_at(j),
            forall|j: u32| #![trigger final(self).rc(j)] final(self).rc(j) == old(self).rc(j),
            forall|u: Seq<char>|
                #![trigger final(self).has_term(u)]
                final(self).has_term(u) == old(self).has_term(u),
            forall|u: Seq<char>|
                #![trigger final(self).index_of(u)]
                old(self).has_term(u) ==> final(self).index_of(u) == old(self).index_of(u);
}

proof fn lemma_occ_push(ts: Seq<IndexTriple<u32>>, tr: IndexTriple<u32>, h: u32)
    ensures
        occ(ts.push(tr), h) == occ(ts, h) + occ_in(tr, h),
{
    assert(ts.push(tr).drop_last() =~= ts);
    assert(ts.push(tr).last() == tr);
}

proof fn lemma_occ_update(ts: Seq<IndexTriple<u32>>, j: int, x: IndexTriple<u32>, h: u32)
    requires
        0 <= j < ts.len(),
    ensures
        occ(ts.update(j, x), h) + occ_in(ts[j], h) == occ(ts, h) + occ_in(x, h),
    decreases ts.len(),
{
    if j == ts.len() - 1 {
        assert(ts.update(j, x).drop_last() =~= ts.drop_last());
        assert(ts.update(j, x).last() == x);
    } else {
        assert(ts.update(j, x).drop_last() =~= ts.drop_last().update(j, x));
        assert(ts.update(j, x).last() == ts.last());
        lemma_occ_update(ts.drop_last(), j, x, h);
    }
}

proof fn lemma_occ_swap_remove(ts: Seq<IndexTriple<u32>>, j: int, h: u32)
    requires
        0 <= j < ts.len(),
    ensures
        occ(ts.update(j, ts.last()).drop_last(), h) + occ_in(ts[j], h) == occ(ts, h),
{
    let u = ts.update(j, ts.last());
    lemma_occ_update(ts, j, ts.last(), h);
    assert(u.last() == ts.last());
    assert(occ(u, h) == occ(u.drop_last(), h) + occ_in(u.last(), h));
}

proof fn lemma_occ_mem(ts: Seq<IndexTriple<u32>>, j: int, h: u32)
    requires
        0 <= j < ts.len(),
    ensures
        occ(ts, h) >= occ_in(ts[j], h),
    decreases ts.len(),
{
    if j == ts.len() - 1 {
        assert(occ(ts, h) == occ(ts.drop_last(), h) + occ_in(ts.last(), h));
    } else {
        lemma_occ_mem(ts.drop_last(), j, h);
        assert(ts.drop_last()[j] == ts[j]);
    }
}

proof fn lemma_bucket_push(ts: Seq<IndexTriple<u32>>, tr: IndexTriple<u32>, k: u32, c: int)
    ensures
        comp(tr, c) == k ==> bucket(ts.push(tr), k, c) =~= bucket(ts, k, c).insert(tr),
        comp(tr, c) != k ==> bucket(ts.push(tr), k, c) =~= bucket(ts, k, c),
{
    assert(ts.push(tr).drop_last() =~= ts);
    assert(ts.push(tr).last() == tr);
}

spec fn with_member(
    m: Multiset<IndexTriple<u32>>,
    k: u32,
    c: int,
    tr: IndexTriple<u32>,
) -> Multiset<IndexTriple<u32>> {
    if comp(tr, c) == k {
        m.insert(tr)
    } else {
        m
    }
}

proof fn lemma_bucket_update(ts: Seq<IndexTriple<u32>>, j: int, x: IndexTriple<u32>, k: u32, c: int)
    requires
        0 <= j < ts.len(),
    ensures
        with_member(bucket(ts.update(j, x), k, c), k, c, ts[j]) =~= with_member(
            bucket(ts, k, c),
            k,
            c,
            x,
        ),
    decreases ts.len(),
{
    if j == ts.len() - 1 {
        assert(ts.update(j, x).drop_last() =~= ts.drop_last());
        assert(ts.update(j, x).last() == x);
        assert forall|v: IndexTriple<u32>| true implies with_member(
            bucket(ts.update(j, x), k, c),
            k,
            c,
            ts[j],
        ).count(v) == with_member(bucket(ts, k, c), k, c, x).count(v) by {
            let m = bucket(ts.drop_last(), k, c);
            assert(bucket(ts.update(j, x), k, c) == with_member(m, k, c, x));
            assert(bucket(ts, k, c) == with_member(m, k, c, ts[j]));
        }
    } else {
        assert(ts.update(j, x).drop_last() =~= ts.drop_last().update(j, x));
        assert(ts.update(j, x).last() == ts.last());
        lemma_bucket_update(ts.drop_last(), j, x, k, c);
        assert(ts.drop_last()[j] == ts[j]);
        assert forall|v: IndexTriple<u32>| true implies with_member(
            bucket(ts.update(j, x), k, c),
            k,
            c,
            ts[j],
        ).count(v) == with_member(bucket(ts, k, c), k, c, x).count(v) by {
            let dl = ts.drop_last();
            assert(bucket(ts.update(j, x), k, c) == with_member(
                bucket(dl.update(j, x), k, c),
                k,
                c,
                ts.last(),
            ));
            assert(bucket(ts, k, c) == with_member(bucket(dl, k, c), k, c, ts.last()));
            assert(with_member(bucket(dl.update(j, x), k, c), k, c, ts[j]).count(v) == with_member(
                bucket(dl, k, c),
                k,
                c,
                x,
            ).count(v));
        }
    }
}

proof fn lemma_bucket_mem(ts: Seq<IndexTriple<u32>>, j: int, k: u32, c: int)
    requires
        0 <= j < ts.len(),
        comp(ts[j], c) == k,
    ensures
        bucket(ts, k, c).count(ts[j]) >= 1,
    decreases ts.len(),
{
    if j == ts.len() - 1 {
        assert(bucket(ts, k, c) == bucket(ts.drop_last(), k, c).insert(ts.last()));
    } else {
        lemma_bucket_mem(ts.drop_last(), j, k, c);
        assert(ts.drop_last()[j] == ts[j]);
    }
}

proof fn lemma_bucket_swap_remove(ts: Seq<IndexTriple<u32>>, j: int, k: u32, c: int)
    requires
        0 <= j < ts.len(),
    ensures
        comp(ts[j], c) == k ==> bucket(ts.update(j, ts.last()).drop_last(), k, c) =~= bucket(
            ts,
            k,
            c,
        ).remove(ts[j]),
        comp(ts[j], c) != k ==> bucket(ts.update(j, ts.last()).drop_last(), k, c) =~= bucket(
            ts,
            k,
            c,
        ),
{
    let u = ts.update(j, ts.last());
    let ts2 = u.drop_last();
    lemma_bucket_update(ts, j, ts.last(), k, c);
    assert(u.last() == ts.last());
    assert(bucket(u, k, c) == with_member(bucket(ts2, k, c), k, c, ts.last()));
    if comp(ts[j], c) == k {
        lemma_bucket_mem(ts, j, k, c);
        assert(with_member(bucket(u, k, c), k, c, ts[j]) =~= with_member(
            bucket(ts, k, c),
            k,
            c,
            ts.last(),
        ));
        if comp(ts.last(), c) == k {
            assert(bucket(ts2, k, c).insert(ts.last()).insert(ts[j]) =~= bucket(ts, k, c).insert(
                ts.last(),
            ));
            assert forall|v: IndexTriple<u32>| true implies bucket(ts2, k, c).count(v) == bucket(
                ts,
                k,
                c,
            ).remove(ts[j]).count(v) by {
                assert(bucket(ts2, k, c).insert(ts.last()).insert(ts[j]).count(v) == bucket(
                    ts,
                    k,
                    c,
                ).insert(ts.last()).count(v));
            }
        } else {
            assert(bucket(ts2, k, c).insert(ts[j]) =~= bucket(ts, k, c));
        }
    } else {
        if comp(ts.last(), c) == k {
            assert(bucket(ts2, k, c).insert(ts.last()) =~= bucket(ts, k, c).insert(ts.last()));
            assert forall|v: IndexTriple<u32>| true implies bucket(ts2, k, c).count(v) == bucket(
                ts,
                k,
                c,
            ).count(v) by {
                assert(bucket(ts2, k, c).insert(ts.last()).count(v) == bucket(ts, k, c).insert(
                    ts.last(),
                ).count(v));
            }
        } else {
            assert(bucket(ts2, k, c) =~= bucket(ts, k, c));
        }
    }
}

proof fn lemma_index_ok_insert(
    pre: Map<u32, Vec<IndexTriple<u32>>>,
    post: Map<u32, Vec<IndexTriple<u32>>>,
    ts: Seq<IndexTriple<u32>>,
    tr: IndexTriple<u32>,
    kk: u32,
    c: int,
)
    requires
        index_ok(pre, ts, c),
        comp(tr, c) == kk,
        forall|k2: u32|
            #![trigger post.contains_key(k2)]
            post.contains_key(k2) == (k2 == kk || pre.contains_key(k2)),
        post[kk]@ == (if pre.contains_key(kk) {
            pre[kk]@.push(tr)
        } else {
            seq![tr]
        }),
        forall|k2: u32|
            #![trigger post[k2]]
            k2 != kk && pre.contains_key(k2) ==> post[k2] == pre[k2],
    ensures
        index_ok(post, ts.push(tr), c),
{
    assert forall|k: u32| true implies post.contains_key(k) == (bucket(ts.push(tr), k, c).len()
        > 0) by {
        lemma_bucket_push(ts, tr, k, c);
        if k == kk {
            assert(bucket(ts.push(tr), k, c).len() == bucket(ts, k, c).len() + 1);
        }
    }
    assert forall|k: u32| post.contains_key(k) implies post[k]@.to_multiset() == bucket(
        ts.push(tr),
        k,
        c,
    ) by {
        lemma_bucket_push(ts, tr, k, c);
        if k == kk {
            if pre.contains_key(kk) {
                assert(post[kk]@.to_multiset() =~= pre[kk]@.to_multiset().insert(tr));
            } else {
                assert(bucket(ts, kk, c).len() == 0);
                assert(bucket(ts, kk, c) =~= Multiset::empty());
                assert(seq![tr] =~= Seq::<IndexTriple<u32>>::empty().push(tr));
                assert(post[kk]@.to_multiset() =~= Multiset::empty().insert(tr));
            }
        }
    }
}

proof fn lemma_index_ok_remove(
    pre: Map<u32, Vec<IndexTriple<u32>>>,
    post: Map<u32, Vec<IndexTriple<u32>>>,
    ts: Seq<IndexTriple<u32>>,
    j: int,
    kk: u32,
    c: int,
)
    requires
        index_ok(pre, ts, c),
        0 <= j < ts.len(),
        comp(ts[j], c) == kk,
        pre.contains_key(kk),
        pre[kk]@.to_multiset() == bucket(ts, kk, c),
        forall|k2: u32|
            #![trigger post.contains_key(k2)]
            post.contains_key(k2) == (pre.contains_key(k2) && !(k2 == kk && pre[kk]@.len() == 1)),
        forall|k2: u32|
            #![trigger post[k2]]
            k2 != kk && pre.contains_key(k2) ==> post[k2] == pre[k2],
        pre[kk]@.len() > 1 ==> post.contains_key(kk) && post[kk]@.to_multiset()
            == pre[kk]@.to_multiset().remove(ts[j]),
    ensures
        index_ok(post, ts.update(j, ts.last()).drop_last(), c),
{
    let ts2 = ts.update(j, ts.last()).drop_last();
    let tr = ts[j];
    lemma_bucket_mem(ts, j, kk, c);
    assert(pre[kk]@.len() == bucket(ts, kk, c).len());
    assert forall|k: u32| true implies post.contains_key(k) == (bucket(ts2, k, c).len() > 0) by {
        lemma_bucket_swap_remove(ts, j, k, c);
        if k == kk {
            assert(bucket(ts2, k, c).len() == bucket(ts, k, c).len() - 1);
        }
    }
    assert forall|k: u32| post.contains_key(k) implies post[k]@.to_multiset() == bucket(
        ts2,
        k,
        c,
    ) by {
        lemma_bucket_swap_remove(ts, j, k, c);
        if k == kk {
            assert(pre[kk]@.len() > 1);
            assert(post[kk]@.to_multiset() =~= bucket(ts, kk, c).remove(tr));
        }
    }
}

/// Scan for a handle-triple in the primary storage.
fn find_triple(v: &Vec<IndexTriple<u32>>, tr: IndexTriple<u32>) -> (r: Option<usize>)
    ensures
        match r {
            Some(j) => j < v@.len() && v@[j as int] == tr,
            None => !v@.contains(tr),
        },
{
    let n = v.len();
    let mut j: usize = 0;
    while j < n
        invariant
            n == v@.len(),
            j <= n,
            forall|q: int| 0 <= q < j ==> v@[q] != tr,
        decreases n - j,
    {
        if v[j] == tr {
            return Some(j);
        }
        j += 1;
    }
    proof {
        if v@.contains(tr) {
            let q = choose|q: int| 0 <= q < v@.len() && v@[q] == tr;
            assert(v@[q] != tr);
        }
    }
    None
}

/// An indexed graph backed by the reference-counted `TermTable`, a
/// duplicate-free primary triple store, and three secondary indices (by
/// subject, by predicate, by object).
pub struct HashGraph {
    table: TermTable,
    triples: Vec<IndexTriple<u32>>,
    by_s: HashMap<u32, Vec<IndexTriple<u32>>>,
    by_p: HashMap<u32, Vec<IndexTriple<u32>>>,
    by_o: HashMap<u32, Vec<IndexTriple<u32>>>,
}

impl HashGraph {
    /// A fresh, empty graph.
    pub fn new() -> (g: HashGraph)
        ensures
            g.wf(),
            g.stored() == Seq::<IndexTriple<u32>>::empty(),
            g.num_live() == 0,
            g.capacity() == u32::MAX - 1,
            forall|u: Seq<char>| !(#[trigger] g.has_term(u)),
            forall|i: u32| !(#[trigger] g.live(i)),
    {
        let g = HashGraph {
            table: TermTable::new(),
            triples: Vec::new(),
            by_s: HashMap::new(),
            by_p: HashMap::new(),
            by_o: HashMap::new(),
        };
        proof {
            g.table.lemma_interning_bijection();
            assert forall|h: u32| true implies #[trigger] g.table.rc(h) == occ(g.triples@, h) by {
                assert(!g.table.live(h));
            }
        }
        g
    }

    /// The term-triple presence test matches an exact handle-triple
    /// lookup through the interning table.
    proof fn lemma_graph_has_iff(&self, s: Seq<char>, p: Seq<char>, o: Seq<char>)
        requires
            self.wf(),
        ensures
            graph_has(self, s, p, o) <==> (self.table.has_term(s) && self.table.has_term(p)
                && self.table.has_term(o) && self.triples@.contains(
                IndexTriple {
                    s: self.table.index_of(s),
                    p: self.table.index_of(p),
                    o: self.table.index_of(o),
                },
            )),
    {
        self.table.lemma_interning_bijection();
        if graph_has(self, s, p, o) {
            let j = choose|j: int|
                0 <= j < self.stored().len() && self.term_at(#[trigger] self.stored()[j].s) == s
                    && self.term_at(self.stored()[j].p) == p && self.term_at(self.stored()[j].o)
                    == o;
            let tr = self.triples@[j];
            assert(self.table.live(tr.s) && self.table.live(tr.p) && self.table.live(tr.o));
            assert(self.table.index_of(s) == tr.s);
            assert(self.table.index_of(p) == tr.p);
            assert(self.table.index_of(o) == tr.o);
            assert(self.triples@.contains(tr));
        }
        if self.table.has_term(s) && self.table.has_term(p) && self.table.has_term(o) {
            let tr = IndexTriple {
                s: self.table.index_of(s),
                p: self.table.index_of(p),
                o: self.table.index_of(o),
            };
            if self.triples@.contains(tr) {
                let j = choose|j: int| 0 <= j < self.triples@.len() && self.triples@[j] == tr;
                assert(self.term_at(self.stored()[j].s) == s);
                assert(self.term_at(self.stored()[j].p) == p);
                assert(self.term_at(self.stored()[j].o) == o);
                assert(graph_has(self, s, p, o));
            }
        }
    }
}

impl Default for HashGraph {
    fn default() -> (g: HashGraph)
        ensures
            g.wf(),
            g.stored() == Seq::<IndexTriple<u32>>::empty(),
            forall|u: Seq<char>| !(#[trigger] g.has_term(u)),
    {
        HashGraph::new()
    }
}

impl GraphModel for HashGraph {
    closed spec fn wf(&self) -> bool {
        &&& self.table.wf()
        &&& self.triples@.no_duplicates()
        &&& forall|j: int|
            0 <= j < self.triples@.len() ==> self.table.live(#[trigger] self.triples@[j].s)
                && self.table.live(self.triples@[j].p) && self.table.live(self.triples@[j].o)
        &&& forall|h: u32| #[trigger] self.table.rc(h) == occ(self.triples@, h)
        &&& index_ok(self.by_s@, self.triples@, 0)
        &&& index_ok(self.by_p@, self.triples@, 1)
        &&& index_ok(self.by_o@, self.triples@, 2)
    }

    closed spec fn stored(&self) -> Seq<IndexTriple<u32>> {
        self.triples@
    }

    closed spec fn live(&self, i: u32) -> bool {
        self.table.live(i)
    }

    closed spec fn term_at(&self, i: u32) -> Seq<char> {
        self.table.term_at(i)
    }

    closed spec fn rc(&self, i: u32) -> nat {
        self.table.rc(i)
    }

    closed spec fn has_term(&self, t: Seq<char>) -> bool {
        self.table.has_term(t)
    }

    closed spec fn index_of(&self, t: Seq<char>) -> u32 {
        self.table.index_of(t)
    }

    closed spec fn num_live(&self) -> nat {
        self.table.num_live()
    }

    closed spec fn capacity(&self) -> nat {
        self.table.capacity()
    }

    proof fn lemma_graph_bijection(&self) {
        self.table.lemma_interning_bijection();
        assert forall|i: u32| #[trigger] self.live(i) implies self.has_term(self.term_at(i))
            && self.index_of(self.term_at(i)) == i && i != 0 by {
            assert(self.table.live(i));
            assert(i != <TermTable as InterningModel>::null_spec());
        }
    }
}

/// Relies on `std::collections::HashMap::shrink_to_fit`: releases unused
/// capacity while keeping every key-value pair.
#[verifier::external_body]
fn shrink_index_map(m: &mut HashMap<u32, Vec<IndexTriple<u32>>>)
    ensures
        final(m)@ == old(m)@,
{
    m.shrink_to_fit()
}

/// Relies on `std::vec::Vec::shrink_to_fit`: releases unused capacity
/// while keeping the elements.
#[verifier::external_body]
fn shrink_triple_vec(v: &mut Vec<IndexTriple<u32>>)
    ensures
        final(v)@ == old(v)@,
{
    v.shrink_to_fit()
}

impl IndexedGraph for HashGraph {
    fn get_index(&self, t: &Term) -> (r: Option<u32>) {
        self.table.get_index(t)
    }

    fn get_term(&self, i: u32) -> (r: Option<&Term>) {
        self.table.get_term(i)
    }

    #[verifier::rlimit(100)]
    fn insert_indexed(&mut self, s: &Term, p: &Term, o: &Term) -> (r: Option<IndexTriple<u32>>) {
        proof {
            old(self).lemma_graph_has_iff(s@, p@, o@);
            old(self).table.lemma_interning_bijection();
        }
        let si = self.table.get_index(s);
        let pi = self.table.get_index(p);
        let oi = self.table.get_index(o);
        match (si, pi, oi) {
            (Some(a0), Some(b0), Some(c0)) => {
                let tr0 = IndexTriple { s: a0, p: b0, o: c0 };
                match find_triple(&self.triples, tr0) {
                    Some(_) => {
                        proof {
                            assert(graph_has(old(self), s@, p@, o@));
                        }
                        return None;
                    },
                    None => {},
                }
            },
            _ => {},
        }
        proof {
            assert(!graph_has(old(self), s@, p@, o@));
        }
        let ghost g0 = *self;
        let ghost t0 = self.table;
        let a = self.table.make_index(s);
        let ghost t1 = self.table;
        proof {
            t0.lemma_interning_bijection();
            t1.lemma_interning_bijection();
            if t1.has_term(p@) {
                let j = t1.index_of(p@);
                if p@ == s@ {
                    assert(j == a);
                    assert(t1.rc(j) == t0.rc(j) + 1 || t1.rc(j) == 1);
                } else {
                    assert(t0.has_term(p@) && j == t0.index_of(p@));
                    assert(j != a || t0.term_at(j) == s@);
                    assert(t1.rc(j) == t0.rc(j));
                }
                assert(t1.rc(j) < u64::MAX);
            }
        }
        let b = self.table.make_index(p);
        let ghost t2 = self.table;
        proof {
            t2.lemma_interning_bijection();
            if t2.has_term(o@) {
                let j = t2.index_of(o@);
                assert(t2.rc(j) <= t0.rc(j) + 2) by {
                    if j != a && j != b {
                        assert(t1.rc(j) == t0.rc(j));
                        assert(t2.rc(j) == t1.rc(j));
                    } else {
                        assert(t1.rc(j) <= t0.rc(j) + 1);
                        assert(t2.rc(j) <= t1.rc(j) + 1);
                    }
                }
                assert(trc(&g0, o@) + 3 <= u64::MAX);
                if t0.has_term(o@) {
                    assert(t0.rc(t0.index_of(o@)) + 3 <= u64::MAX);
                    if t2.index_of(o@) == t0.index_of(o@) {
                    } else {
                        assert(o@ == s@ || o@ == p@);
                    }
                    assert(t2.rc(j) < u64::MAX);
                } else {
                    assert(t0.rc(j) == 0 || t0.term_at(j) != o@);
                    if t0.live(j) && t0.term_at(j) == o@ {
                        assert(t0.has_term(o@));
                    }
                    assert(!t0.live(j) || t0.term_at(j) != o@);
                    if t0.live(j) {
                        assert(t2.term_at(j) == o@);
                        assert(t2.term_at(j) == t0.term_at(j) || j == a || j == b);
                        assert(j == a || j == b);
                        assert(t2.term_at(a) == s@ || a != j);
                        assert(o@ == s@ || o@ == p@);
                        assert(t0.has_term(o@));
                        assert(false);
                    }
                    assert(t0.rc(j) == 0);
                    assert(t2.rc(j) <= 2);
                }
                assert(t2.rc(j) < u64::MAX);
            }
        }
        let c = self.table.make_index(o);
        let ghost t3 = self.table;
        let tr = IndexTriple { s: a, p: b, o: c };
        proof {
            t3.lemma_interning_bijection();
            // the three handles resolve the three terms in the final table
            assert(t3.has_term(o@) && t3.index_of(o@) == c && t3.term_at(c) == o@);
            assert(t3.has_term(p@) && t3.index_of(p@) == b && t3.term_at(b) == p@) by {
                assert(t2.index_of(p@) == b && t2.term_at(b) == p@);
                if p@ == o@ {
                    assert(t2.has_term(o@));
                    assert(c == t2.index_of(o@));
                } else {
                    assert(t3.index_of(p@) == t2.index_of(p@));
                }
            }
            assert(t3.has_term(s@) && t3.index_of(s@) == a && t3.term_at(a) == s@) by {
                assert(t1.index_of(s@) == a && t1.term_at(a) == s@);
                if s@ == p@ {
                    assert(b == t1.index_of(p@));
                    assert(t2.index_of(s@) == b && b == a);
                } else {
                    assert(t2.index_of(s@) == t1.index_of(s@));
                }
                if s@ == o@ {
                    assert(c == t2.index_of(o@));
                    assert(t3.index_of(s@) == c && c == a);
                } else {
                    assert(t3.index_of(s@) == t2.index_of(s@));
                }
            }
            // reference-count deltas of the three interning steps
            assert forall|x: u32| true implies #[trigger] t3.rc(x) == t0.rc(x) + (if x == a {
                1nat
            } else {
                0nat
            }) + (if x == b {
                1nat
            } else {
                0nat
            }) + (if x == c {
                1nat
            } else {
                0nat
            }) by {
                assert(t1.rc(x) == t0.rc(x) + (if x == a {
                    1nat
                } else {
                    0nat
                })) by {
                    if x == a {
                        if t0.has_term(s@) {
                        } else {
                            assert(!t0.live(a));
                            assert(t0.rc(a) == 0);
                        }
                    }
                }
                assert(t2.rc(x) == t1.rc(x) + (if x == b {
                    1nat
                } else {
                    0nat
                })) by {
                    if x == b {
                        if t1.has_term(p@) {
                        } else {
                            assert(!t1.live(b));
                            assert(t1.rc(b) == 0);
                        }
                    }
                }
                assert(t3.rc(x) == t2.rc(x) + (if x == c {
                    1nat
                } else {
                    0nat
                })) by {
                    if x == c {
                        if t2.has_term(o@) {
                        } else {
                            assert(!t2.live(c));
                            assert(t2.rc(c) == 0);
                        }
                    }
                }
            }
            // liveness and terms of previously live handles are kept
            assert forall|x: u32| t0.live(x) implies t3.live(x) && t3.term_at(x) == t0.term_at(
                x,
            ) by {
                assert(t1.live(x) && t1.term_at(x) == t0.term_at(x)) by {
                    if x == a {
                        assert(t0.has_term(s@)) by {
                            if !t0.has_term(s@) {
                                assert(!t0.live(a));
                            }
                        }
                    }
                }
                assert(t2.live(x) && t2.term_at(x) == t1.term_at(x)) by {
                    if x == b {
                        assert(t1.has_term(p@)) by {
                            if !t1.has_term(p@) {
                                assert(!t1.live(b));
                            }
                        }
                    }
                }
                assert(t3.live(x) && t3.term_at(x) == t2.term_at(x)) by {
                    if x == c {
                        assert(t2.has_term(o@)) by {
                            if !t2.has_term(o@) {
                                assert(!t2.live(c));
                            }
                        }
                    }
                }
            }
            // presence and handles of existing terms are kept
            assert forall|u: Seq<char>| t0.has_term(u) implies #[trigger] t3.has_term(u)
                && t3.index_of(u) == t0.index_of(u) by {
                assert(t1.has_term(u) && t1.index_of(u) == t0.index_of(u)) by {
                    if u == s@ {
                    }
                }
                assert(t2.has_term(u) && t2.index_of(u) == t1.index_of(u)) by {
                    if u == p@ {
                    }
                }
                assert(t3.has_term(u) && t3.index_of(u) == t2.index_of(u)) by {
                    if u == o@ {
                    }
                }
            }
            // no term appears beyond the existing ones and the three inserted
            assert forall|u: Seq<char>| #[trigger] t3.has_term(u) && u != s@ && u != p@ && u != o@
                implies t0.has_term(u) by {
                assert(t2.has_term(u));
                assert(t1.has_term(u));
            }
            // the new handle-triple is not yet stored
            assert(!g0.triples@.contains(tr)) by {
                if g0.triples@.contains(tr) {
                    let q = choose|q: int| 0 <= q < g0.triples@.len() && g0.triples@[q] == tr;
                    assert(t0.live(tr.s) && t0.live(tr.p) && t0.live(tr.o));
                    assert(t0.live(a));
                    assert(t0.has_term(s@)) by {
                        if !t0.has_term(s@) {
                            assert(!t0.live(a));
                        }
                    }
                    assert(t0.index_of(s@) == a) by {
                        assert(t1.term_at(a) == s@);
                    }
                    assert(t0.live(b) && t0.has_term(p@) && t0.index_of(p@) == b) by {
                        if !t0.has_term(p@) {
                            assert(!t1.live(b));
                            assert(t1.live(tr.p));
                        }
                        assert(t1.has_term(p@) && t1.index_of(p@) == b);
                        assert(t1.index_of(p@) == t0.index_of(p@) || p@ == s@);
                    }
                    assert(t0.live(c) && t0.has_term(o@) && t0.index_of(o@) == c) by {
                        if !t0.has_term(o@) {
                            assert(!t2.live(c));
                            assert(t2.live(tr.o)) by {
                                assert(t0.live(tr.o));
                            }
                        }
                        assert(t2.has_term(o@) && t2.index_of(o@) == c);
                        assert(t2.index_of(o@) == t0.index_of(o@) || o@ == s@ || o@ == p@);
                    }
                    assert(graph_has(&g0, s@, p@, o@));
                    assert(false);
                }
            }
        }
        let ghost ts0 = self.triples@;
        self.triples.push(tr);
        let _cs = insert_in_index(&mut self.by_s, tr.s, tr);
        let _cp = insert_in_index(&mut self.by_p, tr.p, tr);
        let _co = insert_in_index(&mut self.by_o, tr.o, tr);
        proof {
            lemma_index_ok_insert(g0.by_s@, self.by_s@, ts0, tr, tr.s, 0);
            lemma_index_ok_insert(g0.by_p@, self.by_p@, ts0, tr, tr.p, 1);
            lemma_index_ok_insert(g0.by_o@, self.by_o@, ts0, tr, tr.o, 2);
            assert(self.triples@ == ts0.push(tr));
            assert(self.triples@.no_duplicates()) by {
                assert forall|q1: int, q2: int|
                    0 <= q1 < self.triples@.len() && 0 <= q2 < self.triples@.len() && q1
                        != q2 implies self.triples@[q1] != self.triples@[q2] by {
                    if q1 < ts0.len() && q2 < ts0.len() {
                        assert(ts0[q1] != ts0[q2]);
                    } else if q1 < ts0.len() {
                        assert(self.triples@[q2] == tr);
                        assert(ts0.contains(ts0[q1]));
                    } else {
                        assert(self.triples@[q1] == tr);
                        assert(ts0.contains(ts0[q2]));
                    }
                }
            }
            assert forall|h: u32| true implies #[trigger] self.table.rc(h) == occ(
                self.triples@,
                h,
            ) by {
                lemma_occ_push(ts0, tr, h);
                assert(t0.rc(h) == occ(ts0, h));
            }
            assert forall|j: int| 0 <= j < self.triples@.len() implies self.table.live(
                #[trigger] self.triples@[j].s,
            ) && self.table.live(self.triples@[j].p) && self.table.live(self.triples@[j].o) by {
                if j < ts0.len() {
                    assert(t0.live(ts0[j].s) && t0.live(ts0[j].p) && t0.live(ts0[j].o));
                }
            }
            assert(self.wf());
            // the inserted triple is present
            assert(graph_has(self, s@, p@, o@)) by {
                let j = ts0.len() as int;
                assert(self.stored()[j] == tr);
                assert(self.term_at(self.stored()[j].s) == s@);
                assert(self.term_at(self.stored()[j].p) == p@);
                assert(self.term_at(self.stored()[j].o) == o@);
            }
            // count change, term by term
            assert forall|u: Seq<char>| true implies #[trigger] trc(self, u) == trc(&g0, u)
                + occ_term(u, s@, p@, o@) by {
                if self.has_term(u) {
                    let j = t3.index_of(u);
                    assert(t3.live(j) && t3.term_at(j) == u);
                    assert((j == a) == (u == s@));
                    assert((j == b) == (u == p@));
                    assert((j == c) == (u == o@));
                    if t0.has_term(u) {
                        assert(t0.index_of(u) == j);
                        assert(trc(&g0, u) == t0.rc(j));
                    } else {
                        assert(u == s@ || u == p@ || u == o@);
                        assert(!t0.live(j)) by {
                            if t0.live(j) {
                                assert(t3.term_at(j) == t0.term_at(j));
                                assert(t0.has_term(t0.term_at(j)));
                            }
                        }
                        assert(t0.rc(j) == 0);
                        assert(trc(&g0, u) == 0);
                    }
                } else {
                    assert(!t0.has_term(u));
                    assert(u != s@ && u != p@ && u != o@);
                }
            }
        }
        Some(tr)
    }

    #[verifier::rlimit(100)]
    fn remove_indexed(&mut self, s: &Term, p: &Term, o: &Term) -> (r: Option<IndexTriple<u32>>) {
        proof {
            old(self).lemma_graph_has_iff(s@, p@, o@);
            old(self).table.lemma_interning_bijection();
        }
        let si = self.table.get_index(s);
        let pi = self.table.get_index(p);
        let oi = self.table.get_index(o);
        let (a, b, c) = match (si, pi, oi) {
            (Some(a), Some(b), Some(c)) => (a, b, c),
            _ => {
                proof {
                    assert(!graph_has(old(self), s@, p@, o@));
                }
                return None;
            },
        };
        let tr = IndexTriple { s: a, p: b, o: c };
        let pos = match find_triple(&self.triples, tr) {
            Some(j) => j,
            None => {
                proof {
                    assert(!graph_has(old(self), s@, p@, o@));
                }
                return None;
            },
        };
        let ghost g0 = *self;
        let ghost t0 = self.table;
        let ghost ts0 = self.triples@;
        proof {
            assert(graph_has(&g0, s@, p@, o@));
            ts0.lemma_multiset_has_no_duplicates();
            assert(ts0.to_multiset().count(tr) == 1) by {
                assert(ts0.contains(tr));
            }
        }
        self.triples.swap_remove(pos);
        let ghost ts1 = self.triples@;
        proof {
            lemma_swap_remove_multiset(ts0, pos as int);
            assert(ts1.to_multiset() =~= ts0.to_multiset().remove(tr));
            assert(!ts1.contains(tr)) by {
                assert(ts1.to_multiset().count(tr) == 0);
            }
            assert(ts1.no_duplicates()) by {
                assert forall|x: IndexTriple<u32>|
                    ts1.to_multiset().contains(x) implies ts1.to_multiset().count(x) == 1 by {
                    assert(ts0.to_multiset().count(x) >= ts1.to_multiset().count(x));
                    assert(ts0.to_multiset().contains(x));
                }
                ts1.lemma_multiset_has_no_duplicates_conv();
            }
            // justify the index removals
            lemma_bucket_mem(ts0, pos as int, tr.s, 0);
            lemma_bucket_mem(ts0, pos as int, tr.p, 1);
            lemma_bucket_mem(ts0, pos as int, tr.o, 2);
            assert(g0.by_s@.contains_key(tr.s) && g0.by_s@[tr.s]@.contains(tr)) by {
                assert(g0.by_s@[tr.s]@.to_multiset().count(tr) >= 1);
            }
            assert(g0.by_p@.contains_key(tr.p) && g0.by_p@[tr.p]@.contains(tr)) by {
                assert(g0.by_p@[tr.p]@.to_multiset().count(tr) >= 1);
            }
            assert(g0.by_o@.contains_key(tr.o) && g0.by_o@[tr.o]@.contains(tr)) by {
                assert(g0.by_o@[tr.o]@.to_multiset().count(tr) >= 1);
            }
        }
        let _ds = remove_from_index(&mut self.by_s, tr.s, tr);
        let _dp = remove_from_index(&mut self.by_p, tr.p, tr);
        let _do = remove_from_index(&mut self.by_o, tr.o, tr);
        proof {
            lemma_index_ok_remove(g0.by_s@, self.by_s@, ts0, pos as int, tr.s, 0);
            lemma_index_ok_remove(g0.by_p@, self.by_p@, ts0, pos as int, tr.p, 1);
            lemma_index_ok_remove(g0.by_o@, self.by_o@, ts0, pos as int, tr.o, 2);
            t0.lemma_interning_bijection();
            assert forall|h: u32| true implies #[trigger] occ(ts1, h) + occ_in(tr, h) == occ(
                ts0,
                h,
            ) by {
                lemma_occ_swap_remove(ts0, pos as int, h);
            }
            // the first component is live for the release
            assert(t0.live(a) && t0.rc(a) >= occ_in(tr, a)) by {
                lemma_occ_mem(ts0, pos as int, a);
            }
            assert(t0.rc(b) >= occ_in(tr, b)) by {
                lemma_occ_mem(ts0, pos as int, b);
            }
            assert(t0.rc(c) >= occ_in(tr, c)) by {
                lemma_occ_mem(ts0, pos as int, c);
            }
        }
        self.table.dec_ref(a);
        let ghost t1 = self.table;
        proof {
            t1.lemma_interning_bijection();
            assert(t1.rc(b) >= 1) by {
                assert(t1.rc(b) + (if b == a {
                    1nat
                } else {
                    0nat
                }) == t0.rc(b));
                assert(occ_in(tr, b) >= 1 + (if b == a {
                    1nat
                } else {
                    0nat
                }));
            }
            assert(t1.live(b));
        }
        self.table.dec_ref(b);
        let ghost t2 = self.table;
        proof {
            t2.lemma_interning_bijection();
            assert(t2.rc(c) >= 1) by {
                assert(t1.rc(c) + (if c == a {
                    1nat
                } else {
                    0nat
                }) == t0.rc(c));
                assert(t2.rc(c) + (if c == b {
                    1nat
                } else {
                    0nat
                }) == t1.rc(c));
                assert(occ_in(tr, c) >= 1 + (if c == a {
                    1nat
                } else {
                    0nat
                }) + (if c == b {
                    1nat
                } else {
                    0nat
                }));
            }
            assert(t2.live(c));
        }
        self.table.dec_ref(c);
        let ghost t3 = self.table;
        proof {
            t3.lemma_interning_bijection();
            // reference-count deltas of the three releases
            assert forall|x: u32| true implies #[trigger] t3.rc(x) + occ_in(tr, x) == t0.rc(x) by {
                assert(t1.rc(x) + (if x == a {
                    1nat
                } else {
                    0nat
                }) == t0.rc(x));
                assert(t2.rc(x) + (if x == b {
                    1nat
                } else {
                    0nat
                }) == t1.rc(x));
                assert(t3.rc(x) + (if x == c {
                    1nat
                } else {
                    0nat
                }) == t2.rc(x));
            }
            // handles of surviving terms are kept
            assert forall|u: Seq<char>| #[trigger] t3.has_term(u) implies t0.has_term(u)
                && t3.index_of(u) == t0.index_of(u) by {
                assert(t2.has_term(u)) by {
                    if !t2.has_term(u) {
                        assert(u == t2.term_at(c));
                    }
                }
                assert(t1.has_term(u) && t2.index_of(u) == t1.index_of(u)) by {
                    if !t1.has_term(u) {
                        assert(u == t1.term_at(b));
                    }
                }
                assert(t0.has_term(u) && t1.index_of(u) == t0.index_of(u)) by {
                    if !t0.has_term(u) {
                        assert(u == t0.term_at(a));
                    }
                }
                assert(t3.index_of(u) == t2.index_of(u));
            }
            // well-formedness of the shrunken graph
            assert forall|h: u32| true implies #[trigger] t3.rc(h) == occ(ts1, h) by {
                assert(t0.rc(h) == occ(ts0, h));
            }
            assert forall|j: int| 0 <= j < ts1.len() implies t3.live(#[trigger] ts1[j].s)
                && t3.live(ts1[j].p) && t3.live(ts1[j].o) by {
                lemma_occ_mem(ts1, j, ts1[j].s);
                lemma_occ_mem(ts1, j, ts1[j].p);
                lemma_occ_mem(ts1, j, ts1[j].o);
                assert(t3.rc(ts1[j].s) >= 1);
                assert(t3.rc(ts1[j].p) >= 1);
                assert(t3.rc(ts1[j].o) >= 1);
            }
            assert(self.wf());
            // the triple is gone
            assert(!graph_has(self, s@, p@, o@)) by {
                self.lemma_graph_has_iff(s@, p@, o@);
                if self.table.has_term(s@) && self.table.has_term(p@) && self.table.has_term(o@) {
                    assert(self.table.index_of(s@) == a);
                    assert(self.table.index_of(p@) == b);
                    assert(self.table.index_of(o@) == c);
                    assert(!ts1.contains(tr));
                }
            }
            // count change, term by term
            assert forall|u: Seq<char>| true implies #[trigger] trc(self, u) + occ_term(
                u,
                s@,
                p@,
                o@,
            ) == trc(&g0, u) by {
                if t0.has_term(u) {
                    let j = t0.index_of(u);
                    assert(t0.live(j) && t0.term_at(j) == u);
                    assert((j == a) == (u == s@));
                    assert((j == b) == (u == p@));
                    assert((j == c) == (u == o@));
                    assert(occ_in(tr, j) == occ_term(u, s@, p@, o@));
                    assert(t3.rc(j) + occ_term(u, s@, p@, o@) == t0.rc(j));
                    if t3.has_term(u) {
                        assert(t3.index_of(u) == j);
                        assert(trc(self, u) == t3.rc(j));
                    } else {
                        assert(t3.rc(j) == 0) by {
                            if t3.live(j) {
                                assert(t3.term_at(j) == t0.term_at(j)) by {
                                    assert(t3.has_term(t3.term_at(j)));
                                }
                            }
                        }
                        assert(trc(self, u) == 0);
                    }
                } else {
                    assert(!t3.has_term(u));
                    assert(u != s@ && u != p@ && u != o@);
                }
            }
        }
        Some(tr)
    }

    fn shrink_to_fit(&mut self) {
        self.table.shrink_to_fit();
        shrink_triple_vec(&mut self.triples);
        shrink_index_map(&mut self.by_s);
        shrink_index_map(&mut self.by_p);
        shrink_index_map(&mut self.by_o);
        proof {
            assert forall|h: u32| true implies #[trigger] self.table.rc(h) == occ(
                self.triples@,
                h,
            ) by {
                assert(old(self).table.rc(h) == occ(old(self).triples@, h));
            }
        }
    }
}

impl HashGraph {
    /// Insert reported as a boolean: true exactly when the triple was
    /// newly added. This read/write adaptation never fails.
    pub fn insert(&mut self, s: &Term, p: &Term, o: &Term) -> (r: bool)
        requires
            old(self).wf(),
            trc(old(self), s@) + 3 <= u64::MAX,
            trc(old(self), p@) + 3 <= u64::MAX,
            trc(old(self), o@) + 3 <= u64::MAX,
            old(self).num_live() + 3 <= old(self).capacity(),
        ensures
            final(self).wf(),
            r == !graph_has(old(self), s@, p@, o@),
            graph_has(final(self), s@, p@, o@),
            !r ==> *final(self) == *old(self),
            r ==> forall|u: Seq<char>|
                #![trigger trc(final(self), u)]
                trc(final(self), u) == trc(old(self), u) + occ_term(u, s@, p@, o@),
    {
        let r = self.insert_indexed(s, p, o);
        proof {
            if r is None {
                assert(graph_has(old(self), s@, p@, o@));
            }
        }
        r.is_some()
    }

    /// Removal reported as a boolean: true exactly when a matching triple
    /// was found and removed. This read/write adaptation never fails.
    pub fn remove(&mut self, s: &Term, p: &Term, o: &Term) -> (r: bool)
        requires
            old(self).wf(),
        ensures
            final(self).wf(),
            r == graph_has(old(self), s@, p@, o@),
            !graph_has(final(self), s@, p@, o@),
            !r ==> *final(self) == *old(self),
            r ==> forall|u: Seq<char>|
                #![trigger trc(final(self), u)]
                trc(final(self), u) + occ_term(u, s@, p@, o@) == trc(old(self), u),
    {
        let r = self.remove_indexed(s, p, o);
        r.is_some()
    }
}

/// A triple whose three positions hold one and the same term accounts for
/// exactly three occurrences of it: together with the insertion and
/// removal contracts, interning such a triple raises that term's count by
/// exactly three, and removing it lowers it by exactly three.
pub proof fn lemma_same_term_three_occurrences(u: Seq<char>)
    ensures
        occ_term(u, u, u, u) == 3,
{
}

/// A term resolves in a well-formed graph exactly while its handle is
/// referenced: its count, the number of stored component occurrences, is
/// positive.
pub proof fn lemma_resolvable_iff_referenced<G: GraphModel>(g: &G, u: Seq<char>)
    requires
        g.wf(),
    ensures
        g.has_term(u) <==> trc(g, u) > 0,
{
    g.lemma_graph_bijection();
}

} // verus!
