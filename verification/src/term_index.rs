//! Reference-counted interning of terms.
//!
//! A `TermIndexMap` is a bidirectional mapping between terms and compact
//! handles of a copyable index type. Every live handle carries a reference
//! count; a handle is reclaimed exactly when its count reaches zero. One
//! reserved handle, the null index, is never associated with any term and
//! serves as an "absent" sentinel.

use vstd::prelude::*;

use crate::term::Term;

verus! {

/// The abstract observables of an interning table, shared by its
/// operations' contracts:
/// - `live(i)`: handle `i` currently maps to a term;
/// - `term_at(i)`: the term mapped by a live handle (empty otherwise);
/// - `rc(i)`: the reference count of `i` (zero exactly when not live);
/// - `has_term(t)` / `index_of(t)`: the reverse mapping;
/// - `num_live()` / `capacity()`: how many handles are live, and how many
///   can ever be live at once (`capacity` never changes).
pub trait InterningModel: Sized {
    /// The copyable handle type used to represent terms.
    type Index: Copy;

    /// The reserved handle that is never mapped to any term.
    spec fn null_spec() -> Self::Index;

    /// Structural well-formedness; established by constructors and
    /// preserved by every operation.
    spec fn wf(&self) -> bool;

    /// Does handle `i` currently map to a term?
    spec fn live(&self, i: Self::Index) -> bool;

    /// The term mapped by `i`, as a character sequence (empty if not live).
    spec fn term_at(&self, i: Self::Index) -> Seq<char>;

    /// The reference count of handle `i` (zero if not live).
    spec fn rc(&self, i: Self::Index) -> nat;

    /// Is some live handle mapped to the term `t`?
    spec fn has_term(&self, t: Seq<char>) -> bool;

    /// The handle mapped to term `t`, when `has_term(t)`.
    spec fn index_of(&self, t: Seq<char>) -> Self::Index;

    /// Number of currently live handles.
    spec fn num_live(&self) -> nat;

    /// How many handles can be live at once; constant across operations.
    spec fn capacity(&self) -> nat;

    /// The mapping between live handles and terms is a bijection, live
    /// handles are exactly those with a positive count, and the null
    /// index is never live.
    proof fn lemma_interning_bijection(&self)
        requires
            self.wf(),
        ensures
            forall|i: Self::Index| #[trigger] self.live(i) ==> self.has_term(self.term_at(i))
                && self.index_of(self.term_at(i)) == i,
            forall|i: Self::Index| #[trigger] self.live(i) ==> i != Self::null_spec(),
            forall|t: Seq<char>| #[trigger] self.has_term(t) ==> self.live(self.index_of(t))
                && self.term_at(self.index_of(t)) == t,
            forall|i: Self::Index| #[trigger] self.live(i) <==> self.rc(i) >= 1,
            forall|i: Self::Index| !(#[trigger] self.live(i)) ==> self.rc(i) == 0;
}

/// A bidirectional mapping between terms and handles ("indexes") of a
/// smaller copyable type, maintaining a reference count for each handle.
pub trait TermIndexMap: InterningModel {
    /// The reserved null index as an executable value.
    fn null_index() -> (i: Self::Index)
        ensures
            i == Self::null_spec();

    /// Return the index associated to the given term, if it exists.
    /// Pure lookup: no side effect.
    fn get_index(&self, t: &Term) -> (r: Option<Self::Index>)
        requires
            self.wf(),
        ensures
            match r {
                Some(i) => self.has_term(t@) && i == self.index_of(t@),
                None => !self.has_term(t@),
            };

    /// Return the index associated to the given term, creating it if
    /// required, and increasing its reference count.
    fn make_index(&mut self, t: &Term) -> (i: Self::Index)
        requires
            old(self).wf(),
            old(self).has_term(t@) ==> old(self).rc(old(self).index_of(t@)) < u64::MAX,
            !old(self).has_term(t@) ==> old(self).num_live() < old(self).capacity(),
        ensures
            final(self).wf(),
            make_index_post(old(self), final(self), t@, i);

    /// Return the term associated to the given index, if it exists.
    /// The null index, or any dead handle, yields nothing.
    fn get_term(&self, i: Self::Index) -> (r: Option<&Term>)
        requires
            self.wf(),
        ensures
            match r {
                Some(t) => self.live(i) && t@ == self.term_at(i),
                None => !self.live(i),
            };

    /// Increase the reference count of a live (hence non-null) index.
    fn inc_ref(&mut self, i: Self::Index)
        requires
            old(self).wf(),
            old(self).live(i),
            old(self).rc(i) < u64::MAX,
        ensures
            final(self).wf(),
            inc_ref_post(old(self), final(self), i);

    /// Decrease the reference count of a live (hence non-null) index;
    /// when the count reaches zero the entry is removed entirely and the
    /// handle becomes eligible for reuse.
    fn dec_ref(&mut self, i: Self::Index)
        requires
            old(self).wf(),
            old(self).live(i),
        ensures
            final(self).wf(),
            dec_ref_post(old(self), final(self), i);

    /// Release unused backing capacity. A no-op with respect to every
    /// observable of the mapping.
    fn shrink_to_fit(&mut self)
        requires
            old(self).wf(),
        ensures
            final(self).wf(),
            observables_equal(old(self), final(self));
}

/// Handles other than `i` keep their liveness, term and count.
pub open spec fn unchanged_except<T: InterningModel>(pre: &T, post: &T, i: T::Index) -> bool {
    &&& forall|j: T::Index|
        #![trigger post.live(j)]
        #![trigger pre.live(j)]
        j != i ==> post.live(j) == pre.live(j)
    &&& forall|j: T::Index|
        #![trigger post.term_at(j)]
        #![trigger pre.term_at(j)]
        j != i ==> post.term_at(j) == pre.term_at(j)
    &&& forall|j: T::Index|
        #![trigger post.rc(j)]
        #![trigger pre.rc(j)]
        j != i ==> post.rc(j) == pre.rc(j)
}

/// Terms other than `t` keep their presence and their handle.
pub open spec fn terms_unchanged_except<T: InterningModel>(pre: &T, post: &T, t: Seq<char>) -> bool {
    &&& forall|u: Seq<char>|
        #![trigger post.has_term(u)]
        #![trigger pre.has_term(u)]
        u != t ==> post.has_term(u) == pre.has_term(u)
    &&& forall|u: Seq<char>|
        #![trigger post.index_of(u)]
        #![trigger pre.index_of(u)]
        u != t && pre.has_term(u) ==> post.index_of(u) == pre.index_of(u)
}

/// No observable of the mapping changed at all.
pub open spec fn observables_equal<T: InterningModel>(pre: &T, post: &T) -> bool {
    &&& forall|j: T::Index|
        #![trigger post.live(j)]
        #![trigger pre.live(j)]
        post.live(j) == pre.live(j)
    &&& forall|j: T::Index|
        #![trigger post.term_at(j)]
        #![trigger pre.term_at(j)]
        post.term_at(j) == pre.term_at(j)
    &&& forall|j: T::Index|
        #![trigger post.rc(j)]
        #![trigger pre.rc(j)]
        post.rc(j) == pre.rc(j)
    &&& forall|u: Seq<char>|
        #![trigger post.has_term(u)]
        #![trigger pre.has_term(u)]
        post.has_term(u) == pre.has_term(u)
    &&& forall|u: Seq<char>|
        #![trigger post.index_of(u)]
        #![trigger pre.index_of(u)]
        pre.has_term(u) ==> post.index_of(u) == pre.index_of(u)
    &&& post.num_live() == pre.num_live()
    &&& post.capacity() == pre.capacity()
}

/// What `make_index` does: the term `t` is mapped under the returned
/// non-null handle; if it was already present its count went up by one
/// under its existing handle, otherwise a dead handle was allocated with
/// count one. Nothing else changed.
pub open spec fn make_index_post<T: InterningModel>(
    pre: &T,
    post: &T,
    t: Seq<char>,
    i: T::Index,
) -> bool {
    &&& post.live(i)
    &&& post.term_at(i) == t
    &&& post.has_term(t)
    &&& post.index_of(t) == i
    &&& i != T::null_spec()
    &&& post.capacity() == pre.capacity()
    &&& (if pre.has_term(t) {
        &&& i == pre.index_of(t)
        &&& post.rc(i) == pre.rc(i) + 1
        &&& post.num_live() == pre.num_live()
    } else {
        &&& !pre.live(i)
        &&& post.rc(i) == 1
        &&& post.num_live() == pre.num_live() + 1
    })
    &&& unchanged_except(pre, post, i)
    &&& terms_unchanged_except(pre, post, t)
}

/// What `inc_ref` does: one more reference to `i`, nothing else changed.
pub open spec fn inc_ref_post<T: InterningModel>(pre: &T, post: &T, i: T::Index) -> bool {
    &&& post.live(i)
    &&& post.term_at(i) == pre.term_at(i)
    &&& post.rc(i) == pre.rc(i) + 1
    &&& post.num_live() == pre.num_live()
    &&& post.capacity() == pre.capacity()
    &&& unchanged_except(pre, post, i)
    &&& forall|u: Seq<char>|
        #![trigger post.has_term(u)]
        #![trigger pre.has_term(u)]
        post.has_term(u) == pre.has_term(u)
    &&& forall|u: Seq<char>|
        #![trigger post.index_of(u)]
        #![trigger pre.index_of(u)]
        pre.has_term(u) ==> post.index_of(u) == pre.index_of(u)
}

/// What `dec_ref` does: one fewer reference to `i`; if the count was one,
/// the entry is gone and its term no longer resolves. Nothing else changed.
pub open spec fn dec_ref_post<T: InterningModel>(pre: &T, post: &T, i: T::Index) -> bool {
    &&& post.rc(i) == pre.rc(i) - 1
    &&& post.capacity() == pre.capacity()
    &&& (if pre.rc(i) > 1 {
        &&& post.live(i)
        &&& post.term_at(i) == pre.term_at(i)
        &&& post.num_live() == pre.num_live()
        &&& forall|u: Seq<char>|
            #![trigger post.has_term(u)]
            #![trigger pre.has_term(u)]
            post.has_term(u) == pre.has_term(u)
        &&& forall|u: Seq<char>|
            #![trigger post.index_of(u)]
            #![trigger pre.index_of(u)]
            pre.has_term(u) ==> post.index_of(u) == pre.index_of(u)
    } else {
        &&& !post.live(i)
        &&& !post.has_term(pre.term_at(i))
        &&& post.num_live() == pre.num_live() - 1
        &&& terms_unchanged_except(pre, post, pre.term_at(i))
    })
    &&& unchanged_except(pre, post, i)
}

/// Number of occupied slots in a slot sequence.
spec fn live_slots(s: Seq<Option<Term>>) -> nat
    decreases s.len(),
{
    if s.len() == 0 {
        0
    } else {
        live_slots(s.drop_last()) + (if s.last() is Some {
            1nat
        } else {
            0nat
        })
    }
}

proof fn lemma_live_slots_push(s: Seq<Option<Term>>, v: Option<Term>)
    ensures
        live_slots(s.push(v)) == live_slots(s) + (if v is Some {
            1nat
        } else {
            0nat
        }),
{
    assert(s.push(v).drop_last() =~= s);
    assert(s.push(v).last() == v);
}

proof fn lemma_live_slots_update(s: Seq<Option<Term>>, k: int, v: Option<Term>)
    requires
        0 <= k < s.len(),
    ensures
        live_slots(s.update(k, v)) + (if s[k] is Some {
            1nat
        } else {
            0nat
        }) == live_slots(s) + (if v is Some {
            1nat
        } else {
            0nat
        }),
    decreases s.len(),
{
    if k == s.len() - 1 {
        assert(s.update(k, v).drop_last() =~= s.drop_last());
        assert(s.update(k, v).last() == v);
    } else {
        assert(s.update(k, v).drop_last() =~= s.drop_last().update(k, v));
        assert(s.update(k, v).last() == s.last());
        lemma_live_slots_update(s.drop_last(), k, v);
    }
}

proof fn lemma_live_slots_full(s: Seq<Option<Term>>)
    requires
        forall|j: int| 0 <= j < s.len() ==> (#[trigger] s[j]) is Some,
    ensures
        live_slots(s) == s.len(),
    decreases s.len(),
{
    if s.len() > 0 {
        lemma_live_slots_full(s.drop_last());
    }
}

proof fn lemma_live_slots_trailing_none(s: Seq<Option<Term>>, m: int)
    requires
        0 <= m <= s.len(),
        forall|j: int| m <= j < s.len() ==> (#[trigger] s[j]) is None,
    ensures
        live_slots(s.subrange(0, m)) == live_slots(s),
    decreases s.len() - m,
{
    if m == s.len() {
        assert(s.subrange(0, m) =~= s);
    } else {
        assert(s.drop_last() =~= s.subrange(0, s.len() - 1));
        assert(s.subrange(0, m) =~= s.drop_last().subrange(0, m));
        lemma_live_slots_trailing_none(s.drop_last(), m);
    }
}

/// Reference-counted interning table with `u32` handles. Handle `0` is the
/// reserved null index; handle `h >= 1` is backed by slot `h - 1`. A freed
/// slot is reused by a later allocation, so handle values are not stable
/// across frees.
pub struct TermTable {
    slots: Vec<Option<Term>>,
    counts: Vec<u64>,
}

impl TermTable {
    /// A fresh, empty table.
    pub fn new() -> (t: TermTable)
        ensures
            t.wf(),
            t.num_live() == 0,
            t.capacity() == u32::MAX - 1,
            forall|i: u32| !(#[trigger] t.live(i)),
            forall|i: u32| #[trigger] t.rc(i) == 0,
            forall|u: Seq<char>| !(#[trigger] t.has_term(u)),
    {
        let t = TermTable { slots: Vec::new(), counts: Vec::new() };
        proof {
            assert forall|u: Seq<char>| !(#[trigger] t.has_term(u)) by {
                assert(forall|i: u32| !(#[trigger] t.live(i)));
            }
        }
        t
    }

    /// Exactly one live handle maps to a given term: any live handle whose
    /// term is `t` is the handle `index_of(t)`.
    proof fn lemma_unique_index(&self, t: Seq<char>, h: u32)
        requires
            self.wf(),
            self.live(h),
            self.term_at(h) == t,
        ensures
            self.has_term(t),
            self.index_of(t) == h,
    {
        assert(self.has_term(t));
        let h2 = self.index_of(t);
        assert(self.live(h2) && self.term_at(h2) == t);
        if h2 != h {
            assert(self.slots@[h - 1] is Some && self.slots@[h2 - 1] is Some);
            assert(self.slots@[h - 1].unwrap()@ == self.slots@[h2 - 1].unwrap()@);
            assert(false);
        }
    }

    /// Two tables with equal slot sequences expose the same term mapping.
    proof fn lemma_same_slots(a: &TermTable, b: &TermTable)
        requires
            a.wf(),
            b.wf(),
            a.slots@ == b.slots@,
        ensures
            forall|j: u32| #![trigger a.live(j)] #![trigger b.live(j)] a.live(j) == b.live(j),
            forall|j: u32|
                #![trigger a.term_at(j)]
                #![trigger b.term_at(j)]
                a.term_at(j) == b.term_at(j),
            forall|u: Seq<char>|
                #![trigger a.has_term(u)]
                #![trigger b.has_term(u)]
                a.has_term(u) == b.has_term(u),
            forall|u: Seq<char>|
                #![trigger a.index_of(u)]
                #![trigger b.index_of(u)]
                a.has_term(u) ==> b.index_of(u) == a.index_of(u),
    {
        assert forall|u: Seq<char>| a.has_term(u) implies b.has_term(u) by {
            let j = choose|j: u32| #[trigger] a.live(j) && a.term_at(j) == u;
            assert(b.live(j) && b.term_at(j) == u);
        }
        assert forall|u: Seq<char>| b.has_term(u) implies a.has_term(u) by {
            let j = choose|j: u32| #[trigger] b.live(j) && b.term_at(j) == u;
            assert(a.live(j) && a.term_at(j) == u);
        }
        assert forall|u: Seq<char>| a.has_term(u) implies b.index_of(u) == a.index_of(u) by {
            let j = a.index_of(u);
            assert(a.live(j) && a.term_at(j) == u);
            assert(b.live(j) && b.term_at(j) == u);
            b.lemma_unique_index(u, j);
            a.lemma_unique_index(u, j);
        }
    }
}

impl Default for TermTable {
    fn default() -> (t: TermTable)
        ensures
            t.wf(),
            t.num_live() == 0,
            t.capacity() == u32::MAX - 1,
            forall|i: u32| !(#[trigger] t.live(i)),
            forall|u: Seq<char>| !(#[trigger] t.has_term(u)),
    {
        TermTable::new()
    }
}

impl InterningModel for TermTable {
    type Index = u32;

    open spec fn null_spec() -> u32 {
        0
    }

    closed spec fn wf(&self) -> bool {
        &&& self.counts@.len() == self.slots@.len()
        &&& self.slots@.len() < u32::MAX
        &&& forall|k: int|
            #![trigger self.slots@[k]]
            #![trigger self.counts@[k]]
            0 <= k < self.slots@.len() ==> (self.slots@[k] is Some <==> self.counts@[k] >= 1)
        &&& forall|k1: int, k2: int|
            #![trigger self.slots@[k1], self.slots@[k2]]
            0 <= k1 < self.slots@.len() && 0 <= k2 < self.slots@.len() && k1 != k2
                && self.slots@[k1] is Some && self.slots@[k2] is Some
                ==> self.slots@[k1].unwrap()@ != self.slots@[k2].unwrap()@
    }

    closed spec fn live(&self, i: u32) -> bool {
        1 <= i <= self.slots@.len() && self.slots@[i - 1] is Some
    }

    closed spec fn term_at(&self, i: u32) -> Seq<char> {
        if self.live(i) {
            self.slots@[i - 1].unwrap()@
        } else {
            Seq::empty()
        }
    }

    closed spec fn rc(&self, i: u32) -> nat {
        if self.live(i) {
            self.counts@[i - 1] as nat
        } else {
            0
        }
    }

    closed spec fn has_term(&self, t: Seq<char>) -> bool {
        exists|i: u32| #[trigger] self.live(i) && self.term_at(i) == t
    }

    closed spec fn index_of(&self, t: Seq<char>) -> u32 {
        choose|i: u32| #[trigger] self.live(i) && self.term_at(i) == t
    }

    closed spec fn num_live(&self) -> nat {
        live_slots(self.slots@)
    }

    closed spec fn capacity(&self) -> nat {
        (u32::MAX - 1) as nat
    }

    proof fn lemma_interning_bijection(&self) {
        assert forall|i: u32| #[trigger] self.live(i) implies self.has_term(self.term_at(i))
            && self.index_of(self.term_at(i)) == i by {
            self.lemma_unique_index(self.term_at(i), i);
        }
        assert forall|t: Seq<char>| #[trigger] self.has_term(t) implies self.live(self.index_of(t))
            && self.term_at(self.index_of(t)) == t by {
            let i = self.index_of(t);
            assert(self.live(i) && self.term_at(i) == t);
        }
    }
}

impl TermIndexMap for TermTable {
    fn null_index() -> (i: u32) {
        0
    }

    fn get_index(&self, t: &Term) -> (r: Option<u32>) {
        let n = self.slots.len();
        let mut k: usize = 0;
        while k < n
            invariant
                self.wf(),
                n == self.slots@.len(),
                k <= n,
                forall|j: int|
                    0 <= j < k ==> !((#[trigger] self.slots@[j]) is Some
                        && self.slots@[j].unwrap()@ == t@),
            decreases n - k,
        {
            match &self.slots[k] {
                Some(u) => {
                    if u.eq_term(t) {
                        let h = (k as u32) + 1;
                        proof {
                            assert(self.live(h));
                            assert(self.term_at(h) == t@);
                            self.lemma_unique_index(t@, h);
                        }
                        return Some(h);
                    }
                },
                None => {},
            }
            k += 1;
        }
        proof {
            if self.has_term(t@) {
                let h = choose|i: u32| #[trigger] self.live(i) && self.term_at(i) == t@;
                assert(self.slots@[h - 1] is Some && self.slots@[h - 1].unwrap()@ == t@);
            }
        }
        None
    }

    fn make_index(&mut self, t: &Term) -> (i: u32) {
        let existing = self.get_index(t);
        match existing {
            Some(h) => {
                proof {
                    old(self).lemma_interning_bijection();
                }
                let k = (h - 1) as usize;
                let c = self.counts[k];
                self.counts.set(k, c + 1);
                proof {
                    assert(self.wf());
                    TermTable::lemma_same_slots(old(self), self);
                    assert(self.rc(h) == old(self).rc(h) + 1);
                }
                h
            },
            None => {
                let n = self.slots.len();
                let mut free: usize = n;
                let mut k: usize = 0;
                while k < n
                    invariant
                        *self == *old(self),
                        self.wf(),
                        n == self.slots@.len(),
                        k <= n,
                        free == n || (free < n && self.slots@[free as int] is None),
                        free == n ==> forall|j: int|
                            0 <= j < k ==> (#[trigger] self.slots@[j]) is Some,
                    decreases n - k,
                {
                    if free == n {
                        match &self.slots[k] {
                            Some(_) => {},
                            None => {
                                free = k;
                            },
                        }
                    }
                    k += 1;
                }
                proof {
                    // the new term is in no occupied slot
                    assert forall|j: int|
                        0 <= j < self.slots@.len() && (#[trigger] self.slots@[j]) is Some implies
                        self.slots@[j].unwrap()@ != t@ by {
                        let h = (j + 1) as u32;
                        assert(self.live(h));
                        if self.slots@[j].unwrap()@ == t@ {
                            assert(self.term_at(h) == t@);
                            assert(self.has_term(t@));
                        }
                    }
                }
                if free < n {
                    let ghost pre = *self;
                    self.slots.set(free, Some(t.clone()));
                    self.counts.set(free, 1);
                    let h = (free as u32) + 1;
                    proof {
                        lemma_live_slots_update(pre.slots@, free as int, self.slots@[free as int]);
                        assert(self.live(h) && self.term_at(h) == t@);
                        self.lemma_unique_index(t@, h);
                        assert_make_fresh_post(&pre, self, t@, h, free as int);
                    }
                    h
                } else {
                    proof {
                        lemma_live_slots_full(self.slots@);
                    }
                    let ghost pre = *self;
                    self.slots.push(Some(t.clone()));
                    self.counts.push(1);
                    let h = self.slots.len() as u32;
                    proof {
                        lemma_live_slots_push(pre.slots@, self.slots@.last());
                        assert(self.slots@[n as int] is Some);
                        assert(self.live(h) && self.term_at(h) == t@);
                        self.lemma_unique_index(t@, h);
                        assert_make_fresh_post(&pre, self, t@, h, n as int);
                    }
                    h
                }
            },
        }
    }

    fn get_term(&self, i: u32) -> (r: Option<&Term>) {
        if 1 <= i && (i as usize) <= self.slots.len() {
            match &self.slots[(i - 1) as usize] {
                Some(u) => Some(u),
                None => None,
            }
        } else {
            None
        }
    }

    fn inc_ref(&mut self, i: u32) {
        let k = (i - 1) as usize;
        let c = self.counts[k];
        self.counts.set(k, c + 1);
        proof {
            assert(self.wf());
            TermTable::lemma_same_slots(old(self), self);
        }
    }

    fn dec_ref(&mut self, i: u32) {
        let k = (i - 1) as usize;
        let c = self.counts[k];
        if c == 1 {
            let ghost pre = *self;
            self.slots.set(k, None);
            self.counts.set(k, 0);
            proof {
                lemma_live_slots_update(pre.slots@, k as int, None);
                let t = pre.term_at(i);
                // the freed term resolves nowhere else
                if self.has_term(t) {
                    let h2 = choose|j: u32| #[trigger] self.live(j) && self.term_at(j) == t;
                    assert(h2 != i);
                    assert(pre.live(h2) && pre.term_at(h2) == t);
                    assert(pre.slots@[h2 - 1].unwrap()@ == pre.slots@[i - 1].unwrap()@);
                    assert(false);
                }
                assert forall|u: Seq<char>| u != t implies (self.has_term(u) == pre.has_term(
                    u,
                )) by {
                    if pre.has_term(u) {
                        let j = pre.index_of(u);
                        assert(pre.live(j) && pre.term_at(j) == u);
                        assert(j != i);
                        assert(self.live(j) && self.term_at(j) == u);
                    }
                    if self.has_term(u) {
                        let j = choose|j: u32| #[trigger] self.live(j) && self.term_at(j) == u;
                        assert(j != i);
                        assert(pre.live(j) && pre.term_at(j) == u);
                    }
                }
                assert forall|u: Seq<char>| u != t && pre.has_term(u) implies self.index_of(u)
                    == pre.index_of(u) by {
                    let j = pre.index_of(u);
                    assert(pre.live(j) && pre.term_at(j) == u);
                    assert(j != i);
                    assert(self.live(j) && self.term_at(j) == u);
                    self.lemma_unique_index(u, j);
                }
            }
        } else {
            self.counts.set(k, c - 1);
            proof {
                assert(self.wf());
                TermTable::lemma_same_slots(old(self), self);
            }
        }
    }

    fn shrink_to_fit(&mut self) {
        let ghost orig = *self;
        while self.slots.len() > 0 && self.slots[self.slots.len() - 1].is_none()
            invariant
                orig.wf(),
                self.counts@.len() == self.slots@.len(),
                self.slots@.len() <= orig.slots@.len(),
                forall|j: int|
                    0 <= j < self.slots@.len() ==> #[trigger] self.slots@[j] == orig.slots@[j],
                forall|j: int|
                    0 <= j < self.counts@.len() ==> #[trigger] self.counts@[j] == orig.counts@[j],
                forall|j: int|
                    self.slots@.len() <= j < orig.slots@.len() ==> (#[trigger] orig.slots@[j])
                        is None,
            decreases self.slots@.len(),
        {
            self.slots.pop();
            self.counts.pop();
        }
        proof {
            let m = self.slots@.len() as int;
            assert(self.slots@ =~= orig.slots@.subrange(0, m));
            lemma_live_slots_trailing_none(orig.slots@, m);
            assert(self.num_live() == orig.num_live());
            assert forall|j: u32| true implies (#[trigger] self.live(j) == orig.live(j)
                && self.term_at(j) == orig.term_at(j) && self.rc(j) == orig.rc(j)) by {
                if 1 <= j <= m {
                    assert(self.slots@[j - 1] == orig.slots@[j - 1]);
                    assert(self.counts@[j - 1] == orig.counts@[j - 1]);
                } else if m < j <= orig.slots@.len() {
                    assert(orig.slots@[j - 1] is None);
                }
            }
            assert forall|u: Seq<char>| true implies (self.has_term(u) == orig.has_term(u)) by {
                if orig.has_term(u) {
                    let j = choose|j: u32| #[trigger] orig.live(j) && orig.term_at(j) == u;
                    assert(self.live(j) && self.term_at(j) == u);
                }
                if self.has_term(u) {
                    let j = choose|j: u32| #[trigger] self.live(j) && self.term_at(j) == u;
                    assert(orig.live(j) && orig.term_at(j) == u);
                }
            }
            assert forall|u: Seq<char>| orig.has_term(u) implies self.index_of(u) == orig.index_of(
                u,
            ) by {
                let j = orig.index_of(u);
                assert(orig.live(j) && orig.term_at(j) == u);
                assert(self.live(j) && self.term_at(j) == u);
                self.lemma_unique_index(u, j);
            }
        }
    }
}

/// Common part of the fresh-interning proof for `make_index`: the table
/// `post` differs from `pre` by one slot `k` going from free to holding a
/// fresh term `t` with count one.
proof fn assert_make_fresh_post(pre: &TermTable, post: &TermTable, t: Seq<char>, h: u32, k: int)
    requires
        pre.wf(),
        !pre.has_term(t),
        post.wf(),
        h == k + 1,
        0 <= k < post.slots@.len(),
        (k < pre.slots@.len() && post.slots@.len() == pre.slots@.len() && pre.slots@[k] is None)
            || (k == pre.slots@.len() && post.slots@.len() == pre.slots@.len() + 1),
        forall|j: int|
            0 <= j < pre.slots@.len() && j != k ==> #[trigger] post.slots@[j] == pre.slots@[j],
        forall|j: int|
            0 <= j < pre.counts@.len() && j != k ==> #[trigger] post.counts@[j] == pre.counts@[j],
        pre.counts@.len() == pre.slots@.len(),
        post.counts@.len() == post.slots@.len(),
        post.slots@[k] is Some,
        post.slots@[k].unwrap()@ == t,
        post.counts@[k] == 1,
    ensures
        unchanged_except(pre, post, h),
        terms_unchanged_except(pre, post, t),
        !pre.live(h),
        post.rc(h) == 1,
{
    assert forall|j: u32| j != h implies (post.live(j) == pre.live(j) && post.term_at(j)
        == pre.term_at(j) && post.rc(j) == pre.rc(j)) by {
        if pre.live(j) {
            assert(post.slots@[j - 1] == pre.slots@[j - 1]);
            assert(post.counts@[j - 1] == pre.counts@[j - 1]);
        }
        if post.live(j) {
            assert(j - 1 != k);
            assert(j - 1 < pre.slots@.len());
            assert(post.slots@[j - 1] == pre.slots@[j - 1]);
            assert(post.counts@[j - 1] == pre.counts@[j - 1]);
        }
    }
    assert forall|u: Seq<char>| u != t implies (post.has_term(u) == pre.has_term(u)) by {
        if pre.has_term(u) {
            let j = pre.index_of(u);
            assert(pre.live(j) && pre.term_at(j) == u);
            assert(j != h);
            assert(post.live(j) && post.term_at(j) == u);
        }
        if post.has_term(u) {
            let j = choose|j: u32| #[trigger] post.live(j) && post.term_at(j) == u;
            assert(j != h);
            assert(pre.live(j) && pre.term_at(j) == u);
        }
    }
    assert forall|u: Seq<char>| u != t && pre.has_term(u) implies post.index_of(u) == pre.index_of(
        u,
    ) by {
        let j = pre.index_of(u);
        assert(pre.live(j) && pre.term_at(j) == u);
        assert(j != h);
        assert(post.live(j) && post.term_at(j) == u);
        post.lemma_unique_index(u, j);
    }
}

/// Interning a term the table has not seen yields a handle distinct from
/// the null index, with count one, under which the term then resolves.
pub proof fn lemma_intern_unseen<T: InterningModel>(pre: &T, post: &T, t: Seq<char>, i: T::Index)
    requires
        pre.wf(),
        !pre.has_term(t),
        make_index_post(pre, post, t, i),
    ensures
        i != T::null_spec(),
        post.has_term(t),
        post.index_of(t) == i,
        post.rc(i) == 1,
{
}

/// Interning the same term twice yields the identical handle both times;
/// one release afterwards leaves the term resolvable under that handle,
/// and a second release makes it unresolvable and the handle dead.
pub proof fn lemma_intern_twice_release_twice<T: InterningModel>(
    s0: &T,
    s1: &T,
    s2: &T,
    s3: &T,
    s4: &T,
    t: Seq<char>,
    i1: T::Index,
    i2: T::Index,
)
    requires
        s0.wf(),
        s1.wf(),
        s2.wf(),
        s3.wf(),
        !s0.has_term(t),
        make_index_post(s0, s1, t, i1),
        make_index_post(s1, s2, t, i2),
        dec_ref_post(s2, s3, i1),
        dec_ref_post(s3, s4, i1),
    ensures
        i2 == i1,
        s2.rc(i1) == 2,
        s3.has_term(t),
        s3.index_of(t) == i1,
        !s4.has_term(t),
        !s4.live(i1),
{
    assert(s1.has_term(t) && s1.index_of(t) == i1);
    assert(i2 == i1);
    assert(s2.rc(i1) == 2);
    assert(s3.rc(i1) == 1);
    assert(s3.has_term(t) && s3.index_of(t) == i1);
    assert(s3.term_at(i1) == t);
}

/// An increment followed immediately by a decrement of the same live
/// handle is a no-op for every observable of the mapping.
pub proof fn lemma_inc_then_dec_ref_noop<T: InterningModel>(s0: &T, s1: &T, s2: &T, i: T::Index)
    requires
        s0.wf(),
        s0.live(i),
        inc_ref_post(s0, s1, i),
        dec_ref_post(s1, s2, i),
    ensures
        forall|j: T::Index| #![trigger s2.live(j)] s2.live(j) == s0.live(j),
        forall|j: T::Index| #![trigger s2.rc(j)] s2.rc(j) == s0.rc(j),
        forall|j: T::Index| #![trigger s2.term_at(j)] s2.term_at(j) == s0.term_at(j),
        forall|u: Seq<char>| #![trigger s2.has_term(u)] s2.has_term(u) == s0.has_term(u),
        forall|u: Seq<char>|
            #![trigger s2.index_of(u)]
            s0.has_term(u) ==> s2.index_of(u) == s0.index_of(u),
        s2.num_live() == s0.num_live(),
{
    s0.lemma_interning_bijection();
    assert(s1.rc(i) == s0.rc(i) + 1);
    assert(s1.rc(i) > 1);
}

/// Two distinct terms held by the table always answer to two distinct
/// handles.
pub proof fn lemma_distinct_terms_distinct_handles<T: InterningModel>(
    m: &T,
    u: Seq<char>,
    v: Seq<char>,
)
    requires
        m.wf(),
        m.has_term(u),
        m.has_term(v),
        u != v,
    ensures
        m.index_of(u) != m.index_of(v),
{
    m.lemma_interning_bijection();
}

/// Walks an arbitrary `TermIndexMap` through the whole interning life
/// cycle on two distinct, previously unseen terms, proving at each step
/// that the mapping behaves as required: insert and release, double
/// insert, explicit increment, and independence of distinct terms. The
/// net effect on the mapping is zero.
pub fn assert_term_index_works<T: TermIndexMap>(ti: &mut T, t1: &Term, t2: &Term)
    requires
        old(ti).wf(),
        t1@ != t2@,
        !old(ti).has_term(t1@),
        !old(ti).has_term(t2@),
        old(ti).num_live() + 2 <= old(ti).capacity(),
    ensures
        final(ti).wf(),
        forall|j: T::Index| #![trigger final(ti).live(j)] final(ti).live(j) == old(ti).live(j),
        forall|u: Seq<char>|
            #![trigger final(ti).has_term(u)]
            final(ti).has_term(u) == old(ti).has_term(u),
{
    let ghost s0 = *ti;
    let r0 = ti.get_index(t1);
    assert(r0 is None);

    // insert term, then remove it
    let it = ti.make_index(t1);
    assert(ti.has_term(t1@) && ti.index_of(t1@) == it && ti.rc(it) == 1);
    let r1 = ti.get_index(t1);
    assert(r1 == Some(it));
    let g1 = ti.get_term(it);
    assert(g1 is Some && g1.unwrap()@ == t1@);

    let ghost s1 = *ti;
    ti.dec_ref(it);
    assert(!ti.has_term(t1@));
    let r2 = ti.get_index(t1);
    assert(r2 is None);
    let g2 = ti.get_term(it);
    assert(g2 is None);
    proof {
        assert forall|j: T::Index| true implies (#[trigger] ti.live(j)) == s0.live(j) by {
            if j != it {
            } else {
                assert(!s0.live(it));
            }
        }
        assert forall|u: Seq<char>| true implies (#[trigger] ti.has_term(u)) == s0.has_term(u) by {
            assert(s1.term_at(it) == t1@);
        }
        assert(ti.num_live() == s0.num_live());
    }

    // insert term twice, then remove it
    let ghost s2 = *ti;
    let it = ti.make_index(t1);
    assert(ti.has_term(t1@) && ti.index_of(t1@) == it && ti.rc(it) == 1);
    let it2 = ti.make_index(t1);
    assert(it2 == it);
    assert(ti.rc(it) == 2);

    ti.dec_ref(it);
    assert(ti.rc(it) == 1);
    assert(ti.has_term(t1@) && ti.index_of(t1@) == it);
    let r3 = ti.get_index(t1);
    assert(r3 == Some(it));
    let g3 = ti.get_term(it);
    assert(g3 is Some && g3.unwrap()@ == t1@);

    let ghost s3 = *ti;
    ti.dec_ref(it);
    assert(!ti.has_term(t1@));
    let r4 = ti.get_index(t1);
    assert(r4 is None);
    let g4 = ti.get_term(it);
    assert(g4 is None);
    proof {
        assert forall|j: T::Index| true implies (#[trigger] ti.live(j)) == s2.live(j) by {
            if j != it {
            } else {
                assert(!s2.live(it));
            }
        }
        assert forall|u: Seq<char>| true implies (#[trigger] ti.has_term(u)) == s2.has_term(u) by {
            assert(s3.term_at(it) == t1@);
        }
        assert(ti.num_live() == s0.num_live());
    }

    // insert term, increment its count, then remove it
    let ghost s4 = *ti;
    let it = ti.make_index(t1);
    assert(ti.rc(it) == 1);
    ti.inc_ref(it);
    assert(ti.rc(it) == 2);

    ti.dec_ref(it);
    assert(ti.rc(it) == 1);
    assert(ti.has_term(t1@) && ti.index_of(t1@) == it);
    let r5 = ti.get_index(t1);
    assert(r5 == Some(it));
    let g5 = ti.get_term(it);
    assert(g5 is Some && g5.unwrap()@ == t1@);

    let ghost s5 = *ti;
    ti.dec_ref(it);
    assert(!ti.has_term(t1@));
    let r6 = ti.get_index(t1);
    assert(r6 is None);
    let g6 = ti.get_term(it);
    assert(g6 is None);
    proof {
        assert forall|j: T::Index| true implies (#[trigger] ti.live(j)) == s4.live(j) by {
            if j != it {
            } else {
                assert(!s4.live(it));
            }
        }
        assert forall|u: Seq<char>| true implies (#[trigger] ti.has_term(u)) == s4.has_term(u) by {
            assert(s5.term_at(it) == t1@);
        }
        assert(ti.num_live() == s0.num_live());
    }

    // insert two distinct terms, then remove them
    let ghost s6 = *ti;
    let it1 = ti.make_index(t1);
    assert(!ti.has_term(t2@));
    let itb = ti.make_index(t2);
    assert(it1 != itb);

    let ghost s7 = *ti;
    ti.dec_ref(itb);
    assert(ti.has_term(t1@) && ti.index_of(t1@) == it1);
    assert(!ti.has_term(t2@));
    let r7 = ti.get_index(t1);
    assert(r7 == Some(it1));
    let r8 = ti.get_index(t2);
    assert(r8 is None);

    let ghost s8 = *ti;
    ti.dec_ref(it1);
    assert(!ti.has_term(t1@));
    assert(!ti.has_term(t2@));
    proof {
        assert forall|j: T::Index| true implies (#[trigger] ti.live(j)) == s6.live(j) by {
            if j == it1 {
                assert(!s6.live(it1));
            } else if j == itb {
                assert(!s8.live(itb));
                assert(ti.live(itb) == s8.live(itb));
                assert(!s6.live(itb));
            }
        }
        assert forall|u: Seq<char>| true implies (#[trigger] ti.has_term(u)) == s6.has_term(u) by {
            assert(s8.term_at(it1) == t1@);
            assert(s7.term_at(itb) == t2@);
        }
    }
}

} // verus!
