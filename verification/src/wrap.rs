//! Read-only validated wrappers.
//!
//! The surrounding layers build checked value types (validated IRIs and
//! the like) as wrappers whose only checked constructor enforces a
//! predicate on the wrapped value; an unchecked constructor is provided
//! for callers that can already guarantee it. Two such wrappers are
//! defined here: an even integer, and text containing the marker `foo`.

use vstd::prelude::*;
use vstd::string::StrSliceExecFns;

verus! {

/// Evenness of an integer.
pub open spec fn is_even(n: int) -> bool {
    n % 2 == 0
}

/// A wrapped integer guaranteed to be even.
#[derive(Clone, Copy, Debug, PartialEq, Eq, Hash)]
pub struct Even {
    value: i64,
}

impl View for Even {
    type V = int;

    closed spec fn view(&self) -> int {
        self.value as int
    }
}

impl Even {
    /// The wrapper's invariant: the wrapped value satisfies the checked
    /// predicate.
    pub open spec fn wf(&self) -> bool {
        is_even(self@)
    }

    /// Wrap a value after checking that it is even; odd values are
    /// refused.
    pub fn new(inner: i64) -> (r: Result<Even, ()>)
        ensures
            r is Ok <==> is_even(inner as int),
            r matches Ok(e) ==> e@ == inner && e.wf(),
    {
        if inner % 2 == 0 {
            Ok(Even { value: inner })
        } else {
            Err(())
        }
    }

    /// Wrap a value without checking it; the caller must already
    /// guarantee that it is even, which here is demanded statically
    /// rather than bypassed.
    pub fn new_unchecked(inner: i64) -> (r: Even)
        requires
            is_even(inner as int),
        ensures
            r@ == inner && r.wf(),
    {
        Even { value: inner }
    }

    /// The wrapped value.
    pub fn into_inner(self) -> (r: i64)
        ensures
            r == self@,
    {
        self.value
    }
}

/// Does the text contain the letters `f`, `o`, `o` consecutively?
pub open spec fn has_foo(s: Seq<char>) -> bool {
    exists|i: int|
        0 <= i && i + 3 <= s.len() && (#[trigger] s[i]) == 'f' && s[i + 1] == 'o' && s[i + 2]
            == 'o'
}

/// Substring scan for the marker `foo`.
fn contains_foo(s: &str) -> (r: bool)
    ensures
        r == has_foo(s@),
{
    let n = s.unicode_len();
    let mut i: usize = 0;
    while n >= 3 && i < n - 2
        invariant
            n == s@.len(),
            i <= n,
            forall|q: int|
                0 <= q < i ==> !((#[trigger] s@[q]) == 'f' && s@[q + 1] == 'o' && s@[q + 2]
                    == 'o'),
        decreases n - i,
    {
        let c0 = s.get_char(i);
        let c1 = s.get_char(i + 1);
        let c2 = s.get_char(i + 2);
        if c0 == 'f' && c1 == 'o' && c2 == 'o' {
            return true;
        }
        i += 1;
    }
    proof {
        if has_foo(s@) {
            let q = choose|q: int|
                0 <= q && q + 3 <= s@.len() && (#[trigger] s@[q]) == 'f' && s@[q + 1] == 'o'
                    && s@[q + 2] == 'o';
            assert(q < i);
        }
    }
    false
}

/// Wrapped text guaranteed to contain the marker `foo`.
#[derive(Clone, Debug, PartialEq, Eq, Hash)]
pub struct Foo {
    value: String,
}

impl View for Foo {
    type V = Seq<char>;

    closed spec fn view(&self) -> Seq<char> {
        self.value@
    }
}

impl Foo {
    /// The wrapper's invariant: the wrapped value satisfies the checked
    /// predicate.
    pub open spec fn wf(&self) -> bool {
        has_foo(self@)
    }

    /// Wrap text after checking that it contains the marker; anything
    /// else is refused.
    pub fn new(inner: String) -> (r: Result<Foo, ()>)
        ensures
            r is Ok <==> has_foo(inner@),
            r matches Ok(f) ==> f@ == inner@ && f.wf(),
    {
        if contains_foo(inner.as_str()) {
            Ok(Foo { value: inner })
        } else {
            Err(())
        }
    }

    /// Wrap text without checking it; the caller must already guarantee
    /// the marker is present, which here is demanded statically rather
    /// than bypassed.
    pub fn new_unchecked(inner: String) -> (r: Foo)
        requires
            has_foo(inner@),
        ensures
            r@ == inner@ && r.wf(),
    {
        Foo { value: inner }
    }

    /// The wrapped text.
    pub fn as_str(&self) -> (r: &str)
        ensures
            r@ == self@,
    {
        self.value.as_str()
    }

    /// The wrapped text, consuming the wrapper.
    pub fn into_inner(self) -> (r: String)
        ensures
            r@ == self@,
    {
        self.value
    }
}

} // verus!
