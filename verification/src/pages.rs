//! The small rules of the pages beside the market overview: the counter
//! and the name shown by the page of a path.

use vstd::prelude::*;
use vstd::string::{StrSliceExecFns, StringExecFns};

verus! {

/// A count that is never below zero.
#[derive(Clone, Copy, Debug, PartialEq, Eq, Structural)]
pub struct Counter {
    pub value: i32,
}

impl Counter {
    /// The count is not below zero.
    pub open spec fn wf(self) -> bool {
        self.value >= 0
    }

    /// A counter at zero.
    pub fn new() -> (r: Counter)
        ensures
            r.value == 0,
            r.wf(),
    {
        Counter { value: 0 }
    }

    /// One more.
    pub fn increment(self) -> (r: Counter)
        requires
            self.wf(),
            self.value < i32::MAX,
        ensures
            r.value == self.value + 1,
            r.wf(),
    {
        Counter { value: self.value + 1 }
    }

    /// One less, but never below zero.
    pub fn decrement(self) -> (r: Counter)
        requires
            self.wf(),
        ensures
            r.value == if self.value == 0 {
                0
            } else {
                self.value - 1
            },
            r.wf(),
    {
        if self.value == 0 {
            self
        } else {
            Counter { value: self.value - 1 }
        }
    }
}

/// The number of slashes at the start of `path`.
pub open spec fn leading_slashes(path: Seq<char>) -> nat
    decreases path.len(),
{
    if path.len() > 0 && path[0] == '/' {
        1 + leading_slashes(path.drop_first())
    } else {
        0
    }
}

/// The path without the slashes at its start.
pub open spec fn slug_text(path: Seq<char>) -> Seq<char> {
    path.skip(leading_slashes(path) as int)
}

/// The slashes at the start end where the first other character stands.
proof fn lemma_leading_slashes(path: Seq<char>, k: int)
    requires
        0 <= k <= path.len(),
        forall|i: int| 0 <= i < k ==> path[i] == '/',
        k == path.len() || path[k] != '/',
    ensures
        leading_slashes(path) == k,
    decreases k,
{
    if k > 0 {
        lemma_leading_slashes(path.drop_first(), k - 1);
    }
}

/// The name that the page of a path shows: the path without the slashes at
/// its start.
pub fn slug_of_path(path: &str) -> (r: String)
    ensures
        r@ == slug_text(path@),
{
    let n = path.unicode_len();
    let mut k: usize = 0;
    while k < n && path.get_char(k) == '/'
        invariant
            k <= n,
            n == path@.len(),
            forall|i: int| 0 <= i < k ==> path@[i] == '/',
        decreases n - k,
    {
        k += 1;
    }
    proof {
        lemma_leading_slashes(path@, k as int);
    }
    String::from_str(path.substring_char(k, n))
}

} // verus!
