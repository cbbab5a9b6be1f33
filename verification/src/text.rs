//! Strings as sequences of characters.

use vstd::prelude::*;
use vstd::std_specs::iter::IteratorSpec;

verus! {

broadcast use vstd::string::group_string_axioms;

/// The characters of a string, in order.
pub fn chars_of(s: &str) -> (r: Vec<char>)
    ensures
        r@ == s@,
{
    let mut it = s.chars();
    let mut out: Vec<char> = Vec::new();
    loop
        invariant
            it.obeys_prophetic_iter_laws(),
            it.decrease() is Some,
            out@ + it.remaining() == s@,
        ensures
            out@ == s@,
        decreases it.decrease()->0,
    {
        match it.next() {
            Some(c) => {
                proof {
                    assert(out@.push(c) + it.remaining() =~= out@ + seq![c] + it.remaining());
                }
                out.push(c);
            },
            None => {
                assert(out@ + it.remaining() =~= out@);
                break ;
            },
        }
    }
    out
}

} // verus!
