//! Overflow-safe counter arithmetic shared by the code generator and the
//! evaluator, and a small utility for turning a string into its characters.

use vstd::prelude::*;
use vstd::std_specs::iter::IteratorSpec;

verus! {

/// Checked addition with the overflow outcome visible to callers.
pub trait SafeAdd: Sized {
    /// What `safe_add` returns: the sum when it fits, `None` on overflow.
    spec fn safe_add_spec(&self, n: &Self) -> Option<Self>;

    fn safe_add(&self, n: &Self) -> (r: Option<Self>)
        ensures
            r == self.safe_add_spec(n),
    ;
}

impl SafeAdd for usize {
    open spec fn safe_add_spec(&self, n: &usize) -> Option<usize> {
        if *self + *n <= usize::MAX {
            Some((*self + *n) as usize)
        } else {
            None
        }
    }

    fn safe_add(&self, n: &usize) -> (r: Option<usize>) {
        self.checked_add(*n)
    }
}

/// Adds `src` to `dst` in place; on overflow leaves `dst` unchanged and
/// returns the error produced by `f`.
pub fn safe_add<T: SafeAdd, E, F: Fn() -> E>(dst: &mut T, src: &T, f: F) -> (r: Result<(), E>)
    requires
        call_requires(f, ()),
    ensures
        old(dst).safe_add_spec(src) matches Some(n) ==> r is Ok && *final(dst) == n,
        old(dst).safe_add_spec(src) is None ==> r is Err && *final(dst) == *old(dst),
        r matches Err(e) ==> call_ensures(f, (), e),
{
    if let Some(n) = dst.safe_add(src) {
        *dst = n;
        Ok(())
    } else {
        Err(f())
    }
}

/// The characters of a string as a vector, in order.
pub fn str_chars(s: &str) -> (v: Vec<char>)
    ensures
        v@ == s@,
{
    let mut v: Vec<char> = Vec::new();
    for c in it: s.chars()
        invariant
            it.seq() == s@,
            v@ == it.seq().subrange(0, it.index() as int),
    {
        v.push(c);
    }
    assert(v@ =~= s@);
    v
}

} // verus!
