//! Overflow-checked addition on unsigned counters.
use vstd::prelude::*;

verus! {

/// Addition that reports overflow instead of wrapping.
pub trait SafeAdd: Sized {
    /// The result of adding `n` to `self`: `None` when it is not representable.
    spec fn spec_safe_add(&self, n: &Self) -> Option<Self>;

    fn safe_add(&self, n: &Self) -> (r: Option<Self>)
        ensures
            r == self.spec_safe_add(n),
    ;
}

impl SafeAdd for usize {
    open spec fn spec_safe_add(&self, n: &usize) -> Option<usize> {
        if *self + *n <= usize::MAX {
            Some((*self + *n) as usize)
        } else {
            None
        }
    }

    fn safe_add(&self, n: &usize) -> (r: Option<usize>) {
        self.checked_add(*n)
    }
}

/// Adds `src` to `*dst` in place. On overflow `*dst` is left unchanged and the
/// error built by `f` is returned.
pub fn safe_add<T, F, E>(dst: &mut T, src: &T, f: F) -> (r: Result<(), E>) where
    T: SafeAdd,
    F: Fn() -> E,

    requires
        f.requires(()),
    ensures
        match old(dst).spec_safe_add(src) {
            Some(n) => r is Ok && *final(dst) == n,
            None => *final(dst) == *old(dst) && match r {
                Ok(_) => false,
                Err(e) => f.ensures((), e),
            },
        },
{
    if let Some(n) = dst.safe_add(src) {
        *dst = n;
        Ok(())
    } else {
        Err(f())
    }
}

} // verus!
