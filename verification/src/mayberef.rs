use vstd::prelude::*;

verus! {

/// A value that is either borrowed or owned, so that a value which is only
/// read is never copied.
pub enum MaybeRef<'a, T: 'a> {
    Ref(&'a T),
    Val(T),
}

impl<'a, T> MaybeRef<'a, T> {
    /// The value that is held, whichever way.
    pub open spec fn value(self) -> T {
        match self {
            MaybeRef::Ref(t) => *t,
            MaybeRef::Val(t) => t,
        }
    }
}

impl<'a, T> std::ops::Deref for MaybeRef<'a, T> {
    type Target = T;

    /// A reference to the value that is held.
    fn deref(&self) -> (t: &T)
        ensures
            *t == self.value(),
    {
        match self {
            MaybeRef::Ref(t) => t,
            MaybeRef::Val(t) => t,
        }
    }
}

impl<'a, T: Clone> MaybeRef<'a, T> {
    /// Hands the value out: an owned one as it is, a borrowed one as a clone.
    pub fn take(self) -> (t: T)
        ensures
            self is Val ==> t == self.value(),
            self is Ref ==> cloned(self.value(), t),
    {
        match self {
            MaybeRef::Val(t) => t,
            MaybeRef::Ref(t) => t.clone(),
        }
    }
}

} // verus!
