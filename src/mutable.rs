use vstd::prelude::*;

verus! {

/// A value that is either borrowed mutably from somewhere else, or owned.
pub enum Mutable<'a, T> {
    Borrowed(&'a mut T),
    Owned(T),
}

impl<'a, T> Mutable<'a, T> {
    /// The value, wherever it lives.
    pub open spec fn value(&self) -> T {
        match self {
            Mutable::Borrowed(r) => **r,
            Mutable::Owned(v) => *v,
        }
    }

    pub fn get_mut(&mut self) -> (r: &mut T)
        ensures
            *r == old(self).value(),
            final(self).value() == *final(r),
    {
        match self {
            Mutable::Borrowed(v) => v,
            Mutable::Owned(v) => v,
        }
    }

    pub fn get(&self) -> (r: &T)
        ensures
            *r == self.value(),
    {
        match self {
            Mutable::Borrowed(v) => v,
            Mutable::Owned(v) => v,
        }
    }

    pub fn set(&mut self, value: T)
        ensures
            final(self).value() == value,
    {
        *self.get_mut() = value;
    }
}

impl<'a, T: Copy> Mutable<'a, T> {
    /// An owned copy of the value.
    pub fn copy<'b>(&self) -> (m: Mutable<'b, T>)
        ensures
            m == Mutable::<'b, T>::Owned(self.value()),
    {
        Mutable::Owned(*self.get())
    }

    /// Overwrites the value with that of `other`.
    pub fn copy_from<'b>(&mut self, other: &Mutable<'b, T>)
        ensures
            final(self).value() == other.value(),
    {
        self.set(*other.get())
    }
}

impl<'a, T: Clone> Mutable<'a, T> {
    /// An owned clone of the value.
    pub fn clone(&self) -> (m: Mutable<'static, T>)
        ensures
            m is Owned,
            cloned(self.value(), m.value()),
    {
        Mutable::Owned(self.get().clone())
    }

    /// Overwrites the value with a clone of that of `other`.
    pub fn clone_from<'b>(&mut self, other: &Mutable<'b, T>)
        ensures
            cloned(other.value(), final(self).value()),
    {
        self.set(other.get().clone())
    }
}

impl<'a, T> Mutable<'a, T> {
    /// Wraps an owned value.
    pub fn from_value(v: T) -> (m: Mutable<'a, T>)
        ensures
            m == Mutable::<'a, T>::Owned(v),
    {
        Mutable::Owned(v)
    }

    /// Wraps a value borrowed from elsewhere; writes go to it.
    pub fn from_ref(r: &'a mut T) -> (m: Mutable<'a, T>)
        ensures
            m is Borrowed,
            m.value() == *old(r),
    {
        Mutable::Borrowed(r)
    }
}

} // verus!
