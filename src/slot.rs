use vstd::prelude::*;

verus! {

/// One storage cell: a live value, or an empty cell that links to the next
/// empty cell of the free chain (`None` at the tail of the chain).
#[derive(Copy, Debug)]
pub enum Slot<T> {
    Occupied(T),
    Empty(Option<usize>),
}

impl<T> Slot<T> {
    /// The value held by the cell, if it is occupied.
    pub open spec fn value(self) -> Option<T> {
        match self {
            Slot::Occupied(v) => Some(v),
            Slot::Empty(_) => None,
        }
    }

    /// Puts `Occupied(value)` in the cell and hands back what was there.
    pub fn replace(&mut self, value: T) -> (r: Slot<T>)
        ensures
            r == *old(self),
            *final(self) == Slot::Occupied(value),
    {
        let mut prev = Slot::Occupied(value);
        core::mem::swap(self, &mut prev);
        prev
    }

    /// Hands back what the cell held and leaves it as `Empty(None)`.
    pub fn take(&mut self) -> (r: Slot<T>)
        ensures
            r == *old(self),
            *final(self) == Slot::<T>::Empty(None),
    {
        let mut prev = Slot::Empty(None);
        core::mem::swap(self, &mut prev);
        prev
    }

    /// Links an empty cell to the empty cell at `index`.
    pub fn set_next_empty(&mut self, index: usize)
        requires
            *old(self) is Empty,
        ensures
            *final(self) == Slot::<T>::Empty(Some(index)),
    {
        match self {
            Slot::Occupied(_) => {
                proof {
                    assert(false);
                }
            },
            Slot::Empty(next) => *next = Some(index),
        }
    }

    /// A reference to the value, if the cell is occupied.
    pub fn as_option_of_ref(&self) -> (r: Option<&T>)
        ensures
            r is Some <==> self is Occupied,
            r matches Some(v) ==> self.value() == Some(*v),
    {
        match self {
            Slot::Occupied(value) => Some(value),
            Slot::Empty(_) => None,
        }
    }

    /// A mutable reference to the value, if the cell is occupied.
    pub fn as_mut(&mut self) -> (r: Option<&mut T>)
        ensures
            r is Some <==> *old(self) is Occupied,
            r matches Some(v) ==> old(self).value() == Some(*v) && *final(self) == Slot::Occupied(*final(v)),
            r is None ==> *final(self) == *old(self),
    {
        match self {
            Slot::Occupied(value) => Some(value),
            Slot::Empty(_) => None,
        }
    }

    /// Whether the cell holds a value.
    pub fn is_occupied(&self) -> (r: bool)
        ensures
            r == (self is Occupied),
    {
        match self {
            Slot::Occupied(_) => true,
            Slot::Empty(_) => false,
        }
    }

    /// The value, if the cell is occupied.
    pub fn occupied(self) -> (r: Option<T>)
        ensures
            r == self.value(),
    {
        match self {
            Slot::Occupied(value) => Some(value),
            Slot::Empty(_) => None,
        }
    }
}

impl<T: Clone> Slot<T> {
    /// `self` could have come out of cloning `original`: the same variant, the
    /// same link, a clone of the value.
    pub open spec fn is_clone_of(self, original: Slot<T>) -> bool {
        match (original, self) {
            (Slot::Occupied(v), Slot::Occupied(w)) => cloned(v, w),
            (Slot::Empty(a), Slot::Empty(b)) => a == b,
            _ => false,
        }
    }
}

impl<T: Clone> Clone for Slot<T> {
    fn clone(&self) -> (r: Slot<T>)
        ensures
            r.is_clone_of(*self),
    {
        match self {
            Slot::Occupied(value) => Slot::Occupied(value.clone()),
            Slot::Empty(next) => Slot::Empty(*next),
        }
    }
}

impl<T> Default for Slot<T> {
    /// An empty cell at the tail of the chain.
    fn default() -> (r: Slot<T>)
        ensures
            r == Slot::<T>::Empty(None),
    {
        Slot::Empty(None)
    }
}

} // verus!
