//! A fixed-size array whose length is chosen at run time.

use vstd::prelude::*;

verus! {

/// An array of `len()` cells, filled by `init` and then read and written by
/// index. Before `init` it has a length but no cells.
pub struct Array1<T> {
    size: u32,
    data: Vec<T>,
}

impl<T: Copy> View for Array1<T> {
    type V = Seq<T>;

    /// The cells that hold a value, in index order.
    closed spec fn view(&self) -> Seq<T> {
        self.data@
    }
}

impl<T: Copy> Array1<T> {
    /// The length the array was made with.
    pub closed spec fn spec_len(&self) -> nat {
        self.size as nat
    }

    /// Every cell holds a value.
    pub open spec fn is_filled(&self) -> bool {
        self@.len() == self.spec_len()
    }

    /// An array of `size` cells, none of which holds a value yet.
    pub fn new(size: u32) -> (a: Self)
        ensures
            a.spec_len() == size,
            a@.len() == 0,
    {
        Array1 { size, data: Vec::new() }
    }

    /// Fills every cell with `value`.
    pub fn init(&mut self, value: T)
        ensures
            final(self).spec_len() == old(self).spec_len(),
            final(self).is_filled(),
            forall|i: int| 0 <= i < final(self)@.len() ==> final(self)@[i] == value,
    {
        let mut data: Vec<T> = Vec::new();
        let mut i: u32 = 0;
        while i < self.size
            invariant
                i <= self.size,
                data@.len() == i,
                forall|j: int| 0 <= j < i ==> data@[j] == value,
            decreases self.size - i,
        {
            data.push(value);
            i = i + 1;
        }
        self.data = data;
    }

    /// The length the array was made with.
    pub fn len(&self) -> (n: u32)
        ensures
            n == self.spec_len(),
    {
        self.size
    }

    /// The value of cell `index`.
    pub fn get(&self, index: u32) -> (value: T)
        requires
            index < self@.len(),
        ensures
            value == self@[index as int],
    {
        self.data[index as usize]
    }

    /// Stores `value` in cell `index`.
    pub fn set(&mut self, index: u32, value: T)
        requires
            index < old(self)@.len(),
        ensures
            final(self)@ == old(self)@.update(index as int, value),
            final(self).spec_len() == old(self).spec_len(),
    {
        self.data[index as usize] = value;
    }

    /// A copy of the array.
    pub fn dup(&self) -> (a: Self)
        ensures
            a@ == self@,
            a.spec_len() == self.spec_len(),
    {
        let mut data: Vec<T> = Vec::new();
        let mut i: usize = 0;
        while i < self.data.len()
            invariant
                i <= self.data@.len(),
                data@.len() == i,
                forall|j: int| 0 <= j < i ==> data@[j] == self.data@[j],
            decreases self.data@.len() - i,
        {
            data.push(self.data[i]);
            i = i + 1;
        }
        assert(data@ =~= self.data@);
        Array1 { size: self.size, data }
    }
}

} // verus!
