//! A dense, fixed-size, row-major two-dimensional container.

use vstd::prelude::*;
use crate::error::GridError;

verus! {

/// Offset of `(x, y)` in a row-major grid that is `size_x` wide.
pub open spec fn offset_of(size_x: int, x: int, y: int) -> int {
    size_x * y + x
}

/// A grid of `size_x` columns and `size_y` rows.
///
/// The view is the sequence of stored slots in row-major order. A grid made
/// by `new` has room for its slots but holds none; one made by `empty`
/// holds all `size_x * size_y` of them.
pub struct Array2D<T> {
    data: Vec<T>,
    size_x: usize,
    size_y: usize,
}

impl<T> View for Array2D<T> {
    type V = Seq<T>;

    closed spec fn view(&self) -> Seq<T> {
        self.data@
    }
}

impl<T> Array2D<T> {
    #[verifier::type_invariant]
    spec fn inv(&self) -> bool {
        &&& self.size_x * self.size_y <= usize::MAX
        &&& (self.data@.len() == 0 || self.data@.len() == self.size_x * self.size_y)
    }

    /// The dimensions `(size_x, size_y)` the grid was made with.
    pub closed spec fn spec_dim(&self) -> (usize, usize) {
        (self.size_x, self.size_y)
    }

    /// Every slot of the grid holds a value.
    pub open spec fn filled(&self) -> bool {
        self@.len() == self.spec_dim().0 * self.spec_dim().1
    }

    /// `(x, y)` is inside the grid and its slot holds a value.
    pub open spec fn holds(&self, x: usize, y: usize) -> bool {
        &&& x < self.spec_dim().0
        &&& y < self.spec_dim().1
        &&& offset_of(self.spec_dim().0 as int, x as int, y as int) < self@.len()
    }

    /// The value at `(x, y)`.
    pub open spec fn spec_at(&self, x: usize, y: usize) -> T
        recommends
            self.holds(x, y),
    {
        self@[offset_of(self.spec_dim().0 as int, x as int, y as int)]
    }

    /// Reserves room for `size_x * size_y` slots without filling any.
    pub fn new(size_x: usize, size_y: usize) -> (r: Self)
        requires
            size_x * size_y <= usize::MAX,
        ensures
            r.spec_dim() == (size_x, size_y),
            r@ == Seq::<T>::empty(),
    {
        Array2D { data: Vec::with_capacity(size_y * size_x), size_x, size_y }
    }

    /// The dimensions `(size_x, size_y)`.
    pub fn dim(&self) -> (r: (usize, usize))
        ensures
            r == self.spec_dim(),
    {
        (self.size_x, self.size_y)
    }

    /// The slot at `(x, y)`, for a caller that knows it is there.
    pub(crate) fn slot(&self, x: usize, y: usize) -> (r: &T)
        requires
            self.holds(x, y),
        ensures
            *r == self.spec_at(x, y),
    {
        proof {
            use_type_invariant(self);
            lemma_offset_in_range(self.size_x as int, self.size_y as int, x as int, y as int);
        }
        let index: usize = self.size_x * y + x;
        &self.data[index]
    }

    /// Overwrites the slot at `(x, y)`, for a caller that knows it is there;
    /// every other slot is kept.
    pub(crate) fn put(&mut self, x: usize, y: usize, value: T)
        requires
            old(self).holds(x, y),
        ensures
            final(self).spec_dim() == old(self).spec_dim(),
            final(self)@ == old(self)@.update(
                offset_of(old(self).spec_dim().0 as int, x as int, y as int),
                value,
            ),
        no_unwind
    {
        proof {
            use_type_invariant(&*self);
            lemma_offset_in_range(self.size_x as int, self.size_y as int, x as int, y as int);
        }
        let index: usize = self.size_x * y + x;
        self.data[index] = value;
    }

    /// Checked read of the slot at `(x, y)`.
    pub fn at(&self, x: usize, y: usize) -> (r: Result<&T, GridError>)
        ensures
            match r {
                Ok(v) => self.holds(x, y) && *v == self.spec_at(x, y),
                Err(e) => !self.holds(x, y) && e == GridError::OutOfBounds,
            },
    {
        proof {
            use_type_invariant(self);
        }
        if x < self.size_x && y < self.size_y && self.data.len() > 0 {
            proof {
                lemma_offset_in_range(self.size_x as int, self.size_y as int, x as int, y as int);
            }
            Ok(self.slot(x, y))
        } else {
            Err(GridError::OutOfBounds)
        }
    }

    /// Checked mutable access to the slot at `(x, y)`; whatever the caller
    /// leaves there is the slot's new value, and every other slot is kept.
    pub fn at_mut(&mut self, x: usize, y: usize) -> (r: Result<&mut T, GridError>)
        ensures
            final(self).spec_dim() == old(self).spec_dim(),
            match r {
                Ok(v) => old(self).holds(x, y) && *v == old(self).spec_at(x, y) && final(self)@
                    == old(self)@.update(
                    offset_of(old(self).spec_dim().0 as int, x as int, y as int),
                    *final(v),
                ),
                Err(e) => !old(self).holds(x, y) && e == GridError::OutOfBounds && final(self)@
                    == old(self)@,
            },
    {
        proof {
            use_type_invariant(&*self);
        }
        if x < self.size_x && y < self.size_y && self.data.len() > 0 {
            proof {
                lemma_offset_in_range(self.size_x as int, self.size_y as int, x as int, y as int);
            }
            let index: usize = self.size_x * y + x;
            Ok(&mut self.data[index])
        } else {
            Err(GridError::OutOfBounds)
        }
    }
}

impl<T: Default> Array2D<T> {
    /// A grid whose every slot holds the default value of `T`.
    pub fn empty(size_x: usize, size_y: usize) -> (r: Self)
        requires
            size_x * size_y <= usize::MAX,
        ensures
            r.spec_dim() == (size_x, size_y),
            r.filled(),
            forall|i: int| 0 <= i < r@.len() ==> call_ensures(T::default, (), #[trigger] r@[i]),
    {
        let total: usize = size_x * size_y;
        let mut data: Vec<T> = Vec::with_capacity(total);
        let mut i: usize = 0;
        while i < total
            invariant
                i <= total,
                data@.len() == i,
                forall|k: int| 0 <= k < i ==> call_ensures(T::default, (), #[trigger] data@[k]),
            decreases total - i,
        {
            data.push(T::default());
            i += 1;
        }
        Array2D { data, size_x, size_y }
    }
}

impl<T: Clone> Clone for Array2D<T> {
    /// A grid of the same dimensions whose every slot is a clone of the
    /// slot at the same place.
    fn clone(&self) -> (r: Self)
        ensures
            r.spec_dim() == self.spec_dim(),
            r@.len() == self@.len(),
            forall|i: int| 0 <= i < self@.len() ==> cloned(self@[i], #[trigger] r@[i]),
    {
        proof {
            use_type_invariant(self);
        }
        let mut data: Vec<T> = Vec::with_capacity(self.data.len());
        let mut i: usize = 0;
        while i < self.data.len()
            invariant
                i <= self.data@.len(),
                data@.len() == i,
                forall|k: int| 0 <= k < i ==> cloned(self.data@[k], #[trigger] data@[k]),
            decreases self.data@.len() - i,
        {
            data.push(self.data[i].clone());
            i += 1;
        }
        Array2D { data, size_x: self.size_x, size_y: self.size_y }
    }
}

/// Inside a `size_x` by `size_y` grid the row-major offset of `(x, y)` is
/// below `size_x * size_y`.
pub proof fn lemma_offset_in_range(size_x: int, size_y: int, x: int, y: int)
    requires
        0 <= x < size_x,
        0 <= y < size_y,
    ensures
        0 <= size_x * y,
        0 <= offset_of(size_x, x, y) < size_x * size_y,
{
    assert(size_x * y + size_x <= size_x * size_y && 0 <= size_x * y) by (nonlinear_arith)
        requires
            0 <= x < size_x,
            0 <= y < size_y,
    ;
}

} // verus!
