use vstd::prelude::*;

verus! {

/// Flat container acting as a 2D array, generic over `T`.
///
/// The grid has a fixed width; rows accrue as elements are appended in
/// row-major order, so the logical height is derived from the length.
#[derive(Default, Debug, Clone)]
pub struct Array2D<T> {
    backing: Vec<T>,
    width: usize,
}

/// Given a width, turn a linear index into an `(x, y)` position, the
/// inverse of `coords_to_index`.
pub fn index_to_coords(width: usize, index: usize) -> (r: (usize, usize))
    requires
        width > 0,
    ensures
        r.0 == index as int % width as int,
        r.1 == index as int / width as int,
        r.1 * width + r.0 == index,
{
    proof {
        vstd::arithmetic::div_mod::lemma_fundamental_div_mod(index as int, width as int);
        assert((index as int / width as int) * (width as int) == (width as int) * (index as int
            / width as int)) by (nonlinear_arith);
    }
    (index % width, index / width)
}

/// Given a width and an `(x, y)` position, find the linear index
/// `y * width + x`.
pub fn coords_to_index(width: usize, xy: (usize, usize)) -> (r: usize)
    requires
        xy.1 * width + xy.0 <= usize::MAX,
    ensures
        r == xy.1 * width + xy.0,
{
    xy.1 * width + xy.0
}

impl<T> Array2D<T> {
    /// The sequence of elements, in row-major order.
    pub closed spec fn spec_elems(&self) -> Seq<T> {
        self.backing@
    }

    /// The declared width of the grid.
    pub closed spec fn spec_width(&self) -> int {
        self.width as int
    }

    /// The number of cells currently stored.
    pub open spec fn spec_len(&self) -> int {
        self.spec_elems().len() as int
    }

    /// An empty grid of the given width.
    pub fn new(width: usize) -> (r: Self)
        ensures
            r.spec_elems() == Seq::<T>::empty(),
            r.spec_width() == width,
    {
        Array2D { backing: Vec::new(), width }
    }

    /// Append an element at the next position in row-major order.
    pub fn add_element(&mut self, el: T)
        ensures
            final(self).spec_elems() == old(self).spec_elems().push(el),
            final(self).spec_width() == old(self).spec_width(),
    {
        self.backing.push(el);
    }

    /// Remove the cell at a given position; every later element shifts one
    /// step left (and so possibly up a row).
    pub fn remove(&mut self, index: (usize, usize)) -> (r: T)
        requires
            index.1 * old(self).spec_width() + index.0 < old(self).spec_len(),
        ensures
            r == old(self).spec_elems()[index.1 * old(self).spec_width() + index.0],
            final(self).spec_elems() == old(self).spec_elems().remove(
                index.1 * old(self).spec_width() + index.0,
            ),
            final(self).spec_width() == old(self).spec_width(),
    {
        proof {
            assert(self.backing.len() == self.spec_len());
        }
        let i = coords_to_index(self.width, index);
        self.backing.remove(i)
    }

    /// Give back the backing vector.
    pub fn to_inner(self) -> (r: Vec<T>)
        ensures
            r@ == self.spec_elems(),
    {
        self.backing
    }

    /// Whether any stored element satisfies the given predicate.
    pub fn contains<F: Fn(&T) -> bool>(&self, cnd: F) -> (r: bool)
        requires
            forall|i: int|
                0 <= i < self.spec_len() ==> call_requires(cnd, (&self.spec_elems()[i],)),
        ensures
            r ==> exists|i: int|
                0 <= i < self.spec_len() && call_ensures(cnd, (&self.spec_elems()[i],), true),
            !r ==> forall|i: int|
                0 <= i < self.spec_len() ==> call_ensures(cnd, (&self.spec_elems()[i],), false),
    {
        let mut i: usize = 0;
        while i < self.backing.len()
            invariant
                0 <= i <= self.spec_len(),
                forall|j: int|
                    0 <= j < self.spec_len() ==> call_requires(cnd, (&self.spec_elems()[j],)),
                forall|j: int|
                    0 <= j < i ==> call_ensures(cnd, (&self.spec_elems()[j],), false),
            decreases self.spec_len() - i,
        {
            if cnd(&self.backing[i]) {
                return true;
            }
            i += 1;
        }
        false
    }

    /// The number of cells currently stored.
    pub fn len(&self) -> (r: usize)
        ensures
            r == self.spec_len(),
    {
        self.backing.len()
    }

    /// Whether no cell has been stored yet.
    pub fn is_empty(&self) -> (r: bool)
        ensures
            r == (self.spec_len() == 0),
    {
        self.backing.is_empty()
    }

    /// The `(columns, rows)` of the grid; the row count is the length
    /// divided by the width, rounded up.
    pub fn size(&self) -> (r: (usize, usize))
        ensures
            self.spec_width() == 0 ==> r == (0usize, 0usize),
            self.spec_width() > 0 ==> r.0 == self.spec_width() && r.1 == (self.spec_len()
                + self.spec_width() - 1) / self.spec_width(),
    {
        if self.width == 0 {
            (0, 0)
        } else if self.backing.len() == 0 {
            assert((0 + self.width - 1) / self.width as int == 0) by (nonlinear_arith)
                requires
                    self.width >= 1,
            ;
            (self.width, 0)
        } else {
            let rows = (self.backing.len() - 1) / self.width + 1;
            assert((self.spec_len() - 1) / self.spec_width() + 1 == (self.spec_len()
                + self.spec_width() - 1) / self.spec_width()) by (nonlinear_arith)
                requires
                    self.spec_width() >= 1,
                    self.spec_len() >= 1,
            ;
            (self.width, rows)
        }
    }

    /// Borrow the cell at `(x, y)`.
    pub fn get(&self, x: usize, y: usize) -> (r: &T)
        requires
            x < self.spec_width(),
            y * self.spec_width() + x < self.spec_len(),
        ensures
            *r == self.spec_elems()[y * self.spec_width() + x],
    {
        proof {
            assert(self.backing.len() == self.spec_len());
        }
        let i = coords_to_index(self.width, (x, y));
        &self.backing[i]
    }

    /// Mutably borrow the cell at `(x, y)`.
    pub fn get_mut(&mut self, x: usize, y: usize) -> (r: &mut T)
        requires
            x < old(self).spec_width(),
            y * old(self).spec_width() + x < old(self).spec_len(),
        ensures
            *r == old(self).spec_elems()[y * old(self).spec_width() + x],
            final(self).spec_elems() == old(self).spec_elems().update(
                y * old(self).spec_width() + x,
                *final(r),
            ),
            final(self).spec_width() == old(self).spec_width(),
    {
        proof {
            assert(self.backing.len() == self.spec_len());
        }
        let i = coords_to_index(self.width, (x, y));
        &mut self.backing[i]
    }
}

impl<T: Clone> Array2D<T> {
    /// A `width` by `height` grid, each cell holding a clone of `el`.
    pub fn filled(width: usize, height: usize, el: T) -> (r: Self)
        requires
            width * height <= usize::MAX,
        ensures
            r.spec_width() == width,
            r.spec_len() == width * height,
            forall|i: int| 0 <= i < r.spec_len() ==> cloned(el, #[trigger] r.spec_elems()[i]),
    {
        let n = width * height;
        Array2D { backing: vec![el; n], width }
    }
}

} // verus!
