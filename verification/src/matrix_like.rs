use vstd::prelude::*;

pub mod array2d;

pub use array2d::Array2D;

verus! {

/// A container of `ROW` times `COL` elements, reached by row and column.
pub trait MatrixLike<const ROW: usize, const COL: usize, T> {
    /// The element in row `x` and column `y`.
    spec fn at(&self, x: int, y: int) -> T;

    fn get(&self, x: usize, y: usize) -> (elem: &T)
        requires
            x < ROW,
            y < COL,
        ensures
            *elem == self.at(x as int, y as int),
    {
        self.get_opt(x, y).unwrap()
    }

    fn get_opt(&self, x: usize, y: usize) -> (elem: Option<&T>)
        ensures
            x < ROW && y < COL ==> elem == Some(&self.at(x as int, y as int)),
            !(x < ROW && y < COL) ==> elem is None,
    ;

    /// Exclusive access to one element, if the place is one of the
    /// container's; otherwise the container stays as it is.
    fn get_mut_opt(&mut self, x: usize, y: usize) -> (elem: Option<&mut T>)
        ensures
            match elem {
                Some(e) => x < ROW && y < COL && *e == old(self).at(x as int, y as int)
                    && final(self).at(x as int, y as int) == *final(e) && forall|i: int, j: int|
                    0 <= i < ROW && 0 <= j < COL && !(i == x && j == y) ==> final(self).at(i, j)
                        == old(self).at(i, j),
                None => !(x < ROW && y < COL) && forall|i: int, j: int|
                    0 <= i < ROW && 0 <= j < COL ==> final(self).at(i, j) == old(self).at(i, j),
            },
    ;

    /// Exclusive access to one element: after the access the container
    /// holds what was written there, and every other element as before.
    fn get_mut(&mut self, x: usize, y: usize) -> (elem: &mut T)
        requires
            x < ROW,
            y < COL,
        ensures
            *elem == old(self).at(x as int, y as int),
            final(self).at(x as int, y as int) == *final(elem),
            forall|i: int, j: int|
                0 <= i < ROW && 0 <= j < COL && !(i == x && j == y) ==> final(self).at(i, j)
                    == old(self).at(i, j),
    ;
}

/// A container that has a neutral element of the product.
pub trait MulIdentityMatrixLike: Sized {
    fn one() -> Self;
}

/// A container that has a neutral element of the sum.
pub trait AddIdentityMatrixLike: Sized {
    fn zero() -> Self;
}

/// A container that can be made with no argument.
pub trait NewMatrixLike: Sized {
    fn new() -> Self;
}

/// A container that names the container of its kind with another size.
pub trait SizeTransformMatrixLike<const ROW: usize, const COL: usize, T> {
    type Transformed: MatrixLike<ROW, COL, T>;
}

/// A container that can be made from an array of rows.
pub trait FromArray2DLike<const ROW: usize, const COL: usize, T: Copy>: Sized {
    /// The container that holds what `array` holds.
    spec fn from_array2d_spec(array: Array2D<ROW, COL, T>) -> Self;

    fn from_array2d(array: Array2D<ROW, COL, T>) -> (made: Self)
        ensures
            made == Self::from_array2d_spec(array),
    ;
}

} // verus!
