use vstd::prelude::*;
use crate::matrix_like::{FromArray2DLike, MatrixLike, SizeTransformMatrixLike};

verus! {

/// `ROW` rows of `COL` elements each.
pub struct Array2D<const ROW: usize, const COL: usize, T>(pub [[T; COL]; ROW]);

impl<const ROW: usize, const COL: usize, T: Copy> Copy for Array2D<ROW, COL, T> {

}

impl<const ROW: usize, const COL: usize, T: Copy> Clone for Array2D<ROW, COL, T> {
    fn clone(&self) -> (copy: Self)
        ensures
            copy == *self,
    {
        *self
    }
}

impl<const ROW: usize, const COL: usize, T> MatrixLike<ROW, COL, T> for Array2D<ROW, COL, T> {
    open spec fn at(&self, x: int, y: int) -> T {
        self.0@[x]@[y]
    }

    fn get_opt(&self, x: usize, y: usize) -> (elem: Option<&T>) {
        if x < ROW && y < COL {
            Some(&self.0[x][y])
        } else {
            None
        }
    }

    fn get_mut_opt(&mut self, x: usize, y: usize) -> (elem: Option<&mut T>) {
        if x < ROW && y < COL {
            Some(&mut self.0[x][y])
        } else {
            None
        }
    }

    fn get_mut(&mut self, x: usize, y: usize) -> (elem: &mut T) {
        &mut self.0[x][y]
    }
}

impl<
    const ROW: usize,
    const COL: usize,
    const NEW_ROW: usize,
    const NEW_COL: usize,
    T: Copy,
> SizeTransformMatrixLike<NEW_ROW, NEW_COL, T> for Array2D<ROW, COL, T> {
    type Transformed = Array2D<NEW_ROW, NEW_COL, T>;
}

impl<const ROW: usize, const COL: usize, T: Copy> FromArray2DLike<ROW, COL, T> for Array2D<
    ROW,
    COL,
    T,
> {
    open spec fn from_array2d_spec(array: Array2D<ROW, COL, T>) -> Self {
        array
    }

    fn from_array2d(array: Array2D<ROW, COL, T>) -> (made: Self) {
        array
    }
}

} // verus!
