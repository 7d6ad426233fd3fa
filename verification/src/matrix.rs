use vstd::prelude::*;
use crate::matrix_like::{Array2D, MatrixLike};
use core::marker::PhantomData;
use vstd::pervasive::cloned;
use core::ops::Add;

verus! {

/// A matrix of `ROW` rows and `COL` columns over a container of its elements.
pub struct Matrix<const ROW: usize, const COL: usize, E, C: MatrixLike<ROW, COL, E>>(
    pub C,
    PhantomData<E>,
);

impl<const ROW: usize, const COL: usize, E: Copy, C: Copy + MatrixLike<ROW, COL, E>> Copy for Matrix<
    ROW,
    COL,
    E,
    C,
> {

}

impl<const ROW: usize, const COL: usize, E: Clone, C: Clone + MatrixLike<ROW, COL, E>> Clone for Matrix<
    ROW,
    COL,
    E,
    C,
> {
    fn clone(&self) -> (copy: Self)
        ensures
            cloned(self.container(), copy.container()),
    {
        Self(self.0.clone(), PhantomData)
    }
}

impl<const ROW: usize, const COL: usize, E, C: MatrixLike<ROW, COL, E>> MatrixLike<
    ROW,
    COL,
    E,
> for Matrix<ROW, COL, E, C> {
    open spec fn at(&self, x: int, y: int) -> E {
        self.container().at(x, y)
    }

    fn get_opt(&self, x: usize, y: usize) -> (elem: Option<&E>) {
        self.0.get_opt(x, y)
    }

    fn get_mut_opt(&mut self, x: usize, y: usize) -> (elem: Option<&mut E>) {
        self.0.get_mut_opt(x, y)
    }

    fn get_mut(&mut self, x: usize, y: usize) -> (elem: &mut E) {
        self.0.get_mut(x, y)
    }
}

impl<const ROW: usize, const COL: usize, E, C: MatrixLike<ROW, COL, E>> Matrix<ROW, COL, E, C> {
    /// The container that holds the matrix's elements.
    pub closed spec fn container(&self) -> C {
        self.0
    }

    /// The matrix over `container`.
    pub fn from_container(container: C) -> (matrix: Self)
        ensures
            matrix.container() == container,
    {
        Self(container, PhantomData)
    }
}

impl<const ROW: usize, const COL: usize, E> Matrix<ROW, COL, E, Array2D<ROW, COL, E>> {
    /// The matrix whose rows are those of `array`.
    pub fn from_array(array: [[E; COL]; ROW]) -> (matrix: Self)
        ensures
            matrix.container().0 == array,
    {
        Matrix(Array2D(array), PhantomData)
    }
}

impl<const ROW: usize, const COL: usize, E: Copy> Matrix<ROW, COL, E, Array2D<ROW, COL, E>> {
    /// The matrix whose rows are copies of those of `array`.
    pub fn copy_from_array(array: &[[E; COL]; ROW]) -> (matrix: Matrix<
        ROW,
        COL,
        E,
        Array2D<ROW, COL, E>,
    >)
        ensures
            matrix.container().0 == *array,
    {
        Matrix(Array2D(*array), PhantomData)
    }

    /// The matrix whose rows are copies of those of `array`.
    pub fn clone_from_array(array: &[[E; COL]; ROW]) -> (matrix: Matrix<
        ROW,
        COL,
        E,
        Array2D<ROW, COL, E>,
    >)
        ensures
            matrix.container().0 == *array,
    {
        Matrix(Array2D(*array), PhantomData)
    }
}

impl<
    const ROW: usize,
    const COL: usize,
    E: Add<E, Output = E> + Copy,
    CL: MatrixLike<ROW, COL, E>,
> Matrix<ROW, COL, E, CL> {
    /// Adds `rhs` to the matrix, element by element, in place.
    pub fn add_assign<CR: MatrixLike<ROW, COL, E>>(&mut self, rhs: Matrix<ROW, COL, E, CR>)
        requires
            forall|x: int, y: int|
                0 <= x < ROW && 0 <= y < COL ==> call_requires(
                    E::add,
                    (#[trigger] old(self).at(x, y), rhs.at(x, y)),
                ),
        ensures
            forall|x: int, y: int|
                0 <= x < ROW && 0 <= y < COL ==> call_ensures(
                    E::add,
                    (old(self).at(x, y), rhs.at(x, y)),
                    #[trigger] final(self).at(x, y),
                ),
    {
        let mut x: usize = 0;
        while x < ROW
            invariant
                x <= ROW,
                forall|i: int, j: int|
                    x <= i < ROW && 0 <= j < COL ==> #[trigger] self.at(i, j) == old(self).at(i, j),
                forall|i: int, j: int|
                    0 <= i < ROW && 0 <= j < COL ==> call_requires(
                        E::add,
                        (#[trigger] old(self).at(i, j), rhs.at(i, j)),
                    ),
                forall|i: int, j: int|
                    0 <= i < x && 0 <= j < COL ==> call_ensures(
                        E::add,
                        (old(self).at(i, j), rhs.at(i, j)),
                        #[trigger] self.at(i, j),
                    ),
            decreases ROW - x,
        {
            let mut y: usize = 0;
            while y < COL
                invariant
                    x < ROW,
                    y <= COL,
                    forall|i: int, j: int|
                        (x < i < ROW && 0 <= j < COL) || (i == x && y <= j < COL)
                            ==> #[trigger] self.at(i, j) == old(self).at(i, j),
                    forall|i: int, j: int|
                        0 <= i < ROW && 0 <= j < COL ==> call_requires(
                            E::add,
                            (#[trigger] old(self).at(i, j), rhs.at(i, j)),
                        ),
                    forall|i: int, j: int|
                        (0 <= i < x && 0 <= j < COL) || (i == x && 0 <= j < y) ==> call_ensures(
                            E::add,
                            (old(self).at(i, j), rhs.at(i, j)),
                            #[trigger] self.at(i, j),
                        ),
                decreases COL - y,
            {
                let ghost before = *self;
                let a = *self.get(x, y);
                let b = *rhs.get(x, y);
                assert(call_requires(E::add, (old(self).at(x as int, y as int), rhs.at(x as int, y as int))));
                let sum = a + b;
                let slot = self.get_mut(x, y);
                *slot = sum;
                proof {
                    assert forall|i: int, j: int|
                        (x < i < ROW && 0 <= j < COL) || (i == x && y + 1 <= j < COL)
                            implies #[trigger] self.at(i, j) == old(self).at(i, j) by {
                        assert(before.at(i, j) == old(self).at(i, j));
                    }
                    assert forall|i: int, j: int|
                        (0 <= i < x && 0 <= j < COL) || (i == x && 0 <= j < y + 1)
                            implies call_ensures(
                        E::add,
                        (old(self).at(i, j), rhs.at(i, j)),
                        #[trigger] self.at(i, j),
                    ) by {
                        if !(i == x && j == y) {
                            assert(self.at(i, j) == before.at(i, j));
                        }
                    }
                }
                y = y + 1;
            }
            x = x + 1;
        }
    }

    /// The sum of the matrix and `rhs`, element by element, in the container
    /// of the matrix.
    pub fn add<CR: MatrixLike<ROW, COL, E>>(self, rhs: Matrix<ROW, COL, E, CR>) -> (sum: Self)
        requires
            forall|x: int, y: int|
                0 <= x < ROW && 0 <= y < COL ==> call_requires(
                    E::add,
                    (#[trigger] self.at(x, y), rhs.at(x, y)),
                ),
        ensures
            forall|x: int, y: int|
                0 <= x < ROW && 0 <= y < COL ==> call_ensures(
                    E::add,
                    (self.at(x, y), rhs.at(x, y)),
                    #[trigger] sum.at(x, y),
                ),
    {
        let mut sum = self;
        sum.add_assign(rhs);
        sum
    }
}

} // verus!
