use vstd::prelude::*;
use crate::utils::ghost_cell::{GhostCell, GhostToken};
use core::marker::PhantomData;

verus! {

/// A handle to one cell of a scope that stands for `NUM / DEN` of the cell's
/// ownership. Handles to one cell share its address. Splitting and joining
/// keep the sum of the fractions, and the arithmetic is checked where the
/// call is verified. The cell is given back to the scope only through a
/// handle whose fraction is the whole.
pub struct Trc<T, const NUM: usize, const DEN: usize> {
    addr: usize,
    _marker: PhantomData<T>,
}

impl<T, const NUM: usize, const DEN: usize> Trc<T, NUM, DEN> {
    /// The address of the cell that the handle points at.
    pub closed spec fn addr(&self) -> usize {
        self.addr
    }

    /// Reads the cell through a handle of any fraction.
    pub fn get<'a>(this: &'a Self, token: &'a GhostToken<T>) -> (r: &'a T)
        requires
            token.wf(),
            token@.dom().contains(this.addr()),
        ensures
            *r == token@[this.addr()],
    {
        token.read(this.addr)
    }

    /// Reads the cell; the same as [`Trc::get`], in method form.
    pub fn borrow<'a>(&'a self, token: &'a GhostToken<T>) -> (r: &'a T)
        requires
            token.wf(),
            token@.dom().contains(self.addr()),
        ensures
            *r == token@[self.addr()],
    {
        token.read(self.addr)
    }

    /// Exclusive access to the cell through a handle of any fraction: the
    /// exclusive reference to the token is what rules out a second writer.
    pub fn borrow_mut<'a>(&self, token: &'a mut GhostToken<T>) -> (r: &'a mut T)
        requires
            old(token).wf(),
            old(token)@.dom().contains(self.addr()),
        ensures
            *r == old(token)@[self.addr()],
            final(token).wf(),
            final(token)@ == old(token)@.insert(self.addr(), *final(r)),
    {
        token.write(self.addr)
    }

    /// Exclusive access to the cell through a handle of any fraction, in the
    /// form of [`Trc::get`]; the same as [`Trc::borrow_mut`].
    pub fn get_mut_unchecked<'a>(this: &mut Self, token: &'a mut GhostToken<T>) -> (r: &'a mut T)
        requires
            old(token).wf(),
            old(token)@.dom().contains(old(this).addr()),
        ensures
            *r == old(token)@[old(this).addr()],
            *final(this) == *old(this),
            final(token).wf(),
            final(token)@ == old(token)@.insert(old(this).addr(), *final(r)),
    {
        token.write(this.addr)
    }

    /// Whether the two handles point at one cell.
    pub fn has_same_pointee<const OTHER_NUM: usize>(&self, other: &Trc<T, OTHER_NUM, DEN>) -> (same:
        bool)
        ensures
            same == (self.addr() == other.addr()),
    {
        self.addr == other.addr
    }

    /// Joins two handles to one cell into one handle of the summed fraction.
    pub fn join<const A: usize, const B: usize>(a: Trc<T, A, DEN>, b: Trc<T, B, DEN>) -> (joined:
        Self)
        requires
            A + B == NUM,
            1 <= A,
            1 <= B,
            NUM <= DEN,
            a.addr() == b.addr(),
        ensures
            joined.addr() == a.addr(),
    {
        Self { addr: a.addr, _marker: PhantomData }
    }

    /// Splits a handle into two handles to the same cell whose fractions sum
    /// to this one's.
    pub fn split<const A: usize, const B: usize>(self) -> (parts: (Trc<T, A, DEN>, Trc<T, B, DEN>))
        requires
            A + B == NUM,
            1 <= A,
            1 <= B,
            NUM <= DEN,
        ensures
            parts.0.addr() == self.addr(),
            parts.1.addr() == self.addr(),
    {
        (
            Trc::<T, A, DEN> { addr: self.addr, _marker: PhantomData },
            Trc::<T, B, DEN> { addr: self.addr, _marker: PhantomData },
        )
    }

    /// Raises a handle's fraction with no second handle on record. The caller
    /// gives up, in the same operation, handles to the same cell that make up
    /// the difference.
    pub(crate) fn lift_from<const OLD_NUM: usize>(this: Trc<T, OLD_NUM, DEN>) -> (lifted: Self)
        requires
            1 <= OLD_NUM,
            OLD_NUM <= NUM,
            NUM <= DEN,
        ensures
            lifted.addr() == this.addr(),
    {
        Self { addr: this.addr, _marker: PhantomData }
    }
}

impl<T, const N: usize> Trc<T, N, N> {
    /// Allocates a cell for `val` in the scope of `token` and returns the
    /// handle to all of it.
    pub fn new(val: T, token: &mut GhostToken<T>) -> (full: Self)
        requires
            1 <= N,
            old(token).wf(),
        ensures
            final(token).wf(),
            !old(token)@.dom().contains(full.addr()),
            final(token)@ == old(token)@.insert(full.addr(), val),
    {
        let addr = token.allocate(GhostCell::new(val));
        Self { addr, _marker: PhantomData }
    }

    /// Exclusive access to the cell through the handle to all of it.
    pub fn get_mut<'a>(this: &mut Self, token: &'a mut GhostToken<T>) -> (r: &'a mut T)
        requires
            old(token).wf(),
            old(token)@.dom().contains(old(this).addr()),
        ensures
            *r == old(token)@[old(this).addr()],
            *final(this) == *old(this),
            final(token).wf(),
            final(token)@ == old(token)@.insert(old(this).addr(), *final(r)),
    {
        token.write(this.addr)
    }

    /// Takes the value out and gives the cell back to the scope.
    pub fn into_inner(self, token: &mut GhostToken<T>) -> (val: T)
        requires
            old(token).wf(),
            old(token)@.dom().contains(self.addr()),
        ensures
            final(token).wf(),
            val == old(token)@[self.addr()],
            final(token)@ == old(token)@.remove(self.addr()),
    {
        token.release(self.addr).into_inner()
    }
}

} // verus!
