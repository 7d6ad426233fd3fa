use vstd::prelude::*;

verus! {

/// A cell that owns one value and hands it out only against a token.
pub struct GhostCell<T> {
    inner: T,
}

impl<T> GhostCell<T> {
    /// The value that the cell holds.
    pub closed spec fn view(&self) -> T {
        self.inner
    }

    /// The cell that holds `val`.
    pub fn new(val: T) -> (cell: Self)
        ensures
            cell@ == val,
    {
        Self { inner: val }
    }

    /// Shared access: any reference to the token of the cell's scope will do.
    pub fn borrow<'a>(&'a self, _token: &'a GhostToken<T>) -> (r: &'a T)
        ensures
            *r == self@,
    {
        &self.inner
    }

    /// Exclusive access: it takes the token of the cell's scope exclusively.
    pub fn borrow_mut<'a>(&'a mut self, _token: &'a mut GhostToken<T>) -> (r: &'a mut T)
        ensures
            *r == old(self)@,
            final(self)@ == *final(r),
            *final(_token) == *old(_token),
    {
        &mut self.inner
    }

    /// Shared access without a token.
    pub fn borrow_unchecked(&self) -> (r: &T)
        ensures
            *r == self@,
    {
        &self.inner
    }

    /// Exclusive access without a token: the exclusive reference to the cell
    /// is the proof that nobody else reads it.
    pub fn borrow_mut_unchecked(&mut self) -> (r: &mut T)
        ensures
            *r == old(self)@,
            final(self)@ == *final(r),
    {
        &mut self.inner
    }

    /// Gives up the cell for the value that it holds.
    pub fn into_inner(self) -> (val: T)
        ensures
            val == self@,
    {
        self.inner
    }
}

/// The capability of one scope. It carries the scope's memory: every cell
/// that a fractional handle points at lives in a slot of the token, and the
/// slot's index is the cell's address. Reading a cell takes a shared
/// reference to the token, changing one takes an exclusive reference.
pub struct GhostToken<T> {
    cells: Vec<Option<GhostCell<T>>>,
    free: Vec<usize>,
    live: usize,
}

impl<T> GhostToken<T> {
    /// The live cells of the scope, by address.
    pub closed spec fn view(&self) -> Map<usize, T> {
        Map::new(
            |a: usize| a < self.cells.len() && self.cells@[a as int] is Some,
            |a: usize| self.cells@[a as int]->0@,
        )
    }

    /// The token's invariant: the free list names each empty slot at most
    /// once and no live one, and the counter is the number of live cells.
    pub closed spec fn wf(&self) -> bool {
        &&& self.live + self.free.len() == self.cells.len()
        &&& self@.dom().finite()
        &&& self@.dom().len() == self.live
        &&& forall|i: int|
            0 <= i < self.free.len() ==> (#[trigger] self.free[i]) < self.cells.len()
                && self.cells[self.free[i] as int] is None
        &&& forall|i: int, j: int|
            0 <= i < j < self.free.len() ==> self.free[i] != self.free[j]
    }

    /// The number of cells that were allocated and not yet released.
    pub fn live(&self) -> (n: usize)
        requires
            self.wf(),
        ensures
            n == self@.dom().len(),
    {
        self.live
    }

    fn new() -> (token: Self)
        ensures
            token.wf(),
            token@ == Map::<usize, T>::empty(),
    {
        let token = Self { cells: Vec::new(), free: Vec::new(), live: 0 };
        assert(token@ =~= Map::<usize, T>::empty());
        token
    }

    /// Runs `f` with the token of a fresh scope, in which no cell lives yet.
    pub fn scope<F, R>(f: F) -> (r: R) where F: FnOnce(GhostToken<T>) -> R
        requires
            forall|token: GhostToken<T>|
                token.wf() && token@ == Map::<usize, T>::empty() ==> f.requires((token,)),
        ensures
            exists|token: GhostToken<T>|
                token.wf() && token@ == Map::<usize, T>::empty() && f.ensures((token,), r),
    {
        let token = Self::new();
        f(token)
    }

    /// Puts `cell` into a slot that holds nothing and returns the slot's index.
    pub(crate) fn allocate(&mut self, cell: GhostCell<T>) -> (addr: usize)
        requires
            old(self).wf(),
        ensures
            final(self).wf(),
            !old(self)@.dom().contains(addr),
            final(self)@ == old(self)@.insert(addr, cell@),
    {
        let addr: usize = match self.free.pop() {
            Some(a) => {
                self.cells[a] = Some(cell);
                a
            },
            None => {
                self.cells.push(Some(cell));
                self.cells.len() - 1
            },
        };
        self.live = self.live + 1;
        assert(self@ =~= old(self)@.insert(addr, cell@));
        addr
    }

    /// Empties the slot `addr` and returns the cell that was in it.
    pub(crate) fn release(&mut self, addr: usize) -> (cell: GhostCell<T>)
        requires
            old(self).wf(),
            old(self)@.dom().contains(addr),
        ensures
            final(self).wf(),
            cell@ == old(self)@[addr],
            final(self)@ == old(self)@.remove(addr),
    {
        let cell = self.cells[addr].take().unwrap();
        self.free.push(addr);
        self.live = self.live - 1;
        assert(self@ =~= old(self)@.remove(addr));
        cell
    }

    /// The value of the live cell at `addr`.
    pub(crate) fn read(&self, addr: usize) -> (r: &T)
        requires
            self.wf(),
            self@.dom().contains(addr),
        ensures
            *r == self@[addr],
    {
        self.cells[addr].as_ref().unwrap().borrow_unchecked()
    }

    /// Exclusive access to the value of the live cell at `addr`.
    pub(crate) fn write(&mut self, addr: usize) -> (r: &mut T)
        requires
            old(self).wf(),
            old(self)@.dom().contains(addr),
        ensures
            *r == old(self)@[addr],
            final(self).wf(),
            final(self)@ == old(self)@.insert(addr, *final(r)),
    {
        proof {
            let before = *self;
            assert forall|after: Self| before.rewritten(after, addr) implies #[trigger] after.wf()
                && after@ == before@.insert(addr, after@[addr]) by {
                assert(after@ =~= before@.insert(addr, after@[addr]));
                assert(after@.dom() =~= before@.dom());
            }
        }
        self.cells[addr].as_mut().unwrap().borrow_mut_unchecked()
    }

    /// `after` is `self` with another value in the live cell at `addr`.
    spec fn rewritten(&self, after: Self, addr: usize) -> bool {
        &&& after.free == self.free
        &&& after.live == self.live
        &&& after.cells.len() == self.cells.len()
        &&& after.cells[addr as int] is Some
        &&& forall|a: int|
            0 <= a < self.cells.len() && a != addr ==> after.cells[a] == self.cells[a]
    }
}

} // verus!
