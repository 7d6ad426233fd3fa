use vstd::prelude::*;

verus! {

/// A list of values of different types: the first value and the rest.
#[derive(Copy, Clone, Debug)]
pub struct Cons<H, T> {
    pub head: H,
    pub tail: T,
}

/// The list of no values.
#[derive(Copy, Clone, Debug)]
pub struct Nil;

/// A value that maps to a value of type `T`. A list maps element by element,
/// so a list and what it maps to have the same length.
pub trait HMap<T>: Sized {
    fn map(self) -> T;
}

impl<H, T, HH, TT> HMap<Cons<HH, TT>> for Cons<H, T> where H: HMap<HH>, T: HMap<TT> {
    fn map(self) -> (mapped: Cons<HH, TT>)
        ensures
            call_ensures(H::map, (self.head,), mapped.head),
            call_ensures(T::map, (self.tail,), mapped.tail),
    {
        Cons { head: self.head.map(), tail: self.tail.map() }
    }
}

impl HMap<Nil> for Nil {
    fn map(self) -> (mapped: Nil)
        ensures
            mapped == Nil,
    {
        Nil
    }
}

/// The type that a type maps to under `T`; for lists, element by element.
pub trait TypeMap<T> {
    type Result;
}

/// The type that `This` maps to under `Op`.
pub type TypeMapped<This, Op> = <This as TypeMap<Op>>::Result;

impl<H, T, HH, TT> TypeMap<Cons<HH, TT>> for Cons<H, T> where H: TypeMap<HH>, T: TypeMap<TT> {
    type Result = Cons<TypeMapped<H, HH>, TypeMapped<T, TT>>;
}

impl TypeMap<Nil> for Nil {
    type Result = Nil;
}

} // verus!
