use vstd::prelude::*;
use vstd::std_specs::ops::{AddSpecImpl, MulSpecImpl};
use vstd::pervasive::cloned;
use core::ops::{Add, Mul, Rem};

verus! {

/// A number together with the modulus by which it is reduced.
pub struct Modular<T>(T, T);

impl<T> Modular<T> {
    /// The number.
    pub closed spec fn value(&self) -> T {
        self.0
    }

    /// The modulus.
    pub closed spec fn modulus(&self) -> T {
        self.1
    }

    /// The number `n` with the modulus `m`.
    pub closed spec fn of(n: T, m: T) -> Self {
        Modular(n, m)
    }

    /// A value of this type is its number and its modulus, and nothing more.
    pub proof fn lemma_parts(self)
        ensures
            self == Self::of(self.value(), self.modulus()),
    {
    }

    /// The number and the modulus of a value are those that it was made of.
    pub proof fn lemma_of(n: T, m: T)
        ensures
            Self::of(n, m).value() == n,
            Self::of(n, m).modulus() == m,
    {
    }

    /// The number `n` with the modulus `m`; the number is taken as it is.
    pub fn new(n: T, m: T) -> (made: Self)
        ensures
            made == Self::of(n, m),
            made.value() == n,
            made.modulus() == m,
    {
        Self(n, m)
    }

    /// The number.
    pub fn get(&self) -> (n: &T)
        ensures
            *n == self.value(),
    {
        &self.0
    }

    /// The modulus.
    pub fn modular(&self) -> (m: &T)
        ensures
            *m == self.modulus(),
    {
        &self.1
    }
}

impl<T: Copy> Copy for Modular<T> {

}

impl<T: Clone> Clone for Modular<T> {
    fn clone(&self) -> (copy: Self)
        ensures
            cloned(self.value(), copy.value()),
            cloned(self.modulus(), copy.modulus()),
    {
        Self(self.0.clone(), self.1.clone())
    }
}

impl Modular<u64> {
    /// The neutral element of the product.
    pub open spec fn one_spec() -> Self {
        Self::of(1, 1)
    }

    /// The neutral element of the product: one, reduced by one.
    pub fn one() -> (made: Self)
        ensures
            made == Self::one_spec(),
            made.value() == 1,
            made.modulus() == 1,
    {
        Self(1, 1)
    }

    /// The neutral element of the sum: zero, reduced by zero.
    pub fn zero() -> (made: Self)
        ensures
            made == Self::of(0, 0),
            made.value() == 0,
            made.modulus() == 0,
    {
        Self(0, 0)
    }

    /// Whether the number is zero, whatever the modulus.
    pub fn is_zero(&self) -> (zero: bool)
        ensures
            zero == (self.value() == 0),
    {
        self.0 == 0
    }
}

/// What `a + b`, reduced by a copy of `m`, may be: the operators of `T` say what
/// they return, and so does its `clone`.
pub open spec fn reduced_sum<T: Add<Output = T> + Rem<Output = T> + Clone>(
    a: T,
    b: T,
    m: T,
    r: T,
) -> bool {
    exists|s: T, c: T|
        #![trigger call_ensures(T::rem, (s, c), r)]
        call_ensures(T::add, (a, b), s) && cloned(m, c) && call_ensures(T::rem, (s, c), r)
}

/// What `a * b`, reduced by a copy of `m`, may be.
pub open spec fn reduced_product<T: Mul<Output = T> + Rem<Output = T> + Clone>(
    a: T,
    b: T,
    m: T,
    r: T,
) -> bool {
    exists|s: T, c: T|
        #![trigger call_ensures(T::rem, (s, c), r)]
        call_ensures(T::mul, (a, b), s) && cloned(m, c) && call_ensures(T::rem, (s, c), r)
}

impl<T: Add<Output = T> + Rem<Output = T> + Clone> AddSpecImpl for Modular<T> {
    open spec fn obeys_add_spec() -> bool {
        false
    }

    open spec fn add_req(self, rhs: Self) -> bool {
        &&& call_requires(T::add, (self.value(), rhs.value()))
        &&& call_requires(T::clone, (&rhs.modulus(),))
        &&& forall|s: T, c: T|
            call_ensures(T::add, (self.value(), rhs.value()), s) && cloned(rhs.modulus(), c) ==> #[trigger] call_requires(
                T::rem,
                (s, c),
            )
    }

    open spec fn add_spec(self, rhs: Self) -> Self {
        rhs
    }
}

/// The sum takes the modulus of the right operand and is reduced by it.
impl<T: Add<Output = T> + Rem<Output = T> + Clone> Add for Modular<T> {
    type Output = Self;

    fn add(self, rhs: Self) -> (sum: Self)
        ensures
            reduced_sum(self.value(), rhs.value(), rhs.modulus(), sum.value()),
            sum.modulus() == rhs.modulus(),
    {
        let s = self.0 + rhs.0;
        let c = rhs.1.clone();
        let r = s % c;
        assert(call_ensures(T::rem, (s, c), r));
        Self(r, rhs.1)
    }
}

impl<T: Mul<Output = T> + Rem<Output = T> + Clone> MulSpecImpl for Modular<T> {
    open spec fn obeys_mul_spec() -> bool {
        false
    }

    open spec fn mul_req(self, rhs: Self) -> bool {
        &&& call_requires(T::mul, (self.value(), rhs.value()))
        &&& call_requires(T::clone, (&rhs.modulus(),))
        &&& forall|s: T, c: T|
            call_ensures(T::mul, (self.value(), rhs.value()), s) && cloned(rhs.modulus(), c) ==> #[trigger] call_requires(
                T::rem,
                (s, c),
            )
    }

    open spec fn mul_spec(self, rhs: Self) -> Self {
        rhs
    }
}

/// The product takes the modulus of the right operand and is reduced by it.
impl<T: Mul<Output = T> + Rem<Output = T> + Clone> Mul for Modular<T> {
    type Output = Self;

    fn mul(self, rhs: Self) -> (product: Self)
        ensures
            reduced_product(self.value(), rhs.value(), rhs.modulus(), product.value()),
            product.modulus() == rhs.modulus(),
    {
        let s = self.0 * rhs.0;
        let c = rhs.1.clone();
        let r = s % c;
        assert(call_ensures(T::rem, (s, c), r));
        Self(r, rhs.1)
    }
}

impl<T: Add<Output = T> + Rem<Output = T> + Clone> AddSpecImpl<T> for Modular<T> {
    open spec fn obeys_add_spec() -> bool {
        false
    }

    open spec fn add_req(self, rhs: T) -> bool {
        &&& call_requires(T::add, (self.value(), rhs))
        &&& call_requires(T::clone, (&self.modulus(),))
        &&& forall|s: T, c: T|
            call_ensures(T::add, (self.value(), rhs), s) && cloned(self.modulus(), c) ==> #[trigger] call_requires(
                T::rem,
                (s, c),
            )
    }

    open spec fn add_spec(self, rhs: T) -> Self {
        self
    }
}

/// The sum with a plain number keeps the modulus and is reduced by it.
impl<T: Add<Output = T> + Rem<Output = T> + Clone> Add<T> for Modular<T> {
    type Output = Self;

    fn add(self, rhs: T) -> (sum: Self)
        ensures
            reduced_sum(self.value(), rhs, self.modulus(), sum.value()),
            sum.modulus() == self.modulus(),
    {
        let s = self.0 + rhs;
        let c = self.1.clone();
        let r = s % c;
        assert(call_ensures(T::rem, (s, c), r));
        Self(r, self.1)
    }
}

impl<T: Mul<Output = T> + Rem<Output = T> + Clone> MulSpecImpl<T> for Modular<T> {
    open spec fn obeys_mul_spec() -> bool {
        false
    }

    open spec fn mul_req(self, rhs: T) -> bool {
        &&& call_requires(T::mul, (self.value(), rhs))
        &&& call_requires(T::clone, (&self.modulus(),))
        &&& forall|s: T, c: T|
            call_ensures(T::mul, (self.value(), rhs), s) && cloned(self.modulus(), c) ==> #[trigger] call_requires(
                T::rem,
                (s, c),
            )
    }

    open spec fn mul_spec(self, rhs: T) -> Self {
        self
    }
}

/// The product with a plain number keeps the modulus and is reduced by it.
impl<T: Mul<Output = T> + Rem<Output = T> + Clone> Mul<T> for Modular<T> {
    type Output = Self;

    fn mul(self, rhs: T) -> (product: Self)
        ensures
            reduced_product(self.value(), rhs, self.modulus(), product.value()),
            product.modulus() == self.modulus(),
    {
        let s = self.0 * rhs;
        let c = self.1.clone();
        let r = s % c;
        assert(call_ensures(T::rem, (s, c), r));
        Self(r, self.1)
    }
}

/// Over `u64` the operators and `clone` return what the arithmetic says: the
/// reduced sum and the reduced product are the remainders.
pub proof fn lemma_reduced_u64(a: u64, b: u64, m: u64, r: u64)
    requires
        m != 0,
    ensures
        a + b <= u64::MAX && reduced_sum(a, b, m, r) ==> r == (a + b) % (m as int),
        a * b <= u64::MAX && reduced_product(a, b, m, r) ==> r == (a * b) % (m as int),
{
}

/// The number that folding the first `n` of `items` into a sum leaves, each
/// step reduced by the modulus of the first item.
pub open spec fn summed(items: Seq<Modular<u64>>, n: nat) -> int
    decreases n,
{
    if n == 0 {
        0
    } else if n == 1 {
        items[0].value() as int
    } else {
        (summed(items, (n - 1) as nat) + items[n - 1].value()) % (items[0].modulus() as int)
    }
}

impl Modular<u64> {
    /// Adds `rhs` in place; the sum takes the modulus of `rhs`.
    pub fn add_assign(&mut self, rhs: Self)
        requires
            old(self).value() + rhs.value() <= u64::MAX,
            rhs.modulus() != 0,
        ensures
            final(self).value() == (old(self).value() + rhs.value()) % (rhs.modulus() as int),
            final(self).modulus() == rhs.modulus(),
    {
        self.0 = self.0 + rhs.0;
        self.0 = self.0 % rhs.1;
        self.1 = rhs.1;
    }

    /// Multiplies by `rhs` in place; the product takes the modulus of `rhs`.
    pub fn mul_assign(&mut self, rhs: Self)
        requires
            old(self).value() * rhs.value() <= u64::MAX,
            rhs.modulus() != 0,
        ensures
            final(self).value() == (old(self).value() * rhs.value()) % (rhs.modulus() as int),
            final(self).modulus() == rhs.modulus(),
    {
        self.0 = self.0 * rhs.0;
        self.0 = self.0 % rhs.1;
        self.1 = rhs.1;
    }

    /// The sum of `items`, folded from the first on and reduced at each step
    /// by the modulus of the first; of no items, zero.
    pub fn sum(items: &[Modular<u64>]) -> (total: Self)
        requires
            items.len() >= 2 ==> items[0].modulus() != 0,
            forall|n: nat|
                2 <= n <= items.len() ==> #[trigger] summed(items@, (n - 1) as nat) + items[n
                    - 1].value() <= u64::MAX,
        ensures
            items.len() == 0 ==> total == Self::of(0, 0),
            items.len() > 0 ==> total.value() == summed(items@, items.len() as nat)
                && total.modulus() == items[0].modulus(),
    {
        if items.len() == 0 {
            return Self::zero();
        }
        let mut total = items[0];
        let mut i: usize = 1;
        while i < items.len()
            invariant
                1 <= i <= items.len(),
                items.len() >= 2 ==> items[0].modulus() != 0,
                forall|n: nat|
                    2 <= n <= items.len() ==> #[trigger] summed(items@, (n - 1) as nat) + items[n
                        - 1].value() <= u64::MAX,
                total.value() == summed(items@, i as nat),
                total.modulus() == items[0].modulus(),
            decreases items.len() - i,
        {
            let ghost n = (i + 1) as nat;
            assert(summed(items@, (n - 1) as nat) + items[n - 1].value() <= u64::MAX);
            total = Self((total.0 + items[i].0) % total.1, total.1);
            i = i + 1;
        }
        total
    }
}

} // verus!
