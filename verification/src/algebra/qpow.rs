use vstd::prelude::*;
use vstd::arithmetic::power::{pow, lemma_pow0, lemma_pow1, lemma_pow_adds};
use vstd::arithmetic::div_mod::{lemma_mul_mod_noop_general, lemma_small_mod};
use crate::algebra::modular::Modular;

verus! {

/// Powers by repeated squaring.
pub trait QuickPow: Sized {
    /// The inputs on which the squarings stay within the type's range.
    spec fn pow_req(self, p: usize) -> bool;

    /// What the power is.
    spec fn pow_spec(self, p: usize) -> Self;

    fn pow(self, p: usize) -> (power: Self)
        requires
            self.pow_req(p),
        ensures
            power == self.pow_spec(p),
    ;
}

impl QuickPow for Modular<u64> {
    open spec fn pow_req(self, p: usize) -> bool {
        0 < self.modulus() <= 0x1_0000_0000 && self.value() <= 0xffff_ffff
    }

    /// With exponent zero the neutral element of the product; otherwise the
    /// power of the number, reduced by the modulus.
    open spec fn pow_spec(self, p: usize) -> Self {
        if p == 0 {
            Modular::<u64>::one_spec()
        } else {
            Modular::<u64>::of((pow(self.value() as int, p as nat) % (self.modulus() as int)) as u64, self.modulus())
        }
    }

    fn pow(self, p: usize) -> (power: Self)
        ensures
            p == 0 ==> power.value() == 1 && power.modulus() == 1,
            p != 0 ==> power.value() == pow(self.value() as int, p as nat) % (
            self.modulus() as int) && power.modulus() == self.modulus(),
    {
        let ghost e = p as nat;
        let mut p = p;
        let mut base = self;
        let mut product = Modular::<u64>::one();
        let ghost b = self.value() as int;
        let ghost m = self.modulus() as int;
        proof {
            lemma_pow0(b);
            lemma_pow1(b);
        }
        let ghost mut hit = false;
        while p != 0
            invariant
                m == self.modulus(),
                b == self.value(),
                0 < m <= 0x1_0000_0000,
                base.modulus() == m,
                base.value() <= 0xffff_ffff,
                !hit ==> product.value() == 1 && product.modulus() == 1,
                hit ==> product.modulus() == m && product.value() < m,
                p == 0 && e != 0 ==> hit,
                hit ==> e != 0,
                p <= e,
                (product.value() * pow(base.value() as int, p as nat)) % m == pow(b, e) % m,
            decreases p,
        {
            let ghost old_p = p as nat;
            let ghost old_base = base.value() as int;
            let ghost old_product = product.value() as int;
            if p % 2 != 0 {
                assert(product.value() * base.value() <= u64::MAX) by (nonlinear_arith)
                    requires
                        product.value() <= 0x1_0000_0000,
                        base.value() <= 0xffff_ffff,
                ;
                product = product * base;
                proof {
                    hit = true;
                }
            }
            assert(base.value() * base.value() <= u64::MAX) by (nonlinear_arith)
                requires
                    base.value() <= 0xffff_ffff,
            ;
            base = base * base;
            p = p / 2;
            proof {
                lemma_square_step(old_product, old_base, old_p, m);
            }
        }
        proof {
            lemma_pow0(base.value() as int);
            product.lemma_parts();
            if e != 0 {
                assert(product.value() * pow(base.value() as int, 0) == product.value());
                lemma_small_mod(product.value() as nat, m as nat);
                assert(product.value() == pow(b, e) % m);
            } else {
                assert(!hit);
            }
        }
        product
    }
}

/// One step of repeated squaring keeps the product of what was gathered and
/// what is still to be raised, up to the modulus.
proof fn lemma_square_step(product: int, base: int, p: nat, m: int)
    requires
        p > 0,
        m > 0,
    ensures
        ((if p % 2 != 0 {
            (product * base) % m
        } else {
            product
        }) * pow((base * base) % m, p / 2)) % m == (product * pow(base, p)) % m,
{
    let half = p / 2;
    let sq = base * base;
    assert(pow(sq, half) == pow(base, 2 * half)) by {
        vstd::arithmetic::power::lemma_pow_multiplies(base, 2, half);
        assert(pow(base, 2) == base * base) by {
            reveal_with_fuel(pow, 3);
        }
    }
    vstd::arithmetic::power::lemma_pow_mod_noop(sq, half, m);
    let acc = if p % 2 != 0 {
        (product * base) % m
    } else {
        product
    };
    // acc * pow(sq % m, half)  ==  acc * pow(sq, half)  (mod m)
    lemma_mul_mod_noop_general(acc, pow(sq % m, half), m);
    lemma_mul_mod_noop_general(acc, pow(sq, half), m);
    if p % 2 != 0 {
        assert(p == 2 * half + 1);
        lemma_pow_adds(base, 1, 2 * half);
        lemma_pow1(base);
        lemma_mul_mod_noop_general(product * base, pow(sq, half), m);
        assert((product * base) * pow(base, 2 * half) == product * (base * pow(base, 2 * half)))
            by (nonlinear_arith);
    } else {
        assert(p == 2 * half);
    }
}

/// Takes any value whose powers can be had by repeated squaring.
pub fn qpow_type_check(_v: impl QuickPow) {
}

} // verus!
