//! Natural numbers of any size, as lists of digits to a large base.

use vstd::prelude::*;

#[allow(unused_imports)]
use vstd::arithmetic::power2::{lemma2_to64, lemma_pow2_adds, pow2};

verus! {

/// The base of the digits.
pub const BASE: u64 = 0x1_0000_0000;

/// The number that digits stand for, the lowest first.
pub open spec fn value_of(digits: Seq<u32>) -> nat
    decreases digits.len(),
{
    if digits.len() == 0 {
        0
    } else {
        digits[0] as nat + BASE as nat * value_of(digits.drop_first())
    }
}

/// A natural number.
#[derive(Debug)]
pub struct Big {
    digits: Vec<u32>,
}

impl View for Big {
    type V = nat;

    closed spec fn view(&self) -> nat {
        value_of(self.digits@)
    }
}

/// The weight of a position.
spec fn weight_at(k: nat) -> nat
    decreases k,
{
    if k == 0 {
        1
    } else {
        BASE as nat * weight_at((k - 1) as nat)
    }
}

proof fn lemma_value_push(digits: Seq<u32>, d: u32)
    ensures
        value_of(digits.push(d)) == value_of(digits) + weight_at(digits.len()) * d as nat,
    decreases digits.len(),
{
    let all: Seq<u32> = digits.push(d);
    if digits.len() == 0 {
        assert(all.drop_first() =~= Seq::<u32>::empty());
        reveal_with_fuel(value_of, 2);
        assert(weight_at(0) * d as nat == d as nat) by (nonlinear_arith)
            requires
                weight_at(0) == 1,
        ;
    } else {
        assert(all.drop_first() =~= digits.drop_first().push(d));
        lemma_value_push(digits.drop_first(), d);
        let w: nat = weight_at((digits.len() - 1) as nat);
        let v: nat = value_of(digits.drop_first());
        assert(BASE as nat * (v + w * d as nat) == BASE as nat * v + BASE as nat * w * d as nat)
            by (nonlinear_arith);
    }
}

impl Big {
    /// A small number.
    pub fn from_word(n: u32) -> (big: Self)
        ensures
            big@ == n,
    {
        let mut digits: Vec<u32> = Vec::new();
        digits.push(n);
        proof {
            assert(digits@.drop_first() =~= Seq::<u32>::empty());
            reveal_with_fuel(value_of, 2);
        }
        Big { digits }
    }

    /// A number of one word.
    pub fn from_u64(n: u64) -> (big: Self)
        ensures
            big@ == n,
    {
        let mut big: Big = Big::from_word((n / BASE) as u32);
        let low: u64 = n % BASE;
        big.scale(0x1_0000, (low / 0x1_0000) as u32);
        big.scale(0x1_0000, (low % 0x1_0000) as u32);
        big
    }

    /// Multiplies by a small number and adds another.
    pub fn scale(&mut self, factor: u32, addend: u32)
        ensures
            final(self)@ == old(self)@ * factor + addend,
    {
        let ghost all: Seq<u32> = self.digits@;
        let mut fresh: Vec<u32> = Vec::new();
        let mut carry: u64 = addend as u64;
        let mut k: usize = 0;
        proof {
            assert(all.take(0) =~= Seq::<u32>::empty());
            assert(value_of(all.take(0)) * factor + addend == addend) by {
                assert(value_of(all.take(0)) == 0);
                assert(0 * factor == 0) by (nonlinear_arith);
            }
            assert(value_of(fresh@) == 0);
            assert(weight_at(0) * carry == carry) by (nonlinear_arith)
                requires
                    weight_at(0) == 1,
            ;
        }
        while k < self.digits.len()
            invariant
                k <= self.digits.len(),
                all == self.digits@,
                fresh@.len() == k,
                carry < BASE,
                value_of(fresh@) + weight_at(k as nat) * carry == value_of(all.take(k as int))
                    * factor + addend,
            decreases self.digits.len() - k,
        {
            let d: u32 = self.digits[k];
            proof {
                assert(d * factor <= 0xffff_ffff * 0xffff_ffff) by (nonlinear_arith)
                    requires
                        d <= 0xffff_ffff,
                        factor <= 0xffff_ffff,
                ;
            }
            let sum: u64 = d as u64 * factor as u64 + carry;
            let low: u32 = (sum % BASE) as u32;
            let high: u64 = sum / BASE;
            proof {
                let w: nat = weight_at(k as nat);
                lemma_value_push(fresh@, low);
                lemma_value_push(all.take(k as int), d);
                assert(all.take(k as int + 1) =~= all.take(k as int).push(d));
                let before: nat = value_of(all.take(k as int));
                let v: nat = value_of(fresh@);
                assert(v + w * low as nat + (BASE as nat * w) * high == (before + w * d as nat)
                    * factor + addend) by (nonlinear_arith)
                    requires
                        v + w * carry == before * factor + addend,
                        sum == d * factor + carry,
                        sum == BASE * high + low,
                ;
                assert(weight_at((k + 1) as nat) == BASE as nat * w);
                assert(high < BASE) by (nonlinear_arith)
                    requires
                        sum <= 0xffff_ffff * 0xffff_ffff + 0xffff_ffff,
                        sum == BASE * high + low,
                        low >= 0,
                ;
            }
            fresh.push(low);
            carry = high;
            k = k + 1;
        }
        proof {
            assert(all.take(k as int) =~= all);
            lemma_value_push(fresh@, carry as u32);
        }
        if carry > 0 {
            fresh.push(carry as u32);
        } else {
            proof {
                assert(weight_at(k as nat) * 0 == 0) by (nonlinear_arith);
            }
        }
        self.digits = fresh;
    }

    /// Multiplies by a small number, several times.
    pub fn scale_often(&mut self, factor: u32, times: u128)
        ensures
            final(self)@ == old(self)@ * vstd::arithmetic::power::pow(
                factor as int,
                times as nat,
            ),
    {
        let ghost start: nat = self@;
        let mut i: u128 = 0;
        proof {
            vstd::arithmetic::power::lemma_pow0(factor as int);
            assert(start * 1 == start) by (nonlinear_arith);
        }
        while i < times
            invariant
                i <= times,
                self@ == start * vstd::arithmetic::power::pow(factor as int, i as nat),
            decreases times - i,
        {
            let ghost before: nat = self@;
            self.scale(factor, 0);
            proof {
                let p: int = vstd::arithmetic::power::pow(factor as int, i as nat);
                reveal(vstd::arithmetic::power::pow);
                assert(vstd::arithmetic::power::pow(factor as int, (i + 1) as nat) == factor * p);
                assert(before * factor == start * (factor * p)) by (nonlinear_arith)
                    requires
                        before == start * p,
                ;
            }
            i = i + 1;
        }
    }

    /// Multiplies by a power of two.
    pub fn double_often(&mut self, times: u32)
        ensures
            final(self)@ == old(self)@ * pow2(times as nat),
    {
        let ghost start: nat = self@;
        let mut left: u32 = times;
        proof {
            lemma2_to64();
            assert(start * 1 == start) by (nonlinear_arith);
        }
        while left > 0
            invariant
                left <= times,
                self@ == start * pow2((times - left) as nat),
            decreases left,
        {
            let step: u32 = if left >= 24 {
                24
            } else {
                1
            };
            let ghost before: nat = self@;
            self.scale(
                if left >= 24 {
                    0x100_0000
                } else {
                    2
                },
                0,
            );
            proof {
                lemma2_to64();
                let p: nat = pow2((times - left) as nat);
                let q: nat = pow2(step as nat);
                lemma_pow2_adds((times - left) as nat, step as nat);
                assert(before * q == start * (p * q)) by (nonlinear_arith)
                    requires
                        before == start * p,
                ;
            }
            left = left - step;
        }
    }

    /// Where the number stands relative to another.
    pub fn order(&self, other: &Big) -> (place: crate::order::Place)
        ensures
            place == crate::order::int_place(self@ as int, other@ as int),
    {
        let ghost x: Seq<u32> = self.digits@;
        let ghost y: Seq<u32> = other.digits@;
        let mut place: crate::order::Place = crate::order::Place::Same;
        let len: usize = if self.digits.len() > other.digits.len() {
            self.digits.len()
        } else {
            other.digits.len()
        };
        let mut k: usize = 0;
        proof {
            assert(padded(x, 0) =~= Seq::<u32>::empty());
            assert(padded(y, 0) =~= Seq::<u32>::empty());
        }
        while k < len
            invariant
                k <= len,
                x == self.digits@,
                y == other.digits@,
                place == crate::order::int_place(
                    value_of(padded(x, k as nat)) as int,
                    value_of(padded(y, k as nat)) as int,
                ),
            decreases len - k,
        {
            let c: u32 = if k < self.digits.len() {
                self.digits[k]
            } else {
                0
            };
            let d: u32 = if k < other.digits.len() {
                other.digits[k]
            } else {
                0
            };
            proof {
                lemma_padded_push(x, k as nat, c);
                lemma_padded_push(y, k as nat, d);
                lemma_value_bound(padded(x, k as nat));
                lemma_value_bound(padded(y, k as nat));
                let w: int = weight_at(k as nat) as int;
                let p: int = value_of(padded(x, k as nat)) as int;
                let q: int = value_of(padded(y, k as nat)) as int;
                assert((c < d ==> p + w * c < q + w * d) && (c > d ==> p + w * c > q + w * d) && (c
                    == d ==> w * c == w * d)) by (nonlinear_arith)
                    requires
                        0 <= p < w,
                        0 <= q < w,
                ;
            }
            if c < d {
                place = crate::order::Place::Before;
            } else if c > d {
                place = crate::order::Place::After;
            }
            k = k + 1;
        }
        proof {
            lemma_padded_value(x, k as nat);
            lemma_padded_value(y, k as nat);
        }
        place
    }
}

/// The first `k` digits, zeros where there are none.
spec fn padded(digits: Seq<u32>, k: nat) -> Seq<u32> {
    Seq::new(
        k,
        |i: int|
            if i < digits.len() {
                digits[i]
            } else {
                0
            },
    )
}

proof fn lemma_padded_push(digits: Seq<u32>, k: nat, d: u32)
    requires
        d == if k < digits.len() {
            digits[k as int]
        } else {
            0
        },
    ensures
        value_of(padded(digits, (k + 1) as nat)) == value_of(padded(digits, k)) + weight_at(k)
            * d as nat,
{
    assert(padded(digits, (k + 1) as nat) =~= padded(digits, k).push(d));
    lemma_value_push(padded(digits, k), d);
}

proof fn lemma_padded_value(digits: Seq<u32>, k: nat)
    requires
        k >= digits.len(),
    ensures
        value_of(padded(digits, k)) == value_of(digits),
    decreases k,
{
    if k == digits.len() {
        assert(padded(digits, k) =~= digits);
    } else {
        lemma_padded_value(digits, (k - 1) as nat);
        lemma_padded_push(digits, (k - 1) as nat, 0);
        assert(weight_at((k - 1) as nat) * 0 == 0) by (nonlinear_arith);
    }
}

proof fn lemma_value_bound(digits: Seq<u32>)
    ensures
        value_of(digits) < weight_at(digits.len()),
    decreases digits.len(),
{
    if digits.len() > 0 {
        lemma_value_bound(digits.drop_first());
        let v: int = value_of(digits.drop_first()) as int;
        let w: int = weight_at((digits.len() - 1) as nat) as int;
        let d: int = digits[0] as int;
        assert(d + BASE * v < BASE * w) by (nonlinear_arith)
            requires
                0 <= d < BASE,
                v + 1 <= w,
        ;
    }
}

} // verus!
