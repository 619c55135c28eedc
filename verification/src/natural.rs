//! Natural numbers of any size.
//!
//! The layout compares products of panel sizes and split counts, which have
//! no bound. A number is held as its digits to the base 2^64, lowest first.

use vstd::prelude::*;

verus! {

/// The base to the power `n`, where the base is 2^64.
pub open spec fn pow_base(n: nat) -> nat
    decreases n,
{
    if n == 0 {
        1
    } else {
        0x1_0000_0000_0000_0000 * pow_base((n - 1) as nat)
    }
}

/// The number with the given digits, lowest first.
pub open spec fn digits_value(s: Seq<u64>) -> nat
    decreases s.len(),
{
    if s.len() == 0 {
        0
    } else {
        digits_value(s.drop_last()) + s.last() as nat * pow_base((s.len() - 1) as nat)
    }
}

/// The digit at place `i`, zero beyond the last digit.
pub open spec fn digit_at(s: Seq<u64>, i: int) -> nat {
    if 0 <= i < s.len() {
        s[i] as nat
    } else {
        0
    }
}

/// The number made of the lowest `i` digits.
pub open spec fn low_value(s: Seq<u64>, i: int) -> nat {
    if i >= s.len() {
        digits_value(s)
    } else if i <= 0 {
        0
    } else {
        digits_value(s.take(i))
    }
}

proof fn lemma_low_value_step(s: Seq<u64>, i: int)
    requires
        0 <= i,
    ensures
        low_value(s, i + 1) == low_value(s, i) + digit_at(s, i) * pow_base(i as nat),
        low_value(s, 0) == 0,
{
    if i < s.len() {
        let t = s.take(i + 1);
        assert(t.drop_last() =~= s.take(i));
        assert(t.last() == s[i]);
        assert(s.take(s.len() as int) =~= s);
        if i == 0 {
            assert(digits_value(s.take(0)) == 0);
        }
    }
}

proof fn lemma_low_value_bound(s: Seq<u64>, i: int)
    requires
        0 <= i,
    ensures
        low_value(s, i) < pow_base(i as nat),
    decreases i,
{
    if i > 0 {
        lemma_low_value_bound(s, i - 1);
        lemma_low_value_step(s, i - 1);
        let p = pow_base((i - 1) as nat);
        let d = digit_at(s, i - 1);
        assert(low_value(s, i - 1) + d * p < 0x1_0000_0000_0000_0000 * p) by (nonlinear_arith)
            requires
                low_value(s, i - 1) < p,
                d <= 0xffff_ffff_ffff_ffff,
        ;
    } else {
        lemma_low_value_step(s, 0);
    }
}

/// A natural number of any size.
#[derive(Debug)]
pub struct Natural {
    digits: Vec<u64>,
}

impl Natural {
    /// The number.
    pub closed spec fn view(&self) -> nat {
        digits_value(self.digits@)
    }

    /// The number `x`.
    pub fn from_u64(x: u64) -> (r: Natural)
        ensures
            r@ == x,
    {
        let mut digits: Vec<u64> = Vec::new();
        digits.push(x);
        proof {
            assert(digits@.drop_last() =~= Seq::<u64>::empty());
            assert(digits_value(digits@.drop_last()) == 0);
            assert(x as nat * pow_base(0) == x) by (nonlinear_arith)
                requires
                    pow_base(0) == 1,
            ;
        }
        Natural { digits }
    }

    /// A copy of the number.
    pub fn duplicate(&self) -> (r: Natural)
        ensures
            r@ == self@,
    {
        let mut digits: Vec<u64> = Vec::new();
        let mut i: usize = 0;
        while i < self.digits.len()
            invariant
                i <= self.digits@.len(),
                digits@ == self.digits@.take(i as int),
            decreases self.digits@.len() - i,
        {
            digits.push(self.digits[i]);
            assert(self.digits@.take(i as int + 1) =~= self.digits@.take(i as int).push(
                self.digits@[i as int],
            ));
            i += 1;
        }
        assert(self.digits@.take(self.digits@.len() as int) =~= self.digits@);
        Natural { digits }
    }

    /// The product of the number and `m`.
    pub fn times_small(&self, m: u64) -> (r: Natural)
        ensures
            r@ == self@ * m,
    {
        let ghost s = self.digits@;
        let mut digits: Vec<u64> = Vec::new();
        let mut carry: u64 = 0;
        let mut i: usize = 0;
        proof {
            lemma_low_value_step(s, 0);
            assert(0 * m == 0) by (nonlinear_arith);
            assert(carry as nat * pow_base(0) == 0) by (nonlinear_arith)
                requires
                    carry == 0,
            ;
        }
        while i < self.digits.len()
            invariant
                i <= s.len(),
                s == self.digits@,
                digits@.len() == i,
                digits_value(digits@) + carry as nat * pow_base(i as nat) == low_value(s, i as int) * m,
            decreases s.len() - i,
        {
            let d = self.digits[i];
            proof {
                assert(d as nat * m as nat + carry as nat <= 0xffff_ffff_ffff_ffff
                    * 0xffff_ffff_ffff_ffff + 0xffff_ffff_ffff_ffff) by (nonlinear_arith)
                    requires
                        d <= 0xffff_ffff_ffff_ffff,
                        m <= 0xffff_ffff_ffff_ffff,
                        carry <= 0xffff_ffff_ffff_ffff,
                ;
            }
            let t: u128 = (d as u128) * (m as u128) + (carry as u128);
            let low: u64 = (t % 0x1_0000_0000_0000_0000u128) as u64;
            let high: u64 = (t / 0x1_0000_0000_0000_0000u128) as u64;
            proof {
                lemma_low_value_step(s, i as int);
                let p = pow_base(i as nat);
                let before = digits_value(digits@);
                let lv = low_value(s, i as int);
                assert(digits@.push(low).drop_last() =~= digits@);
                assert(before + low as nat * p + high as nat * (0x1_0000_0000_0000_0000 * p) == (lv
                    + d as nat * p) * m) by (nonlinear_arith)
                    requires
                        before + carry as nat * p == lv * m,
                        low as nat + high as nat * 0x1_0000_0000_0000_0000 == d as nat * m as nat
                            + carry as nat,
                ;
            }
            digits.push(low);
            carry = high;
            i += 1;
        }
        proof {
            let p = pow_base(i as nat);
            assert(digits@.push(carry).drop_last() =~= digits@);
        }
        digits.push(carry);
        Natural { digits }
    }

    /// The sum of the two numbers.
    pub fn plus(&self, other: &Natural) -> (r: Natural)
        ensures
            r@ == self@ + other@,
    {
        let ghost a = self.digits@;
        let ghost b = other.digits@;
        let n = if self.digits.len() > other.digits.len() {
            self.digits.len()
        } else {
            other.digits.len()
        };
        let mut digits: Vec<u64> = Vec::new();
        let mut carry: u64 = 0;
        let mut i: usize = 0;
        proof {
            lemma_low_value_step(a, 0);
            lemma_low_value_step(b, 0);
            assert(carry as nat * pow_base(0) == 0) by (nonlinear_arith)
                requires
                    carry == 0,
            ;
        }
        while i < n
            invariant
                i <= n,
                n >= a.len(),
                n >= b.len(),
                a == self.digits@,
                b == other.digits@,
                digits@.len() == i,
                carry <= 1,
                digits_value(digits@) + carry as nat * pow_base(i as nat) == low_value(a, i as int)
                    + low_value(b, i as int),
            decreases n - i,
        {
            let x: u64 = if i < self.digits.len() {
                self.digits[i]
            } else {
                0
            };
            let y: u64 = if i < other.digits.len() {
                other.digits[i]
            } else {
                0
            };
            let t: u128 = (x as u128) + (y as u128) + (carry as u128);
            let low: u64 = (t % 0x1_0000_0000_0000_0000u128) as u64;
            let high: u64 = (t / 0x1_0000_0000_0000_0000u128) as u64;
            proof {
                lemma_low_value_step(a, i as int);
                lemma_low_value_step(b, i as int);
                let p = pow_base(i as nat);
                let before = digits_value(digits@);
                assert(digits@.push(low).drop_last() =~= digits@);
                assert(before + low as nat * p + high as nat * (0x1_0000_0000_0000_0000 * p) == before
                    + carry as nat * p + x as nat * p + y as nat * p) by (nonlinear_arith)
                    requires
                        low as nat + high as nat * 0x1_0000_0000_0000_0000 == x as nat + y as nat
                            + carry as nat,
                ;
            }
            digits.push(low);
            carry = high;
            i += 1;
        }
        proof {
            assert(digits@.push(carry).drop_last() =~= digits@);
        }
        digits.push(carry);
        Natural { digits }
    }

    /// The product of the two numbers.
    pub fn times(&self, other: &Natural) -> (r: Natural)
        ensures
            r@ == self@ * other@,
    {
        let ghost b = other.digits@;
        let mut acc = Natural::from_u64(0);
        let mut i: usize = other.digits.len();
        proof {
            assert(acc@ * pow_base(i as nat) == 0) by (nonlinear_arith)
                requires
                    acc@ == 0,
            ;
            assert(self@ * 0 == 0) by (nonlinear_arith);
        }
        while i > 0
            invariant
                i <= b.len(),
                b == other.digits@,
                acc@ * pow_base(i as nat) == self@ * (digits_value(b) - low_value(b, i as int)),
            decreases i,
        {
            i -= 1;
            let half = acc.times_small(0x1_0000_0000u64);
            let shifted = half.times_small(0x1_0000_0000u64);
            let part = self.times_small(other.digits[i]);
            let next = shifted.plus(&part);
            proof {
                lemma_low_value_step(b, i as int);
                lemma_low_value_bound(b, i as int + 1);
                lemma_low_value_bound(b, b.len() as int);
                let p = pow_base(i as nat);
                let d = b[i as int] as nat;
                let whole = digits_value(b) as int;
                let low = low_value(b, i as int) as int;
                assert(next@ * p == self@ * (whole - low)) by (nonlinear_arith)
                    requires
                        next@ == acc@ * 0x1_0000_0000 * 0x1_0000_0000 + self@ * d,
                        acc@ * (0x1_0000_0000_0000_0000 * p) == self@ * (whole - (low + d * p)),
                ;
            }
            acc = next;
        }
        proof {
            lemma_low_value_step(b, 0);
            assert(acc@ * pow_base(0) == acc@) by (nonlinear_arith)
                requires
                    pow_base(0) == 1,
            ;
        }
        acc
    }

    /// Whether this number is greater than the other.
    pub fn is_greater_than(&self, other: &Natural) -> (r: bool)
        ensures
            r == (self@ > other@),
    {
        let ghost a = self.digits@;
        let ghost b = other.digits@;
        let n = if self.digits.len() > other.digits.len() {
            self.digits.len()
        } else {
            other.digits.len()
        };
        let mut i: usize = n;
        while i > 0
            invariant
                i <= n,
                n >= a.len(),
                n >= b.len(),
                a == self.digits@,
                b == other.digits@,
                digits_value(a) - low_value(a, i as int) == digits_value(b) - low_value(b, i as int),
            decreases i,
        {
            i -= 1;
            let x: u64 = if i < self.digits.len() {
                self.digits[i]
            } else {
                0
            };
            let y: u64 = if i < other.digits.len() {
                other.digits[i]
            } else {
                0
            };
            proof {
                lemma_low_value_step(a, i as int);
                lemma_low_value_step(b, i as int);
                lemma_low_value_bound(a, i as int);
                lemma_low_value_bound(b, i as int);
                let p = pow_base(i as nat);
                if x > y {
                    assert(low_value(b, i as int) + y as nat * p < x as nat * p) by (nonlinear_arith)
                        requires
                            low_value(b, i as int) < p,
                            y < x,
                    ;
                }
                if x < y {
                    assert(low_value(a, i as int) + x as nat * p < y as nat * p) by (nonlinear_arith)
                        requires
                            low_value(a, i as int) < p,
                            x < y,
                    ;
                }
            }
            if x > y {
                return true;
            }
            if x < y {
                return false;
            }
        }
        proof {
            lemma_low_value_step(a, 0);
            lemma_low_value_step(b, 0);
        }
        false
    }

    /// Whether the two numbers are the same.
    pub fn equals(&self, other: &Natural) -> (r: bool)
        ensures
            r == (self@ == other@),
    {
        !self.is_greater_than(other) && !other.is_greater_than(self)
    }
}

} // verus!
