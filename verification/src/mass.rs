//! Numbers of colours. A set of colours can hold more colours than any
//! machine integer counts, so a mass is a natural number of any size, kept
//! as its digits to the base 2^32, the least significant first.

use vstd::prelude::*;

verus! {

/// The base of the digits.
pub open spec fn base() -> nat {
    0x1_0000_0000
}

/// The weight of the digit at a position: the base to the power of the
/// position.
pub open spec fn weight(i: nat) -> nat
    decreases i,
{
    if i == 0 {
        1
    } else {
        base() * weight((i - 1) as nat)
    }
}

/// The digit at a position; zero beyond the last digit.
pub open spec fn digit_at(s: Seq<u32>, i: int) -> nat {
    if 0 <= i < s.len() {
        s[i] as nat
    } else {
        0
    }
}

/// The number that the first `i` digits stand for.
pub open spec fn value_upto(s: Seq<u32>, i: nat) -> nat
    decreases i,
{
    if i == 0 {
        0
    } else {
        value_upto(s, (i - 1) as nat) + digit_at(s, i - 1) * weight((i - 1) as nat)
    }
}

/// The number that the digits stand for.
pub open spec fn value_of(s: Seq<u32>) -> nat {
    value_upto(s, s.len())
}

/// Digits that agree below a position stand for the same number up to it.
pub proof fn lemma_value_same(s: Seq<u32>, t: Seq<u32>, i: nat)
    requires
        forall|k: int| 0 <= k < i ==> digit_at(s, k) == digit_at(t, k),
    ensures
        value_upto(s, i) == value_upto(t, i),
    decreases i,
{
    if i > 0 {
        lemma_value_same(s, t, (i - 1) as nat);
    }
}

/// Beyond the last digit nothing is added.
pub proof fn lemma_value_beyond(s: Seq<u32>, i: nat)
    requires
        i >= s.len(),
    ensures
        value_upto(s, i) == value_of(s),
    decreases i,
{
    if i > s.len() {
        lemma_value_beyond(s, (i - 1) as nat);
        assert(digit_at(s, i - 1) * weight((i - 1) as nat) == 0) by (nonlinear_arith)
            requires
                digit_at(s, i - 1) == 0,
        ;
    }
}

/// The weights are positive and grow with the position.
pub proof fn lemma_weight(i: nat, j: nat)
    requires
        i <= j,
    ensures
        0 < weight(i) <= weight(j),
    decreases j,
{
    if j == 0 {
    } else if i == j {
        lemma_weight(0, (j - 1) as nat);
        assert(base() * weight((j - 1) as nat) > 0) by (nonlinear_arith)
            requires
                weight((j - 1) as nat) > 0,
                base() > 0,
        ;
    } else {
        lemma_weight(i, (j - 1) as nat);
        assert(base() * weight((j - 1) as nat) >= weight((j - 1) as nat)) by (nonlinear_arith)
            requires
                weight((j - 1) as nat) > 0,
                base() >= 1,
        ;
    }
}

/// The first `i` digits stand for a number below the weight of position `i`.
pub proof fn lemma_value_bound(s: Seq<u32>, i: nat)
    ensures
        value_upto(s, i) < weight(i),
    decreases i,
{
    if i > 0 {
        let w = weight((i - 1) as nat);
        let d = digit_at(s, i - 1);
        lemma_value_bound(s, (i - 1) as nat);
        assert(d * w <= (base() - 1) * w) by (nonlinear_arith)
            requires
                d <= base() - 1,
                w >= 0,
        ;
        assert((base() - 1) * w + w == base() * w) by (nonlinear_arith);
    }
}

/// Digits that agree from a position on add the same to the number.
pub proof fn lemma_value_above(s: Seq<u32>, t: Seq<u32>, i: nat, n: nat)
    requires
        i <= n,
        forall|k: int| i <= k < n ==> digit_at(s, k) == digit_at(t, k),
    ensures
        value_upto(s, n) - value_upto(s, i) == value_upto(t, n) - value_upto(t, i),
    decreases n,
{
    if n > i {
        lemma_value_above(s, t, i, (n - 1) as nat);
    }
}

/// A number of colours.
pub struct Mass {
    digits: Vec<u32>,
}

impl View for Mass {
    type V = nat;

    closed spec fn view(&self) -> nat {
        value_of(self.digits@)
    }
}

impl Mass {
    /// The digit of `digits` at a position; zero beyond the last digit.
    fn digit(digits: &Vec<u32>, i: usize) -> (r: u32)
        ensures
            r == digit_at(digits@, i as int),
    {
        if i < digits.len() {
            digits[i]
        } else {
            0
        }
    }

    /// The larger of the two lengths.
    fn reach(a: &Vec<u32>, b: &Vec<u32>) -> (r: usize)
        ensures
            r >= a@.len(),
            r >= b@.len(),
            r == a@.len() || r == b@.len(),
    {
        if a.len() >= b.len() {
            a.len()
        } else {
            b.len()
        }
    }

    /// The mass of the given digits to the base 2^32, the least significant
    /// first.
    pub fn from_digits(digits: Vec<u32>) -> (r: Mass)
        ensures
            r@ == value_of(digits@),
    {
        Mass { digits }
    }

    /// The digits of the mass to the base 2^32, the least significant first.
    pub fn digits(&self) -> (r: &Vec<u32>)
        ensures
            value_of(r@) == self@,
    {
        &self.digits
    }

    /// The mass zero.
    pub fn zero() -> (r: Mass)
        ensures
            r@ == 0,
    {
        Mass { digits: Vec::new() }
    }

    /// The mass of the given number.
    pub fn from_u64(n: u64) -> (r: Mass)
        ensures
            r@ == n,
    {
        let mut digits: Vec<u32> = Vec::new();
        let low: u64 = n % 0x1_0000_0000;
        let high: u64 = n / 0x1_0000_0000;
        digits.push(low as u32);
        digits.push(high as u32);
        proof {
            lemma_small_weights();
            lemma_first_digits(digits@);
        }
        Mass { digits }
    }

    /// A copy of the mass.
    pub fn duplicate(&self) -> (r: Mass)
        ensures
            r@ == self@,
    {
        let mut digits: Vec<u32> = Vec::new();
        let mut i: usize = 0;
        while i < self.digits.len()
            invariant
                i <= self.digits@.len(),
                digits@ == self.digits@.subrange(0, i as int),
            decreases self.digits@.len() - i,
        {
            digits.push(self.digits[i]);
            proof {
                assert(digits@ =~= self.digits@.subrange(0, i + 1));
            }
            i += 1;
        }
        proof {
            assert(digits@ =~= self.digits@);
        }
        Mass { digits }
    }

    /// The sum of two masses.
    pub fn plus(&self, other: &Mass) -> (r: Mass)
        ensures
            r@ == self@ + other@,
    {
        let n: usize = Self::reach(&self.digits, &other.digits);
        let ghost a = self.digits@;
        let ghost b = other.digits@;
        let mut out: Vec<u32> = Vec::new();
        let mut carry: u64 = 0;
        let mut i: usize = 0;
        while i < n
            invariant
                i <= n,
                a == self.digits@,
                b == other.digits@,
                out@.len() == i,
                carry <= 1,
                value_upto(out@, i as nat) + carry * weight(i as nat) == value_upto(a, i as nat)
                    + value_upto(b, i as nat),
            decreases n - i,
        {
            let x: u64 = Self::digit(&self.digits, i) as u64;
            let y: u64 = Self::digit(&other.digits, i) as u64;
            let sum: u64 = x + y + carry;
            let low: u64 = sum % 0x1_0000_0000;
            let high: u64 = sum / 0x1_0000_0000;
            let ghost before = out@;
            out.push(low as u32);
            proof {
                let w = weight(i as nat);
                assert forall|k: int| 0 <= k < i implies digit_at(out@, k) == digit_at(
                    before,
                    k,
                ) by {}
                lemma_value_same(out@, before, i as nat);
                assert(digit_at(out@, i as int) == low);
                assert(weight((i + 1) as nat) == base() * w);
                assert(low * w + high * (base() * w) == sum * w) by (nonlinear_arith)
                    requires
                        sum == low + high * base(),
                ;
                assert((x + y + carry) * w == x * w + y * w + carry * w) by (nonlinear_arith);
            }
            carry = high;
            i += 1;
        }
        let ghost low_part = out@;
        if carry > 0 {
            out.push(carry as u32);
            proof {
                assert forall|k: int| 0 <= k < n implies digit_at(out@, k) == digit_at(
                    low_part,
                    k,
                ) by {}
                lemma_value_same(out@, low_part, n as nat);
                assert(digit_at(out@, n as int) == carry);
            }
        } else {
            proof {
                assert(carry * weight(n as nat) == 0) by (nonlinear_arith)
                    requires
                        carry == 0,
                ;
            }
        }
        proof {
            lemma_value_beyond(a, n as nat);
            lemma_value_beyond(b, n as nat);
        }
        Mass { digits: out }
    }

    /// The mass taken a number of times.
    pub fn times(&self, factor: u32) -> (r: Mass)
        ensures
            r@ == self@ * factor,
    {
        let n: usize = self.digits.len();
        let ghost a = self.digits@;
        let mut out: Vec<u32> = Vec::new();
        let mut carry: u64 = 0;
        let mut i: usize = 0;
        proof {
            assert(0 * factor == 0) by (nonlinear_arith);
            assert(0 * weight(0) == 0) by (nonlinear_arith);
        }
        while i < n
            invariant
                i <= n,
                n == a.len(),
                a == self.digits@,
                out@.len() == i,
                carry < 0x1_0000_0000,
                value_upto(out@, i as nat) + carry * weight(i as nat) == value_upto(a, i as nat)
                    * factor,
            decreases n - i,
        {
            let x: u64 = self.digits[i] as u64;
            let wide: u64 = factor as u64;
            proof {
                assert(x * wide <= 0xffff_ffff * 0xffff_ffff) by (nonlinear_arith)
                    requires
                        0 <= x <= 0xffff_ffff,
                        0 <= wide <= 0xffff_ffff,
                ;
            }
            let product: u64 = x * wide + carry;
            let low: u64 = product % 0x1_0000_0000;
            let high: u64 = product / 0x1_0000_0000;
            let ghost before = out@;
            out.push(low as u32);
            proof {
                let w = weight(i as nat);
                assert forall|k: int| 0 <= k < i implies digit_at(out@, k) == digit_at(
                    before,
                    k,
                ) by {}
                lemma_value_same(out@, before, i as nat);
                assert(digit_at(out@, i as int) == low);
                assert(digit_at(a, i as int) == x);
                assert(weight((i + 1) as nat) == base() * w);
                assert(low * w + high * (base() * w) == product * w) by (nonlinear_arith)
                    requires
                        product == low + high * base(),
                ;
                assert((x * wide + carry) * w == (x * w) * wide + carry * w) by (nonlinear_arith);
                assert((value_upto(a, i as nat) + x * w) * factor == value_upto(a, i as nat)
                    * factor + (x * w) * wide) by (nonlinear_arith)
                    requires
                        wide == factor,
                ;
            }
            carry = high;
            i += 1;
        }
        let ghost low_part = out@;
        if carry > 0 {
            out.push(carry as u32);
            proof {
                assert forall|k: int| 0 <= k < n implies digit_at(out@, k) == digit_at(
                    low_part,
                    k,
                ) by {}
                lemma_value_same(out@, low_part, n as nat);
                assert(digit_at(out@, n as int) == carry);
            }
        } else {
            proof {
                assert(carry * weight(n as nat) == 0) by (nonlinear_arith)
                    requires
                        carry == 0,
                ;
            }
        }
        Mass { digits: out }
    }

    /// Whether this mass is not below the other.
    pub fn at_least(&self, other: &Mass) -> (r: bool)
        ensures
            r == (self@ >= other@),
    {
        let n: usize = Self::reach(&self.digits, &other.digits);
        let ghost a = self.digits@;
        let ghost b = other.digits@;
        proof {
            lemma_value_beyond(a, n as nat);
            lemma_value_beyond(b, n as nat);
        }
        let mut i: usize = n;
        while i > 0
            invariant
                i <= n,
                a == self.digits@,
                b == other.digits@,
                value_upto(a, n as nat) == value_of(a),
                value_upto(b, n as nat) == value_of(b),
                forall|k: int| i <= k < n ==> digit_at(a, k) == digit_at(b, k),
            decreases i,
        {
            i -= 1;
            let x: u32 = Self::digit(&self.digits, i);
            let y: u32 = Self::digit(&other.digits, i);
            if x != y {
                proof {
                    let w = weight(i as nat);
                    lemma_value_above(a, b, (i + 1) as nat, n as nat);
                    lemma_value_bound(a, i as nat);
                    lemma_value_bound(b, i as nat);
                    assert(value_upto(a, (i + 1) as nat) == value_upto(a, i as nat) + x * w);
                    assert(value_upto(b, (i + 1) as nat) == value_upto(b, i as nat) + y * w);
                    if x > y {
                        assert(x * w >= y * w + w) by (nonlinear_arith)
                            requires
                                x >= y + 1,
                                w >= 0,
                        ;
                    } else {
                        assert(y * w >= x * w + w) by (nonlinear_arith)
                            requires
                                y >= x + 1,
                                w >= 0,
                        ;
                    }
                }
                return x > y;
            }
        }
        proof {
            lemma_value_same(a, b, n as nat);
        }
        true
    }

    /// Whether the two masses are the same number.
    pub fn equals(&self, other: &Mass) -> (r: bool)
        ensures
            r == (self@ == other@),
    {
        self.at_least(other) && other.at_least(self)
    }

    /// Whether the mass is zero.
    pub fn is_zero(&self) -> (r: bool)
        ensures
            r == (self@ == 0),
    {
        Mass::zero().at_least(self)
    }

    /// The mass as a machine integer, where it fits 128 bits.
    pub fn to_u128(&self) -> (r: Option<u128>)
        ensures
            match r {
                Some(n) => n == self@,
                None => self@ > u128::MAX,
            },
    {
        let ghost a = self.digits@;
        let mut i: usize = 4;
        while i < self.digits.len()
            invariant
                4 <= i,
                a == self.digits@,
                forall|k: int| 4 <= k < i ==> digit_at(a, k) == 0,
            decreases self.digits@.len() - i,
        {
            if self.digits[i] != 0 {
                proof {
                    let d = digit_at(a, i as int);
                    let w = weight(i as nat);
                    lemma_weight(4, i as nat);
                    lemma_value_grows(a, (i + 1) as nat, a.len());
                    lemma_small_weights();
                    assert(value_upto(a, (i + 1) as nat) == value_upto(a, i as nat) + d * w);
                    assert(d * w >= w) by (nonlinear_arith)
                        requires
                            d >= 1,
                            w >= 0,
                    ;
                }
                return None;
            }
            i += 1;
        }
        let d0: u128 = Self::digit(&self.digits, 0) as u128;
        let d1: u128 = Self::digit(&self.digits, 1) as u128;
        let d2: u128 = Self::digit(&self.digits, 2) as u128;
        let d3: u128 = Self::digit(&self.digits, 3) as u128;
        proof {
            lemma_small_weights();
            lemma_first_digits(a);
            if a.len() > 4 {
                lemma_value_flat(a, 4, a.len());
            } else {
                lemma_value_beyond(a, 4);
            }
        }
        Some(
            d0 + d1 * 0x1_0000_0000 + d2 * 0x1_0000_0000_0000_0000 + d3
                * 0x1_0000_0000_0000_0000_0000_0000,
        )
    }
}

/// The weights of the first positions.
pub proof fn lemma_small_weights()
    ensures
        weight(0) == 1,
        weight(1) == 0x1_0000_0000,
        weight(2) == 0x1_0000_0000_0000_0000,
        weight(3) == 0x1_0000_0000_0000_0000_0000_0000,
        weight(4) == 0x1_0000_0000_0000_0000_0000_0000_0000_0000,
{
    assert(weight(1) == base() * weight(0));
    assert(weight(2) == base() * weight(1));
    assert(weight(3) == base() * weight(2));
    assert(weight(4) == base() * weight(3));
}

/// The number that the first digits stand for, written out.
pub proof fn lemma_first_digits(s: Seq<u32>)
    ensures
        value_upto(s, 1) == digit_at(s, 0),
        value_upto(s, 2) == digit_at(s, 0) + digit_at(s, 1) * 0x1_0000_0000,
        value_upto(s, 3) == digit_at(s, 0) + digit_at(s, 1) * 0x1_0000_0000 + digit_at(s, 2)
            * 0x1_0000_0000_0000_0000,
        value_upto(s, 4) == digit_at(s, 0) + digit_at(s, 1) * 0x1_0000_0000 + digit_at(s, 2)
            * 0x1_0000_0000_0000_0000 + digit_at(s, 3) * 0x1_0000_0000_0000_0000_0000_0000,
{
    lemma_small_weights();
    assert(value_upto(s, 0) == 0);
    assert(value_upto(s, 1) == value_upto(s, 0) + digit_at(s, 0) * weight(0));
    assert(value_upto(s, 2) == value_upto(s, 1) + digit_at(s, 1) * weight(1));
    assert(value_upto(s, 3) == value_upto(s, 2) + digit_at(s, 2) * weight(2));
    assert(value_upto(s, 4) == value_upto(s, 3) + digit_at(s, 3) * weight(3));
}

/// Digits that are zero add nothing.
pub proof fn lemma_value_flat(s: Seq<u32>, i: nat, n: nat)
    requires
        i <= n,
        forall|k: int| i <= k < n ==> digit_at(s, k) == 0,
    ensures
        value_upto(s, n) == value_upto(s, i),
    decreases n,
{
    if n > i {
        lemma_value_flat(s, i, (n - 1) as nat);
        assert(digit_at(s, n - 1) * weight((n - 1) as nat) == 0) by (nonlinear_arith)
            requires
                digit_at(s, n - 1) == 0,
        ;
    }
}

/// More digits never stand for less.
pub proof fn lemma_value_grows(s: Seq<u32>, i: nat, n: nat)
    requires
        i <= n,
    ensures
        value_upto(s, i) <= value_upto(s, n),
    decreases n,
{
    if n > i {
        lemma_value_grows(s, i, (n - 1) as nat);
        assert(digit_at(s, n - 1) * weight((n - 1) as nat) >= 0) by (nonlinear_arith);
    }
}

} // verus!
