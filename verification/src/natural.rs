//! Natural numbers of any size, as far as exact scores need them.

use vstd::prelude::*;

verus! {

/// The weight of the limb with index `i`: the base to the power of `i`.
pub open spec fn place(i: nat) -> nat
    decreases i,
{
    if i == 0 {
        1
    } else {
        0x1_0000_0000 * place((i - 1) as nat)
    }
}

/// The limb with index `i`, zero beyond the last one.
pub open spec fn limb(limbs: Seq<u32>, i: int) -> nat {
    if 0 <= i < limbs.len() {
        limbs[i] as nat
    } else {
        0
    }
}

/// The number that the lowest `n` limbs stand for.
pub open spec fn low_part(limbs: Seq<u32>, n: nat) -> nat
    decreases n,
{
    if n == 0 {
        0
    } else {
        low_part(limbs, (n - 1) as nat) + limb(limbs, n - 1) * place((n - 1) as nat)
    }
}

/// Ten to the power of `k`.
pub open spec fn ten_to(k: nat) -> nat
    decreases k,
{
    if k == 0 {
        1
    } else {
        10 * ten_to((k - 1) as nat)
    }
}

/// A natural number, in limbs of 32 bits, lowest first.
#[derive(Debug)]
pub struct Natural {
    limbs: Vec<u32>,
}

impl View for Natural {
    type V = nat;

    closed spec fn view(&self) -> nat {
        low_part(self.limbs@, self.limbs@.len())
    }
}

/// The low part depends on the lowest limbs alone.
proof fn lemma_same_low_part(a: Seq<u32>, b: Seq<u32>, n: nat)
    requires
        forall|i: int| 0 <= i < n ==> #[trigger] limb(a, i) == limb(b, i),
    ensures
        low_part(a, n) == low_part(b, n),
    decreases n,
{
    if n > 0 {
        lemma_same_low_part(a, b, (n - 1) as nat);
        assert(limb(a, n - 1) == limb(b, n - 1));
    }
}

/// Limbs beyond the last one add nothing.
proof fn lemma_beyond(limbs: Seq<u32>, n: nat)
    requires
        n >= limbs.len(),
    ensures
        low_part(limbs, n) == low_part(limbs, limbs.len()),
    decreases n,
{
    if n > limbs.len() {
        lemma_beyond(limbs, (n - 1) as nat);
        let p = place((n - 1) as nat);
        assert(0 * p == 0) by (nonlinear_arith);
    }
}

proof fn lemma_low_part_bound(limbs: Seq<u32>, n: nat)
    ensures
        low_part(limbs, n) < place(n),
    decreases n,
{
    if n > 0 {
        lemma_low_part_bound(limbs, (n - 1) as nat);
        let p = place((n - 1) as nat);
        let d = limb(limbs, n - 1);
        assert(d * p + p <= 0x1_0000_0000 * p) by (nonlinear_arith)
            requires
                d < 0x1_0000_0000,
        ;
    }
}

/// One more limb at the top.
proof fn lemma_push(limbs: Seq<u32>, digit: u32)
    ensures
        low_part(limbs.push(digit), limbs.len()) == low_part(limbs, limbs.len()),
        low_part(limbs.push(digit), limbs.len() + 1) == low_part(limbs, limbs.len()) + digit
            * place(limbs.len()),
{
    let more = limbs.push(digit);
    assert forall|i: int| 0 <= i < limbs.len() implies #[trigger] limb(more, i) == limb(limbs, i) by {
        assert(more[i] == limbs[i]);
    }
    lemma_same_low_part(more, limbs, limbs.len());
    assert(limb(more, limbs.len() as int) == digit);
}

/// A zero limb at the bottom multiplies by the base.
proof fn lemma_shifted(limbs: Seq<u32>, n: nat)
    ensures
        low_part(limbs.insert(0, 0), n + 1) == 0x1_0000_0000 * low_part(limbs, n),
    decreases n,
{
    let more = limbs.insert(0, 0);
    assert(limb(more, n as int) == if n == 0 {
        0
    } else {
        limb(limbs, n - 1)
    });
    if n == 0 {
        assert(low_part(more, 0) == 0);
        assert(0 * place(0) == 0);
    } else {
        lemma_shifted(limbs, (n - 1) as nat);
        let p = place((n - 1) as nat);
        let d = limb(limbs, n - 1);
        let q = place(n);
        assert(d * q == 0x1_0000_0000 * (d * p)) by (nonlinear_arith)
            requires
                q == 0x1_0000_0000 * p,
        ;
    }
}

/// A carry that is passed on keeps its worth.
proof fn lemma_carry(sum: int, digit: int, carry: int, p: int)
    requires
        sum == digit + 0x1_0000_0000 * carry,
    ensures
        digit * p + carry * (0x1_0000_0000 * p) == sum * p,
{
    assert(digit * p + carry * (0x1_0000_0000 * p) == (digit + 0x1_0000_0000 * carry) * p)
        by (nonlinear_arith);
}

pub(crate) proof fn lemma_ten_to_positive(k: nat)
    ensures
        ten_to(k) > 0,
    decreases k,
{
    if k > 0 {
        lemma_ten_to_positive((k - 1) as nat);
    }
}

pub(crate) proof fn lemma_ten_to_adds(a: nat, b: nat)
    ensures
        ten_to(a + b) == ten_to(a) * ten_to(b),
    decreases b,
{
    let x = ten_to(a);
    if b == 0 {
        assert(x * 1 == x) by (nonlinear_arith);
    } else {
        lemma_ten_to_adds(a, (b - 1) as nat);
        let y = ten_to((b - 1) as nat);
        assert(x * (10 * y) == 10 * (x * y)) by (nonlinear_arith);
        assert((a + b - 1) as nat == a + (b - 1) as nat);
    }
}

impl Natural {
    fn limb_at(&self, i: usize) -> (r: u64)
        ensures
            r == limb(self.limbs@, i as int),
            r < 0x1_0000_0000,
    {
        if i < self.limbs.len() {
            self.limbs[i] as u64
        } else {
            0
        }
    }

    /// The number `n`.
    pub fn from_u128(n: u128) -> (r: Self)
        ensures
            r@ == n,
    {
        let mut limbs: Vec<u32> = Vec::new();
        let mut rest: u128 = n;
        assert(n * place(0) == n) by (nonlinear_arith)
            requires
                place(0) == 1,
        ;
        while rest > 0
            invariant
                low_part(limbs@, limbs@.len()) + rest * place(limbs@.len()) == n,
            decreases rest,
        {
            let digit: u32 = (rest % 0x1_0000_0000) as u32;
            let above: u128 = rest / 0x1_0000_0000;
            proof {
                lemma_push(limbs@, digit);
                lemma_carry(rest as int, digit as int, above as int, place(limbs@.len()) as int);
            }
            limbs.push(digit);
            rest = above;
        }
        assert(0 * place(limbs@.len()) == 0) by (nonlinear_arith);
        Natural { limbs }
    }

    /// The same number once more.
    pub fn copy(&self) -> (r: Self)
        ensures
            r@ == self@,
    {
        Natural { limbs: self.limbs.clone() }
    }

    /// Whether the number is at least `other`.
    pub fn at_least(&self, other: &Natural) -> (r: bool)
        ensures
            r == (self@ >= other@),
    {
        let n: usize = if self.limbs.len() > other.limbs.len() {
            self.limbs.len()
        } else {
            other.limbs.len()
        };
        let mut r: bool = true;
        for i in 0..n
            invariant
                r == (low_part(self.limbs@, i as nat) >= low_part(other.limbs@, i as nat)),
        {
            let a: u64 = self.limb_at(i);
            let b: u64 = other.limb_at(i);
            proof {
                lemma_low_part_bound(self.limbs@, i as nat);
                lemma_low_part_bound(other.limbs@, i as nat);
                let p = place(i as nat);
                assert(a > b ==> a * p >= b * p + p) by (nonlinear_arith);
                assert(b > a ==> b * p >= a * p + p) by (nonlinear_arith);
            }
            if a > b {
                r = true;
            } else if a < b {
                r = false;
            }
        }
        proof {
            lemma_beyond(self.limbs@, n as nat);
            lemma_beyond(other.limbs@, n as nat);
        }
        r
    }

    /// The sum of two numbers.
    pub fn plus(&self, other: &Natural) -> (r: Self)
        ensures
            r@ == self@ + other@,
    {
        let n: usize = if self.limbs.len() > other.limbs.len() {
            self.limbs.len()
        } else {
            other.limbs.len()
        };
        let mut limbs: Vec<u32> = Vec::new();
        let mut carry: u64 = 0;
        assert(0 * place(0) == 0);
        for i in 0..n
            invariant
                limbs@.len() == i,
                carry <= 1,
                low_part(limbs@, i as nat) + carry * place(i as nat) == low_part(
                    self.limbs@,
                    i as nat,
                ) + low_part(other.limbs@, i as nat),
        {
            let a: u64 = self.limb_at(i);
            let b: u64 = other.limb_at(i);
            let sum: u64 = a + b + carry;
            let digit: u32 = (sum % 0x1_0000_0000) as u32;
            let above: u64 = sum / 0x1_0000_0000;
            proof {
                let p = place(i as nat) as int;
                lemma_push(limbs@, digit);
                lemma_carry(sum as int, digit as int, above as int, p);
                assert(sum * p == a * p + b * p + carry * p) by (nonlinear_arith)
                    requires
                        sum == a + b + carry,
                ;
            }
            limbs.push(digit);
            carry = above;
        }
        proof {
            lemma_beyond(self.limbs@, n as nat);
            lemma_beyond(other.limbs@, n as nat);
            lemma_push(limbs@, carry as u32);
            assert(0 * place(n as nat) == 0) by (nonlinear_arith);
        }
        if carry > 0 {
            limbs.push(carry as u32);
        }
        Natural { limbs }
    }

    /// The difference of two numbers, the second being no larger.
    pub fn minus(&self, other: &Natural) -> (r: Self)
        requires
            self@ >= other@,
        ensures
            r@ == self@ - other@,
    {
        let n: usize = if self.limbs.len() > other.limbs.len() {
            self.limbs.len()
        } else {
            other.limbs.len()
        };
        let mut limbs: Vec<u32> = Vec::new();
        let mut borrow: u64 = 0;
        assert(0 * place(0) == 0);
        for i in 0..n
            invariant
                limbs@.len() == i,
                borrow <= 1,
                low_part(limbs@, i as nat) - borrow * place(i as nat) == low_part(
                    self.limbs@,
                    i as nat,
                ) - low_part(other.limbs@, i as nat),
        {
            let a: u64 = self.limb_at(i);
            let b: u64 = other.limb_at(i);
            let sum: u64 = 0x1_0000_0000 + a - b - borrow;
            let digit: u32 = (sum % 0x1_0000_0000) as u32;
            let above: u64 = 1 - sum / 0x1_0000_0000;
            proof {
                let p = place(i as nat) as int;
                lemma_push(limbs@, digit);
                lemma_carry(a - b - borrow, digit as int, -(above as int), p);
                assert((a - b - borrow) * p == a * p - b * p - borrow * p) by (nonlinear_arith);
                assert((-(above as int)) * (0x1_0000_0000 * p) == -(above * (0x1_0000_0000 * p)))
                    by (nonlinear_arith);
            }
            limbs.push(digit);
            borrow = above;
        }
        proof {
            lemma_beyond(self.limbs@, n as nat);
            lemma_beyond(other.limbs@, n as nat);
            lemma_low_part_bound(limbs@, n as nat);
            assert(1 * place(n as nat) == place(n as nat));
        }
        Natural { limbs }
    }

    /// Multiplies the number by `k`.
    fn multiply(&mut self, k: u32)
        ensures
            final(self)@ == old(self)@ * k,
    {
        let mut limbs: Vec<u32> = Vec::new();
        let mut carry: u64 = 0;
        let n: usize = self.limbs.len();
        assert(0 * place(0) == 0);
        assert(0 * k == 0) by (nonlinear_arith);
        for i in 0..n
            invariant
                n == self.limbs@.len(),
                limbs@.len() == i,
                carry < 0x1_0000_0000,
                *self == *old(self),
                low_part(limbs@, i as nat) + carry * place(i as nat) == low_part(
                    self.limbs@,
                    i as nat,
                ) * k,
        {
            let a: u64 = self.limbs[i] as u64;
            assert(a * k <= 0xffff_ffff * 0xffff_ffff) by (nonlinear_arith)
                requires
                    0 <= a <= 0xffff_ffff,
                    0 <= k <= 0xffff_ffff,
            ;
            let sum: u64 = a * (k as u64) + carry;
            let digit: u32 = (sum % 0x1_0000_0000) as u32;
            let above: u64 = sum / 0x1_0000_0000;
            proof {
                let p = place(i as nat) as int;
                let low = low_part(self.limbs@, i as nat);
                lemma_push(limbs@, digit);
                lemma_carry(sum as int, digit as int, above as int, p);
                assert(sum * p == (a * p) * k + carry * p) by (nonlinear_arith)
                    requires
                        sum == a * k + carry,
                ;
                assert((low + a * p) * k == low * k + (a * p) * k) by (nonlinear_arith);
                assert(limb(self.limbs@, i as int) == a);
            }
            limbs.push(digit);
            carry = above;
        }
        proof {
            lemma_push(limbs@, carry as u32);
            assert(0 * place(n as nat) == 0) by (nonlinear_arith);
        }
        if carry > 0 {
            limbs.push(carry as u32);
        }
        self.limbs = limbs;
    }

    /// Multiplies the number by the base of the limbs.
    fn shift(&mut self)
        ensures
            final(self)@ == old(self)@ * 0x1_0000_0000,
    {
        proof {
            lemma_shifted(self.limbs@, self.limbs@.len());
        }
        self.limbs.insert(0, 0);
    }

    /// The product of two numbers.
    pub fn times(&self, other: &Natural) -> (r: Self)
        ensures
            r@ == self@ * other@,
    {
        let n: usize = other.limbs.len();
        let mut sum = Natural { limbs: Vec::new() };
        let mut moved = self.copy();
        let ghost x = self@;
        proof {
            assert(x * 0 == 0 && x * 1 == x) by (nonlinear_arith);
        }
        for i in 0..n
            invariant
                x == self@,
                n == other.limbs@.len(),
                sum@ == x * low_part(other.limbs@, i as nat),
                moved@ == x * place(i as nat),
        {
            let d: u32 = other.limbs[i];
            let mut part = moved.copy();
            part.multiply(d);
            proof {
                let p = place(i as nat);
                let low = low_part(other.limbs@, i as nat);
                assert(limb(other.limbs@, i as int) == d);
                assert(x * low + (x * p) * d == x * (low + d * p)) by (nonlinear_arith);
                assert((x * p) * 0x1_0000_0000 == x * (0x1_0000_0000 * p)) by (nonlinear_arith);
            }
            sum = sum.plus(&part);
            moved.shift();
        }
        sum
    }

    /// The number times ten to the power of `k`.
    pub fn times_ten_to(&self, k: u16) -> (r: Self)
        ensures
            r@ == self@ * ten_to(k as nat),
    {
        let mut r = self.copy();
        let ghost x = self@;
        assert(x * 1 == x) by (nonlinear_arith);
        for i in 0..k
            invariant
                x == self@,
                r@ == x * ten_to(i as nat),
        {
            r.multiply(10);
            proof {
                let t = ten_to(i as nat);
                assert((x * t) * 10 == x * (10 * t)) by (nonlinear_arith);
            }
        }
        r
    }
}

/// A power of ten is one, or ten times the power before it.
pub proof fn law_powers_of_ten(k: nat)
    ensures
        ten_to(0) == 1,
        ten_to(k + 1) == 10 * ten_to(k),
{
}

} // verus!
