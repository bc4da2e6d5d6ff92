//! Whole numbers without a bound.

use vstd::arithmetic::div_mod::lemma_fundamental_div_mod_converse;
use vstd::prelude::*;
use crate::text;

verus! {

/// One more than the largest limb.
pub open spec fn limb_base() -> nat {
    0x1_0000_0000_0000_0000
}

/// A power of a number.
pub open spec fn raised(base: nat, k: nat) -> nat
    decreases k,
{
    if k == 0 {
        1
    } else {
        raised(base, (k - 1) as nat) * base
    }
}

/// Limb at a place; zero behind the last one.
pub open spec fn limb_at(limbs: Seq<u64>, i: int) -> nat {
    if 0 <= i < limbs.len() {
        limbs[i] as nat
    } else {
        0
    }
}

/// Number that the first `n` limbs write, the least significant one first.
pub open spec fn limbs_value(limbs: Seq<u64>, n: nat) -> nat
    decreases n,
{
    if n == 0 {
        0
    } else {
        limbs_value(limbs, (n - 1) as nat) + limb_at(limbs, n - 1) * raised(
            limb_base(),
            (n - 1) as nat,
        )
    }
}

proof fn lemma_same_limbs(a: Seq<u64>, b: Seq<u64>, n: nat)
    requires
        forall|i: int| 0 <= i < n ==> #[trigger] limb_at(a, i) == limb_at(b, i),
    ensures
        limbs_value(a, n) == limbs_value(b, n),
    decreases n,
{
    if n > 0 {
        assert(limb_at(a, n - 1) == limb_at(b, n - 1));
        lemma_same_limbs(a, b, (n - 1) as nat);
    }
}

proof fn lemma_no_more_limbs(a: Seq<u64>, n: nat)
    requires
        n >= a.len(),
    ensures
        limbs_value(a, n) == limbs_value(a, a.len()),
    decreases n,
{
    if n > a.len() {
        lemma_no_more_limbs(a, (n - 1) as nat);
        assert(limb_at(a, n - 1) == 0);
        assert(0 * raised(limb_base(), (n - 1) as nat) == 0) by (nonlinear_arith);
    }
}

proof fn lemma_limbs_bound(a: Seq<u64>, n: nat)
    ensures
        limbs_value(a, n) < raised(limb_base(), n),
    decreases n,
{
    if n > 0 {
        let k = (n - 1) as nat;
        lemma_limbs_bound(a, k);
        let x = limb_at(a, n - 1);
        let p = raised(limb_base(), k);
        assert(x * p + p <= p * limb_base()) by (nonlinear_arith)
            requires
                x + 1 <= limb_base(),
                p >= 0,
        ;
    }
}

/// A whole number.
pub struct Natural {
    limbs: Vec<u64>,
}

impl View for Natural {
    type V = nat;

    closed spec fn view(&self) -> nat {
        limbs_value(self.limbs@, self.limbs@.len())
    }
}

impl Natural {
    /// A number of one limb.
    pub fn new(n: u64) -> (big: Natural)
        ensures
            big@ == n,
    {
        let mut limbs: Vec<u64> = Vec::new();
        limbs.push(n);
        let big = Natural { limbs };
        proof {
            assert(big.limbs@ =~= seq![n]);
            reveal_with_fuel(limbs_value, 2);
            reveal_with_fuel(raised, 1);
            assert(limb_at(big.limbs@, 0) == n);
            assert(n as nat * raised(limb_base(), 0) == n) by (nonlinear_arith)
                requires
                    raised(limb_base(), 0) == 1,
            ;
        }
        big
    }

    /// A second number of the same value.
    pub fn duplicate(&self) -> (copy: Natural)
        ensures
            copy@ == self@,
    {
        let limbs = self.limbs.clone();
        proof {
            assert(limbs@ =~= self.limbs@);
        }
        Natural { limbs }
    }

    /// Multiplies by `factor`, and adds `more`.
    pub fn grow(&mut self, factor: u64, more: u64)
        ensures
            final(self)@ == old(self)@ * factor + more,
    {
        let ghost before = self.limbs@;
        let n: usize = self.limbs.len();
        let mut carry: u64 = more;
        let mut i: usize = 0;
        proof {
            assert(carry * raised(limb_base(), 0) == more) by (nonlinear_arith)
                requires
                    raised(limb_base(), 0) == 1,
                    carry == more,
            ;
            assert(limbs_value(before, 0) * factor == 0) by (nonlinear_arith)
                requires
                    limbs_value(before, 0) == 0,
            ;
        }
        while i < n
            invariant
                i <= n == self.limbs@.len() == before.len(),
                forall|k: int| i <= k < n ==> #[trigger] self.limbs@[k] == before[k],
                limbs_value(self.limbs@, i as nat) + carry * raised(limb_base(), i as nat)
                    == limbs_value(before, i as nat) * factor + more,
            decreases n - i,
        {
            let ghost held = self.limbs@;
            let x: u64 = self.limbs[i];
            proof {
                assert(x * factor + carry <= u128::MAX && x * factor <= u128::MAX) by (nonlinear_arith)
                    requires
                        x <= u64::MAX,
                        factor <= u64::MAX,
                        carry <= u64::MAX,
                ;
            }
            let product: u128 = x as u128 * factor as u128 + carry as u128;
            let low: u64 = (product % 0x1_0000_0000_0000_0000) as u64;
            let high: u64 = (product / 0x1_0000_0000_0000_0000) as u64;
            self.limbs.set(i, low);
            proof {
                let p = raised(limb_base(), i as nat);
                lemma_same_limbs(held, self.limbs@, i as nat);
                assert(limb_at(self.limbs@, i as int) == low);
                assert(limb_at(before, i as int) == x);
                assert(raised(limb_base(), (i + 1) as nat) == p * limb_base());
                let a = limbs_value(before, i as nat);
                let b = limbs_value(held, i as nat);
                assert(product == low + high * limb_base());
                assert(b + low * p + high * (p * limb_base()) == (a + x * p) * factor + more)
                    by (nonlinear_arith)
                    requires
                        b + carry * p == a * factor + more,
                        x * factor + carry == low + high * limb_base(),
                ;
            }
            carry = high;
            i += 1;
        }
        let ghost done = self.limbs@;
        if carry > 0 {
            self.limbs.push(carry);
            proof {
                let held = self.limbs@;
                assert(limb_at(held, n as int) == carry);
                assert forall|k: int| 0 <= k < n implies #[trigger] limb_at(held, k) == limb_at(
                    done,
                    k,
                ) by {}
                lemma_same_limbs(held, done, n as nat);
                assert(limbs_value(held, (n + 1) as nat) == limbs_value(held, n as nat) + limb_at(
                    held,
                    n as int,
                ) * raised(limb_base(), n as nat));
            }
        } else {
            assert(0 * raised(limb_base(), n as nat) == 0) by (nonlinear_arith);
        }
    }

    /// Multiplies by a power of `factor`.
    pub fn scale(&mut self, factor: u64, times: u128)
        ensures
            final(self)@ == old(self)@ * raised(factor as nat, times as nat),
    {
        let ghost before = self@;
        let mut k: u128 = 0;
        proof {
            assert(before * raised(factor as nat, 0) == before) by (nonlinear_arith)
                requires
                    raised(factor as nat, 0) == 1,
            ;
        }
        while k < times
            invariant
                k <= times,
                self@ == before * raised(factor as nat, k as nat),
            decreases times - k,
        {
            self.grow(factor, 0);
            proof {
                let p = raised(factor as nat, k as nat);
                assert(before * p * factor == before * (p * factor)) by (nonlinear_arith);
            }
            k += 1;
        }
    }

    /// Whether the number is below another one.
    pub fn is_below(&self, other: &Natural) -> (yes: bool)
        ensures
            yes == (self@ < other@),
    {
        let na: usize = self.limbs.len();
        let nb: usize = other.limbs.len();
        let mut n: usize = if na < nb {
            nb
        } else {
            na
        };
        proof {
            lemma_no_more_limbs(self.limbs@, n as nat);
            lemma_no_more_limbs(other.limbs@, n as nat);
        }
        while n > 0
            invariant
                na == self.limbs@.len(),
                nb == other.limbs@.len(),
                (self@ < other@) == (limbs_value(self.limbs@, n as nat) < limbs_value(
                    other.limbs@,
                    n as nat,
                )),
            decreases n,
        {
            let i: usize = n - 1;
            let x: u64 = if i < na {
                self.limbs[i]
            } else {
                0
            };
            let y: u64 = if i < nb {
                other.limbs[i]
            } else {
                0
            };
            proof {
                lemma_limbs_bound(self.limbs@, i as nat);
                lemma_limbs_bound(other.limbs@, i as nat);
                let p = raised(limb_base(), i as nat);
                if x < y {
                    assert(x * p + p <= y * p) by (nonlinear_arith)
                        requires
                            x + 1 <= y,
                            p >= 0,
                    ;
                } else if y < x {
                    assert(y * p + p <= x * p) by (nonlinear_arith)
                        requires
                            y + 1 <= x,
                            p >= 0,
                    ;
                }
            }
            if x != y {
                return x < y;
            }
            n = i;
        }
        false
    }

    /// The number divided by another one, as a whole number that is below `limit`.
    pub fn quotient(&self, divisor: &Natural, limit: u64) -> (q: u64)
        requires
            self@ < divisor@ * limit,
        ensures
            q == self@ / divisor@,
            q < limit,
            divisor@ * q <= self@ < divisor@ * (q + 1),
    {
        let mut low: u64 = 0;
        let mut high: u64 = limit;
        proof {
            assert(divisor@ * 0 <= self@) by (nonlinear_arith);
            if limit == 0 {
                assert(divisor@ * 0 == 0) by (nonlinear_arith);
            }
        }
        while high - low > 1
            invariant
                low < high <= limit,
                divisor@ * low <= self@ < divisor@ * high,
            decreases high - low,
        {
            let middle: u64 = low + (high - low) / 2;
            let mut product = divisor.duplicate();
            product.grow(middle, 0);
            if self.is_below(&product) {
                high = middle;
            } else {
                low = middle;
            }
        }
        proof {
            let r = self@ - divisor@ * low;
            assert(divisor@ * (low + 1) == divisor@ * low + divisor@) by (nonlinear_arith);
            assert(divisor@ * high == divisor@ * (low + 1));
            assert(low * divisor@ == divisor@ * low) by (nonlinear_arith);
            lemma_fundamental_div_mod_converse(self@ as int, divisor@ as int, low as int, r);
        }
        low
    }
}

/// Number that a run of digits writes.
pub fn natural_of(d: &[char]) -> (big: Natural)
    requires
        text::all_digits(d@),
    ensures
        big@ == text::digits_value(d@),
{
    let n: usize = d.len();
    let mut big = Natural::new(0);
    let mut i: usize = 0;
    while i < n
        invariant
            i <= n == d@.len(),
            text::all_digits(d@),
            big@ == text::digits_value(d@.take(i as int)),
        decreases n - i,
    {
        proof {
            assert(d@.take(i + 1).drop_last() =~= d@.take(i as int));
            assert(d@.take(i + 1).last() == d@[i as int]);
            assert(text::is_digit(d@[i as int]));
        }
        big.grow(10, (d[i] as u32 - '0' as u32) as u64);
        i += 1;
    }
    proof {
        assert(d@.take(n as int) =~= d@);
    }
    big
}

} // verus!
