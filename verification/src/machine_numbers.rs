//! Numbers as a machine holds them: a mantissa times a power of two.

use vstd::arithmetic::div_mod::lemma_fundamental_div_mod;
use vstd::prelude::*;
use crate::limbs;
use crate::reals;
use crate::text;
use crate::text_forms;

use crate::limbs::{natural_of, Natural};
use crate::reals::nonzero_end;
use crate::text::decimal_of;

verus! {

/// How a machine holds numbers: as a mantissa and an exponent, which say how often the smallest
/// number above zero is taken.
#[derive(Clone, Copy, Debug)]
pub struct Format {
    /// Mantissas are below this power of two.
    pub mantissa_end: u64,
    /// The smallest number above zero is two to the minus this.
    pub low: usize,
    /// Largest exponent.
    pub top: usize,
    /// Numbers below ten to this are held as zero.
    pub tiny: i128,
    /// Numbers that reach ten to one below this are held as infinity.
    pub huge: i128,
    /// So many digits are held as they are,
    pub sure_digits: usize,
    /// where the number reaches ten to this
    pub sure_low: i128,
    /// and is below ten to this.
    pub sure_high: i128,
}

/// Format of eight bytes, or of four.
pub open spec fn format_for(double: bool) -> Format {
    if double {
        Format {
            mantissa_end: 0x20_0000_0000_0000,
            low: 1074,
            top: 2045,
            tiny: (-324) as i128,
            huge: 310,
            sure_digits: 15,
            sure_low: (-307) as i128,
            sure_high: 308,
        }
    } else {
        Format {
            mantissa_end: 0x100_0000,
            low: 149,
            top: 253,
            tiny: (-46) as i128,
            huge: 40,
            sure_digits: 6,
            sure_low: (-37) as i128,
            sure_high: 38,
        }
    }
}

/// Format of eight bytes, or of four.
pub fn format_of(double: bool) -> (f: Format)
    ensures
        f == format_for(double),
{
    if double {
        Format {
            mantissa_end: 0x20_0000_0000_0000,
            low: 1074,
            top: 2045,
            tiny: -324,
            huge: 310,
            sure_digits: 15,
            sure_low: -307,
            sure_high: 308,
        }
    } else {
        Format {
            mantissa_end: 0x100_0000,
            low: 149,
            top: 253,
            tiny: -46,
            huge: 40,
            sure_digits: 6,
            sure_low: -37,
            sure_high: 38,
        }
    }
}

// ---------------------------------------------------------------------------------------
// Rounding
// ---------------------------------------------------------------------------------------

/// How often `bound` has to be multiplied until `num` is below it: `k` times and more, and `top`
/// times at most.
pub open spec fn steps_to_fit(num: nat, bound: nat, factor: nat, k: nat, top: nat) -> nat
    decreases top - k,
{
    if k >= top || num < bound {
        k
    } else {
        steps_to_fit(num, bound * factor, factor, k + 1, top)
    }
}

/// Whole number nearest to a fraction; the even one of two.
pub open spec fn half_even(num: nat, den: nat) -> nat {
    let q = num / den;
    let r = num % den;
    if 2 * r < den {
        q
    } else if 2 * r > den {
        q + 1
    } else {
        q + q % 2
    }
}

/// Mantissa and exponent of the number nearest to so many times the smallest one; none where it is
/// held as infinity.
pub open spec fn nearest(num: nat, den: nat, f: Format) -> Option<(nat, nat)> {
    let e = steps_to_fit(num, den * f.mantissa_end as nat, 2, 0, (f.top + 1) as nat);
    if e > f.top {
        None
    } else {
        let m = half_even(num, den * limbs::raised(2, e));
        if m < f.mantissa_end {
            Some((m, e))
        } else if e == f.top {
            None
        } else {
            Some((f.mantissa_end as nat / 2, e + 1))
        }
    }
}

/// Numerator of digits with the point behind the first `power` of them.
pub open spec fn decimal_num(d: Seq<char>, power: int) -> nat {
    text::digits_value(d) * limbs::raised(
        10,
        (if power > d.len() {
            power - d.len()
        } else {
            0
        }) as nat,
    )
}

/// Denominator of digits with the point behind the first `power` of them.
pub open spec fn decimal_den(d: Seq<char>, power: int) -> nat {
    limbs::raised(
        10,
        (if power < d.len() {
            d.len() - power
        } else {
            0
        }) as nat,
    )
}

/// Mantissa and exponent in which digits with the point behind the first `power` of them are held;
/// none for infinity. The first digit is not zero.
pub open spec fn held(d: Seq<char>, power: int, f: Format) -> Option<(nat, nat)> {
    if d.len() == 0 || power <= f.tiny {
        Some((0, 0))
    } else if power >= f.huge {
        None
    } else {
        nearest(
            decimal_num(d, power) * limbs::raised(2, f.low as nat),
            decimal_den(d, power),
            f,
        )
    }
}

/// Mantissa and exponent in which what one format holds is held in another one.
pub open spec fn held_again(number: (nat, nat), from: Format, to: Format) -> Option<(nat, nat)> {
    nearest(
        number.0 * limbs::raised(2, number.1) * limbs::raised(2, to.low as nat),
        limbs::raised(2, from.low as nat),
        to,
    )
}

fn round_to(num: &Natural, den: &Natural, f: Format) -> (number: Option<(u64, usize)>)
    requires
        1 < f.mantissa_end <= 0x20_0000_0000_0000,
        f.top < 0x1_0000,
    ensures
        number_model(number) == nearest(num@, den@, f),
        number matches Some(x) ==> x.0 < f.mantissa_end && x.1 <= f.top,
{
    let mut unit = den.duplicate();
    let mut bound = den.duplicate();
    bound.grow(f.mantissa_end, 0);
    let mut e: usize = 0;
    proof {
        assert(den@ * limbs::raised(2, 0) == den@) by (nonlinear_arith)
            requires
                limbs::raised(2, 0) == 1,
        ;
    }
    while e <= f.top && !num.is_below(&bound)
        invariant
            f.top < 0x1_0000,
            e <= f.top + 1,
            unit@ == den@ * limbs::raised(2, e as nat),
            bound@ == unit@ * f.mantissa_end,
            steps_to_fit(num@, den@ * f.mantissa_end as nat, 2, 0, (f.top + 1) as nat) == steps_to_fit(
                num@,
                bound@,
                2,
                e as nat,
                (f.top + 1) as nat,
            ),
        decreases f.top + 1 - e,
    {
        proof {
            let p = limbs::raised(2, e as nat);
            let u = unit@;
            assert(den@ * (p * 2) == den@ * p * 2) by (nonlinear_arith);
            assert(u * 2 * f.mantissa_end == u * f.mantissa_end * 2) by (nonlinear_arith);
        }
        unit.grow(2, 0);
        bound.grow(2, 0);
        e += 1;
    }
    if e > f.top {
        return None;
    }
    let q: u64 = num.quotient(&unit, f.mantissa_end);
    let mut twice = num.duplicate();
    twice.grow(2, 0);
    let mut middle = unit.duplicate();
    middle.grow(2 * q + 1, 0);
    proof {
        let u = unit@ as int;
        let n = num@ as int;
        lemma_fundamental_div_mod(n, u);
        let r = n % u;
        assert(u * (2 * q + 1) == 2 * (u * q) + u) by (nonlinear_arith);
    }
    let m: u64 = if twice.is_below(&middle) {
        q
    } else if middle.is_below(&twice) {
        q + 1
    } else {
        q + q % 2
    };
    assert(m == half_even(num@, unit@));
    if m < f.mantissa_end {
        Some((m, e))
    } else if e == f.top {
        None
    } else {
        Some((f.mantissa_end / 2, e + 1))
    }
}

/// A number that a machine holds.
pub open spec fn number_model(number: Option<(u64, usize)>) -> Option<(nat, nat)> {
    match number {
        Some((m, e)) => Some((m as nat, e as nat)),
        None => None,
    }
}

/// Mantissa and exponent in which digits with the point behind the first `power` of them are held.
pub fn hold(d: &[char], power: i128, double: bool) -> (number: Option<(u64, usize)>)
    requires
        text::all_digits(d@),
    ensures
        number_model(number) == held(d@, power as int, format_for(double)),
        number matches Some(x) ==> x.0 < format_for(double).mantissa_end && x.1 <= format_for(
            double,
        ).top,
{
    let f = format_of(double);
    if d.len() == 0 || power <= f.tiny {
        return Some((0, 0));
    }
    if power >= f.huge {
        return None;
    }
    let mut num = natural_of(d);
    let mut den = Natural::new(1);
    if power > d.len() as i128 {
        num.scale(10, (power - d.len() as i128) as u128);
    } else {
        proof {
            let v = text::digits_value(d@);
            assert(v * limbs::raised(10, 0) == v) by (nonlinear_arith)
                requires
                    limbs::raised(10, 0) == 1,
            ;
        }
    }
    if power < d.len() as i128 {
        den.scale(10, (d.len() as i128 - power) as u128);
    }
    num.scale(2, f.low as u128);
    proof {
        let p = decimal_den(d@, power as int);
        assert(1 * p == p);
        assert(den@ == p);
    }
    round_to(&num, &den, f)
}

/// Mantissa and exponent in which what one format holds is held in another one.
pub fn hold_again(number: (u64, usize), from: bool, to: bool) -> (again: Option<(u64, usize)>)
    ensures
        number_model(again) == held_again(
            (number.0 as nat, number.1 as nat),
            format_for(from),
            format_for(to),
        ),
        again matches Some(x) ==> x.0 < format_for(to).mantissa_end && x.1 <= format_for(to).top,
{
    let f = format_of(to);
    let mut num = Natural::new(number.0);
    num.scale(2, number.1 as u128);
    num.scale(2, f.low as u128);
    let mut den = Natural::new(1);
    den.scale(2, format_of(from).low as u128);
    round_to(&num, &den, f)
}

// ---------------------------------------------------------------------------------------
// Digits
// ---------------------------------------------------------------------------------------

/// Digits of a whole number times ten to the `shift`, without zeros at the end, and how many of
/// them the point is behind.
pub open spec fn written(c: nat, shift: int) -> (Seq<char>, int) {
    let all = text::decimal(c);
    (all.subrange(0, reals::end_nonzero(all, all.len() as int)), shift + all.len())
}

/// Whether a whole number times ten to the `shift` is held as a number.
pub open spec fn reads_as(c: nat, shift: int, number: (nat, nat), f: Format) -> bool {
    c > 0 && held(written(c, shift).0, written(c, shift).1, f) == Some(number)
}

/// Shortest digits of `n` or more that are held as a number: `num` over `bound` is the number, with
/// the point behind the first `point` digits.
pub open spec fn shortest_from(
    number: (nat, nat),
    num: nat,
    bound: nat,
    point: int,
    n: nat,
    f: Format,
) -> Option<(Seq<char>, int)>
    decreases 18 - n,
{
    if n > 17 {
        None
    } else {
        let scaled = num * limbs::raised(10, n);
        let c = scaled / bound;
        let down = reads_as(c, point - n, number, f);
        let up = reads_as(c + 1, point - n, number, f);
        if up && (!down || 2 * scaled >= (2 * c + 1) * bound) {
            Some(written(c + 1, point - n))
        } else if down {
            Some(written(c, point - n))
        } else {
            shortest_from(number, num, bound, point, n + 1, f)
        }
    }
}

/// A number in ten to the [`Format::tiny`].
pub open spec fn in_tiny(number: (nat, nat), f: Format) -> nat {
    number.0 * limbs::raised(2, number.1) * limbs::raised(10, (-f.tiny) as nat)
}

/// How many places above ten to the [`Format::tiny`] the first digit of a number stands.
pub open spec fn places_above(number: (nat, nat), f: Format) -> nat {
    steps_to_fit(
        in_tiny(number, f),
        limbs::raised(2, f.low as nat),
        10,
        0,
        (f.huge - f.tiny) as nat,
    )
}

/// Shortest digits that are held as a number; of two such, those nearer to it. Seventeen digits are
/// tried at most.
pub open spec fn shortest(number: (nat, nat), f: Format) -> Option<(Seq<char>, int)> {
    let j = places_above(number, f);
    let num = in_tiny(number, f);
    let bound = limbs::raised(2, f.low as nat) * limbs::raised(10, j);
    if num < bound {
        shortest_from(number, num, bound, f.tiny + j, 1, f)
    } else {
        None
    }
}

/// Digits that are shown for a number: the shortest ones; those that were written where none were
/// found.
pub open spec fn shown_digits(number: (nat, nat), d: Seq<char>, power: int, f: Format) -> (
    Seq<char>,
    int,
) {
    match shortest(number, f) {
        Some(found) => found,
        None => (d, power),
    }
}

/// Whether digits are so few that the machine holds them all.
pub open spec fn is_sure(d: Seq<char>, power: int, f: Format) -> bool {
    0 < d.len() <= f.sure_digits && f.sure_low < power <= f.sure_high
}

/// What is found as the shortest digits is held as the number.
pub proof fn lemma_shortest_reads(
    number: (nat, nat),
    num: nat,
    bound: nat,
    point: int,
    n: nat,
    f: Format,
)
    ensures
        shortest_from(number, num, bound, point, n, f) matches Some(found) ==> (exists|c: nat, shift: int|
            c > 0 && found == #[trigger] written(c, shift)) && held(found.0, found.1, f) == Some(
            number,
        ),
    decreases 18 - n,
{
    if n <= 17 {
        lemma_shortest_reads(number, num, bound, point, n + 1, f);
    }
}

proof fn lemma_few_tens(n: nat)
    requires
        n <= 17,
    ensures
        1 <= limbs::raised(10, n) <= 100_000_000_000_000_000,
    decreases 17 - n,
{
    if n < 17 {
        lemma_few_tens(n + 1);
        lemma_some_tens(n);
    } else {
        reveal_with_fuel(limbs::raised, 18);
        assert(limbs::raised(10, 17) == 100_000_000_000_000_000);
    }
}

proof fn lemma_some_tens(n: nat)
    ensures
        1 <= limbs::raised(10, n),
    decreases n,
{
    if n > 0 {
        lemma_some_tens((n - 1) as nat);
    }
}

/// Digits and a power of ten, if there are any.
pub open spec fn found_model(found: Option<(Vec<char>, i128)>) -> Option<(Seq<char>, int)> {
    match found {
        Some((d, power)) => Some((d@, power as int)),
        None => None,
    }
}

fn read_back(c: u64, shift: i128, number: (u64, usize), double: bool) -> (found: Option<
    (Vec<char>, i128),
>)
    requires
        -0x1_0000 <= shift <= 0x1_0000,
    ensures
        ({
            let n = (number.0 as nat, number.1 as nat);
            found_model(found) == if reads_as(c as nat, shift as int, n, format_for(double)) {
                Some(written(c as nat, shift as int))
            } else {
                None
            }
        }),
{
    if c == 0 {
        return None;
    }
    let mut d = decimal_of(c);
    let power: i128 = shift + d.len() as i128;
    let end: usize = nonzero_end(&d);
    proof {
        text_forms::lemma_decimal(c as nat);
    }
    d.truncate(end);
    proof {
        assert(d@ =~= written(c as nat, shift as int).0);
    }
    match hold(&d, power, double) {
        Some((m, e)) => if m == number.0 && e == number.1 {
            Some((d, power))
        } else {
            None
        },
        None => None,
    }
}

/// Shortest digits that are held as a number.
#[verifier::spinoff_prover]
pub fn shortest_digits(number: (u64, usize), double: bool) -> (found: Option<(Vec<char>, i128)>)
    ensures
        found_model(found) == shortest((number.0 as nat, number.1 as nat), format_for(double)),
{
    let f = format_of(double);
    let ghost n0 = (number.0 as nat, number.1 as nat);
    let mut num = Natural::new(number.0);
    num.scale(2, number.1 as u128);
    num.scale(10, (-f.tiny) as u128);
    let mut bound = Natural::new(1);
    bound.scale(2, f.low as u128);
    let ghost low = bound@;
    let ghost base = num@;
    let places: usize = (f.huge - f.tiny) as usize;
    let mut j: usize = 0;
    proof {
        let p = limbs::raised(2, f.low as nat);
        assert(1 * p == p);
        assert(low == p);
        assert(base == in_tiny(n0, f));
        assert(places == f.huge - f.tiny);
        assert(low * limbs::raised(10, 0) == low) by (nonlinear_arith)
            requires
                limbs::raised(10, 0) == 1,
        ;
    }
    while j < places && !num.is_below(&bound)
        invariant
            j <= places,
            num@ == base,
            base == in_tiny(n0, f),
            low == limbs::raised(2, f.low as nat),
            places == f.huge - f.tiny,
            bound@ == low * limbs::raised(10, j as nat),
            steps_to_fit(base, low, 10, 0, places as nat) == steps_to_fit(
                base,
                bound@,
                10,
                j as nat,
                places as nat,
            ),
        decreases places - j,
    {
        proof {
            let p = limbs::raised(10, j as nat);
            assert(low * (p * 10) == low * p * 10) by (nonlinear_arith);
        }
        bound.grow(10, 0);
        j += 1;
    }
    proof {
        assert(steps_to_fit(base, bound@, 10, j as nat, places as nat) == j);
        assert(j == places_above(n0, f));
    }
    if !num.is_below(&bound) {
        return None;
    }
    let point: i128 = f.tiny + j as i128;
    let mut limit: u64 = 1;
    let mut n: usize = 0;
    proof {
        assert(base * limbs::raised(10, 0) == base) by (nonlinear_arith)
            requires
                limbs::raised(10, 0) == 1,
        ;
    }
    while n < 17
        invariant
            n <= 17,
            f == format_for(double),
            j <= places,
            places == f.huge - f.tiny,
            point == f.tiny + j,
            n0 == (number.0 as nat, number.1 as nat),
            base < bound@,
            num@ == base * limbs::raised(10, n as nat),
            limit == limbs::raised(10, n as nat),
            shortest(n0, f) == shortest_from(n0, base, bound@, point as int, (n + 1) as nat, f),
        decreases 17 - n,
    {
        proof {
            lemma_few_tens((n + 1) as nat);
            let p = limbs::raised(10, n as nat);
            let b = bound@;
            assert(base * (p * 10) == base * p * 10) by (nonlinear_arith);
            assert(base * (p * 10) < b * (p * 10)) by (nonlinear_arith)
                requires
                    base < b,
                    p >= 1,
            ;
        }
        n += 1;
        num.grow(10, 0);
        limit = limit * 10;
        let c: u64 = num.quotient(&bound, limit);
        let shift: i128 = point - n as i128;
        let down = read_back(c, shift, number, double);
        let up = read_back(c + 1, shift, number, double);
        let mut twice = num.duplicate();
        twice.grow(2, 0);
        let mut middle = bound.duplicate();
        middle.grow(2 * c + 1, 0);
        let nearer_up: bool = !twice.is_below(&middle);
        proof {
            let b = bound@;
            assert((2 * c + 1) * b == b * (2 * c + 1)) by (nonlinear_arith);
        }
        if up.is_some() && (down.is_none() || nearer_up) {
            return up;
        }
        if down.is_some() {
            return down;
        }
    }
    None
}

// ---------------------------------------------------------------------------------------
// Shares
// ---------------------------------------------------------------------------------------

/// Whole part of a number of so many times the smallest one, as far as it fits into 64 bits.
pub open spec fn whole_part(number: (nat, nat), f: Format) -> nat {
    let whole = number.0 * limbs::raised(2, number.1) / limbs::raised(2, f.low as nat);
    if whole < u64::MAX {
        whole
    } else {
        u64::MAX as nat
    }
}

/// Whole part of a share of a total: the percentage is divided by 100, and the total multiplied by
/// that, in numbers of eight bytes.
pub open spec fn percent_of(number: (nat, nat), total: u64) -> nat {
    let f = format_for(true);
    let unit = limbs::raised(2, f.low as nat);
    match (
        nearest(number.0 * limbs::raised(2, number.1), 100, f),
        nearest(total as nat * unit, 1, f),
    ) {
        (Some(h), Some(t)) => match nearest(
            h.0 * limbs::raised(2, h.1) * t.0 * limbs::raised(2, t.1),
            unit,
            f,
        ) {
            Some(x) => whole_part(x, f),
            None => u64::MAX as nat,
        },
        _ => u64::MAX as nat,
    }
}

/// Whole part of a share of a total.
pub fn take_percent(number: (u64, usize), total: u64) -> (share: u64)
    ensures
        share == percent_of((number.0 as nat, number.1 as nat), total),
{
    let f = format_of(true);
    let mut unit = Natural::new(1);
    unit.scale(2, f.low as u128);
    proof {
        let p = limbs::raised(2, f.low as nat);
        assert(1 * p == p);
    }
    let mut percent = Natural::new(number.0);
    percent.scale(2, number.1 as u128);
    let mut all = Natural::new(total);
    all.scale(2, f.low as u128);
    let h = round_to(&percent, &Natural::new(100), f);
    let t = round_to(&all, &Natural::new(1), f);
    let (h, t) = match (h, t) {
        (Some(h), Some(t)) => (h, t),
        _ => {
            return u64::MAX;
        },
    };
    let mut product = Natural::new(h.0);
    product.scale(2, h.1 as u128);
    product.grow(t.0, 0);
    product.scale(2, t.1 as u128);
    let x = match round_to(&product, &unit, f) {
        Some(x) => x,
        None => {
            return u64::MAX;
        },
    };
    let mut held = Natural::new(x.0);
    held.scale(2, x.1 as u128);
    let mut most = unit.duplicate();
    most.grow(u64::MAX, 0);
    if held.is_below(&most) {
        held.quotient(&unit, u64::MAX)
    } else {
        proof {
            lemma_some_twos(f.low as nat);
            let n = held@ as int;
            let u = unit@ as int;
            lemma_fundamental_div_mod(n, u);
            assert(n / u >= u64::MAX) by (nonlinear_arith)
                requires
                    n >= u * u64::MAX,
                    n == u * (n / u) + n % u,
                    0 <= n % u < u,
            ;
        }
        u64::MAX
    }
}

proof fn lemma_some_twos(n: nat)
    ensures
        1 <= limbs::raised(2, n),
    decreases n,
{
    if n > 0 {
        lemma_some_twos((n - 1) as nat);
    }
}

// ---------------------------------------------------------------------------------------
// Laws
// ---------------------------------------------------------------------------------------

/// Rounding moves a fraction by one half at most, and where two whole numbers are as near, to the
/// even one; a whole number stays.
pub proof fn law_half_even(num: nat, den: nat)
    requires
        den > 0,
    ensures
        ({
            let r = half_even(num, den);
            &&& 2 * (r * den) <= 2 * num + den
            &&& 2 * num <= 2 * (r * den) + den
            &&& 2 * (r * den) == 2 * num + den || 2 * num == 2 * (r * den) + den ==> r % 2 == 0
            &&& forall|k: nat| num == #[trigger] (k * den) ==> r == k
        }),
{
    let q = num / den;
    let rest = num % den;
    let r = half_even(num, den);
    lemma_fundamental_div_mod(num as int, den as int);
    assert(num == den * q + rest);
    assert(q * den == den * q) by (nonlinear_arith);
    assert((q + 1) * den == den * q + den) by (nonlinear_arith);
    if r == q + 1 {
        if 2 * rest == den {
            assert(q % 2 == 1);
        }
    }
    assert forall|k: nat| num == #[trigger] (k * den) implies r == k by {
        vstd::arithmetic::div_mod::lemma_fundamental_div_mod_converse(
            num as int,
            den as int,
            k as int,
            0,
        );
    }
}

proof fn lemma_steps(num: nat, bound: nat, factor: nat, k: nat, top: nat)
    requires
        k <= top,
        factor > 0,
    ensures
        ({
            let e = steps_to_fit(num, bound, factor, k, top);
            &&& k <= e <= top
            &&& e < top ==> num < bound * limbs::raised(factor, (e - k) as nat)
            &&& e > k ==> num >= bound * limbs::raised(factor, (e - k - 1) as nat)
        }),
    decreases top - k,
{
    assert(bound * limbs::raised(factor, 0) == bound) by (nonlinear_arith)
        requires
            limbs::raised(factor, 0) == 1,
    ;
    if k < top && num >= bound {
        let next = bound * factor;
        lemma_steps(num, next, factor, k + 1, top);
        let e = steps_to_fit(num, next, factor, k + 1, top);
        lemma_raised_front(bound, factor, (e - k - 1) as nat);
        if e > k + 1 {
            lemma_raised_front(bound, factor, (e - k - 2) as nat);
        }
    }
}

proof fn lemma_raised_front(bound: nat, factor: nat, j: nat)
    ensures
        bound * factor * limbs::raised(factor, j) == bound * limbs::raised(factor, j + 1),
{
    let p = limbs::raised(factor, j);
    assert(limbs::raised(factor, j + 1) == p * factor);
    assert(bound * factor * p == bound * (p * factor)) by (nonlinear_arith);
}

/// The number that is held is the nearest one: it differs from the number that was given by half of
/// the distance of its neighbours at most, the exponent is the smallest with which the mantissa fits,
/// and infinity is held only where no mantissa fits below it.
pub proof fn law_nearest(num: nat, den: nat, f: Format)
    requires
        den > 0,
        f.mantissa_end >= 2,
        f.mantissa_end % 2 == 0,
    ensures
        match nearest(num, den, f) {
            Some((m, e)) => {
                let unit = den * limbs::raised(2, e);
                &&& m < f.mantissa_end
                &&& e <= f.top
                &&& 2 * (m * unit) <= 2 * num + unit
                &&& 2 * num <= 2 * (m * unit) + unit
                &&& e > 0 ==> 2 * m >= f.mantissa_end
            },
            None => 2 * num + den * limbs::raised(2, f.top as nat) >= 2 * (den * f.mantissa_end
                * limbs::raised(2, f.top as nat)),
        },
{
    let b = den * f.mantissa_end as nat;
    let top = (f.top + 1) as nat;
    let e = steps_to_fit(num, b, 2, 0, top);
    lemma_steps(num, b, 2, 0, top);
    let p = limbs::raised(2, e);
    lemma_some_twos(e);
    lemma_some_twos(f.top as nat);
    let unit = den * p;
    assert(unit > 0) by (nonlinear_arith)
        requires
            den > 0,
            p > 0,
            unit == den * p,
    ;
    let half = f.mantissa_end as nat / 2;
    if e <= f.top {
        law_half_even(num, unit);
        let m = half_even(num, unit);
        let end = f.mantissa_end as nat;
        assert(b * p == end * unit) by (nonlinear_arith)
            requires
                b == den * end,
                unit == den * p,
        ;
        if m > end {
            assert(m * unit >= end * unit + unit) by (nonlinear_arith)
                requires
                    m >= end + 1,
                    unit > 0,
            ;
        }
        assert(m <= end);
        if e > 0 {
            let p0 = limbs::raised(2, (e - 1) as nat);
            assert(p == p0 * 2);
            assert(num >= b * p0);
            assert(b * p0 == half * unit) by (nonlinear_arith)
                requires
                    b == den * end,
                    unit == den * (p0 * 2),
                    end == 2 * half,
            ;
            if m < half {
                assert(m * unit + unit <= half * unit) by (nonlinear_arith)
                    requires
                        m + 1 <= half,
                        unit > 0,
                ;
            }
        }
        if m == end {
            if e < f.top {
                let p1 = limbs::raised(2, e + 1);
                assert(p1 == p * 2);
                let unit1 = den * p1;
                assert(unit1 == 2 * unit) by (nonlinear_arith)
                    requires
                        unit1 == den * p1,
                        p1 == p * 2,
                        unit == den * p,
                ;
                assert(half * unit1 == end * unit) by (nonlinear_arith)
                    requires
                        unit1 == 2 * unit,
                        end == 2 * half,
                ;
            } else {
                assert(den * f.mantissa_end * p == end * unit) by (nonlinear_arith)
                    requires
                        end == f.mantissa_end,
                        unit == den * p,
                ;
            }
        }
    } else {
        let pt = limbs::raised(2, f.top as nat);
        assert(num >= b * pt);
        assert(den * f.mantissa_end * pt == b * pt);
        assert(den * pt >= 0) by (nonlinear_arith)
            requires
                den >= 0,
                pt >= 0,
        ;
    }
}

} // verus!
