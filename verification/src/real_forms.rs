//! A number that was shown is shown in the same way again.

use vstd::prelude::*;
use crate::limbs;
use crate::machine_numbers;
use crate::text_forms;
use crate::text;
use crate::reals;

use crate::machine_numbers::Format;

verus! {

/// Characters that a shown number is made of.
pub open spec fn number_char(c: char) -> bool {
    text::is_digit(c) || c == '.' || c == '-' || c == 'i' || c == 'n' || c == 'f' || c == 'N' || c == 'a'
}

/// A text of characters that a shown number is made of.
pub open spec fn number_text(s: Seq<char>) -> bool {
    forall|i: int| 0 <= i < s.len() ==> number_char(#[trigger] s[i])
}

/// Digits with points among them.
pub open spec fn pointed(s: Seq<char>) -> bool {
    forall|i: int| 0 <= i < s.len() ==> text::is_digit(#[trigger] s[i]) || s[i] == '.'
}

/// Digits of a number that is not zero, without zeros at the ends.
pub open spec fn bare_digits(d: Seq<char>) -> bool {
    d.len() > 0 && text::all_digits(d) && d[0] != '0' && d.last() != '0'
}

proof fn lemma_skips_zeros(k: int, d: Seq<char>, j: int)
    requires
        0 <= j <= k,
        d.len() > 0,
        d[0] != '0',
    ensures
        reals::first_nonzero(reals::zeros(k) + d, j) == k,
    decreases k - j,
{
    let s = reals::zeros(k) + d;
    if j < k {
        assert(s[j] == '0');
        lemma_skips_zeros(k, d, j + 1);
    } else {
        assert(s[k] == d[0]);
    }
}

proof fn lemma_drops_zeros(d: Seq<char>, k: int, n: int)
    requires
        0 <= k,
        d.len() > 0,
        d.last() != '0',
        d.len() <= n <= d.len() + k,
    ensures
        reals::end_nonzero(d + reals::zeros(k), n) == d.len(),
    decreases n,
{
    let s = d + reals::zeros(k);
    if n > d.len() {
        assert(s[n - 1] == '0');
        lemma_drops_zeros(d, k, n - 1);
    } else {
        assert(s[n - 1] == d.last());
    }
}

proof fn lemma_behind_end(d: Seq<char>, n: int)
    requires
        0 <= n <= d.len(),
    ensures
        0 <= reals::end_nonzero(d, n) <= n,
        forall|i: int| reals::end_nonzero(d, n) <= i < n ==> #[trigger] d[i] == '0',
        reals::end_nonzero(d, n) > 0 ==> d[reals::end_nonzero(d, n) - 1] != '0',
    decreases n,
{
    if n > 0 && d[n - 1] == '0' {
        lemma_behind_end(d, n - 1);
    }
}

proof fn lemma_in_front(d: Seq<char>, i: int)
    requires
        0 <= i <= d.len(),
    ensures
        i <= reals::first_nonzero(d, i) <= d.len(),
        reals::first_nonzero(d, i) < d.len() ==> d[reals::first_nonzero(d, i)] != '0',
    decreases d.len() - i,
{
    if i < d.len() && d[i] == '0' {
        lemma_in_front(d, i + 1);
    }
}

/// A text of digits and points has no exponent.
proof fn lemma_no_exponent(p: Seq<char>)
    requires
        pointed(p),
        p.len() > 0,
        text::is_digit(p[0]),
    ensures
        reals::exponent_mark(p) == p.len(),
        reals::exponent_of(p) == 0,
        p.subrange(0, p.len() as int) == p,
        reals::is_number(p) == reals::is_mantissa(p),
        !reals::is_nan(p),
        !reals::is_infinity(p),
        reals::unsigned_part(p) == p,
{
    let low = text::lowered(p);
    assert forall|i: int| 0 <= i < low.len() implies #[trigger] low[i] != 'e' by {
        assert(low[i] == text::lower(p[i]));
    }
    text_forms::lemma_index_lacking(low, 'e');
    assert(p.subrange(0, p.len() as int) =~= p);
    assert(low[0] == p[0]);
    reveal_strlit("nan");
    reveal_strlit("inf");
    reveal_strlit("infinity");
    assert("nan"@[0] == 'n');
    assert("inf"@[0] == 'i');
    assert("infinity"@[0] == 'i');
}

/// A plain decimal is read as the digits and the power of ten that it was made of.
pub proof fn lemma_plain(d: Seq<char>, point: int)
    requires
        bare_digits(d),
    ensures
        ({
            let p = reals::plain_decimal(d, point);
            &&& p.len() > 0
            &&& text::is_digit(p[0])
            &&& pointed(p)
            &&& text_forms::single_points(p)
            &&& reals::is_number(p)
            &&& !reals::is_nan(p)
            &&& !reals::is_infinity(p)
            &&& reals::unsigned_part(p) == p
            &&& reals::significant(p) == d
            &&& reals::magnitude(p) == point
            &&& reals::first_nonzero(reals::digits_of(p), 0) < reals::digits_of(p).len()
        }),
{
    let p = reals::plain_decimal(d, point);
    if point <= 0 {
        lemma_plain_fraction(d, point);
    } else if point >= d.len() {
        lemma_plain_whole(d, point);
    } else {
        lemma_plain_mixed(d, point);
    }
}

proof fn lemma_plain_fraction(d: Seq<char>, point: int)
    requires
        bare_digits(d),
        point <= 0,
    ensures
        ({
            let p = reals::plain_decimal(d, point);
            &&& p.len() > 0
            &&& text::is_digit(p[0])
            &&& pointed(p)
            &&& text_forms::single_points(p)
            &&& reals::is_number(p)
            &&& !reals::is_nan(p)
            &&& !reals::is_infinity(p)
            &&& reals::unsigned_part(p) == p
            &&& reals::significant(p) == d
            &&& reals::magnitude(p) == point
            &&& reals::first_nonzero(reals::digits_of(p), 0) < reals::digits_of(p).len()
        }),
{
    reveal_strlit("0.");
    let p = reals::plain_decimal(d, point);
    let fraction = reals::zeros(-point) + d;
    let whole = seq!['0'];
    assert("0."@ =~= seq!['0', '.']);
    assert(p =~= whole + seq!['.'] + fraction);
    assert forall|i: int| 0 <= i < p.len() implies text::is_digit(#[trigger] p[i]) || p[i] == '.' by {
        if i >= 2 - point {
            assert(p[i] == d[i - (2 - point)]);
        } else if i >= 2 {
            assert(p[i] == reals::zeros(-point)[i - 2]);
        }
    }
    lemma_no_exponent(p);
    text_forms::lemma_cut_joined(whole, '.', fraction);
    assert(text::all_digits(fraction)) by {
        assert forall|i: int| 0 <= i < fraction.len() implies text::is_digit(#[trigger] fraction[i]) by {
            if i >= -point {
                assert(fraction[i] == d[i + point]);
            }
        }
    }
    assert(p.last() == d.last());
    assert forall|i: int| 0 <= i < p.len() - 1 implies #[trigger] p[i] != '.' || p[i + 1] != '.' by {
        if i >= 1 {
            assert(p[i + 1] == fraction[i - 1]);
        }
        if i == 0 {
            assert(p[0] == '0');
        }
    }
    let all = whole + fraction;
    assert(all =~= reals::zeros(1 - point) + d);
    assert(reals::digits_of(p) == all);
    lemma_skips_zeros(1 - point, d, 0);
    let z = 1 - point;
    assert(all.last() == d.last());
    assert(reals::end_nonzero(all, all.len() as int) == all.len());
    assert(all.subrange(z, all.len() as int) =~= d);
}

proof fn lemma_plain_whole(d: Seq<char>, point: int)
    requires
        bare_digits(d),
        point >= d.len(),
    ensures
        ({
            let p = reals::plain_decimal(d, point);
            &&& p.len() > 0
            &&& text::is_digit(p[0])
            &&& pointed(p)
            &&& text_forms::single_points(p)
            &&& reals::is_number(p)
            &&& !reals::is_nan(p)
            &&& !reals::is_infinity(p)
            &&& reals::unsigned_part(p) == p
            &&& reals::significant(p) == d
            &&& reals::magnitude(p) == point
            &&& reals::first_nonzero(reals::digits_of(p), 0) < reals::digits_of(p).len()
        }),
{
    let k = point - d.len();
    let p = reals::plain_decimal(d, point);
    assert(p == d + reals::zeros(k));
    assert(text::all_digits(p)) by {
        assert forall|i: int| 0 <= i < p.len() implies text::is_digit(#[trigger] p[i]) by {
            if i < d.len() {
                assert(p[i] == d[i]);
            }
        }
    }
    assert(p[0] == d[0]);
    assert(pointed(p));
    lemma_no_exponent(p);
    assert forall|i: int| 0 <= i < p.len() implies #[trigger] p[i] != '.' by {
        assert(text::is_digit(p[i]));
    }
    text_forms::lemma_index_lacking(p, '.');
    assert(p.last() == p[p.len() - 1]);
    assert(reals::digits_of(p) == p);
    assert(reals::first_nonzero(p, 0) == 0);
    lemma_drops_zeros(d, k, p.len() as int);
    assert(p.subrange(0, d.len() as int) =~= d);
}

proof fn lemma_plain_mixed(d: Seq<char>, point: int)
    requires
        bare_digits(d),
        0 < point < d.len(),
    ensures
        ({
            let p = reals::plain_decimal(d, point);
            &&& p.len() > 0
            &&& text::is_digit(p[0])
            &&& pointed(p)
            &&& text_forms::single_points(p)
            &&& reals::is_number(p)
            &&& !reals::is_nan(p)
            &&& !reals::is_infinity(p)
            &&& reals::unsigned_part(p) == p
            &&& reals::significant(p) == d
            &&& reals::magnitude(p) == point
            &&& reals::first_nonzero(reals::digits_of(p), 0) < reals::digits_of(p).len()
        }),
{
    reveal_strlit(".");
    let p = reals::plain_decimal(d, point);
    let whole = d.take(point);
    let fraction = d.skip(point);
    assert("."@ =~= seq!['.']);
    assert(p =~= whole + seq!['.'] + fraction);
    assert forall|i: int| 0 <= i < p.len() implies text::is_digit(#[trigger] p[i]) || p[i] == '.' by {
        if i < point {
            assert(p[i] == d[i]);
        } else if i > point {
            assert(p[i] == d[i - 1]);
        }
    }
    assert(p[0] == d[0]);
    lemma_no_exponent(p);
    assert forall|i: int| 0 <= i < whole.len() implies #[trigger] whole[i] != '.' by {
        assert(text::is_digit(d[i]));
    }
    text_forms::lemma_cut_joined(whole, '.', fraction);
    assert(text::all_digits(whole)) by {
        assert forall|i: int| 0 <= i < whole.len() implies text::is_digit(#[trigger] whole[i]) by {
            assert(text::is_digit(d[i]));
        }
    }
    assert(text::all_digits(fraction)) by {
        assert forall|i: int| 0 <= i < fraction.len() implies text::is_digit(#[trigger] fraction[i]) by {
            assert(text::is_digit(d[i + point]));
        }
    }
    assert(p.last() == d.last());
    assert(text::is_digit(d[d.len() - 1]));
    assert forall|i: int| 0 <= i < p.len() - 1 implies #[trigger] p[i] != '.' || p[i + 1] != '.' by {
        if i < point {
            assert(p[i] == d[i]);
            assert(text::is_digit(d[i]));
        } else {
            assert(p[i + 1] == d[i]);
            assert(text::is_digit(d[i]));
        }
    }
    assert(whole + fraction =~= d);
    assert(reals::digits_of(p) == d);
    assert(reals::first_nonzero(d, 0) == 0);
    assert(reals::end_nonzero(d, d.len() as int) == d.len());
    assert(d.subrange(0, d.len() as int) =~= d);
}

/// The digits of a number are digits.
pub proof fn lemma_digits_of(u: Seq<char>)
    requires
        reals::is_number(u),
    ensures
        text::all_digits(reals::digits_of(u)),
        reals::significant(u).len() > 0 ==> bare_digits(reals::significant(u)),
        reals::significant(u).len() == 0 <==> reals::first_nonzero(reals::digits_of(u), 0)
            >= reals::digits_of(u).len(),
{
    let at = reals::exponent_mark(u);
    text::lemma_index_of_char_bounds(text::lowered(u), 'e', 0);
    let m = u.subrange(0, at);
    assert(reals::is_mantissa(m)) by {
        if at >= u.len() {
            assert(m =~= u);
        }
    }
    let d = reals::digits_of(u);
    match text::cut_char(m, '.') {
        None => {},
        Some((whole, fraction)) => {
            assert forall|i: int| 0 <= i < d.len() implies text::is_digit(#[trigger] d[i]) by {
                if i < whole.len() {
                    assert(d[i] == whole[i]);
                } else {
                    assert(d[i] == fraction[i - whole.len()]);
                }
            }
        },
    }
    lemma_in_front(d, 0);
    let z = reals::first_nonzero(d, 0);
    if z < d.len() {
        lemma_behind_end(d, d.len() as int);
        let e = reals::end_nonzero(d, d.len() as int);
        if e <= z {
            assert(d[z] == '0');
        }
        let sig = d.subrange(z, e);
        assert(reals::significant(u) == sig);
        assert(sig[0] == d[z]);
        assert(sig.last() == d[e - 1]);
        assert forall|i: int| 0 <= i < sig.len() implies text::is_digit(#[trigger] sig[i]) by {
            assert(sig[i] == d[z + i]);
        }
    }
}

/// The texts in which zero, infinity and the value that is not a number are shown.
pub proof fn lemma_fixed_texts()
    ensures
        reals::is_real("0"@),
        reals::is_real("-0"@),
        reals::is_real("inf"@),
        reals::is_real("-inf"@),
        reals::is_real("NaN"@),
        forall|double: bool| #[trigger] reals::shown_real("0"@, double) == "0"@,
        forall|double: bool| #[trigger] reals::shown_real("-0"@, double) == "-0"@,
        forall|double: bool| #[trigger] reals::shown_real("inf"@, double) == "inf"@,
        forall|double: bool| #[trigger] reals::shown_real("-inf"@, double) == "-inf"@,
        forall|double: bool| #[trigger] reals::shown_real("NaN"@, double) == "NaN"@,
        number_text("0"@),
        number_text("-0"@),
        number_text("inf"@),
        number_text("-inf"@),
        number_text("NaN"@),
        "0"@ == seq!['0'],
        "-"@ + "0"@ == "-0"@,
        "-"@ + "inf"@ == "-inf"@,
        ""@ + "0"@ == "0"@,
        ""@ + "inf"@ == "inf"@,
        "inf"@[0] == 'i',
        "NaN"@[0] == 'N',
        "-0"@[0] == '-',
        "-inf"@[0] == '-',
        "0"@.len() == 1,
        "inf"@.len() == 3,
        "NaN"@.len() == 3,
        "-0"@.len() == 2,
        "-inf"@.len() == 4,
        !reals::is_nan(reals::unsigned_part("0"@)),
        !reals::is_nan(reals::unsigned_part("-0"@)),
        !reals::is_nan(reals::unsigned_part("inf"@)),
        !reals::is_nan(reals::unsigned_part("-inf"@)),
        !reals::is_infinity(reals::unsigned_part("0"@)),
        reals::is_percentage("0"@),
{
    reveal_strlit("");
    reveal_strlit("0");
    reveal_strlit("-0");
    reveal_strlit("-");
    reveal_strlit("inf");
    reveal_strlit("-inf");
    reveal_strlit("NaN");
    reveal_strlit("nan");
    reveal_strlit("infinity");
    let zero = seq!['0'];
    assert("0"@ =~= zero);
    assert("-0"@ =~= seq!['-', '0']);
    assert("inf"@ =~= seq!['i', 'n', 'f']);
    assert("-inf"@ =~= seq!['-', 'i', 'n', 'f']);
    assert("NaN"@ =~= seq!['N', 'a', 'N']);
    assert("-"@ + "0"@ =~= "-0"@);
    assert("-"@ + "inf"@ =~= "-inf"@);
    assert(""@ + "0"@ =~= "0"@);
    assert(""@ + "inf"@ =~= "inf"@);
    assert(reals::unsigned_part("-0"@) =~= zero);
    assert(reals::unsigned_part("-inf"@) =~= "inf"@);
    assert(text::lowered("inf"@) =~= "inf"@);
    let low = text::lowered("NaN"@);
    assert(low[0] == text::lower('N'));
    assert(text::lower('N') == 'n');
    assert(low =~= "nan"@);
    assert(text::lowered(zero) =~= zero);
    assert("nan"@ =~= seq!['n', 'a', 'n']);
    assert("nan"@.len() == 3);
    assert("infinity"@.len() == 8);
    lemma_no_exponent(zero);
    text_forms::lemma_index_lacking(zero, '.');
    assert(reals::is_mantissa(zero));
    assert(reals::digits_of(zero) == zero);
    assert(reals::first_nonzero(zero, 1) == 1);
    assert(reals::first_nonzero(zero, 0) == 1);
    assert(reals::significant(zero).len() == 0);
    assert("inf"@[1] != "nan"@[1] || "inf"@[0] != "nan"@[0]);
}

/// The first digit of a whole number above zero is not zero.
proof fn lemma_decimal_start(c: nat)
    requires
        c > 0,
    ensures
        text::decimal(c).len() > 0,
        text::decimal(c)[0] != '0',
    decreases c,
{
    if c < 10 {
        assert(text::decimal(c) =~= seq![text::digit_char(c)]);
        assert(text::digit_char(c) as u32 == 48 + c);
    } else {
        lemma_decimal_start(c / 10);
    }
}

/// The digits in which a whole number above zero is written have no zeros at the ends.
proof fn lemma_written(c: nat, shift: int)
    requires
        c > 0,
    ensures
        bare_digits(machine_numbers::written(c, shift).0),
{
    let all = text::decimal(c);
    text_forms::lemma_decimal(c);
    lemma_decimal_start(c);
    lemma_behind_end(all, all.len() as int);
    let e = reals::end_nonzero(all, all.len() as int);
    if e == 0 {
        assert(all[0] == '0');
    }
    let d = all.subrange(0, e);
    assert(d[0] == all[0]);
    assert(d.last() == all[e - 1]);
    assert forall|i: int| 0 <= i < d.len() implies text::is_digit(#[trigger] d[i]) by {
        assert(d[i] == all[i]);
    }
}

/// Digits that are shown for a number are held as that number, and shown again.
pub proof fn lemma_shown_digits(number: (nat, nat), d: Seq<char>, power: int, f: Format)
    requires
        number.0 > 0,
    ensures
        machine_numbers::shortest(number, f) matches Some(found) ==> {
            &&& bare_digits(found.0)
            &&& machine_numbers::held(found.0, found.1, f) == Some(number)
            &&& f.tiny < found.1 < f.huge
        },
        ({
            let found = machine_numbers::shown_digits(number, d, power, f);
            machine_numbers::shown_digits(number, found.0, found.1, f) == found
        }),
{
    let j = machine_numbers::places_above(number, f);
    let num = machine_numbers::in_tiny(number, f);
    let bound = limbs::raised(2, f.low as nat) * limbs::raised(10, j);
    machine_numbers::lemma_shortest_reads(number, num, bound, f.tiny + j, 1, f);
    if let Some(found) = machine_numbers::shortest(number, f) {
        let (c, shift) = choose|c: nat, shift: int|
            c > 0 && found == #[trigger] machine_numbers::written(c, shift);
        lemma_written(c, shift);
    }
}

/// Digits without zeros at the ends are shown as digits without zeros at the ends, which are held as
/// the same number and shown in the same way again.
proof fn lemma_shown_number(d: Seq<char>, power: int, f: Format)
    requires
        bare_digits(d),
        machine_numbers::held(d, power, f) matches Some(n) && n.0 > 0,
    ensures
        ({
            let n = machine_numbers::held(d, power, f)->0;
            let found = machine_numbers::shown_digits(n, d, power, f);
            &&& bare_digits(found.0)
            &&& machine_numbers::held(found.0, found.1, f) == Some(n)
            &&& reals::shown_number(Some(n), found.0, found.1, f) == reals::plain_decimal(
                found.0,
                found.1,
            )
        }),
{
    lemma_shown_digits(machine_numbers::held(d, power, f)->0, d, power, f);
}

/// A number that was shown is a number, and it is shown in the same way again.
pub proof fn law_shown_again(s: Seq<char>, double: bool)
    requires
        reals::is_real(s),
    ensures
        ({
            let t = reals::shown_real(s, double);
            &&& reals::is_real(t)
            &&& reals::shown_real(t, double) == t
            &&& number_text(t)
            &&& t.len() > 0
            &&& t[0] == '-' ==> s.len() > 0 && s[0] == '-'
            &&& reals::is_nan(reals::unsigned_part(t)) ==> reals::is_nan(reals::unsigned_part(s))
        }),
{
    lemma_fixed_texts();
    reveal_strlit("");
    reveal_strlit("-");
    let t = reals::shown_real(s, double);
    let u = reals::unsigned_part(s);
    let negative = s.len() > 0 && s[0] == '-';
    let sign = reals::sign_of(s);
    let f = machine_numbers::format_for(double);
    if !reals::is_nan(u) && !reals::is_infinity(u) {
        lemma_digits_of(u);
        let d = reals::significant(u);
        let power = reals::magnitude(u);
        let number = machine_numbers::held(d, power, f);
        let sure = machine_numbers::is_sure(d, power, f);
        if sure || (number matches Some(n) && n.0 > 0) {
            let (x, point) = if sure {
                (d, power)
            } else {
                machine_numbers::shown_digits(number->0, d, power, f)
            };
            if !sure {
                lemma_shown_number(d, power, f);
            }
            let p = reals::plain_decimal(x, point);
            lemma_plain(x, point);
            assert(t == sign + p);
            if negative {
                assert(t[0] == '-');
                assert(t.subrange(1, t.len() as int) =~= p);
            } else {
                assert(t =~= p);
            }
            assert(reals::unsigned_part(t) == p);
            assert(reals::sign_of(t) == sign);
            assert(reals::shown_real(t, double) == t);
            assert forall|i: int| 0 <= i < t.len() implies number_char(#[trigger] t[i]) by {
                if negative {
                    if i > 0 {
                        assert(t[i] == p[i - 1]);
                    }
                } else {
                    assert(t[i] == p[i]);
                }
            }
        }
    }
}

/// What is shown of a number that is held above zero is shown in the same way again.
pub proof fn law_nonnegative_shown_again(s: Seq<char>)
    requires
        reals::is_real(s),
    ensures
        ({
            let t = reals::shown_nonnegative(s);
            &&& reals::is_real(t)
            &&& reals::shown_nonnegative(t) == t
            &&& number_text(t)
            &&& t.len() > 0
        }),
{
    lemma_fixed_texts();
    law_shown_again(s, false);
}

/// A percentage that was shown is a percentage, and it is shown in the same way again.
pub proof fn law_percent_shown_again(s: Seq<char>)
    requires
        reals::is_real(s),
        !reals::is_nan(reals::unsigned_part(s)),
        !reals::is_infinity(reals::unsigned_part(s)),
        reals::is_percentage(s),
    ensures
        ({
            let t = reals::shown_percent(s);
            &&& reals::is_real(t)
            &&& !reals::is_nan(reals::unsigned_part(t))
            &&& !reals::is_infinity(reals::unsigned_part(t))
            &&& reals::is_percentage(t)
            &&& reals::shown_percent(t) == t
            &&& t.len() > 0
            &&& text::is_digit(t[0])
            &&& pointed(t)
            &&& text_forms::single_points(t)
        }),
{
    lemma_fixed_texts();
    law_shown_again(s, true);
    reveal_strlit("");
    let u = reals::unsigned_part(s);
    let t = reals::shown_percent(s);
    if s.len() > 0 && s[0] == '-' {
    } else {
        lemma_digits_of(u);
        let d = reals::significant(u);
        let power = reals::magnitude(u);
        let f = machine_numbers::format_for(true);
        let number = machine_numbers::held(d, power, f)->0;
        let sure = machine_numbers::is_sure(d, power, f);
        if sure || number.0 > 0 {
            let (x, point) = if sure {
                (d, power)
            } else {
                machine_numbers::shown_digits(number, d, power, f)
            };
            if !sure {
                lemma_shown_number(d, power, f);
            }
            lemma_plain(x, point);
            assert(t =~= reals::plain_decimal(x, point));
        }
    }
}

} // verus!
