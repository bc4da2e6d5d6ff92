//! Numbers with a fraction, by their text.

use vstd::prelude::*;
use crate::limbs;
use crate::machine_numbers;
use crate::real_forms;
use crate::text;
use vstd::slice::slice_subrange;

use crate::limbs::Natural;
use crate::machine_numbers::{format_of, hold, hold_again, shortest_digits, take_percent, Format};
use crate::text::{chars_of, find_char, is_all_digits, is_text, lowercase, push_chars,
    push_text, split_once_char};

verus! {

// ---------------------------------------------------------------------------------------
// Syntax
// ---------------------------------------------------------------------------------------

/// Text behind an optional sign.
pub open spec fn unsigned_part(s: Seq<char>) -> Seq<char> {
    if s.len() > 0 && (s[0] == '+' || s[0] == '-') {
        s.subrange(1, s.len() as int)
    } else {
        s
    }
}

/// Decimal digits with at most one point, at least one digit in all.
pub open spec fn is_mantissa(s: Seq<char>) -> bool {
    match text::cut_char(s, '.') {
        None => s.len() > 0 && text::all_digits(s),
        Some((whole, fraction)) => text::all_digits(whole) && text::all_digits(fraction) && s.len() > 1,
    }
}

/// A mantissa, optionally followed by `e` and a signed decimal exponent.
pub open spec fn is_number(s: Seq<char>) -> bool {
    let at = text::index_of_char(text::lowered(s), 'e', 0);
    if at < s.len() {
        let exponent = unsigned_part(s.subrange(at + 1, s.len() as int));
        is_mantissa(s.subrange(0, at)) && exponent.len() > 0 && text::all_digits(exponent)
    } else {
        is_mantissa(s)
    }
}

/// Whether `s` names infinity.
pub open spec fn is_infinity(s: Seq<char>) -> bool {
    text::lowered(s) == "inf"@ || text::lowered(s) == "infinity"@
}

/// Whether `s` names the value that is not a number.
pub open spec fn is_nan(s: Seq<char>) -> bool {
    text::lowered(s) == "nan"@
}

/// Whether `s` is the text of a real number.
pub open spec fn is_real(s: Seq<char>) -> bool {
    let body = unsigned_part(s);
    is_infinity(body) || is_nan(body) || is_number(body)
}

pub(crate) fn unsigned(s: &[char]) -> (body: &[char])
    ensures
        body@ == unsigned_part(s@),
{
    if s.len() > 0 && (s[0] == '+' || s[0] == '-') {
        slice_subrange(s, 1, s.len())
    } else {
        s
    }
}

fn check_mantissa(s: &[char]) -> (yes: bool)
    ensures
        yes == is_mantissa(s@),
{
    match split_once_char(s, '.') {
        None => s.len() > 0 && is_all_digits(s),
        Some((whole, fraction)) => is_all_digits(whole) && is_all_digits(fraction) && s.len() > 1,
    }
}

fn check_number(s: &[char]) -> (yes: bool)
    ensures
        yes == is_number(s@),
{
    let low = lowercase(s);
    let at: usize = find_char(&low, 'e', 0);
    if at < s.len() {
        let exponent = unsigned(slice_subrange(s, at + 1, s.len()));
        check_mantissa(slice_subrange(s, 0, at)) && exponent.len() > 0 && is_all_digits(exponent)
    } else {
        check_mantissa(s)
    }
}

pub(crate) fn check_infinity(s: &[char]) -> (yes: bool)
    ensures
        yes == is_infinity(s@),
{
    let low = lowercase(s);
    is_text(&low, "inf") || is_text(&low, "infinity")
}

pub(crate) fn check_nan(s: &[char]) -> (yes: bool)
    ensures
        yes == is_nan(s@),
{
    let low = lowercase(s);
    is_text(&low, "nan")
}

/// Whether `s` is the text of a real number.
pub fn check_real(s: &[char]) -> (yes: bool)
    ensures
        yes == is_real(s@),
{
    let body = unsigned(s);
    check_infinity(body) || check_nan(body) || check_number(body)
}

// ---------------------------------------------------------------------------------------
// Percentages
// ---------------------------------------------------------------------------------------

/// Where the exponent begins; the length where there is none.
pub open spec fn exponent_mark(s: Seq<char>) -> int {
    text::index_of_char(text::lowered(s), 'e', 0)
}

/// Power of ten behind a number.
pub open spec fn exponent_of(s: Seq<char>) -> int {
    let at = exponent_mark(s);
    if at < s.len() {
        let e = s.subrange(at + 1, s.len() as int);
        if e.len() > 0 && e[0] == '-' {
            -text::digits_value(unsigned_part(e))
        } else {
            text::digits_value(unsigned_part(e)) as int
        }
    } else {
        0
    }
}

/// Digits of a number, without its point.
pub open spec fn digits_of(s: Seq<char>) -> Seq<char> {
    let m = s.subrange(0, exponent_mark(s));
    match text::cut_char(m, '.') {
        None => m,
        Some((whole, fraction)) => whole + fraction,
    }
}

/// How many of the digits stand in front of the point.
pub open spec fn whole_len(s: Seq<char>) -> nat {
    let m = s.subrange(0, exponent_mark(s));
    match text::cut_char(m, '.') {
        None => m.len(),
        Some((whole, fraction)) => whole.len(),
    }
}

/// First digit from `i` on that is not zero.
pub open spec fn first_nonzero(d: Seq<char>, i: int) -> int
    decreases d.len() - i,
{
    if i >= d.len() {
        d.len() as int
    } else if d[i] != '0' {
        i
    } else {
        first_nonzero(d, i + 1)
    }
}

/// Power of ten just above a number that is not zero: 3 for 100 and for 999.
pub open spec fn magnitude(s: Seq<char>) -> int {
    whole_len(s) + exponent_of(s) - first_nonzero(digits_of(s), 0)
}

/// Whether a number that is held by a machine in eight bytes lies between 0 and 100. A number below
/// zero does where it is so small that it is held as zero.
pub open spec fn is_percentage(s: Seq<char>) -> bool {
    let u = unsigned_part(s);
    let f = machine_numbers::format_for(true);
    match machine_numbers::held(significant(u), magnitude(u), f) {
        Some((m, e)) => m == 0 || s[0] != '-' && m * limbs::raised(2, e) <= 100 * limbs::raised(
            2,
            f.low as nat,
        ),
        None => false,
    }
}

/// Numbers up to this are counted exactly.
const EXPONENT_CAP: u128 = 0x10_0000_0000_0000_0000_0000_0000;

/// Value of a run of digits, or some number above the cap where it is above.
fn capped_value(d: &[char]) -> (n: u128)
    requires
        text::all_digits(d@),
    ensures
        n == text::digits_value(d@) || (n >= EXPONENT_CAP && text::digits_value(d@) >= EXPONENT_CAP),
        n < 11 * EXPONENT_CAP,
{
    let len: usize = d.len();
    let mut n: u128 = 0;
    let mut i: usize = 0;
    while i < len
        invariant
            i <= len == d@.len(),
            text::all_digits(d@),
            n == text::digits_value(d@.take(i as int)) || (n >= EXPONENT_CAP && text::digits_value(
                d@.take(i as int),
            ) >= EXPONENT_CAP),
            n < 11 * EXPONENT_CAP,
        decreases len - i,
    {
        proof {
            assert(d@.take(i + 1).drop_last() =~= d@.take(i as int));
            assert(d@.take(i + 1).last() == d@[i as int]);
            assert(text::is_digit(d@[i as int]));
        }
        if n < EXPONENT_CAP {
            n = 10 * n + (d[i] as u32 - '0' as u32) as u128;
        }
        i += 1;
    }
    proof {
        assert(d@.take(len as int) =~= d@);
    }
    n
}

fn nonzero_place(d: &[char]) -> (z: usize)
    ensures
        z == first_nonzero(d@, 0),
        z <= d@.len(),
{
    let n: usize = d.len();
    let mut i: usize = 0;
    while i < n
        invariant
            i <= n == d@.len(),
            first_nonzero(d@, 0) == first_nonzero(d@, i as int),
        decreases n - i,
    {
        if d[i] != '0' {
            return i;
        }
        i += 1;
    }
    n
}

/// Powers of ten that are told exactly.
const POWER_CAP: i128 = 1_000_000;

/// Whether `power` is the magnitude of a number, or both lie beyond the same end.
spec fn tells_magnitude(power: i128, s: Seq<char>) -> bool {
    ||| power == magnitude(s)
    ||| power >= POWER_CAP && magnitude(s) >= POWER_CAP
    ||| power <= -POWER_CAP && magnitude(s) <= -POWER_CAP
}

/// Digits of a number, the first that is not zero, and the magnitude.
fn read_number(u: &[char]) -> (parts: (Vec<char>, usize, i128))
    requires
        is_number(u@),
    ensures
        parts.0@ == digits_of(u@),
        parts.1 == first_nonzero(digits_of(u@), 0),
        parts.1 <= parts.0@.len(),
        tells_magnitude(parts.2, u@),
{
    let low = lowercase(u);
    let at: usize = find_char(&low, 'e', 0);
    let m = slice_subrange(u, 0, at);
    let mut d: Vec<char> = Vec::new();
    let whole: usize = match split_once_char(m, '.') {
        None => {
            push_chars(&mut d, m);
            m.len()
        },
        Some((whole, fraction)) => {
            push_chars(&mut d, whole);
            push_chars(&mut d, fraction);
            whole.len()
        },
    };
    proof {
        assert(d@ =~= digits_of(u@));
    }
    let z: usize = nonzero_place(&d);
    let mut exponent: i128 = 0;
    if at < u.len() {
        let e = slice_subrange(u, at + 1, u.len());
        let n: u128 = capped_value(unsigned(e));
        if e.len() > 0 && e[0] == '-' {
            exponent = -(n as i128);
        } else {
            exponent = n as i128;
        }
    }
    (d, z, whole as i128 + exponent - z as i128)
}

/// Significant digits of a number, and its magnitude.
fn read_digits(u: &[char]) -> (parts: (Vec<char>, i128))
    requires
        is_number(u@),
    ensures
        parts.0@ == significant(u@),
        text::all_digits(parts.0@),
        tells_magnitude(parts.1, u@),
{
    let (d, z, power): (Vec<char>, usize, i128) = read_number(u);
    proof {
        real_forms::lemma_digits_of(u@);
    }
    let mut own: Vec<char> = Vec::new();
    if z < d.len() {
        let end: usize = nonzero_end(&d);
        proof {
            lemma_ends_in_order(d@, z as int, d@.len() as int);
        }
        push_chars(&mut own, slice_subrange(&d, z, end));
    }
    proof {
        assert(own@ =~= significant(u@));
    }
    (own, power)
}

/// A power of ten that is far enough from both ends, or beyond the same end.
proof fn lemma_told(power: i128, u: Seq<char>, d: Seq<char>, f: Format)
    requires
        tells_magnitude(power, u),
        -1000 < f.tiny < f.huge < 1000,
        f.tiny < f.sure_low,
        f.sure_high < f.huge,
    ensures
        machine_numbers::held(d, power as int, f) == machine_numbers::held(d, magnitude(u), f),
        machine_numbers::is_sure(d, power as int, f) == machine_numbers::is_sure(d, magnitude(u), f),
        f.tiny < power < f.huge ==> power == magnitude(u),
{
}

/// Whether a number that is held by a machine in eight bytes lies between 0 and 100.
pub fn percent_in_range(s: &[char]) -> (yes: bool)
    requires
        is_number(unsigned_part(s@)),
    ensures
        yes == is_percentage(s@),
{
    let u = unsigned(s);
    let (d, power): (Vec<char>, i128) = read_digits(u);
    proof {
        lemma_told(power, u@, d@, machine_numbers::format_for(true));
    }
    match hold(&d, power, true) {
        Some((m, e)) => {
            if m == 0 {
                return true;
            }
            if s[0] == '-' {
                return false;
            }
            let mut number = Natural::new(m);
            number.scale(2, e as u128);
            let mut most = Natural::new(100);
            most.scale(2, format_of(true).low as u128);
            !most.is_below(&number)
        },
        None => false,
    }
}

// ---------------------------------------------------------------------------------------
// How a number is shown
// ---------------------------------------------------------------------------------------

/// One past the last digit of the first `n` that is not zero.
pub open spec fn end_nonzero(d: Seq<char>, n: int) -> int
    decreases n,
{
    if n <= 0 {
        0
    } else if d[n - 1] != '0' {
        n
    } else {
        end_nonzero(d, n - 1)
    }
}

/// Digits of a number from the first that is not zero to the last.
pub open spec fn significant(s: Seq<char>) -> Seq<char> {
    let d = digits_of(s);
    let z = first_nonzero(d, 0);
    if z >= d.len() {
        Seq::empty()
    } else {
        d.subrange(z, end_nonzero(d, d.len() as int))
    }
}

/// A run of zeros.
pub open spec fn zeros(n: int) -> Seq<char> {
    Seq::new(n as nat, |i: int| '0')
}

/// Digits with the point behind the first `point` of them.
pub open spec fn plain_decimal(d: Seq<char>, point: int) -> Seq<char> {
    if point <= 0 {
        "0."@ + zeros(-point) + d
    } else if point >= d.len() {
        d + zeros(point - d.len())
    } else {
        d.take(point) + "."@ + d.skip(point)
    }
}

/// Sign of a text that is shown.
pub open spec fn sign_of(s: Seq<char>) -> Seq<char> {
    if s.len() > 0 && s[0] == '-' {
        "-"@
    } else {
        ""@
    }
}

/// Text in which a number that a machine holds is shown: the shortest plain decimal that is held as
/// the same number. `d` and `power` are as it was written.
pub open spec fn shown_number(
    number: Option<(nat, nat)>,
    d: Seq<char>,
    power: int,
    f: Format,
) -> Seq<char> {
    match number {
        Some(n) => if n.0 == 0 {
            "0"@
        } else {
            let found = machine_numbers::shown_digits(n, d, power, f);
            plain_decimal(found.0, found.1)
        },
        None => "inf"@,
    }
}

/// Text in which the machine number that `s` is read as is shown: a plain decimal without zeros at
/// its ends, which is the shortest that is read as the same machine number. It takes eight bytes or
/// four. Digits that are few enough to be held as they are written are shown so.
pub open spec fn shown_real(s: Seq<char>, double: bool) -> Seq<char> {
    let u = unsigned_part(s);
    let f = machine_numbers::format_for(double);
    if is_nan(u) {
        "NaN"@
    } else if is_infinity(u) {
        sign_of(s) + "inf"@
    } else if machine_numbers::is_sure(significant(u), magnitude(u), f) {
        sign_of(s) + plain_decimal(significant(u), magnitude(u))
    } else {
        sign_of(s) + shown_number(
            machine_numbers::held(significant(u), magnitude(u), f),
            significant(u),
            magnitude(u),
            f,
        )
    }
}

/// Text in which a machine number of four bytes is shown that was one of eight bytes before.
pub open spec fn shown_narrowed(s: Seq<char>) -> Seq<char> {
    let u = unsigned_part(s);
    let from = machine_numbers::format_for(true);
    let to = machine_numbers::format_for(false);
    if is_nan(u) {
        "NaN"@
    } else if is_infinity(u) {
        sign_of(s) + "inf"@
    } else {
        let number = match machine_numbers::held(significant(u), magnitude(u), from) {
            Some(n) => if n.0 == 0 {
                Some((0, 0))
            } else {
                machine_numbers::held_again(n, from, to)
            },
            None => None,
        };
        sign_of(s) + shown_number(number, significant(u), magnitude(u), to)
    }
}

/// Text in which the larger of a number and zero is shown: zero for a negative number and for the
/// value that is not a number.
pub open spec fn shown_nonnegative(s: Seq<char>) -> Seq<char> {
    if (s.len() > 0 && s[0] == '-') || is_nan(unsigned_part(s)) {
        "0"@
    } else {
        shown_real(s, false)
    }
}

/// Text in which a percentage is shown. What lies below zero is held as zero.
pub open spec fn shown_percent(s: Seq<char>) -> Seq<char> {
    if s.len() > 0 && s[0] == '-' {
        "0"@
    } else {
        shown_real(s, true)
    }
}

pub(crate) fn nonzero_end(d: &[char]) -> (end: usize)
    ensures
        end == end_nonzero(d@, d@.len() as int),
        end <= d@.len(),
{
    let mut i: usize = d.len();
    while i > 0
        invariant
            i <= d@.len(),
            end_nonzero(d@, d@.len() as int) == end_nonzero(d@, i as int),
        decreases i,
    {
        if d[i - 1] != '0' {
            return i;
        }
        i -= 1;
    }
    0
}

proof fn lemma_ends_in_order(d: Seq<char>, z: int, n: int)
    requires
        z == first_nonzero(d, 0),
        0 <= z < n <= d.len(),
    ensures
        z < end_nonzero(d, n),
        end_nonzero(d, n) <= n,
    decreases n,
{
    lemma_first_nonzero(d, 0);
    if d[n - 1] == '0' {
        lemma_ends_in_order(d, z, n - 1);
    }
}

proof fn lemma_first_nonzero(d: Seq<char>, i: int)
    requires
        0 <= i <= d.len(),
    ensures
        i <= first_nonzero(d, i) <= d.len(),
        first_nonzero(d, i) < d.len() ==> d[first_nonzero(d, i)] != '0',
    decreases d.len() - i,
{
    if i < d.len() && d[i] == '0' {
        lemma_first_nonzero(d, i + 1);
    }
}

fn push_zeros(out: &mut Vec<char>, n: usize)
    ensures
        final(out)@ == old(out)@ + zeros(n as int),
{
    let mut i: usize = 0;
    while i < n
        invariant
            i <= n,
            out@ == old(out)@ + zeros(i as int),
        decreases n - i,
    {
        out.push('0');
        i += 1;
        assert(out@ =~= old(out)@ + zeros(i as int));
    }
    assert(out@ =~= old(out)@ + zeros(n as int));
}

fn push_plain(out: &mut Vec<char>, d: &[char], point: i128)
    requires
        d@.len() > 0,
        -POWER_CAP <= point <= POWER_CAP,
    ensures
        final(out)@ == old(out)@ + plain_decimal(d@, point as int),
{
    if point <= 0 {
        push_text(out, "0.");
        push_zeros(out, (-point) as usize);
        push_chars(out, d);
        assert(out@ =~= old(out)@ + plain_decimal(d@, point as int));
        return;
    }
    let whole: usize = point as usize;
    if whole >= d.len() {
        push_chars(out, d);
        push_zeros(out, whole - d.len());
    } else {
        push_chars(out, slice_subrange(d, 0, whole));
        push_text(out, ".");
        push_chars(out, slice_subrange(d, whole, d.len()));
        proof {
            assert(d@.take(point as int) =~= d@.subrange(0, whole as int));
            assert(d@.skip(point as int) =~= d@.subrange(whole as int, d@.len() as int));
        }
    }
    assert(out@ =~= old(out)@ + plain_decimal(d@, point as int));
}

fn signed_start(s: &[char]) -> (out: Vec<char>)
    ensures
        out@ == sign_of(s@),
{
    if s.len() > 0 && s[0] == '-' {
        chars_of("-")
    } else {
        chars_of("")
    }
}

fn push_number(
    out: &mut Vec<char>,
    number: Option<(u64, usize)>,
    d: &[char],
    power: i128,
    double: bool,
)
    requires
        d@.len() > 0,
        -1000 < power < 1000,
    ensures
        final(out)@ == old(out)@ + shown_number(
            machine_numbers::number_model(number),
            d@,
            power as int,
            machine_numbers::format_for(double),
        ),
{
    let ghost f = machine_numbers::format_for(double);
    match number {
        Some((m, e)) => {
            if m == 0 {
                push_text(out, "0");
                return;
            }
            let found = shortest_digits((m, e), double);
            proof {
                real_forms::lemma_shown_digits((m as nat, e as nat), d@, power as int, f);
            }
            match found {
                Some((own, point)) => {
                    push_plain(out, &own, point);
                },
                None => {
                    push_plain(out, d, power);
                },
            }
        },
        None => {
            push_text(out, "inf");
        },
    }
}

/// Text in which the machine number that `s` is read as is shown.
pub fn show_real(s: &[char], double: bool) -> (shown: Vec<char>)
    requires
        is_real(s@),
    ensures
        shown@ == shown_real(s@, double),
{
    let u = unsigned(s);
    if check_nan(u) {
        return chars_of("NaN");
    }
    let mut out = signed_start(s);
    if check_infinity(u) {
        push_text(&mut out, "inf");
        return out;
    }
    let f = format_of(double);
    let (d, power): (Vec<char>, i128) = read_digits(u);
    proof {
        lemma_told(power, u@, d@, f);
    }
    if 0 < d.len() && d.len() <= f.sure_digits && f.sure_low < power && power <= f.sure_high {
        push_plain(&mut out, &d, power);
        return out;
    }
    let number = hold(&d, power, double);
    if d.len() == 0 || power <= f.tiny {
        push_text(&mut out, "0");
    } else if power >= f.huge {
        push_text(&mut out, "inf");
    } else {
        push_number(&mut out, number, &d, power, double);
    }
    out
}

/// Text in which a machine number of four bytes is shown that was one of eight bytes before.
pub fn show_narrowed(s: &[char]) -> (shown: Vec<char>)
    requires
        is_real(s@),
    ensures
        shown@ == shown_narrowed(s@),
{
    let u = unsigned(s);
    if check_nan(u) {
        return chars_of("NaN");
    }
    let mut out = signed_start(s);
    if check_infinity(u) {
        push_text(&mut out, "inf");
        return out;
    }
    let f = format_of(true);
    let (d, power): (Vec<char>, i128) = read_digits(u);
    proof {
        lemma_told(power, u@, d@, f);
    }
    if d.len() == 0 || power <= f.tiny {
        push_text(&mut out, "0");
        return out;
    }
    if power >= f.huge {
        push_text(&mut out, "inf");
        return out;
    }
    let number = match hold(&d, power, true) {
        Some(n) => if n.0 == 0 {
            Some((0, 0))
        } else {
            hold_again(n, true, false)
        },
        None => None,
    };
    push_number(&mut out, number, &d, power, false);
    out
}

/// Text in which the larger of a number and zero is shown.
pub fn show_nonnegative(s: &[char]) -> (shown: Vec<char>)
    requires
        is_real(s@),
    ensures
        shown@ == shown_nonnegative(s@),
{
    if (s.len() > 0 && s[0] == '-') || check_nan(unsigned(s)) {
        chars_of("0")
    } else {
        show_real(s, false)
    }
}

/// Text in which a percentage is shown.
pub fn show_percent(s: &[char]) -> (shown: Vec<char>)
    requires
        is_real(s@),
    ensures
        shown@ == shown_percent(s@),
{
    if s.len() > 0 && s[0] == '-' {
        chars_of("0")
    } else {
        show_real(s, true)
    }
}

// ---------------------------------------------------------------------------------------
// Shares of a total
// ---------------------------------------------------------------------------------------

/// Whole part of so many hundredths of a total. What is below zero, or no number, counts as zero.
pub open spec fn percent_share(s: Seq<char>, total: u64) -> nat {
    let u = unsigned_part(s);
    if !is_real(s) || is_nan(u) || (s.len() > 0 && s[0] == '-') {
        0
    } else if is_infinity(u) {
        if total == 0 {
            0
        } else {
            u64::MAX as nat
        }
    } else {
        match machine_numbers::held(significant(u), magnitude(u), machine_numbers::format_for(true)) {
            Some(n) => machine_numbers::percent_of(n, total),
            None => if total == 0 {
                0
            } else {
                u64::MAX as nat
            },
        }
    }
}

/// Whole part of so many hundredths of a total.
pub fn share_of_total(s: &[char], total: u64) -> (share: u64)
    ensures
        share == percent_share(s@, total),
{
    if !check_real(s) {
        return 0;
    }
    let u = unsigned(s);
    if check_nan(u) {
        return 0;
    }
    let endless: u64 = if total == 0 {
        0
    } else {
        u64::MAX
    };
    if s.len() > 0 && s[0] == '-' {
        return 0;
    }
    if check_infinity(u) {
        return endless;
    }
    let (d, power): (Vec<char>, i128) = read_digits(u);
    proof {
        lemma_told(power, u@, d@, machine_numbers::format_for(true));
    }
    match hold(&d, power, true) {
        Some(n) => take_percent(n, total),
        None => endless,
    }
}

} // verus!
