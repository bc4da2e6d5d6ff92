//! Text as sequences of characters: trimming, splitting, comparing, and decimal numbers.

use vstd::prelude::*;
use vstd::slice::slice_subrange;

verus! {

/// `String::push` appends one character.
pub assume_specification[ String::push ](out: &mut String, ch: char)
    ensures
        final(out)@ == old(out)@.push(ch),
;

/// Characters with the Unicode `White_Space` property.
pub open spec fn is_space(c: char) -> bool {
    let u = c as u32;
    ||| 0x9 <= u <= 0xd
    ||| u == 0x20
    ||| u == 0x85
    ||| u == 0xa0
    ||| u == 0x1680
    ||| 0x2000 <= u <= 0x200a
    ||| u == 0x2028
    ||| u == 0x2029
    ||| u == 0x202f
    ||| u == 0x205f
    ||| u == 0x3000
}

/// Index of the first character at or after `from` that is no white space; the length if
/// there is none.
pub open spec fn lead(s: Seq<char>, from: int) -> int
    decreases s.len() - from,
{
    if from < 0 || from >= s.len() {
        s.len() as int
    } else if is_space(s[from]) {
        lead(s, from + 1)
    } else {
        from
    }
}

/// Length of `s[..to]` without its trailing white space.
pub open spec fn tail(s: Seq<char>, to: int) -> int
    decreases to,
{
    if to <= 0 || to > s.len() {
        0
    } else if is_space(s[to - 1]) {
        tail(s, to - 1)
    } else {
        to
    }
}

/// `s` without leading white space.
pub open spec fn trimmed_start(s: Seq<char>) -> Seq<char> {
    s.subrange(lead(s, 0), s.len() as int)
}

/// `s` without trailing white space.
pub open spec fn trimmed_end(s: Seq<char>) -> Seq<char> {
    s.subrange(0, tail(s, s.len() as int))
}

/// `s` without leading and trailing white space.
pub open spec fn trimmed(s: Seq<char>) -> Seq<char> {
    trimmed_end(trimmed_start(s))
}

/// ASCII lower case of one character.
pub open spec fn lower(c: char) -> char {
    if 'A' <= c && c <= 'Z' {
        ((c as u32 + 32) as u32) as char
    } else {
        c
    }
}

/// ASCII lower case, character by character.
pub open spec fn lowered(s: Seq<char>) -> Seq<char> {
    s.map_values(|c: char| lower(c))
}

/// Index of the first `c` at or after `from`; the length if there is none.
pub open spec fn index_of_char(s: Seq<char>, c: char, from: int) -> int
    decreases s.len() - from,
{
    if from < 0 || from >= s.len() {
        s.len() as int
    } else if s[from] == c {
        from
    } else {
        index_of_char(s, c, from + 1)
    }
}

/// Whether `pattern` occurs in `s` at index `at`.
pub open spec fn occurs_at(s: Seq<char>, pattern: Seq<char>, at: int) -> bool {
    0 <= at && at + pattern.len() <= s.len() && s.subrange(at, at + pattern.len()) == pattern
}

/// Index of the first occurrence of `pattern` at or after `from`; -1 if there is none.
pub open spec fn index_of_text(s: Seq<char>, pattern: Seq<char>, from: int) -> int
    decreases s.len() + 1 - from,
{
    if from < 0 || from > s.len() {
        -1
    } else if occurs_at(s, pattern, from) {
        from
    } else {
        index_of_text(s, pattern, from + 1)
    }
}

/// The parts before and after the first `c`.
pub open spec fn cut_char(s: Seq<char>, c: char) -> Option<(Seq<char>, Seq<char>)> {
    let i = index_of_char(s, c, 0);
    if i < s.len() {
        Some((s.subrange(0, i), s.subrange(i + 1, s.len() as int)))
    } else {
        None
    }
}

/// The parts before and after the first occurrence of `pattern`.
pub open spec fn cut_text(s: Seq<char>, pattern: Seq<char>) -> Option<(Seq<char>, Seq<char>)> {
    let i = index_of_text(s, pattern, 0);
    if i >= 0 {
        Some((s.subrange(0, i), s.subrange(i + pattern.len(), s.len() as int)))
    } else {
        None
    }
}

/// Whether `s` begins with `prefix`.
pub open spec fn begins(s: Seq<char>, prefix: Seq<char>) -> bool {
    occurs_at(s, prefix, 0)
}

/// What follows `prefix` in `s`.
pub open spec fn after_prefix(s: Seq<char>, prefix: Seq<char>) -> Option<Seq<char>> {
    if begins(s, prefix) {
        Some(s.subrange(prefix.len() as int, s.len() as int))
    } else {
        None
    }
}

/// What precedes a final `c` in `s`.
pub open spec fn before_last(s: Seq<char>, c: char) -> Option<Seq<char>> {
    if s.len() > 0 && s.last() == c {
        Some(s.drop_last())
    } else {
        None
    }
}

/// Whether `c` is a decimal digit.
pub open spec fn is_digit(c: char) -> bool {
    '0' <= c && c <= '9'
}

/// Whether `s` holds decimal digits only.
pub open spec fn all_digits(s: Seq<char>) -> bool {
    forall|i: int| 0 <= i < s.len() ==> is_digit(#[trigger] s[i])
}

/// Number that a run of decimal digits writes.
pub open spec fn digits_value(s: Seq<char>) -> nat
    decreases s.len(),
{
    if s.len() == 0 {
        0
    } else {
        10 * digits_value(s.drop_last()) + (s.last() as u32 - '0' as u32) as nat
    }
}

/// Digits after an optional plus sign.
pub open spec fn unsigned_digits(s: Seq<char>) -> Seq<char> {
    if s.len() > 0 && s[0] == '+' {
        s.subrange(1, s.len() as int)
    } else {
        s
    }
}

/// Number written by `s`: at least one decimal digit, an optional plus sign in front, and a
/// value of at most `max`.
pub open spec fn parsed_uint(s: Seq<char>, max: nat) -> Option<nat> {
    let digits = unsigned_digits(s);
    if digits.len() > 0 && all_digits(digits) && digits_value(digits) <= max {
        Some(digits_value(digits))
    } else {
        None
    }
}

/// Decimal digit of a number below ten.
pub open spec fn digit_char(d: nat) -> char {
    (('0' as u32 + d) as u32) as char
}

/// Shortest decimal writing of `n`.
pub open spec fn decimal(n: nat) -> Seq<char>
    decreases n,
{
    if n < 10 {
        seq![digit_char(n)]
    } else {
        decimal(n / 10).push(digit_char(n % 10))
    }
}

/// Whether `a` comes before `b` in dictionary order of code points.
pub open spec fn text_before(a: Seq<char>, b: Seq<char>) -> bool {
    exists|i: int|
        #![trigger a.subrange(0, i)]
        0 <= i <= a.len() && i <= b.len() && a.subrange(0, i) == b.subrange(0, i) && (if i
            == a.len() {
            i < b.len()
        } else {
            i < b.len() && a[i] < b[i]
        })
}

/// Texts in the order of `list`, joined by `separator`.
pub open spec fn joined(list: Seq<Seq<char>>, separator: Seq<char>) -> Seq<char>
    decreases list.len(),
{
    if list.len() == 0 {
        Seq::empty()
    } else if list.len() == 1 {
        list[0]
    } else {
        joined(list.drop_last(), separator) + separator + list.last()
    }
}

/// Pieces of `s[from..]` between occurrences of `c`.
pub open spec fn split_pieces(s: Seq<char>, c: char, from: int) -> Seq<Seq<char>>
    decreases s.len() - from,
{
    let i = index_of_char(s, c, from);
    if from < 0 || i < from || i >= s.len() {
        seq![s.subrange(from, s.len() as int)]
    } else {
        seq![s.subrange(from, i)] + split_pieces(s, c, i + 1)
    }
}

pub proof fn lemma_lead_bounds(s: Seq<char>, from: int)
    requires
        0 <= from <= s.len(),
    ensures
        from <= lead(s, from) <= s.len(),
    decreases s.len() - from,
{
    if from < s.len() && is_space(s[from]) {
        lemma_lead_bounds(s, from + 1);
    }
}

pub proof fn lemma_tail_bounds(s: Seq<char>, to: int)
    requires
        0 <= to <= s.len(),
    ensures
        0 <= tail(s, to) <= to,
    decreases to,
{
    if to > 0 && is_space(s[to - 1]) {
        lemma_tail_bounds(s, to - 1);
    }
}

pub proof fn lemma_index_of_char_bounds(s: Seq<char>, c: char, from: int)
    requires
        0 <= from <= s.len(),
    ensures
        from <= index_of_char(s, c, from) <= s.len(),
        index_of_char(s, c, from) < s.len() ==> s[index_of_char(s, c, from)] == c,
        forall|i: int| from <= i < index_of_char(s, c, from) ==> s[i] != c,
    decreases s.len() - from,
{
    if from < s.len() && s[from] != c {
        lemma_index_of_char_bounds(s, c, from + 1);
    }
}

pub proof fn lemma_index_of_text_bounds(s: Seq<char>, pattern: Seq<char>, from: int)
    requires
        0 <= from,
    ensures
        ({
            let i = index_of_text(s, pattern, from);
            ||| i == -1
            ||| from <= i && occurs_at(s, pattern, i)
        }),
    decreases s.len() + 1 - from,
{
    if from <= s.len() && !occurs_at(s, pattern, from) {
        lemma_index_of_text_bounds(s, pattern, from + 1);
    }
}

/// Whether `c` is white space.
pub fn char_is_space(c: char) -> (yes: bool)
    ensures
        yes == is_space(c),
{
    let u: u32 = c as u32;
    (0x9 <= u && u <= 0xd) || u == 0x20 || u == 0x85 || u == 0xa0 || u == 0x1680 || (0x2000 <= u
        && u <= 0x200a) || u == 0x2028 || u == 0x2029 || u == 0x202f || u == 0x205f || u == 0x3000
}

/// Characters of a string.
pub fn chars_of(s: &str) -> (chars: Vec<char>)
    ensures
        chars@ == s@,
{
    let mut chars: Vec<char> = Vec::new();
    for c in it: s.chars()
        invariant
            chars@ == s@.subrange(0, it.index() as int),
            it.seq() == s@,
    {
        chars.push(c);
        assert(s@.subrange(0, it.index() + 1) == s@.subrange(0, it.index() as int).push(c));
    }
    assert(s@.subrange(0, s@.len() as int) == s@);
    chars
}

/// String made of the given characters.
pub fn string_of(chars: &[char]) -> (s: String)
    ensures
        s@ == chars@,
{
    let mut s = String::new();
    let mut i: usize = 0;
    while i < chars.len()
        invariant
            i <= chars@.len(),
            s@ == chars@.subrange(0, i as int),
        decreases chars@.len() - i,
    {
        s.push(chars[i]);
        i += 1;
        assert(chars@.subrange(0, i as int) == chars@.subrange(0, i - 1).push(chars@[i - 1]));
    }
    assert(chars@.subrange(0, chars@.len() as int) == chars@);
    s
}

/// Appends `more` to `out`.
pub fn push_chars(out: &mut Vec<char>, more: &[char])
    ensures
        final(out)@ == old(out)@ + more@,
{
    let mut i: usize = 0;
    while i < more.len()
        invariant
            i <= more@.len(),
            out@ == old(out)@ + more@.subrange(0, i as int),
        decreases more@.len() - i,
    {
        out.push(more[i]);
        i += 1;
        assert(more@.subrange(0, i as int) == more@.subrange(0, i - 1).push(more@[i - 1]));
    }
    assert(more@.subrange(0, more@.len() as int) == more@);
}

/// Appends the characters of `more` to `out`.
pub fn push_text(out: &mut Vec<char>, more: &str)
    ensures
        final(out)@ == old(out)@ + more@,
{
    let chars = chars_of(more);
    push_chars(out, &chars);
}

/// Removes leading white space.
pub fn trim_start(s: &[char]) -> (t: &[char])
    ensures
        t@ == trimmed_start(s@),
{
    let mut i: usize = 0;
    while i < s.len() && char_is_space(s[i])
        invariant
            i <= s@.len(),
            lead(s@, 0) == lead(s@, i as int),
        decreases s@.len() - i,
    {
        i += 1;
    }
    slice_subrange(s, i, s.len())
}

/// Removes trailing white space.
pub fn trim_end(s: &[char]) -> (t: &[char])
    ensures
        t@ == trimmed_end(s@),
{
    let mut j: usize = s.len();
    while j > 0 && char_is_space(s[j - 1])
        invariant
            j <= s@.len(),
            tail(s@, s@.len() as int) == tail(s@, j as int),
        decreases j,
    {
        j -= 1;
    }
    slice_subrange(s, 0, j)
}

/// Removes leading and trailing white space.
pub fn trim(s: &[char]) -> (t: &[char])
    ensures
        t@ == trimmed(s@),
{
    trim_end(trim_start(s))
}

/// ASCII lower case of one character.
pub fn to_lower(c: char) -> (l: char)
    ensures
        l == lower(c),
{
    if 'A' <= c && c <= 'Z' {
        let b: u8 = c as u8;
        (b + 32) as char
    } else {
        c
    }
}

/// ASCII lower case.
pub fn lowercase(s: &[char]) -> (l: Vec<char>)
    ensures
        l@ == lowered(s@),
{
    let mut l: Vec<char> = Vec::new();
    let mut i: usize = 0;
    while i < s.len()
        invariant
            i <= s@.len(),
            l@ == lowered(s@.subrange(0, i as int)),
        decreases s@.len() - i,
    {
        l.push(to_lower(s[i]));
        i += 1;
        assert(lowered(s@.subrange(0, i as int)) =~= lowered(s@.subrange(0, i - 1)).push(
            lower(s@[i - 1]),
        ));
    }
    assert(s@.subrange(0, s@.len() as int) == s@);
    l
}

/// Whether two texts are the same.
pub fn same(a: &[char], b: &[char]) -> (yes: bool)
    ensures
        yes == (a@ == b@),
{
    if a.len() != b.len() {
        return false;
    }
    let mut i: usize = 0;
    while i < a.len()
        invariant
            i <= a@.len(),
            a@.len() == b@.len(),
            forall|j: int| 0 <= j < i ==> a@[j] == b@[j],
        decreases a@.len() - i,
    {
        if a[i] != b[i] {
            return false;
        }
        i += 1;
    }
    assert(a@ =~= b@);
    true
}

/// Whether a text equals a string.
pub fn is_text(a: &[char], b: &str) -> (yes: bool)
    ensures
        yes == (a@ == b@),
{
    let chars = chars_of(b);
    same(a, &chars)
}

/// Whether `pattern` occurs in `s` at index `at`.
pub fn occurs(s: &[char], pattern: &[char], at: usize) -> (yes: bool)
    ensures
        yes == occurs_at(s@, pattern@, at as int),
{
    if at > s.len() || pattern.len() > s.len() - at {
        return false;
    }
    same(slice_subrange(s, at, at + pattern.len()), pattern)
}

/// Splits at the first `c`.
pub fn split_once_char<'a>(s: &'a [char], c: char) -> (parts: Option<(&'a [char], &'a [char])>)
    ensures
        match parts {
            Some((a, b)) => cut_char(s@, c) == Some((a@, b@)),
            None => cut_char(s@, c) is None,
        },
{
    let i: usize = find_char(s, c, 0);
    if i < s.len() {
        Some((slice_subrange(s, 0, i), slice_subrange(s, i + 1, s.len())))
    } else {
        None
    }
}

/// Index of the first `c` at or after `from`; the length if there is none.
pub fn find_char(s: &[char], c: char, from: usize) -> (at: usize)
    requires
        from <= s@.len(),
    ensures
        at == index_of_char(s@, c, from as int),
        from <= at <= s@.len(),
{
    let mut i: usize = from;
    while i < s.len() && s[i] != c
        invariant
            from <= i <= s@.len(),
            index_of_char(s@, c, from as int) == index_of_char(s@, c, i as int),
        decreases s@.len() - i,
    {
        i += 1;
    }
    i
}

/// Splits at the first occurrence of `pattern`.
pub fn split_once_text<'a>(s: &'a [char], pattern: &str) -> (parts: Option<
    (&'a [char], &'a [char]),
>)
    ensures
        match parts {
            Some((a, b)) => cut_text(s@, pattern@) == Some((a@, b@)),
            None => cut_text(s@, pattern@) is None,
        },
{
    let p = chars_of(pattern);
    let n: usize = s.len();
    let mut i: usize = 0;
    loop
        invariant
            i <= s@.len(),
            p@ == pattern@,
            n == s@.len(),
            index_of_text(s@, pattern@, 0) == index_of_text(s@, pattern@, i as int),
        decreases s@.len() - i,
    {
        if occurs(s, &p, i) {
            return Some(
                (slice_subrange(s, 0, i), slice_subrange(s, i + p.len(), n)),
            );
        }
        if i == n {
            assert(index_of_text(s@, pattern@, i + 1) == -1);
            return None;
        }
        i += 1;
    }
}

/// What follows `prefix`, when the text begins with it.
pub fn strip_prefix<'a>(s: &'a [char], prefix: &str) -> (rest: Option<&'a [char]>)
    ensures
        match rest {
            Some(r) => after_prefix(s@, prefix@) == Some(r@),
            None => after_prefix(s@, prefix@) is None,
        },
{
    let p = chars_of(prefix);
    if occurs(s, &p, 0) {
        Some(slice_subrange(s, p.len(), s.len()))
    } else {
        None
    }
}

/// What precedes a final `c`.
pub fn strip_last<'a>(s: &'a [char], c: char) -> (rest: Option<&'a [char]>)
    ensures
        match rest {
            Some(r) => before_last(s@, c) == Some(r@),
            None => before_last(s@, c) is None,
        },
{
    if s.len() > 0 && s[s.len() - 1] == c {
        let r = slice_subrange(s, 0, s.len() - 1);
        assert(r@ == s@.drop_last());
        Some(r)
    } else {
        None
    }
}

/// Whether `s` holds decimal digits only.
pub fn is_all_digits(s: &[char]) -> (yes: bool)
    ensures
        yes == all_digits(s@),
{
    let mut i: usize = 0;
    while i < s.len()
        invariant
            i <= s@.len(),
            forall|j: int| 0 <= j < i ==> is_digit(#[trigger] s@[j]),
        decreases s@.len() - i,
    {
        if !('0' <= s[i] && s[i] <= '9') {
            assert(!is_digit(s@[i as int]));
            return false;
        }
        i += 1;
    }
    true
}

proof fn lemma_digits_value_prefix(s: Seq<char>, n: int)
    requires
        0 <= n <= s.len(),
        all_digits(s),
    ensures
        digits_value(s.subrange(0, n)) <= digits_value(s),
    decreases s.len() - n,
{
    if n < s.len() {
        lemma_digits_value_prefix(s, n + 1);
        let t = s.subrange(0, n + 1);
        assert(t.drop_last() == s.subrange(0, n));
        assert(is_digit(s[n]));
    } else {
        assert(s.subrange(0, n) == s);
    }
}

/// Reads an unsigned decimal number of at most `max`.
pub fn parse_uint(s: &[char], max: u64) -> (value: Option<u64>)
    ensures
        match value {
            Some(v) => parsed_uint(s@, max as nat) == Some(v as nat),
            None => parsed_uint(s@, max as nat) is None,
        },
{
    let digits = if s.len() > 0 && s[0] == '+' {
        slice_subrange(s, 1, s.len())
    } else {
        s
    };
    if digits.len() == 0 || !is_all_digits(digits) {
        return None;
    }
    let mut value: u64 = 0;
    let mut i: usize = 0;
    while i < digits.len()
        invariant
            i <= digits@.len(),
            all_digits(digits@),
            digits@ == unsigned_digits(s@),
            digits@.len() > 0,
            value == digits_value(digits@.subrange(0, i as int)),
            value <= max,
        decreases digits@.len() - i,
    {
        assert(is_digit(digits@[i as int]));
        let d: u64 = (digits[i] as u32 - '0' as u32) as u64;
        proof {
            let t = digits@.subrange(0, i + 1);
            assert(t.drop_last() == digits@.subrange(0, i as int));
            lemma_digits_value_prefix(digits@, i + 1);
        }
        match value.checked_mul(10) {
            None => {
                return None;
            },
            Some(tens) => {
                match tens.checked_add(d) {
                    None => {
                        return None;
                    },
                    Some(next) => {
                        if next > max {
                            return None;
                        }
                        value = next;
                    },
                }
            },
        }
        i += 1;
    }
    assert(digits@.subrange(0, digits@.len() as int) == digits@);
    Some(value)
}

/// Reads an unsigned decimal number that fits `usize`.
pub fn parse_size(s: &[char]) -> (value: Option<usize>)
    ensures
        match value {
            Some(v) => parsed_uint(s@, usize::MAX as nat) == Some(v as nat),
            None => parsed_uint(s@, usize::MAX as nat) is None,
        },
{
    match parse_uint(s, usize::MAX as u64) {
        Some(v) => Some(v as usize),
        None => None,
    }
}

/// Writes `n` in decimal.
pub fn decimal_of(n: u64) -> (digits: Vec<char>)
    ensures
        digits@ == decimal(n as nat),
    decreases n,
{
    let d: u8 = (n % 10) as u8;
    let c: char = (48u8 + d) as char;
    assert(c == digit_char((n % 10) as nat));
    if n < 10 {
        let mut digits: Vec<char> = Vec::new();
        digits.push(c);
        assert(digits@ == seq![c]);
        digits
    } else {
        let mut digits = decimal_of(n / 10);
        digits.push(c);
        digits
    }
}

proof fn lemma_before_at(a: Seq<char>, b: Seq<char>, i: int)
    requires
        0 <= i <= a.len(),
        i <= b.len(),
        forall|j: int| 0 <= j < i ==> a[j] == b[j],
    ensures
        i < a.len() && i < b.len() && a[i] < b[i] ==> text_before(a, b) && !text_before(b, a) && a
            != b,
        i == a.len() && i < b.len() ==> text_before(a, b) && !text_before(b, a) && a != b,
        i == a.len() && i == b.len() ==> a == b && !text_before(a, b) && !text_before(b, a),
{
    assert(a.subrange(0, i) == b.subrange(0, i));
    if i == a.len() && i == b.len() {
        assert(a =~= b);
    }
    if i < b.len() && (i == a.len() || a[i] < b[i]) {
        assert(text_before(a, b));
        if text_before(b, a) {
            let k = choose|k: int|
                #![trigger b.subrange(0, k)]
                0 <= k <= b.len() && k <= a.len() && b.subrange(0, k) == a.subrange(0, k) && (if k
                    == b.len() {
                    k < a.len()
                } else {
                    k < a.len() && b[k] < a[k]
                });
            if k > i {
                assert(b.subrange(0, k)[i] == a.subrange(0, k)[i]);
            }
            assert(false);
        }
    }
}

/// Dictionary order of two texts: -1, 0 or 1 as `a` comes before, equals or follows `b`.
pub fn order(a: &[char], b: &[char]) -> (r: i8)
    ensures
        r == -1 || r == 0 || r == 1,
        r == -1 <==> text_before(a@, b@),
        r == 1 <==> text_before(b@, a@),
        r == 0 <==> a@ == b@,
{
    let mut i: usize = 0;
    while i < a.len() && i < b.len() && a[i] == b[i]
        invariant
            i <= a@.len(),
            i <= b@.len(),
            forall|j: int| 0 <= j < i ==> a@[j] == b@[j],
        decreases a@.len() - i,
    {
        i += 1;
    }
    proof {
        lemma_before_at(a@, b@, i as int);
        lemma_before_at(b@, a@, i as int);
    }
    if i == a.len() {
        if i == b.len() {
            0
        } else {
            -1
        }
    } else if i == b.len() {
        1
    } else if a[i] < b[i] {
        -1
    } else {
        1
    }
}

pub proof fn lemma_text_before_transitive(a: Seq<char>, b: Seq<char>, c: Seq<char>)
    requires
        text_before(a, b),
        text_before(b, c),
    ensures
        text_before(a, c),
{
    let i = choose|i: int|
        #![trigger a.subrange(0, i)]
        0 <= i <= a.len() && i <= b.len() && a.subrange(0, i) == b.subrange(0, i) && (if i
            == a.len() {
            i < b.len()
        } else {
            i < b.len() && a[i] < b[i]
        });
    let k = choose|k: int|
        #![trigger b.subrange(0, k)]
        0 <= k <= b.len() && k <= c.len() && b.subrange(0, k) == c.subrange(0, k) && (if k
            == b.len() {
            k < c.len()
        } else {
            k < c.len() && b[k] < c[k]
        });
    let m = if i < k {
        i
    } else {
        k
    };
    assert forall|j: int| 0 <= j < m implies a[j] == c[j] by {
        assert(a.subrange(0, i)[j] == b.subrange(0, i)[j]);
        assert(b.subrange(0, k)[j] == c.subrange(0, k)[j]);
    }
    assert(a.subrange(0, m) == c.subrange(0, m));
    if i < k {
        assert(b.subrange(0, k)[i] == c.subrange(0, k)[i]);
    } else if k < i {
        assert(a.subrange(0, i)[k] == b.subrange(0, i)[k]);
    }
}

pub proof fn lemma_text_before_irreflexive(a: Seq<char>, b: Seq<char>)
    requires
        text_before(a, b),
    ensures
        a != b,
        !text_before(b, a),
{
    let i = choose|i: int|
        #![trigger a.subrange(0, i)]
        0 <= i <= a.len() && i <= b.len() && a.subrange(0, i) == b.subrange(0, i) && (if i
            == a.len() {
            i < b.len()
        } else {
            i < b.len() && a[i] < b[i]
        });
    assert forall|j: int| 0 <= j < i implies a[j] == b[j] by {
        assert(a.subrange(0, i)[j] == b.subrange(0, i)[j]);
    }
    lemma_before_at(a, b, i);
}

/// Texts of slices.
pub open spec fn piece_texts(pieces: Seq<&[char]>) -> Seq<Seq<char>> {
    pieces.map_values(|p: &[char]| p@)
}

/// Pieces of `s` between the characters `c`.
pub fn split_char<'a>(s: &'a [char], c: char) -> (pieces: Vec<&'a [char]>)
    ensures
        piece_texts(pieces@) == split_pieces(s@, c, 0),
        pieces@.len() > 0,
{
    let n: usize = s.len();
    let mut pieces: Vec<&'a [char]> = Vec::new();
    let mut from: usize = 0;
    let mut at: usize = find_char(s, c, 0);
    let ghost goal = split_pieces(s@, c, 0);
    proof {
        assert(piece_texts(pieces@) + split_pieces(s@, c, 0) =~= goal);
    }
    while at < n
        invariant
            from <= at <= n == s@.len(),
            at == index_of_char(s@, c, from as int),
            piece_texts(pieces@) + split_pieces(s@, c, from as int) == goal,
        decreases n - from,
    {
        let piece: &'a [char] = slice_subrange(s, from, at);
        let ghost before = pieces@;
        pieces.push(piece);
        proof {
            assert(piece_texts(pieces@) =~= piece_texts(before).push(piece@));
            assert(piece_texts(pieces@) + split_pieces(s@, c, at + 1) =~= piece_texts(before) + (
            seq![piece@] + split_pieces(s@, c, at + 1)));
        }
        from = at + 1;
        at = find_char(s, c, from);
    }
    let last: &'a [char] = slice_subrange(s, from, n);
    let ghost before = pieces@;
    pieces.push(last);
    proof {
        assert(piece_texts(pieces@) =~= piece_texts(before) + seq![last@]);
    }
    pieces
}

} // verus!
