//! Facts about trimming, cutting and writing numbers that readers of texts rest on.

use vstd::prelude::*;
use crate::text;

verus! {

// ---------------------------------------------------------------------------------------
// Trimming
// ---------------------------------------------------------------------------------------

/// No white space at either end.
pub open spec fn tight(s: Seq<char>) -> bool {
    s.len() == 0 || (!text::is_space(s[0]) && !text::is_space(s.last()))
}

/// A text without white space at its ends is not changed by trimming.
pub proof fn lemma_trimmed_tight(s: Seq<char>)
    requires
        tight(s),
    ensures
        text::trimmed(s) == s,
{
    assert(text::lead(s, 0) == 0);
    assert(text::trimmed_start(s) =~= s);
    assert(text::tail(s, s.len() as int) == s.len());
    assert(text::trimmed_end(s) =~= s);
}

/// Where the white space in front ends.
proof fn lemma_lead_spaces(s: Seq<char>, from: int)
    requires
        0 <= from <= s.len(),
    ensures
        from <= text::lead(s, from) <= s.len(),
        forall|i: int| from <= i < text::lead(s, from) ==> text::is_space(#[trigger] s[i]),
        text::lead(s, from) < s.len() ==> !text::is_space(s[text::lead(s, from)]),
    decreases s.len() - from,
{
    if from < s.len() && text::is_space(s[from]) {
        lemma_lead_spaces(s, from + 1);
    }
}

/// Where the white space behind begins.
proof fn lemma_tail_spaces(s: Seq<char>, to: int)
    requires
        0 <= to <= s.len(),
    ensures
        0 <= text::tail(s, to) <= to,
        forall|i: int| text::tail(s, to) <= i < to ==> text::is_space(#[trigger] s[i]),
        text::tail(s, to) > 0 ==> !text::is_space(s[text::tail(s, to) - 1]),
    decreases to,
{
    if to > 0 && text::is_space(s[to - 1]) {
        lemma_tail_spaces(s, to - 1);
    }
}

/// A trimmed text is a part of the text, with white space in front of it and behind it.
pub proof fn lemma_trim_parts(s: Seq<char>) -> (ends: (int, int))
    ensures
        0 <= ends.0 <= ends.1 <= s.len(),
        text::trimmed(s) == s.subrange(ends.0, ends.1),
        tight(text::trimmed(s)),
        forall|i: int| 0 <= i < ends.0 ==> text::is_space(#[trigger] s[i]),
        forall|i: int| ends.1 <= i < s.len() ==> text::is_space(#[trigger] s[i]),
{
    lemma_lead_spaces(s, 0);
    let a = text::lead(s, 0);
    let t = text::trimmed_start(s);
    lemma_tail_spaces(t, t.len() as int);
    let n = text::tail(t, t.len() as int);
    assert(text::trimmed(s) =~= s.subrange(a, a + n));
    assert forall|i: int| a + n <= i < s.len() implies text::is_space(#[trigger] s[i]) by {
        assert(t[i - a] == s[i]);
    }
    if n > 0 {
        assert(t[n - 1] == s[a + n - 1]);
        assert(text::trimmed(s)[0] == s[a]);
        assert(text::trimmed(s).last() == s[a + n - 1]);
    }
    (a, a + n)
}

// ---------------------------------------------------------------------------------------
// Lower case
// ---------------------------------------------------------------------------------------

/// Lower case stays.
pub proof fn lemma_lower_again(c: char)
    ensures
        text::lower(text::lower(c)) == text::lower(c),
{
    if 'A' <= c && c <= 'Z' {
        let u = (c as u32 + 32) as u32;
        assert(97 <= u <= 122);
        assert(u as char > 'Z');
    }
}

/// A text in lower case is not changed by lower case.
pub proof fn lemma_lowered_again(s: Seq<char>)
    ensures
        text::lowered(text::lowered(s)) == text::lowered(s),
        text::lowered(s).len() == s.len(),
{
    assert forall|i: int| 0 <= i < s.len() implies text::lowered(text::lowered(s))[i] == text::lowered(s)[i] by {
        lemma_lower_again(s[i]);
    }
    assert(text::lowered(text::lowered(s)) =~= text::lowered(s));
}

/// A part of a text in lower case is in lower case.
pub proof fn lemma_lowered_part(s: Seq<char>, a: int, b: int)
    requires
        text::lowered(s) == s,
        0 <= a <= b <= s.len(),
    ensures
        text::lowered(s.subrange(a, b)) == s.subrange(a, b),
{
    assert forall|i: int| 0 <= i < b - a implies text::lowered(s.subrange(a, b))[i] == s.subrange(
        a,
        b,
    )[i] by {
        assert(text::lowered(s)[a + i] == text::lower(s[a + i]));
    }
    assert(text::lowered(s.subrange(a, b)) =~= s.subrange(a, b));
}

/// Two texts in lower case, one behind the other, are in lower case.
pub proof fn lemma_lowered_joined(a: Seq<char>, b: Seq<char>)
    requires
        text::lowered(a) == a,
        text::lowered(b) == b,
    ensures
        text::lowered(a + b) == a + b,
{
    assert forall|i: int| 0 <= i < (a + b).len() implies text::lowered(a + b)[i] == (a + b)[i] by {
        if i < a.len() {
            assert(text::lowered(a)[i] == text::lower(a[i]));
        } else {
            assert(text::lowered(b)[i - a.len()] == text::lower(b[i - a.len()]));
        }
    }
    assert(text::lowered(a + b) =~= a + b);
}

// ---------------------------------------------------------------------------------------
// Cutting
// ---------------------------------------------------------------------------------------

/// Whether a character does not occur.
pub open spec fn lacks(s: Seq<char>, c: char) -> bool {
    forall|i: int| 0 <= i < s.len() ==> #[trigger] s[i] != c
}

proof fn lemma_first_is(s: Seq<char>, c: char, from: int, at: int)
    requires
        0 <= from <= at <= s.len(),
        forall|i: int| from <= i < at ==> #[trigger] s[i] != c,
        at < s.len() ==> s[at] == c,
    ensures
        text::index_of_char(s, c, from) == at,
    decreases at - from,
{
    if from < at {
        lemma_first_is(s, c, from + 1, at);
    }
}

/// A text without the character has none to find.
pub proof fn lemma_index_lacking(s: Seq<char>, c: char)
    requires
        lacks(s, c),
    ensures
        text::index_of_char(s, c, 0) == s.len(),
        text::cut_char(s, c) is None,
{
    lemma_first_is(s, c, 0, s.len() as int);
}

/// A text is cut at the character that was put between its parts.
pub proof fn lemma_cut_joined(a: Seq<char>, c: char, b: Seq<char>)
    requires
        lacks(a, c),
    ensures
        text::cut_char(a + seq![c] + b, c) == Some((a, b)),
{
    let s = a + seq![c] + b;
    assert forall|i: int| 0 <= i < a.len() implies #[trigger] s[i] != c by {
        assert(s[i] == a[i]);
    }
    lemma_first_is(s, c, 0, a.len() as int);
    assert(s.subrange(0, a.len() as int) =~= a);
    assert(s.subrange(a.len() as int + 1, s.len() as int) =~= b);
}

proof fn lemma_first_place(s: Seq<char>, c: char, from: int)
    requires
        0 <= from <= s.len(),
    ensures
        from <= text::index_of_char(s, c, from) <= s.len(),
        forall|i: int| from <= i < text::index_of_char(s, c, from) ==> #[trigger] s[i] != c,
        text::index_of_char(s, c, from) < s.len() ==> s[text::index_of_char(s, c, from)] == c,
    decreases s.len() - from,
{
    if from < s.len() && s[from] != c {
        lemma_first_place(s, c, from + 1);
    }
}

/// The parts of a text that was cut make it up again.
pub proof fn lemma_cut_parts(s: Seq<char>, c: char)
    ensures
        match text::cut_char(s, c) {
            Some((a, b)) => s == a + seq![c] + b && lacks(a, c),
            None => lacks(s, c),
        },
{
    lemma_first_place(s, c, 0);
    let i = text::index_of_char(s, c, 0);
    if i < s.len() {
        let a = s.subrange(0, i);
        let b = s.subrange(i + 1, s.len() as int);
        assert(s =~= a + seq![c] + b);
        assert forall|k: int| 0 <= k < a.len() implies #[trigger] a[k] != c by {
            assert(a[k] == s[k]);
        }
    }
}

/// No two points in a row, and none at the end.
pub open spec fn single_points(s: Seq<char>) -> bool {
    &&& s.len() > 0
    &&& s.last() != '.'
    &&& forall|i: int| 0 <= i < s.len() - 1 ==> #[trigger] s[i] != '.' || s[i + 1] != '.'
}

proof fn lemma_dots_at(s: Seq<char>, from: int, at: int)
    requires
        0 <= from <= at,
        at + 2 <= s.len(),
        s[at] == '.',
        s[at + 1] == '.',
        forall|i: int| from <= i < at ==> #[trigger] s[i] != '.' || s[i + 1] != '.',
    ensures
        text::index_of_text(s, ".."@, from) == at,
    decreases at - from,
{
    reveal_strlit("..");
    if from == at {
        assert(s.subrange(at, at + 2) =~= ".."@);
    } else {
        assert(s[from] != '.' || s[from + 1] != '.');
        if text::occurs_at(s, ".."@, from) {
            assert(s.subrange(from, from + 2)[0] == s[from]);
            assert(s.subrange(from, from + 2)[1] == s[from + 1]);
            assert(".."@[0] == '.');
            assert(".."@[1] == '.');
        }
        lemma_dots_at(s, from + 1, at);
    }
}

/// A text is cut at the two points that were put between its parts.
pub proof fn lemma_cut_at_dots(a: Seq<char>, b: Seq<char>)
    requires
        single_points(a),
    ensures
        text::cut_text(a + ".."@ + b, ".."@) == Some((a, b)),
{
    reveal_strlit("..");
    let s = a + ".."@ + b;
    let n = a.len() as int;
    assert(s[n] == ".."@[0]);
    assert(s[n + 1] == ".."@[1]);
    assert forall|i: int| 0 <= i < n implies #[trigger] s[i] != '.' || s[i + 1] != '.' by {
        assert(s[i] == a[i]);
        if i + 1 < n {
            assert(s[i + 1] == a[i + 1]);
        }
    }
    lemma_dots_at(s, 0, n);
    assert(s.subrange(0, n) =~= a);
    assert(s.subrange(n + 2, s.len() as int) =~= b);
}

/// What follows a prefix that was put in front.
pub proof fn lemma_after_front(front: Seq<char>, rest: Seq<char>)
    ensures
        text::begins(front + rest, front),
        text::after_prefix(front + rest, front) == Some(rest),
{
    let s = front + rest;
    assert(s.subrange(0, front.len() as int) =~= front);
    assert(s.subrange(front.len() as int, s.len() as int) =~= rest);
}

/// What precedes a character that was put behind.
pub proof fn lemma_before_back(s: Seq<char>, c: char)
    ensures
        text::before_last(s + seq![c], c) == Some(s),
{
    assert((s + seq![c]).drop_last() =~= s);
}

// ---------------------------------------------------------------------------------------
// Numbers
// ---------------------------------------------------------------------------------------

/// A number that is written in decimal digits is read back.
pub proof fn lemma_decimal(n: nat)
    ensures
        text::decimal(n).len() > 0,
        text::all_digits(text::decimal(n)),
        text::digits_value(text::decimal(n)) == n,
    decreases n,
{
    if n < 10 {
        let s = text::decimal(n);
        let d = text::digit_char(n);
        assert(d as u32 == 48 + n);
        assert(s =~= seq![d]);
        assert(s.drop_last() =~= Seq::<char>::empty());
        assert(text::digits_value(s.drop_last()) == 0);
        assert(s.last() == d);
    } else {
        let front = text::decimal(n / 10);
        let d = text::digit_char(n % 10);
        lemma_decimal(n / 10);
        assert(d as u32 == 48 + n % 10);
        let s = front.push(d);
        assert(text::decimal(n) == s);
        assert(s.drop_last() =~= front);
        assert(s.last() == d);
        assert forall|i: int| 0 <= i < s.len() implies text::is_digit(#[trigger] s[i]) by {
            if i < front.len() {
                assert(s[i] == front[i]);
            }
        }
    }
}

/// A number of at most `max` is parsed back.
pub proof fn lemma_decimal_parsed(n: nat, max: nat)
    requires
        n <= max,
    ensures
        text::parsed_uint(text::decimal(n), max) == Some(n),
        tight(text::decimal(n)),
{
    lemma_decimal(n);
    let s = text::decimal(n);
    assert(text::is_digit(s[0]));
    assert(text::is_digit(s[s.len() - 1]));
}

} // verus!
