//! What method texts are split into.

use vstd::prelude::*;
use crate::backends::llm_policy;
use crate::backends::method_path;
use crate::backends::policy_error;
use crate::places;
use crate::text;
use crate::text_laws;

use crate::backends::policy_error::PolicyErrorKind;

verus! {

// ---------------------------------------------------------------------------------------
// Splitting outside parentheses
// ---------------------------------------------------------------------------------------

/// Whether a given character stands at a place.
pub open spec fn stands(s: Seq<char>, c: char) -> spec_fn(int) -> bool {
    |i: int| s[i] == c
}

/// Whether a given character stands at a place outside parentheses: as many were opened as were
/// closed in front of it.
pub open spec fn stands_outside(s: Seq<char>, c: char) -> spec_fn(int) -> bool {
    |i: int| s[i] == c && places::places(i, stands(s, '(')) == places::places(i, stands(s, ')'))
}

proof fn lemma_depth(s: Seq<char>, n: int)
    requires
        0 <= n <= s.len(),
    ensures
        llm_policy::depth(s, n) == places::places(n, stands(s, '(')) - places::places(n, stands(s, ')')),
    decreases n,
{
    if n > 0 {
        lemma_depth(s, n - 1);
    }
}

proof fn lemma_top_pieces(s: Seq<char>, delim: char, start: int, at: int)
    requires
        0 <= start <= at <= s.len(),
        delim != '(',
        delim != ')',
    ensures
        ({
            let pieces = llm_policy::top_pieces(s, delim, start, at);
            &&& text_laws::put_together(pieces, delim) == s.skip(start)
            &&& pieces.len() + places::places(at, stands_outside(s, delim)) == 1 + places::places(
                s.len() as int,
                stands_outside(s, delim),
            )
        }),
    decreases s.len() - at,
{
    let pieces = llm_policy::top_pieces(s, delim, start, at);
    if at >= s.len() {
        assert(s.subrange(start, s.len() as int) =~= s.skip(start));
    } else {
        lemma_depth(s, at);
        if s[at] == delim && llm_policy::depth(s, at) == 0 {
            lemma_top_pieces(s, delim, at + 1, at + 1);
            let rest = llm_policy::top_pieces(s, delim, at + 1, at + 1);
            assert(rest.len() > 0) by {
                lemma_some_piece(s, delim, at + 1, at + 1);
            }
            assert(pieces.drop_first() =~= rest);
            assert(s.subrange(start, at).push(delim) + s.skip(at + 1) =~= s.skip(start));
        } else {
            lemma_top_pieces(s, delim, start, at + 1);
        }
    }
}

proof fn lemma_some_piece(s: Seq<char>, delim: char, start: int, at: int)
    ensures
        llm_policy::top_pieces(s, delim, start, at).len() > 0,
    decreases s.len() - at,
{
    if 0 <= at < s.len() {
        lemma_some_piece(s, delim, start, at + 1);
    }
}

/// The pieces of a text that is split outside parentheses make up the text, with the delimiter
/// between them; there is one more of them than delimiters that stand outside parentheses. A text is
/// split exactly where no parenthesis is closed that was not opened and all are closed in the end.
pub proof fn law_split_outside(s: Seq<char>, delim: char)
    requires
        delim != '(',
        delim != ')',
    ensures
        match llm_policy::top_split(s, delim) {
            Ok(pieces) => text_laws::put_together(pieces, delim) == s && pieces.len() == 1
                + places::places(s.len() as int, stands_outside(s, delim)),
            Err(_) => true,
        },
        llm_policy::top_split(s, delim) is Ok <==> places::places(s.len() as int, stands(s, '('))
            == places::places(s.len() as int, stands(s, ')')) && forall|n: int|
            0 <= n <= s.len() ==> places::places(n, stands(s, '(')) >= #[trigger] places::places(
                n,
                stands(s, ')'),
            ),
{
    lemma_top_pieces(s, delim, 0, 0);
    assert(s.skip(0) =~= s);
    lemma_depth(s, s.len() as int);
    if exists|n: int| 0 <= n <= s.len() && #[trigger] llm_policy::depth(s, n) < 0 {
        let n = choose|n: int| 0 <= n <= s.len() && #[trigger] llm_policy::depth(s, n) < 0;
        lemma_depth(s, n);
        assert(places::places(n, stands(s, '(')) < places::places(n, stands(s, ')')));
    } else {
        assert forall|n: int| 0 <= n <= s.len() implies places::places(n, stands(s, '('))
            >= #[trigger] places::places(n, stands(s, ')')) by {
            lemma_depth(s, n);
            assert(!(llm_policy::depth(s, n) < 0));
        }
    }
}

// ---------------------------------------------------------------------------------------
// Segments of a method
// ---------------------------------------------------------------------------------------

/// Whether a piece holds white space only.
pub open spec fn is_blank(piece: Seq<char>) -> bool {
    text::trimmed(piece).len() == 0
}

/// Whether a piece is a policy segment, and what it says.
pub open spec fn says_policy(piece: Seq<char>, policy: Seq<char>) -> bool {
    text::after_prefix(text::trimmed(piece), "policy:"@) matches Some(rest) && policy == text::trimmed(
        rest,
    )
}

/// Behind the base of a method at most one piece is not blank. It is the policy segment; a second one
/// is refused as such, and anything else by its text.
pub proof fn law_one_policy(pieces: Seq<Seq<char>>, i: int, found: Option<Seq<char>>)
    requires
        0 <= i <= pieces.len(),
    ensures
        match method_path::policy_pieces(pieces, i, found) {
            Ok(None) => found is None && forall|k: int| i <= k < pieces.len() ==> is_blank(#[trigger] pieces[k]),
            Ok(Some(policy)) => {
                ||| found == Some(policy) && forall|k: int|
                    i <= k < pieces.len() ==> is_blank(#[trigger] pieces[k])
                ||| found is None && exists|k: int|
                    i <= k < pieces.len() && says_policy(#[trigger] pieces[k], policy) && forall|j: int|
                        i <= j < pieces.len() && j != k ==> is_blank(#[trigger] pieces[j])
            },
            Err(error) => exists|k: int|
                i <= k < pieces.len() && !is_blank(#[trigger] pieces[k]) && if text::begins(
                    text::trimmed(pieces[k]),
                    "policy:"@,
                ) {
                    &&& error == policy_error::plain(PolicyErrorKind::DuplicatePolicy)
                    &&& found is Some || exists|j: int| i <= j < k && !is_blank(#[trigger] pieces[j])
                } else {
                    error == policy_error::bad(
                        PolicyErrorKind::UnknownMethodSegment,
                        text::trimmed(pieces[k]),
                    )
                },
        },
    decreases pieces.len() - i,
{
    if i < pieces.len() {
        let s = text::trimmed(pieces[i]);
        if s.len() == 0 {
            law_one_policy(pieces, i + 1, found);
            assert(is_blank(pieces[i]));
            if let Ok(Some(policy)) = method_path::policy_pieces(pieces, i, found) {
                if found is None {
                    let k = choose|k: int|
                        i + 1 <= k < pieces.len() && says_policy(#[trigger] pieces[k], policy)
                            && forall|j: int|
                            i + 1 <= j < pieces.len() && j != k ==> is_blank(#[trigger] pieces[j]);
                    assert(says_policy(pieces[k], policy));
                }
            }
        } else {
            assert(!is_blank(pieces[i]));
            match text::after_prefix(s, "policy:"@) {
                Some(rest) => {
                    if found is None {
                        let policy = text::trimmed(rest);
                        law_one_policy(pieces, i + 1, Some(policy));
                        assert(says_policy(pieces[i], policy));
                    }
                },
                None => {},
            }
        }
    }
}

// ---------------------------------------------------------------------------------------
// Segments in a path
// ---------------------------------------------------------------------------------------

/// Whether a text reads like a segment behind a semicolon: its name, then a colon.
pub open spec fn is_segment(s: Seq<char>, i: int, token: Seq<char>) -> bool {
    &&& 0 <= i
    &&& i + 1 + token.len() < s.len()
    &&& s[i] == ';'
    &&& s.subrange(i + 1, i + 1 + token.len()) == token
    &&& s[i + 1 + token.len()] == ':'
    &&& token.len() > 0
    &&& method_path::token_start(token[0])
    &&& forall|k: int| 1 <= k < token.len() ==> method_path::token_part(#[trigger] token[k])
}

/// Whether the part of a path at `i` is the first at or behind `from` that reads like a segment.
pub open spec fn is_first_segment(s: Seq<char>, from: int, i: int, token: Seq<char>) -> bool {
    &&& from <= i
    &&& is_segment(s, i, token)
    &&& forall|j: int, other: Seq<char>| from <= j < i ==> !(#[trigger] is_segment(s, j, other))
}

proof fn lemma_token_end(s: Seq<char>, from: int)
    requires
        0 <= from <= s.len(),
    ensures
        from <= method_path::token_end(s, from) <= s.len(),
        forall|k: int|
            from <= k < method_path::token_end(s, from) ==> method_path::token_part(#[trigger] s[k]),
        method_path::token_end(s, from) < s.len() ==> !method_path::token_part(
            s[method_path::token_end(s, from)],
        ),
    decreases s.len() - from,
{
    if from < s.len() && method_path::token_part(s[from]) {
        lemma_token_end(s, from + 1);
    }
}

proof fn lemma_segment(s: Seq<char>, i: int, token: Seq<char>)
    ensures
        is_segment(s, i, token) <==> method_path::segment_at(s, i) && token == s.subrange(
            i + 1,
            method_path::token_end(s, i + 2),
        ),
{
    if is_segment(s, i, token) {
        lemma_token_end(s, i + 2);
        let e = method_path::token_end(s, i + 2);
        let to = i + 1 + token.len();
        assert(token[0] == s[i + 1]);
        if e < to {
            assert(token[e - i - 1] == s[e]);
        }
        assert(!method_path::token_part(':'));
        assert(e == to);
    }
    if method_path::segment_at(s, i) && token == s.subrange(i + 1, method_path::token_end(s, i + 2)) {
        lemma_token_end(s, i + 2);
        let e = method_path::token_end(s, i + 2);
        assert(token[0] == s[i + 1]);
        assert forall|k: int| 1 <= k < token.len() implies method_path::token_part(#[trigger] token[k]) by {
            assert(token[k] == s[i + 1 + k]);
        }
        assert(s.subrange(i + 1, i + 1 + token.len()) =~= token);
    }
}

/// What is named is the first part of a path that reads like a segment; a path in which nothing does
/// is not refused.
pub proof fn law_first_segment_is_named(s: Seq<char>, from: int)
    requires
        0 <= from,
    ensures
        method_path::ambiguous_token(s, from) matches Some(token) ==> exists|i: int| #[trigger]
            is_first_segment(s, from, i, token),
        method_path::ambiguous_token(s, from) is None ==> forall|j: int, other: Seq<char>|
            from <= j ==> !(#[trigger] is_segment(s, j, other)),
    decreases s.len() - from,
{
    if from >= s.len() {
        assert forall|j: int, other: Seq<char>| from <= j implies !(#[trigger] is_segment(s, j, other)) by {
        }
        assert(method_path::ambiguous_token(s, from) is None);
    } else if method_path::segment_at(s, from) {
        let token = s.subrange(from + 1, method_path::token_end(s, from + 2));
        lemma_segment(s, from, token);
        assert(is_first_segment(s, from, from, token));
        assert(method_path::ambiguous_token(s, from)->0 == token);
    } else {
        law_first_segment_is_named(s, from + 1);
        assert forall|other: Seq<char>| !(#[trigger] is_segment(s, from, other)) by {
            lemma_segment(s, from, other);
        }
        match method_path::ambiguous_token(s, from + 1) {
            Some(token) => {
                let i = choose|i: int| #[trigger] is_first_segment(s, from + 1, i, token);
                assert(is_first_segment(s, from, i, token));
                assert(method_path::ambiguous_token(s, from)->0 == token);
            },
            None => {
                assert(method_path::ambiguous_token(s, from) is None);
                assert forall|j: int, other: Seq<char>| from <= j implies !(#[trigger] is_segment(
                    s,
                    j,
                    other,
                )) by {
                    if j > from {
                        assert(from + 1 <= j);
                    }
                }
            },
        }
    }
}

} // verus!
