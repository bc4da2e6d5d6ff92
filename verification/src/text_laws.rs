//! What cutting and trimming texts comes to.

use vstd::prelude::*;
use crate::text;
use crate::text_forms;

verus! {

/// Trimming takes white space away in front and behind, all of it, and nothing else.
pub proof fn law_trimmed(s: Seq<char>)
    ensures
        ({
            let t = text::trimmed(s);
            &&& t.len() > 0 ==> !text::is_space(t[0]) && !text::is_space(t.last())
            &&& exists|front: int|
                {
                    &&& 0 <= front <= front + t.len() <= s.len()
                    &&& t == #[trigger] s.subrange(front, front + t.len())
                    &&& forall|i: int| 0 <= i < front ==> text::is_space(#[trigger] s[i])
                    &&& forall|i: int| front + t.len() <= i < s.len() ==> text::is_space(#[trigger] s[i])
                }
        }),
{
    let (front, to) = text_forms::lemma_trim_parts(s);
    assert(text::trimmed(s) == s.subrange(front, front + text::trimmed(s).len()));
}

/// A cut at a character is at the first one of it: what is in front and behind, with the character
/// between, is the text, and the character is not in front. Without the character there is no cut.
pub proof fn law_cut_at_char(s: Seq<char>, c: char)
    ensures
        match text::cut_char(s, c) {
            Some((a, b)) => s == a + seq![c] + b && !a.contains(c),
            None => !s.contains(c),
        },
{
    text_forms::lemma_cut_parts(s, c);
}

/// A cut at a text is at the first place where it stands.
pub proof fn law_cut_at_text(s: Seq<char>, pattern: Seq<char>)
    ensures
        match text::cut_text(s, pattern) {
            Some((a, b)) => s == a + pattern + b && forall|at: int|
                0 <= at < a.len() ==> !(#[trigger] text::occurs_at(s, pattern, at)),
            None => forall|at: int| !(#[trigger] text::occurs_at(s, pattern, at)),
        },
{
    lemma_first_text(s, pattern, 0);
    if let Some((a, b)) = text::cut_text(s, pattern) {
        let i = text::index_of_text(s, pattern, 0);
        assert(s.subrange(i, i + pattern.len()) == pattern);
        assert(a + pattern + b =~= s) by {
            assert forall|k: int| 0 <= k < s.len() implies (a + pattern + b)[k] == s[k] by {
                if i <= k < i + pattern.len() {
                    assert(pattern[k - i] == s.subrange(i, i + pattern.len())[k - i]);
                }
            }
        }
    }
}

proof fn lemma_first_text(s: Seq<char>, pattern: Seq<char>, from: int)
    requires
        0 <= from,
    ensures
        ({
            let i = text::index_of_text(s, pattern, from);
            &&& i == -1 ==> forall|at: int| from <= at ==> !(#[trigger] text::occurs_at(s, pattern, at))
            &&& i != -1 ==> from <= i && text::occurs_at(s, pattern, i) && forall|at: int|
                from <= at < i ==> !(#[trigger] text::occurs_at(s, pattern, at))
        }),
    decreases s.len() + 1 - from,
{
    if from <= s.len() && !text::occurs_at(s, pattern, from) {
        lemma_first_text(s, pattern, from + 1);
    }
}

/// Pieces one behind the other, with a character between.
pub open spec fn put_together(pieces: Seq<Seq<char>>, c: char) -> Seq<char>
    decreases pieces.len(),
{
    if pieces.len() == 0 {
        Seq::empty()
    } else if pieces.len() == 1 {
        pieces[0]
    } else {
        pieces[0].push(c) + put_together(pieces.drop_first(), c)
    }
}

/// A text that is split at a character gives pieces without it that make up the text with the
/// character between them.
pub proof fn law_split_at_char(s: Seq<char>, c: char, from: int)
    requires
        0 <= from <= s.len(),
    ensures
        text::split_pieces(s, c, from).len() > 0,
        put_together(text::split_pieces(s, c, from), c) == s.skip(from),
        forall|k: int|
            0 <= k < text::split_pieces(s, c, from).len() ==> !(#[trigger] text::split_pieces(
                s,
                c,
                from,
            )[k]).contains(c),
    decreases s.len() - from,
{
    let i = text::index_of_char(s, c, from);
    text::lemma_index_of_char_bounds(s, c, from);
    let pieces = text::split_pieces(s, c, from);
    if i < s.len() {
        law_split_at_char(s, c, i + 1);
        let rest = text::split_pieces(s, c, i + 1);
        assert(pieces.drop_first() =~= rest);
        assert(s.subrange(from, i).push(c) + s.skip(i + 1) =~= s.skip(from));
        assert forall|k: int| 0 <= k < pieces.len() implies !(#[trigger] pieces[k]).contains(c) by {
            if k > 0 {
                assert(pieces[k] == rest[k - 1]);
            }
        }
    } else {
        assert(s.subrange(from, s.len() as int) =~= s.skip(from));
    }
}

} // verus!
