//! A policy that is written out is read back.

use vstd::prelude::*;
use crate::text;
use crate::reals;
use crate::real_forms;
use crate::text_forms;
use crate::backends::llm_policy;
use crate::backends::llm_policy::{
    PositionModel, RepeatArgs, RepeatModel, RuleModel, ScheduleModel, SegmentModel,
};
use crate::backends::policy_error::ErrorModel;
use crate::backends::policy_schedule::{ActionModel, HyperModel, OptimizerKind, ScopeModel, TrainModel};

verus! {

// ---------------------------------------------------------------------------------------
// Splitting outside parentheses
// ---------------------------------------------------------------------------------------

/// Every closing parenthesis has an opening one in front of it, and every opening one is closed.
pub open spec fn balanced(s: Seq<char>) -> bool {
    &&& forall|n: int| 0 <= n <= s.len() ==> #[trigger] llm_policy::depth(s, n) >= 0
    &&& llm_policy::depth(s, s.len() as int) == 0
}

/// A balanced text that stays whole when it is split.
pub open spec fn flat(s: Seq<char>, delim: char) -> bool {
    &&& balanced(s)
    &&& forall|i: int| 0 <= i < s.len() && #[trigger] s[i] == delim ==> llm_policy::depth(s, i) != 0
}

/// No parentheses.
pub open spec fn open_text(s: Seq<char>) -> bool {
    forall|i: int| 0 <= i < s.len() ==> #[trigger] s[i] != '(' && s[i] != ')'
}

pub proof fn lemma_depth_front(a: Seq<char>, b: Seq<char>, n: int)
    requires
        0 <= n <= a.len(),
    ensures
        llm_policy::depth(a + b, n) == llm_policy::depth(a, n),
    decreases n,
{
    if n > 0 {
        assert((a + b)[n - 1] == a[n - 1]);
        lemma_depth_front(a, b, n - 1);
    }
}

proof fn lemma_depth_back(a: Seq<char>, b: Seq<char>, n: int)
    requires
        0 <= n <= b.len(),
    ensures
        llm_policy::depth(a + b, a.len() + n) == llm_policy::depth(a, a.len() as int) + llm_policy::depth(b, n),
    decreases n,
{
    if n > 0 {
        assert((a + b)[a.len() + n - 1] == b[n - 1]);
        lemma_depth_back(a, b, n - 1);
    } else {
        lemma_depth_front(a, b, a.len() as int);
    }
}

pub proof fn lemma_depth_open(s: Seq<char>, n: int)
    requires
        open_text(s),
        0 <= n <= s.len(),
    ensures
        llm_policy::depth(s, n) == 0,
    decreases n,
{
    if n > 0 {
        assert(s[n - 1] != '(' && s[n - 1] != ')');
        lemma_depth_open(s, n - 1);
    }
}

/// A text without parentheses and without the delimiter stays whole.
pub proof fn lemma_flat_open(s: Seq<char>, delim: char)
    requires
        open_text(s),
        text_forms::lacks(s, delim),
    ensures
        flat(s, delim),
{
    assert forall|n: int| 0 <= n <= s.len() implies #[trigger] llm_policy::depth(s, n) >= 0 by {
        lemma_depth_open(s, n);
    }
    lemma_depth_open(s, s.len() as int);
}

/// Two balanced texts, one behind the other, are balanced.
proof fn lemma_balanced_joined(a: Seq<char>, b: Seq<char>)
    requires
        balanced(a),
        balanced(b),
    ensures
        balanced(a + b),
{
    assert forall|n: int| 0 <= n <= (a + b).len() implies #[trigger] llm_policy::depth(a + b, n) >= 0 by {
        if n <= a.len() {
            lemma_depth_front(a, b, n);
            assert(llm_policy::depth(a, n) >= 0);
        } else {
            lemma_depth_back(a, b, n - a.len());
            assert(llm_policy::depth(b, n - a.len()) >= 0);
        }
    }
    lemma_depth_back(a, b, b.len() as int);
}

/// Two texts that stay whole, one behind the other, stay whole.
pub proof fn lemma_flat_joined(a: Seq<char>, b: Seq<char>, delim: char)
    requires
        flat(a, delim),
        flat(b, delim),
    ensures
        flat(a + b, delim),
{
    lemma_balanced_joined(a, b);
    let s = a + b;
    assert forall|i: int| 0 <= i < s.len() && #[trigger] s[i] == delim implies llm_policy::depth(s, i) != 0 by {
        if i < a.len() {
            lemma_depth_front(a, b, i);
            assert(a[i] == delim);
        } else {
            lemma_depth_back(a, b, i - a.len());
            assert(b[i - a.len()] == delim);
        }
    }
}

/// A balanced text in parentheses stays whole.
pub proof fn lemma_flat_wrapped(inner: Seq<char>, delim: char)
    requires
        balanced(inner),
        delim != '(',
        delim != ')',
    ensures
        flat(seq!['('] + inner + seq![')'], delim),
{
    let open = seq!['('];
    let close = seq![')'];
    let front = open + inner;
    let s = front + close;
    assert(llm_policy::depth(open, 1) == llm_policy::depth(open, 0) + 1);
    assert(llm_policy::depth(open, 0) == 0);
    assert(llm_policy::depth(close, 1) == llm_policy::depth(close, 0) - 1);
    assert(llm_policy::depth(close, 0) == 0);
    assert forall|n: int| 1 <= n <= front.len() implies #[trigger] llm_policy::depth(s, n) >= 1 by {
        lemma_depth_front(front, close, n);
        lemma_depth_back(open, inner, n - 1);
        assert(llm_policy::depth(inner, n - 1) >= 0);
    }
    lemma_depth_back(front, close, 1);
    lemma_depth_back(open, inner, inner.len() as int);
    assert(llm_policy::depth(s, s.len() as int) == 0);
    assert forall|n: int| 0 <= n <= s.len() implies #[trigger] llm_policy::depth(s, n) >= 0 by {
        if n == 0 {
        } else if n <= front.len() {
            assert(llm_policy::depth(s, n) >= 1);
        } else {
            assert(n == s.len());
        }
    }
    assert forall|i: int| 0 <= i < s.len() && #[trigger] s[i] == delim implies llm_policy::depth(s, i) != 0 by {
        if i == 0 {
            assert(s[0] == '(');
        } else {
            assert(llm_policy::depth(s, i) >= 1);
        }
    }
}

proof fn lemma_pieces_whole(s: Seq<char>, delim: char, front: int, at: int)
    requires
        0 <= front <= at <= s.len(),
        forall|i: int| at <= i < s.len() && #[trigger] s[i] == delim ==> llm_policy::depth(s, i) != 0,
    ensures
        llm_policy::top_pieces(s, delim, front, at) == seq![s.subrange(front, s.len() as int)],
    decreases s.len() - at,
{
    if at < s.len() {
        lemma_pieces_whole(s, delim, front, at + 1);
    }
}

/// A text that stays whole is its only piece.
pub proof fn lemma_split_whole(s: Seq<char>, delim: char)
    requires
        flat(s, delim),
    ensures
        llm_policy::top_split(s, delim) == Ok::<Seq<Seq<char>>, ErrorModel>(seq![s]),
{
    lemma_pieces_whole(s, delim, 0, 0);
    assert(s.subrange(0, s.len() as int) =~= s);
}

proof fn lemma_pieces_push(x: Seq<char>, y: Seq<char>, delim: char, start: int, at: int)
    requires
        balanced(x),
        flat(y, delim),
        delim != '(',
        delim != ')',
        0 <= start <= at <= x.len(),
    ensures
        llm_policy::top_pieces(x + seq![delim] + y, delim, start, at) == llm_policy::top_pieces(x, delim, start, at).push(y),
    decreases x.len() - at,
{
    let s = x + seq![delim] + y;
    let front = x + seq![delim];
    assert(s =~= x + (seq![delim] + y));
    lemma_depth_front(x, seq![delim] + y, at);
    if at < x.len() {
        assert(s[at] == x[at]);
        if x[at] == delim && llm_policy::depth(x, at) == 0 {
            lemma_pieces_push(x, y, delim, at + 1, at + 1);
            assert(s.subrange(start, at) =~= x.subrange(start, at));
            assert(llm_policy::top_pieces(s, delim, start, at) =~= llm_policy::top_pieces(x, delim, start, at).push(y));
        } else {
            lemma_pieces_push(x, y, delim, start, at + 1);
        }
    } else {
        assert(s[at] == delim);
        assert(llm_policy::depth(s, at) == 0);
        assert(llm_policy::depth(seq![delim], 1) == llm_policy::depth(seq![delim], 0));
        assert(llm_policy::depth(seq![delim], 0) == 0);
        lemma_depth_back(x, seq![delim], 1);
        assert(llm_policy::depth(front, front.len() as int) == 0);
        assert forall|i: int| at + 1 <= i < s.len() && #[trigger] s[i] == delim implies llm_policy::depth(s, i)
            != 0 by {
            lemma_depth_back(front, y, i - front.len());
            assert(y[i - front.len()] == delim);
        }
        lemma_pieces_whole(s, delim, at + 1, at + 1);
        assert(s.subrange(at + 1, s.len() as int) =~= y);
        assert(s.subrange(start, at) =~= x.subrange(start, x.len() as int));
        assert(llm_policy::top_pieces(s, delim, start, at) =~= llm_policy::top_pieces(x, delim, start, at).push(y));
    }
}

/// A piece that is put behind a delimiter is one more piece.
pub proof fn lemma_split_push(x: Seq<char>, y: Seq<char>, delim: char, pieces: Seq<Seq<char>>)
    requires
        balanced(x),
        llm_policy::top_split(x, delim) == Ok::<Seq<Seq<char>>, ErrorModel>(pieces),
        flat(y, delim),
        delim != '(',
        delim != ')',
    ensures
        balanced(x + seq![delim] + y),
        llm_policy::top_split(x + seq![delim] + y, delim) == Ok::<Seq<Seq<char>>, ErrorModel>(pieces.push(y)),
{
    lemma_pieces_push(x, y, delim, 0, 0);
    assert(open_text(seq![delim]));
    lemma_flat_open(seq![delim], '(');
    lemma_balanced_joined(x, seq![delim]);
    lemma_balanced_joined(x + seq![delim], y);
}

/// The pieces of a text that can be split stay whole.
proof fn lemma_pieces_flat(s: Seq<char>, delim: char, start: int, at: int)
    requires
        balanced(s),
        delim != '(',
        delim != ')',
        0 <= start <= at <= s.len(),
        llm_policy::depth(s, start) == 0,
        forall|i: int| start <= i < at && #[trigger] s[i] == delim ==> llm_policy::depth(s, i) != 0,
    ensures
        forall|k: int|
            0 <= k < llm_policy::top_pieces(s, delim, start, at).len() ==> flat(
                #[trigger] llm_policy::top_pieces(s, delim, start, at)[k],
                delim,
            ),
    decreases s.len() - at,
{
    let pieces = llm_policy::top_pieces(s, delim, start, at);
    if at >= s.len() {
        lemma_part_flat(s, delim, start, s.len() as int);
        assert(pieces =~= seq![s.subrange(start, s.len() as int)]);
        assert forall|k: int| 0 <= k < pieces.len() implies flat(#[trigger] pieces[k], delim) by {
            assert(pieces[k] == s.subrange(start, s.len() as int));
        }
    } else if s[at] == delim && llm_policy::depth(s, at) == 0 {
        lemma_part_flat(s, delim, start, at);
        assert(llm_policy::depth(s, at + 1) == llm_policy::depth(s, at));
        lemma_pieces_flat(s, delim, at + 1, at + 1);
        let rest = llm_policy::top_pieces(s, delim, at + 1, at + 1);
        assert forall|k: int| 0 <= k < pieces.len() implies flat(#[trigger] pieces[k], delim) by {
            if k > 0 {
                assert(pieces[k] == rest[k - 1]);
            } else {
                assert(pieces[k] == s.subrange(start, at));
            }
        }
    } else {
        lemma_pieces_flat(s, delim, start, at + 1);
        assert(pieces == llm_policy::top_pieces(s, delim, start, at + 1));
    }
}

/// A part of a balanced text between two places outside parentheses stays whole where no delimiter
/// stands outside parentheses in it.
pub proof fn lemma_part_flat(s: Seq<char>, delim: char, a: int, b: int)
    requires
        balanced(s),
        0 <= a <= b <= s.len(),
        llm_policy::depth(s, a) == 0,
        llm_policy::depth(s, b) == 0,
        forall|i: int| a <= i < b && #[trigger] s[i] == delim ==> llm_policy::depth(s, i) != 0,
    ensures
        flat(s.subrange(a, b), delim),
{
    let front = s.subrange(0, a);
    let mid = s.subrange(a, b);
    let back = s.subrange(b, s.len() as int);
    assert(s =~= front + (mid + back));
    lemma_depth_front(front, mid + back, a);
    assert forall|n: int| 0 <= n <= mid.len() implies #[trigger] llm_policy::depth(mid, n) == llm_policy::depth(s, a + n) by {
        lemma_depth_back(front, mid + back, n);
        lemma_depth_front(mid, back, n);
    }
    assert forall|i: int| 0 <= i < mid.len() && #[trigger] mid[i] == delim implies llm_policy::depth(mid, i)
        != 0 by {
        assert(s[a + i] == delim);
        assert(llm_policy::depth(mid, i) == llm_policy::depth(s, a + i));
    }
    assert(llm_policy::depth(mid, mid.len() as int) == llm_policy::depth(s, b));
}

/// The pieces of a text that was split stay whole.
pub proof fn lemma_split_flat(s: Seq<char>, delim: char)
    requires
        delim != '(',
        delim != ')',
    ensures
        llm_policy::top_split(s, delim) matches Ok(pieces) ==> forall|k: int|
            0 <= k < pieces.len() ==> flat(#[trigger] pieces[k], delim),
{
    if llm_policy::top_split(s, delim) is Ok {
        assert forall|n: int| 0 <= n <= s.len() implies #[trigger] llm_policy::depth(s, n) >= 0 by {}
        lemma_pieces_flat(s, delim, 0, 0);
    }
}

// ---------------------------------------------------------------------------------------
// Scopes
// ---------------------------------------------------------------------------------------

/// Names that can stand in a policy: no parentheses and no commas.
pub open spec fn names_fit(allowed: Seq<Seq<char>>) -> bool {
    forall|i: int| 0 <= i < allowed.len() ==> open_text(#[trigger] allowed[i]) && text_forms::lacks(allowed[i], ',')
}

/// No separator of scope names.
pub open spec fn unseparated(s: Seq<char>) -> bool {
    forall|i: int| 0 <= i < s.len() ==> !llm_policy::is_scope_separator(#[trigger] s[i])
}

/// A name as it stands in a set of scopes.
pub open spec fn name_ok(name: Seq<char>, allowed: Seq<Seq<char>>) -> bool {
    &&& name.len() > 0
    &&& text_forms::tight(name)
    &&& text::lowered(name) == name
    &&& unseparated(name)
    &&& allowed.contains(name)
    &&& name != "all"@
    &&& name != "none"@
}

/// A set of scopes as it is read.
pub open spec fn scope_ok(scope: ScopeModel, allowed: Seq<Seq<char>>) -> bool {
    &&& scope.all ==> scope.names.len() == 0
    &&& llm_policy::increasing(scope.names)
    &&& forall|i: int| 0 <= i < scope.names.len() ==> name_ok(#[trigger] scope.names[i], allowed)
}

proof fn lemma_scope_whole(s: Seq<char>, start: int, at: int)
    requires
        0 <= start <= at <= s.len(),
        forall|i: int| at <= i < s.len() ==> !llm_policy::is_scope_separator(#[trigger] s[i]),
    ensures
        llm_policy::scope_pieces(s, start, at) == seq![s.subrange(start, s.len() as int)],
    decreases s.len() - at,
{
    if at < s.len() {
        lemma_scope_whole(s, start, at + 1);
    }
}

proof fn lemma_scope_push(x: Seq<char>, y: Seq<char>, start: int, at: int)
    requires
        unseparated(y),
        0 <= start <= at <= x.len(),
    ensures
        llm_policy::scope_pieces(x + "+"@ + y, start, at) == llm_policy::scope_pieces(x, start, at).push(y),
    decreases x.len() - at,
{
    reveal_strlit("+");
    let s = x + "+"@ + y;
    if at < x.len() {
        assert(s[at] == x[at]);
        if llm_policy::is_scope_separator(x[at]) {
            lemma_scope_push(x, y, at + 1, at + 1);
            assert(s.subrange(start, at) =~= x.subrange(start, at));
            assert(llm_policy::scope_pieces(s, start, at) =~= llm_policy::scope_pieces(x, start, at).push(y));
        } else {
            lemma_scope_push(x, y, start, at + 1);
        }
    } else {
        assert(s[at] == '+');
        assert forall|i: int| at + 1 <= i < s.len() implies !llm_policy::is_scope_separator(#[trigger] s[i]) by {
            assert(s[i] == y[i - at - 1]);
        }
        lemma_scope_whole(s, at + 1, at + 1);
        assert(s.subrange(at + 1, s.len() as int) =~= y);
        assert(s.subrange(start, at) =~= x.subrange(start, x.len() as int));
        assert(llm_policy::scope_pieces(s, start, at) =~= llm_policy::scope_pieces(x, start, at).push(y));
    }
}

/// Names that are joined: their pieces, their case and their ends.
proof fn lemma_joined_names(names: Seq<Seq<char>>, allowed: Seq<Seq<char>>)
    requires
        names.len() > 0,
        forall|i: int| 0 <= i < names.len() ==> name_ok(#[trigger] names[i], allowed),
    ensures
        llm_policy::scope_pieces(text::joined(names, "+"@), 0, 0) == names,
        text::lowered(text::joined(names, "+"@)) == text::joined(names, "+"@),
        text::joined(names, "+"@).len() > 0,
        text_forms::tight(text::joined(names, "+"@)),
        names.len() > 1 ==> exists|i: int|
            0 <= i < text::joined(names, "+"@).len() && #[trigger] text::joined(names, "+"@)[i] == '+',
    decreases names.len(),
{
    reveal_strlit("+");
    let all = text::joined(names, "+"@);
    let last = names.last();
    assert(name_ok(names[names.len() - 1], allowed));
    if names.len() == 1 {
        lemma_scope_whole(last, 0, 0);
        assert(last.subrange(0, last.len() as int) =~= last);
        assert(names =~= seq![last]);
    } else {
        let fore = names.drop_last();
        assert forall|i: int| 0 <= i < fore.len() implies name_ok(#[trigger] fore[i], allowed) by {
            assert(fore[i] == names[i]);
        }
        lemma_joined_names(fore, allowed);
        let x = text::joined(fore, "+"@);
        assert(all == x + "+"@ + last);
        lemma_scope_push(x, last, 0, 0);
        assert(fore.push(last) =~= names);
        assert(text::lowered("+"@) =~= "+"@);
        text_forms::lemma_lowered_joined(x, "+"@);
        text_forms::lemma_lowered_joined(x + "+"@, last);
        assert(all[0] == x[0]);
        assert(all.last() == last.last());
        assert(all[x.len() as int] == '+');
    }
}

/// Names without parentheses and commas, joined, have none.
proof fn lemma_joined_open(names: Seq<Seq<char>>)
    requires
        forall|i: int|
            0 <= i < names.len() ==> open_text(#[trigger] names[i]) && text_forms::lacks(
                names[i],
                ',',
            ),
    ensures
        open_text(text::joined(names, "+"@)),
        text_forms::lacks(text::joined(names, "+"@), ','),
    decreases names.len(),
{
    reveal_strlit("+");
    if names.len() > 0 {
        let last = names.last();
        let fore = names.drop_last();
        assert(last == names[names.len() - 1]);
        assert(open_text(last));
        assert forall|i: int| 0 <= i < fore.len() implies open_text(#[trigger] fore[i])
            && text_forms::lacks(fore[i], ',') by {
            assert(fore[i] == names[i]);
        }
        lemma_joined_open(fore);
        if names.len() > 1 {
            let all = text::joined(names, "+"@);
            let x = text::joined(fore, "+"@);
            assert(all == x + "+"@ + last);
            assert forall|i: int| 0 <= i < all.len() implies #[trigger] all[i] != '(' && all[i]
                != ')' && all[i] != ',' by {
                if i < x.len() {
                    assert(all[i] == x[i]);
                } else if i > x.len() {
                    assert(all[i] == last[i - x.len() - 1]);
                }
            }
        }
    }
}

/// A set of scopes whose text stays whole where arguments are split: no comma is outside of the
/// parentheses, and these are balanced.
pub open spec fn scope_fits(scope: ScopeModel) -> bool {
    flat(llm_policy::scope_text(scope), ',')
}

/// Where no name that may stand in a set has parentheses or commas, each set stays whole.
pub proof fn lemma_scope_fits(scope: ScopeModel, allowed: Seq<Seq<char>>)
    requires
        scope_ok(scope, allowed),
        names_fit(allowed),
    ensures
        scope_fits(scope),
{
    reveal_strlit("all");
    reveal_strlit("none");
    if !scope.all && scope.names.len() > 0 {
        assert forall|i: int| 0 <= i < scope.names.len() implies open_text(
            #[trigger] scope.names[i],
        ) && text_forms::lacks(scope.names[i], ',') by {
            assert(name_ok(scope.names[i], allowed));
            let place = choose|k: int| 0 <= k < allowed.len() && allowed[k] == scope.names[i];
            assert(open_text(allowed[place]));
        }
        lemma_joined_open(scope.names);
    }
    lemma_flat_open(llm_policy::scope_text(scope), ',');
}

proof fn lemma_name_last(names: Seq<Seq<char>>, name: Seq<char>, at: int)
    requires
        0 <= at <= names.len(),
        forall|i: int| 0 <= i < names.len() ==> text::text_before(#[trigger] names[i], name),
    ensures
        llm_policy::with_name(names, name, at) == names.push(name),
    decreases names.len() - at,
{
    if at < names.len() {
        text::lemma_text_before_irreflexive(names[at], name);
        lemma_name_last(names, name, at + 1);
    }
}

proof fn lemma_names_read(names: Seq<Seq<char>>, i: int, allowed: Seq<Seq<char>>)
    requires
        0 <= i <= names.len(),
        llm_policy::increasing(names),
        forall|k: int| 0 <= k < names.len() ==> name_ok(#[trigger] names[k], allowed),
    ensures
        llm_policy::scope_names(names, i, names.take(i), allowed) == Ok::<Seq<Seq<char>>, ErrorModel>(names),
    decreases names.len() - i,
{
    if i < names.len() {
        let name = names[i];
        assert(name_ok(names[i], allowed));
        text_forms::lemma_trimmed_tight(name);
        let before = names.take(i);
        assert forall|k: int| 0 <= k < before.len() implies text::text_before(#[trigger] before[k], name) by {
            assert(before[k] == names[k]);
        }
        lemma_name_last(before, name, 0);
        assert(before.push(name) =~= names.take(i + 1));
        lemma_names_read(names, i + 1, allowed);
    } else {
        assert(names.take(i) =~= names);
    }
}

/// A set of scopes that is written out is read back.
pub proof fn law_scope_round_trip(scope: ScopeModel, allowed: Seq<Seq<char>>)
    requires
        scope_ok(scope, allowed),
    ensures
        llm_policy::scope_of(llm_policy::scope_text(scope), allowed) == Ok::<ScopeModel, ErrorModel>(scope),
        llm_policy::scope_text(scope).len() > 0,
        text_forms::tight(llm_policy::scope_text(scope)),
{
    reveal_strlit("all");
    reveal_strlit("none");
    let t = llm_policy::scope_text(scope);
    if scope.all {
        assert(scope.names =~= Seq::empty());
        assert(text::lowered("all"@) =~= "all"@);
        text_forms::lemma_trimmed_tight(t);
    } else if scope.names.len() == 0 {
        assert(scope.names =~= Seq::empty());
        assert(text::lowered("none"@) =~= "none"@);
        assert("all"@.len() != "none"@.len());
        text_forms::lemma_trimmed_tight(t);
    } else {
        lemma_joined_names(scope.names, allowed);
        text_forms::lemma_trimmed_tight(t);
        assert(name_ok(scope.names[0], allowed));
        if scope.names.len() == 1 {
            assert(t == scope.names[0]);
        } else {
            let i = choose|i: int| 0 <= i < t.len() && #[trigger] t[i] == '+';
            assert(t[i] == '+');
            assert(text_forms::lacks("all"@, '+'));
            assert(text_forms::lacks("none"@, '+'));
            assert(t != "all"@);
            assert(t != "none"@);
        }
        lemma_names_read(scope.names, 0, allowed);
        assert(scope.names.take(0) =~= Seq::empty());
    }
}

// ---------------------------------------------------------------------------------------
// Positions
// ---------------------------------------------------------------------------------------

/// A position as it is read.
pub open spec fn position_ok(position: PositionModel) -> bool {
    match position {
        PositionModel::Bytes(v) => v <= u64::MAX,
        PositionModel::Percent(p) => {
            &&& reals::is_real(p)
            &&& !reals::is_nan(reals::unsigned_part(p))
            &&& !reals::is_infinity(reals::unsigned_part(p))
            &&& reals::is_percentage(p)
            &&& reals::shown_percent(p) == p
            &&& p.len() > 0
            &&& text::is_digit(p[0])
            &&& real_forms::pointed(p)
            &&& text_forms::single_points(p)
        },
    }
}

/// Characters of a position.
pub open spec fn position_char(c: char) -> bool {
    text::is_digit(c) || c == '.' || c == '%'
}

/// A text that a position is written as.
pub open spec fn position_form(s: Seq<char>) -> bool {
    &&& s.len() > 0
    &&& text::is_digit(s[0])
    &&& text_forms::single_points(s)
    &&& forall|i: int| 0 <= i < s.len() ==> position_char(#[trigger] s[i])
}

/// A position that is written out is read back.
pub proof fn law_position_round_trip(position: PositionModel)
    requires
        position_ok(position),
    ensures
        llm_policy::position_of(llm_policy::position_text(position)) == Ok::<PositionModel, ErrorModel>(position),
        position_form(llm_policy::position_text(position)),
        text_forms::tight(llm_policy::position_text(position)),
{
    let t = llm_policy::position_text(position);
    match position {
        PositionModel::Bytes(v) => {
            text_forms::lemma_decimal(v);
            text_forms::lemma_decimal_parsed(v, u64::MAX as nat);
            assert(text::is_digit(t[0]));
            assert(text::is_digit(t[t.len() - 1]));
            assert forall|i: int| 0 <= i < t.len() implies position_char(#[trigger] t[i]) by {
                assert(text::is_digit(t[i]));
            }
            assert forall|i: int| 0 <= i < t.len() - 1 implies #[trigger] t[i] != '.' || t[i + 1]
                != '.' by {
                assert(text::is_digit(t[i]));
            }
            text_forms::lemma_trimmed_tight(t);
        },
        PositionModel::Percent(p) => {
            reveal_strlit("%");
            assert(t =~= p + seq!['%']);
            assert forall|i: int| 0 <= i < t.len() implies position_char(#[trigger] t[i]) by {
                if i < p.len() {
                    assert(t[i] == p[i]);
                }
            }
            assert(t[0] == p[0]);
            assert forall|i: int| 0 <= i < t.len() - 1 implies #[trigger] t[i] != '.' || t[i + 1]
                != '.' by {
                assert(t[i] == p[i]);
                if i + 1 < p.len() {
                    assert(t[i + 1] == p[i + 1]);
                }
            }
            assert(text::is_digit(p[p.len() - 1]) || p[p.len() - 1] == '.');
            text_forms::lemma_trimmed_tight(t);
            text_forms::lemma_trimmed_tight(p);
            text_forms::lemma_before_back(p, '%');
        },
    }
}

// ---------------------------------------------------------------------------------------
// Actions
// ---------------------------------------------------------------------------------------

/// Settings as they are read.
pub open spec fn hyper_ok(hyper: HyperModel) -> bool {
    &&& reals::is_real(hyper.lr)
    &&& reals::shown_nonnegative(hyper.lr) == hyper.lr
    &&& real_forms::number_text(hyper.lr)
    &&& hyper.lr.len() > 0
    &&& 1 <= hyper.stride <= usize::MAX
    &&& 1 <= hyper.bptt <= usize::MAX
    &&& reals::is_real(hyper.clip)
    &&& reals::shown_nonnegative(hyper.clip) == hyper.clip
    &&& real_forms::number_text(hyper.clip)
    &&& hyper.clip.len() > 0
    &&& reals::is_real(hyper.momentum)
    &&& reals::shown_real(hyper.momentum, false) == hyper.momentum
    &&& real_forms::number_text(hyper.momentum)
    &&& hyper.momentum.len() > 0
}

/// An action as it is read.
pub open spec fn action_ok(action: ActionModel, allowed: Seq<Seq<char>>) -> bool {
    action matches ActionModel::Train(train) ==> scope_ok(train.scope, allowed) && hyper_ok(
        train.hyper,
    )
}

/// An action whose scopes stay whole where arguments are split.
pub open spec fn action_fits(action: ActionModel) -> bool {
    action matches ActionModel::Train(train) ==> scope_fits(train.scope)
}

/// A text that can stand for an argument: no parentheses, no commas, no white space at its ends.
pub open spec fn argument_form(s: Seq<char>) -> bool {
    &&& s.len() > 0
    &&& text_forms::tight(s)
    &&& open_text(s)
    &&& text_forms::lacks(s, ',')
}

pub proof fn lemma_number_argument(s: Seq<char>)
    requires
        real_forms::number_text(s),
        s.len() > 0,
    ensures
        argument_form(s),
{
    assert(real_forms::number_char(s[0]));
    assert(real_forms::number_char(s[s.len() - 1]));
    assert forall|i: int| 0 <= i < s.len() implies #[trigger] s[i] != '(' && s[i] != ')' && s[i]
        != ',' by {
        assert(real_forms::number_char(s[i]));
    }
}

pub proof fn lemma_decimal_argument(n: nat)
    ensures
        argument_form(text::decimal(n)),
{
    text_forms::lemma_decimal(n);
    let s = text::decimal(n);
    assert(text::is_digit(s[0]));
    assert(text::is_digit(s[s.len() - 1]));
    assert forall|i: int| 0 <= i < s.len() implies #[trigger] s[i] != '(' && s[i] != ')' && s[i]
        != ',' by {
        assert(text::is_digit(s[i]));
    }
}

/// An argument: a key and its value.
pub open spec fn argument(key: Seq<char>, val: Seq<char>) -> Seq<char> {
    key + seq!['='] + val
}

/// A text that can stand for a key.
pub open spec fn key_form(key: Seq<char>) -> bool {
    &&& argument_form(key)
    &&& text_forms::lacks(key, '=')
    &&& text::lowered(key) == key
}

/// An argument is read as its key and its value.
pub proof fn lemma_argument(key: Seq<char>, val: Seq<char>)
    requires
        key_form(key),
        argument_form(val),
    ensures
        text::trimmed(argument(key, val)) == argument(key, val),
        argument(key, val).len() > 0,
        text::cut_char(argument(key, val), '=') == Some((key, val)),
        text::lowered(text::trimmed(key)) == key,
        text::trimmed(val) == val,
        flat(argument(key, val), ','),
{
    let arg = argument(key, val);
    text_forms::lemma_cut_joined(key, '=', val);
    text_forms::lemma_trimmed_tight(key);
    text_forms::lemma_trimmed_tight(val);
    assert(arg[0] == key[0]);
    assert(arg.last() == val.last());
    text_forms::lemma_trimmed_tight(arg);
    assert forall|i: int| 0 <= i < arg.len() implies #[trigger] arg[i] != '(' && arg[i] != ')'
        && arg[i] != ',' by {
        if i < key.len() {
            assert(arg[i] == key[i]);
        } else if i > key.len() {
            assert(arg[i] == val[i - key.len() - 1]);
        }
    }
    lemma_flat_open(arg, ',');
}

/// The keys of a train action.
proof fn lemma_keys()
    ensures
        key_form("scope"@),
        key_form("opt"@),
        key_form("lr"@),
        key_form("stride"@),
        key_form("bptt"@),
        key_form("clip"@),
        key_form("momentum"@),
        "opt"@ != "scope"@,
        "lr"@ != "scope"@,
        "lr"@ != "opt"@,
        "lr"@ != "optimizer"@,
        "stride"@ != "scope"@,
        "stride"@ != "opt"@,
        "stride"@ != "optimizer"@,
        "stride"@ != "lr"@,
        "bptt"@ != "scope"@,
        "bptt"@ != "opt"@,
        "bptt"@ != "optimizer"@,
        "bptt"@ != "lr"@,
        "bptt"@ != "stride"@,
        "clip"@ != "scope"@,
        "clip"@ != "opt"@,
        "clip"@ != "optimizer"@,
        "clip"@ != "lr"@,
        "clip"@ != "stride"@,
        "clip"@ != "bptt"@,
        "momentum"@ != "scope"@,
        "momentum"@ != "opt"@,
        "momentum"@ != "optimizer"@,
        "momentum"@ != "lr"@,
        "momentum"@ != "stride"@,
        "momentum"@ != "bptt"@,
        "momentum"@ != "clip"@,
{
    reveal_strlit("scope");
    reveal_strlit("opt");
    reveal_strlit("optimizer");
    reveal_strlit("lr");
    reveal_strlit("stride");
    reveal_strlit("bptt");
    reveal_strlit("clip");
    reveal_strlit("momentum");
    assert(text::lowered("scope"@) =~= "scope"@);
    assert(text::lowered("opt"@) =~= "opt"@);
    assert(text::lowered("lr"@) =~= "lr"@);
    assert(text::lowered("stride"@) =~= "stride"@);
    assert(text::lowered("bptt"@) =~= "bptt"@);
    assert(text::lowered("clip"@) =~= "clip"@);
    assert(text::lowered("momentum"@) =~= "momentum"@);
    assert("clip"@[0] == 'c');
    assert("bptt"@[0] == 'b');
}

/// The optimizers' names.
proof fn lemma_optimizer_read(optimizer: OptimizerKind)
    ensures
        argument_form(llm_policy::optimizer_text(optimizer)),
        text::lowered(llm_policy::optimizer_text(optimizer)) == llm_policy::optimizer_text(optimizer),
        "adam"@ != "sgd"@,
{
    reveal_strlit("sgd");
    reveal_strlit("adam");
    assert(text::lowered("sgd"@) =~= "sgd"@);
    assert(text::lowered("adam"@) =~= "adam"@);
}

/// Arguments of a train action, one by one.
pub open spec fn train_arguments(train: TrainModel) -> Seq<Seq<char>> {
    seq![
        argument("scope"@, llm_policy::scope_text(train.scope)),
        argument("opt"@, llm_policy::optimizer_text(train.optimizer)),
        argument("lr"@, train.hyper.lr),
        argument("stride"@, text::decimal(train.hyper.stride)),
        argument("bptt"@, text::decimal(train.hyper.bptt)),
        argument("clip"@, train.hyper.clip),
        argument("momentum"@, train.hyper.momentum),
    ]
}

proof fn lemma_read_scope(t: TrainModel, scope: ScopeModel, allowed: Seq<Seq<char>>)
    requires
        scope_ok(scope, allowed),
        scope_fits(scope),
    ensures
        flat(argument("scope"@, llm_policy::scope_text(scope)), ','),
        text::trimmed(argument("scope"@, llm_policy::scope_text(scope))).len() > 0,
        llm_policy::with_train_arg(t, text::trimmed(argument("scope"@, llm_policy::scope_text(scope))), allowed) == Ok::<
            TrainModel,
            ErrorModel,
        >(TrainModel { scope, ..t }),
{
    lemma_keys();
    law_scope_round_trip(scope, allowed);
    lemma_keyed("scope"@, llm_policy::scope_text(scope));
}

proof fn lemma_read_optimizer(t: TrainModel, optimizer: OptimizerKind, allowed: Seq<Seq<char>>)
    ensures
        flat(argument("opt"@, llm_policy::optimizer_text(optimizer)), ','),
        text::trimmed(argument("opt"@, llm_policy::optimizer_text(optimizer))).len() > 0,
        llm_policy::with_train_arg(t, text::trimmed(argument("opt"@, llm_policy::optimizer_text(optimizer))), allowed) == Ok::<
            TrainModel,
            ErrorModel,
        >(TrainModel { optimizer, ..t }),
{
    lemma_keys();
    lemma_optimizer_read(optimizer);
    lemma_argument("opt"@, llm_policy::optimizer_text(optimizer));
}

proof fn lemma_read_lr(t: TrainModel, val: Seq<char>, allowed: Seq<Seq<char>>)
    requires
        reals::is_real(val),
        reals::shown_nonnegative(val) == val,
        real_forms::number_text(val),
        val.len() > 0,
    ensures
        flat(argument("lr"@, val), ','),
        text::trimmed(argument("lr"@, val)).len() > 0,
        llm_policy::with_train_arg(t, text::trimmed(argument("lr"@, val)), allowed) == Ok::<
            TrainModel,
            ErrorModel,
        >(TrainModel { hyper: HyperModel { lr: val, ..t.hyper }, ..t }),
{
    lemma_keys();
    lemma_number_argument(val);
    lemma_argument("lr"@, val);
}

proof fn lemma_read_stride(t: TrainModel, n: nat, allowed: Seq<Seq<char>>)
    requires
        1 <= n <= usize::MAX,
    ensures
        flat(argument("stride"@, text::decimal(n)), ','),
        text::trimmed(argument("stride"@, text::decimal(n))).len() > 0,
        llm_policy::with_train_arg(t, text::trimmed(argument("stride"@, text::decimal(n))), allowed) == Ok::<
            TrainModel,
            ErrorModel,
        >(TrainModel { hyper: HyperModel { stride: n, ..t.hyper }, ..t }),
{
    lemma_keys();
    lemma_decimal_argument(n);
    text_forms::lemma_decimal_parsed(n, usize::MAX as nat);
    lemma_argument("stride"@, text::decimal(n));
}

proof fn lemma_read_bptt(t: TrainModel, n: nat, allowed: Seq<Seq<char>>)
    requires
        1 <= n <= usize::MAX,
    ensures
        flat(argument("bptt"@, text::decimal(n)), ','),
        text::trimmed(argument("bptt"@, text::decimal(n))).len() > 0,
        llm_policy::with_train_arg(t, text::trimmed(argument("bptt"@, text::decimal(n))), allowed) == Ok::<
            TrainModel,
            ErrorModel,
        >(TrainModel { hyper: HyperModel { bptt: n, ..t.hyper }, ..t }),
{
    lemma_keys();
    lemma_decimal_argument(n);
    text_forms::lemma_decimal_parsed(n, usize::MAX as nat);
    lemma_argument("bptt"@, text::decimal(n));
}

proof fn lemma_read_clip(t: TrainModel, val: Seq<char>, allowed: Seq<Seq<char>>)
    requires
        reals::is_real(val),
        reals::shown_nonnegative(val) == val,
        real_forms::number_text(val),
        val.len() > 0,
    ensures
        flat(argument("clip"@, val), ','),
        text::trimmed(argument("clip"@, val)).len() > 0,
        llm_policy::with_train_arg(t, text::trimmed(argument("clip"@, val)), allowed) == Ok::<
            TrainModel,
            ErrorModel,
        >(TrainModel { hyper: HyperModel { clip: val, ..t.hyper }, ..t }),
{
    lemma_keys();
    lemma_number_argument(val);
    lemma_argument("clip"@, val);
}

proof fn lemma_read_momentum(t: TrainModel, val: Seq<char>, allowed: Seq<Seq<char>>)
    requires
        reals::is_real(val),
        reals::shown_real(val, false) == val,
        real_forms::number_text(val),
        val.len() > 0,
    ensures
        flat(argument("momentum"@, val), ','),
        text::trimmed(argument("momentum"@, val)).len() > 0,
        llm_policy::with_train_arg(t, text::trimmed(argument("momentum"@, val)), allowed) == Ok::<
            TrainModel,
            ErrorModel,
        >(TrainModel { hyper: HyperModel { momentum: val, ..t.hyper }, ..t }),
{
    lemma_keys();
    lemma_number_argument(val);
    lemma_argument("momentum"@, val);
}

proof fn lemma_arguments_read(train: TrainModel, allowed: Seq<Seq<char>>)
    requires
        scope_ok(train.scope, allowed),
        hyper_ok(train.hyper),
        scope_fits(train.scope),
    ensures
        llm_policy::with_train_args(llm_policy::default_train(), train_arguments(train), 0, allowed)
            == Ok::<TrainModel, ErrorModel>(train),
        forall|i: int| 0 <= i < 7 ==> flat(#[trigger] train_arguments(train)[i], ','),
{
    let args = train_arguments(train);
    let t0 = llm_policy::default_train();
    let t1 = TrainModel { scope: train.scope, ..t0 };
    lemma_read_scope(t0, train.scope, allowed);
    assert(llm_policy::with_train_args(t0, args, 0, allowed) == llm_policy::with_train_args(t1, args, 1, allowed));
    let t2 = TrainModel { optimizer: train.optimizer, ..t1 };
    lemma_read_optimizer(t1, train.optimizer, allowed);
    assert(llm_policy::with_train_args(t1, args, 1, allowed) == llm_policy::with_train_args(t2, args, 2, allowed));
    let t3 = TrainModel { hyper: HyperModel { lr: train.hyper.lr, ..t2.hyper }, ..t2 };
    lemma_read_lr(t2, train.hyper.lr, allowed);
    assert(llm_policy::with_train_args(t2, args, 2, allowed) == llm_policy::with_train_args(t3, args, 3, allowed));
    let t4 = TrainModel { hyper: HyperModel { stride: train.hyper.stride, ..t3.hyper }, ..t3 };
    lemma_read_stride(t3, train.hyper.stride, allowed);
    assert(llm_policy::with_train_args(t3, args, 3, allowed) == llm_policy::with_train_args(t4, args, 4, allowed));
    let t5 = TrainModel { hyper: HyperModel { bptt: train.hyper.bptt, ..t4.hyper }, ..t4 };
    lemma_read_bptt(t4, train.hyper.bptt, allowed);
    assert(llm_policy::with_train_args(t4, args, 4, allowed) == llm_policy::with_train_args(t5, args, 5, allowed));
    let t6 = TrainModel { hyper: HyperModel { clip: train.hyper.clip, ..t5.hyper }, ..t5 };
    lemma_read_clip(t5, train.hyper.clip, allowed);
    assert(llm_policy::with_train_args(t5, args, 5, allowed) == llm_policy::with_train_args(t6, args, 6, allowed));
    let t7 = TrainModel { hyper: HyperModel { momentum: train.hyper.momentum, ..t6.hyper }, ..t6 };
    lemma_read_momentum(t6, train.hyper.momentum, allowed);
    assert(llm_policy::with_train_args(t6, args, 6, allowed) == llm_policy::with_train_args(t7, args, 7, allowed));
    assert(t7 =~= train);
}

/// Pieces that are put between commas.
pub open spec fn listed(args: Seq<Seq<char>>, n: int) -> Seq<char>
    decreases n,
{
    if n <= 1 {
        args[0]
    } else {
        listed(args, n - 1) + seq![','] + args[n - 1]
    }
}

pub proof fn lemma_listed(args: Seq<Seq<char>>, n: int)
    requires
        1 <= n <= args.len(),
        forall|i: int| 0 <= i < n ==> flat(#[trigger] args[i], ','),
    ensures
        balanced(listed(args, n)),
        llm_policy::top_split(listed(args, n), ',') == Ok::<Seq<Seq<char>>, ErrorModel>(args.take(n)),
    decreases n,
{
    assert(flat(args[n - 1], ','));
    if n == 1 {
        lemma_split_whole(args[0], ',');
        assert(args.take(1) =~= seq![args[0]]);
    } else {
        lemma_listed(args, n - 1);
        lemma_split_push(listed(args, n - 1), args[n - 1], ',', args.take(n - 1));
        assert(args.take(n - 1).push(args[n - 1]) =~= args.take(n));
    }
}

/// One more argument behind a text that ends in a list of arguments.
pub proof fn lemma_text_step(x: Seq<char>, front: Seq<char>, inner: Seq<char>, lit: Seq<char>, key: Seq<
    char,
>, val: Seq<char>)
    requires
        x == front + inner,
        lit == seq![','] + key + seq!['='],
    ensures
        x + lit + val == front + (inner + seq![','] + argument(key, val)),
{
    assert(x + lit + val =~= front + (inner + seq![','] + argument(key, val)));
}

/// The text of a train action is the list of its arguments in parentheses.
proof fn lemma_train_text(train: TrainModel)
    ensures
        llm_policy::action_text(ActionModel::Train(train)) == "train"@ + (seq!['('] + listed(
            train_arguments(train),
            7,
        ) + seq![')']),
        llm_policy::action_text(ActionModel::Train(train)) == "train("@ + (listed(train_arguments(train), 7)
            + seq![')']),
        "train("@ == "train"@ + seq!['('],
        "train("@.len() == 6,
        "train"@.len() == 5,
        open_text("train"@),
        text_forms::lacks("train"@, ','),
        text_forms::lacks("train"@, '+'),
        text_forms::lacks("train"@, '|'),
        "train("@[0] == 't',
{
    reveal_strlit("train(scope=");
    reveal_strlit("train(");
    reveal_strlit("train");
    reveal_strlit("scope");
    reveal_strlit(",opt=");
    reveal_strlit("opt");
    reveal_strlit(",lr=");
    reveal_strlit("lr");
    reveal_strlit(",stride=");
    reveal_strlit("stride");
    reveal_strlit(",bptt=");
    reveal_strlit("bptt");
    reveal_strlit(",clip=");
    reveal_strlit("clip");
    reveal_strlit(",momentum=");
    reveal_strlit("momentum");
    reveal_strlit(")");
    let args = train_arguments(train);
    let front = "train("@;
    let x1 = "train(scope="@ + llm_policy::scope_text(train.scope);
    assert("train(scope="@ =~= "train("@ + "scope"@ + seq!['=']);
    assert(x1 =~= front + args[0]);
    assert(",opt="@ =~= seq![','] + "opt"@ + seq!['=']);
    assert(",lr="@ =~= seq![','] + "lr"@ + seq!['=']);
    assert(",stride="@ =~= seq![','] + "stride"@ + seq!['=']);
    assert(",bptt="@ =~= seq![','] + "bptt"@ + seq!['=']);
    assert(",clip="@ =~= seq![','] + "clip"@ + seq!['=']);
    assert(",momentum="@ =~= seq![','] + "momentum"@ + seq!['=']);
    assert(")"@ =~= seq![')']);
    assert("train("@ =~= "train"@ + seq!['(']);
    let i1 = listed(args, 1);
    assert(i1 == args[0]);
    let v2 = llm_policy::optimizer_text(train.optimizer);
    let x2 = x1 + ",opt="@ + v2;
    lemma_text_step(x1, front, i1, ",opt="@, "opt"@, v2);
    let i2 = listed(args, 2);
    assert(i2 == i1 + seq![','] + args[1]);
    let x3 = x2 + ",lr="@ + train.hyper.lr;
    lemma_text_step(x2, front, i2, ",lr="@, "lr"@, train.hyper.lr);
    let i3 = listed(args, 3);
    assert(i3 == i2 + seq![','] + args[2]);
    let x4 = x3 + ",stride="@ + text::decimal(train.hyper.stride);
    lemma_text_step(x3, front, i3, ",stride="@, "stride"@, text::decimal(train.hyper.stride));
    let i4 = listed(args, 4);
    assert(i4 == i3 + seq![','] + args[3]);
    let x5 = x4 + ",bptt="@ + text::decimal(train.hyper.bptt);
    lemma_text_step(x4, front, i4, ",bptt="@, "bptt"@, text::decimal(train.hyper.bptt));
    let i5 = listed(args, 5);
    assert(i5 == i4 + seq![','] + args[4]);
    let x6 = x5 + ",clip="@ + train.hyper.clip;
    lemma_text_step(x5, front, i5, ",clip="@, "clip"@, train.hyper.clip);
    let i6 = listed(args, 6);
    assert(i6 == i5 + seq![','] + args[5]);
    let x7 = x6 + ",momentum="@ + train.hyper.momentum;
    lemma_text_step(x6, front, i6, ",momentum="@, "momentum"@, train.hyper.momentum);
    let i7 = listed(args, 7);
    assert(i7 == i6 + seq![','] + args[6]);
    assert(x7 == front + i7);
    assert(llm_policy::action_text(ActionModel::Train(train)) == x7 + ")"@);
    assert(x7 + ")"@ =~= front + (i7 + seq![')']));
    assert(front + (i7 + seq![')']) =~= "train"@ + (seq!['('] + i7 + seq![')']));
}

/// An action that is written out is read back.
pub proof fn law_action_round_trip(action: ActionModel, allowed: Seq<Seq<char>>)
    requires
        action_ok(action, allowed),
        action_fits(action),
    ensures
        llm_policy::action_of(llm_policy::action_text(action), allowed) == Ok::<ActionModel, ErrorModel>(action),
        llm_policy::action_text(action).len() > 0,
        text_forms::tight(llm_policy::action_text(action)),
        flat(llm_policy::action_text(action), ','),
        flat(llm_policy::action_text(action), '+'),
        flat(llm_policy::action_text(action), '|'),
{
    let t = llm_policy::action_text(action);
    match action {
        ActionModel::Infer => {
            reveal_strlit("infer");
            assert(text::lowered("infer"@) =~= "infer"@);
            text_forms::lemma_trimmed_tight(t);
            lemma_flat_open(t, ',');
            lemma_flat_open(t, '+');
            lemma_flat_open(t, '|');
        },
        ActionModel::Train(train) => {
            reveal_strlit("infer");
            lemma_arguments_read(train, allowed);
            lemma_train_text(train);
            let args = train_arguments(train);
            let inner = listed(args, 7);
            lemma_listed(args, 7);
            assert(args.take(7) =~= args);
            assert(t[0] == 't');
            assert(t.last() == ')');
            text_forms::lemma_trimmed_tight(t);
            text_forms::lemma_lowered_again(t);
            assert(text::lowered(t).len() == t.len());
            assert(t.len() > 5);
            text_forms::lemma_after_front("train("@, inner + seq![')']);
            text_forms::lemma_before_back(inner, ')');
            lemma_flat_wrapped(inner, ',');
            lemma_flat_wrapped(inner, '+');
            lemma_flat_wrapped(inner, '|');
            let wrapped = seq!['('] + inner + seq![')'];
            lemma_flat_open("train"@, ',');
            lemma_flat_open("train"@, '+');
            lemma_flat_open("train"@, '|');
            lemma_flat_joined("train"@, wrapped, ',');
            lemma_flat_joined("train"@, wrapped, '+');
            lemma_flat_joined("train"@, wrapped, '|');
        },
    }
}

// ---------------------------------------------------------------------------------------
// Rules
// ---------------------------------------------------------------------------------------

/// A text without any of the characters that rules are taken apart at.
pub open spec fn rule_part(s: Seq<char>) -> bool {
    &&& open_text(s)
    &&& text_forms::lacks(s, ',')
    &&& text_forms::lacks(s, '+')
    &&& text_forms::lacks(s, '|')
    &&& text_forms::lacks(s, ':')
}

proof fn lemma_position_part(s: Seq<char>)
    requires
        position_form(s),
    ensures
        rule_part(s),
        argument_form(s),
{
    assert forall|i: int| 0 <= i < s.len() implies #[trigger] s[i] != '(' && s[i] != ')' && s[i]
        != ',' && s[i] != '+' && s[i] != '|' && s[i] != ':' by {
        assert(position_char(s[i]));
    }
    assert(position_char(s[s.len() - 1]));
}

/// Text of a range.
pub open spec fn range_form(start: PositionModel, end: PositionModel) -> Seq<char> {
    llm_policy::position_text(start) + ".."@ + llm_policy::position_text(end)
}

/// A range that is written out is read back.
pub proof fn law_range_round_trip(start: PositionModel, end: PositionModel)
    requires
        position_ok(start),
        position_ok(end),
    ensures
        llm_policy::range_of(range_form(start, end)) == Ok::<(PositionModel, PositionModel), ErrorModel>(
            (start, end),
        ),
        range_form(start, end).len() > 0,
        text_forms::tight(range_form(start, end)),
        rule_part(range_form(start, end)),
        text::is_digit(range_form(start, end)[0]),
{
    law_position_round_trip(start);
    law_position_round_trip(end);
    let a = llm_policy::position_text(start);
    let b = llm_policy::position_text(end);
    let r = range_form(start, end);
    text_forms::lemma_cut_at_dots(a, b);
    lemma_position_part(a);
    lemma_position_part(b);
    reveal_strlit("..");
    assert(r[0] == a[0]);
    assert(r.last() == b.last());
    assert forall|i: int| 0 <= i < r.len() implies #[trigger] r[i] != '(' && r[i] != ')' && r[i]
        != ',' && r[i] != '+' && r[i] != '|' && r[i] != ':' by {
        if i < a.len() {
            assert(r[i] == a[i]);
        } else if i >= a.len() + 2 {
            assert(r[i] == b[i - a.len() - 2]);
        } else {
            assert(r[i] == ".."@[i - a.len()]);
        }
    }
}

/// A text of two parts around a colon.
pub open spec fn with_colon(front: Seq<char>, back: Seq<char>) -> Seq<char> {
    front + ":"@ + back
}

proof fn lemma_with_colon(front: Seq<char>, back: Seq<char>)
    requires
        front.len() > 0,
        back.len() > 0,
        text_forms::tight(front),
        text_forms::tight(back),
        rule_part(front),
        flat(back, ','),
        flat(back, '+'),
        flat(back, '|'),
    ensures
        text::cut_char(with_colon(front, back), ':') == Some((front, back)),
        with_colon(front, back).len() > 0,
        with_colon(front, back)[0] == front[0],
        text_forms::tight(with_colon(front, back)),
        flat(with_colon(front, back), ','),
        flat(with_colon(front, back), '+'),
        flat(with_colon(front, back), '|'),
{
    reveal_strlit(":");
    let t = with_colon(front, back);
    let fore = front + ":"@;
    assert(":"@ =~= seq![':']);
    text_forms::lemma_cut_joined(front, ':', back);
    assert(t[0] == front[0]);
    assert(t.last() == back.last());
    assert forall|i: int| 0 <= i < fore.len() implies #[trigger] fore[i] != '(' && fore[i] != ')'
        && fore[i] != ',' && fore[i] != '+' && fore[i] != '|' by {
        if i < front.len() {
            assert(fore[i] == front[i]);
        }
    }
    lemma_flat_open(fore, ',');
    lemma_flat_open(fore, '+');
    lemma_flat_open(fore, '|');
    lemma_flat_joined(fore, back, ',');
    lemma_flat_joined(fore, back, '+');
    lemma_flat_joined(fore, back, '|');
}

/// An interval rule as it is read.
pub open spec fn interval_ok(rule: RuleModel, allowed: Seq<Seq<char>>) -> bool {
    position_ok(rule.start) && position_ok(rule.end) && action_ok(rule.action, allowed)
}

/// An interval rule that is written out is read back.
pub proof fn lemma_interval_round_trip(rule: RuleModel, allowed: Seq<Seq<char>>)
    requires
        interval_ok(rule, allowed),
        action_fits(rule.action),
    ensures
        ({
            let t = llm_policy::rule_text(ScheduleModel::Interval(rule));
            &&& llm_policy::interval_of(t, allowed) == Ok::<RuleModel, ErrorModel>(rule)
            &&& t.len() > 0
            &&& text_forms::tight(t)
            &&& text::is_digit(t[0])
            &&& flat(t, ',')
            &&& flat(t, '|')
        }),
{
    law_range_round_trip(rule.start, rule.end);
    law_action_round_trip(rule.action, allowed);
    lemma_with_colon(range_form(rule.start, rule.end), llm_policy::action_text(rule.action));
}

/// A segment as it is read.
pub open spec fn segment_ok(segment: SegmentModel, allowed: Seq<Seq<char>>) -> bool {
    position_ok(segment.span) && action_ok(segment.action, allowed)
}

/// Text of a segment.
pub open spec fn segment_form(segment: SegmentModel) -> Seq<char> {
    with_colon(llm_policy::position_text(segment.span), llm_policy::action_text(segment.action))
}

proof fn lemma_segment_round_trip(segment: SegmentModel, allowed: Seq<Seq<char>>)
    requires
        segment_ok(segment, allowed),
        action_fits(segment.action),
    ensures
        llm_policy::segment_of(segment_form(segment), allowed) == Ok::<SegmentModel, ErrorModel>(segment),
        segment_form(segment).len() > 0,
        text_forms::tight(segment_form(segment)),
        flat(segment_form(segment), ','),
        flat(segment_form(segment), '+'),
{
    law_position_round_trip(segment.span);
    law_action_round_trip(segment.action, allowed);
    lemma_position_part(llm_policy::position_text(segment.span));
    lemma_with_colon(llm_policy::position_text(segment.span), llm_policy::action_text(segment.action));
    text_forms::lemma_trimmed_tight(llm_policy::position_text(segment.span));
    text_forms::lemma_trimmed_tight(llm_policy::action_text(segment.action));
}

/// Texts of segments.
pub open spec fn segment_forms(pattern: Seq<SegmentModel>) -> Seq<Seq<char>> {
    pattern.map_values(|segment: SegmentModel| segment_form(segment))
}

/// A pattern whose scopes stay whole where arguments are split.
pub open spec fn pattern_fits(pattern: Seq<SegmentModel>) -> bool {
    forall|i: int| 0 <= i < pattern.len() ==> action_fits((#[trigger] pattern[i]).action)
}

/// A pattern as it is read.
pub open spec fn pattern_ok(pattern: Seq<SegmentModel>, allowed: Seq<Seq<char>>) -> bool {
    &&& pattern.len() > 0
    &&& forall|i: int| 0 <= i < pattern.len() ==> segment_ok(#[trigger] pattern[i], allowed)
}

proof fn lemma_pattern_split(pattern: Seq<SegmentModel>, n: int, allowed: Seq<Seq<char>>)
    requires
        1 <= n <= pattern.len(),
        pattern_ok(pattern, allowed),
        pattern_fits(pattern),
    ensures
        balanced(llm_policy::pattern_text(pattern, n)),
        flat(llm_policy::pattern_text(pattern, n), ','),
        llm_policy::pattern_text(pattern, n).len() > 0,
        text_forms::tight(llm_policy::pattern_text(pattern, n)),
        llm_policy::top_split(llm_policy::pattern_text(pattern, n), '+') == Ok::<Seq<Seq<char>>, ErrorModel>(
            segment_forms(pattern).take(n),
        ),
    decreases n,
{
    let forms = segment_forms(pattern);
    let own = segment_form(pattern[n - 1]);
    assert(segment_ok(pattern[n - 1], allowed));
    assert(forms[n - 1] == own);
    lemma_segment_round_trip(pattern[n - 1], allowed);
    if n == 1 {
        lemma_split_whole(own, '+');
        assert(forms.take(1) =~= seq![own]);
    } else {
        lemma_pattern_split(pattern, n - 1, allowed);
        reveal_strlit("+");
        let x = llm_policy::pattern_text(pattern, n - 1);
        let t = llm_policy::pattern_text(pattern, n);
        assert("+"@ =~= seq!['+']);
        assert(t == x + seq!['+'] + own);
        lemma_split_push(x, own, '+', forms.take(n - 1));
        assert(forms.take(n - 1).push(own) =~= forms.take(n));
        lemma_flat_open(seq!['+'], ',');
        lemma_flat_joined(x, seq!['+'], ',');
        lemma_flat_joined(x + seq!['+'], own, ',');
        assert(t[0] == x[0]);
        assert(t.last() == own.last());
    }
}

proof fn lemma_segments_read(pattern: Seq<SegmentModel>, i: int, allowed: Seq<Seq<char>>)
    requires
        0 <= i <= pattern.len(),
        pattern_ok(pattern, allowed),
        pattern_fits(pattern),
    ensures
        llm_policy::segments_of(segment_forms(pattern), i, pattern.take(i), allowed) == Ok::<
            Seq<SegmentModel>,
            ErrorModel,
        >(pattern),
    decreases pattern.len() - i,
{
    let forms = segment_forms(pattern);
    if i < pattern.len() {
        assert(segment_ok(pattern[i], allowed));
        lemma_segment_round_trip(pattern[i], allowed);
        assert(forms[i] == segment_form(pattern[i]));
        text_forms::lemma_trimmed_tight(forms[i]);
        assert(pattern.take(i).push(pattern[i]) =~= pattern.take(i + 1));
        lemma_segments_read(pattern, i + 1, allowed);
    } else {
        assert(pattern.take(i) =~= pattern);
    }
}

/// A repeat rule as it is read.
pub open spec fn repeat_ok(rule: RepeatModel, allowed: Seq<Seq<char>>) -> bool {
    &&& position_ok(rule.start)
    &&& position_ok(rule.end)
    &&& position_ok(rule.period)
    &&& pattern_ok(rule.pattern, allowed)
}

/// Arguments of a repeat rule.
pub open spec fn repeat_arguments(rule: RepeatModel) -> Seq<Seq<char>> {
    seq![
        range_form(rule.start, rule.end),
        argument("period"@, llm_policy::position_text(rule.period)),
        argument("pattern"@, llm_policy::pattern_text(rule.pattern, rule.pattern.len() as int)),
    ]
}

proof fn lemma_repeat_keys()
    ensures
        key_form("period"@),
        key_form("pattern"@),
        "pattern"@ != "period"@,
{
    reveal_strlit("period");
    reveal_strlit("pattern");
    assert(text::lowered("period"@) =~= "period"@);
    assert(text::lowered("pattern"@) =~= "pattern"@);
}

/// A key in front of a value that is read whole.
pub proof fn lemma_keyed(key: Seq<char>, val: Seq<char>)
    requires
        key_form(key),
        val.len() > 0,
        text_forms::tight(val),
        flat(val, ','),
    ensures
        text::trimmed(argument(key, val)) == argument(key, val),
        argument(key, val).len() > 0,
        argument(key, val)[0] == key[0],
        text_forms::tight(argument(key, val)),
        text::cut_char(argument(key, val), '=') == Some((key, val)),
        text::lowered(text::trimmed(key)) == key,
        text::trimmed(val) == val,
        flat(argument(key, val), ','),
{
    let arg = argument(key, val);
    let fore = key + seq!['='];
    text_forms::lemma_cut_joined(key, '=', val);
    text_forms::lemma_trimmed_tight(key);
    text_forms::lemma_trimmed_tight(val);
    assert(arg[0] == key[0]);
    assert(arg.last() == val.last());
    text_forms::lemma_trimmed_tight(arg);
    assert forall|i: int| 0 <= i < fore.len() implies #[trigger] fore[i] != '(' && fore[i] != ')'
        && fore[i] != ',' by {
        if i < key.len() {
            assert(fore[i] == key[i]);
        }
    }
    lemma_flat_open(fore, ',');
    lemma_flat_joined(fore, val, ',');
}

/// A pattern that is written out is read back.
proof fn lemma_pattern_round_trip(pattern: Seq<SegmentModel>, allowed: Seq<Seq<char>>)
    requires
        pattern_ok(pattern, allowed),
        pattern_fits(pattern),
    ensures
        ({
            let t = llm_policy::pattern_text(pattern, pattern.len() as int);
            &&& llm_policy::pattern_of(t, allowed) == Ok::<Seq<SegmentModel>, ErrorModel>(pattern)
            &&& t.len() > 0
            &&& text_forms::tight(t)
            &&& flat(t, ',')
        }),
{
    let n = pattern.len() as int;
    lemma_pattern_split(pattern, n, allowed);
    lemma_segments_read(pattern, 0, allowed);
    assert(pattern.take(0) =~= Seq::empty());
    assert(segment_forms(pattern).take(n) =~= segment_forms(pattern));
}

proof fn lemma_read_period(
    found: RepeatArgs,
    args: Seq<Seq<char>>,
    i: int,
    period: PositionModel,
    allowed: Seq<Seq<char>>,
)
    requires
        0 <= i < args.len(),
        args[i] == argument("period"@, llm_policy::position_text(period)),
        position_ok(period),
    ensures
        flat(args[i], ','),
        llm_policy::with_repeat_args(found, args, i, allowed) == llm_policy::with_repeat_args(
            RepeatArgs { period: Some(period), ..found },
            args,
            i + 1,
            allowed,
        ),
{
    law_position_round_trip(period);
    lemma_position_part(llm_policy::position_text(period));
    lemma_repeat_keys();
    lemma_argument("period"@, llm_policy::position_text(period));
}

proof fn lemma_read_pattern(
    found: RepeatArgs,
    args: Seq<Seq<char>>,
    i: int,
    pattern: Seq<SegmentModel>,
    allowed: Seq<Seq<char>>,
)
    requires
        0 <= i < args.len(),
        args[i] == argument("pattern"@, llm_policy::pattern_text(pattern, pattern.len() as int)),
        pattern_ok(pattern, allowed),
        pattern_fits(pattern),
    ensures
        flat(args[i], ','),
        llm_policy::with_repeat_args(found, args, i, allowed) == llm_policy::with_repeat_args(
            RepeatArgs { pattern: Some(pattern), ..found },
            args,
            i + 1,
            allowed,
        ),
{
    lemma_pattern_round_trip(pattern, allowed);
    lemma_repeat_keys();
    lemma_keyed("pattern"@, llm_policy::pattern_text(pattern, pattern.len() as int));
}

proof fn lemma_read_no_more(found: RepeatArgs, args: Seq<Seq<char>>, allowed: Seq<Seq<char>>)
    ensures
        llm_policy::with_repeat_args(found, args, args.len() as int, allowed) == Ok::<
            RepeatArgs,
            ErrorModel,
        >(found),
{
}

proof fn lemma_range_argument(args: Seq<Seq<char>>, start: PositionModel, end: PositionModel)
    requires
        args.len() > 0,
        args[0] == range_form(start, end),
        position_ok(start),
        position_ok(end),
    ensures
        flat(args[0], ','),
        llm_policy::range_of(text::trimmed(args[0])) == Ok::<(PositionModel, PositionModel), ErrorModel>(
            (start, end),
        ),
{
    law_range_round_trip(start, end);
    text_forms::lemma_trimmed_tight(args[0]);
    lemma_flat_open(args[0], ',');
}

proof fn lemma_repeat_arguments_read(rule: RepeatModel, allowed: Seq<Seq<char>>)
    requires
        repeat_ok(rule, allowed),
        pattern_fits(rule.pattern),
    ensures
        forall|i: int| 0 <= i < 3 ==> flat(#[trigger] repeat_arguments(rule)[i], ','),
        llm_policy::range_of(text::trimmed(repeat_arguments(rule)[0])) == Ok::<
            (PositionModel, PositionModel),
            ErrorModel,
        >((rule.start, rule.end)),
        llm_policy::with_repeat_args(
            RepeatArgs { period: None, pattern: None },
            repeat_arguments(rule),
            1,
            allowed,
        ) == Ok::<RepeatArgs, ErrorModel>(
            RepeatArgs { period: Some(rule.period), pattern: Some(rule.pattern) },
        ),
{
    let args = repeat_arguments(rule);
    assert(args.len() == 3);
    let f0 = RepeatArgs { period: None, pattern: None };
    let f1 = RepeatArgs { period: Some(rule.period), pattern: None };
    let f2 = RepeatArgs { period: Some(rule.period), pattern: Some(rule.pattern) };
    assert(args[0] == range_form(rule.start, rule.end));
    assert(args[1] == argument("period"@, llm_policy::position_text(rule.period)));
    assert(args[2] == argument(
        "pattern"@,
        llm_policy::pattern_text(rule.pattern, rule.pattern.len() as int),
    ));
    lemma_range_argument(args, rule.start, rule.end);
    lemma_read_period(f0, args, 1, rule.period, allowed);
    lemma_read_pattern(f1, args, 2, rule.pattern, allowed);
    lemma_read_no_more(f2, args, allowed);
    assert forall|i: int| 0 <= i < 3 implies flat(#[trigger] args[i], ',') by {
        if i == 0 {
        } else if i == 1 {
        } else {
            assert(i == 2);
        }
    }
}

/// The text of a repeat rule is the list of its arguments in parentheses.
proof fn lemma_repeat_text(rule: RepeatModel)
    ensures
        llm_policy::rule_text(ScheduleModel::Repeat(rule)) == "repeat"@ + (seq!['('] + listed(
            repeat_arguments(rule),
            3,
        ) + seq![')']),
        llm_policy::rule_text(ScheduleModel::Repeat(rule)) == "repeat("@ + (listed(repeat_arguments(rule), 3)
            + seq![')']),
        "repeat("@.len() == 7,
        "repeat("@[0] == 'r',
        open_text("repeat"@),
        text_forms::lacks("repeat"@, ','),
        text_forms::lacks("repeat"@, '|'),
{
    reveal_strlit("repeat(");
    reveal_strlit("repeat");
    reveal_strlit(",period=");
    reveal_strlit("period");
    reveal_strlit(",pattern=");
    reveal_strlit("pattern");
    reveal_strlit(")");
    let args = repeat_arguments(rule);
    let front = "repeat("@;
    let n = rule.pattern.len() as int;
    let body = llm_policy::pattern_text(rule.pattern, n);
    let a = llm_policy::position_text(rule.start);
    let b = llm_policy::position_text(rule.end);
    let c = llm_policy::position_text(rule.period);
    let x1 = front + a + ".."@ + b;
    assert(x1 =~= front + args[0]);
    assert(",period="@ =~= seq![','] + "period"@ + seq!['=']);
    assert(",pattern="@ =~= seq![','] + "pattern"@ + seq!['=']);
    assert(")"@ =~= seq![')']);
    assert(front =~= "repeat"@ + seq!['(']);
    let i1 = listed(args, 1);
    assert(i1 == args[0]);
    let x2 = x1 + ",period="@ + c;
    lemma_text_step(x1, front, i1, ",period="@, "period"@, c);
    let i2 = listed(args, 2);
    assert(i2 == i1 + seq![','] + args[1]);
    let x3 = x2 + ",pattern="@ + body;
    lemma_text_step(x2, front, i2, ",pattern="@, "pattern"@, body);
    let i3 = listed(args, 3);
    assert(i3 == i2 + seq![','] + args[2]);
    assert(llm_policy::rule_text(ScheduleModel::Repeat(rule)) == x3 + ")"@);
    assert(x3 + ")"@ =~= front + (i3 + seq![')']));
    assert(front + (i3 + seq![')']) =~= "repeat"@ + (seq!['('] + i3 + seq![')']));
}

/// The arguments of a repeat rule are found in its text.
proof fn lemma_repeat_wrapped(rule: RepeatModel, inner: Seq<char>)
    requires
        inner == listed(repeat_arguments(rule), 3),
        balanced(inner),
    ensures
        ({
            let t = llm_policy::rule_text(ScheduleModel::Repeat(rule));
            &&& llm_policy::enclosed(t, "repeat("@) == Some(inner)
            &&& text::begins(t, "repeat("@)
            &&& t.len() > 0
            &&& text_forms::tight(t)
            &&& t[0] == 'r'
            &&& flat(t, ',')
            &&& flat(t, '|')
        }),
{
    let t = llm_policy::rule_text(ScheduleModel::Repeat(rule));
    lemma_repeat_text(rule);
    text_forms::lemma_after_front("repeat("@, inner + seq![')']);
    text_forms::lemma_before_back(inner, ')');
    assert(t[0] == 'r');
    assert(t.last() == ')');
    lemma_flat_wrapped(inner, ',');
    lemma_flat_wrapped(inner, '|');
    let wrapped = seq!['('] + inner + seq![')'];
    lemma_flat_open("repeat"@, ',');
    lemma_flat_open("repeat"@, '|');
    lemma_flat_joined("repeat"@, wrapped, ',');
    lemma_flat_joined("repeat"@, wrapped, '|');
}

proof fn lemma_repeat_from(
    t: Seq<char>,
    inner: Seq<char>,
    args: Seq<Seq<char>>,
    rule: RepeatModel,
    allowed: Seq<Seq<char>>,
)
    requires
        llm_policy::enclosed(t, "repeat("@) == Some(inner),
        llm_policy::top_split(inner, ',') == Ok::<Seq<Seq<char>>, ErrorModel>(args),
        llm_policy::range_of(text::trimmed(args[0])) == Ok::<(PositionModel, PositionModel), ErrorModel>(
            (rule.start, rule.end),
        ),
        llm_policy::with_repeat_args(
            RepeatArgs { period: None, pattern: None },
            args,
            1,
            allowed,
        ) == Ok::<RepeatArgs, ErrorModel>(
            RepeatArgs { period: Some(rule.period), pattern: Some(rule.pattern) },
        ),
        rule.pattern.len() > 0,
    ensures
        llm_policy::repeat_of(t, allowed) == Ok::<RepeatModel, ErrorModel>(rule),
{
}

/// A repeat rule that is written out is read back.
pub proof fn lemma_repeat_round_trip(rule: RepeatModel, allowed: Seq<Seq<char>>)
    requires
        repeat_ok(rule, allowed),
        pattern_fits(rule.pattern),
    ensures
        ({
            let t = llm_policy::rule_text(ScheduleModel::Repeat(rule));
            &&& llm_policy::repeat_of(t, allowed) == Ok::<RepeatModel, ErrorModel>(rule)
            &&& text::begins(t, "repeat("@)
            &&& t.len() > 0
            &&& text_forms::tight(t)
            &&& t[0] == 'r'
            &&& flat(t, ',')
            &&& flat(t, '|')
        }),
{
    let t = llm_policy::rule_text(ScheduleModel::Repeat(rule));
    let args = repeat_arguments(rule);
    let inner = listed(args, 3);
    lemma_repeat_arguments_read(rule, allowed);
    lemma_listed(args, 3);
    assert(args.take(3) =~= args);
    lemma_repeat_wrapped(rule, inner);
    lemma_repeat_from(t, inner, args, rule, allowed);
}

} // verus!
