//! What the components of a path keep.

use vstd::prelude::*;
use crate::api::types;
use crate::backends::method_path;
use crate::backends::policy_laws;
use crate::backends::rwkvzip::method;
use crate::backends::rwkvzip::method_laws;
use crate::text;
use crate::text_forms;

use crate::api::types::PathFacts;
use crate::backends::llm_policy::PolicyModel;
use crate::backends::method_path::PieceModel;
use crate::backends::rwkvzip::method::MethodErrorModel;

verus! {

/// A name between slashes that is neither a single dot nor two.
pub open spec fn is_name(name: Seq<char>) -> bool {
    &&& name.len() > 0
    &&& text_forms::lacks(name, '/')
    &&& name != "."@
    &&& name != ".."@
}

/// A component as it stands at index `i` of a path.
pub open spec fn stands_at(piece: PieceModel, i: int) -> bool {
    match piece {
        PieceModel::Prefix(prefix) => false,
        PieceModel::RootDir => i == 0,
        PieceModel::CurDir => i == 0,
        PieceModel::ParentDir => true,
        PieceModel::Normal(name) => is_name(name),
    }
}

/// Components as a path has them: the root and the current directory only in front.
pub open spec fn well_placed(pieces: Seq<PieceModel>) -> bool {
    forall|i: int| 0 <= i < pieces.len() ==> stands_at(#[trigger] pieces[i], i)
}

proof fn lemma_pieces_lack(s: Seq<char>, c: char, from: int)
    requires
        0 <= from <= s.len(),
    ensures
        forall|k: int|
            0 <= k < text::split_pieces(s, c, from).len() ==> text_forms::lacks(
                #[trigger] text::split_pieces(s, c, from)[k],
                c,
            ),
    decreases s.len() - from,
{
    text::lemma_index_of_char_bounds(s, c, from);
    let i = text::index_of_char(s, c, from);
    let all = text::split_pieces(s, c, from);
    if i < s.len() {
        lemma_pieces_lack(s, c, i + 1);
        let rest = text::split_pieces(s, c, i + 1);
        let own = s.subrange(from, i);
        assert(all == seq![own] + rest);
        assert forall|k: int| 0 <= k < all.len() implies text_forms::lacks(#[trigger] all[k], c) by {
            if k > 0 {
                assert(all[k] == rest[k - 1]);
            }
        }
    } else {
        assert(all == seq![s.subrange(from, s.len() as int)]);
    }
}

proof fn lemma_names_well_placed(names: Seq<Seq<char>>, n: int)
    requires
        0 <= n <= names.len(),
        forall|k: int| 0 <= k < names.len() ==> text_forms::lacks(#[trigger] names[k], '/'),
    ensures
        well_placed(method_path::pieces_of_names(names, n)),
        n <= 1 ==> method_path::pieces_of_names(names, n).len() <= n,
    decreases n,
{
    if n > 0 {
        lemma_names_well_placed(names, n - 1);
        let before = method_path::pieces_of_names(names, n - 1);
        let all = method_path::pieces_of_names(names, n);
        assert(text_forms::lacks(names[n - 1], '/'));
        assert forall|i: int| 0 <= i < all.len() implies stands_at(#[trigger] all[i], i) by {
            if i < before.len() {
                assert(all[i] == before[i]);
            }
        }
    }
}

/// The components of a path are as a path has them.
pub proof fn law_pieces_are_well_placed(path: Seq<char>)
    ensures
        well_placed(method_path::pieces_in(path)),
{
    lemma_pieces_lack(path, '/', 0);
    let names = text::split_pieces(path, '/', 0);
    lemma_names_well_placed(names, names.len() as int);
}

proof fn lemma_more_names(names: Seq<Seq<char>>, more: Seq<char>, n: int)
    requires
        0 <= n <= names.len(),
        names.len() > 1 || names[0].len() > 0,
    ensures
        method_path::pieces_of_names(names.push(more), n) == method_path::pieces_of_names(names, n),
    decreases n,
{
    if n > 0 {
        lemma_more_names(names, more, n - 1);
        assert(names.push(more)[n - 1] == names[n - 1]);
    }
}

/// Name of a component behind the first.
pub open spec fn name_of(piece: PieceModel) -> Seq<char> {
    match piece {
        PieceModel::Prefix(prefix) => prefix,
        PieceModel::RootDir => Seq::empty(),
        PieceModel::CurDir => "."@,
        PieceModel::ParentDir => ".."@,
        PieceModel::Normal(name) => name,
    }
}

/// How the first `n` components read: as one name for each, with an empty one in front for the
/// root, and one behind it where nothing follows.
proof fn lemma_read_back(pieces: Seq<PieceModel>, n: int)
    requires
        0 <= n <= pieces.len(),
        well_placed(pieces),
    ensures
        ({
            let t = method_path::path_text(pieces, n);
            let names = text::split_pieces(t, '/', 0);
            &&& method_path::pieces_in(t) == pieces.take(n)
            &&& n > 0 ==> t.len() > 0
            &&& n > 0 && t.last() == '/' ==> n == 1 && pieces[0] is RootDir && t == seq!['/']
            &&& n > 0 && t.last() != '/' ==> names.len() > 1 || names[0].len() > 0
        }),
    decreases n,
{
    reveal_strlit(".");
    reveal_strlit("..");
    reveal_with_fuel(method_path::pieces_of_names, 3);
    let t = method_path::path_text(pieces, n);
    if n == 0 {
        method_laws::lemma_one_piece(t, '/', 0);
        assert(t.subrange(0, 0) =~= Seq::empty());
        assert(method_path::pieces_in(t) =~= pieces.take(0));
    } else if n == 1 {
        let q = pieces[0];
        assert(stands_at(pieces[0], 0));
        assert(method_path::path_text(pieces, 0) =~= Seq::empty());
        if q is RootDir {
            assert(t =~= seq!['/']);
            let e = Seq::<char>::empty();
            assert(t =~= e + seq!['/'] + e);
            method_laws::lemma_one_more_piece(e, '/', e, 0);
            method_laws::lemma_one_piece(e, '/', 0);
            assert(e.subrange(0, 0) =~= e);
            let names = text::split_pieces(t, '/', 0);
            assert(names =~= seq![e, e]);
            assert(method_path::pieces_in(t) =~= pieces.take(1));
        } else {
            assert(t =~= name_of(q));
            assert(text_forms::lacks(t, '/'));
            method_laws::lemma_one_piece(t, '/', 0);
            assert(t.subrange(0, t.len() as int) =~= t);
            let names = text::split_pieces(t, '/', 0);
            assert(names =~= seq![t]);
            assert(method_path::pieces_in(t) =~= pieces.take(1));
        }
    } else {
        lemma_read_back(pieces, n - 1);
        let q = pieces[n - 1];
        assert(stands_at(pieces[n - 1], n - 1));
        let y = name_of(q);
        let x = method_path::path_text(pieces, n - 1);
        assert(text_forms::lacks(y, '/'));
        assert(y.len() > 0);
        assert(t == method_path::separated(x) + y);
        assert(t.last() == y.last());
        let names = text::split_pieces(t, '/', 0);
        if x.last() == '/' {
            let e = Seq::<char>::empty();
            assert(t =~= e + seq!['/'] + y);
            method_laws::lemma_one_more_piece(e, '/', y, 0);
            method_laws::lemma_one_piece(e, '/', 0);
            assert(e.subrange(0, 0) =~= e);
            assert(names =~= seq![e, y]);
            assert(method_path::pieces_in(t) =~= pieces.take(2));
        } else {
            assert(t =~= x + seq!['/'] + y);
            method_laws::lemma_one_more_piece(x, '/', y, 0);
            let fore = text::split_pieces(x, '/', 0);
            assert(names == fore.push(y));
            lemma_more_names(fore, y, fore.len() as int);
            assert(names[names.len() - 1] == y);
            assert(method_path::pieces_in(t) =~= pieces.take(n - 1).push(q));
            assert(pieces.take(n - 1).push(q) =~= pieces.take(n));
        }
    }
}

/// The text that is made of the components of a path has these components: to put a path in normal
/// form a second time changes nothing.
pub proof fn law_normal_paths_stay(path: Seq<char>)
    ensures
        ({
            let pieces = method_path::pieces_in(path);
            method_path::pieces_in(method_path::path_text(pieces, pieces.len() as int)) == pieces
        }),
{
    let pieces = method_path::pieces_in(path);
    law_pieces_are_well_placed(path);
    lemma_read_back(pieces, pieces.len() as int);
    assert(pieces.take(pieces.len() as int) =~= pieces);
}

/// The canonical method of weights in a file is its own canonical form, where the normal form of the
/// path is neither empty nor has white space at its ends.
pub proof fn law_canonical_file_methods_stay(
    path: Seq<char>,
    policy: Option<PolicyModel>,
    facts: PathFacts,
)
    requires
        facts.foreign is None,
        types::normal_path(path, facts).len() > 0,
        text_forms::tight(types::normal_path(path, facts)),
        policy matches Some(p) ==> policy_laws::policy_ok(p, method::rwkv_scopes()) && p.load_from is None,
    ensures
        ({
            let text = "file:"@ + method_path::escaped(types::normal_path(path, facts))
                + method_laws::schedule_suffix(policy);
            types::canonical_network(text, facts) == Ok::<Seq<char>, MethodErrorModel>(text)
        }),
{
    let normal = types::normal_path(path, facts);
    method_laws::law_file_method_round_trip(normal, policy, facts.plain_exists);
    law_normal_paths_stay(path);
    assert(types::normal_path(normal, facts) == normal);
}

} // verus!
