//! What is read of a schedule's text.

use vstd::prelude::*;
use crate::backends::llm_policy;
use crate::text;
use crate::text_forms;

use crate::backends::policy_error::ErrorModel;
use crate::backends::policy_schedule::{OptimizerKind, TrainModel};

verus! {

// ---------------------------------------------------------------------------------------
// Scopes
// ---------------------------------------------------------------------------------------

proof fn lemma_name_added(names: Seq<Seq<char>>, name: Seq<char>, at: int, other: Seq<char>)
    requires
        0 <= at <= names.len(),
    ensures
        llm_policy::with_name(names, name, at).contains(other) <==> names.contains(other) || other == name,
    decreases names.len() - at,
{
    let next = llm_policy::with_name(names, name, at);
    if at >= names.len() {
        assert(next == names.push(name));
        assert(next[names.len() as int] == name);
        if names.contains(other) {
            let k = choose|k: int| 0 <= k < names.len() && names[k] == other;
            assert(next[k] == other);
        }
    } else if names[at] == name {
    } else if text::text_before(name, names[at]) {
        assert(next[at] == name);
        if names.contains(other) {
            let k = choose|k: int| 0 <= k < names.len() && names[k] == other;
            if k < at {
                assert(next[k] == other);
            } else {
                assert(next[k + 1] == other);
            }
        }
        if next.contains(other) {
            let k = choose|k: int| 0 <= k < next.len() && next[k] == other;
            if k < at {
                assert(names[k] == other);
            } else if k > at {
                assert(names[k - 1] == other);
            }
        }
    } else {
        lemma_name_added(names, name, at + 1, other);
    }
}

/// Whether a name is written in the pieces from index `i` on.
pub open spec fn is_written(pieces: Seq<Seq<char>>, i: int, name: Seq<char>) -> bool {
    name.len() > 0 && exists|k: int| i <= k < pieces.len() && text::trimmed(#[trigger] pieces[k]) == name
}

/// A scope holds the names that are written, and no other; each of them is allowed, and none stands
/// for all or for nothing.
pub proof fn law_scopes_hold_what_is_written(
    pieces: Seq<Seq<char>>,
    i: int,
    names: Seq<Seq<char>>,
    allowed: Seq<Seq<char>>,
    name: Seq<char>,
)
    requires
        0 <= i <= pieces.len(),
    ensures
        llm_policy::scope_names(pieces, i, names, allowed) matches Ok(all) ==> {
            &&& all.contains(name) <==> names.contains(name) || is_written(pieces, i, name)
            &&& is_written(pieces, i, name) ==> allowed.contains(name) && name != "all"@ && name != "none"@
        },
        llm_policy::scope_names(pieces, i, names, allowed) is Err ==> exists|k: int|
            i <= k < pieces.len() && {
                let t = text::trimmed(#[trigger] pieces[k]);
                t.len() > 0 && (!allowed.contains(t) || t == "all"@ || t == "none"@)
            },
    decreases pieces.len() - i,
{
    if i < pieces.len() {
        let t = text::trimmed(pieces[i]);
        let next = llm_policy::with_name(names, t, 0);
        if t.len() == 0 {
            law_scopes_hold_what_is_written(pieces, i + 1, names, allowed, name);
            if is_written(pieces, i, name) {
                let k = choose|k: int| i <= k < pieces.len() && text::trimmed(#[trigger] pieces[k]) == name;
                assert(k != i);
                assert(is_written(pieces, i + 1, name));
            }
        } else if !allowed.contains(t) || t == "all"@ || t == "none"@ {
        } else {
            law_scopes_hold_what_is_written(pieces, i + 1, next, allowed, name);
            lemma_name_added(names, t, 0, name);
            if is_written(pieces, i, name) {
                let k = choose|k: int| i <= k < pieces.len() && text::trimmed(#[trigger] pieces[k]) == name;
                if k > i {
                    assert(is_written(pieces, i + 1, name));
                }
            }
        }
    }
}

// ---------------------------------------------------------------------------------------
// Settings
// ---------------------------------------------------------------------------------------

/// Name of the setting that an argument gives; empty where it gives none.
pub open spec fn key_of(arg: Seq<char>) -> Seq<char> {
    match text::cut_char(text::trimmed(arg), '=') {
        Some((k, v)) => text::lowered(text::trimmed(k)),
        None => Seq::empty(),
    }
}

/// Whether one of the arguments from index `i` on gives a setting.
pub open spec fn is_given(args: Seq<Seq<char>>, i: int, key: Seq<char>) -> bool {
    exists|k: int| i <= k < args.len() && key_of(#[trigger] args[k]) == key
}

/// A setting that no argument gives stays as it was.
pub proof fn law_settings_not_given_stay(
    train: TrainModel,
    args: Seq<Seq<char>>,
    i: int,
    allowed: Seq<Seq<char>>,
)
    requires
        0 <= i <= args.len(),
    ensures
        llm_policy::with_train_args(train, args, i, allowed) matches Ok(done) ==> {
            &&& !is_given(args, i, "scope"@) ==> done.scope == train.scope
            &&& !is_given(args, i, "opt"@) && !is_given(args, i, "optimizer"@) ==> done.optimizer
                == train.optimizer
            &&& !is_given(args, i, "lr"@) ==> done.hyper.lr == train.hyper.lr
            &&& !is_given(args, i, "stride"@) ==> done.hyper.stride == train.hyper.stride
            &&& !is_given(args, i, "bptt"@) ==> done.hyper.bptt == train.hyper.bptt
            &&& !is_given(args, i, "clip"@) ==> done.hyper.clip == train.hyper.clip
            &&& !is_given(args, i, "momentum"@) ==> done.hyper.momentum == train.hyper.momentum
        },
    decreases args.len() - i,
{
    if i < args.len() {
        assert forall|key: Seq<char>| #[trigger] is_given(args, i + 1, key) implies is_given(args, i, key) by {
            let k = choose|k: int| i + 1 <= k < args.len() && key_of(#[trigger] args[k]) == key;
            assert(key_of(args[k]) == key);
        }
        assert(is_given(args, i, key_of(args[i])));
        let t = text::trimmed(args[i]);
        if t.len() == 0 {
            law_settings_not_given_stay(train, args, i + 1, allowed);
        } else if let Ok(next) = llm_policy::with_train_arg(train, t, allowed) {
            law_settings_not_given_stay(next, args, i + 1, allowed);
        }
    }
}

/// A setting that an argument gives is taken from it; what trains at all trains at every symbol or
/// more seldom, over one symbol or more.
pub proof fn law_given_settings_are_taken(train: TrainModel, k: Seq<char>, v: Seq<char>, allowed: Seq<Seq<char>>)
    requires
        !k.contains('='),
    ensures
        ({
            let key = text::lowered(text::trimmed(k));
            let val = text::trimmed(v);
            let number = text::parsed_uint(val, usize::MAX as nat);
            match llm_policy::with_train_arg(train, k + seq!['='] + v, allowed) {
                Ok(next) => {
                    &&& key == "stride"@ ==> number is Some && next.hyper.stride >= 1 && (number->0 >= 1
                        ==> next.hyper.stride == number->0)
                    &&& key == "bptt"@ ==> number is Some && next.hyper.bptt >= 1 && (number->0 >= 1
                        ==> next.hyper.bptt == number->0)
                    &&& key == "optimizer"@ && text::lowered(val) == "adam"@ ==> next.optimizer
                        == OptimizerKind::Adam
                    &&& key == "optimizer"@ && text::lowered(val) == "sgd"@ ==> next.optimizer
                        == OptimizerKind::Sgd
                    &&& key == "scope"@ ==> llm_policy::scope_of(val, allowed) == Ok::<_, ErrorModel>(
                        next.scope,
                    )
                },
                Err(_) => (key == "stride"@ || key == "bptt"@ ==> number is None) && (key == "scope"@
                    ==> llm_policy::scope_of(val, allowed) is Err),
            }
        }),
{
    let arg = k + seq!['='] + v;
    assert forall|i: int| 0 <= i < k.len() implies #[trigger] k[i] != '=' by {
        assert(k.contains(k[i]));
    }
    text_forms::lemma_cut_joined(k, '=', v);
    let cut = text::cut_char(arg, '=');
    assert(cut is Some && (cut->0).0 == k && (cut->0).1 == v);
    reveal_strlit("scope");
    reveal_strlit("sgd");
    reveal_strlit("adam");
    reveal_strlit("stride");
    reveal_strlit("bptt");
    reveal_strlit("opt");
    reveal_strlit("optimizer");
    reveal_strlit("lr");
    reveal_strlit("clip");
    assert("scope"@.len() == 5 && "stride"@.len() == 6 && "bptt"@.len() == 4 && "opt"@.len() == 3);
    assert("optimizer"@.len() == 9 && "lr"@.len() == 2 && "sgd"@.len() == 3 && "adam"@.len() == 4);
}

/// Arguments are taken one after the other: what comes last is applied to what came before it.
pub proof fn law_arguments_in_order(
    train: TrainModel,
    args: Seq<Seq<char>>,
    i: int,
    last: Seq<char>,
    allowed: Seq<Seq<char>>,
)
    requires
        0 <= i <= args.len(),
        text::trimmed(last).len() > 0,
    ensures
        match llm_policy::with_train_args(train, args, i, allowed) {
            Ok(done) => llm_policy::with_train_args(train, args.push(last), i, allowed)
                == llm_policy::with_train_arg(done, text::trimmed(last), allowed),
            Err(e) => llm_policy::with_train_args(train, args.push(last), i, allowed) == Err::<
                TrainModel,
                ErrorModel,
            >(e),
        },
    decreases args.len() - i,
{
    let more = args.push(last);
    if i < args.len() {
        assert(more[i] == args[i]);
        if text::trimmed(args[i]).len() == 0 {
            law_arguments_in_order(train, args, i + 1, last, allowed);
        } else if let Ok(next) = llm_policy::with_train_arg(train, text::trimmed(args[i]), allowed) {
            law_arguments_in_order(next, args, i + 1, last, allowed);
        }
    } else {
        assert(more[i] == last);
        if let Ok(next) = llm_policy::with_train_arg(train, text::trimmed(last), allowed) {
            assert(llm_policy::with_train_args(next, more, i + 1, allowed) == Ok::<TrainModel, ErrorModel>(
                next,
            ));
        }
    }
}

} // verus!
