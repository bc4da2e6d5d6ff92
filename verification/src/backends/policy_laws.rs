//! Policies are written out and read back without loss.

use vstd::prelude::*;
use crate::reals;
use crate::real_forms;
use crate::text_forms;
use crate::text;
use crate::backends::policy_forms;
use crate::backends::llm_policy;
use crate::backends::llm_policy::{
    PolicyEntries, PolicyModel, RepeatArgs, RepeatModel, RuleModel, ScheduleModel,
    SegmentModel,
};
use crate::backends::policy_error::ErrorModel;
use crate::backends::policy_schedule::{ActionModel, TrainModel};

verus! {

// ---------------------------------------------------------------------------------------
// Writing and reading back
// ---------------------------------------------------------------------------------------

/// A rule as it is read.
pub open spec fn rule_ok(rule: ScheduleModel, allowed: Seq<Seq<char>>) -> bool {
    match rule {
        ScheduleModel::Interval(r) => policy_forms::interval_ok(r, allowed),
        ScheduleModel::Repeat(r) => policy_forms::repeat_ok(r, allowed),
    }
}

/// A schedule as it is read.
pub open spec fn schedule_ok(schedule: Seq<ScheduleModel>, allowed: Seq<Seq<char>>) -> bool {
    &&& schedule.len() > 0
    &&& forall|i: int| 0 <= i < schedule.len() ==> rule_ok(#[trigger] schedule[i], allowed)
}

/// Whether a text is read as a rule.
spec fn reads_as(t: Seq<char>, rule: ScheduleModel, allowed: Seq<Seq<char>>) -> bool {
    match rule {
        ScheduleModel::Interval(r) => !text::begins(t, "repeat("@) && llm_policy::interval_of(t, allowed) == Ok::<
            RuleModel,
            ErrorModel,
        >(r),
        ScheduleModel::Repeat(r) => text::begins(t, "repeat("@) && llm_policy::repeat_of(t, allowed) == Ok::<
            RepeatModel,
            ErrorModel,
        >(r),
    }
}

/// A rule whose scopes stay whole where arguments are split.
pub open spec fn rule_fits(rule: ScheduleModel) -> bool {
    match rule {
        ScheduleModel::Interval(r) => policy_forms::action_fits(r.action),
        ScheduleModel::Repeat(r) => policy_forms::pattern_fits(r.pattern),
    }
}

/// A schedule whose scopes stay whole where arguments are split: the names that stand in one action
/// have balanced parentheses when they are put one after the other, and no comma outside of them.
pub open spec fn schedule_fits(schedule: Seq<ScheduleModel>) -> bool {
    forall|i: int| 0 <= i < schedule.len() ==> rule_fits(#[trigger] schedule[i])
}

/// Where no name that may stand in a schedule has parentheses or commas, each set of scopes stays
/// whole.
pub proof fn lemma_schedule_fits(schedule: Seq<ScheduleModel>, allowed: Seq<Seq<char>>)
    requires
        schedule_ok(schedule, allowed),
        policy_forms::names_fit(allowed),
    ensures
        schedule_fits(schedule),
{
    assert forall|i: int| 0 <= i < schedule.len() implies rule_fits(#[trigger] schedule[i]) by {
        assert(rule_ok(schedule[i], allowed));
        match schedule[i] {
            ScheduleModel::Interval(r) => {
                if let ActionModel::Train(train) = r.action {
                    policy_forms::lemma_scope_fits(train.scope, allowed);
                }
            },
            ScheduleModel::Repeat(r) => {
                assert forall|k: int| 0 <= k < r.pattern.len() implies policy_forms::action_fits(
                    (#[trigger] r.pattern[k]).action,
                ) by {
                    assert(policy_forms::segment_ok(r.pattern[k], allowed));
                    if let ActionModel::Train(train) = r.pattern[k].action {
                        policy_forms::lemma_scope_fits(train.scope, allowed);
                    }
                }
            },
        }
    }
}

proof fn lemma_rule_round_trip(rule: ScheduleModel, allowed: Seq<Seq<char>>)
    requires
        rule_ok(rule, allowed),
        rule_fits(rule),
    ensures
        reads_as(llm_policy::rule_text(rule), rule, allowed),
        llm_policy::rule_text(rule).len() > 0,
        text_forms::tight(llm_policy::rule_text(rule)),
        policy_forms::flat(llm_policy::rule_text(rule), ','),
        policy_forms::flat(llm_policy::rule_text(rule), '|'),
{
    let t = llm_policy::rule_text(rule);
    match rule {
        ScheduleModel::Interval(r) => {
            policy_forms::lemma_interval_round_trip(r, allowed);
            reveal_strlit("repeat(");
            if text::begins(t, "repeat("@) {
                assert(t.subrange(0, 7)[0] == t[0]);
                assert("repeat("@[0] == 'r');
            }
        },
        ScheduleModel::Repeat(r) => {
            policy_forms::lemma_repeat_round_trip(r, allowed);
        },
    }
}

/// Texts of rules.
pub open spec fn rule_forms(schedule: Seq<ScheduleModel>) -> Seq<Seq<char>> {
    schedule.map_values(|rule: ScheduleModel| llm_policy::rule_text(rule))
}

proof fn lemma_schedule_split(schedule: Seq<ScheduleModel>, n: int, allowed: Seq<Seq<char>>)
    requires
        1 <= n <= schedule.len(),
        schedule_ok(schedule, allowed),
        schedule_fits(schedule),
    ensures
        policy_forms::balanced(llm_policy::schedule_text(schedule, n)),
        policy_forms::flat(llm_policy::schedule_text(schedule, n), ','),
        llm_policy::schedule_text(schedule, n).len() > 0,
        text_forms::tight(llm_policy::schedule_text(schedule, n)),
        llm_policy::top_split(llm_policy::schedule_text(schedule, n), '|') == Ok::<Seq<Seq<char>>, ErrorModel>(
            rule_forms(schedule).take(n),
        ),
    decreases n,
{
    let forms = rule_forms(schedule);
    let own = llm_policy::rule_text(schedule[n - 1]);
    assert(rule_ok(schedule[n - 1], allowed));
    assert(forms[n - 1] == own);
    lemma_rule_round_trip(schedule[n - 1], allowed);
    if n == 1 {
        policy_forms::lemma_split_whole(own, '|');
        assert(forms.take(1) =~= seq![own]);
    } else {
        lemma_schedule_split(schedule, n - 1, allowed);
        reveal_strlit("|");
        let x = llm_policy::schedule_text(schedule, n - 1);
        let t = llm_policy::schedule_text(schedule, n);
        assert("|"@ =~= seq!['|']);
        assert(t == x + seq!['|'] + own);
        policy_forms::lemma_split_push(x, own, '|', forms.take(n - 1));
        assert(forms.take(n - 1).push(own) =~= forms.take(n));
        policy_forms::lemma_flat_open(seq!['|'], ',');
        policy_forms::lemma_flat_joined(x, seq!['|'], ',');
        policy_forms::lemma_flat_joined(x + seq!['|'], own, ',');
        assert(t[0] == x[0]);
        assert(t.last() == own.last());
    }
}

proof fn lemma_rule_step(
    tokens: Seq<Seq<char>>,
    i: int,
    done: Seq<ScheduleModel>,
    rule: ScheduleModel,
    allowed: Seq<Seq<char>>,
)
    requires
        0 <= i < tokens.len(),
        tokens[i].len() > 0,
        text_forms::tight(tokens[i]),
        reads_as(tokens[i], rule, allowed),
    ensures
        llm_policy::rules_of(tokens, i, done, allowed) == llm_policy::rules_of(tokens, i + 1, done.push(rule), allowed),
{
    text_forms::lemma_trimmed_tight(tokens[i]);
}

proof fn lemma_rules_read(schedule: Seq<ScheduleModel>, i: int, allowed: Seq<Seq<char>>)
    requires
        0 <= i <= schedule.len(),
        schedule_ok(schedule, allowed),
        schedule_fits(schedule),
    ensures
        llm_policy::rules_of(rule_forms(schedule), i, schedule.take(i), allowed) == Ok::<
            Seq<ScheduleModel>,
            ErrorModel,
        >(schedule),
    decreases schedule.len() - i,
{
    let forms = rule_forms(schedule);
    if i < schedule.len() {
        assert(rule_ok(schedule[i], allowed));
        lemma_rule_round_trip(schedule[i], allowed);
        assert(forms[i] == llm_policy::rule_text(schedule[i]));
        lemma_rule_step(forms, i, schedule.take(i), schedule[i], allowed);
        assert(schedule.take(i).push(schedule[i]) =~= schedule.take(i + 1));
        lemma_rules_read(schedule, i + 1, allowed);
    } else {
        assert(schedule.take(i) =~= schedule);
    }
}

/// A schedule that is written out is read back.
pub proof fn law_schedule_round_trip(schedule: Seq<ScheduleModel>, allowed: Seq<Seq<char>>)
    requires
        schedule_ok(schedule, allowed),
        schedule_fits(schedule),
    ensures
        ({
            let t = llm_policy::schedule_text(schedule, schedule.len() as int);
            &&& llm_policy::schedule_of(t, allowed) == Ok::<Seq<ScheduleModel>, ErrorModel>(schedule)
            &&& t.len() > 0
            &&& text_forms::tight(t)
            &&& policy_forms::flat(t, ',')
        }),
{
    let n = schedule.len() as int;
    lemma_schedule_split(schedule, n, allowed);
    lemma_rules_read(schedule, 0, allowed);
    assert(schedule.take(0) =~= Seq::empty());
    assert(rule_forms(schedule).take(n) =~= rule_forms(schedule));
}

/// A source of weights as it is read.
pub open spec fn source_ok(path: Seq<char>) -> bool {
    path.len() > 0 && text_forms::tight(path) && policy_forms::flat(path, ',')
}

/// A policy as it is read.
pub open spec fn policy_ok(policy: PolicyModel, allowed: Seq<Seq<char>>) -> bool {
    &&& schedule_ok(policy.schedule, allowed)
    &&& policy.load_from matches Some(path) ==> source_ok(path)
}

proof fn lemma_policy_keys()
    ensures
        policy_forms::key_form("load_from"@),
        policy_forms::key_form("schedule"@),
        "schedule"@ != "load_from"@,
        "load_from="@ == "load_from"@ + seq!['='],
        "schedule="@ == "schedule"@ + seq!['='],
        ","@ == seq![','],
        "load_from"@[0] == 'l',
        "schedule"@[0] == 's',
        "policy:"@.len() == 7,
        "policy:"@[0] == 'p',
{
    reveal_strlit("load_from");
    reveal_strlit("schedule");
    reveal_strlit("load_from=");
    reveal_strlit("schedule=");
    reveal_strlit(",");
    reveal_strlit("policy:");
    assert(text::lowered("load_from"@) =~= "load_from"@);
    assert(text::lowered("schedule"@) =~= "schedule"@);
    assert("load_from="@ =~= "load_from"@ + seq!['=']);
    assert("schedule="@ =~= "schedule"@ + seq!['=']);
    assert(","@ =~= seq![',']);
}

/// Entries of a policy.
pub open spec fn policy_arguments(policy: PolicyModel) -> Seq<Seq<char>> {
    let own = policy_forms::argument("schedule"@, llm_policy::schedule_text(policy.schedule, policy.schedule.len() as int));
    match policy.load_from {
        Some(path) => seq![policy_forms::argument("load_from"@, path), own],
        None => seq![own],
    }
}

proof fn lemma_policy_text(policy: PolicyModel)
    ensures
        llm_policy::policy_text(policy) == policy_forms::listed(policy_arguments(policy), policy_arguments(policy).len() as int),
{
    lemma_policy_keys();
    let args = policy_arguments(policy);
    let body = llm_policy::schedule_text(policy.schedule, policy.schedule.len() as int);
    let own = policy_forms::argument("schedule"@, body);
    assert("schedule="@ + body == own);
    match policy.load_from {
        Some(path) => {
            let first = policy_forms::argument("load_from"@, path);
            assert("load_from="@ + path == first);
            assert(policy_forms::listed(args, 1) == first);
            assert(policy_forms::listed(args, 2) == first + seq![','] + own);
        },
        None => {
            assert(policy_forms::listed(args, 1) == own);
        },
    }
}

/// A text that begins in another way than with the optional prefix is its own body.
proof fn lemma_body(t: Seq<char>)
    requires
        t.len() > 0,
        text_forms::tight(t),
        t[0] != 'p',
    ensures
        llm_policy::policy_body(t) == t,
{
    text_forms::lemma_trimmed_tight(t);
    lemma_policy_keys();
    if text::begins(t, "policy:"@) {
        assert(t.subrange(0, 7)[0] == t[0]);
    }
}

proof fn lemma_read_source(found: PolicyEntries, entries: Seq<Seq<char>>, i: int, path: Seq<char>)
    requires
        0 <= i < entries.len(),
        entries[i] == policy_forms::argument("load_from"@, path),
        source_ok(path),
    ensures
        policy_forms::flat(entries[i], ','),
        entries[i].len() > 0,
        text_forms::tight(entries[i]),
        entries[i][0] == 'l',
        llm_policy::with_entries(found, entries, i) == llm_policy::with_entries(
            PolicyEntries { load_from: Some(path), ..found },
            entries,
            i + 1,
        ),
{
    lemma_policy_keys();
    policy_forms::lemma_keyed("load_from"@, path);
}

proof fn lemma_read_schedule(found: PolicyEntries, entries: Seq<Seq<char>>, i: int, body: Seq<char>)
    requires
        0 <= i < entries.len(),
        entries[i] == policy_forms::argument("schedule"@, body),
        body.len() > 0,
        text_forms::tight(body),
        policy_forms::flat(body, ','),
    ensures
        policy_forms::flat(entries[i], ','),
        entries[i].len() > 0,
        text_forms::tight(entries[i]),
        entries[i][0] == 's',
        llm_policy::with_entries(found, entries, i) == llm_policy::with_entries(
            PolicyEntries { schedule: Some(body), ..found },
            entries,
            i + 1,
        ),
{
    lemma_policy_keys();
    policy_forms::lemma_keyed("schedule"@, body);
}

proof fn lemma_read_all(found: PolicyEntries, entries: Seq<Seq<char>>)
    ensures
        llm_policy::with_entries(found, entries, entries.len() as int) == Ok::<PolicyEntries, ErrorModel>(found),
{
}

/// The entries of a policy are read one by one.
proof fn lemma_entries_read(policy: PolicyModel, body: Seq<char>)
    requires
        body == llm_policy::schedule_text(policy.schedule, policy.schedule.len() as int),
        policy.load_from matches Some(path) ==> source_ok(path),
        body.len() > 0,
        text_forms::tight(body),
        policy_forms::flat(body, ','),
    ensures
        llm_policy::with_entries(
            PolicyEntries { load_from: None, schedule: None },
            policy_arguments(policy),
            0,
        ) == Ok::<PolicyEntries, ErrorModel>(
            PolicyEntries { load_from: policy.load_from, schedule: Some(body) },
        ),
{
    let args = policy_arguments(policy);
    let f0 = PolicyEntries { load_from: None, schedule: None };
    let f1 = PolicyEntries { load_from: policy.load_from, schedule: None };
    let f2 = PolicyEntries { load_from: policy.load_from, schedule: Some(body) };
    match policy.load_from {
        Some(path) => {
            assert(args.len() == 2);
            assert(args[0] == policy_forms::argument("load_from"@, path));
            assert(args[1] == policy_forms::argument("schedule"@, body));
            lemma_read_source(f0, args, 0, path);
            lemma_read_schedule(f1, args, 1, body);
        },
        None => {
            assert(args.len() == 1);
            assert(args[0] == policy_forms::argument("schedule"@, body));
            lemma_read_schedule(f0, args, 0, body);
        },
    }
    lemma_read_all(f2, args);
}

/// The text of a policy is its own body, and it is taken apart into its entries.
proof fn lemma_entries_split(policy: PolicyModel, body: Seq<char>)
    requires
        body == llm_policy::schedule_text(policy.schedule, policy.schedule.len() as int),
        policy.load_from matches Some(path) ==> source_ok(path),
        body.len() > 0,
        text_forms::tight(body),
        policy_forms::flat(body, ','),
    ensures
        llm_policy::top_split(llm_policy::policy_text(policy), ',') == Ok::<Seq<Seq<char>>, ErrorModel>(
            policy_arguments(policy),
        ),
        llm_policy::policy_body(llm_policy::policy_text(policy)) == llm_policy::policy_text(policy),
        llm_policy::policy_text(policy).len() > 0,
        text_forms::tight(llm_policy::policy_text(policy)),
{
    let args = policy_arguments(policy);
    let n = args.len() as int;
    let t = llm_policy::policy_text(policy);
    lemma_policy_text(policy);
    lemma_policy_keys();
    let own = policy_forms::argument("schedule"@, body);
    policy_forms::lemma_keyed("schedule"@, body);
    match policy.load_from {
        Some(path) => {
            let first = policy_forms::argument("load_from"@, path);
            policy_forms::lemma_keyed("load_from"@, path);
            assert(args =~= seq![first, own]);
            assert(policy_forms::listed(args, 1) == first);
            assert(t == first + seq![','] + own);
            assert(t[0] == first[0]);
            assert(t.last() == own.last());
            assert forall|i: int| 0 <= i < n implies policy_forms::flat(#[trigger] args[i], ',') by {
                if i == 0 {
                    assert(args[i] == first);
                } else {
                    assert(args[i] == own);
                }
            }
        },
        None => {
            assert(args =~= seq![own]);
            assert(t == own);
            assert forall|i: int| 0 <= i < n implies policy_forms::flat(#[trigger] args[i], ',') by {
                assert(args[i] == own);
            }
        },
    }
    policy_forms::lemma_listed(args, n);
    assert(args.take(n) =~= args);
    lemma_body(t);
}

/// A policy that is written out is read back.
pub proof fn law_policy_round_trip(policy: PolicyModel, allowed: Seq<Seq<char>>)
    requires
        policy_ok(policy, allowed),
        schedule_fits(policy.schedule),
    ensures
        llm_policy::policy_of(llm_policy::policy_text(policy), allowed) == Ok::<PolicyModel, ErrorModel>(policy),
        text_forms::tight(llm_policy::policy_text(policy)),
        llm_policy::policy_text(policy).len() > 0,
{
    law_schedule_round_trip(policy.schedule, allowed);
    let body = llm_policy::schedule_text(policy.schedule, policy.schedule.len() as int);
    lemma_entries_read(policy, body);
    lemma_entries_split(policy, body);
}

// ---------------------------------------------------------------------------------------
// What is read can be written
// ---------------------------------------------------------------------------------------

proof fn lemma_position_read(token: Seq<char>)
    ensures
        llm_policy::position_of(token) matches Ok(position) ==> policy_forms::position_ok(position),
{
    let t = text::trimmed(token);
    match text::before_last(t, '%') {
        Some(before) => {
            let p = text::trimmed(before);
            if llm_policy::position_of(token) is Ok {
                real_forms::law_percent_shown_again(p);
            }
        },
        None => {},
    }
}

proof fn lemma_range_read(range: Seq<char>)
    ensures
        llm_policy::range_of(range) matches Ok((start, end)) ==> policy_forms::position_ok(start) && policy_forms::position_ok(end),
{
    match text::cut_text(range, ".."@) {
        None => {},
        Some((start, end)) => {
            lemma_position_read(start);
            lemma_position_read(end);
        },
    }
}

/// Pieces of a text in lower case are in lower case and hold no separators.
proof fn lemma_scope_pieces_read(s: Seq<char>, start: int, at: int)
    requires
        text::lowered(s) == s,
        0 <= start <= at <= s.len(),
        forall|i: int| start <= i < at ==> !llm_policy::is_scope_separator(#[trigger] s[i]),
    ensures
        forall|k: int|
            0 <= k < llm_policy::scope_pieces(s, start, at).len() ==> text::lowered(
                #[trigger] llm_policy::scope_pieces(s, start, at)[k],
            ) == llm_policy::scope_pieces(s, start, at)[k] && policy_forms::unseparated(llm_policy::scope_pieces(s, start, at)[k]),
    decreases s.len() - at,
{
    let pieces = llm_policy::scope_pieces(s, start, at);
    if at >= s.len() {
        let own = s.subrange(start, s.len() as int);
        text_forms::lemma_lowered_part(s, start, s.len() as int);
        assert forall|i: int| 0 <= i < own.len() implies !llm_policy::is_scope_separator(#[trigger] own[i]) by {
            assert(own[i] == s[start + i]);
        }
        assert(pieces =~= seq![own]);
    } else if llm_policy::is_scope_separator(s[at]) {
        let own = s.subrange(start, at);
        text_forms::lemma_lowered_part(s, start, at);
        assert forall|i: int| 0 <= i < own.len() implies !llm_policy::is_scope_separator(#[trigger] own[i]) by {
            assert(own[i] == s[start + i]);
        }
        lemma_scope_pieces_read(s, at + 1, at + 1);
        let rest = llm_policy::scope_pieces(s, at + 1, at + 1);
        assert(pieces =~= seq![own] + rest);
        assert forall|k: int| 0 <= k < pieces.len() implies text::lowered(#[trigger] pieces[k]) == pieces[k]
            && policy_forms::unseparated(pieces[k]) by {
            if k > 0 {
                assert(pieces[k] == rest[k - 1]);
            } else {
                assert(pieces[k] == own);
            }
        }
    } else {
        lemma_scope_pieces_read(s, start, at + 1);
        assert(pieces == llm_policy::scope_pieces(s, start, at + 1));
    }
}

spec fn all_named(names: Seq<Seq<char>>, allowed: Seq<Seq<char>>) -> bool {
    forall|i: int| 0 <= i < names.len() ==> policy_forms::name_ok(#[trigger] names[i], allowed)
}

proof fn lemma_names_kept(
    pieces: Seq<Seq<char>>,
    i: int,
    names: Seq<Seq<char>>,
    allowed: Seq<Seq<char>>,
)
    requires
        0 <= i <= pieces.len(),
        forall|k: int|
            0 <= k < pieces.len() ==> text::lowered(#[trigger] pieces[k]) == pieces[k] && policy_forms::unseparated(
                pieces[k],
            ),
        llm_policy::increasing(names),
        all_named(names, allowed),
    ensures
        llm_policy::scope_names(pieces, i, names, allowed) matches Ok(out) ==> llm_policy::increasing(out) && all_named(
            out,
            allowed,
        ),
    decreases pieces.len() - i,
{
    if i < pieces.len() {
        let piece = pieces[i];
        let t = text::trimmed(piece);
        let ends = text_forms::lemma_trim_parts(piece);
        text_forms::lemma_lowered_part(piece, ends.0, ends.1);
        assert forall|k: int| 0 <= k < t.len() implies !llm_policy::is_scope_separator(#[trigger] t[k]) by {
            assert(t[k] == piece[ends.0 + k]);
        }
        if t.len() == 0 {
            lemma_names_kept(pieces, i + 1, names, allowed);
        } else if allowed.contains(t) && t != "all"@ && t != "none"@ {
            let more = llm_policy::with_name(names, t, 0);
            llm_policy::lemma_with_name(names, t, 0);
            assert forall|k: int| 0 <= k < more.len() implies policy_forms::name_ok(#[trigger] more[k], allowed) by {
                assert(more.contains(more[k]));
                if more[k] != t {
                    assert(names.contains(more[k]));
                    let j = choose|j: int| 0 <= j < names.len() && names[j] == more[k];
                    assert(policy_forms::name_ok(names[j], allowed));
                }
            }
            lemma_names_kept(pieces, i + 1, more, allowed);
        }
    }
}

proof fn lemma_scope_read(value: Seq<char>, allowed: Seq<Seq<char>>)
    ensures
        llm_policy::scope_of(value, allowed) matches Ok(scope) ==> policy_forms::scope_ok(scope, allowed),
{
    let v = text::lowered(text::trimmed(value));
    text_forms::lemma_lowered_again(text::trimmed(value));
    lemma_scope_pieces_read(v, 0, 0);
    lemma_names_kept(llm_policy::scope_pieces(v, 0, 0), 0, Seq::empty(), allowed);
}

spec fn train_ok(train: TrainModel, allowed: Seq<Seq<char>>) -> bool {
    policy_forms::scope_ok(train.scope, allowed) && policy_forms::hyper_ok(train.hyper)
}

/// The settings of a bare train action.
proof fn lemma_default_train(allowed: Seq<Seq<char>>)
    ensures
        train_ok(llm_policy::default_train(), allowed),
{
    reveal_strlit("0.001");
    reveal_strlit("0.9");
    reveal_strlit("0.");
    reveal_strlit("");
    real_forms::lemma_fixed_texts();
    let one = seq!['1'];
    let nine = seq!['9'];
    assert("0.001"@ =~= reals::plain_decimal(one, -2));
    assert("0.9"@ =~= reals::plain_decimal(nine, 0));
    real_forms::lemma_plain(one, -2);
    real_forms::lemma_plain(nine, 0);
    assert(""@ + "0.001"@ =~= "0.001"@);
    assert(""@ + "0.9"@ =~= "0.9"@);
    assert(reals::shown_real("0.001"@, false) == "0.001"@);
    assert(reals::shown_real("0.9"@, false) == "0.9"@);
}

proof fn lemma_train_arg_read(train: TrainModel, arg: Seq<char>, allowed: Seq<Seq<char>>)
    requires
        train_ok(train, allowed),
    ensures
        llm_policy::with_train_arg(train, arg, allowed) matches Ok(next) ==> train_ok(next, allowed),
{
    match text::cut_char(arg, '=') {
        None => {},
        Some((k, v)) => {
            let val = text::trimmed(v);
            lemma_scope_read(val, allowed);
            if reals::is_real(val) {
                real_forms::law_nonnegative_shown_again(val);
                real_forms::law_shown_again(val, false);
            }
        },
    }
}

proof fn lemma_train_args_read(
    train: TrainModel,
    args: Seq<Seq<char>>,
    i: int,
    allowed: Seq<Seq<char>>,
)
    requires
        train_ok(train, allowed),
        0 <= i <= args.len(),
    ensures
        llm_policy::with_train_args(train, args, i, allowed) matches Ok(last) ==> train_ok(last, allowed),
    decreases args.len() - i,
{
    if i < args.len() {
        let arg = text::trimmed(args[i]);
        if arg.len() == 0 {
            lemma_train_args_read(train, args, i + 1, allowed);
        } else {
            lemma_train_arg_read(train, arg, allowed);
            match llm_policy::with_train_arg(train, arg, allowed) {
                Ok(next) => {
                    lemma_train_args_read(next, args, i + 1, allowed);
                },
                Err(_) => {},
            }
        }
    }
}

proof fn lemma_action_read(token: Seq<char>, allowed: Seq<Seq<char>>)
    ensures
        llm_policy::action_of(token, allowed) matches Ok(action) ==> policy_forms::action_ok(action, allowed),
{
    lemma_default_train(allowed);
    match llm_policy::enclosed(text::trimmed(token), "train("@) {
        None => {},
        Some(inner) => match llm_policy::top_split(inner, ',') {
            Err(_) => {},
            Ok(args) => {
                lemma_train_args_read(llm_policy::default_train(), args, 0, allowed);
            },
        },
    }
}

proof fn lemma_interval_read(token: Seq<char>, allowed: Seq<Seq<char>>)
    ensures
        llm_policy::interval_of(token, allowed) matches Ok(rule) ==> policy_forms::interval_ok(rule, allowed),
{
    match text::cut_char(token, ':') {
        None => {},
        Some((range, action_part)) => {
            lemma_range_read(range);
            lemma_action_read(action_part, allowed);
        },
    }
}

spec fn segments_ok(pattern: Seq<SegmentModel>, allowed: Seq<Seq<char>>) -> bool {
    forall|i: int| 0 <= i < pattern.len() ==> policy_forms::segment_ok(#[trigger] pattern[i], allowed)
}

proof fn lemma_segment_read(s: Seq<char>, allowed: Seq<Seq<char>>)
    ensures
        llm_policy::segment_of(s, allowed) matches Ok(segment) ==> policy_forms::segment_ok(segment, allowed),
{
    match text::cut_char(s, ':') {
        None => {},
        Some((span_part, action_part)) => {
            lemma_position_read(text::trimmed(span_part));
            lemma_action_read(text::trimmed(action_part), allowed);
        },
    }
}

proof fn lemma_segments_kept(
    pieces: Seq<Seq<char>>,
    i: int,
    done: Seq<SegmentModel>,
    allowed: Seq<Seq<char>>,
)
    requires
        0 <= i <= pieces.len(),
        segments_ok(done, allowed),
    ensures
        llm_policy::segments_of(pieces, i, done, allowed) matches Ok(out) ==> segments_ok(out, allowed),
    decreases pieces.len() - i,
{
    if i < pieces.len() {
        let piece = text::trimmed(pieces[i]);
        if piece.len() == 0 {
            lemma_segments_kept(pieces, i + 1, done, allowed);
        } else {
            lemma_segment_read(piece, allowed);
            match llm_policy::segment_of(piece, allowed) {
                Ok(segment) => {
                    lemma_segments_kept(pieces, i + 1, done.push(segment), allowed);
                },
                Err(_) => {},
            }
        }
    }
}

proof fn lemma_pattern_read(val: Seq<char>, allowed: Seq<Seq<char>>)
    ensures
        llm_policy::pattern_of(val, allowed) matches Ok(pattern) ==> segments_ok(pattern, allowed),
{
    match llm_policy::top_split(val, '+') {
        Err(_) => {},
        Ok(pieces) => {
            lemma_segments_kept(pieces, 0, Seq::empty(), allowed);
        },
    }
}

spec fn found_ok(found: RepeatArgs, allowed: Seq<Seq<char>>) -> bool {
    &&& found.period matches Some(p) ==> policy_forms::position_ok(p)
    &&& found.pattern matches Some(p) ==> segments_ok(p, allowed)
}

proof fn lemma_repeat_args_kept(
    found: RepeatArgs,
    args: Seq<Seq<char>>,
    i: int,
    allowed: Seq<Seq<char>>,
)
    requires
        found_ok(found, allowed),
        0 <= i <= args.len(),
    ensures
        llm_policy::with_repeat_args(found, args, i, allowed) matches Ok(out) ==> found_ok(out, allowed),
    decreases args.len() - i,
{
    if i < args.len() {
        let arg = text::trimmed(args[i]);
        if arg.len() == 0 {
            lemma_repeat_args_kept(found, args, i + 1, allowed);
        } else {
            match text::cut_char(arg, '=') {
                None => {},
                Some((k, v)) => {
                    let key = text::lowered(text::trimmed(k));
                    let val = text::trimmed(v);
                    if key == "period"@ {
                        lemma_position_read(val);
                        match llm_policy::position_of(val) {
                            Ok(period) => {
                                lemma_repeat_args_kept(
                                    RepeatArgs { period: Some(period), ..found },
                                    args,
                                    i + 1,
                                    allowed,
                                );
                            },
                            Err(_) => {},
                        }
                    } else if key == "pattern"@ {
                        lemma_pattern_read(val, allowed);
                        match llm_policy::pattern_of(val, allowed) {
                            Ok(pattern) => {
                                lemma_repeat_args_kept(
                                    RepeatArgs { pattern: Some(pattern), ..found },
                                    args,
                                    i + 1,
                                    allowed,
                                );
                            },
                            Err(_) => {},
                        }
                    }
                },
            }
        }
    }
}

proof fn lemma_repeat_read(token: Seq<char>, allowed: Seq<Seq<char>>)
    ensures
        llm_policy::repeat_of(token, allowed) matches Ok(rule) ==> policy_forms::repeat_ok(rule, allowed),
{
    match llm_policy::enclosed(token, "repeat("@) {
        None => {},
        Some(inner) => match llm_policy::top_split(inner, ',') {
            Err(_) => {},
            Ok(args) => {
                llm_policy::lemma_top_pieces_nonempty(inner, ',', 0, 0);
                lemma_range_read(text::trimmed(args[0]));
                lemma_repeat_args_kept(
                    RepeatArgs { period: None, pattern: None },
                    args,
                    1,
                    allowed,
                );
            },
        },
    }
}

spec fn rules_ok(schedule: Seq<ScheduleModel>, allowed: Seq<Seq<char>>) -> bool {
    forall|i: int| 0 <= i < schedule.len() ==> rule_ok(#[trigger] schedule[i], allowed)
}

proof fn lemma_rules_kept(
    tokens: Seq<Seq<char>>,
    i: int,
    done: Seq<ScheduleModel>,
    allowed: Seq<Seq<char>>,
)
    requires
        0 <= i <= tokens.len(),
        rules_ok(done, allowed),
    ensures
        llm_policy::rules_of(tokens, i, done, allowed) matches Ok(out) ==> rules_ok(out, allowed),
    decreases tokens.len() - i,
{
    if i < tokens.len() {
        let t = text::trimmed(tokens[i]);
        if t.len() == 0 {
            lemma_rules_kept(tokens, i + 1, done, allowed);
        } else if text::begins(t, "repeat("@) {
            lemma_repeat_read(t, allowed);
            match llm_policy::repeat_of(t, allowed) {
                Ok(rule) => {
                    lemma_rules_kept(tokens, i + 1, done.push(ScheduleModel::Repeat(rule)), allowed);
                },
                Err(_) => {},
            }
        } else {
            lemma_interval_read(t, allowed);
            match llm_policy::interval_of(t, allowed) {
                Ok(rule) => {
                    lemma_rules_kept(
                        tokens,
                        i + 1,
                        done.push(ScheduleModel::Interval(rule)),
                        allowed,
                    );
                },
                Err(_) => {},
            }
        }
    }
}

proof fn lemma_schedule_read(body: Seq<char>, allowed: Seq<Seq<char>>)
    ensures
        llm_policy::schedule_of(body, allowed) matches Ok(schedule) ==> schedule_ok(schedule, allowed),
{
    match llm_policy::top_split(body, '|') {
        Err(_) => {},
        Ok(tokens) => {
            lemma_rules_kept(tokens, 0, Seq::empty(), allowed);
        },
    }
}

proof fn lemma_level(s: Seq<char>, a: int, b: int)
    requires
        0 <= a <= b <= s.len(),
        forall|i: int| a <= i < b ==> #[trigger] s[i] != '(' && s[i] != ')',
    ensures
        llm_policy::depth(s, b) == llm_policy::depth(s, a),
    decreases b - a,
{
    if a < b {
        assert(s[b - 1] != '(' && s[b - 1] != ')');
        lemma_level(s, a, b - 1);
    }
}

/// What stays whole does so without the white space at its ends.
proof fn lemma_trim_flat(s: Seq<char>, delim: char)
    requires
        policy_forms::flat(s, delim),
    ensures
        policy_forms::flat(text::trimmed(s), delim),
{
    let ends = text_forms::lemma_trim_parts(s);
    lemma_level(s, 0, ends.0);
    lemma_level(s, ends.1, s.len() as int);
    policy_forms::lemma_part_flat(s, delim, ends.0, ends.1);
}

/// A value stays whole behind its key.
proof fn lemma_value_flat(entry: Seq<char>, k: Seq<char>, v: Seq<char>)
    requires
        policy_forms::flat(entry, ','),
        entry == k + seq!['='] + v,
        text::lowered(text::trimmed(k)) == "load_from"@,
    ensures
        policy_forms::flat(v, ','),
{
    lemma_policy_keys();
    assert(policy_forms::open_text("load_from"@));
    let ends = text_forms::lemma_trim_parts(k);
    let t = text::trimmed(k);
    let n = k.len() as int + 1;
    assert forall|i: int| 0 <= i < n implies #[trigger] entry[i] != '(' && entry[i] != ')' by {
        if i < k.len() {
            assert(entry[i] == k[i]);
            if ends.0 <= i < ends.1 {
                assert(t[i - ends.0] == k[i]);
                assert(text::lowered(t)[i - ends.0] == text::lower(t[i - ends.0]));
                assert("load_from"@[i - ends.0] != '(');
                assert("load_from"@[i - ends.0] != ')');
            }
        }
    }
    lemma_level(entry, 0, n);
    policy_forms::lemma_part_flat(entry, ',', n, entry.len() as int);
    assert(entry.subrange(n, entry.len() as int) =~= v);
}

spec fn entries_ok(found: PolicyEntries) -> bool {
    found.load_from matches Some(path) ==> source_ok(path)
}

proof fn lemma_entries_kept(found: PolicyEntries, entries: Seq<Seq<char>>, i: int)
    requires
        entries_ok(found),
        0 <= i <= entries.len(),
        forall|k: int| 0 <= k < entries.len() ==> policy_forms::flat(#[trigger] entries[k], ','),
    ensures
        llm_policy::with_entries(found, entries, i) matches Ok(out) ==> entries_ok(out),
    decreases entries.len() - i,
{
    if i < entries.len() {
        let entry = text::trimmed(entries[i]);
        assert(policy_forms::flat(entries[i], ','));
        lemma_trim_flat(entries[i], ',');
        if entry.len() == 0 {
            lemma_entries_kept(found, entries, i + 1);
        } else {
            text_forms::lemma_cut_parts(entry, '=');
            match text::cut_char(entry, '=') {
                None => {},
                Some((k, v)) => {
                    let key = text::lowered(text::trimmed(k));
                    let val = text::trimmed(v);
                    if key == "load_from"@ {
                        if val.len() > 0 {
                            lemma_value_flat(entry, k, v);
                            lemma_trim_flat(v, ',');
                            text_forms::lemma_trim_parts(v);
                            lemma_entries_kept(
                                PolicyEntries { load_from: Some(val), ..found },
                                entries,
                                i + 1,
                            );
                        }
                    } else if key == "schedule"@ {
                        if val.len() > 0 {
                            lemma_entries_kept(
                                PolicyEntries { schedule: Some(val), ..found },
                                entries,
                                i + 1,
                            );
                        }
                    }
                },
            }
        }
    }
}

/// What is read as a policy can be written out.
pub proof fn law_read_policy_fits(segment: Seq<char>, allowed: Seq<Seq<char>>)
    ensures
        llm_policy::policy_of(segment, allowed) matches Ok(policy) ==> policy_ok(policy, allowed),
{
    let body = llm_policy::policy_body(segment);
    match llm_policy::top_split(body, ',') {
        Err(_) => {},
        Ok(entries) => {
            policy_forms::lemma_split_flat(body, ',');
            lemma_entries_kept(PolicyEntries { load_from: None, schedule: None }, entries, 0);
            match llm_policy::with_entries(PolicyEntries { load_from: None, schedule: None }, entries, 0) {
                Err(_) => {},
                Ok(found) => match found.schedule {
                    None => {},
                    Some(text) => {
                        lemma_schedule_read(text, allowed);
                    },
                },
            }
        },
    }
}

/// A policy that was read is read again, the same, from what it is written out as, where the scopes
/// that stand in it stay whole. They do where no allowed name has parentheses or commas.
pub proof fn law_policy_serializes_back(segment: Seq<char>, allowed: Seq<Seq<char>>)
    ensures
        llm_policy::policy_of(segment, allowed) matches Ok(policy) ==> schedule_fits(policy.schedule)
            ==> llm_policy::policy_of(llm_policy::policy_text(policy), allowed) == Ok::<
            PolicyModel,
            ErrorModel,
        >(policy),
        llm_policy::policy_of(segment, allowed) matches Ok(policy) ==> policy_forms::names_fit(
            allowed,
        ) ==> schedule_fits(policy.schedule),
{
    law_read_policy_fits(segment, allowed);
    match llm_policy::policy_of(segment, allowed) {
        Ok(policy) => {
            if policy_forms::names_fit(allowed) {
                lemma_schedule_fits(policy.schedule, allowed);
            }
            if schedule_fits(policy.schedule) {
                law_policy_round_trip(policy, allowed);
            }
        },
        Err(_) => {},
    }
}

} // verus!
