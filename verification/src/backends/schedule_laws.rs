//! What a schedule asks for, and what its text comes to.

use vstd::prelude::*;
use crate::backends::llm_policy;
use crate::backends::policy_schedule;

use crate::backends::llm_policy::{
    RuleModel, PositionModel, RepeatModel, ScheduleModel, SegmentModel,
};
use crate::backends::policy_error::ErrorModel;
use crate::backends::policy_schedule::{
    CompiledPatternSegment, CompiledRuleModel, CompiledScheduleRule, CompiledSegmentModel,
    PolicyAction,
};

verus! {

/// Whether a rule is in force at a position: from its start on, up to but without its end.
pub open spec fn in_force(rule: CompiledScheduleRule, pos: int) -> bool {
    match rule {
        CompiledScheduleRule::Interval { start, end, action } => start <= pos && pos < end,
        CompiledScheduleRule::Repeat { start, end, period, pattern_total, pattern } => start <= pos
            && pos < end,
    }
}

/// The first rule in force decides; where none is, nothing is trained.
pub proof fn law_first_rule_decides(rules: Seq<CompiledScheduleRule>, pos: int, from: int)
    requires
        0 <= from <= rules.len(),
    ensures
        ({
            let asked = policy_schedule::schedule_asks(rules, from, pos);
            ||| (exists|k: int|
                from <= k < rules.len() && in_force(#[trigger] rules[k], pos) && asked
                    == rules[k].asks(pos) && forall|i: int|
                    from <= i < k ==> !in_force(#[trigger] rules[i], pos))
            ||| (asked == PolicyAction::Infer && forall|i: int|
                from <= i < rules.len() ==> !in_force(#[trigger] rules[i], pos))
        }),
    decreases rules.len() - from,
{
    if from < rules.len() {
        if in_force(rules[from], pos) {
            assert(rules[from].holds(pos));
        } else {
            assert(!rules[from].holds(pos));
            law_first_rule_decides(rules, pos, from + 1);
            if exists|k: int|
                from + 1 <= k < rules.len() && in_force(#[trigger] rules[k], pos)
                    && policy_schedule::schedule_asks(rules, from + 1, pos) == rules[k].asks(pos)
                    && forall|i: int| from + 1 <= i < k ==> !in_force(#[trigger] rules[i], pos) {
                let k = choose|k: int|
                    from + 1 <= k < rules.len() && in_force(#[trigger] rules[k], pos)
                        && policy_schedule::schedule_asks(rules, from + 1, pos) == rules[k].asks(pos)
                        && forall|i: int| from + 1 <= i < k ==> !in_force(#[trigger] rules[i], pos);
                assert(in_force(rules[k], pos));
            }
        }
    }
}

proof fn lemma_pattern(pattern: Seq<CompiledPatternSegment>, from: int, j: int, phase: int)
    requires
        0 <= from <= j <= pattern.len(),
        forall|i: int| from <= i < j ==> (#[trigger] pattern[i]).end <= phase,
        j < pattern.len() ==> phase < pattern[j].end,
    ensures
        policy_schedule::pattern_asks(pattern, from, phase) == if j < pattern.len() {
            pattern[j].action
        } else {
            PolicyAction::Infer
        },
    decreases j - from,
{
    if from < j {
        assert(pattern[from].end <= phase);
        lemma_pattern(pattern, from + 1, j, phase);
    }
}

/// A rule over an interval asks for its action throughout. A rule that repeats asks, counted from
/// its start and from the beginning of each period on, for the action of the segment that the
/// position falls into, and for no training behind the last segment; one period later it asks for
/// the same.
pub proof fn law_rule_asks(rule: CompiledScheduleRule, pos: int, cycle: int, phase: int, j: int)
    requires
        rule.wf(),
    ensures
        match rule {
            CompiledScheduleRule::Interval { start, end, action } => rule.asks(pos) == action,
            CompiledScheduleRule::Repeat { start, end, period, pattern_total, pattern } => {
                &&& rule.asks(pos + period) == rule.asks(pos)
                &&& pos == start + cycle * period + phase && 0 <= phase < period && 0 <= j
                    < pattern@.len() && phase < pattern@[j].end && (j == 0 || pattern@[j - 1].end
                    <= phase) ==> rule.asks(pos) == pattern@[j].action
                &&& pos == start + cycle * period + phase && 0 <= phase < period && phase
                    >= pattern@.last().end ==> rule.asks(pos) == PolicyAction::Infer
            },
        },
{
    match rule {
        CompiledScheduleRule::Interval { start, end, action } => {},
        CompiledScheduleRule::Repeat { start, end, period, pattern_total, pattern } => {
            let p = period as int;
            vstd::arithmetic::div_mod::lemma_mod_add_multiples_vanish(pos - start, p);
            assert((pos + p - start) % p == (pos - start) % p);
            if pos == start + cycle * period + phase && 0 <= phase < period {
                vstd::arithmetic::div_mod::lemma_fundamental_div_mod_converse(
                    pos - start,
                    p,
                    cycle,
                    phase,
                );
                assert((pos - start) % p == phase);
                if phase >= pattern@.last().end {
                    assert forall|i: int| 0 <= i < pattern@.len() implies (#[trigger] pattern@[i]).end
                        <= phase by {
                        assert(pattern@[i].end <= pattern@[pattern@.len() - 1].end);
                    }
                    lemma_pattern(pattern@, 0, pattern@.len() as int, phase);
                }
                if 0 <= j < pattern@.len() && phase < pattern@[j].end && (j == 0 || pattern@[j - 1].end
                    <= phase) {
                    assert forall|i: int| 0 <= i < j implies (#[trigger] pattern@[i]).end <= phase by {
                        assert(pattern@[i].end <= pattern@[j - 1].end);
                    }
                    lemma_pattern(pattern@, 0, j, phase);
                }
            }
        },
    }
}

/// Boundaries lie within the total, where that is known, and are else where they were written. A
/// percentage needs a total.
pub proof fn law_boundaries(position: PositionModel, total: Option<u64>, floors: Seq<u64>, at: int)
    ensures
        match llm_policy::boundary_at(position, total, floors, at) {
            Ok(b) => {
                &&& total matches Some(t) ==> b <= t
                &&& match position {
                    PositionModel::Bytes(v) => b <= v && (b == v || (total matches Some(t) && b == t)),
                    PositionModel::Percent(_) => b <= floors[at] && total is Some && (b == floors[at]
                        || b == total->0),
                }
            },
            Err(_) => position is Percent && total is None,
        },
        match llm_policy::span_at(position, total, floors, at) {
            Ok(b) => match position {
                PositionModel::Bytes(v) => b == v,
                PositionModel::Percent(_) => b == floors[at] && total is Some,
            },
            Err(_) => position is Percent && total is None,
        },
{
}

/// A rule that was compiled covers a range that is not empty, from the boundary that its start comes
/// to up to the one that its end comes to, with the actions that were written.
pub proof fn law_compiled_rule(rule: ScheduleModel, total: Option<u64>, floors: Seq<u64>, at: int)
    ensures
        match (rule, llm_policy::compiled_rule(rule, total, floors, at)) {
            (ScheduleModel::Interval(r), Ok(c)) => c matches CompiledRuleModel::Interval {
                start,
                end,
                action,
            } && start < end && action == r.action && llm_policy::boundary_at(
                r.start,
                total,
                floors,
                at,
            ) == Ok::<nat, ErrorModel>(start) && llm_policy::boundary_at(
                r.end,
                total,
                floors,
                at + llm_policy::position_percents(r.start).len(),
            ) == Ok::<nat, ErrorModel>(end),
            (ScheduleModel::Repeat(r), Ok(c)) => c matches CompiledRuleModel::Repeat {
                start,
                end,
                period,
                pattern_total,
                pattern,
            } && start < end && period > 0 && pattern.len() == r.pattern.len() && pattern.len() > 0
                && pattern_total == pattern.last().end && llm_policy::boundary_at(
                r.start,
                total,
                floors,
                at,
            ) == Ok::<nat, ErrorModel>(start) && (forall|k: int|
                0 <= k < pattern.len() ==> (#[trigger] pattern[k]).action == r.pattern[k].action && (k
                    > 0 ==> pattern[k - 1].end <= pattern[k].end)) && (forall|k: int|
                0 <= k < pattern.len() && (r.pattern[k].span is Bytes) && (#[trigger] pattern[k]).end
                    < u64::MAX ==> pattern[k].end == r.pattern[k].span->Bytes_0 + if k > 0 {
                    pattern[k - 1].end
                } else {
                    0
                }),
            (_, Err(_)) => true,
        },
{
    match rule {
        ScheduleModel::Interval(r) => {},
        ScheduleModel::Repeat(r) => {
            let at_end = at + llm_policy::position_percents(r.start).len();
            let at_period = at_end + llm_policy::position_percents(r.end).len();
            let at_pattern = at_period + llm_policy::position_percents(r.period).len();
            lemma_compiled_pattern(r.pattern, 0, total, floors, at_pattern, Seq::empty(), 0);
        },
    }
}

/// What is known of segments of which the first `n` are compiled.
spec fn segments_ok(pattern: Seq<SegmentModel>, done: Seq<CompiledSegmentModel>, n: int, acc: nat) -> bool {
    &&& done.len() == n
    &&& acc == if n > 0 {
        done.last().end
    } else {
        0
    }
    &&& acc <= u64::MAX
    &&& forall|k: int|
        0 <= k < n ==> (#[trigger] done[k]).action == pattern[k].action && (k > 0 ==> done[k - 1].end
            <= done[k].end)
    &&& forall|k: int|
        0 <= k < n && (pattern[k].span is Bytes) && (#[trigger] done[k]).end < u64::MAX ==> done[k].end
            == pattern[k].span->Bytes_0 + if k > 0 {
            done[k - 1].end
        } else {
            0
        }
}

proof fn lemma_compiled_pattern(
    pattern: Seq<SegmentModel>,
    i: int,
    total: Option<u64>,
    floors: Seq<u64>,
    at: int,
    done: Seq<CompiledSegmentModel>,
    acc: nat,
)
    requires
        0 <= i <= pattern.len(),
        segments_ok(pattern, done, i, acc),
    ensures
        llm_policy::compiled_pattern(pattern, i, total, floors, at, done, acc) matches Ok((all, sum))
            ==> segments_ok(pattern, all, pattern.len() as int, sum),
    decreases pattern.len() - i,
{
    if i < pattern.len() {
        if let Ok(span) = llm_policy::span_at(pattern[i].span, total, floors, at) {
            if span > 0 {
                let end = llm_policy::smaller(acc + span, u64::MAX as nat);
                let more = done.push(CompiledSegmentModel { end, action: pattern[i].action });
                assert(segments_ok(pattern, more, i + 1, end));
                lemma_compiled_pattern(
                    pattern,
                    i + 1,
                    total,
                    floors,
                    at + llm_policy::position_percents(pattern[i].span).len(),
                    more,
                    end,
                );
            }
        }
    }
}

/// A schedule is compiled rule by rule, in its order; the first rule that cannot be compiled is the
/// reason why the schedule cannot.
pub proof fn law_compiled_schedule(
    schedule: Seq<ScheduleModel>,
    i: int,
    total: Option<u64>,
    floors: Seq<u64>,
    done: Seq<CompiledRuleModel>,
)
    requires
        0 <= i <= schedule.len(),
        done.len() == i,
        forall|k: int|
            0 <= k < i ==> llm_policy::compiled_rule(
                schedule[k],
                total,
                floors,
                llm_policy::schedule_percents(schedule, k).len() as int,
            ) == Ok::<CompiledRuleModel, ErrorModel>(#[trigger] done[k]),
    ensures
        match llm_policy::compiled_schedule(schedule, i, total, floors, done) {
            Ok(all) => all.len() == schedule.len() && forall|k: int|
                0 <= k < schedule.len() ==> llm_policy::compiled_rule(
                    schedule[k],
                    total,
                    floors,
                    llm_policy::schedule_percents(schedule, k).len() as int,
                ) == Ok::<CompiledRuleModel, ErrorModel>(#[trigger] all[k]),
            Err(e) => exists|k: int|
                i <= k < schedule.len() && llm_policy::compiled_rule(
                    #[trigger] schedule[k],
                    total,
                    floors,
                    llm_policy::schedule_percents(schedule, k).len() as int,
                ) == Err::<CompiledRuleModel, ErrorModel>(e),
        },
    decreases schedule.len() - i,
{
    if i < schedule.len() {
        match llm_policy::compiled_rule(
            schedule[i],
            total,
            floors,
            llm_policy::schedule_percents(schedule, i).len() as int,
        ) {
            Ok(rule) => {
                law_compiled_schedule(schedule, i + 1, total, floors, done.push(rule));
            },
            Err(e) => {
                assert(llm_policy::compiled_rule(
                    schedule[i],
                    total,
                    floors,
                    llm_policy::schedule_percents(schedule, i).len() as int,
                ) == Err::<CompiledRuleModel, ErrorModel>(e));
            },
        }
    }
}

/// A rule that repeats ends at the boundary that its end comes to, and repeats after its period.
pub proof fn law_compiled_repeat(
    r: RepeatModel,
    total: Option<u64>,
    floors: Seq<u64>,
    at: int,
    made: CompiledRuleModel,
)
    requires
        llm_policy::compiled_rule(ScheduleModel::Repeat(r), total, floors, at) == Ok::<
            CompiledRuleModel,
            ErrorModel,
        >(made),
    ensures
        ({
            let at_end = at + llm_policy::position_percents(r.start).len();
            let at_period = at_end + llm_policy::position_percents(r.end).len();
            &&& made matches CompiledRuleModel::Repeat { start, end, period, pattern_total, pattern }
            &&& llm_policy::boundary_at(r.end, total, floors, at_end) == Ok::<nat, ErrorModel>(end)
            &&& llm_policy::span_at(r.period, total, floors, at_period) == Ok::<nat, ErrorModel>(period)
        }),
{
}

/// A rule over an interval cannot be compiled exactly where one of its boundaries cannot be had or
/// nothing lies between them.
pub proof fn law_empty_intervals_are_refused(
    r: RuleModel,
    total: Option<u64>,
    floors: Seq<u64>,
    at: int,
)
    ensures
        ({
            let from = llm_policy::boundary_at(r.start, total, floors, at);
            let to = llm_policy::boundary_at(
                r.end,
                total,
                floors,
                at + llm_policy::position_percents(r.start).len(),
            );
            llm_policy::compiled_rule(ScheduleModel::Interval(r), total, floors, at) is Err <==> from is Err
                || to is Err || to->Ok_0 <= from->Ok_0
        }),
{
}

/// Whether a compiled rule asks for training anywhere.
pub open spec fn may_train(rule: CompiledRuleModel) -> bool {
    match rule {
        CompiledRuleModel::Interval { start, end, action } => action is Train,
        CompiledRuleModel::Repeat { start, end, period, pattern_total, pattern } => exists|k: int|
            0 <= k < pattern.len() && (#[trigger] pattern[k]).action is Train,
    }
}

/// A rule that can train is compiled to one that can, and one that cannot to one that cannot.
pub proof fn law_training_stays(rule: ScheduleModel, total: Option<u64>, floors: Seq<u64>, at: int)
    ensures
        llm_policy::compiled_rule(rule, total, floors, at) matches Ok(made) ==> may_train(made)
            == llm_policy::rule_can_train(rule),
{
    law_compiled_rule(rule, total, floors, at);
    if let Ok(made) = llm_policy::compiled_rule(rule, total, floors, at) {
        match (rule, made) {
            (
                ScheduleModel::Repeat(r),
                CompiledRuleModel::Repeat { start, end, period, pattern_total, pattern },
            ) => {
                if may_train(made) {
                    let k = choose|k: int|
                        0 <= k < pattern.len() && (#[trigger] pattern[k]).action is Train;
                    assert(r.pattern[k].action is Train);
                }
                if llm_policy::rule_can_train(rule) {
                    let k = choose|k: int|
                        0 <= k < r.pattern.len() && (#[trigger] r.pattern[k]).action is Train;
                    assert(pattern[k].action is Train);
                }
            },
            _ => {},
        }
    }
}

} // verus!
