//! What online training does with a stream.

use vstd::prelude::*;
use crate::backends::llm_policy;
use crate::backends::policy_schedule;
use crate::backends::rwkvzip::online;
use crate::backends::rwkvzip::runtime;

use crate::backends::llm_policy::{PolicyModel, ScheduleModel};
use crate::backends::policy_error::{ErrorModel, PolicyError};
use crate::backends::policy_schedule::{
    ActionModel, CompiledRuleModel, OptimizerKind, PolicyAction,
};
use crate::backends::rwkvzip::method::{ConfigModel, OnlineTrainMode};
use crate::backends::rwkvzip::online::{ActionTest, FullTrainSettings, QueueModel, TrainScopeMask};
use crate::backends::rwkvzip::runtime::OnlineModel;

verus! {

/// A schedule is asked once for each symbol, position after position, from where it stands; the
/// schedule stays, and nothing else changes.
pub proof fn law_schedule_is_followed<S>(
    first: OnlineModel<S>,
    second: OnlineModel<S>,
    third: OnlineModel<S>,
    one: Result<Option<PolicyAction>, PolicyError>,
    two: Result<Option<PolicyAction>, PolicyError>,
)
    requires
        first.policy is Some,
        first.schedule is Some,
        (first.schedule->0).1 < u64::MAX - 1,
        runtime::next_action_ok(first, second, one),
        runtime::next_action_ok(second, third, two),
    ensures
        ({
            let (compiled, at) = first.schedule->0;
            &&& one matches Ok(Some(a)) && a@ == compiled.asks(at as int)@
            &&& two matches Ok(Some(a)) && a@ == compiled.asks(at + 1)@
            &&& third.schedule == Some((compiled, (at + 2) as u64))
            &&& third == (OnlineModel { schedule: third.schedule, ..first })
        }),
{
}

/// Where a schedule asks for no training nothing is trained; where it asks for training, exactly the
/// parts that it names are, all of them where it names all, in the way that it says. Without a
/// schedule the output layer is trained as the configuration says, or nothing is.
pub proof fn law_what_is_trained(cfg: ConfigModel, action: ActionModel, name: Seq<char>)
    ensures
        !runtime::step_for(cfg, Some(ActionModel::Infer)).scope.any(),
        runtime::step_for(cfg, None).scope.any() == (cfg.train_mode != OnlineTrainMode::Off),
        !runtime::step_for(cfg, None).scope.deep(),
        runtime::step_for(cfg, None).lr == cfg.lr,
        runtime::step_for(cfg, None).optimizer == OptimizerKind::Adam <==> cfg.train_mode
            == OnlineTrainMode::Adam,
        runtime::step_for(cfg, Some(action)).stride >= 1,
        runtime::step_for(cfg, Some(action)).bptt >= 1,
        action matches ActionModel::Train(train) ==> {
            let step = runtime::step_for(cfg, Some(action));
            &&& step.lr == train.hyper.lr
            &&& step.clip == train.hyper.clip
            &&& step.optimizer == train.optimizer
            &&& train.hyper.stride > 0 ==> step.stride == train.hyper.stride
            &&& train.hyper.bptt > 0 ==> step.bptt == train.hyper.bptt
            &&& train.scope.all ==> step.scope.embed && step.scope.pre_norm && step.scope.attn_norm
                && step.scope.ffn_norm && step.scope.attn && step.scope.ffn && step.scope.head
                && step.scope.bias
            &&& !train.scope.all ==> step.scope.head == train.scope.names.contains("head"@)
                && step.scope.bias == train.scope.names.contains("bias"@) && step.scope.attn
                == train.scope.names.contains("attn"@) && step.scope.ffn == train.scope.names.contains(
                "ffn"@,
            ) && step.scope.embed == train.scope.names.contains("embed"@) && step.scope.pre_norm
                == train.scope.names.contains("pre_norm"@) && step.scope.attn_norm
                == train.scope.names.contains("attn_norm"@) && step.scope.ffn_norm
                == train.scope.names.contains("ffn_norm"@)
        },
{
}

/// What is gathered for a full update are the tokens with their targets in the order in which they
/// came, from the state in front of the first of them on.
pub proof fn law_tokens_are_gathered<S>(
    q: QueueModel<S>,
    settings: FullTrainSettings,
    symbol: u8,
    token: u32,
    state: S,
)
    requires
        q.pending == Some((token, state)),
    ensures
        ({
            let now = online::gathered(q, settings, symbol);
            &&& now.steps.len() > 0 && now.steps.last() == (token, symbol)
            &&& q.open_trace is None ==> now.steps.len() == 1 && now.start == state
            &&& q.open_trace matches Some(t) ==> now.start == t.start && now.steps.drop_last() == t.steps
            &&& now.settings == settings
        }),
{
    if let Some(t) = q.open_trace {
        assert(t.steps.push((token, symbol)).drop_last() =~= t.steps);
    }
}

/// A full update uses a window of one token at least, as long as is asked for; where more than the
/// output layer is trained and no more than one token is asked for, it uses a longer one.
pub proof fn law_windows(scope: TrainScopeMask, bptt: usize)
    ensures
        online::window_of(scope, bptt) >= 1,
        bptt > 1 ==> online::window_of(scope, bptt) == bptt,
        bptt <= 1 && scope.deep() ==> online::window_of(scope, bptt) > 1,
        bptt <= 1 && !scope.deep() ==> online::window_of(scope, bptt) == 1,
{
}

/// A stream begins with what its schedule asks for at its first symbol, and with nothing trained yet.
pub proof fn law_streams_begin_at_their_first_symbol<S>(
    before: OnlineModel<S>,
    begun: OnlineModel<S>,
    after: OnlineModel<S>,
    total: Option<u64>,
    action: Result<Option<PolicyAction>, PolicyError>,
)
    requires
        before.policy is Some,
        runtime::prepared(before, begun, total, Ok(())),
        runtime::next_action_ok(begun, after, action),
    ensures
        begun.schedule is Some,
        begun.policy_train_steps == 0,
        begun.policy_stream_total == total,
        action matches Ok(Some(a)) && a@ == (begun.schedule->0).0.asks(0)@,
        llm_policy::compiled_for((before.policy->0).schedule, total) == Ok::<
            Seq<CompiledRuleModel>,
            ErrorModel,
        >(policy_schedule::compiled_rules((begun.schedule->0).0.spec_rules())),
{
}

/// Whether an action stands in a rule.
pub open spec fn holds_action(rule: ScheduleModel, action: ActionModel) -> bool {
    match rule {
        ScheduleModel::Interval(interval) => interval.action == action,
        ScheduleModel::Repeat(repeat) => exists|k: int|
            0 <= k < repeat.pattern.len() && (#[trigger] repeat.pattern[k]).action == action,
    }
}

/// A trace is kept exactly where some action of the schedule trains more than the output layer.
pub proof fn law_traces_are_kept_where_needed(cfg: ConfigModel, policy: PolicyModel)
    ensures
        runtime::traces(Some(policy)) <==> exists|i: int, action: ActionModel|
            0 <= i < policy.schedule.len() && #[trigger] holds_action(policy.schedule[i], action)
                && runtime::step_for(cfg, Some(action)).scope.deep(),
        !runtime::traces(None),
{
    if runtime::traces(Some(policy)) {
        let i = choose|i: int|
            0 <= i < policy.schedule.len() && online::rule_passes(
                ActionTest::FullTrace,
                #[trigger] policy.schedule[i],
            );
        match policy.schedule[i] {
            ScheduleModel::Interval(interval) => {
                assert(holds_action(policy.schedule[i], interval.action));
            },
            ScheduleModel::Repeat(repeat) => {
                let k = choose|k: int|
                    0 <= k < repeat.pattern.len() && online::passes(
                        ActionTest::FullTrace,
                        (#[trigger] repeat.pattern[k]).action,
                    );
                assert(holds_action(policy.schedule[i], repeat.pattern[k].action));
            },
        }
    }
    if exists|i: int, action: ActionModel|
        0 <= i < policy.schedule.len() && #[trigger] holds_action(policy.schedule[i], action)
            && runtime::step_for(cfg, Some(action)).scope.deep() {
        let (i, action) = choose|i: int, action: ActionModel|
            0 <= i < policy.schedule.len() && #[trigger] holds_action(policy.schedule[i], action)
                && runtime::step_for(cfg, Some(action)).scope.deep();
        assert(online::passes(ActionTest::FullTrace, action));
        assert(online::rule_passes(ActionTest::FullTrace, policy.schedule[i]));
    }
}

} // verus!
