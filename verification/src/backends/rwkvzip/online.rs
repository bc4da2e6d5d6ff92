//! Online training of the recurrent network: what is trained when, and on which tokens.

use vstd::prelude::*;
use crate::backends::policy_schedule;

use crate::backends::llm_policy::{LlmPolicy, PolicyModel, ScheduleModel, ScheduleRule};
use crate::backends::policy_schedule::{
    ActionModel, OptimizerKind, PolicyAction, ScopeModel, TrainAction, TrainScopeSet,
};
use crate::text::{chars_of, is_text};

verus! {

/// Window of a full update that asks for none.
pub const DEFAULT_FULL_TBPTT_WINDOW: usize = 8;

/// Tokens that are replayed at once.
pub const TBPTT_REPLAY_CHUNK: usize = 32;

/// Parts of the network that an update changes.
#[derive(Clone, Copy, Debug, PartialEq, Eq, Structural)]
pub struct TrainScopeMask {
    pub embed: bool,
    pub pre_norm: bool,
    pub attn_norm: bool,
    pub ffn_norm: bool,
    pub attn: bool,
    pub ffn: bool,
    pub head: bool,
    pub bias: bool,
}

impl TrainScopeMask {
    /// Whether anything but the output layer changes.
    pub open spec fn deep(self) -> bool {
        self.embed || self.pre_norm || self.attn_norm || self.ffn_norm || self.attn || self.ffn
    }

    /// Whether anything changes.
    pub open spec fn any(self) -> bool {
        self.deep() || self.head || self.bias
    }

    /// Every part.
    pub fn all() -> (mask: Self)
        ensures
            mask == (TrainScopeMask {
                embed: true,
                pre_norm: true,
                attn_norm: true,
                ffn_norm: true,
                attn: true,
                ffn: true,
                head: true,
                bias: true,
            }),
    {
        TrainScopeMask {
            embed: true,
            pre_norm: true,
            attn_norm: true,
            ffn_norm: true,
            attn: true,
            ffn: true,
            head: true,
            bias: true,
        }
    }

    /// Whether anything but the output layer changes.
    pub fn trains_non_head_params(&self) -> (yes: bool)
        ensures
            yes == self.deep(),
    {
        self.embed || self.pre_norm || self.attn_norm || self.ffn_norm || self.attn || self.ffn
    }

    /// Whether anything changes.
    pub fn trains_any_params(&self) -> (yes: bool)
        ensures
            yes == self.any(),
    {
        self.trains_non_head_params() || self.head || self.bias
    }
}

/// The output layer alone, or nothing.
pub open spec fn head_only(train: bool) -> TrainScopeMask {
    TrainScopeMask {
        embed: false,
        pre_norm: false,
        attn_norm: false,
        ffn_norm: false,
        attn: false,
        ffn: false,
        head: train,
        bias: train,
    }
}

/// The output layer alone, or nothing.
pub fn head_mask(train: bool) -> (mask: TrainScopeMask)
    ensures
        mask == head_only(train),
{
    TrainScopeMask {
        embed: false,
        pre_norm: false,
        attn_norm: false,
        ffn_norm: false,
        attn: false,
        ffn: false,
        head: train,
        bias: train,
    }
}

/// Whether a scope names a part.
pub open spec fn scope_includes(scope: ScopeModel, name: Seq<char>) -> bool {
    scope.all || scope.names.contains(name)
}

/// Parts that a scope names.
pub open spec fn mask_of(scope: ScopeModel) -> TrainScopeMask {
    TrainScopeMask {
        embed: scope_includes(scope, "embed"@),
        pre_norm: scope_includes(scope, "pre_norm"@),
        attn_norm: scope_includes(scope, "attn_norm"@),
        ffn_norm: scope_includes(scope, "ffn_norm"@),
        attn: scope_includes(scope, "attn"@),
        ffn: scope_includes(scope, "ffn"@),
        head: scope_includes(scope, "head"@),
        bias: scope_includes(scope, "bias"@),
    }
}

fn scope_has(scope: &TrainScopeSet, name: &str) -> (yes: bool)
    ensures
        yes == scope_includes(scope@, name@),
{
    if scope.all {
        return true;
    }
    let ghost names = policy_schedule::texts(scope.names@);
    let mut i: usize = 0;
    while i < scope.names.len()
        invariant
            i <= scope.names@.len(),
            names == policy_schedule::texts(scope.names@),
            forall|j: int| 0 <= j < i ==> names[j] != name@,
        decreases scope.names@.len() - i,
    {
        let here = chars_of(scope.names[i].as_str());
        if is_text(&here, name) {
            proof {
                assert(names[i as int] == name@);
            }
            return true;
        }
        proof {
            assert(names[i as int] == here@);
        }
        i += 1;
    }
    false
}

/// Parts that the scope of an action names.
pub fn scope_from_train_action(train: &TrainAction) -> (mask: TrainScopeMask)
    ensures
        mask == mask_of(train.scope@),
{
    if train.scope.all {
        return TrainScopeMask::all();
    }
    TrainScopeMask {
        embed: scope_has(&train.scope, "embed"),
        pre_norm: scope_has(&train.scope, "pre_norm"),
        attn_norm: scope_has(&train.scope, "attn_norm"),
        ffn_norm: scope_has(&train.scope, "ffn_norm"),
        attn: scope_has(&train.scope, "attn"),
        ffn: scope_has(&train.scope, "ffn"),
        head: scope_has(&train.scope, "head"),
        bias: scope_has(&train.scope, "bias"),
    }
}

/// What is asked of the actions of a schedule.
#[derive(Clone, Copy, Debug, PartialEq, Eq, Structural)]
pub enum ActionTest {
    /// Trains by Adam steps.
    Adam,
    /// Trains more than the output layer.
    FullTrace,
}

/// Whether an action passes.
pub open spec fn passes(test: ActionTest, action: ActionModel) -> bool {
    action matches ActionModel::Train(train) && match test {
        ActionTest::Adam => train.optimizer == OptimizerKind::Adam,
        ActionTest::FullTrace => mask_of(train.scope).deep(),
    }
}

/// Whether some action of a rule passes.
pub open spec fn rule_passes(test: ActionTest, rule: ScheduleModel) -> bool {
    match rule {
        ScheduleModel::Interval(interval) => passes(test, interval.action),
        ScheduleModel::Repeat(repeat) => exists|i: int|
            0 <= i < repeat.pattern.len() && passes(test, (#[trigger] repeat.pattern[i]).action),
    }
}

/// Whether some action of a schedule passes.
pub open spec fn policy_passes(test: ActionTest, policy: PolicyModel) -> bool {
    exists|i: int|
        0 <= i < policy.schedule.len() && rule_passes(test, #[trigger] policy.schedule[i])
}

fn action_passes(test: ActionTest, action: &PolicyAction) -> (yes: bool)
    ensures
        yes == passes(test, action@),
{
    match action {
        PolicyAction::Infer => false,
        PolicyAction::Train(train) => match test {
            ActionTest::Adam => match train.optimizer {
                OptimizerKind::Adam => true,
                OptimizerKind::Sgd => false,
            },
            ActionTest::FullTrace => scope_from_train_action(train).trains_non_head_params(),
        },
    }
}

fn any_action(test: ActionTest, policy: &LlmPolicy) -> (yes: bool)
    ensures
        yes == policy_passes(test, policy@),
{
    let mut i: usize = 0;
    while i < policy.schedule.len()
        invariant
            i <= policy.schedule@.len(),
            forall|j: int|
                0 <= j < i ==> !rule_passes(test, #[trigger] policy@.schedule[j]),
        decreases policy.schedule@.len() - i,
    {
        let rule = &policy.schedule[i];
        assert(policy@.schedule[i as int] == rule@);
        match rule {
            ScheduleRule::Interval(interval) => {
                if action_passes(test, &interval.action) {
                    return true;
                }
            },
            ScheduleRule::Repeat(repeat) => {
                let mut j: usize = 0;
                while j < repeat.pattern.len()
                    invariant
                        j <= repeat.pattern@.len(),
                        i < policy.schedule@.len(),
                        policy@.schedule[i as int] == ScheduleModel::Repeat(repeat@),
                        forall|k: int|
                            0 <= k < j ==> !passes(test, (#[trigger] repeat@.pattern[k]).action),
                    decreases repeat.pattern@.len() - j,
                {
                    assert(repeat@.pattern[j as int] == repeat.pattern@[j as int]@);
                    if action_passes(test, &repeat.pattern[j].action) {
                        return true;
                    }
                    j += 1;
                }
            },
        }
        i += 1;
    }
    false
}

/// Whether some action of the schedule trains by Adam steps.
pub fn policy_uses_adam(policy: &LlmPolicy) -> (yes: bool)
    ensures
        yes == policy_passes(ActionTest::Adam, policy@),
{
    any_action(ActionTest::Adam, policy)
}

/// Whether some action of the schedule trains more than the output layer.
pub fn policy_needs_full_trace(policy: &LlmPolicy) -> (yes: bool)
    ensures
        yes == policy_passes(ActionTest::FullTrace, policy@),
{
    any_action(ActionTest::FullTrace, policy)
}

/// Window that a full update uses.
pub open spec fn window_of(scope: TrainScopeMask, bptt: usize) -> usize {
    if scope.deep() && bptt <= 1 {
        DEFAULT_FULL_TBPTT_WINDOW
    } else if bptt == 0 {
        1
    } else {
        bptt
    }
}

/// Window that a full update uses.
pub fn effective_full_bptt(scope: TrainScopeMask, bptt: usize) -> (window: usize)
    ensures
        window == window_of(scope, bptt),
{
    if scope.trains_non_head_params() && bptt <= 1 {
        DEFAULT_FULL_TBPTT_WINDOW
    } else if bptt == 0 {
        1
    } else {
        bptt
    }
}

// ---------------------------------------------------------------------------------------
// Queue of tokens to train on
// ---------------------------------------------------------------------------------------

/// How a full update is made; numbers with a fraction by their bits.
#[derive(Clone, Copy, Debug, PartialEq, Eq, Structural)]
pub struct FullTrainSettings {
    pub optimizer: OptimizerKind,
    pub lr_bits: u32,
    pub scope: TrainScopeMask,
    pub bptt: usize,
    pub clip_bits: u32,
}

/// Tokens to train on, from a state of the network.
pub struct Trace<S> {
    /// State in front of the first token.
    pub start: S,
    /// Token and the symbol that came after it.
    pub steps: Vec<(u32, u8)>,
    /// How to train.
    pub settings: FullTrainSettings,
}

/// [`Trace`] as a mathematical object.
#[verifier::ext_equal]
pub struct TraceModel<S> {
    pub start: S,
    pub steps: Seq<(u32, u8)>,
    pub settings: FullTrainSettings,
}

impl<S> View for Trace<S> {
    type V = TraceModel<S>;

    open spec fn view(&self) -> TraceModel<S> {
        TraceModel { start: self.start, steps: self.steps@, settings: self.settings }
    }
}

/// Whether a trace is another one with a copy of its state.
pub open spec fn trace_copied<S: Clone>(from: TraceModel<S>, to: TraceModel<S>) -> bool {
    &&& cloned::<S>(from.start, to.start)
    &&& to.steps == from.steps
    &&& to.settings == from.settings
}

impl<S: Clone> Clone for Trace<S> {
    fn clone(&self) -> (copy: Self)
        ensures
            trace_copied(self@, copy@),
    {
        let mut steps: Vec<(u32, u8)> = Vec::new();
        let mut i: usize = 0;
        while i < self.steps.len()
            invariant
                i <= self.steps@.len(),
                steps@ == self.steps@.take(i as int),
            decreases self.steps@.len() - i,
        {
            steps.push(self.steps[i]);
            i += 1;
            assert(steps@ =~= self.steps@.take(i as int));
        }
        assert(steps@ =~= self.steps@);
        Trace { start: self.start.clone(), steps, settings: self.settings }
    }
}

/// Trace, if there is one, as a mathematical object.
pub open spec fn trace_model<S>(trace: Option<Trace<S>>) -> Option<TraceModel<S>> {
    match trace {
        Some(t) => Some(t@),
        None => None,
    }
}

/// Tokens that wait to be trained on.
pub struct TbpttQueue<S> {
    /// The last token, and the state in front of it.
    pub pending: Option<(u32, S)>,
    /// What has been gathered.
    pub open_trace: Option<Trace<S>>,
}

/// [`TbpttQueue`] as a mathematical object.
#[verifier::ext_equal]
pub struct QueueModel<S> {
    pub pending: Option<(u32, S)>,
    pub open_trace: Option<TraceModel<S>>,
}

impl<S> View for TbpttQueue<S> {
    type V = QueueModel<S>;

    open spec fn view(&self) -> QueueModel<S> {
        QueueModel { pending: self.pending, open_trace: trace_model(self.open_trace) }
    }
}

/// Whether a queue is another one with copies of its states.
pub open spec fn queue_copied<S: Clone>(from: QueueModel<S>, to: QueueModel<S>) -> bool {
    &&& match from.pending {
        Some((token, state)) => to.pending matches Some((t, s)) && t == token && cloned::<S>(state, s),
        None => to.pending is None,
    }
    &&& match from.open_trace {
        Some(trace) => to.open_trace matches Some(t) && trace_copied(trace, t),
        None => to.open_trace is None,
    }
}

impl<S: Clone> Clone for TbpttQueue<S> {
    fn clone(&self) -> (copy: Self)
        ensures
            queue_copied(self@, copy@),
    {
        let pending = match &self.pending {
            Some((token, state)) => Some((*token, state.clone())),
            None => None,
        };
        let open_trace = match &self.open_trace {
            Some(trace) => Some(trace.clone()),
            None => None,
        };
        TbpttQueue { pending, open_trace }
    }
}

/// Nothing waits.
pub open spec fn empty_queue<S>() -> QueueModel<S> {
    QueueModel { pending: None, open_trace: None }
}

/// Whether what has been gathered was gathered for another kind of update.
pub open spec fn is_stale<S>(q: QueueModel<S>, settings: FullTrainSettings) -> bool {
    q.open_trace matches Some(t) && t.settings != settings
}

/// What is gathered once the pending token is joined to its target.
pub open spec fn gathered<S>(
    q: QueueModel<S>,
    settings: FullTrainSettings,
    symbol: u8,
) -> TraceModel<S> {
    match q.open_trace {
        None => TraceModel {
            start: (q.pending->0).1,
            steps: seq![((q.pending->0).0, symbol)],
            settings,
        },
        Some(t) => TraceModel {
            start: t.start,
            steps: t.steps.push(((q.pending->0).0, symbol)),
            settings,
        },
    }
}

impl<S> TbpttQueue<S> {
    /// Nothing waits.
    pub fn new() -> (q: Self)
        ensures
            q@ == empty_queue::<S>(),
    {
        TbpttQueue { pending: None, open_trace: None }
    }

    /// Takes note of a token and of the state in front of it.
    pub fn record_input(&mut self, token: u32, pre_state: S)
        ensures
            final(self)@ == (QueueModel { pending: Some((token, pre_state)), ..old(self)@ }),
    {
        self.pending = Some((token, pre_state));
    }

    /// Drops everything.
    pub fn clear(&mut self)
        ensures
            final(self)@ == empty_queue::<S>(),
    {
        self.pending = None;
        self.open_trace = None;
    }

    /// Drops what has been gathered. The pending token stays, so that the first symbol of the new
    /// stream is trained on.
    pub fn prepare_stream(&mut self)
        ensures
            final(self)@ == (QueueModel { open_trace: None, ..old(self)@ }),
    {
        self.open_trace = None;
    }

    /// Drops the pending token.
    pub fn drop_pending(&mut self)
        ensures
            final(self)@ == (QueueModel { pending: None, ..old(self)@ }),
    {
        self.pending = None;
    }

    /// Takes out what has been gathered.
    pub fn take_trace(&mut self) -> (trace: Option<Trace<S>>)
        ensures
            trace_model(trace) == old(self)@.open_trace,
            final(self)@ == (QueueModel { open_trace: None, ..old(self)@ }),
    {
        self.open_trace.take()
    }

    /// Whether what has been gathered was gathered for another kind of update.
    pub fn is_stale_for(&self, settings: &FullTrainSettings) -> (yes: bool)
        ensures
            yes == is_stale(self@, *settings),
    {
        match &self.open_trace {
            Some(t) => t.settings != *settings,
            None => false,
        }
    }

    /// Joins the pending token to its target, and takes out what has been gathered once the window
    /// is full. Without a pending token nothing happens.
    pub fn enqueue(&mut self, settings: FullTrainSettings, symbol: u8) -> (trace: Option<Trace<S>>)
        ensures
            ({
                let now = gathered(old(self)@, settings, symbol);
                if old(self)@.pending is None {
                    trace is None && final(self)@ == old(self)@
                } else if now.steps.len() >= settings.bptt {
                    trace_model(trace) == Some(now) && final(self)@ == empty_queue::<S>()
                } else {
                    trace is None && final(self)@ == (QueueModel {
                        pending: None,
                        open_trace: Some(now),
                    })
                }
            }),
    {
        let ghost before = self@;
        let (token, pre_state) = match self.pending.take() {
            Some(x) => x,
            None => {
                return None;
            },
        };
        let trace = match self.open_trace.take() {
            None => {
                let mut steps: Vec<(u32, u8)> = Vec::new();
                steps.push((token, symbol));
                proof {
                    assert(steps@ =~= seq![(token, symbol)]);
                }
                Trace { start: pre_state, steps, settings }
            },
            Some(t) => {
                let mut steps = t.steps;
                steps.push((token, symbol));
                Trace { start: t.start, steps, settings }
            },
        };
        proof {
            assert(trace@ =~= gathered(before, settings, symbol));
        }
        if trace.steps.len() >= settings.bptt {
            return Some(trace);
        }
        self.open_trace = Some(trace);
        None
    }
}

/// Whether a full update by Adam steps still lacks its moments.
pub fn need_full_adam(settings: &FullTrainSettings, has_full_adam: bool) -> (yes: bool)
    ensures
        yes == (settings.optimizer == OptimizerKind::Adam && settings.scope.deep()
            && !has_full_adam),
{
    let adam: bool = match settings.optimizer {
        OptimizerKind::Adam => true,
        OptimizerKind::Sgd => false,
    };
    adam && settings.scope.trains_non_head_params() && !has_full_adam
}

} // verus!
