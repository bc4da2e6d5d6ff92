//! State of online training: counters, the schedule and the tokens that wait.

use vstd::prelude::*;
use crate::backends::rwkvzip::online;
use crate::backends::rwkvzip::method;
use crate::backends::policy_schedule;
use crate::backends::llm_policy;

use crate::backends::llm_policy::{policy_can_train, LlmPolicy, PolicyModel};
use crate::backends::policy_error::PolicyError;
use crate::backends::policy_schedule::{ActionModel, CompiledPolicy, OptimizerKind, PolicyAction, PolicyRuntime};
use crate::backends::rwkvzip::method::{ConfigModel, OnlineConfig, OnlineTrainMode};
use crate::backends::rwkvzip::online::{effective_full_bptt, head_mask, policy_needs_full_trace, policy_uses_adam, scope_from_train_action, ActionTest, FullTrainSettings, QueueModel, TbpttQueue, Trace, TrainScopeMask};
use crate::text::{chars_of, string_of};

verus! {

/// State of online training. `S` is a state of the network.
pub struct OnlineRuntime<S> {
    /// Shape and training.
    pub cfg: OnlineConfig,
    /// Method that stands for the compressor.
    pub canonical_method: String,
    /// Schedule.
    pub policy: Option<LlmPolicy>,
    /// Position in the schedule.
    pub policy_runtime: Option<PolicyRuntime>,
    /// Whether the schedule may train more than the output layer.
    pub needs_full_trace: bool,
    /// Symbols of the stream, where known.
    pub policy_stream_total: Option<u64>,
    /// Training steps of the stream.
    pub policy_train_steps: u64,
    /// Symbols that were seen.
    pub tokens_processed: u64,
    /// Tokens that wait to be trained on.
    pub full_tbptt: Option<TbpttQueue<S>>,
}

/// [`OnlineRuntime`] as a mathematical object.
#[verifier::ext_equal]
pub struct OnlineModel<S> {
    pub cfg: ConfigModel,
    pub canonical_method: Seq<char>,
    pub policy: Option<PolicyModel>,
    pub schedule: Option<(CompiledPolicy, u64)>,
    pub needs_full_trace: bool,
    pub policy_stream_total: Option<u64>,
    pub policy_train_steps: u64,
    pub tokens_processed: u64,
    pub full_tbptt: Option<QueueModel<S>>,
}

impl<S> View for OnlineRuntime<S> {
    type V = OnlineModel<S>;

    open spec fn view(&self) -> OnlineModel<S> {
        OnlineModel {
            cfg: self.cfg@,
            canonical_method: self.canonical_method@,
            policy: method::policy_model(self.policy),
            schedule: match self.policy_runtime {
                Some(rt) => Some((rt.policy(), rt.at())),
                None => None,
            },
            needs_full_trace: self.needs_full_trace,
            policy_stream_total: self.policy_stream_total,
            policy_train_steps: self.policy_train_steps,
            tokens_processed: self.tokens_processed,
            full_tbptt: match self.full_tbptt {
                Some(q) => Some(q@),
                None => None,
            },
        }
    }
}

impl<S: Clone> Clone for OnlineRuntime<S> {
    fn clone(&self) -> (copy: Self)
        ensures
            copy@.cfg == self@.cfg,
            copy@.canonical_method == self@.canonical_method,
            copy@.policy == self@.policy,
            match self@.schedule {
                Some((compiled, at)) => copy@.schedule matches Some((c, a)) && a == at
                    && policy_schedule::compiled_rules(c.spec_rules()) == policy_schedule::compiled_rules(compiled.spec_rules()),
                None => copy@.schedule is None,
            },
            copy@.needs_full_trace == self@.needs_full_trace,
            copy@.policy_stream_total == self@.policy_stream_total,
            copy@.policy_train_steps == self@.policy_train_steps,
            copy@.tokens_processed == self@.tokens_processed,
            match self@.full_tbptt {
                Some(q) => copy@.full_tbptt matches Some(c) && online::queue_copied(q, c),
                None => copy@.full_tbptt is None,
            },
    {
        OnlineRuntime {
            cfg: self.cfg.clone(),
            canonical_method: self.canonical_method.clone(),
            policy: match &self.policy {
                Some(p) => Some(p.clone()),
                None => None,
            },
            policy_runtime: match &self.policy_runtime {
                Some(rt) => Some(rt.clone()),
                None => None,
            },
            needs_full_trace: self.needs_full_trace,
            policy_stream_total: self.policy_stream_total,
            policy_train_steps: self.policy_train_steps,
            tokens_processed: self.tokens_processed,
            full_tbptt: match &self.full_tbptt {
                Some(q) => Some(q.clone()),
                None => None,
            },
        }
    }
}

/// Whether the schedule may train more than the output layer.
pub open spec fn traces(policy: Option<PolicyModel>) -> bool {
    policy matches Some(p) && online::policy_passes(ActionTest::FullTrace, p)
}

/// State of a fresh compressor.
pub open spec fn fresh_online<S>(
    cfg: ConfigModel,
    method: Seq<char>,
    policy: Option<PolicyModel>,
) -> OnlineModel<S> {
    OnlineModel {
        cfg,
        canonical_method: method,
        policy,
        schedule: None,
        needs_full_trace: traces(policy),
        policy_stream_total: None,
        policy_train_steps: 0,
        tokens_processed: 0,
        full_tbptt: if traces(policy) {
            Some(online::empty_queue::<S>())
        } else {
            None
        },
    }
}

/// State when a stream begins.
pub open spec fn stream_begun<S>(m: OnlineModel<S>, total: Option<u64>) -> OnlineModel<S> {
    OnlineModel {
        policy_stream_total: total,
        policy_train_steps: 0,
        full_tbptt: match m.full_tbptt {
            Some(q) => Some(QueueModel { open_trace: None, ..q }),
            None => None,
        },
        ..m
    }
}

/// State and result when a stream begins.
pub open spec fn prepared<S>(
    before: OnlineModel<S>,
    after: OnlineModel<S>,
    total: Option<u64>,
    result: Result<(), PolicyError>,
) -> bool {
    let begun = stream_begun(before, total);
    match before.policy {
        None => result is Ok && after == (OnlineModel { schedule: None, ..begun }),
        Some(p) => match llm_policy::compiled_for(p.schedule, total) {
            Err(e) => result matches Err(error) && error@ == e && after == begun,
            Ok(rules) => result is Ok && after.schedule is Some && after == (OnlineModel {
                schedule: after.schedule,
                ..begun
            }) && policy_schedule::compiled_rules((after.schedule->0).0.spec_rules()) == rules && (
            after.schedule->0).1 == 0,
        },
    }
}

/// One more, unless that is too many.
pub open spec fn one_more(n: u64) -> u64 {
    if n < u64::MAX {
        (n + 1) as u64
    } else {
        u64::MAX
    }
}

/// How one symbol is trained on.
pub struct TrainStep {
    pub optimizer: OptimizerKind,
    /// Learning rate; below zero counts as zero.
    pub lr: String,
    /// Training steps per update.
    pub stride: u64,
    pub scope: TrainScopeMask,
    pub bptt: usize,
    /// Largest gradient; below zero counts as zero.
    pub clip: String,
}

/// [`TrainStep`] as a mathematical object.
#[verifier::ext_equal]
pub struct StepModel {
    pub optimizer: OptimizerKind,
    pub lr: Seq<char>,
    pub stride: nat,
    pub scope: TrainScopeMask,
    pub bptt: nat,
    pub clip: Seq<char>,
}

impl View for TrainStep {
    type V = StepModel;

    open spec fn view(&self) -> StepModel {
        StepModel {
            optimizer: self.optimizer,
            lr: self.lr@,
            stride: self.stride as nat,
            scope: self.scope,
            bptt: self.bptt as nat,
            clip: self.clip@,
        }
    }
}

/// How a symbol is trained on where no schedule decides.
pub open spec fn default_step(cfg: ConfigModel) -> StepModel {
    StepModel {
        optimizer: if cfg.train_mode == OnlineTrainMode::Adam {
            OptimizerKind::Adam
        } else {
            OptimizerKind::Sgd
        },
        lr: cfg.lr,
        stride: if cfg.stride == 0 {
            1
        } else {
            cfg.stride
        },
        scope: online::head_only(cfg.train_mode != OnlineTrainMode::Off),
        bptt: 1,
        clip: "0"@,
    }
}

/// How a symbol is trained on when a schedule asks for `action`.
pub open spec fn step_for(cfg: ConfigModel, action: Option<ActionModel>) -> StepModel {
    match action {
        None => default_step(cfg),
        Some(ActionModel::Infer) => StepModel { scope: online::head_only(false), ..default_step(cfg) },
        Some(ActionModel::Train(train)) => StepModel {
            optimizer: train.optimizer,
            lr: train.hyper.lr,
            stride: if train.hyper.stride == 0 {
                1
            } else {
                train.hyper.stride
            },
            scope: online::mask_of(train.scope),
            bptt: if train.hyper.bptt == 0 {
                1
            } else {
                train.hyper.bptt
            },
            clip: train.hyper.clip,
        },
    }
}

/// What is done for one symbol.
#[derive(Clone, Copy, Debug, PartialEq, Eq, Structural)]
pub enum UpdatePlan {
    /// Nothing is trained.
    Skip,
    /// The output layer is trained.
    Head,
    /// The token joins those that wait for a full update.
    Full(FullTrainSettings),
}

/// A full update is asked of a compressor that keeps no trace.
#[derive(Clone, Copy, Debug, PartialEq, Eq, Structural)]
pub struct NoTrace;

impl NoTrace {
    /// What to tell the user.
    pub fn message(&self) -> (text: String)
        ensures
            text@
                == "rwkv full-parameter online training requires trace-enabled tbptt runtime"@,
    {
        "rwkv full-parameter online training requires trace-enabled tbptt runtime".to_string()
    }
}

/// What is done for a symbol; the learning rate and the largest gradient by their bits.
pub fn plan_update(step: &TrainStep, hit: bool, lr_zero: bool, lr_bits: u32, clip_bits: u32) -> (plan:
    UpdatePlan)
    ensures
        plan == (if !step.scope.any() || !hit || lr_zero {
            UpdatePlan::Skip
        } else if !step.scope.deep() {
            UpdatePlan::Head
        } else {
            UpdatePlan::Full(
                FullTrainSettings {
                    optimizer: step.optimizer,
                    lr_bits,
                    scope: step.scope,
                    bptt: online::window_of(step.scope, step.bptt),
                    clip_bits,
                },
            )
        }),
{
    if !step.scope.trains_any_params() || !hit || lr_zero {
        return UpdatePlan::Skip;
    }
    if !step.scope.trains_non_head_params() {
        return UpdatePlan::Head;
    }
    UpdatePlan::Full(
        FullTrainSettings {
            optimizer: step.optimizer,
            lr_bits,
            scope: step.scope,
            bptt: effective_full_bptt(step.scope, step.bptt),
            clip_bits,
        },
    )
}

impl<S> OnlineRuntime<S> {
    /// State of a fresh compressor.
    pub fn new(cfg: OnlineConfig, canonical_method: String, policy: Option<LlmPolicy>) -> (rt: Self)
        ensures
            rt@ == fresh_online::<S>(cfg@, canonical_method@, method::policy_model(policy)),
    {
        let needs_full_trace: bool = match &policy {
            Some(p) => policy_needs_full_trace(p),
            None => false,
        };
        let full_tbptt = if needs_full_trace {
            Some(TbpttQueue::new())
        } else {
            None
        };
        OnlineRuntime {
            cfg,
            canonical_method,
            policy,
            policy_runtime: None,
            needs_full_trace,
            policy_stream_total: None,
            policy_train_steps: 0,
            tokens_processed: 0,
            full_tbptt,
        }
    }

    /// Whether the moments of Adam are kept from the start.
    pub fn starts_with_adam(&self) -> (yes: bool)
        ensures
            yes == (self@.cfg.train_mode == OnlineTrainMode::Adam || (self@.policy matches Some(p)
                && online::policy_passes(ActionTest::Adam, p))),
    {
        let by_policy: bool = match &self.policy {
            Some(p) => policy_uses_adam(p),
            None => false,
        };
        by_policy || self.cfg.train_mode == OnlineTrainMode::Adam
    }

    /// Puts a schedule in the place of the one in use.
    pub fn adopt_policy(&mut self, canonical_method: String, policy: LlmPolicy)
        ensures
            final(self)@ == (OnlineModel {
                canonical_method: canonical_method@,
                policy: Some(policy@),
                needs_full_trace: traces(Some(policy@)),
                ..old(self)@
            }),
    {
        self.needs_full_trace = policy_needs_full_trace(&policy);
        self.canonical_method = canonical_method;
        self.policy = Some(policy);
    }

    /// Whether anything can be learned.
    pub fn can_adapt_online(&self) -> (yes: bool)
        ensures
            yes == match self@.policy {
                Some(p) => exists|i: int|
                    0 <= i < p.schedule.len() && llm_policy::rule_can_train(#[trigger] p.schedule[i]),
                None => self@.cfg.train_mode != OnlineTrainMode::Off,
            },
    {
        match &self.policy {
            Some(p) => policy_can_train(p),
            None => self.cfg.train_mode != OnlineTrainMode::Off,
        }
    }

    /// Begins a stream.
    pub fn prepare_policy_stream(&mut self, total_symbols: Option<u64>) -> (result: Result<
        (),
        PolicyError,
    >)
        ensures
            prepared(old(self)@, final(self)@, total_symbols, result),
    {
        self.policy_stream_total = total_symbols;
        self.policy_train_steps = 0;
        match &mut self.full_tbptt {
            Some(q) => {
                q.prepare_stream();
            },
            None => {},
        }
        let compiled = match &self.policy {
            Some(p) => match p.compile(total_symbols) {
                Ok(c) => Some(PolicyRuntime::new(c)),
                Err(e) => {
                    return Err(e);
                },
            },
            None => None,
        };
        self.policy_runtime = compiled;
        Ok(())
    }

    /// Action of the schedule for the next symbol.
    pub fn next_policy_action(&mut self) -> (result: Result<Option<PolicyAction>, PolicyError>)
        ensures
            next_action_ok(old(self)@, final(self)@, result),
    {
        if self.policy.is_none() {
            return Ok(None);
        }
        if self.policy_runtime.is_none() {
            match self.prepare_policy_stream(None) {
                Ok(u) => {},
                Err(e) => {
                    return Err(e);
                },
            }
        }
        match &mut self.policy_runtime {
            Some(rt) => Ok(Some(rt.next_action())),
            None => Ok(None),
        }
    }

    /// How the next symbol is trained on, and whether it is this symbol's turn.
    pub fn begin_update(&mut self) -> (result: Result<(TrainStep, bool), PolicyError>)
        ensures
            ({
                let counted = OnlineModel {
                    tokens_processed: one_more(old(self)@.tokens_processed),
                    ..old(self)@
                };
                exists|mid: OnlineModel<S>, action: Result<Option<PolicyAction>, PolicyError>| #[trigger]
                    next_action_ok(counted, mid, action) && match action {
                        Err(e) => result matches Err(error) && error == e && final(self)@ == mid,
                        Ok(a) => result matches Ok((step, hit)) && {
                            let steps = one_more(mid.policy_train_steps);
                            &&& step@ == step_for(counted.cfg, match a {
                                Some(x) => Some(x@),
                                None => None,
                            })
                            &&& step.stride >= 1
                            &&& hit == (step.scope.any() && steps as int % step.stride as int == 0)
                            &&& final(self)@ == if step.scope.any() {
                                OnlineModel { policy_train_steps: steps, ..mid }
                            } else {
                                mid
                            }
                        },
                    }
            }),
    {
        self.tokens_processed = self.tokens_processed.saturating_add(1);
        let ghost counted = self@;
        let action = self.next_policy_action();
        let ghost mid = self@;
        proof {
            assert(counted =~= OnlineModel {
                tokens_processed: one_more(old(self)@.tokens_processed),
                ..old(self)@
            });
            assert(next_action_ok(counted, mid, action));
            assert(mid.cfg == counted.cfg);
        }
        let taken = match action {
            Ok(a) => a,
            Err(e) => {
                return Err(e);
            },
        };
        let train: bool = self.cfg.train_mode != OnlineTrainMode::Off;
        let step = match &taken {
            Some(PolicyAction::Train(t)) => TrainStep {
                optimizer: t.optimizer,
                lr: string_of(chars_of(t.hyper.lr.as_str()).as_slice()),
                stride: if t.hyper.stride == 0 {
                    1
                } else {
                    t.hyper.stride as u64
                },
                scope: scope_from_train_action(t),
                bptt: if t.hyper.bptt == 0 {
                    1
                } else {
                    t.hyper.bptt
                },
                clip: string_of(chars_of(t.hyper.clip.as_str()).as_slice()),
            },
            Some(PolicyAction::Infer) => self.default_train_step(false),
            None => self.default_train_step(train),
        };
        proof {
            assert(step@ =~= step_for(counted.cfg, match taken {
                Some(x) => Some(x@),
                None => None,
            }));
        }
        let mut hit: bool = false;
        if step.scope.trains_any_params() {
            self.policy_train_steps = self.policy_train_steps.saturating_add(1);
            hit = step.stride <= 1 || self.policy_train_steps % step.stride == 0;
            proof {
                if step.stride == 1 {
                    assert(self.policy_train_steps as int % 1 == 0);
                }
            }
        }
        Ok((step, hit))
    }

    fn default_train_step(&self, train: bool) -> (step: TrainStep)
        ensures
            step@ == (StepModel { scope: online::head_only(train), ..default_step(self@.cfg) }),
    {
        TrainStep {
            optimizer: if self.cfg.train_mode == OnlineTrainMode::Adam {
                OptimizerKind::Adam
            } else {
                OptimizerKind::Sgd
            },
            lr: string_of(chars_of(self.cfg.lr.as_str()).as_slice()),
            stride: if self.cfg.stride == 0 {
                1
            } else {
                self.cfg.stride as u64
            },
            scope: head_mask(train),
            bptt: 1,
            clip: "0".to_string(),
        }
    }

    /// What has to be trained before the plan is carried out.
    pub fn before_update(&mut self, plan: &UpdatePlan) -> (result: Result<Option<Trace<S>>, NoTrace>)
        ensures
            match old(self)@.full_tbptt {
                None => final(self)@ == old(self)@ && if plan is Full {
                    result is Err
                } else {
                    result matches Ok(t) && t is None
                },
                Some(q) => if *plan matches UpdatePlan::Full(settings) && !online::is_stale(q, settings) {
                    (result matches Ok(t) && t is None) && final(self)@ == old(self)@
                } else {
                    result matches Ok(t) && online::trace_model(t) == q.open_trace && final(self)@ == (
                    OnlineModel {
                        full_tbptt: Some(QueueModel { open_trace: None, ..q }),
                        ..old(self)@
                    })
                },
            },
    {
        match &mut self.full_tbptt {
            None => match plan {
                UpdatePlan::Full(_) => Err(NoTrace),
                _ => Ok(None),
            },
            Some(q) => match plan {
                UpdatePlan::Full(settings) => if q.is_stale_for(settings) {
                    Ok(q.take_trace())
                } else {
                    Ok(None)
                },
                _ => Ok(q.take_trace()),
            },
        }
    }

    /// Carries the plan out for the tokens that wait, and says what has to be trained then.
    pub fn after_update(&mut self, plan: &UpdatePlan, symbol: u8) -> (trace: Option<Trace<S>>)
        ensures
            match old(self)@.full_tbptt {
                None => trace is None && final(self)@ == old(self)@,
                Some(q) => match *plan {
                    UpdatePlan::Full(settings) => {
                        let now = online::gathered(q, settings, symbol);
                        if q.pending is None {
                            trace is None && final(self)@ == old(self)@
                        } else if now.steps.len() >= settings.bptt {
                            online::trace_model(trace) == Some(now) && final(self)@ == (OnlineModel {
                                full_tbptt: Some(online::empty_queue::<S>()),
                                ..old(self)@
                            })
                        } else {
                            trace is None && final(self)@ == (OnlineModel {
                                full_tbptt: Some(
                                    QueueModel { pending: None, open_trace: Some(now) },
                                ),
                                ..old(self)@
                            })
                        }
                    },
                    _ => trace is None && final(self)@ == (OnlineModel {
                        full_tbptt: Some(QueueModel { pending: None, ..q }),
                        ..old(self)@
                    }),
                },
            },
    {
        match &mut self.full_tbptt {
            None => None,
            Some(q) => match plan {
                UpdatePlan::Full(settings) => q.enqueue(*settings, symbol),
                _ => {
                    q.drop_pending();
                    None
                },
            },
        }
    }

    /// What is left to train when a stream ends.
    pub fn finish_stream(&mut self) -> (trace: Option<Trace<S>>)
        ensures
            match old(self)@.full_tbptt {
                None => trace is None && final(self)@ == old(self)@,
                Some(q) => online::trace_model(trace) == q.open_trace && final(self)@ == (OnlineModel {
                    full_tbptt: Some(QueueModel { open_trace: None, ..q }),
                    ..old(self)@
                }),
            },
    {
        match &mut self.full_tbptt {
            None => None,
            Some(q) => q.take_trace(),
        }
    }

    /// Drops the tokens that wait.
    pub fn clear_training_buffers(&mut self)
        ensures
            final(self)@ == (OnlineModel {
                full_tbptt: match old(self)@.full_tbptt {
                    Some(q) => Some(online::empty_queue::<S>()),
                    None => None,
                },
                ..old(self)@
            }),
    {
        match &mut self.full_tbptt {
            None => {},
            Some(q) => {
                q.clear();
            },
        }
    }

    /// Takes note of a token and of the state in front of it.
    pub fn record_input(&mut self, token: u32, pre_state: S)
        ensures
            final(self)@ == (OnlineModel {
                full_tbptt: match old(self)@.full_tbptt {
                    Some(q) => Some(QueueModel { pending: Some((token, pre_state)), ..q }),
                    None => None,
                },
                ..old(self)@
            }),
    {
        match &mut self.full_tbptt {
            None => {},
            Some(q) => {
                q.record_input(token, pre_state);
            },
        }
    }
}

/// State and result when the schedule is asked for its next action.
pub open spec fn next_action_ok<S>(
    before: OnlineModel<S>,
    after: OnlineModel<S>,
    result: Result<Option<PolicyAction>, PolicyError>,
) -> bool {
    match before.policy {
        None => (result matches Ok(a) && a is None) && after == before,
        Some(p) => match before.schedule {
            Some((compiled, at)) => walked(before, compiled, at, after, result),
            None => match llm_policy::compiled_for(p.schedule, None) {
                Err(e) => (result matches Err(error) && error@ == e) && after == stream_begun(
                    before,
                    None,
                ),
                Ok(rules) => after.schedule matches Some((compiled, at)) && policy_schedule::compiled_rules(
                    compiled.spec_rules(),
                ) == rules && walked(stream_begun(before, None), compiled, 0, after, result),
            },
        },
    }
}

/// One step along the schedule.
pub open spec fn walked<S>(
    before: OnlineModel<S>,
    compiled: CompiledPolicy,
    at: u64,
    after: OnlineModel<S>,
    result: Result<Option<PolicyAction>, PolicyError>,
) -> bool {
    &&& result matches Ok(Some(action)) && action@ == compiled.asks(at as int)@
    &&& after == (OnlineModel { schedule: Some((compiled, one_more(at))), ..before })
}

} // verus!
