//! What is kept beside the weights so that online training can go on.

use vstd::prelude::*;
use crate::text_forms;
use crate::backends::policy_laws;
use crate::backends::policy_forms;
use crate::text;
use crate::backends::rwkvzip::runtime;
use crate::backends::rwkvzip::method;
use crate::backends::llm_policy;

use crate::backends::llm_policy::{parse_policy_segment, PolicyModel};
use crate::backends::policy_error::{ErrorModel, PolicyError};
use crate::backends::rwkvzip::method::{parse_train_mode_token, rwkv_scope_list, train_mode_name, ConfigModel, OnlineConfig, OnlineTrainMode};
use crate::backends::rwkvzip::runtime::{OnlineModel, OnlineRuntime};
use crate::text::{chars_of, push_text, string_of};

verus! {

/// Values of a sidecar, each where it is there.
pub struct SidecarFields {
    pub method: Option<String>,
    pub policy: Option<String>,
    pub policy_cursor: Option<u64>,
    pub policy_stream_total: Option<u64>,
    pub policy_train_steps: Option<u64>,
    pub training_mode: Option<String>,
    pub tokens_processed: Option<u64>,
    /// Steps of Adam on the output layer.
    pub adam_t: Option<u64>,
    pub has_full_adam: Option<bool>,
    /// Whether there is an output bias: without one nothing is resumed.
    pub has_output_bias: bool,
    pub hidden: Option<u64>,
    pub layers: Option<u64>,
    pub intermediate: Option<u64>,
    pub decay_rank: Option<u64>,
    pub a_rank: Option<u64>,
    pub v_rank: Option<u64>,
    pub g_rank: Option<u64>,
    pub seed: Option<u64>,
    pub lr: Option<String>,
    pub stride: Option<u64>,
}

/// [`SidecarFields`] as a mathematical object.
#[verifier::ext_equal]
pub struct SidecarModel {
    pub method: Option<Seq<char>>,
    pub policy: Option<Seq<char>>,
    pub policy_cursor: Option<u64>,
    pub policy_stream_total: Option<u64>,
    pub policy_train_steps: Option<u64>,
    pub training_mode: Option<Seq<char>>,
    pub tokens_processed: Option<u64>,
    pub adam_t: Option<u64>,
    pub has_full_adam: Option<bool>,
    pub has_output_bias: bool,
    pub hidden: Option<u64>,
    pub layers: Option<u64>,
    pub intermediate: Option<u64>,
    pub decay_rank: Option<u64>,
    pub a_rank: Option<u64>,
    pub v_rank: Option<u64>,
    pub g_rank: Option<u64>,
    pub seed: Option<u64>,
    pub lr: Option<Seq<char>>,
    pub stride: Option<u64>,
}

/// Text, if there is one.
pub open spec fn text_model(text: Option<String>) -> Option<Seq<char>> {
    match text {
        Some(t) => Some(t@),
        None => None,
    }
}

impl View for SidecarFields {
    type V = SidecarModel;

    open spec fn view(&self) -> SidecarModel {
        SidecarModel {
            method: text_model(self.method),
            policy: text_model(self.policy),
            policy_cursor: self.policy_cursor,
            policy_stream_total: self.policy_stream_total,
            policy_train_steps: self.policy_train_steps,
            training_mode: text_model(self.training_mode),
            tokens_processed: self.tokens_processed,
            adam_t: self.adam_t,
            has_full_adam: self.has_full_adam,
            has_output_bias: self.has_output_bias,
            hidden: self.hidden,
            layers: self.layers,
            intermediate: self.intermediate,
            decay_rank: self.decay_rank,
            a_rank: self.a_rank,
            v_rank: self.v_rank,
            g_rank: self.g_rank,
            seed: self.seed,
            lr: text_model(self.lr),
            stride: self.stride,
        }
    }
}

/// Size that a sidecar gives, or the one that holds without.
pub open spec fn size_or(value: Option<u64>, fallback: nat) -> nat {
    match value {
        Some(x) => (x as usize) as nat,
        None => fallback,
    }
}

/// Number that a sidecar gives, or zero.
pub open spec fn number_or_zero(value: Option<u64>) -> u64 {
    match value {
        Some(x) => x,
        None => 0,
    }
}

/// Training mode that a sidecar gives.
pub open spec fn resumed_mode(text: Option<Seq<char>>) -> OnlineTrainMode {
    match text {
        None => OnlineTrainMode::Off,
        Some(t) => match method::train_mode_of(t) {
            Ok(mode) => mode,
            Err(_) => OnlineTrainMode::Off,
        },
    }
}

/// Configuration that a sidecar gives.
pub open spec fn resumed_config(f: SidecarModel) -> ConfigModel {
    let d = method::default_config();
    ConfigModel {
        hidden: size_or(f.hidden, d.hidden),
        layers: size_or(f.layers, d.layers),
        intermediate: size_or(f.intermediate, d.intermediate),
        decay_rank: size_or(f.decay_rank, d.decay_rank),
        a_rank: size_or(f.a_rank, d.a_rank),
        v_rank: size_or(f.v_rank, d.v_rank),
        g_rank: size_or(f.g_rank, d.g_rank),
        seed: match f.seed {
            Some(x) => x as nat,
            None => d.seed,
        },
        train_mode: resumed_mode(f.training_mode),
        lr: match f.lr {
            Some(t) => t,
            None => d.lr,
        },
        stride: if size_or(f.stride, d.stride) == 0 {
            1
        } else {
            size_or(f.stride, d.stride)
        },
    }
}

/// Schedule that a sidecar gives.
pub open spec fn resumed_policy(text: Option<Seq<char>>) -> Option<PolicyModel> {
    match text {
        None => None,
        Some(t) => match llm_policy::policy_of(t, method::rwkv_scopes()) {
            Ok(p) => Some(p),
            Err(_) => None,
        },
    }
}

/// State that a sidecar gives.
pub open spec fn resumed<S>(f: SidecarModel, default_method: Seq<char>) -> OnlineModel<S> {
    let fresh = runtime::fresh_online::<S>(
        resumed_config(f),
        match f.method {
            Some(m) => m,
            None => default_method,
        },
        resumed_policy(f.policy),
    );
    OnlineModel {
        policy_stream_total: f.policy_stream_total,
        policy_train_steps: number_or_zero(f.policy_train_steps),
        tokens_processed: number_or_zero(f.tokens_processed),
        ..fresh
    }
}

/// What a sidecar holds of a state.
pub open spec fn sidecar_of<S>(m: OnlineModel<S>, has_full_adam: bool, adam_t: u64) -> SidecarModel {
    SidecarModel {
        method: Some(m.canonical_method),
        policy: match m.policy {
            Some(p) => Some(llm_policy::policy_text(p)),
            None => None,
        },
        policy_cursor: Some(match m.schedule {
            Some((compiled, at)) => at,
            None => 0,
        }),
        policy_stream_total: m.policy_stream_total,
        policy_train_steps: Some(m.policy_train_steps),
        training_mode: Some(method::train_mode_text(m.cfg.train_mode)),
        tokens_processed: Some(m.tokens_processed),
        adam_t: Some(adam_t),
        has_full_adam: Some(has_full_adam),
        has_output_bias: true,
        hidden: Some(m.cfg.hidden as u64),
        layers: Some(m.cfg.layers as u64),
        intermediate: Some(m.cfg.intermediate as u64),
        decay_rank: Some(m.cfg.decay_rank as u64),
        a_rank: Some(m.cfg.a_rank as u64),
        v_rank: Some(m.cfg.v_rank as u64),
        g_rank: Some(m.cfg.g_rank as u64),
        seed: Some(m.cfg.seed as u64),
        lr: Some(m.cfg.lr),
        stride: Some(if m.cfg.stride == 0 {
            1u64
        } else {
            m.cfg.stride as u64
        }),
    }
}

/// The moments of Adam that a sidecar speaks of are missing.
#[derive(Debug)]
pub struct MissingMoments {
    /// Path where they should be.
    pub path: String,
}

impl MissingMoments {
    /// What to tell the user.
    pub fn message(&self) -> (text: String)
        ensures
            text@ == "missing optimizer sidecar '"@ + self.path@
                + "' required for exact online resume"@,
    {
        let mut out: Vec<char> = Vec::new();
        push_text(&mut out, "missing optimizer sidecar '");
        push_text(&mut out, self.path.as_str());
        push_text(&mut out, "' required for exact online resume");
        proof {
            assert(out@ =~= "missing optimizer sidecar '"@ + self.path@
                + "' required for exact online resume"@);
        }
        string_of(&out)
    }
}

fn sized(value: Option<u64>, fallback: usize) -> (n: usize)
    ensures
        n == size_or(value, fallback as nat),
{
    match value {
        Some(x) => x as usize,
        None => fallback,
    }
}

fn or_zero(value: Option<u64>) -> (n: u64)
    ensures
        n == number_or_zero(value),
{
    match value {
        Some(x) => x,
        None => 0,
    }
}

impl SidecarFields {
    fn config(&self) -> (cfg: OnlineConfig)
        ensures
            cfg@ == resumed_config(self@),
    {
        let d = OnlineConfig::default();
        let mode = match &self.training_mode {
            None => OnlineTrainMode::Off,
            Some(t) => {
                let chars = chars_of(t.as_str());
                match parse_train_mode_token(&chars) {
                    Ok(mode) => mode,
                    Err(_) => OnlineTrainMode::Off,
                }
            },
        };
        let lr = match &self.lr {
            Some(t) => string_of(chars_of(t.as_str()).as_slice()),
            None => d.lr,
        };
        let stride: usize = sized(self.stride, d.stride);
        OnlineConfig {
            hidden: sized(self.hidden, d.hidden),
            layers: sized(self.layers, d.layers),
            intermediate: sized(self.intermediate, d.intermediate),
            decay_rank: sized(self.decay_rank, d.decay_rank),
            a_rank: sized(self.a_rank, d.a_rank),
            v_rank: sized(self.v_rank, d.v_rank),
            g_rank: sized(self.g_rank, d.g_rank),
            seed: match self.seed {
                Some(x) => x,
                None => d.seed,
            },
            train_mode: mode,
            lr,
            stride: if stride == 0 {
                1
            } else {
                stride
            },
        }
    }

    /// State that the sidecar gives: none without an output bias, and none where it speaks of
    /// moments of Adam that are not there.
    pub fn resume<S>(
        &self,
        default_method: &str,
        moments_present: bool,
        moments_path: &str,
    ) -> (result: Result<Option<OnlineRuntime<S>>, MissingMoments>)
        ensures
            if !self@.has_output_bias {
                result matches Ok(rt) && rt is None
            } else if !moments_present && self@.has_full_adam == Some(true) {
                result matches Err(e) && e.path@ == moments_path@
            } else {
                result matches Ok(Some(rt)) && rt@ == resumed::<S>(self@, default_method@)
            },
    {
        if !self.has_output_bias {
            return Ok(None);
        }
        let named: bool = match self.has_full_adam {
            Some(x) => x,
            None => false,
        };
        if !moments_present && named {
            return Err(MissingMoments { path: moments_path.to_string() });
        }
        let method = match &self.method {
            Some(m) => string_of(chars_of(m.as_str()).as_slice()),
            None => default_method.to_string(),
        };
        let names = rwkv_scope_list();
        let policy = match &self.policy {
            None => None,
            Some(t) => match parse_policy_segment(t.as_str(), names.as_slice()) {
                Ok(p) => Some(p),
                Err(_) => None,
            },
        };
        let mut rt = OnlineRuntime::<S>::new(self.config(), method, policy);
        rt.policy_stream_total = self.policy_stream_total;
        rt.policy_train_steps = or_zero(self.policy_train_steps);
        rt.tokens_processed = or_zero(self.tokens_processed);
        Ok(Some(rt))
    }
}

impl<S> OnlineRuntime<S> {
    /// What a sidecar holds of the state, after `adam_t` steps of Adam on the output layer.
    pub fn sidecar(&self, has_full_adam: bool, adam_t: u64) -> (fields: SidecarFields)
        ensures
            fields@ == sidecar_of(self@, has_full_adam, adam_t),
    {
        let policy = match &self.policy {
            Some(p) => Some(p.canonical()),
            None => None,
        };
        let cursor: u64 = match &self.policy_runtime {
            Some(rt) => rt.cursor(),
            None => 0,
        };
        let stride: u64 = if self.cfg.stride == 0 {
            1
        } else {
            self.cfg.stride as u64
        };
        SidecarFields {
            method: Some(string_of(chars_of(self.canonical_method.as_str()).as_slice())),
            policy,
            policy_cursor: Some(cursor),
            policy_stream_total: self.policy_stream_total,
            policy_train_steps: Some(self.policy_train_steps),
            training_mode: Some(train_mode_name(self.cfg.train_mode).to_string()),
            tokens_processed: Some(self.tokens_processed),
            adam_t: Some(adam_t),
            has_full_adam: Some(has_full_adam),
            has_output_bias: true,
            hidden: Some(self.cfg.hidden as u64),
            layers: Some(self.cfg.layers as u64),
            intermediate: Some(self.cfg.intermediate as u64),
            decay_rank: Some(self.cfg.decay_rank as u64),
            a_rank: Some(self.cfg.a_rank as u64),
            v_rank: Some(self.cfg.v_rank as u64),
            g_rank: Some(self.cfg.g_rank as u64),
            seed: Some(self.cfg.seed),
            lr: Some(string_of(chars_of(self.cfg.lr.as_str()).as_slice())),
            stride: Some(stride),
        }
    }

    /// Goes on in the schedule from `cursor`. Without a schedule nothing happens.
    pub fn resume_stream(&mut self, cursor: u64) -> (result: Result<(), PolicyError>)
        ensures
            match old(self)@.policy {
                None => result is Ok && final(self)@ == old(self)@,
                Some(p) => exists|mid: OnlineModel<S>| #[trigger]
                    runtime::prepared(old(self)@, mid, old(self)@.policy_stream_total, result)
                        && final(self)@ == (match result {
                        Err(_) => mid,
                        Ok(_) => OnlineModel {
                            policy_train_steps: old(self)@.policy_train_steps,
                            schedule: Some(((mid.schedule->0).0, cursor)),
                            ..mid
                        },
                    }),
            },
    {
        if self.policy.is_none() {
            return Ok(());
        }
        let steps: u64 = self.policy_train_steps;
        let total = self.policy_stream_total;
        let result = self.prepare_policy_stream(total);
        let ghost mid = self@;
        match result {
            Err(e) => {
                return Err(e);
            },
            Ok(_) => {},
        }
        self.policy_train_steps = steps;
        match &mut self.policy_runtime {
            Some(rt) => {
                rt.set_cursor(cursor);
            },
            None => {},
        }
        proof {
            let done: Result<(), PolicyError> = Ok(());
            assert(runtime::prepared(old(self)@, mid, total, done));
            assert(self@ =~= OnlineModel {
                policy_train_steps: old(self)@.policy_train_steps,
                schedule: Some(((mid.schedule->0).0, cursor)),
                ..mid
            });
        }
        Ok(())
    }
}

// ---------------------------------------------------------------------------------------
// What is kept
// ---------------------------------------------------------------------------------------

/// The name of a training mode stands for it.
proof fn lemma_mode_named(mode: OnlineTrainMode)
    ensures
        method::train_mode_of(method::train_mode_text(mode)) == Ok::<OnlineTrainMode, crate::backends::rwkvzip::method::MethodErrorModel>(mode),
{
    reveal_strlit("0");
    reveal_strlit("1");
    reveal_strlit("2");
    reveal_strlit("none");
    reveal_strlit("off");
    reveal_strlit("sgd");
    reveal_strlit("adam");
    let name = method::train_mode_text(mode);
    assert(text::lead(name, 0) == 0);
    assert(text::tail(name, name.len() as int) == name.len());
    assert(text::trimmed(name) =~= name);
    assert(text::lowered(name) =~= name);
}

/// A configuration whose numbers fit, and that updates at all.
pub open spec fn config_fits(cfg: ConfigModel) -> bool {
    &&& cfg.hidden <= usize::MAX
    &&& cfg.layers <= usize::MAX
    &&& cfg.intermediate <= usize::MAX
    &&& cfg.decay_rank <= usize::MAX
    &&& cfg.a_rank <= usize::MAX
    &&& cfg.v_rank <= usize::MAX
    &&& cfg.g_rank <= usize::MAX
    &&& cfg.seed <= u64::MAX
    &&& 1 <= cfg.stride <= usize::MAX
}

/// The names of the scopes can stand in a policy.
pub proof fn lemma_scopes_fit()
    ensures
        policy_forms::names_fit(method::rwkv_scopes()),
{
    reveal_strlit("embed");
    reveal_strlit("pre_norm");
    reveal_strlit("attn_norm");
    reveal_strlit("ffn_norm");
    reveal_strlit("attn");
    reveal_strlit("ffn");
    reveal_strlit("head");
    reveal_strlit("bias");
    reveal_strlit("all");
    reveal_strlit("none");
    let names = method::rwkv_scopes();
    assert(policy_forms::open_text("embed"@) && text_forms::lacks("embed"@, ','));
    assert(policy_forms::open_text("pre_norm"@) && text_forms::lacks("pre_norm"@, ','));
    assert(policy_forms::open_text("attn_norm"@) && text_forms::lacks("attn_norm"@, ','));
    assert(policy_forms::open_text("ffn_norm"@) && text_forms::lacks("ffn_norm"@, ','));
    assert(policy_forms::open_text("attn"@) && text_forms::lacks("attn"@, ','));
    assert(policy_forms::open_text("ffn"@) && text_forms::lacks("ffn"@, ','));
    assert(policy_forms::open_text("head"@) && text_forms::lacks("head"@, ','));
    assert(policy_forms::open_text("bias"@) && text_forms::lacks("bias"@, ','));
    assert(policy_forms::open_text("all"@) && text_forms::lacks("all"@, ','));
    assert(policy_forms::open_text("none"@) && text_forms::lacks("none"@, ','));
    assert forall|i: int| 0 <= i < names.len() implies policy_forms::open_text(#[trigger] names[i]) && text_forms::lacks(
        names[i],
        ',',
    ) by {
        assert(names.len() == 10);
    }
}

/// A policy over the scopes of the network that is written out is read back.
pub proof fn lemma_own_policy_read(p: PolicyModel)
    requires
        policy_laws::policy_ok(p, method::rwkv_scopes()),
    ensures
        llm_policy::policy_of(llm_policy::policy_text(p), method::rwkv_scopes()) == Ok::<
            PolicyModel,
            ErrorModel,
        >(p),
        text_forms::tight(llm_policy::policy_text(p)),
        llm_policy::policy_text(p).len() > 0,
{
    lemma_scopes_fit();
    policy_laws::lemma_schedule_fits(p.schedule, method::rwkv_scopes());
    policy_laws::law_policy_round_trip(p, method::rwkv_scopes());
}

/// A state that is written beside the weights comes back: the configuration, the method, the
/// schedule, the counters and the length of the stream are those that were written.
pub proof fn law_sidecar_round_trip<S>(
    m: OnlineModel<S>,
    has_full_adam: bool,
    adam_t: u64,
    default_method: Seq<char>,
)
    requires
        config_fits(m.cfg),
        m.policy matches Some(p) ==> policy_laws::policy_ok(p, method::rwkv_scopes()),
    ensures
        ({
            let f = sidecar_of(m, has_full_adam, adam_t);
            let back = resumed::<S>(f, default_method);
            &&& back.cfg == m.cfg
            &&& back.canonical_method == m.canonical_method
            &&& back.policy == m.policy
            &&& back.policy_stream_total == m.policy_stream_total
            &&& back.policy_train_steps == m.policy_train_steps
            &&& back.tokens_processed == m.tokens_processed
            &&& number_or_zero(f.adam_t) == adam_t
            &&& f.policy_cursor == Some(match m.schedule {
                Some((compiled, at)) => at,
                None => 0,
            })
        }),
{
    lemma_mode_named(m.cfg.train_mode);
    assert(resumed_config(sidecar_of(m, has_full_adam, adam_t)) =~= m.cfg);
    if let Some(p) = m.policy {
        lemma_own_policy_read(p);
    }
}

} // verus!
