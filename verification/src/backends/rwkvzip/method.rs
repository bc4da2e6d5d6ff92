//! Method strings of the recurrent network compressor.

use vstd::prelude::*;
use crate::reals;
use crate::text;
use crate::backends::policy_error;
use crate::backends::method_path;
use crate::backends::llm_policy;

use crate::reals::{check_real, show_real};
use crate::backends::llm_policy::{parse_policy_segment, LlmPolicy, PolicyModel};
use crate::backends::method_path::{canonical_file_method_string, parse_method_file_path, split_method_policy_segments, PathPiece};
use crate::backends::policy_error::{ErrorModel, PolicyError};
use crate::text::{
    chars_of, decimal_of, is_text, lowercase, parse_size, parse_uint, push_chars, push_text,
    split_char, split_once_char, string_of, strip_prefix, trim,
};

verus! {

/// How the output layer learns while it is used.
#[derive(Clone, Copy, Debug, PartialEq, Eq, Structural)]
pub enum OnlineTrainMode {
    /// It does not.
    Off,
    /// By gradient steps.
    Sgd,
    /// By Adam steps.
    Adam,
}

/// Shape and training of an online network.
#[derive(Debug)]
pub struct OnlineConfig {
    /// Hidden size.
    pub hidden: usize,
    /// Number of layers.
    pub layers: usize,
    /// Size of the feed-forward part.
    pub intermediate: usize,
    /// Rank of the decay projection.
    pub decay_rank: usize,
    /// Rank of the key projection.
    pub a_rank: usize,
    /// Rank of the value projection.
    pub v_rank: usize,
    /// Rank of the projection that weighs the output.
    pub g_rank: usize,
    /// Seed of the initial weights.
    pub seed: u64,
    /// Training mode.
    pub train_mode: OnlineTrainMode,
    /// Learning rate, as a decimal number.
    pub lr: String,
    /// Tokens per update.
    pub stride: usize,
}

/// [`OnlineConfig`] as a mathematical object.
#[verifier::ext_equal]
pub struct ConfigModel {
    pub hidden: nat,
    pub layers: nat,
    pub intermediate: nat,
    pub decay_rank: nat,
    pub a_rank: nat,
    pub v_rank: nat,
    pub g_rank: nat,
    pub seed: nat,
    pub train_mode: OnlineTrainMode,
    pub lr: Seq<char>,
    pub stride: nat,
}

impl View for OnlineConfig {
    type V = ConfigModel;

    open spec fn view(&self) -> ConfigModel {
        ConfigModel {
            hidden: self.hidden as nat,
            layers: self.layers as nat,
            intermediate: self.intermediate as nat,
            decay_rank: self.decay_rank as nat,
            a_rank: self.a_rank as nat,
            v_rank: self.v_rank as nat,
            g_rank: self.g_rank as nat,
            seed: self.seed as nat,
            train_mode: self.train_mode,
            lr: self.lr@,
            stride: self.stride as nat,
        }
    }
}

impl Clone for OnlineConfig {
    fn clone(&self) -> (copy: Self)
        ensures
            copy@ == self@,
    {
        OnlineConfig {
            hidden: self.hidden,
            layers: self.layers,
            intermediate: self.intermediate,
            decay_rank: self.decay_rank,
            a_rank: self.a_rank,
            v_rank: self.v_rank,
            g_rank: self.g_rank,
            seed: self.seed,
            train_mode: self.train_mode,
            lr: self.lr.clone(),
            stride: self.stride,
        }
    }
}

/// A parsed method.
#[derive(Debug)]
pub enum MethodSpec {
    /// Weights from a file.
    File {
        /// Path of the weights.
        path: String,
        /// Schedule.
        policy: Option<LlmPolicy>,
    },
    /// Weights made here.
    Online {
        /// Shape and training.
        cfg: OnlineConfig,
        /// Schedule.
        policy: Option<LlmPolicy>,
    },
}

/// [`MethodSpec`] as a mathematical object.
#[verifier::ext_equal]
pub enum SpecModel {
    File { path: Seq<char>, policy: Option<PolicyModel> },
    Online { cfg: ConfigModel, policy: Option<PolicyModel> },
}

/// A schedule, if there is one, as a mathematical object.
pub open spec fn policy_model(policy: Option<LlmPolicy>) -> Option<PolicyModel> {
    match policy {
        Some(p) => Some(p@),
        None => None,
    }
}

impl View for MethodSpec {
    type V = SpecModel;

    open spec fn view(&self) -> SpecModel {
        match self {
            MethodSpec::File { path, policy } => SpecModel::File {
                path: path@,
                policy: policy_model(*policy),
            },
            MethodSpec::Online { cfg, policy } => SpecModel::Online {
                cfg: cfg@,
                policy: policy_model(*policy),
            },
        }
    }
}

impl Clone for MethodSpec {
    fn clone(&self) -> (copy: Self)
        ensures
            copy@ == self@,
    {
        match self {
            MethodSpec::File { path, policy } => MethodSpec::File {
                path: path.clone(),
                policy: match policy {
                    Some(p) => Some(p.clone()),
                    None => None,
                },
            },
            MethodSpec::Online { cfg, policy } => MethodSpec::Online {
                cfg: cfg.clone(),
                policy: match policy {
                    Some(p) => Some(p.clone()),
                    None => None,
                },
            },
        }
    }
}

/// What is wrong with a method.
#[derive(Clone, Copy, Debug, PartialEq, Eq, Structural)]
pub enum MethodErrorKind {
    Segments,
    Policy,
    EmptyFilePath,
    LoadFromWithFile,
    LoadFromWithPath,
    PositionalCount,
    InvalidPair,
    InvalidInteger,
    InvalidFloat,
    UnknownTrainMode,
    UnknownKey,
    UnknownMethod,
    HiddenNotMultiple,
}

/// Why a method was refused.
#[derive(Debug)]
pub struct MethodError {
    pub kind: MethodErrorKind,
    pub key: String,
    pub value: String,
    pub policy: Option<PolicyError>,
}

/// [`MethodError`] as a mathematical object.
#[verifier::ext_equal]
pub struct MethodErrorModel {
    pub kind: MethodErrorKind,
    pub key: Seq<char>,
    pub value: Seq<char>,
    pub policy: Option<ErrorModel>,
}

impl View for MethodError {
    type V = MethodErrorModel;

    open spec fn view(&self) -> MethodErrorModel {
        MethodErrorModel {
            kind: self.kind,
            key: self.key@,
            value: self.value@,
            policy: match self.policy {
                Some(p) => Some(p@),
                None => None,
            },
        }
    }
}

/// A refusal that names a key and a value.
pub open spec fn method_fault(kind: MethodErrorKind, key: Seq<char>, value: Seq<char>) -> MethodErrorModel {
    MethodErrorModel { kind, key, value, policy: None }
}

/// A refusal of a schedule or of the segments.
pub open spec fn policy_fault(kind: MethodErrorKind, inner: ErrorModel) -> MethodErrorModel {
    MethodErrorModel { kind, key: Seq::empty(), value: Seq::empty(), policy: Some(inner) }
}

/// Whether a result is what the model says.
pub open spec fn method_agrees<T: View>(
    result: Result<T, MethodError>,
    model: Result<T::V, MethodErrorModel>,
) -> bool {
    match result {
        Ok(value) => model == Ok::<T::V, MethodErrorModel>(value@),
        Err(error) => model == Err::<T::V, MethodErrorModel>(error@),
    }
}

fn fault(kind: MethodErrorKind, key: &str, value: &[char]) -> (error: MethodError)
    ensures
        error@ == method_fault(kind, key@, value@),
{
    MethodError { kind, key: key.to_string(), value: string_of(value), policy: None }
}

/// Scopes that a schedule may train.
pub open spec fn rwkv_scopes() -> Seq<Seq<char>> {
    seq![
        "embed"@,
        "pre_norm"@,
        "attn_norm"@,
        "ffn_norm"@,
        "attn"@,
        "ffn"@,
        "head"@,
        "bias"@,
        "all"@,
        "none"@,
    ]
}

/// Configuration where nothing is set.
pub open spec fn default_config() -> ConfigModel {
    ConfigModel {
        hidden: 256,
        layers: 6,
        intermediate: 1024,
        decay_rank: 32,
        a_rank: 32,
        v_rank: 32,
        g_rank: 64,
        seed: 0,
        train_mode: OnlineTrainMode::Off,
        lr: "0.001"@,
        stride: 1,
    }
}

impl Default for OnlineConfig {
    fn default() -> (cfg: OnlineConfig)
        ensures
            cfg@ == default_config(),
    {
        OnlineConfig {
            hidden: 256,
            layers: 6,
            intermediate: 1024,
            decay_rank: 32,
            a_rank: 32,
            v_rank: 32,
            g_rank: 64,
            seed: 0,
            train_mode: OnlineTrainMode::Off,
            lr: "0.001".to_string(),
            stride: 1,
        }
    }
}

// ---------------------------------------------------------------------------------------
// Values
// ---------------------------------------------------------------------------------------

/// Number of at most `max` that `value` stands for.
pub open spec fn int_value(value: Seq<char>, key: Seq<char>, max: nat) -> Result<nat, MethodErrorModel> {
    match text::parsed_uint(value, max) {
        Some(n) => Ok(n),
        None => Err(method_fault(MethodErrorKind::InvalidInteger, key, value)),
    }
}

/// Training mode that `value` stands for.
pub open spec fn train_mode_of(value: Seq<char>) -> Result<OnlineTrainMode, MethodErrorModel> {
    let code = text::lowered(text::trimmed(value));
    if code == "0"@ || code == "none"@ || code == "off"@ {
        Ok(OnlineTrainMode::Off)
    } else if code == "1"@ || code == "sgd"@ {
        Ok(OnlineTrainMode::Sgd)
    } else if code == "2"@ || code == "adam"@ {
        Ok(OnlineTrainMode::Adam)
    } else {
        Err(method_fault(MethodErrorKind::UnknownTrainMode, Seq::empty(), code))
    }
}

fn int_field(value: &[char], key: &str, max: u64) -> (r: Result<u64, MethodError>)
    ensures
        match r {
            Ok(n) => int_value(value@, key@, max as nat) == Ok::<nat, MethodErrorModel>(n as nat)
                && n <= max,
            Err(e) => int_value(value@, key@, max as nat) == Err::<nat, MethodErrorModel>(e@),
        },
{
    match parse_uint(value, max) {
        Some(n) => Ok(n),
        None => Err(fault(MethodErrorKind::InvalidInteger, key, value)),
    }
}

fn size_field(value: &[char], key: &str) -> (r: Result<usize, MethodError>)
    ensures
        match r {
            Ok(n) => int_value(value@, key@, usize::MAX as nat) == Ok::<nat, MethodErrorModel>(
                n as nat,
            ),
            Err(e) => int_value(value@, key@, usize::MAX as nat) == Err::<nat, MethodErrorModel>(
                e@,
            ),
        },
{
    match parse_size(value) {
        Some(n) => Ok(n),
        None => Err(fault(MethodErrorKind::InvalidInteger, key, value)),
    }
}

/// Training mode that `value` stands for.
pub fn parse_train_mode_token(value: &[char]) -> (r: Result<OnlineTrainMode, MethodError>)
    ensures
        match r {
            Ok(mode) => train_mode_of(value@) == Ok::<OnlineTrainMode, MethodErrorModel>(mode),
            Err(e) => train_mode_of(value@) == Err::<OnlineTrainMode, MethodErrorModel>(e@),
        },
{
    let code = lowercase(trim(value));
    if is_text(&code, "0") || is_text(&code, "none") || is_text(&code, "off") {
        Ok(OnlineTrainMode::Off)
    } else if is_text(&code, "1") || is_text(&code, "sgd") {
        Ok(OnlineTrainMode::Sgd)
    } else if is_text(&code, "2") || is_text(&code, "adam") {
        Ok(OnlineTrainMode::Adam)
    } else {
        let e = fault(MethodErrorKind::UnknownTrainMode, "", &code);
        proof {
            reveal_strlit("");
            assert(""@ =~= Seq::<char>::empty());
        }
        Err(e)
    }
}

// ---------------------------------------------------------------------------------------
// Configurations
// ---------------------------------------------------------------------------------------

/// Pieces that hold something, trimmed.
pub open spec fn filled(pieces: Seq<Seq<char>>, n: int) -> Seq<Seq<char>>
    decreases n,
{
    if n <= 0 {
        Seq::empty()
    } else {
        let s = text::trimmed(pieces[n - 1]);
        if s.len() == 0 {
            filled(pieces, n - 1)
        } else {
            filled(pieces, n - 1).push(s)
        }
    }
}

/// Configuration from values in a fixed order.
pub open spec fn positional(csv: Seq<char>) -> Result<ConfigModel, MethodErrorModel> {
    let pieces = text::split_pieces(csv, ',', 0);
    let vals = filled(pieces, pieces.len() as int);
    if vals.len() != 6 && vals.len() != 7 {
        Err(method_fault(MethodErrorKind::PositionalCount, Seq::empty(), Seq::empty()))
    } else {
        match int_value(vals[0], "hidden"@, usize::MAX as nat) {
            Err(e) => Err(e),
            Ok(hidden) => match int_value(vals[1], "intermediate"@, usize::MAX as nat) {
                Err(e) => Err(e),
                Ok(intermediate) => match int_value(vals[2], "layers"@, usize::MAX as nat) {
                    Err(e) => Err(e),
                    Ok(layers) => match train_mode_of(vals[3]) {
                        Err(e) => Err(e),
                        Ok(train_mode) => match int_value(vals[4], "seed"@, u64::MAX as nat) {
                            Err(e) => Err(e),
                            Ok(seed) => if !reals::is_real(vals[5]) {
                                Err(method_fault(MethodErrorKind::InvalidFloat, "lr"@, vals[5]))
                            } else {
                                match if vals.len() == 7 {
                                    int_value(vals[6], "stride"@, usize::MAX as nat)
                                } else {
                                    Ok(1nat)
                                } {
                                    Err(e) => Err(e),
                                    Ok(stride) => Ok(
                                        ConfigModel {
                                            hidden,
                                            intermediate,
                                            layers,
                                            train_mode,
                                            seed,
                                            lr: reals::shown_real(vals[5], false),
                                            stride,
                                            ..default_config()
                                        },
                                    ),
                                }
                            },
                        },
                    },
                },
            },
        }
    }
}

/// Values that hold something, trimmed.
fn filled_values<'a>(csv: &'a [char]) -> (vals: Vec<&'a [char]>)
    ensures
        ({
            let pieces = text::split_pieces(csv@, ',', 0);
            text::piece_texts(vals@) == filled(pieces, pieces.len() as int)
        }),
{
    let pieces = split_char(csv, ',');
    let ghost texts = text::split_pieces(csv@, ',', 0);
    let mut vals: Vec<&'a [char]> = Vec::new();
    let n: usize = pieces.len();
    let mut i: usize = 0;
    proof {
        assert(text::piece_texts(vals@) =~= Seq::empty());
    }
    while i < n
        invariant
            i <= n == pieces@.len(),
            text::piece_texts(pieces@) == texts,
            text::piece_texts(vals@) == filled(texts, i as int),
        decreases n - i,
    {
        let s = trim(pieces[i]);
        proof {
            assert(texts[i as int] == pieces@[i as int]@);
        }
        let ghost before = vals@;
        if s.len() > 0 {
            vals.push(s);
            proof {
                assert(text::piece_texts(vals@) =~= text::piece_texts(before).push(s@));
            }
        }
        i += 1;
    }
    vals
}

fn parse_cfg_positional(csv: &[char]) -> (r: Result<OnlineConfig, MethodError>)
    ensures
        method_agrees(r, positional(csv@)),
{
    let vals = filled_values(csv);
    let ghost texts = text::piece_texts(vals@);
    let n: usize = vals.len();
    proof {
        reveal_strlit("");
        assert(""@ =~= Seq::<char>::empty());
    }
    if n != 6 && n != 7 {
        let none: Vec<char> = Vec::new();
        let e = fault(MethodErrorKind::PositionalCount, "", &none);
        return Err(e);
    }
    proof {
        assert(texts[0] == vals@[0]@ && texts[1] == vals@[1]@ && texts[2] == vals@[2]@);
        assert(texts[3] == vals@[3]@ && texts[4] == vals@[4]@ && texts[5] == vals@[5]@);
        assert(n == 7 ==> texts[6] == vals@[6]@);
    }
    let hidden: usize = match size_field(vals[0], "hidden") {
        Ok(x) => x,
        Err(e) => {
            return Err(e);
        },
    };
    let intermediate: usize = match size_field(vals[1], "intermediate") {
        Ok(x) => x,
        Err(e) => {
            return Err(e);
        },
    };
    let layers: usize = match size_field(vals[2], "layers") {
        Ok(x) => x,
        Err(e) => {
            return Err(e);
        },
    };
    let train_mode = match parse_train_mode_token(vals[3]) {
        Ok(x) => x,
        Err(e) => {
            return Err(e);
        },
    };
    let seed: u64 = match int_field(vals[4], "seed", u64::MAX) {
        Ok(x) => x,
        Err(e) => {
            return Err(e);
        },
    };
    if !check_real(vals[5]) {
        return Err(fault(MethodErrorKind::InvalidFloat, "lr", vals[5]));
    }
    let stride: usize = if n == 7 {
        match size_field(vals[6], "stride") {
            Ok(x) => x,
            Err(e) => {
                return Err(e);
            },
        }
    } else {
        1
    };
    let mut cfg = OnlineConfig::default();
    cfg.hidden = hidden;
    cfg.intermediate = intermediate;
    cfg.layers = layers;
    cfg.train_mode = train_mode;
    cfg.seed = seed;
    cfg.lr = string_of(&show_real(vals[5], false));
    cfg.stride = stride;
    Ok(cfg)
}

/// `cfg` with one setting changed.
pub open spec fn with_setting(cfg: ConfigModel, key: Seq<char>, val: Seq<char>) -> Result<
    ConfigModel,
    MethodErrorModel,
> {
    let size = int_value(val, key, usize::MAX as nat);
    if key == "seed"@ {
        match int_value(val, key, u64::MAX as nat) {
            Ok(n) => Ok(ConfigModel { seed: n, ..cfg }),
            Err(e) => Err(e),
        }
    } else if key == "lr"@ {
        if reals::is_real(val) {
            Ok(ConfigModel { lr: reals::shown_real(val, false), ..cfg })
        } else {
            Err(method_fault(MethodErrorKind::InvalidFloat, key, val))
        }
    } else if key == "train"@ || key == "train_mode"@ {
        match train_mode_of(val) {
            Ok(train_mode) => Ok(ConfigModel { train_mode, ..cfg }),
            Err(e) => Err(e),
        }
    } else if key == "hidden"@ {
        match size {
            Ok(n) => Ok(ConfigModel { hidden: n, ..cfg }),
            Err(e) => Err(e),
        }
    } else if key == "layers"@ {
        match size {
            Ok(n) => Ok(ConfigModel { layers: n, ..cfg }),
            Err(e) => Err(e),
        }
    } else if key == "intermediate"@ {
        match size {
            Ok(n) => Ok(ConfigModel { intermediate: n, ..cfg }),
            Err(e) => Err(e),
        }
    } else if key == "decay_rank"@ {
        match size {
            Ok(n) => Ok(ConfigModel { decay_rank: n, ..cfg }),
            Err(e) => Err(e),
        }
    } else if key == "a_rank"@ {
        match size {
            Ok(n) => Ok(ConfigModel { a_rank: n, ..cfg }),
            Err(e) => Err(e),
        }
    } else if key == "v_rank"@ {
        match size {
            Ok(n) => Ok(ConfigModel { v_rank: n, ..cfg }),
            Err(e) => Err(e),
        }
    } else if key == "g_rank"@ {
        match size {
            Ok(n) => Ok(ConfigModel { g_rank: n, ..cfg }),
            Err(e) => Err(e),
        }
    } else if key == "stride"@ {
        match size {
            Ok(n) => Ok(ConfigModel { stride: n, ..cfg }),
            Err(e) => Err(e),
        }
    } else {
        Err(method_fault(MethodErrorKind::UnknownKey, Seq::empty(), key))
    }
}

/// `cfg` with the settings of `pieces[i..]`, in order.
pub open spec fn with_settings(cfg: ConfigModel, pieces: Seq<Seq<char>>, i: int) -> Result<
    ConfigModel,
    MethodErrorModel,
>
    decreases pieces.len() - i,
{
    if i < 0 || i >= pieces.len() {
        Ok(cfg)
    } else {
        let pair = text::trimmed(pieces[i]);
        if pair.len() == 0 {
            with_settings(cfg, pieces, i + 1)
        } else {
            match text::cut_char(pair, '=') {
                None => Err(method_fault(MethodErrorKind::InvalidPair, Seq::empty(), pair)),
                Some((k, v)) => match with_setting(cfg, text::lowered(text::trimmed(k)), text::trimmed(v)) {
                    Ok(next) => with_settings(next, pieces, i + 1),
                    Err(e) => Err(e),
                },
            }
        }
    }
}

fn set_field(cfg: OnlineConfig, key: &Vec<char>, val: &[char]) -> (r: Result<
    OnlineConfig,
    MethodError,
>)
    ensures
        method_agrees(r, with_setting(cfg@, key@, val@)),
{
    let mut cfg = cfg;
    if is_text(key, "seed") {
        cfg.seed = match int_field(val, "seed", u64::MAX) {
            Ok(x) => x,
            Err(e) => {
                return Err(e);
            },
        };
        return Ok(cfg);
    }
    if is_text(key, "lr") {
        if !check_real(val) {
            return Err(fault(MethodErrorKind::InvalidFloat, "lr", val));
        }
        cfg.lr = string_of(&show_real(val, false));
        return Ok(cfg);
    }
    if is_text(key, "train") || is_text(key, "train_mode") {
        cfg.train_mode = match parse_train_mode_token(val) {
            Ok(x) => x,
            Err(e) => {
                return Err(e);
            },
        };
        return Ok(cfg);
    }
    let known: bool = is_text(key, "hidden") || is_text(key, "layers") || is_text(
        key,
        "intermediate",
    ) || is_text(key, "decay_rank") || is_text(key, "a_rank") || is_text(key, "v_rank")
        || is_text(key, "g_rank") || is_text(key, "stride");
    if !known {
        let e = fault(MethodErrorKind::UnknownKey, "", key);
        proof {
            reveal_strlit("");
            assert(""@ =~= Seq::<char>::empty());
        }
        return Err(e);
    }
    let name = string_of(key);
    let n: usize = match size_field(val, name.as_str()) {
        Ok(x) => x,
        Err(e) => {
            return Err(e);
        },
    };
    if is_text(key, "hidden") {
        cfg.hidden = n;
    } else if is_text(key, "layers") {
        cfg.layers = n;
    } else if is_text(key, "intermediate") {
        cfg.intermediate = n;
    } else if is_text(key, "decay_rank") {
        cfg.decay_rank = n;
    } else if is_text(key, "a_rank") {
        cfg.a_rank = n;
    } else if is_text(key, "v_rank") {
        cfg.v_rank = n;
    } else if is_text(key, "g_rank") {
        cfg.g_rank = n;
    } else {
        cfg.stride = n;
    }
    Ok(cfg)
}

/// Configuration from settings by name.
pub open spec fn named_config(cfg: Seq<char>) -> Result<ConfigModel, MethodErrorModel> {
    with_settings(default_config(), text::split_pieces(cfg, ',', 0), 0)
}

fn parse_cfg_named(cfg_s: &[char]) -> (r: Result<OnlineConfig, MethodError>)
    ensures
        method_agrees(r, named_config(cfg_s@)),
{
    let pieces = split_char(cfg_s, ',');
    let ghost texts = text::split_pieces(cfg_s@, ',', 0);
    let mut cfg = OnlineConfig::default();
    let n: usize = pieces.len();
    let mut i: usize = 0;
    while i < n
        invariant
            i <= n == pieces@.len(),
            text::piece_texts(pieces@) == texts,
            named_config(cfg_s@) == with_settings(cfg@, texts, i as int),
        decreases n - i,
    {
        let pair = trim(pieces[i]);
        proof {
            assert(texts[i as int] == pieces@[i as int]@);
        }
        i += 1;
        if pair.len() == 0 {
            continue;
        }
        match split_once_char(pair, '=') {
            None => {
                let e = fault(MethodErrorKind::InvalidPair, "", pair);
                proof {
                    reveal_strlit("");
                    assert(""@ =~= Seq::<char>::empty());
                }
                return Err(e);
            },
            Some((k, v)) => {
                let key = lowercase(trim(k));
                match set_field(cfg, &key, trim(v)) {
                    Ok(next) => {
                        cfg = next;
                    },
                    Err(e) => {
                        return Err(e);
                    },
                }
            },
        }
    }
    Ok(cfg)
}

// ---------------------------------------------------------------------------------------
// Methods
// ---------------------------------------------------------------------------------------

/// Whether a schedule names weights to load.
pub open spec fn loads(policy: Option<PolicyModel>) -> bool {
    policy matches Some(p) && p.load_from is Some
}

/// The schedule of a method.
pub open spec fn policy_part(segment: Option<Seq<char>>) -> Result<
    Option<PolicyModel>,
    MethodErrorModel,
> {
    match segment {
        None => Ok(None),
        Some(s) => match llm_policy::policy_of(s, rwkv_scopes()) {
            Ok(p) => Ok(Some(p)),
            Err(e) => Err(policy_fault(MethodErrorKind::Policy, e)),
        },
    }
}

/// What a method without its schedule stands for; `exists` tells whether it is the path of a
/// file.
pub open spec fn base_part(base: Seq<char>, policy: Option<PolicyModel>, exists: bool) -> Result<
    SpecModel,
    MethodErrorModel,
> {
    let none = Seq::<char>::empty();
    match text::after_prefix(base, "file:"@) {
        Some(path) => {
            let p = method_path::unescaped(text::trimmed(path), 0);
            if p.len() == 0 {
                Err(method_fault(MethodErrorKind::EmptyFilePath, none, none))
            } else if loads(policy) {
                Err(method_fault(MethodErrorKind::LoadFromWithFile, none, none))
            } else {
                Ok(SpecModel::File { path: p, policy })
            }
        },
        None => match text::after_prefix(base, "cfg:"@) {
            Some(cfg_s) => match if cfg_s.contains('=') {
                named_config(cfg_s)
            } else {
                positional(cfg_s)
            } {
                Ok(cfg) => Ok(SpecModel::Online { cfg, policy }),
                Err(e) => Err(e),
            },
            None => if exists {
                if loads(policy) {
                    Err(method_fault(MethodErrorKind::LoadFromWithPath, none, none))
                } else {
                    Ok(SpecModel::File { path: text::trimmed(base), policy })
                }
            } else if base.contains(',') {
                match positional(base) {
                    Ok(cfg) => Ok(SpecModel::Online { cfg, policy }),
                    Err(e) => Err(e),
                }
            } else {
                Err(method_fault(MethodErrorKind::UnknownMethod, none, none))
            },
        },
    }
}

/// What a method stands for.
pub open spec fn spec_of(method: Seq<char>, exists: bool) -> Result<SpecModel, MethodErrorModel> {
    match method_path::method_split(method) {
        Err(e) => Err(policy_fault(MethodErrorKind::Segments, e)),
        Ok((base, segment)) => match policy_part(segment) {
            Err(e) => Err(e),
            Ok(policy) => base_part(base, policy, exists),
        },
    }
}

/// Whether `c` occurs in `s`.
fn has_char(s: &[char], c: char) -> (yes: bool)
    ensures
        yes == s@.contains(c),
{
    let mut i: usize = 0;
    while i < s.len()
        invariant
            i <= s@.len(),
            forall|j: int| 0 <= j < i ==> s@[j] != c,
        decreases s@.len() - i,
    {
        if s[i] == c {
            proof {
                assert(s@[i as int] == c);
            }
            return true;
        }
        i += 1;
    }
    false
}

fn blank_fault(kind: MethodErrorKind) -> (error: MethodError)
    ensures
        error@ == method_fault(kind, Seq::empty(), Seq::empty()),
{
    MethodError { kind, key: String::new(), value: String::new(), policy: None }
}

/// Scopes that a schedule may train.
pub fn rwkv_scope_list() -> (names: Vec<&'static str>)
    ensures
        llm_policy::strs(names@) == rwkv_scopes(),
{
    let mut names: Vec<&'static str> = Vec::new();
    names.push("embed");
    names.push("pre_norm");
    names.push("attn_norm");
    names.push("ffn_norm");
    names.push("attn");
    names.push("ffn");
    names.push("head");
    names.push("bias");
    names.push("all");
    names.push("none");
    proof {
        assert(llm_policy::strs(names@) =~= rwkv_scopes());
    }
    names
}

/// The part of a method that may be the path of a file.
pub fn plain_path_of(method: &str) -> (r: Result<String, MethodError>)
    ensures
        match method_path::method_split(method@) {
            Ok((base, segment)) => r matches Ok(path) && path@ == text::trimmed(base),
            Err(e) => r matches Err(error) && error@ == policy_fault(
                MethodErrorKind::Segments,
                e,
            ),
        },
{
    match split_method_policy_segments(method) {
        Ok((base, segment)) => {
            let b = chars_of(base.as_str());
            Ok(string_of(trim(&b)))
        },
        Err(e) => Err(
            MethodError {
                kind: MethodErrorKind::Segments,
                key: String::new(),
                value: String::new(),
                policy: Some(e),
            },
        ),
    }
}

/// Parses a method; `plain_exists` tells whether [`plain_path_of`] it is the path of a file.
///
/// Methods are `file:<path>`, `cfg:<key>=<value>,...`, a list of values in a fixed order, or the
/// path of a file, each with or without `;policy:...` behind it. A `file:` path has its reserved
/// characters percent-encoded.
pub fn parse_method_spec(method: &str, plain_exists: bool) -> (r: Result<MethodSpec, MethodError>)
    ensures
        method_agrees(r, spec_of(method@, plain_exists)),
        r matches Ok(spec) ==> spec_wf(spec),
{
    let (base, segment) = match split_method_policy_segments(method) {
        Ok(x) => x,
        Err(e) => {
            return Err(
                MethodError {
                    kind: MethodErrorKind::Segments,
                    key: String::new(),
                    value: String::new(),
                    policy: Some(e),
                },
            );
        },
    };
    let names = rwkv_scope_list();
    let policy: Option<LlmPolicy> = match segment {
        None => None,
        Some(s) => match parse_policy_segment(s.as_str(), names.as_slice()) {
            Ok(p) => Some(p),
            Err(e) => {
                return Err(
                    MethodError {
                        kind: MethodErrorKind::Policy,
                        key: String::new(),
                        value: String::new(),
                        policy: Some(e),
                    },
                );
            },
        },
    };
    let load: bool = match &policy {
        Some(p) => p.load_from.is_some(),
        None => false,
    };
    let b = chars_of(base.as_str());
    if let Some(path) = strip_prefix(&b, "file:") {
        let text = string_of(trim(path));
        let p = parse_method_file_path(text.as_str());
        let pc = chars_of(p.as_str());
        if pc.len() == 0 {
            return Err(blank_fault(MethodErrorKind::EmptyFilePath));
        }
        if load {
            return Err(blank_fault(MethodErrorKind::LoadFromWithFile));
        }
        return Ok(MethodSpec::File { path: p, policy });
    }
    if let Some(cfg_s) = strip_prefix(&b, "cfg:") {
        let parsed = if has_char(cfg_s, '=') {
            parse_cfg_named(cfg_s)
        } else {
            parse_cfg_positional(cfg_s)
        };
        return match parsed {
            Ok(cfg) => Ok(MethodSpec::Online { cfg, policy }),
            Err(e) => Err(e),
        };
    }
    if plain_exists {
        if load {
            return Err(blank_fault(MethodErrorKind::LoadFromWithPath));
        }
        return Ok(MethodSpec::File { path: string_of(trim(&b)), policy });
    }
    if has_char(&b, ',') {
        return match parse_cfg_positional(&b) {
            Ok(cfg) => Ok(MethodSpec::Online { cfg, policy }),
            Err(e) => Err(e),
        };
    }
    Err(blank_fault(MethodErrorKind::UnknownMethod))
}

/// The schedule of a method names its scopes in order.
pub open spec fn spec_wf(spec: MethodSpec) -> bool {
    let policy = match spec {
        MethodSpec::File { path, policy } => policy,
        MethodSpec::Online { cfg, policy } => policy,
    };
    policy matches Some(p) ==> forall|i: int|
        0 <= i < p.schedule@.len() ==> llm_policy::rule_wf(#[trigger] p.schedule@[i])
}

/// Name of a training mode.
pub open spec fn train_mode_text(mode: OnlineTrainMode) -> Seq<char> {
    match mode {
        OnlineTrainMode::Off => "none"@,
        OnlineTrainMode::Sgd => "sgd"@,
        OnlineTrainMode::Adam => "adam"@,
    }
}

/// Name of a training mode.
pub fn train_mode_name(mode: OnlineTrainMode) -> (name: &'static str)
    ensures
        name@ == train_mode_text(mode),
{
    match mode {
        OnlineTrainMode::Off => "none",
        OnlineTrainMode::Sgd => "sgd",
        OnlineTrainMode::Adam => "adam",
    }
}

/// Method that stands for a configuration.
pub open spec fn config_text(cfg: ConfigModel) -> Seq<char> {
    "cfg:hidden="@ + text::decimal(cfg.hidden) + ",layers="@ + text::decimal(cfg.layers) + ",intermediate="@
        + text::decimal(cfg.intermediate) + ",decay_rank="@ + text::decimal(cfg.decay_rank) + ",a_rank="@
        + text::decimal(cfg.a_rank) + ",v_rank="@ + text::decimal(cfg.v_rank) + ",g_rank="@ + text::decimal(
        cfg.g_rank,
    ) + ",seed="@ + text::decimal(cfg.seed) + ",train="@ + train_mode_text(cfg.train_mode) + ",lr="@
        + cfg.lr + ",stride="@ + text::decimal(if cfg.stride == 0 {
        1
    } else {
        cfg.stride
    })
}

/// Method that stands for a configuration.
pub fn cfg_to_method_string(cfg: &OnlineConfig) -> (text: String)
    ensures
        text@ == config_text(cfg@),
{
    let mut out: Vec<char> = Vec::new();
    push_text(&mut out, "cfg:hidden=");
    push_chars(&mut out, decimal_of(cfg.hidden as u64).as_slice());
    push_text(&mut out, ",layers=");
    push_chars(&mut out, decimal_of(cfg.layers as u64).as_slice());
    push_text(&mut out, ",intermediate=");
    push_chars(&mut out, decimal_of(cfg.intermediate as u64).as_slice());
    push_text(&mut out, ",decay_rank=");
    push_chars(&mut out, decimal_of(cfg.decay_rank as u64).as_slice());
    push_text(&mut out, ",a_rank=");
    push_chars(&mut out, decimal_of(cfg.a_rank as u64).as_slice());
    push_text(&mut out, ",v_rank=");
    push_chars(&mut out, decimal_of(cfg.v_rank as u64).as_slice());
    push_text(&mut out, ",g_rank=");
    push_chars(&mut out, decimal_of(cfg.g_rank as u64).as_slice());
    push_text(&mut out, ",seed=");
    push_chars(&mut out, decimal_of(cfg.seed).as_slice());
    push_text(&mut out, ",train=");
    push_text(&mut out, train_mode_name(cfg.train_mode));
    push_text(&mut out, ",lr=");
    push_text(&mut out, cfg.lr.as_str());
    push_text(&mut out, ",stride=");
    let stride: u64 = if cfg.stride == 0 {
        1
    } else {
        cfg.stride as u64
    };
    push_chars(&mut out, decimal_of(stride).as_slice());
    proof {
        assert(out@ =~= config_text(cfg@));
    }
    string_of(&out)
}

/// Method that stands for an online configuration and its schedule.
pub fn canonical_online_method(cfg: &OnlineConfig, policy: Option<&LlmPolicy>) -> (text: String)
    ensures
        text@ == config_text(cfg@) + (match policy {
            Some(p) => ";policy:"@ + llm_policy::policy_text(p@),
            None => Seq::empty(),
        }),
{
    let base = cfg_to_method_string(cfg);
    let mut out = chars_of(base.as_str());
    if let Some(p) = policy {
        push_text(&mut out, ";policy:");
        push_text(&mut out, p.canonical().as_str());
    }
    proof {
        assert(out@ =~= config_text(cfg@) + (match policy {
            Some(p) => ";policy:"@ + llm_policy::policy_text(p@),
            None => Seq::empty(),
        }));
    }
    string_of(&out)
}

/// Method that stands for a parsed method; the pieces are those of the path of a `File`.
pub fn canonical_method_string(spec: &MethodSpec, pieces: &[PathPiece]) -> (text: String)
    ensures
        text@ == (match spec {
            MethodSpec::File { path, policy } => "file:"@ + method_path::escaped(
                method_path::path_text(method_path::piece_models(pieces@), pieces@.len() as int),
            ) + (match policy_model(*policy) {
                Some(p) => ";policy:"@ + llm_policy::policy_text(p),
                None => Seq::empty(),
            }),
            MethodSpec::Online { cfg, policy } => config_text(cfg@) + (match policy_model(*policy) {
                Some(p) => ";policy:"@ + llm_policy::policy_text(p),
                None => Seq::empty(),
            }),
        }),
{
    match spec {
        MethodSpec::File { path, policy } => match policy {
            Some(p) => canonical_file_method_string(pieces, Some(p)),
            None => canonical_file_method_string(pieces, None),
        },
        MethodSpec::Online { cfg, policy } => match policy {
            Some(p) => canonical_online_method(cfg, Some(p)),
            None => canonical_online_method(cfg, None),
        },
    }
}

// ---------------------------------------------------------------------------------------
// Shapes
// ---------------------------------------------------------------------------------------

/// Sizes of a network.
#[derive(Clone, Copy, Debug, PartialEq, Eq, Structural)]
pub struct RwkvShape {
    pub vocab_size: usize,
    pub hidden_size: usize,
    pub num_layers: usize,
    pub num_heads: usize,
    pub head_dim: usize,
    pub intermediate_size: usize,
    pub decay_low_rank: usize,
    pub a_low_rank: usize,
    pub v_low_rank: usize,
    pub g_low_rank: usize,
}

/// The larger of two sizes.
pub open spec fn at_least(n: usize, low: usize) -> usize {
    if n < low {
        low
    } else {
        n
    }
}

fn raise(n: usize, low: usize) -> (m: usize)
    ensures
        m == at_least(n, low),
{
    if n < low {
        low
    } else {
        n
    }
}

impl OnlineConfig {
    /// Sizes of the network that the configuration describes.
    pub fn to_rwkv_config(&self) -> (r: Result<RwkvShape, MethodError>)
        ensures
            ({
                let hidden = at_least(self.hidden, 64);
                if hidden % 64 != 0 {
                    r matches Err(e) && e@ == method_fault(
                        MethodErrorKind::HiddenNotMultiple,
                        Seq::empty(),
                        text::decimal(hidden as nat),
                    )
                } else {
                    r matches Ok(shape) && shape == (RwkvShape {
                        vocab_size: 256,
                        hidden_size: hidden,
                        num_layers: at_least(self.layers, 1),
                        num_heads: hidden / 64,
                        head_dim: 64,
                        intermediate_size: at_least(self.intermediate, 1),
                        decay_low_rank: at_least(self.decay_rank, 1),
                        a_low_rank: at_least(self.a_rank, 1),
                        v_low_rank: at_least(self.v_rank, 1),
                        g_low_rank: at_least(self.g_rank, 1),
                    })
                }
            }),
    {
        let hidden: usize = raise(self.hidden, 64);
        if hidden % 64 != 0 {
            return Err(
                MethodError {
                    kind: MethodErrorKind::HiddenNotMultiple,
                    key: String::new(),
                    value: string_of(decimal_of(hidden as u64).as_slice()),
                    policy: None,
                },
            );
        }
        Ok(
            RwkvShape {
                vocab_size: 256,
                hidden_size: hidden,
                num_layers: raise(self.layers, 1),
                num_heads: hidden / 64,
                head_dim: 64,
                intermediate_size: raise(self.intermediate, 1),
                decay_low_rank: raise(self.decay_rank, 1),
                a_low_rank: raise(self.a_rank, 1),
                v_low_rank: raise(self.v_rank, 1),
                g_low_rank: raise(self.g_rank, 1),
            },
        )
    }
}

/// Whether loaded weights have the sizes that the configuration asks for.
pub fn shape_matches(loaded: &RwkvShape, wanted: &RwkvShape) -> (yes: bool)
    ensures
        yes == (*loaded == *wanted),
{
    *loaded == *wanted
}

impl MethodError {
    /// Text of a refusal.
    pub open spec fn text(e: MethodErrorModel) -> Seq<char> {
        match e.kind {
            MethodErrorKind::Segments => match e.policy {
                Some(p) => policy_error::error_text(p),
                None => Seq::empty(),
            },
            MethodErrorKind::Policy => "failed to parse rwkv policy segment: "@ + (match e.policy {
                Some(p) => policy_error::error_text(p),
                None => Seq::empty(),
            }),
            MethodErrorKind::EmptyFilePath => "empty file path in rwkv method"@,
            MethodErrorKind::LoadFromWithFile =>
                "rwkv method cannot use policy load_from together with file:<path>"@,
            MethodErrorKind::LoadFromWithPath =>
                "rwkv method cannot use policy load_from together with file path"@,
            MethodErrorKind::PositionalCount =>
                "positional cfg format expects 6 or 7 values: hidden,intermediate,layers,train,seed,lr[,stride]"@,
            MethodErrorKind::InvalidPair => "invalid cfg key/value pair '"@ + e.value + "'"@,
            MethodErrorKind::InvalidInteger => "invalid integer value for '"@ + e.key + "': "@
                + e.value,
            MethodErrorKind::InvalidFloat => "invalid float value for '"@ + e.key + "': "@ + e.value,
            MethodErrorKind::UnknownTrainMode => "unknown train mode '"@ + e.value + "'"@,
            MethodErrorKind::UnknownKey => "unknown rwkv cfg key '"@ + e.value + "'"@,
            MethodErrorKind::UnknownMethod =>
                "rwkv method must be 'file:<path>', 'cfg:<k=v,...>', positional cfg CSV, or an existing model path"@,
            MethodErrorKind::HiddenNotMultiple => "rwkv hidden must be a multiple of 64 (got "@
                + e.value + ")"@,
        }
    }

    /// What to tell the user.
    pub fn message(&self) -> (message: String)
        ensures
            message@ == MethodError::text(self@),
    {
        let mut out: Vec<char> = Vec::new();
        match self.kind {
            MethodErrorKind::Segments => {
                if let Some(p) = &self.policy {
                    push_text(&mut out, p.message().as_str());
                }
            },
            MethodErrorKind::Policy => {
                push_text(&mut out, "failed to parse rwkv policy segment: ");
                if let Some(p) = &self.policy {
                    push_text(&mut out, p.message().as_str());
                }
            },
            MethodErrorKind::EmptyFilePath => push_text(&mut out, "empty file path in rwkv method"),
            MethodErrorKind::LoadFromWithFile => push_text(
                &mut out,
                "rwkv method cannot use policy load_from together with file:<path>",
            ),
            MethodErrorKind::LoadFromWithPath => push_text(
                &mut out,
                "rwkv method cannot use policy load_from together with file path",
            ),
            MethodErrorKind::PositionalCount => push_text(
                &mut out,
                "positional cfg format expects 6 or 7 values: hidden,intermediate,layers,train,seed,lr[,stride]",
            ),
            MethodErrorKind::InvalidPair => {
                push_text(&mut out, "invalid cfg key/value pair '");
                push_text(&mut out, self.value.as_str());
                push_text(&mut out, "'");
            },
            MethodErrorKind::InvalidInteger => {
                push_text(&mut out, "invalid integer value for '");
                push_text(&mut out, self.key.as_str());
                push_text(&mut out, "': ");
                push_text(&mut out, self.value.as_str());
            },
            MethodErrorKind::InvalidFloat => {
                push_text(&mut out, "invalid float value for '");
                push_text(&mut out, self.key.as_str());
                push_text(&mut out, "': ");
                push_text(&mut out, self.value.as_str());
            },
            MethodErrorKind::UnknownTrainMode => {
                push_text(&mut out, "unknown train mode '");
                push_text(&mut out, self.value.as_str());
                push_text(&mut out, "'");
            },
            MethodErrorKind::UnknownKey => {
                push_text(&mut out, "unknown rwkv cfg key '");
                push_text(&mut out, self.value.as_str());
                push_text(&mut out, "'");
            },
            MethodErrorKind::UnknownMethod => push_text(
                &mut out,
                "rwkv method must be 'file:<path>', 'cfg:<k=v,...>', positional cfg CSV, or an existing model path",
            ),
            MethodErrorKind::HiddenNotMultiple => {
                push_text(&mut out, "rwkv hidden must be a multiple of 64 (got ");
                push_text(&mut out, self.value.as_str());
                push_text(&mut out, ")");
            },
        }
        proof {
            assert(out@ =~= MethodError::text(self@));
        }
        string_of(&out)
    }
}

} // verus!
