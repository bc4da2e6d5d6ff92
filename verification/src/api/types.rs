//! Descriptions of rate and compression backends, and contexts made of them.

use vstd::prelude::*;
use crate::text;
use crate::backends::zpaq_rate;
use crate::backends::rwkvzip::method;
use crate::backends::method_path;
use crate::backends::llm_policy;

use crate::api::session::{ApiError, ApiFault};
use crate::backends::rwkvzip::method::{canonical_method_string, parse_method_spec, MethodError, MethodErrorModel, MethodSpec, SpecModel};
use crate::backends::method_path::{path_pieces, PathPiece};
use crate::backends::zpaq_rate::validate_zpaq_rate_method;
use crate::coders::CoderType;
use crate::text::{chars_of, string_of};

verus! {

/// Whether a payload carries a header.
#[derive(Clone, Copy, Debug, PartialEq, Eq, Structural)]
pub enum FramingMode {
    /// It does not.
    Raw,
    /// It does.
    Framed,
}

/// Description of a model that predicts symbols.
#[derive(Debug)]
pub enum RateBackend {
    /// Suffix automaton with back-off.
    RosaPlus { max_order: i64 },
    /// Context tree weighting.
    Ctw { depth: usize },
    /// Factored context tree weighting.
    FacCtw {
        base_depth: usize,
        num_percept_bits: usize,
        encoding_bits: usize,
        msb_first: Option<bool>,
    },
    /// Recurrent network by its method.
    Rwkv7Method { method: String },
    /// State space network by its method.
    MambaMethod { method: String },
    /// Streaming compressor by its method.
    Zpaq { method: String },
}

/// [`RateBackend`] as a mathematical object.
#[verifier::ext_equal]
pub enum RateModel {
    RosaPlus { max_order: i64 },
    Ctw { depth: usize },
    FacCtw {
        base_depth: usize,
        num_percept_bits: usize,
        encoding_bits: usize,
        msb_first: Option<bool>,
    },
    Rwkv7Method { method: Seq<char> },
    MambaMethod { method: Seq<char> },
    Zpaq { method: Seq<char> },
}

impl View for RateBackend {
    type V = RateModel;

    open spec fn view(&self) -> RateModel {
        match self {
            RateBackend::RosaPlus { max_order } => RateModel::RosaPlus { max_order: *max_order },
            RateBackend::Ctw { depth } => RateModel::Ctw { depth: *depth },
            RateBackend::FacCtw { base_depth, num_percept_bits, encoding_bits, msb_first } =>
                RateModel::FacCtw {
                    base_depth: *base_depth,
                    num_percept_bits: *num_percept_bits,
                    encoding_bits: *encoding_bits,
                    msb_first: *msb_first,
                },
            RateBackend::Rwkv7Method { method } => RateModel::Rwkv7Method { method: method@ },
            RateBackend::MambaMethod { method } => RateModel::MambaMethod { method: method@ },
            RateBackend::Zpaq { method } => RateModel::Zpaq { method: method@ },
        }
    }
}

fn same_text(text: &String) -> (copy: String)
    ensures
        copy@ == text@,
{
    string_of(chars_of(text.as_str()).as_slice())
}

impl Clone for RateBackend {
    fn clone(&self) -> (copy: Self)
        ensures
            copy@ == self@,
    {
        match self {
            RateBackend::RosaPlus { max_order } => RateBackend::RosaPlus { max_order: *max_order },
            RateBackend::Ctw { depth } => RateBackend::Ctw { depth: *depth },
            RateBackend::FacCtw { base_depth, num_percept_bits, encoding_bits, msb_first } =>
                RateBackend::FacCtw {
                    base_depth: *base_depth,
                    num_percept_bits: *num_percept_bits,
                    encoding_bits: *encoding_bits,
                    msb_first: *msb_first,
                },
            RateBackend::Rwkv7Method { method } => RateBackend::Rwkv7Method {
                method: same_text(method),
            },
            RateBackend::MambaMethod { method } => RateBackend::MambaMethod {
                method: same_text(method),
            },
            RateBackend::Zpaq { method } => RateBackend::Zpaq { method: same_text(method) },
        }
    }
}

/// Description of a compressor.
#[derive(Debug)]
pub enum CompressionBackend {
    /// Block compressor by its method.
    Zpaq { method: String },
    /// Recurrent network by its method.
    Rwkv7 { method: String, coder: CoderType },
    /// A model that predicts symbols, with an entropy coder.
    Rate { rate_backend: RateBackend, coder: CoderType, framing: FramingMode },
}

/// [`CompressionBackend`] as a mathematical object.
#[verifier::ext_equal]
pub enum CompressionModel {
    Zpaq { method: Seq<char> },
    Rwkv7 { method: Seq<char>, coder: CoderType },
    Rate { rate_backend: RateModel, coder: CoderType, framing: FramingMode },
}

impl View for CompressionBackend {
    type V = CompressionModel;

    open spec fn view(&self) -> CompressionModel {
        match self {
            CompressionBackend::Zpaq { method } => CompressionModel::Zpaq { method: method@ },
            CompressionBackend::Rwkv7 { method, coder } => CompressionModel::Rwkv7 {
                method: method@,
                coder: *coder,
            },
            CompressionBackend::Rate { rate_backend, coder, framing } => CompressionModel::Rate {
                rate_backend: rate_backend@,
                coder: *coder,
                framing: *framing,
            },
        }
    }
}

impl Clone for CompressionBackend {
    fn clone(&self) -> (copy: Self)
        ensures
            copy@ == self@,
    {
        match self {
            CompressionBackend::Zpaq { method } => CompressionBackend::Zpaq {
                method: same_text(method),
            },
            CompressionBackend::Rwkv7 { method, coder } => CompressionBackend::Rwkv7 {
                method: same_text(method),
                coder: *coder,
            },
            CompressionBackend::Rate { rate_backend, coder, framing } => CompressionBackend::Rate {
                rate_backend: rate_backend.clone(),
                coder: *coder,
                framing: *framing,
            },
        }
    }
}

// ---------------------------------------------------------------------------------------
// Compiled descriptions
// ---------------------------------------------------------------------------------------

/// A description of a model whose method has been checked and put in its canonical form.
#[derive(Debug)]
pub struct CompiledRateBackend {
    /// The canonical description.
    pub spec_form: RateBackend,
}

/// A description of a compressor whose methods have been checked and put in their canonical form.
#[derive(Debug)]
pub struct CompiledCompressionBackend {
    /// The canonical description.
    pub spec_form: CompressionBackend,
}

impl Clone for CompiledRateBackend {
    fn clone(&self) -> (copy: Self)
        ensures
            copy.spec_form@ == self.spec_form@,
    {
        CompiledRateBackend { spec_form: self.spec_form.clone() }
    }
}

impl Clone for CompiledCompressionBackend {
    fn clone(&self) -> (copy: Self)
        ensures
            copy.spec_form@ == self.spec_form@,
    {
        CompiledCompressionBackend { spec_form: self.spec_form.clone() }
    }
}

impl CompiledRateBackend {
    /// The canonical description.
    pub fn canonical_spec(&self) -> (form: &RateBackend)
        ensures
            *form == self.spec_form,
    {
        &self.spec_form
    }
}

impl CompiledCompressionBackend {
    /// The canonical description.
    pub fn canonical_spec(&self) -> (form: &CompressionBackend)
        ensures
            *form == self.spec_form,
    {
        &self.spec_form
    }
}

/// What the machine knows of the path in a method.
pub struct PathFacts {
    /// Whether the method, taken as a path, is that of a file.
    pub plain_exists: bool,
    /// Components of the path of the weights, where the machine has names between other characters
    /// than slashes.
    pub foreign: Option<Vec<PathPiece>>,
}

/// Text of the path of the weights, each of its components once.
pub open spec fn normal_path(path: Seq<char>, facts: PathFacts) -> Seq<char> {
    let pieces = match facts.foreign {
        Some(pieces) => method_path::piece_models(pieces@),
        None => method_path::pieces_in(path),
    };
    method_path::path_text(pieces, pieces.len() as int)
}

/// Canonical form of the method of a recurrent network.
pub open spec fn canonical_network(method: Seq<char>, facts: PathFacts) -> Result<
    Seq<char>,
    MethodErrorModel,
> {
    match method::spec_of(method, facts.plain_exists) {
        Err(e) => Err(e),
        Ok(SpecModel::File { path, policy }) => Ok(
            "file:"@ + method_path::escaped(normal_path(path, facts)) + (match policy {
                Some(p) => ";policy:"@ + llm_policy::policy_text(p),
                None => Seq::empty(),
            }),
        ),
        Ok(SpecModel::Online { cfg, policy }) => Ok(
            method::config_text(cfg) + (match policy {
                Some(p) => ";policy:"@ + llm_policy::policy_text(p),
                None => Seq::empty(),
            }),
        ),
    }
}

fn network_method(method: &str, facts: &PathFacts) -> (result: Result<String, MethodError>)
    ensures
        match canonical_network(method@, *facts) {
            Ok(text) => result matches Ok(m) && m@ == text,
            Err(e) => result matches Err(error) && error@ == e,
        },
{
    match parse_method_spec(method, facts.plain_exists) {
        Err(e) => Err(e),
        Ok(form) => match &facts.foreign {
            Some(pieces) => Ok(canonical_method_string(&form, pieces.as_slice())),
            None => {
                let pieces = match &form {
                    MethodSpec::File { path, policy } => path_pieces(path.as_str()),
                    MethodSpec::Online { cfg, policy } => Vec::new(),
                };
                Ok(canonical_method_string(&form, pieces.as_slice()))
            },
        },
    }
}

/// Whether a compiled description, or a fault, is what a description gives. Whether a method of the
/// streaming compressor is accepted is for its library to say, but for the methods that are refused
/// in any case; a refusal has the text of a fault that fits the method.
pub open spec fn rate_compiles(
    form: RateModel,
    facts: PathFacts,
    result: Result<RateModel, ApiFault>,
) -> bool {
    match form {
        RateModel::Rwkv7Method { method } => match canonical_network(method, facts) {
            Ok(text) => result == Ok::<RateModel, ApiFault>(RateModel::Rwkv7Method { method: text }),
            Err(e) => result == Err::<RateModel, ApiFault>(
                ApiFault::InvalidBackendConfig(MethodError::text(e)),
            ),
        },
        RateModel::Zpaq { method } => match zpaq_rate::plain_refusal(method) {
            Some(text) => result == Err::<RateModel, ApiFault>(
                ApiFault::InvalidBackendConfig(zpaq_rate::library_fault(text)),
            ),
            None => match result {
                Ok(same) => same == form && !text::trimmed(method).contains('\0')
                    && zpaq_rate::can_be_opened(method),
                Err(fault) => fault matches ApiFault::InvalidBackendConfig(text)
                    && zpaq_rate::tells_fault(text, method),
            },
        },
        _ => result == Ok::<RateModel, ApiFault>(form),
    }
}

/// Result of compiling a model, as a mathematical object.
pub open spec fn rate_result(result: Result<CompiledRateBackend, ApiError>) -> Result<
    RateModel,
    ApiFault,
> {
    match result {
        Ok(c) => Ok(c.spec_form@),
        Err(e) => Err(e@),
    }
}

impl RateBackend {
    /// The model of a context that nobody described.
    pub fn try_default() -> (form: RateBackend)
        ensures
            form@ == (RateModel::RosaPlus { max_order: (-1) as i64 }),
    {
        RateBackend::RosaPlus { max_order: -1 }
    }

    /// Checks the description and puts its method in canonical form.
    pub fn compile(&self, facts: &PathFacts) -> (result: Result<CompiledRateBackend, ApiError>)
        ensures
            rate_compiles(self@, *facts, rate_result(result)),
    {
        match self {
            RateBackend::Rwkv7Method { method } => match network_method(method.as_str(), facts) {
                Ok(m) => Ok(
                    CompiledRateBackend { spec_form: RateBackend::Rwkv7Method { method: m } },
                ),
                Err(e) => Err(ApiError::InvalidBackendConfig(e.message())),
            },
            RateBackend::Zpaq { method } => match validate_zpaq_rate_method(method.as_str()) {
                Ok(_) => Ok(CompiledRateBackend { spec_form: self.clone() }),
                Err(e) => Err(ApiError::InvalidBackendConfig(e)),
            },
            _ => Ok(CompiledRateBackend { spec_form: self.clone() }),
        }
    }
}

/// Whether a compiled description, or a fault, is what a description gives.
pub open spec fn compression_compiles(
    form: CompressionModel,
    facts: PathFacts,
    result: Result<CompressionModel, ApiFault>,
) -> bool {
    match form {
        CompressionModel::Zpaq { method } => result == Ok::<CompressionModel, ApiFault>(form),
        CompressionModel::Rwkv7 { method, coder } => match canonical_network(method, facts) {
            Ok(text) => result == Ok::<CompressionModel, ApiFault>(
                CompressionModel::Rwkv7 { method: text, coder },
            ),
            Err(e) => result == Err::<CompressionModel, ApiFault>(
                ApiFault::InvalidBackendConfig(MethodError::text(e)),
            ),
        },
        CompressionModel::Rate { rate_backend, coder, framing } => {
            let inner = match result {
                Ok(CompressionModel::Rate { rate_backend: r, coder: c, framing: f }) => Ok::<
                    RateModel,
                    ApiFault,
                >(r),
                Ok(other) => Ok::<RateModel, ApiFault>(rate_backend),
                Err(e) => Err::<RateModel, ApiFault>(e),
            };
            &&& rate_compiles(rate_backend, facts, inner)
            &&& result matches Ok(m) ==> (m matches CompressionModel::Rate {
                rate_backend: r,
                coder: c,
                framing: f,
            } && c == coder && f == framing)
        },
    }
}

/// Result of compiling a compressor, as a mathematical object.
pub open spec fn compression_result(result: Result<CompiledCompressionBackend, ApiError>) -> Result<
    CompressionModel,
    ApiFault,
> {
    match result {
        Ok(c) => Ok(c.spec_form@),
        Err(e) => Err(e@),
    }
}

impl CompressionBackend {
    /// The compressor of a context that nobody described.
    pub fn try_default() -> (form: CompressionBackend)
        ensures
            form@ == (CompressionModel::Zpaq { method: "5"@ }),
    {
        CompressionBackend::Zpaq { method: "5".to_string() }
    }

    /// Block compressor by its method.
    pub fn zpaq(method: &str) -> (form: CompressionBackend)
        ensures
            form@ == (CompressionModel::Zpaq { method: method@ }),
    {
        CompressionBackend::Zpaq { method: method.to_string() }
    }

    /// Checks the description and puts its methods in canonical form.
    pub fn compile(&self, facts: &PathFacts) -> (result: Result<
        CompiledCompressionBackend,
        ApiError,
    >)
        ensures
            compression_compiles(self@, *facts, compression_result(result)),
    {
        match self {
            CompressionBackend::Zpaq { method } => Ok(
                CompiledCompressionBackend { spec_form: self.clone() },
            ),
            CompressionBackend::Rwkv7 { method, coder } => match network_method(
                method.as_str(),
                facts,
            ) {
                Ok(m) => Ok(
                    CompiledCompressionBackend {
                        spec_form: CompressionBackend::Rwkv7 { method: m, coder: *coder },
                    },
                ),
                Err(e) => Err(ApiError::InvalidBackendConfig(e.message())),
            },
            CompressionBackend::Rate { rate_backend, coder, framing } => match rate_backend.compile(
                facts,
            ) {
                Ok(c) => Ok(
                    CompiledCompressionBackend {
                        spec_form: CompressionBackend::Rate {
                            rate_backend: c.spec_form,
                            coder: *coder,
                            framing: *framing,
                        },
                    },
                ),
                Err(e) => Err(e),
            },
        }
    }
}

// ---------------------------------------------------------------------------------------
// Contexts
// ---------------------------------------------------------------------------------------

/// A model and a compressor to work with.
#[derive(Debug)]
pub struct InfotheoryCtx {
    /// The model.
    pub rate_backend: CompiledRateBackend,
    /// The compressor.
    pub compression_backend: CompiledCompressionBackend,
}

impl Clone for InfotheoryCtx {
    fn clone(&self) -> (copy: Self)
        ensures
            copy.rate_backend.spec_form@ == self.rate_backend.spec_form@,
            copy.compression_backend.spec_form@ == self.compression_backend.spec_form@,
    {
        InfotheoryCtx {
            rate_backend: self.rate_backend.clone(),
            compression_backend: self.compression_backend.clone(),
        }
    }
}

/// Whether a context, or a fault, is what two descriptions give: the fault of the model comes
/// first.
pub open spec fn context_of(
    rate: RateModel,
    compression: CompressionModel,
    rate_facts: PathFacts,
    compression_facts: PathFacts,
    result: Result<InfotheoryCtx, ApiError>,
) -> bool {
    match result {
        Ok(ctx) => rate_compiles(rate, rate_facts, Ok(ctx.rate_backend.spec_form@))
            && compression_compiles(
            compression,
            compression_facts,
            Ok(ctx.compression_backend.spec_form@),
        ),
        Err(e) => rate_compiles(rate, rate_facts, Err(e@)) || (exists|r: RateModel| #[trigger]
            rate_compiles(rate, rate_facts, Ok(r)) && compression_compiles(
                compression,
                compression_facts,
                Err(e@),
            )),
    }
}

impl InfotheoryCtx {
    /// A context of a model and a compressor.
    pub fn new(
        rate_backend: CompiledRateBackend,
        compression_backend: CompiledCompressionBackend,
    ) -> (ctx: Self)
        ensures
            ctx.rate_backend == rate_backend,
            ctx.compression_backend == compression_backend,
    {
        InfotheoryCtx { rate_backend, compression_backend }
    }

    /// A context of two descriptions, each with what the machine knows of its path.
    pub fn from_specs(
        rate_backend: RateBackend,
        compression_backend: CompressionBackend,
        rate_facts: &PathFacts,
        compression_facts: &PathFacts,
    ) -> (result: Result<Self, ApiError>)
        ensures
            context_of(
                rate_backend@,
                compression_backend@,
                *rate_facts,
                *compression_facts,
                result,
            ),
    {
        let rate = match rate_backend.compile(rate_facts) {
            Ok(c) => c,
            Err(e) => {
                return Err(e);
            },
        };
        let compression = match compression_backend.compile(compression_facts) {
            Ok(c) => c,
            Err(e) => {
                proof {
                    assert(rate_compiles(rate_backend@, *rate_facts, Ok(rate.spec_form@)));
                }
                return Err(e);
            },
        };
        Ok(InfotheoryCtx { rate_backend: rate, compression_backend: compression })
    }

    /// The context that nobody described.
    pub fn try_default() -> (result: Result<Self, ApiError>)
        ensures
            result matches Ok(ctx) && ctx.rate_backend.spec_form@ == (RateModel::RosaPlus {
                max_order: (-1) as i64,
            }) && ctx.compression_backend.spec_form@ == (CompressionModel::Zpaq { method: "5"@ }),
    {
        let facts = PathFacts { plain_exists: false, foreign: None };
        InfotheoryCtx::from_specs(
            RateBackend::try_default(),
            CompressionBackend::try_default(),
            &facts,
            &facts,
        )
    }

    /// A context with the suffix automaton and the block compressor.
    pub fn try_with_zpaq(method: &str) -> (result: Result<Self, ApiError>)
        ensures
            result matches Ok(ctx) && ctx.rate_backend.spec_form@ == (RateModel::RosaPlus {
                max_order: (-1) as i64,
            }) && ctx.compression_backend.spec_form@ == (CompressionModel::Zpaq {
                method: method@,
            }),
    {
        let facts = PathFacts { plain_exists: false, foreign: None };
        InfotheoryCtx::from_specs(
            RateBackend::RosaPlus { max_order: -1 },
            CompressionBackend::zpaq(method),
            &facts,
            &facts,
        )
    }
}

} // verus!
