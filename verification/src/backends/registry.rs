//! Names of the backends, and which of them are here.

use vstd::prelude::*;
use crate::text;
use crate::backends::llm_policy;

use crate::api::types::{CompiledCompressionBackend, CompiledRateBackend, CompressionBackend, CompressionModel, FramingMode, RateBackend, RateModel};
use crate::coders::CoderType;
use crate::text::{chars_of, is_text, lowercase, trim};

verus! {

/// What a name stands for.
#[derive(Clone, Copy, Debug, PartialEq, Eq)]
pub enum BackendAvailability {
    /// A backend that is here.
    Enabled(&'static str),
    /// A backend that is not here.
    Disabled {
        /// Its name.
        canonical: &'static str,
        /// What brings it.
        feature: &'static str,
    },
}

/// [`BackendAvailability`] as a mathematical object.
#[verifier::ext_equal]
pub enum AvailabilityModel {
    Enabled(Seq<char>),
    Disabled { canonical: Seq<char>, feature: Seq<char> },
}

impl View for BackendAvailability {
    type V = AvailabilityModel;

    open spec fn view(&self) -> AvailabilityModel {
        match self {
            BackendAvailability::Enabled(name) => AvailabilityModel::Enabled(name@),
            BackendAvailability::Disabled { canonical, feature } => AvailabilityModel::Disabled {
                canonical: canonical@,
                feature: feature@,
            },
        }
    }
}

/// Family of networks that are described by a method.
#[derive(Clone, Copy, Debug, PartialEq, Eq, Structural)]
pub enum MethodBackendFamily {
    /// State space networks.
    Mamba,
    /// Recurrent networks.
    Rwkv7,
}

/// Entry of a registry.
#[derive(Clone, Copy, Debug)]
pub struct BackendDescriptor {
    /// Name of the backend.
    pub canonical: &'static str,
    /// Another name.
    pub alias: &'static str,
    /// One more name.
    pub other_alias: &'static str,
    /// What brings the backend; empty where nothing has to.
    pub feature: &'static str,
    /// Whether the backend is here.
    pub enabled: bool,
}

/// [`BackendDescriptor`] as a mathematical object.
#[verifier::ext_equal]
pub struct DescriptorModel {
    pub canonical: Seq<char>,
    pub alias: Seq<char>,
    pub other_alias: Seq<char>,
    pub feature: Seq<char>,
    pub enabled: bool,
}

impl View for BackendDescriptor {
    type V = DescriptorModel;

    open spec fn view(&self) -> DescriptorModel {
        DescriptorModel {
            canonical: self.canonical@,
            alias: self.alias@,
            other_alias: self.other_alias@,
            feature: self.feature@,
            enabled: self.enabled,
        }
    }
}

/// Entries as mathematical objects.
pub open spec fn descriptors(list: Seq<BackendDescriptor>) -> Seq<DescriptorModel> {
    list.map_values(|d: BackendDescriptor| d@)
}

/// An entry; names that are not needed repeat the first.
pub open spec fn entry(
    canonical: Seq<char>,
    alias: Seq<char>,
    other_alias: Seq<char>,
    feature: Seq<char>,
    enabled: bool,
) -> DescriptorModel {
    DescriptorModel { canonical, alias, other_alias, feature, enabled }
}

/// Models that predict symbols.
pub open spec fn rate_registry() -> Seq<DescriptorModel> {
    seq![
        entry("rosaplus"@, "rosa"@, "rosa+"@, "backend-rosa"@, true),
        entry("ctw"@, "ctw"@, "ctw"@, "backend-ctw"@, false),
        entry("fac-ctw"@, "facctw"@, "fac_ctw"@, "backend-ctw"@, false),
        entry("match"@, "match"@, "match"@, "backend-match"@, false),
        entry("sparse-match"@, "sparsematch"@, "sparse_match"@, "backend-match"@, false),
        entry("ppmd"@, "ppmd"@, "ppmd"@, "backend-ppmd"@, true),
        entry("sequitur"@, "sequitur"@, "sequitur"@, "backend-sequitur"@, false),
        entry("calibrated"@, "calibrated"@, "calibrated"@, "backend-calibrated"@, true),
        entry("zpaq"@, "zpaq"@, "zpaq"@, "backend-zpaq"@, true),
        entry("mixture"@, "mix"@, "mixture"@, "backend-mixture"@, false),
        entry("particle"@, "particle"@, "particle"@, "backend-particle"@, false),
        entry("rwkv7"@, "rwkv"@, "rwkv7"@, "backend-rwkv"@, true),
        entry("mamba"@, "mamba1"@, "mamba"@, "backend-mamba"@, false),
    ]
}

/// Compressors.
pub open spec fn compression_registry() -> Seq<DescriptorModel> {
    seq![
        entry("zpaq"@, "zpaq"@, "zpaq"@, "backend-zpaq"@, true),
        entry("rate-ac"@, "rate_ac"@, "rateac"@, ""@, true),
        entry("rate-rans"@, "rate_rans"@, "raterans"@, ""@, true),
        entry("rwkv7"@, "rwkv"@, "rwkv7"@, "backend-rwkv"@, true),
    ]
}

fn describe(
    canonical: &'static str,
    alias: &'static str,
    other_alias: &'static str,
    feature: &'static str,
    enabled: bool,
) -> (d: BackendDescriptor)
    ensures
        d@ == entry(canonical@, alias@, other_alias@, feature@, enabled),
{
    BackendDescriptor { canonical, alias, other_alias, feature, enabled }
}

/// Models that predict symbols.
pub fn rate_backend_registry() -> (list: Vec<BackendDescriptor>)
    ensures
        descriptors(list@) == rate_registry(),
{
    let mut list: Vec<BackendDescriptor> = Vec::new();
    list.push(describe("rosaplus", "rosa", "rosa+", "backend-rosa", true));
    list.push(describe("ctw", "ctw", "ctw", "backend-ctw", false));
    list.push(describe("fac-ctw", "facctw", "fac_ctw", "backend-ctw", false));
    list.push(describe("match", "match", "match", "backend-match", false));
    list.push(describe("sparse-match", "sparsematch", "sparse_match", "backend-match", false));
    list.push(describe("ppmd", "ppmd", "ppmd", "backend-ppmd", true));
    list.push(describe("sequitur", "sequitur", "sequitur", "backend-sequitur", false));
    list.push(describe("calibrated", "calibrated", "calibrated", "backend-calibrated", true));
    list.push(describe("zpaq", "zpaq", "zpaq", "backend-zpaq", true));
    list.push(describe("mixture", "mix", "mixture", "backend-mixture", false));
    list.push(describe("particle", "particle", "particle", "backend-particle", false));
    list.push(describe("rwkv7", "rwkv", "rwkv7", "backend-rwkv", true));
    list.push(describe("mamba", "mamba1", "mamba", "backend-mamba", false));
    proof {
        assert(descriptors(list@) =~= rate_registry());
    }
    list
}

/// Compressors.
pub fn compression_backend_registry() -> (list: Vec<BackendDescriptor>)
    ensures
        descriptors(list@) == compression_registry(),
{
    let mut list: Vec<BackendDescriptor> = Vec::new();
    list.push(describe("zpaq", "zpaq", "zpaq", "backend-zpaq", true));
    list.push(describe("rate-ac", "rate_ac", "rateac", "", true));
    list.push(describe("rate-rans", "rate_rans", "raterans", "", true));
    list.push(describe("rwkv7", "rwkv", "rwkv7", "backend-rwkv", true));
    proof {
        assert(descriptors(list@) =~= compression_registry());
    }
    list
}

/// Names of the backends of a registry that are here.
pub open spec fn enabled_names(registry: Seq<DescriptorModel>) -> Seq<Seq<char>>
    decreases registry.len(),
{
    if registry.len() == 0 {
        Seq::empty()
    } else if registry.last().enabled {
        enabled_names(registry.drop_last()).push(registry.last().canonical)
    } else {
        enabled_names(registry.drop_last())
    }
}

fn available_backend_names(registry: Vec<BackendDescriptor>) -> (names: Vec<&'static str>)
    ensures
        llm_policy::strs(names@) == enabled_names(descriptors(registry@)),
{
    let ghost all = descriptors(registry@);
    let mut names: Vec<&'static str> = Vec::new();
    let n: usize = registry.len();
    let mut i: usize = 0;
    proof {
        assert(llm_policy::strs(names@) =~= enabled_names(all.take(0)));
    }
    while i < n
        invariant
            i <= n == registry@.len(),
            all == descriptors(registry@),
            llm_policy::strs(names@) == enabled_names(all.take(i as int)),
        decreases n - i,
    {
        let d = &registry[i];
        if d.enabled {
            names.push(d.canonical);
        }
        proof {
                let next = all.take(i + 1);
            assert(next.drop_last() =~= all.take(i as int));
            assert(next.last() == d@);
            assert(llm_policy::strs(names@) =~= enabled_names(next));
        }
        i += 1;
    }
    proof {
        assert(all.take(n as int) =~= all);
    }
    names
}

/// Names of the models that are here.
pub fn available_rate_backends() -> (names: Vec<&'static str>)
    ensures
        llm_policy::strs(names@) == enabled_names(rate_registry()),
{
    available_backend_names(rate_backend_registry())
}

/// Names of the compressors that are here.
pub fn available_compression_backends() -> (names: Vec<&'static str>)
    ensures
        llm_policy::strs(names@) == enabled_names(compression_registry()),
{
    available_backend_names(compression_backend_registry())
}

/// Whether an entry goes by a name.
pub open spec fn goes_by(d: DescriptorModel, name: Seq<char>) -> bool {
    d.canonical == name || d.alias == name || d.other_alias == name
}

/// What a name stands for, in the entries from number `i` on.
pub open spec fn resolved(registry: Seq<DescriptorModel>, name: Seq<char>, i: int) -> Option<
    AvailabilityModel,
>
    decreases registry.len() - i,
{
    if i < 0 || i >= registry.len() {
        None
    } else if goes_by(registry[i], name) {
        if registry[i].enabled {
            Some(AvailabilityModel::Enabled(registry[i].canonical))
        } else {
            Some(
                AvailabilityModel::Disabled {
                    canonical: registry[i].canonical,
                    feature: registry[i].feature,
                },
            )
        }
    } else {
        resolved(registry, name, i + 1)
    }
}

/// What a name stands for: blanks around it and the case of its letters do not matter.
pub open spec fn meaning(registry: Seq<DescriptorModel>, input: Seq<char>) -> Option<
    AvailabilityModel,
> {
    resolved(registry, text::lowered(text::trimmed(input)), 0)
}

/// A name stands for the first entry that has it as one of its names; it is told whether the backend
/// of that entry is here, and else what would bring it. A name that no entry has stands for nothing.
pub proof fn law_names_are_resolved(registry: Seq<DescriptorModel>, name: Seq<char>, from: int)
    requires
        0 <= from <= registry.len(),
    ensures
        match resolved(registry, name, from) {
            Some(found) => exists|i: int|
                from <= i < registry.len() && ((#[trigger] registry[i]).canonical == name
                    || registry[i].alias == name || registry[i].other_alias == name) && (match found {
                    AvailabilityModel::Enabled(canonical) => registry[i].enabled && canonical
                        == registry[i].canonical,
                    AvailabilityModel::Disabled { canonical, feature } => !registry[i].enabled
                        && canonical == registry[i].canonical && feature == registry[i].feature,
                }) && forall|j: int|
                    from <= j < i ==> (#[trigger] registry[j]).canonical != name && registry[j].alias
                        != name && registry[j].other_alias != name,
            None => forall|j: int|
                from <= j < registry.len() ==> (#[trigger] registry[j]).canonical != name
                    && registry[j].alias != name && registry[j].other_alias != name,
        },
    decreases registry.len() - from,
{
    if from < registry.len() {
        if goes_by(registry[from], name) {
            assert(registry[from].canonical == name || registry[from].alias == name
                || registry[from].other_alias == name);
        } else {
            law_names_are_resolved(registry, name, from + 1);
        }
    }
}

/// The names that are listed are the canonical names of the backends that are here.
pub proof fn law_listed_names(registry: Seq<DescriptorModel>, name: Seq<char>)
    ensures
        enabled_names(registry).contains(name) <==> exists|i: int|
            0 <= i < registry.len() && (#[trigger] registry[i]).enabled && registry[i].canonical == name,
    decreases registry.len(),
{
    if registry.len() > 0 {
        let rest = registry.drop_last();
        law_listed_names(rest, name);
        let list = enabled_names(registry);
        let less = enabled_names(rest);
        if list.contains(name) {
            let k = choose|k: int| 0 <= k < list.len() && list[k] == name;
            if k < less.len() {
                assert(less[k] == name);
                let i = choose|i: int|
                    0 <= i < rest.len() && (#[trigger] rest[i]).enabled && rest[i].canonical == name;
                assert(registry[i].enabled);
            } else {
                assert(registry[registry.len() - 1].enabled);
            }
        }
        if exists|i: int|
            0 <= i < registry.len() && (#[trigger] registry[i]).enabled && registry[i].canonical == name {
            let i = choose|i: int|
                0 <= i < registry.len() && (#[trigger] registry[i]).enabled && registry[i].canonical
                    == name;
            if i < rest.len() {
                assert(rest[i].enabled);
                let k = choose|k: int| 0 <= k < less.len() && less[k] == name;
                assert(list[k] == name);
            } else {
                assert(list[list.len() - 1] == name);
            }
        }
    }
}

/// What was found, as a mathematical object.
pub open spec fn found_model(found: Option<BackendAvailability>) -> Option<AvailabilityModel> {
    match found {
        Some(a) => Some(a@),
        None => None,
    }
}

fn resolve_in(registry: Vec<BackendDescriptor>, input: &str) -> (found: Option<BackendAvailability>)
    ensures
        found_model(found) == meaning(descriptors(registry@), input@),
{
    let chars = chars_of(input);
    let name = lowercase(trim(&chars));
    let ghost all = descriptors(registry@);
    let n: usize = registry.len();
    let mut i: usize = 0;
    while i < n
        invariant
            i <= n == registry@.len(),
            all == descriptors(registry@),
            name@ == text::lowered(text::trimmed(input@)),
            meaning(all, input@) == resolved(all, name@, i as int),
        decreases n - i,
    {
        let d = registry[i];
        proof {
            assert(all[i as int] == d@);
        }
        if is_text(&name, d.canonical) || is_text(&name, d.alias) || is_text(&name, d.other_alias) {
            if d.enabled {
                return Some(BackendAvailability::Enabled(d.canonical));
            }
            return Some(
                BackendAvailability::Disabled { canonical: d.canonical, feature: d.feature },
            );
        }
        i += 1;
    }
    None
}

/// What the name of a model stands for.
pub fn resolve_rate_backend_name(input: &str) -> (found: Option<BackendAvailability>)
    ensures
        found_model(found) == meaning(rate_registry(), input@),
{
    resolve_in(rate_backend_registry(), input)
}

/// What the name of a compressor stands for.
pub fn resolve_compression_backend_name(input: &str) -> (found: Option<BackendAvailability>)
    ensures
        found_model(found) == meaning(compression_registry(), input@),
{
    resolve_in(compression_backend_registry(), input)
}

// ---------------------------------------------------------------------------------------
// Descriptions
// ---------------------------------------------------------------------------------------

/// A compressor for files: a payload of predicted symbols carries a header.
pub open spec fn framed_form(form: CompressionModel) -> CompressionModel {
    match form {
        CompressionModel::Rate { rate_backend, coder, framing } => CompressionModel::Rate {
            rate_backend,
            coder,
            framing: FramingMode::Framed,
        },
        other => other,
    }
}

/// A compressor for files.
pub fn normalize_file_roundtrip_backend(backend: &CompressionBackend) -> (normal: CompressionBackend)
    ensures
        normal@ == framed_form(backend@),
{
    match backend {
        CompressionBackend::Rate { rate_backend, coder, framing } => CompressionBackend::Rate {
            rate_backend: rate_backend.clone(),
            coder: *coder,
            framing: FramingMode::Framed,
        },
        _ => backend.clone(),
    }
}

/// A compiled compressor for files.
pub fn normalize_file_roundtrip_compiled_backend(backend: &CompiledCompressionBackend) -> (normal:
    CompiledCompressionBackend)
    ensures
        normal.spec_form@ == framed_form(backend.spec_form@),
{
    CompiledCompressionBackend { spec_form: normalize_file_roundtrip_backend(&backend.spec_form) }
}

/// Making a compressor fit for files twice is making it fit once.
pub proof fn law_normalize_idempotent(form: CompressionModel)
    ensures
        framed_form(framed_form(form)) == framed_form(form),
{
}

/// Method of a model of the family, where the backend of the family is here; that of the Mamba
/// family is not.
pub open spec fn rate_method(form: RateModel, family: MethodBackendFamily) -> Option<Seq<char>> {
    match (family, form) {
        (MethodBackendFamily::Rwkv7, RateModel::Rwkv7Method { method }) => Some(method),
        _ => None,
    }
}

/// Method of a compressor of the family, or of the model in it.
pub open spec fn compression_method(form: CompressionModel, family: MethodBackendFamily) -> Option<
    Seq<char>,
> {
    match (family, form) {
        (MethodBackendFamily::Rwkv7, CompressionModel::Rwkv7 { method, coder }) => Some(method),
        (_, CompressionModel::Rate { rate_backend, coder, framing }) => rate_method(
            rate_backend,
            family,
        ),
        _ => None,
    }
}

/// A method, if there is one.
pub open spec fn method_model(method: Option<&str>) -> Option<Seq<char>> {
    match method {
        Some(m) => Some(m@),
        None => None,
    }
}

/// Method of a model of the family, where the backend of the family is here.
pub fn rate_backend_method_string<'a>(backend: &'a RateBackend, family: MethodBackendFamily) -> (method:
    Option<&'a str>)
    ensures
        method_model(method) == rate_method(backend@, family),
{
    match (family, backend) {
        (MethodBackendFamily::Rwkv7, RateBackend::Rwkv7Method { method }) => Some(method.as_str()),
        _ => None,
    }
}

/// Method of a compiled model of the family.
pub fn rate_backend_method_string_compiled<'a>(
    backend: &'a CompiledRateBackend,
    family: MethodBackendFamily,
) -> (method: Option<&'a str>)
    ensures
        method_model(method) == rate_method(backend.spec_form@, family),
{
    rate_backend_method_string(&backend.spec_form, family)
}

/// Method of a compressor of the family, or of the model in it.
pub fn compression_backend_method_string<'a>(
    backend: &'a CompressionBackend,
    family: MethodBackendFamily,
) -> (method: Option<&'a str>)
    ensures
        method_model(method) == compression_method(backend@, family),
{
    match (family, backend) {
        (MethodBackendFamily::Rwkv7, CompressionBackend::Rwkv7 { method, coder }) => Some(
            method.as_str(),
        ),
        (_, CompressionBackend::Rate { rate_backend, coder, framing }) => rate_backend_method_string(
            rate_backend,
            family,
        ),
        _ => None,
    }
}

/// Method of a compiled compressor of the family, or of the model in it.
pub fn compression_backend_method_string_compiled<'a>(
    backend: &'a CompiledCompressionBackend,
    family: MethodBackendFamily,
) -> (method: Option<&'a str>)
    ensures
        method_model(method) == compression_method(backend.spec_form@, family),
{
    compression_backend_method_string(&backend.spec_form, family)
}

/// Coder that a name stands for.
pub open spec fn coder_named(name: Seq<char>) -> Option<CoderType> {
    if name == "ac"@ || name == "AC"@ {
        Some(CoderType::AC)
    } else if name == "rans"@ || name == "RANS"@ || name == "rANS"@ {
        Some(CoderType::RANS)
    } else {
        None
    }
}

/// Coder that a name stands for.
pub fn parse_rate_coder(v: &str) -> (coder: Option<CoderType>)
    ensures
        coder == coder_named(v@),
{
    let name = chars_of(v);
    if is_text(&name, "ac") || is_text(&name, "AC") {
        Some(CoderType::AC)
    } else if is_text(&name, "rans") || is_text(&name, "RANS") || is_text(&name, "rANS") {
        Some(CoderType::RANS)
    } else {
        None
    }
}

/// Coder of a recurrent network that a name stands for.
pub fn parse_rwkv7_coder(v: &str) -> (coder: Option<CoderType>)
    ensures
        coder == coder_named(v@),
{
    parse_rate_coder(v)
}

} // verus!
