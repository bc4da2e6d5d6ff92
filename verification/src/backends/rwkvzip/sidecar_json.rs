//! The JSON file beside the weights.

use vstd::prelude::*;
use crate::backends::rwkvzip::sidecar;
use crate::reals;

use crate::backends::rwkvzip::runtime::OnlineRuntime;
use crate::backends::rwkvzip::sidecar::{MissingMoments, SidecarFields, SidecarModel};
use crate::reals::{check_real, show_narrowed};
use crate::text::{chars_of, string_of};

verus! {

/// Text of the error with which `serde_json::from_slice` refuses bytes as a `serde_json::Value`;
/// none where it takes them.
pub uninterp spec fn json_fault(raw: Seq<u8>) -> Option<Seq<char>>;

/// Text at a key of the object that the bytes hold; none where they hold no object, or something
/// else stands there.
pub uninterp spec fn json_text(raw: Seq<u8>, key: Seq<char>) -> Option<Seq<char>>;

/// Whole number from zero on, of 64 bits at most, at a key of the object that the bytes hold.
pub uninterp spec fn json_number(raw: Seq<u8>, key: Seq<char>) -> Option<u64>;

/// Yes or no at a key of the object that the bytes hold.
pub uninterp spec fn json_flag(raw: Seq<u8>, key: Seq<char>) -> Option<bool>;

/// Whether a list stands at a key of the object that the bytes hold.
pub uninterp spec fn json_lists(raw: Seq<u8>, key: Seq<char>) -> bool;

/// Whole number from zero on, of 64 bits at most, at a key of an object that stands at a key of the
/// object that the bytes hold.
pub uninterp spec fn json_inner_number(raw: Seq<u8>, group: Seq<char>, key: Seq<char>) -> Option<u64>;

/// Text of the number at a key of an object that stands at a key of the object that the bytes hold.
pub uninterp spec fn json_inner_decimal(raw: Seq<u8>, group: Seq<char>, key: Seq<char>) -> Option<
    Seq<char>,
>;

/// Calls `serde_json::from_slice`: the text of its error, which depends on the bytes alone.
#[verifier::external_body]
fn fault_in(raw: &[u8]) -> (fault: Option<String>)
    ensures
        sidecar::text_model(fault) == json_fault(raw@),
{
    match serde_json::from_slice::<serde_json::Value>(raw) {
        Ok(_) => None,
        Err(e) => Some(e.to_string()),
    }
}

/// Calls `serde_json::from_slice`, `Value::get` and `Value::as_str`: the text at a key.
#[verifier::external_body]
fn text_at(raw: &[u8], key: &str) -> (found: Option<String>)
    ensures
        sidecar::text_model(found) == json_text(raw@, key@),
{
    let value: serde_json::Value = serde_json::from_slice(raw).ok()?;
    value.get(key)?.as_str().map(|text| text.to_string())
}

/// Calls `serde_json::from_slice`, `Value::get` and `Value::as_u64`: the whole number at a key.
#[verifier::external_body]
fn number_at(raw: &[u8], key: &str) -> (found: Option<u64>)
    ensures
        found == json_number(raw@, key@),
{
    let value: serde_json::Value = serde_json::from_slice(raw).ok()?;
    value.get(key)?.as_u64()
}

/// Calls `serde_json::from_slice`, `Value::get` and `Value::as_bool`: yes or no at a key.
#[verifier::external_body]
fn flag_at(raw: &[u8], key: &str) -> (found: Option<bool>)
    ensures
        found == json_flag(raw@, key@),
{
    let value: serde_json::Value = serde_json::from_slice(raw).ok()?;
    value.get(key)?.as_bool()
}

/// Calls `serde_json::from_slice`, `Value::get` and `Value::as_array`: whether a list stands at a
/// key.
#[verifier::external_body]
fn lists_at(raw: &[u8], key: &str) -> (yes: bool)
    ensures
        yes == json_lists(raw@, key@),
{
    match serde_json::from_slice::<serde_json::Value>(raw) {
        Ok(value) => value.get(key).and_then(|list| list.as_array()).is_some(),
        Err(_) => false,
    }
}

/// Calls `serde_json::from_slice`, `Value::get`, `Value::as_object`, `Map::get` and `Value::as_u64`:
/// the whole number at a key of an inner object.
#[verifier::external_body]
fn inner_number_at(raw: &[u8], group: &str, key: &str) -> (found: Option<u64>)
    ensures
        found == json_inner_number(raw@, group@, key@),
{
    let value: serde_json::Value = serde_json::from_slice(raw).ok()?;
    value.get(group)?.as_object()?.get(key)?.as_u64()
}

/// Calls `serde_json::from_slice`, `Value::get`, `Value::as_object`, `Map::get`, `Value::as_number`
/// and `Number::to_string`: the text of the number at a key of an inner object.
#[verifier::external_body]
fn inner_decimal_at(raw: &[u8], group: &str, key: &str) -> (found: Option<String>)
    ensures
        sidecar::text_model(found) == json_inner_decimal(raw@, group@, key@),
{
    let value: serde_json::Value = serde_json::from_slice(raw).ok()?;
    value.get(group)?.as_object()?.get(key)?.as_number().map(|number| number.to_string())
}

/// Text in which a number is shown that is read in eight bytes and held in four; what is no number
/// stays as it is.
pub open spec fn rate_text(text: Seq<char>) -> Seq<char> {
    if reals::is_real(text) {
        reals::shown_narrowed(text)
    } else {
        text
    }
}

/// Values of the sidecar that the bytes hold. The shape of the network, its seed and how it is
/// trained stand in an object of their own.
pub open spec fn sidecar_read(raw: Seq<u8>) -> SidecarModel {
    SidecarModel {
        method: json_text(raw, "method"@),
        policy: json_text(raw, "policy"@),
        policy_cursor: json_number(raw, "policy_cursor"@),
        policy_stream_total: json_number(raw, "policy_stream_total"@),
        policy_train_steps: json_number(raw, "policy_train_steps"@),
        training_mode: json_text(raw, "training_mode"@),
        tokens_processed: json_number(raw, "tokens_processed"@),
        adam_t: json_number(raw, "adam_t"@),
        has_full_adam: json_flag(raw, "has_full_adam"@),
        has_output_bias: json_lists(raw, "output_bias"@),
        hidden: json_inner_number(raw, "config"@, "hidden"@),
        layers: json_inner_number(raw, "config"@, "layers"@),
        intermediate: json_inner_number(raw, "config"@, "intermediate"@),
        decay_rank: json_inner_number(raw, "config"@, "decay_rank"@),
        a_rank: json_inner_number(raw, "config"@, "a_rank"@),
        v_rank: json_inner_number(raw, "config"@, "v_rank"@),
        g_rank: json_inner_number(raw, "config"@, "g_rank"@),
        seed: json_inner_number(raw, "config"@, "seed"@),
        lr: match json_inner_decimal(raw, "config"@, "lr"@) {
            Some(text) => Some(rate_text(text)),
            None => None,
        },
        stride: json_inner_number(raw, "config"@, "stride"@),
    }
}

fn shown_rate(text: Option<String>) -> (shown: Option<String>)
    ensures
        sidecar::text_model(shown) == (match sidecar::text_model(text) {
            Some(t) => Some(rate_text(t)),
            None => None,
        }),
{
    match text {
        None => None,
        Some(t) => {
            let chars = chars_of(t.as_str());
            if check_real(&chars) {
                Some(string_of(&show_narrowed(&chars)))
            } else {
                Some(t)
            }
        },
    }
}

/// Values of the sidecar that the bytes hold, or why they are no JSON.
pub fn sidecar_from_bytes(raw: &[u8]) -> (r: Result<SidecarFields, String>)
    ensures
        match json_fault(raw@) {
            Some(t) => r matches Err(e) && e@ == t,
            None => r matches Ok(f) && f@ == sidecar_read(raw@),
        },
{
    if let Some(fault) = fault_in(raw) {
        return Err(fault);
    }
    let fields = SidecarFields {
        method: text_at(raw, "method"),
        policy: text_at(raw, "policy"),
        policy_cursor: number_at(raw, "policy_cursor"),
        policy_stream_total: number_at(raw, "policy_stream_total"),
        policy_train_steps: number_at(raw, "policy_train_steps"),
        training_mode: text_at(raw, "training_mode"),
        tokens_processed: number_at(raw, "tokens_processed"),
        adam_t: number_at(raw, "adam_t"),
        has_full_adam: flag_at(raw, "has_full_adam"),
        has_output_bias: lists_at(raw, "output_bias"),
        hidden: inner_number_at(raw, "config", "hidden"),
        layers: inner_number_at(raw, "config", "layers"),
        intermediate: inner_number_at(raw, "config", "intermediate"),
        decay_rank: inner_number_at(raw, "config", "decay_rank"),
        a_rank: inner_number_at(raw, "config", "a_rank"),
        v_rank: inner_number_at(raw, "config", "v_rank"),
        g_rank: inner_number_at(raw, "config", "g_rank"),
        seed: inner_number_at(raw, "config", "seed"),
        lr: shown_rate(inner_decimal_at(raw, "config", "lr")),
        stride: inner_number_at(raw, "config", "stride"),
    };
    proof {
        assert(fields@ =~= sidecar_read(raw@));
    }
    Ok(fields)
}

/// Why training cannot go on from a sidecar.
#[derive(Debug)]
pub enum SidecarError {
    /// The file is no JSON.
    Json(String),
    /// The moments of Adam are missing.
    Missing(MissingMoments),
}

impl SidecarError {
    /// What to tell the user.
    pub fn message(&self) -> (text: String)
        ensures
            match self {
                SidecarError::Json(e) => text@ == e@,
                SidecarError::Missing(e) => text@ == "missing optimizer sidecar '"@ + e.path@
                    + "' required for exact online resume"@,
            },
    {
        match self {
            SidecarError::Json(e) => string_of(chars_of(e.as_str()).as_slice()),
            SidecarError::Missing(e) => e.message(),
        }
    }
}

/// State in which training goes on.
pub struct Resumed<S> {
    /// Training so far.
    pub runtime: OnlineRuntime<S>,
    /// Position in the schedule, where it is there.
    pub cursor: Option<u64>,
    /// Steps of Adam.
    pub adam_t: u64,
}

/// State in which training goes on from the sidecar that the bytes hold: none without an output
/// bias, and none where it speaks of moments of Adam that are not there.
pub fn resume_from_bytes<S>(
    raw: &[u8],
    default_method: &str,
    moments_present: bool,
    moments_path: &str,
) -> (r: Result<Option<Resumed<S>>, SidecarError>)
    ensures
        match json_fault(raw@) {
            Some(t) => r matches Err(SidecarError::Json(e)) && e@ == t,
            None => {
                let f = sidecar_read(raw@);
                if !f.has_output_bias {
                    r matches Ok(x) && x is None
                } else if !moments_present && f.has_full_adam == Some(true) {
                    r matches Err(SidecarError::Missing(e)) && e.path@ == moments_path@
                } else {
                    r matches Ok(Some(x)) && x.runtime@ == sidecar::resumed::<S>(f, default_method@)
                        && x.cursor == f.policy_cursor && x.adam_t == sidecar::number_or_zero(
                        f.adam_t,
                    )
                }
            },
        },
{
    let fields = match sidecar_from_bytes(raw) {
        Ok(f) => f,
        Err(e) => {
            return Err(SidecarError::Json(e));
        },
    };
    match fields.resume(default_method, moments_present, moments_path) {
        Err(e) => Err(SidecarError::Missing(e)),
        Ok(None) => Ok(None),
        Ok(Some(runtime)) => Ok(
            Some(
                Resumed {
                    runtime,
                    cursor: fields.policy_cursor,
                    adam_t: match fields.adam_t {
                        Some(n) => n,
                        None => 0,
                    },
                },
            ),
        ),
    }
}

} // verus!
