//! Why a method string, a policy or a schedule was refused.

use vstd::prelude::*;
use crate::text::{push_text, string_of};

verus! {

/// What was wrong.
#[derive(Clone, Copy, Debug, PartialEq, Eq, Structural)]
pub enum PolicyErrorKind {
    EmptyMethod,
    MissingBase,
    AmbiguousFileSegment,
    DuplicatePolicy,
    UnknownMethodSegment,
    EmptyPolicy,
    InvalidPolicyPair,
    EmptyLoadFrom,
    EmptySchedule,
    UnknownPolicyKey,
    ScheduleRequired,
    NoScheduleRule,
    InvalidRule,
    InvalidRepeat,
    InvalidRepeatArgument,
    UnknownRepeatKey,
    InvalidPatternSegment,
    PeriodRequired,
    PatternRequired,
    EmptyPattern,
    InvalidAction,
    InvalidTrainArgument,
    UnknownTrainKey,
    UnknownOptimizer,
    InvalidLr,
    InvalidStride,
    InvalidBptt,
    InvalidClip,
    InvalidMomentum,
    InvalidRange,
    InvalidPercent,
    PercentOutOfRange,
    InvalidAbsolute,
    UnbalancedClose,
    UnbalancedOpen,
    EmptyScope,
    UnknownScope,
    MixedScope,
    EmptyInterval,
    EmptyRepeatInterval,
    ZeroPeriod,
    ZeroSpan,
    EmptyRepeatPattern,
    BoundaryNeedsTotal,
    SpanNeedsTotal,
}

/// A refusal, with the text it is about.
#[derive(Debug)]
pub struct PolicyError {
    pub kind: PolicyErrorKind,
    pub subject: String,
    pub detail: String,
}

/// Mathematical value of [`PolicyError`].
#[verifier::ext_equal]
pub struct ErrorModel {
    pub kind: PolicyErrorKind,
    pub subject: Seq<char>,
    pub detail: Seq<char>,
}

impl View for PolicyError {
    type V = ErrorModel;

    open spec fn view(&self) -> ErrorModel {
        ErrorModel { kind: self.kind, subject: self.subject@, detail: self.detail@ }
    }
}

/// Refusal that names one text.
pub open spec fn bad(kind: PolicyErrorKind, subject: Seq<char>) -> ErrorModel {
    ErrorModel { kind, subject, detail: Seq::empty() }
}

/// Refusal that names no text.
pub open spec fn plain(kind: PolicyErrorKind) -> ErrorModel {
    bad(kind, Seq::empty())
}

/// Whether a result is what the model says.
pub open spec fn agrees<T: View>(result: Result<T, PolicyError>, model: Result<T::V, ErrorModel>) -> bool {
    match result {
        Ok(value) => model == Ok::<T::V, ErrorModel>(value@),
        Err(error) => model == Err::<T::V, ErrorModel>(error@),
    }
}

/// Refusal that names one text.
pub fn refuse(kind: PolicyErrorKind, subject: &[char]) -> (error: PolicyError)
    ensures
        error@ == bad(kind, subject@),
{
    PolicyError { kind, subject: string_of(subject), detail: String::new() }
}

/// Refusal that names no text.
pub fn refuse_plain(kind: PolicyErrorKind) -> (error: PolicyError)
    ensures
        error@ == plain(kind),
{
    PolicyError { kind, subject: String::new(), detail: String::new() }
}

/// Message text in front of the subject.
pub open spec fn opening(kind: PolicyErrorKind) -> Seq<char> {
    match kind {
        PolicyErrorKind::EmptyMethod => "empty method string"@,
        PolicyErrorKind::MissingBase => "method is missing cfg/file segment"@,
        PolicyErrorKind::AmbiguousFileSegment => "ambiguous file method segment ';"@,
        PolicyErrorKind::DuplicatePolicy => "duplicate policy segment in method string"@,
        PolicyErrorKind::UnknownMethodSegment => "unknown method segment '"@,
        PolicyErrorKind::EmptyPolicy => "empty policy segment"@,
        PolicyErrorKind::InvalidPolicyPair => "invalid policy key/value pair '"@,
        PolicyErrorKind::EmptyLoadFrom => "policy load_from must not be empty"@,
        PolicyErrorKind::EmptySchedule => "policy schedule must not be empty"@,
        PolicyErrorKind::UnknownPolicyKey => "unknown policy key '"@,
        PolicyErrorKind::ScheduleRequired => "policy requires schedule=..."@,
        PolicyErrorKind::NoScheduleRule => "policy schedule must contain at least one rule"@,
        PolicyErrorKind::InvalidRule => "invalid schedule rule '"@,
        PolicyErrorKind::InvalidRepeat => "invalid repeat rule '"@,
        PolicyErrorKind::InvalidRepeatArgument => "invalid repeat argument '"@,
        PolicyErrorKind::UnknownRepeatKey => "unknown repeat key '"@,
        PolicyErrorKind::InvalidPatternSegment => "invalid repeat pattern segment '"@,
        PolicyErrorKind::PeriodRequired => "repeat rule requires period=..."@,
        PolicyErrorKind::PatternRequired => "repeat rule requires pattern=..."@,
        PolicyErrorKind::EmptyPattern => "repeat pattern must not be empty"@,
        PolicyErrorKind::InvalidAction => "invalid action '"@,
        PolicyErrorKind::InvalidTrainArgument => "invalid train argument '"@,
        PolicyErrorKind::UnknownTrainKey => "unknown train argument key '"@,
        PolicyErrorKind::UnknownOptimizer => "unknown optimizer '"@,
        PolicyErrorKind::InvalidLr => "invalid lr '"@,
        PolicyErrorKind::InvalidStride => "invalid stride '"@,
        PolicyErrorKind::InvalidBptt => "invalid bptt '"@,
        PolicyErrorKind::InvalidClip => "invalid clip '"@,
        PolicyErrorKind::InvalidMomentum => "invalid momentum '"@,
        PolicyErrorKind::InvalidRange => "invalid range '"@,
        PolicyErrorKind::InvalidPercent => "invalid percent position '"@,
        PolicyErrorKind::PercentOutOfRange => "percent position must be in [0,100], got "@,
        PolicyErrorKind::InvalidAbsolute => "invalid absolute position '"@,
        PolicyErrorKind::UnbalancedClose => "unbalanced ')' in '"@,
        PolicyErrorKind::UnbalancedOpen => "unbalanced '(' in '"@,
        PolicyErrorKind::EmptyScope => "empty train scope"@,
        PolicyErrorKind::UnknownScope => "unknown train scope '"@,
        PolicyErrorKind::MixedScope => "scope list cannot mix '"@,
        PolicyErrorKind::EmptyInterval => "invalid interval with end <= start ("@,
        PolicyErrorKind::EmptyRepeatInterval => "invalid repeat interval with end <= start ("@,
        PolicyErrorKind::ZeroPeriod => "repeat period must be > 0"@,
        PolicyErrorKind::ZeroSpan => "repeat pattern segment span must be > 0"@,
        PolicyErrorKind::EmptyRepeatPattern => "repeat pattern must contain at least one segment"@,
        PolicyErrorKind::BoundaryNeedsTotal =>
            "percent policy boundary requires known total symbol count at runtime"@,
        PolicyErrorKind::SpanNeedsTotal =>
            "percent policy span requires known total symbol count at runtime"@,
    }
}

/// Message text behind the subject.
pub open spec fn closing(kind: PolicyErrorKind) -> Seq<char> {
    match kind {
        PolicyErrorKind::AmbiguousFileSegment =>
            ":'; use ';policy:' for policy or encode literal ';' in file paths as '%3B'"@,
        PolicyErrorKind::UnknownMethodSegment => "', expected 'policy:...'"@,
        PolicyErrorKind::InvalidRule => "', expected <start>..<end>:<action>"@,
        PolicyErrorKind::InvalidRepeat =>
            "', expected repeat(<start>..<end>,period=...,pattern=...)"@,
        PolicyErrorKind::InvalidAction => "', expected infer or train(...)"@,
        PolicyErrorKind::InvalidRange => "', expected <start>..<end>"@,
        PolicyErrorKind::UnknownScope => "', allowed: "@,
        PolicyErrorKind::MixedScope => "' with named scopes"@,
        PolicyErrorKind::InvalidPolicyPair => "'"@,
        PolicyErrorKind::UnknownPolicyKey => "'"@,
        PolicyErrorKind::InvalidRepeatArgument => "'"@,
        PolicyErrorKind::UnknownRepeatKey => "'"@,
        PolicyErrorKind::InvalidPatternSegment => "'"@,
        PolicyErrorKind::InvalidTrainArgument => "'"@,
        PolicyErrorKind::UnknownTrainKey => "'"@,
        PolicyErrorKind::UnknownOptimizer => "'"@,
        PolicyErrorKind::InvalidLr => "'"@,
        PolicyErrorKind::InvalidStride => "'"@,
        PolicyErrorKind::InvalidBptt => "'"@,
        PolicyErrorKind::InvalidClip => "'"@,
        PolicyErrorKind::InvalidMomentum => "'"@,
        PolicyErrorKind::InvalidPercent => "'"@,
        PolicyErrorKind::InvalidAbsolute => "'"@,
        PolicyErrorKind::UnbalancedClose => "'"@,
        PolicyErrorKind::UnbalancedOpen => "'"@,
        PolicyErrorKind::EmptyInterval => ")"@,
        PolicyErrorKind::EmptyRepeatInterval => ")"@,
        _ => ""@,
    }
}

fn opening_of(kind: PolicyErrorKind) -> (text: &'static str)
    ensures
        text@ == opening(kind),
{
    match kind {
        PolicyErrorKind::EmptyMethod => "empty method string",
        PolicyErrorKind::MissingBase => "method is missing cfg/file segment",
        PolicyErrorKind::AmbiguousFileSegment => "ambiguous file method segment ';",
        PolicyErrorKind::DuplicatePolicy => "duplicate policy segment in method string",
        PolicyErrorKind::UnknownMethodSegment => "unknown method segment '",
        PolicyErrorKind::EmptyPolicy => "empty policy segment",
        PolicyErrorKind::InvalidPolicyPair => "invalid policy key/value pair '",
        PolicyErrorKind::EmptyLoadFrom => "policy load_from must not be empty",
        PolicyErrorKind::EmptySchedule => "policy schedule must not be empty",
        PolicyErrorKind::UnknownPolicyKey => "unknown policy key '",
        PolicyErrorKind::ScheduleRequired => "policy requires schedule=...",
        PolicyErrorKind::NoScheduleRule => "policy schedule must contain at least one rule",
        PolicyErrorKind::InvalidRule => "invalid schedule rule '",
        PolicyErrorKind::InvalidRepeat => "invalid repeat rule '",
        PolicyErrorKind::InvalidRepeatArgument => "invalid repeat argument '",
        PolicyErrorKind::UnknownRepeatKey => "unknown repeat key '",
        PolicyErrorKind::InvalidPatternSegment => "invalid repeat pattern segment '",
        PolicyErrorKind::PeriodRequired => "repeat rule requires period=...",
        PolicyErrorKind::PatternRequired => "repeat rule requires pattern=...",
        PolicyErrorKind::EmptyPattern => "repeat pattern must not be empty",
        PolicyErrorKind::InvalidAction => "invalid action '",
        PolicyErrorKind::InvalidTrainArgument => "invalid train argument '",
        PolicyErrorKind::UnknownTrainKey => "unknown train argument key '",
        PolicyErrorKind::UnknownOptimizer => "unknown optimizer '",
        PolicyErrorKind::InvalidLr => "invalid lr '",
        PolicyErrorKind::InvalidStride => "invalid stride '",
        PolicyErrorKind::InvalidBptt => "invalid bptt '",
        PolicyErrorKind::InvalidClip => "invalid clip '",
        PolicyErrorKind::InvalidMomentum => "invalid momentum '",
        PolicyErrorKind::InvalidRange => "invalid range '",
        PolicyErrorKind::InvalidPercent => "invalid percent position '",
        PolicyErrorKind::PercentOutOfRange => "percent position must be in [0,100], got ",
        PolicyErrorKind::InvalidAbsolute => "invalid absolute position '",
        PolicyErrorKind::UnbalancedClose => "unbalanced ')' in '",
        PolicyErrorKind::UnbalancedOpen => "unbalanced '(' in '",
        PolicyErrorKind::EmptyScope => "empty train scope",
        PolicyErrorKind::UnknownScope => "unknown train scope '",
        PolicyErrorKind::MixedScope => "scope list cannot mix '",
        PolicyErrorKind::EmptyInterval => "invalid interval with end <= start (",
        PolicyErrorKind::EmptyRepeatInterval => "invalid repeat interval with end <= start (",
        PolicyErrorKind::ZeroPeriod => "repeat period must be > 0",
        PolicyErrorKind::ZeroSpan => "repeat pattern segment span must be > 0",
        PolicyErrorKind::EmptyRepeatPattern => "repeat pattern must contain at least one segment",
        PolicyErrorKind::BoundaryNeedsTotal =>
            "percent policy boundary requires known total symbol count at runtime",
        PolicyErrorKind::SpanNeedsTotal =>
            "percent policy span requires known total symbol count at runtime",
    }
}

fn closing_of(kind: PolicyErrorKind) -> (text: &'static str)
    ensures
        text@ == closing(kind),
{
    match kind {
        PolicyErrorKind::AmbiguousFileSegment =>
            ":'; use ';policy:' for policy or encode literal ';' in file paths as '%3B'",
        PolicyErrorKind::UnknownMethodSegment => "', expected 'policy:...'",
        PolicyErrorKind::InvalidRule => "', expected <start>..<end>:<action>",
        PolicyErrorKind::InvalidRepeat =>
            "', expected repeat(<start>..<end>,period=...,pattern=...)",
        PolicyErrorKind::InvalidAction => "', expected infer or train(...)",
        PolicyErrorKind::InvalidRange => "', expected <start>..<end>",
        PolicyErrorKind::UnknownScope => "', allowed: ",
        PolicyErrorKind::MixedScope => "' with named scopes",
        PolicyErrorKind::InvalidPolicyPair => "'",
        PolicyErrorKind::UnknownPolicyKey => "'",
        PolicyErrorKind::InvalidRepeatArgument => "'",
        PolicyErrorKind::UnknownRepeatKey => "'",
        PolicyErrorKind::InvalidPatternSegment => "'",
        PolicyErrorKind::InvalidTrainArgument => "'",
        PolicyErrorKind::UnknownTrainKey => "'",
        PolicyErrorKind::UnknownOptimizer => "'",
        PolicyErrorKind::InvalidLr => "'",
        PolicyErrorKind::InvalidStride => "'",
        PolicyErrorKind::InvalidBptt => "'",
        PolicyErrorKind::InvalidClip => "'",
        PolicyErrorKind::InvalidMomentum => "'",
        PolicyErrorKind::InvalidPercent => "'",
        PolicyErrorKind::InvalidAbsolute => "'",
        PolicyErrorKind::UnbalancedClose => "'",
        PolicyErrorKind::UnbalancedOpen => "'",
        PolicyErrorKind::EmptyInterval => ")",
        PolicyErrorKind::EmptyRepeatInterval => ")",
        _ => "",
    }
}

/// Text of a refusal.
pub open spec fn error_text(error: ErrorModel) -> Seq<char> {
    opening(error.kind) + error.subject + closing(error.kind) + error.detail
}

impl PolicyError {
    /// Human-readable message: the opening of its kind, the subject, the closing of its kind
    /// and the detail.
    pub fn message(&self) -> (text: String)
        ensures
            text@ == error_text(self@),
    {
        let mut out: Vec<char> = Vec::new();
        push_text(&mut out, opening_of(self.kind));
        push_text(&mut out, self.subject.as_str());
        push_text(&mut out, closing_of(self.kind));
        push_text(&mut out, self.detail.as_str());
        assert(out@ =~= opening(self.kind) + self.subject@ + closing(self.kind) + self.detail@);
        string_of(&out)
    }
}

} // verus!
