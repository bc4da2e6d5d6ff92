//! Policy strings for online adaptation: their grammar, their canonical form and their
//! compilation into position-resolved schedules.
//!
//! Real numbers (percentages, learning rates, clipping thresholds, momenta) are checked and kept
//! as text.

use vstd::prelude::*;
use crate::reals;
use crate::text;
use crate::backends::policy_schedule;
use crate::backends::policy_error;
use vstd::slice::slice_subrange;
use crate::backends::policy_error::{refuse, refuse_plain, ErrorModel, PolicyError, PolicyErrorKind};
use crate::backends::policy_schedule::{ActionModel, CompiledPatternSegment, CompiledPolicy,
    CompiledRuleModel, CompiledScheduleRule, CompiledSegmentModel, HyperModel, OptimizerHyperParams, OptimizerKind, PolicyAction, ScopeModel,
    TrainAction, TrainModel, TrainScopeSet};
use crate::reals::{check_infinity, check_nan, check_real, percent_in_range, share_of_total, show_nonnegative,
    show_percent, show_real, unsigned};
use crate::text::{
    chars_of, decimal_of, is_text, lowercase, occurs, order, parse_size, parse_uint,
    push_chars, push_text, split_once_char, split_once_text, string_of, strip_last,
    strip_prefix, trim,
};

verus! {

// ---------------------------------------------------------------------------------------
// Splitting outside parentheses
// ---------------------------------------------------------------------------------------

/// Opening minus closing parentheses among the first `n` characters.
pub open spec fn depth(s: Seq<char>, n: int) -> int
    decreases n,
{
    if n <= 0 || n > s.len() {
        0
    } else if s[n - 1] == '(' {
        depth(s, n - 1) + 1
    } else if s[n - 1] == ')' {
        depth(s, n - 1) - 1
    } else {
        depth(s, n - 1)
    }
}

/// Pieces of `s[start..]` between the `delim` characters from index `at` on that stand
/// outside parentheses.
pub open spec fn top_pieces(s: Seq<char>, delim: char, start: int, at: int) -> Seq<Seq<char>>
    decreases s.len() - at,
{
    if at < 0 || at >= s.len() {
        seq![s.subrange(start, s.len() as int)]
    } else if s[at] == delim && s[at] != '(' && s[at] != ')' && depth(s, at) == 0 {
        seq![s.subrange(start, at)] + top_pieces(s, delim, at + 1, at + 1)
    } else {
        top_pieces(s, delim, start, at + 1)
    }
}

/// Pieces of `s` between the `delim` characters outside parentheses; refused where the
/// parentheses do not balance.
pub open spec fn top_split(s: Seq<char>, delim: char) -> Result<Seq<Seq<char>>, ErrorModel> {
    if exists|n: int| 0 <= n <= s.len() && #[trigger] depth(s, n) < 0 {
        Err(policy_error::bad(PolicyErrorKind::UnbalancedClose, s))
    } else if depth(s, s.len() as int) != 0 {
        Err(policy_error::bad(PolicyErrorKind::UnbalancedOpen, s))
    } else {
        Ok(top_pieces(s, delim, 0, 0))
    }
}

/// Texts of a list of slices.
pub open spec fn slices(pieces: Seq<&[char]>) -> Seq<Seq<char>> {
    pieces.map_values(|piece: &[char]| piece@)
}

/// Splits at the `delim` characters that stand outside parentheses.
fn split_top_level<'a>(input: &'a [char], delim: char) -> (parts: Result<
    Vec<&'a [char]>,
    PolicyError,
>)
    ensures
        match parts {
            Ok(pieces) => top_split(input@, delim) == Ok::<Seq<Seq<char>>, ErrorModel>(
                slices(pieces@),
            ),
            Err(error) => top_split(input@, delim) == Err::<Seq<Seq<char>>, ErrorModel>(error@),
        },
{
    let mut parts: Vec<&[char]> = Vec::new();
    let mut nesting: usize = 0;
    let mut start: usize = 0;
    let mut at: usize = 0;
    while at < input.len()
        invariant
            start <= at <= input@.len(),
            nesting <= at,
            nesting == depth(input@, at as int),
            forall|n: int| 0 <= n <= at ==> #[trigger] depth(input@, n) >= 0,
            top_pieces(input@, delim, 0, 0) == slices(parts@) + top_pieces(
                input@,
                delim,
                start as int,
                at as int,
            ),
        decreases input@.len() - at,
    {
        let ch: char = input[at];
        let ghost before = slices(parts@);
        if ch == '(' {
            nesting += 1;
        } else if ch == ')' {
            if nesting == 0 {
                assert(depth(input@, at + 1) < 0);
                return Err(refuse(PolicyErrorKind::UnbalancedClose, input));
            }
            nesting -= 1;
        } else if ch == delim && nesting == 0 {
            parts.push(slice_subrange(input, start, at));
            start = at + 1;
            assert(slices(parts@) =~= before + seq![parts@.last()@]);
            assert(before + (seq![parts@.last()@] + top_pieces(
                input@,
                delim,
                at + 1,
                at + 1,
            )) =~= slices(parts@) + top_pieces(input@, delim, at + 1, at + 1));
        }
        at += 1;
    }
    if nesting != 0 {
        return Err(refuse(PolicyErrorKind::UnbalancedOpen, input));
    }
    let ghost before = slices(parts@);
    parts.push(slice_subrange(input, start, input.len()));
    assert(slices(parts@) =~= before + seq![parts@.last()@]);
    Ok(parts)
}

// ---------------------------------------------------------------------------------------
// Positions
// ---------------------------------------------------------------------------------------

/// Position expression used in policy schedules.
#[derive(Debug)]
pub enum PositionExpr {
    /// Absolute byte/token offset.
    Bytes(u64),
    /// Percentage of the known total stream length, as decimal text.
    Percent(String),
}

/// Mathematical value of [`PositionExpr`].
#[verifier::ext_equal]
pub enum PositionModel {
    Bytes(nat),
    Percent(Seq<char>),
}

impl View for PositionExpr {
    type V = PositionModel;

    open spec fn view(&self) -> PositionModel {
        match self {
            PositionExpr::Bytes(v) => PositionModel::Bytes(*v as nat),
            PositionExpr::Percent(p) => PositionModel::Percent(p@),
        }
    }
}

impl Clone for PositionExpr {
    fn clone(&self) -> (copy: Self)
        ensures
            copy@ == self@,
    {
        match self {
            PositionExpr::Bytes(v) => PositionExpr::Bytes(*v),
            PositionExpr::Percent(p) => PositionExpr::Percent(p.clone()),
        }
    }
}

/// Position written by `token`.
pub open spec fn position_of(token: Seq<char>) -> Result<PositionModel, ErrorModel> {
    let t = text::trimmed(token);
    match text::before_last(t, '%') {
        Some(before) => {
            let p = text::trimmed(before);
            if !reals::is_real(p) {
                Err(policy_error::bad(PolicyErrorKind::InvalidPercent, t))
            } else if reals::is_infinity(reals::unsigned_part(p)) || reals::is_nan(
                reals::unsigned_part(p),
            ) || !reals::is_percentage(p) {
                Err(policy_error::bad(PolicyErrorKind::PercentOutOfRange, reals::shown_real(p, true)))
            } else {
                Ok(PositionModel::Percent(reals::shown_percent(p)))
            }
        },
        None => match text::parsed_uint(t, u64::MAX as nat) {
            Some(v) => Ok(PositionModel::Bytes(v)),
            None => Err(policy_error::bad(PolicyErrorKind::InvalidAbsolute, t)),
        },
    }
}

/// Reads a position: a percentage, or an absolute offset.
pub fn parse_position_expr(token: &[char]) -> (position: Result<PositionExpr, PolicyError>)
    ensures
        policy_error::agrees(position, position_of(token@)),
{
    let t = trim(token);
    match strip_last(t, '%') {
        Some(before) => {
            let p = trim(before);
            if !check_real(p) {
                return Err(refuse(PolicyErrorKind::InvalidPercent, t));
            }
            let body = unsigned(p);
            if check_nan(body) || check_infinity(body) || !percent_in_range(p) {
                let shown = show_real(p, true);
                return Err(refuse(PolicyErrorKind::PercentOutOfRange, &shown));
            }
            let shown = show_percent(p);
            Ok(PositionExpr::Percent(string_of(&shown)))
        },
        None => match parse_uint(t, u64::MAX) {
            Some(v) => Ok(PositionExpr::Bytes(v)),
            None => Err(refuse(PolicyErrorKind::InvalidAbsolute, t)),
        },
    }
}

/// Range written by `range`.
pub open spec fn range_of(range: Seq<char>) -> Result<(PositionModel, PositionModel), ErrorModel> {
    match text::cut_text(range, ".."@) {
        None => Err(policy_error::bad(PolicyErrorKind::InvalidRange, range)),
        Some((start, end)) => match position_of(start) {
            Err(error) => Err(error),
            Ok(first) => match position_of(end) {
                Err(error) => Err(error),
                Ok(past) => Ok((first, past)),
            },
        },
    }
}

/// Reads `<start>..<end>`.
pub fn parse_range(range: &[char]) -> (bounds: Result<(PositionExpr, PositionExpr), PolicyError>)
    ensures
        match bounds {
            Ok((start, end)) => range_of(range@) == Ok::<(PositionModel, PositionModel), ErrorModel>(
                (start@, end@),
            ),
            Err(error) => range_of(range@) == Err::<(PositionModel, PositionModel), ErrorModel>(
                error@,
            ),
        },
{
    match split_once_text(range, "..") {
        None => Err(refuse(PolicyErrorKind::InvalidRange, range)),
        Some((start, end)) => match parse_position_expr(start) {
            Err(error) => Err(error),
            Ok(first) => match parse_position_expr(end) {
                Err(error) => Err(error),
                Ok(past) => Ok((first, past)),
            },
        },
    }
}

// ---------------------------------------------------------------------------------------
// Train scopes
// ---------------------------------------------------------------------------------------

/// Names in strictly increasing dictionary order.
pub open spec fn increasing(names: Seq<Seq<char>>) -> bool {
    forall|i: int, j: int|
        0 <= i < j < names.len() ==> text::text_before(#[trigger] names[i], #[trigger] names[j])
}

/// Names in dictionary order, each as often as it may be.
pub open spec fn ascending(names: Seq<Seq<char>>) -> bool {
    forall|i: int, j: int|
        #![trigger names[i], names[j]]
        0 <= i < j < names.len() ==> names[i] == names[j] || text::text_before(names[i], names[j])
}

/// `names` with `name` put in order, unless it is there already.
pub open spec fn with_name(names: Seq<Seq<char>>, name: Seq<char>, at: int) -> Seq<Seq<char>>
    decreases names.len() - at,
{
    if at < 0 || at >= names.len() {
        names.push(name)
    } else if names[at] == name {
        names
    } else if text::text_before(name, names[at]) {
        names.insert(at, name)
    } else {
        with_name(names, name, at + 1)
    }
}

/// Whether `c` separates scope names.
pub open spec fn is_scope_separator(c: char) -> bool {
    c == '+' || c == '|' || c == '/'
}

/// Pieces of `s[start..]` between the scope separators from index `at` on.
pub open spec fn scope_pieces(s: Seq<char>, start: int, at: int) -> Seq<Seq<char>>
    decreases s.len() - at,
{
    if at < 0 || at >= s.len() {
        seq![s.subrange(start, s.len() as int)]
    } else if is_scope_separator(s[at]) {
        seq![s.subrange(start, at)] + scope_pieces(s, at + 1, at + 1)
    } else {
        scope_pieces(s, start, at + 1)
    }
}

/// Scope names of the pieces from index `i` on, added to `names`.
pub open spec fn scope_names(
    pieces: Seq<Seq<char>>,
    i: int,
    names: Seq<Seq<char>>,
    allowed: Seq<Seq<char>>,
) -> Result<Seq<Seq<char>>, ErrorModel>
    decreases pieces.len() - i,
{
    if i < 0 || i >= pieces.len() {
        Ok(names)
    } else {
        let t = text::trimmed(pieces[i]);
        if t.len() == 0 {
            scope_names(pieces, i + 1, names, allowed)
        } else if !allowed.contains(t) {
            Err(
                ErrorModel {
                    kind: PolicyErrorKind::UnknownScope,
                    subject: t,
                    detail: text::joined(allowed, ","@),
                },
            )
        } else if t == "all"@ || t == "none"@ {
            Err(policy_error::bad(PolicyErrorKind::MixedScope, t))
        } else {
            scope_names(pieces, i + 1, with_name(names, t, 0), allowed)
        }
    }
}

/// Scope set written by `value`: `all`, `none`, or names separated by `+`, `|` or `/`.
pub open spec fn scope_of(value: Seq<char>, allowed: Seq<Seq<char>>) -> Result<
    ScopeModel,
    ErrorModel,
> {
    let v = text::lowered(text::trimmed(value));
    if v.len() == 0 {
        Err(policy_error::plain(PolicyErrorKind::EmptyScope))
    } else if v == "all"@ {
        Ok(ScopeModel { all: true, names: Seq::empty() })
    } else if v == "none"@ {
        Ok(ScopeModel { all: false, names: Seq::empty() })
    } else {
        match scope_names(scope_pieces(v, 0, 0), 0, Seq::empty(), allowed) {
            Ok(names) => Ok(ScopeModel { all: false, names }),
            Err(error) => Err(error),
        }
    }
}

/// Texts of a list of string slices.
pub open spec fn strs(list: Seq<&str>) -> Seq<Seq<char>> {
    list.map_values(|item: &str| item@)
}

pub proof fn lemma_with_name(names: Seq<Seq<char>>, name: Seq<char>, at: int)
    requires
        increasing(names),
        0 <= at <= names.len(),
        forall|i: int| 0 <= i < at ==> text::text_before(#[trigger] names[i], name),
    ensures
        increasing(with_name(names, name, at)),
        forall|x: Seq<char>| #[trigger]
            with_name(names, name, at).contains(x) <==> x == name || names.contains(x),
    decreases names.len() - at,
{
    let out = with_name(names, name, at);
    if at >= names.len() {
        assert forall|x: Seq<char>| #[trigger] out.contains(x) implies x == name || names.contains(
            x,
        ) by {
            let i = choose|i: int| 0 <= i < out.len() && out[i] == x;
            if i < names.len() {
                assert(names[i] == x);
            }
        }
        assert forall|x: Seq<char>| x == name || names.contains(x) implies #[trigger] out.contains(
            x,
        ) by {
            if x == name {
                assert(out[names.len() as int] == x);
            } else {
                let i = choose|i: int| 0 <= i < names.len() && names[i] == x;
                assert(out[i] == x);
            }
        }
    } else if names[at] == name {
        assert(names.contains(name));
    } else if text::text_before(name, names[at]) {
        assert forall|i: int, j: int| 0 <= i < j < out.len() implies text::text_before(
            #[trigger] out[i],
            #[trigger] out[j],
        ) by {
            let b = if j < at { j } else { j - 1 };
            if i == at && b > at {
                text::lemma_text_before_transitive(name, names[at], names[b]);
            }
        }
        assert forall|x: Seq<char>| #[trigger] out.contains(x) implies x == name || names.contains(
            x,
        ) by {
            let i = choose|i: int| 0 <= i < out.len() && out[i] == x;
            if i < at {
                assert(names[i] == x);
            } else if i > at {
                assert(names[i - 1] == x);
            }
        }
        assert forall|x: Seq<char>| x == name || names.contains(x) implies #[trigger] out.contains(
            x,
        ) by {
            if x == name {
                assert(out[at] == x);
            } else {
                let i = choose|i: int| 0 <= i < names.len() && names[i] == x;
                assert(out[if i < at { i } else { i + 1 }] == x);
            }
        }
    } else {
        lemma_order_total(names[at], name);
        lemma_with_name(names, name, at + 1);
    }
}

proof fn lemma_order_total(a: Seq<char>, b: Seq<char>)
    requires
        a != b,
        !text::text_before(b, a),
    ensures
        text::text_before(a, b),
{
    let i = first_difference(a, b, 0);
    lemma_first_difference(a, b, 0);
    if i < a.len() && i < b.len() {
        assert(a.subrange(0, i) == b.subrange(0, i));
        assert(b.subrange(0, i) == a.subrange(0, i));
    } else if i == a.len() && i == b.len() {
        assert(a =~= b);
    } else {
        assert(a.subrange(0, i) == b.subrange(0, i));
        assert(b.subrange(0, i) == a.subrange(0, i));
    }
}

spec fn first_difference(a: Seq<char>, b: Seq<char>, i: int) -> int
    decreases a.len() - i,
{
    if 0 <= i < a.len() && i < b.len() && a[i] == b[i] {
        first_difference(a, b, i + 1)
    } else {
        i
    }
}

proof fn lemma_first_difference(a: Seq<char>, b: Seq<char>, i: int)
    requires
        0 <= i <= a.len(),
        i <= b.len(),
        forall|j: int| 0 <= j < i ==> a[j] == b[j],
    ensures
        ({
            let k = first_difference(a, b, i);
            &&& i <= k <= a.len()
            &&& k <= b.len()
            &&& forall|j: int| 0 <= j < k ==> a[j] == b[j]
            &&& k < a.len() && k < b.len() ==> a[k] != b[k]
        }),
    decreases a.len() - i,
{
    if i < a.len() && i < b.len() && a[i] == b[i] {
        lemma_first_difference(a, b, i + 1);
    }
}

fn insert_name(names: &mut Vec<String>, name: &[char])
    requires
        increasing(policy_schedule::texts(old(names)@)),
    ensures
        policy_schedule::texts(final(names)@) == with_name(policy_schedule::texts(old(names)@), name@, 0),
        increasing(policy_schedule::texts(final(names)@)),
{
    let ghost before = policy_schedule::texts(names@);
    proof {
        lemma_with_name(before, name@, 0);
    }
    let mut at: usize = 0;
    while at < names.len()
        invariant
            at <= names@.len(),
            before == policy_schedule::texts(old(names)@),
            policy_schedule::texts(names@) == before,
            with_name(before, name@, 0) == with_name(before, name@, at as int),
            increasing(with_name(before, name@, 0)),
        decreases names@.len() - at,
    {
        let here = chars_of(names[at].as_str());
        assert(before[at as int] == here@);
        let r: i8 = order(name, &here);
        if r == 0 {
            return;
        }
        if r == -1 {
            names.insert(at, string_of(name));
            assert(policy_schedule::texts(names@) =~= before.insert(at as int, name@));
            return;
        }
        at += 1;
    }
    names.push(string_of(name));
    assert(policy_schedule::texts(names@) =~= before.push(name@));
}

/// Joins texts with a separator.
pub fn join(list: &[&str], separator: &str) -> (text: Vec<char>)
    ensures
        text@ == text::joined(strs(list@), separator@),
{
    let mut out: Vec<char> = Vec::new();
    let mut i: usize = 0;
    while i < list.len()
        invariant
            i <= list@.len(),
            out@ == text::joined(strs(list@).subrange(0, i as int), separator@),
        decreases list@.len() - i,
    {
        let ghost before = strs(list@).subrange(0, i as int);
        if i > 0 {
            push_text(&mut out, separator);
        }
        push_text(&mut out, list[i]);
        i += 1;
        proof {
            let now = strs(list@).subrange(0, i as int);
            assert(now.drop_last() =~= before);
            if i == 1 {
                assert(out@ =~= now[0]);
            }
        }
    }
    assert(strs(list@).subrange(0, list@.len() as int) =~= strs(list@));
    out
}

fn list_has(list: &[&str], text: &[char]) -> (yes: bool)
    ensures
        yes == strs(list@).contains(text@),
{
    let mut i: usize = 0;
    while i < list.len()
        invariant
            i <= list@.len(),
            forall|j: int| 0 <= j < i ==> strs(list@)[j] != text@,
        decreases list@.len() - i,
    {
        if is_text(text, list[i]) {
            assert(strs(list@)[i as int] == text@);
            return true;
        }
        i += 1;
    }
    false
}

impl TrainScopeSet {
    /// Names are kept in strictly increasing order.
    pub open spec fn wf(&self) -> bool {
        increasing(policy_schedule::texts(self.names@))
    }

    /// Enable all scopes.
    pub fn all() -> (set: Self)
        ensures
            set@ == (ScopeModel { all: true, names: Seq::empty() }),
            set.wf(),
    {
        let names: Vec<String> = Vec::new();
        assert(policy_schedule::texts(names@) =~= Seq::empty());
        TrainScopeSet { all: true, names }
    }

    /// Disable all scopes.
    pub fn none() -> (set: Self)
        ensures
            set@ == (ScopeModel { all: false, names: Seq::empty() }),
            set.wf(),
    {
        let names: Vec<String> = Vec::new();
        assert(policy_schedule::texts(names@) =~= Seq::empty());
        TrainScopeSet { all: false, names }
    }

    /// Returns whether `name` is enabled by this set. Where the names are out of order, one that is
    /// there may be missed.
    pub fn contains(&self, name: &str) -> (yes: bool)
        ensures
            ascending(self@.names) ==> yes == (self@.all || self@.names.contains(name@)),
            yes ==> self@.all || self@.names.contains(name@),
    {
        if self.all {
            return true;
        }
        let wanted = chars_of(name);
        let ghost names = policy_schedule::texts(self.names@);
        let mut lo: usize = 0;
        let mut hi: usize = self.names.len();
        while lo < hi
            invariant
                lo <= hi <= self.names@.len(),
                wanted@ == name@,
                names == policy_schedule::texts(self.names@),
                ascending(names) ==> (forall|i: int| 0 <= i < lo ==> #[trigger] names[i] != name@),
                ascending(names) ==> (forall|i: int|
                    hi <= i < names.len() ==> #[trigger] names[i] != name@),
            decreases hi - lo,
        {
            let mid: usize = lo + (hi - lo) / 2;
            let here = chars_of(self.names[mid].as_str());
            assert(names[mid as int] == here@);
            let r: i8 = order(&here, &wanted);
            if r == 0 {
                assert(names.contains(name@));
                return true;
            }
            if r == -1 {
                assert forall|i: int| ascending(names) && 0 <= i < mid + 1 implies #[trigger] names[i]
                    != name@ by {
                    if names[i] == name@ {
                        text::lemma_text_before_irreflexive(names[mid as int], name@);
                        assert(names[i] == names[mid as int] || text::text_before(
                            names[i],
                            names[mid as int],
                        ));
                    }
                }
                lo = mid + 1;
            } else {
                assert forall|i: int|
                    ascending(names) && mid <= i < names.len() implies #[trigger] names[i]
                    != name@ by {
                    if names[i] == name@ {
                        text::lemma_text_before_irreflexive(name@, names[mid as int]);
                        assert(names[i] == names[mid as int] || text::text_before(
                            names[mid as int],
                            names[i],
                        ));
                    }
                }
                hi = mid;
            }
        }
        false
    }

    /// Returns `true` when the set explicitly enables no scopes.
    pub fn is_none(&self) -> (yes: bool)
        ensures
            yes == (!self@.all && self@.names.len() == 0),
    {
        !self.all && self.names.len() == 0
    }

    /// Parse a scope expression against an allow-list.
    ///
    /// Supports `all`, `none`, or a `+`/`|`/`/` separated list.
    pub fn parse(value: &str, allowed_scopes: &[&str]) -> (set: Result<Self, PolicyError>)
        ensures
            policy_error::agrees(set, scope_of(value@, strs(allowed_scopes@))),
            set matches Ok(s) ==> s.wf(),
    {
        let chars = chars_of(value);
        parse_scope(&chars, allowed_scopes)
    }

    /// Canonical string form (`all`, `none`, or `a+b+c`).
    pub fn canonical(&self) -> (text: String)
        ensures
            text@ == scope_text(self@),
    {
        let out = render_scope(self);
        string_of(&out)
    }
}

fn parse_scope(value: &[char], allowed_scopes: &[&str]) -> (set: Result<TrainScopeSet, PolicyError>)
    ensures
        policy_error::agrees(set, scope_of(value@, strs(allowed_scopes@))),
        set matches Ok(s) ==> s.wf(),
{
    let v = lowercase(trim(value));
    if v.len() == 0 {
        return Err(refuse_plain(PolicyErrorKind::EmptyScope));
    }
    if is_text(&v, "all") {
        return Ok(TrainScopeSet::all());
    }
    if is_text(&v, "none") {
        return Ok(TrainScopeSet::none());
    }
    let ghost allowed = strs(allowed_scopes@);
    let ghost pieces = scope_pieces(v@, 0, 0);
    let mut names: Vec<String> = Vec::new();
    assert(policy_schedule::texts(names@) =~= Seq::empty());
    let mut start: usize = 0;
    let mut at: usize = 0;
    let mut done: bool = false;
    let ghost mut count: int = 0;
    while !done
        invariant
            start <= at <= v@.len(),
            allowed == strs(allowed_scopes@),
            pieces == scope_pieces(v@, 0, 0),
            scope_of(value@, allowed) == (match scope_names(pieces, 0, Seq::empty(), allowed) {
                Ok(names) => Ok::<ScopeModel, ErrorModel>(ScopeModel { all: false, names }),
                Err(error) => Err(error),
            }),
            increasing(policy_schedule::texts(names@)),
            0 <= count <= pieces.len(),
            !done ==> pieces == pieces.subrange(0, count) + scope_pieces(
                v@,
                start as int,
                at as int,
            ),
            done ==> count == pieces.len(),
            scope_names(pieces, 0, Seq::empty(), allowed) == scope_names(
                pieces,
                count,
                policy_schedule::texts(names@),
                allowed,
            ),
        decreases
            v@.len() - at,
            if done {
                0int
            } else {
                1int
            },
    {
        if at < v.len() && !(v[at] == '+' || v[at] == '|' || v[at] == '/') {
            at += 1;
        } else {
            let piece = slice_subrange(&v, start, at);
            let t = trim(piece);
            proof {
                let rest = scope_pieces(v@, start as int, at as int);
                assert(rest[0] == piece@);
                assert(pieces[count] == piece@);
                if at < v@.len() {
                    assert(pieces =~= pieces.subrange(0, count + 1) + scope_pieces(
                        v@,
                        at + 1,
                        at + 1,
                    ));
                }
            }
            if t.len() != 0 {
                if !list_has(allowed_scopes, t) {
                    let detail = join(allowed_scopes, ",");
                    return Err(
                        PolicyError {
                            kind: PolicyErrorKind::UnknownScope,
                            subject: string_of(t),
                            detail: string_of(&detail),
                        },
                    );
                }
                if is_text(t, "all") || is_text(t, "none") {
                    return Err(refuse(PolicyErrorKind::MixedScope, t));
                }
                insert_name(&mut names, t);
            }
            proof {
                count = count + 1;
            }
            if at < v.len() {
                at += 1;
                start = at;
            } else {
                done = true;
            }
        }
    }
    Ok(TrainScopeSet { all: false, names })
}

// ---------------------------------------------------------------------------------------
// Actions
// ---------------------------------------------------------------------------------------

/// Settings of a bare `train` action.
pub open spec fn default_hyper() -> HyperModel {
    HyperModel { lr: "0.001"@, stride: 1, bptt: 1, clip: "0"@, momentum: "0.9"@ }
}

/// A bare `train` action.
pub open spec fn default_train() -> TrainModel {
    TrainModel {
        scope: ScopeModel { all: true, names: Seq::empty() },
        optimizer: OptimizerKind::Sgd,
        hyper: default_hyper(),
    }
}

impl Default for OptimizerHyperParams {
    fn default() -> (hyper: Self)
        ensures
            hyper@ == default_hyper(),
    {
        OptimizerHyperParams {
            lr: "0.001".to_string(),
            stride: 1,
            bptt: 1,
            clip: "0".to_string(),
            momentum: "0.9".to_string(),
        }
    }
}

/// The larger of two numbers.
pub open spec fn larger(a: nat, b: nat) -> nat {
    if a < b {
        b
    } else {
        a
    }
}

/// `train` with the argument `arg` applied.
pub open spec fn with_train_arg(
    train: TrainModel,
    arg: Seq<char>,
    allowed: Seq<Seq<char>>,
) -> Result<TrainModel, ErrorModel> {
    match text::cut_char(arg, '=') {
        None => Err(policy_error::bad(PolicyErrorKind::InvalidTrainArgument, arg)),
        Some((k, v)) => {
            let key = text::lowered(text::trimmed(k));
            let val = text::trimmed(v);
            if key == "scope"@ {
                match scope_of(val, allowed) {
                    Ok(scope) => Ok(TrainModel { scope, ..train }),
                    Err(error) => Err(error),
                }
            } else if key == "opt"@ || key == "optimizer"@ {
                if text::lowered(val) == "sgd"@ {
                    Ok(TrainModel { optimizer: OptimizerKind::Sgd, ..train })
                } else if text::lowered(val) == "adam"@ {
                    Ok(TrainModel { optimizer: OptimizerKind::Adam, ..train })
                } else {
                    Err(policy_error::bad(PolicyErrorKind::UnknownOptimizer, text::lowered(val)))
                }
            } else if key == "lr"@ {
                if reals::is_real(val) {
                    Ok(
                        TrainModel {
                            hyper: HyperModel { lr: reals::shown_nonnegative(val), ..train.hyper },
                            ..train
                        },
                    )
                } else {
                    Err(policy_error::bad(PolicyErrorKind::InvalidLr, val))
                }
            } else if key == "stride"@ {
                match text::parsed_uint(val, usize::MAX as nat) {
                    Some(n) => Ok(
                        TrainModel {
                            hyper: HyperModel { stride: larger(n, 1), ..train.hyper },
                            ..train
                        },
                    ),
                    None => Err(policy_error::bad(PolicyErrorKind::InvalidStride, val)),
                }
            } else if key == "bptt"@ {
                match text::parsed_uint(val, usize::MAX as nat) {
                    Some(n) => Ok(
                        TrainModel {
                            hyper: HyperModel { bptt: larger(n, 1), ..train.hyper },
                            ..train
                        },
                    ),
                    None => Err(policy_error::bad(PolicyErrorKind::InvalidBptt, val)),
                }
            } else if key == "clip"@ {
                if reals::is_real(val) {
                    Ok(
                        TrainModel {
                            hyper: HyperModel { clip: reals::shown_nonnegative(val), ..train.hyper },
                            ..train
                        },
                    )
                } else {
                    Err(policy_error::bad(PolicyErrorKind::InvalidClip, val))
                }
            } else if key == "momentum"@ {
                if reals::is_real(val) {
                    Ok(
                        TrainModel {
                            hyper: HyperModel {
                                momentum: reals::shown_real(val, false),
                                ..train.hyper
                            },
                            ..train
                        },
                    )
                } else {
                    Err(policy_error::bad(PolicyErrorKind::InvalidMomentum, val))
                }
            } else {
                Err(policy_error::bad(PolicyErrorKind::UnknownTrainKey, key))
            }
        },
    }
}

/// `train` with the arguments from index `i` on applied in order; empty ones are skipped.
pub open spec fn with_train_args(
    train: TrainModel,
    args: Seq<Seq<char>>,
    i: int,
    allowed: Seq<Seq<char>>,
) -> Result<TrainModel, ErrorModel>
    decreases args.len() - i,
{
    if i < 0 || i >= args.len() {
        Ok(train)
    } else if text::trimmed(args[i]).len() == 0 {
        with_train_args(train, args, i + 1, allowed)
    } else {
        match with_train_arg(train, text::trimmed(args[i]), allowed) {
            Ok(next) => with_train_args(next, args, i + 1, allowed),
            Err(error) => Err(error),
        }
    }
}

/// Text between `opening` and a final closing parenthesis.
pub open spec fn enclosed(s: Seq<char>, opening: Seq<char>) -> Option<Seq<char>> {
    match text::after_prefix(s, opening) {
        Some(rest) => text::before_last(rest, ')'),
        None => None,
    }
}

/// Action written by `token`.
pub open spec fn action_of(token: Seq<char>, allowed: Seq<Seq<char>>) -> Result<
    ActionModel,
    ErrorModel,
> {
    let t = text::trimmed(token);
    if text::lowered(t) == "infer"@ {
        Ok(ActionModel::Infer)
    } else if text::lowered(t) == "train"@ {
        Ok(ActionModel::Train(default_train()))
    } else {
        match enclosed(t, "train("@) {
            None => Err(policy_error::bad(PolicyErrorKind::InvalidAction, token)),
            Some(inner) => match top_split(inner, ',') {
                Err(error) => Err(error),
                Ok(args) => match with_train_args(default_train(), args, 0, allowed) {
                    Ok(train) => Ok(ActionModel::Train(train)),
                    Err(error) => Err(error),
                },
            },
        }
    }
}

fn strip_enclosed<'a>(s: &'a [char], opening: &str) -> (inner: Option<&'a [char]>)
    ensures
        match inner {
            Some(r) => enclosed(s@, opening@) == Some(r@),
            None => enclosed(s@, opening@) is None,
        },
{
    match strip_prefix(s, opening) {
        Some(rest) => strip_last(rest, ')'),
        None => None,
    }
}

fn at_least_one(n: usize) -> (m: usize)
    ensures
        m == larger(n as nat, 1),
{
    if n < 1 {
        1
    } else {
        n
    }
}

fn apply_train_arg(train: TrainAction, arg: &[char], allowed_scopes: &[&str]) -> (next: Result<
    TrainAction,
    PolicyError,
>)
    requires
        train.scope.wf(),
    ensures
        policy_error::agrees(next, with_train_arg(train@, arg@, strs(allowed_scopes@))),
        next matches Ok(t) ==> t.scope.wf(),
{
    let mut train = train;
    match split_once_char(arg, '=') {
        None => Err(refuse(PolicyErrorKind::InvalidTrainArgument, arg)),
        Some((k, v)) => {
            let key = lowercase(trim(k));
            let val = trim(v);
            if is_text(&key, "scope") {
                match parse_scope(val, allowed_scopes) {
                    Ok(scope) => {
                        train.scope = scope;
                    },
                    Err(error) => {
                        return Err(error);
                    },
                }
            } else if is_text(&key, "opt") || is_text(&key, "optimizer") {
                let name = lowercase(val);
                if is_text(&name, "sgd") {
                    train.optimizer = OptimizerKind::Sgd;
                } else if is_text(&name, "adam") {
                    train.optimizer = OptimizerKind::Adam;
                } else {
                    return Err(refuse(PolicyErrorKind::UnknownOptimizer, &name));
                }
            } else if is_text(&key, "lr") {
                if !check_real(val) {
                    return Err(refuse(PolicyErrorKind::InvalidLr, val));
                }
                train.hyper.lr = string_of(&show_nonnegative(val));
            } else if is_text(&key, "stride") {
                match parse_size(val) {
                    Some(n) => {
                        train.hyper.stride = at_least_one(n);
                    },
                    None => {
                        return Err(refuse(PolicyErrorKind::InvalidStride, val));
                    },
                }
            } else if is_text(&key, "bptt") {
                match parse_size(val) {
                    Some(n) => {
                        train.hyper.bptt = at_least_one(n);
                    },
                    None => {
                        return Err(refuse(PolicyErrorKind::InvalidBptt, val));
                    },
                }
            } else if is_text(&key, "clip") {
                if !check_real(val) {
                    return Err(refuse(PolicyErrorKind::InvalidClip, val));
                }
                train.hyper.clip = string_of(&show_nonnegative(val));
            } else if is_text(&key, "momentum") {
                if !check_real(val) {
                    return Err(refuse(PolicyErrorKind::InvalidMomentum, val));
                }
                train.hyper.momentum = string_of(&show_real(val, false));
            } else {
                return Err(refuse(PolicyErrorKind::UnknownTrainKey, &key));
            }
            Ok(train)
        },
    }
}

/// A train action's scope names are in order.
pub open spec fn action_wf(action: PolicyAction) -> bool {
    action matches PolicyAction::Train(train) ==> train.scope.wf()
}

/// Reads an action: `infer`, `train`, or `train(key=value,...)`.
pub fn parse_action(token: &[char], allowed_scopes: &[&str]) -> (action: Result<
    PolicyAction,
    PolicyError,
>)
    ensures
        policy_error::agrees(action, action_of(token@, strs(allowed_scopes@))),
        action matches Ok(a) ==> action_wf(a),
{
    let t = trim(token);
    let low = lowercase(t);
    if is_text(&low, "infer") {
        return Ok(PolicyAction::Infer);
    }
    let mut train = TrainAction {
        scope: TrainScopeSet::all(),
        optimizer: OptimizerKind::Sgd,
        hyper: OptimizerHyperParams::default(),
    };
    if is_text(&low, "train") {
        return Ok(PolicyAction::Train(train));
    }
    let inner = match strip_enclosed(t, "train(") {
        Some(inner) => inner,
        None => {
            return Err(refuse(PolicyErrorKind::InvalidAction, token));
        },
    };
    let args = match split_top_level(inner, ',') {
        Ok(args) => args,
        Err(error) => {
            return Err(error);
        },
    };
    let ghost allowed = strs(allowed_scopes@);
    let mut i: usize = 0;
    while i < args.len()
        invariant
            i <= args@.len(),
            allowed == strs(allowed_scopes@),
            train.scope.wf(),
            with_train_args(default_train(), slices(args@), 0, allowed) == with_train_args(
                train@,
                slices(args@),
                i as int,
                allowed,
            ),
            action_of(token@, allowed) == (match with_train_args(
                default_train(),
                slices(args@),
                0,
                allowed,
            ) {
                Ok(train) => Ok::<ActionModel, ErrorModel>(ActionModel::Train(train)),
                Err(error) => Err(error),
            }),
        decreases args@.len() - i,
    {
        let arg = trim(args[i]);
        assert(slices(args@)[i as int] == args@[i as int]@);
        if arg.len() != 0 {
            match apply_train_arg(train, arg, allowed_scopes) {
                Ok(next) => {
                    train = next;
                },
                Err(error) => {
                    return Err(error);
                },
            }
        }
        i += 1;
    }
    Ok(PolicyAction::Train(train))
}

// ---------------------------------------------------------------------------------------
// Rules
// ---------------------------------------------------------------------------------------

/// Interval schedule rule (`start..end:action`).
#[derive(Debug)]
pub struct PolicyRule {
    /// Inclusive interval start.
    pub start: PositionExpr,
    /// Exclusive interval end.
    pub end: PositionExpr,
    /// Action applied in the interval.
    pub action: PolicyAction,
}

/// Mathematical value of [`PolicyRule`].
#[verifier::ext_equal]
pub struct RuleModel {
    pub start: PositionModel,
    pub end: PositionModel,
    pub action: ActionModel,
}

impl View for PolicyRule {
    type V = RuleModel;

    open spec fn view(&self) -> RuleModel {
        RuleModel { start: self.start@, end: self.end@, action: self.action@ }
    }
}

impl Clone for PolicyRule {
    fn clone(&self) -> (copy: Self)
        ensures
            copy@ == self@,
    {
        PolicyRule {
            start: self.start.clone(),
            end: self.end.clone(),
            action: self.action.clone(),
        }
    }
}

/// One segment inside a repeating pattern.
#[derive(Debug)]
pub struct RepeatSegment {
    /// Segment duration.
    pub span: PositionExpr,
    /// Action active for this segment.
    pub action: PolicyAction,
}

/// Mathematical value of [`RepeatSegment`].
#[verifier::ext_equal]
pub struct SegmentModel {
    pub span: PositionModel,
    pub action: ActionModel,
}

impl View for RepeatSegment {
    type V = SegmentModel;

    open spec fn view(&self) -> SegmentModel {
        SegmentModel { span: self.span@, action: self.action@ }
    }
}

impl Clone for RepeatSegment {
    fn clone(&self) -> (copy: Self)
        ensures
            copy@ == self@,
    {
        RepeatSegment { span: self.span.clone(), action: self.action.clone() }
    }
}

/// Values of a list of segments.
pub open spec fn segments(pattern: Seq<RepeatSegment>) -> Seq<SegmentModel> {
    pattern.map_values(|segment: RepeatSegment| segment@)
}

/// Repeat schedule rule with cycle period and inner pattern.
#[derive(Debug)]
pub struct RepeatRule {
    /// Inclusive active-start boundary.
    pub start: PositionExpr,
    /// Exclusive active-end boundary.
    pub end: PositionExpr,
    /// Repeat cycle length.
    pub period: PositionExpr,
    /// Ordered segments inside one cycle.
    pub pattern: Vec<RepeatSegment>,
}

/// Mathematical value of [`RepeatRule`].
#[verifier::ext_equal]
pub struct RepeatModel {
    pub start: PositionModel,
    pub end: PositionModel,
    pub period: PositionModel,
    pub pattern: Seq<SegmentModel>,
}

impl View for RepeatRule {
    type V = RepeatModel;

    open spec fn view(&self) -> RepeatModel {
        RepeatModel {
            start: self.start@,
            end: self.end@,
            period: self.period@,
            pattern: segments(self.pattern@),
        }
    }
}

impl Clone for RepeatRule {
    fn clone(&self) -> (copy: Self)
        ensures
            copy@ == self@,
    {
        let pattern = self.pattern.clone();
        assert(segments(pattern@) =~= segments(self.pattern@));
        RepeatRule {
            start: self.start.clone(),
            end: self.end.clone(),
            period: self.period.clone(),
            pattern,
        }
    }
}

/// Top-level schedule rule.
#[derive(Debug)]
pub enum ScheduleRule {
    /// Single contiguous interval.
    Interval(PolicyRule),
    /// Periodic repeating schedule.
    Repeat(RepeatRule),
}

/// Mathematical value of [`ScheduleRule`].
#[verifier::ext_equal]
pub enum ScheduleModel {
    Interval(RuleModel),
    Repeat(RepeatModel),
}

impl View for ScheduleRule {
    type V = ScheduleModel;

    open spec fn view(&self) -> ScheduleModel {
        match self {
            ScheduleRule::Interval(rule) => ScheduleModel::Interval(rule@),
            ScheduleRule::Repeat(rule) => ScheduleModel::Repeat(rule@),
        }
    }
}

impl Clone for ScheduleRule {
    fn clone(&self) -> (copy: Self)
        ensures
            copy@ == self@,
    {
        match self {
            ScheduleRule::Interval(rule) => ScheduleRule::Interval(rule.clone()),
            ScheduleRule::Repeat(rule) => ScheduleRule::Repeat(rule.clone()),
        }
    }
}

/// Values of a list of rules.
pub open spec fn rules(schedule: Seq<ScheduleRule>) -> Seq<ScheduleModel> {
    schedule.map_values(|rule: ScheduleRule| rule@)
}

/// Parsed policy specification for online adaptation.
#[derive(Debug)]
pub struct LlmPolicy {
    /// Optional initial weights/source to load before running schedule.
    pub load_from: Option<String>,
    /// Ordered schedule rules.
    pub schedule: Vec<ScheduleRule>,
}

/// Mathematical value of [`LlmPolicy`].
#[verifier::ext_equal]
pub struct PolicyModel {
    pub load_from: Option<Seq<char>>,
    pub schedule: Seq<ScheduleModel>,
}

impl View for LlmPolicy {
    type V = PolicyModel;

    open spec fn view(&self) -> PolicyModel {
        PolicyModel {
            load_from: match self.load_from {
                Some(path) => Some(path@),
                None => None,
            },
            schedule: rules(self.schedule@),
        }
    }
}

impl Clone for LlmPolicy {
    fn clone(&self) -> (copy: Self)
        ensures
            copy@ == self@,
    {
        let schedule = self.schedule.clone();
        assert(rules(schedule@) =~= rules(self.schedule@));
        let load_from = match &self.load_from {
            Some(path) => Some(path.clone()),
            None => None,
        };
        LlmPolicy { load_from, schedule }
    }
}

/// Every train action of the rule has its scope names in order.
pub open spec fn rule_wf(rule: ScheduleRule) -> bool {
    match rule {
        ScheduleRule::Interval(interval) => action_wf(interval.action),
        ScheduleRule::Repeat(repeat) => forall|i: int|
            0 <= i < repeat.pattern@.len() ==> action_wf((#[trigger] repeat.pattern@[i]).action),
    }
}

/// Interval rule written by `token`.
pub open spec fn interval_of(token: Seq<char>, allowed: Seq<Seq<char>>) -> Result<
    RuleModel,
    ErrorModel,
> {
    match text::cut_char(token, ':') {
        None => Err(policy_error::bad(PolicyErrorKind::InvalidRule, token)),
        Some((range, action_text)) => match range_of(range) {
            Err(error) => Err(error),
            Ok((start, end)) => match action_of(action_text, allowed) {
                Err(error) => Err(error),
                Ok(action) => Ok(RuleModel { start, end, action }),
            },
        },
    }
}

/// Reads `<start>..<end>:<action>`.
pub fn parse_interval_rule(token: &[char], allowed_scopes: &[&str]) -> (rule: Result<
    PolicyRule,
    PolicyError,
>)
    ensures
        policy_error::agrees(rule, interval_of(token@, strs(allowed_scopes@))),
        rule matches Ok(r) ==> action_wf(r.action),
{
    match split_once_char(token, ':') {
        None => Err(refuse(PolicyErrorKind::InvalidRule, token)),
        Some((range, action_text)) => match parse_range(range) {
            Err(error) => Err(error),
            Ok((start, end)) => match parse_action(action_text, allowed_scopes) {
                Err(error) => Err(error),
                Ok(action) => Ok(PolicyRule { start, end, action }),
            },
        },
    }
}

/// Segment written by `s`.
pub open spec fn segment_of(s: Seq<char>, allowed: Seq<Seq<char>>) -> Result<
    SegmentModel,
    ErrorModel,
> {
    match text::cut_char(s, ':') {
        None => Err(policy_error::bad(PolicyErrorKind::InvalidPatternSegment, s)),
        Some((span_text, action_text)) => match position_of(text::trimmed(span_text)) {
            Err(error) => Err(error),
            Ok(span) => match action_of(text::trimmed(action_text), allowed) {
                Err(error) => Err(error),
                Ok(action) => Ok(SegmentModel { span, action }),
            },
        },
    }
}

/// Segments written by the pieces from index `i` on, behind `done`; empty ones are skipped.
pub open spec fn segments_of(
    pieces: Seq<Seq<char>>,
    i: int,
    done: Seq<SegmentModel>,
    allowed: Seq<Seq<char>>,
) -> Result<Seq<SegmentModel>, ErrorModel>
    decreases pieces.len() - i,
{
    if i < 0 || i >= pieces.len() {
        Ok(done)
    } else if text::trimmed(pieces[i]).len() == 0 {
        segments_of(pieces, i + 1, done, allowed)
    } else {
        match segment_of(text::trimmed(pieces[i]), allowed) {
            Ok(segment) => segments_of(pieces, i + 1, done.push(segment), allowed),
            Err(error) => Err(error),
        }
    }
}

/// Pattern written by `val`.
pub open spec fn pattern_of(val: Seq<char>, allowed: Seq<Seq<char>>) -> Result<
    Seq<SegmentModel>,
    ErrorModel,
> {
    match top_split(val, '+') {
        Err(error) => Err(error),
        Ok(pieces) => segments_of(pieces, 0, Seq::empty(), allowed),
    }
}

fn parse_segment(s: &[char], allowed_scopes: &[&str]) -> (segment: Result<
    RepeatSegment,
    PolicyError,
>)
    ensures
        policy_error::agrees(segment, segment_of(s@, strs(allowed_scopes@))),
        segment matches Ok(r) ==> action_wf(r.action),
{
    match split_once_char(s, ':') {
        None => Err(refuse(PolicyErrorKind::InvalidPatternSegment, s)),
        Some((span_text, action_text)) => match parse_position_expr(trim(span_text)) {
            Err(error) => Err(error),
            Ok(span) => match parse_action(trim(action_text), allowed_scopes) {
                Err(error) => Err(error),
                Ok(action) => Ok(RepeatSegment { span, action }),
            },
        },
    }
}

fn parse_pattern(val: &[char], allowed_scopes: &[&str]) -> (pattern: Result<
    Vec<RepeatSegment>,
    PolicyError,
>)
    ensures
        match pattern {
            Ok(p) => pattern_of(val@, strs(allowed_scopes@)) == Ok::<
                Seq<SegmentModel>,
                ErrorModel,
            >(segments(p@)) && forall|i: int| 0 <= i < p@.len() ==> action_wf((#[trigger] p@[i]).action),
            Err(error) => pattern_of(val@, strs(allowed_scopes@)) == Err::<
                Seq<SegmentModel>,
                ErrorModel,
            >(error@),
        },
{
    let pieces = match split_top_level(val, '+') {
        Ok(pieces) => pieces,
        Err(error) => {
            return Err(error);
        },
    };
    let ghost allowed = strs(allowed_scopes@);
    let mut segs: Vec<RepeatSegment> = Vec::new();
    assert(segments(segs@) =~= Seq::empty());
    let mut i: usize = 0;
    while i < pieces.len()
        invariant
            i <= pieces@.len(),
            allowed == strs(allowed_scopes@),
            pattern_of(val@, allowed) == segments_of(
                slices(pieces@),
                i as int,
                segments(segs@),
                allowed,
            ),
            forall|i: int| 0 <= i < segs@.len() ==> action_wf((#[trigger] segs@[i]).action),
        decreases pieces@.len() - i,
    {
        let s = trim(pieces[i]);
        assert(slices(pieces@)[i as int] == pieces@[i as int]@);
        if s.len() != 0 {
            match parse_segment(s, allowed_scopes) {
                Ok(segment) => {
                    let ghost before = segments(segs@);
                    segs.push(segment);
                    assert(segments(segs@) =~= before.push(segment@));
                },
                Err(error) => {
                    return Err(error);
                },
            }
        }
        i += 1;
    }
    Ok(segs)
}

/// Period and pattern found so far among the arguments of a repeat rule.
#[verifier::ext_equal]
pub struct RepeatArgs {
    pub period: Option<PositionModel>,
    pub pattern: Option<Seq<SegmentModel>>,
}

/// `found` with the arguments from index `i` on applied in order; empty ones are skipped.
pub open spec fn with_repeat_args(
    found: RepeatArgs,
    args: Seq<Seq<char>>,
    i: int,
    allowed: Seq<Seq<char>>,
) -> Result<RepeatArgs, ErrorModel>
    decreases args.len() - i,
{
    if i < 0 || i >= args.len() {
        Ok(found)
    } else {
        let arg = text::trimmed(args[i]);
        if arg.len() == 0 {
            with_repeat_args(found, args, i + 1, allowed)
        } else {
            match text::cut_char(arg, '=') {
                None => Err(policy_error::bad(PolicyErrorKind::InvalidRepeatArgument, arg)),
                Some((k, v)) => {
                    let key = text::lowered(text::trimmed(k));
                    let val = text::trimmed(v);
                    if key == "period"@ {
                        match position_of(val) {
                            Ok(period) => with_repeat_args(
                                RepeatArgs { period: Some(period), ..found },
                                args,
                                i + 1,
                                allowed,
                            ),
                            Err(error) => Err(error),
                        }
                    } else if key == "pattern"@ {
                        match pattern_of(val, allowed) {
                            Ok(pattern) => with_repeat_args(
                                RepeatArgs { pattern: Some(pattern), ..found },
                                args,
                                i + 1,
                                allowed,
                            ),
                            Err(error) => Err(error),
                        }
                    } else {
                        Err(policy_error::bad(PolicyErrorKind::UnknownRepeatKey, key))
                    }
                },
            }
        }
    }
}

/// Repeat rule with the given range and arguments.
pub open spec fn repeat_with(
    start: PositionModel,
    end: PositionModel,
    found: RepeatArgs,
) -> Result<RepeatModel, ErrorModel> {
    match found.period {
        None => Err(policy_error::plain(PolicyErrorKind::PeriodRequired)),
        Some(period) => match found.pattern {
            None => Err(policy_error::plain(PolicyErrorKind::PatternRequired)),
            Some(pattern) => if pattern.len() == 0 {
                Err(policy_error::plain(PolicyErrorKind::EmptyPattern))
            } else {
                Ok(RepeatModel { start, end, period, pattern })
            },
        },
    }
}

/// Repeat rule written by `token`.
pub open spec fn repeat_of(token: Seq<char>, allowed: Seq<Seq<char>>) -> Result<
    RepeatModel,
    ErrorModel,
> {
    match enclosed(token, "repeat("@) {
        None => Err(policy_error::bad(PolicyErrorKind::InvalidRepeat, token)),
        Some(inner) => match top_split(inner, ',') {
            Err(error) => Err(error),
            Ok(args) => match range_of(text::trimmed(args[0])) {
                Err(error) => Err(error),
                Ok((start, end)) => match with_repeat_args(
                    RepeatArgs { period: None, pattern: None },
                    args,
                    1,
                    allowed,
                ) {
                    Err(error) => Err(error),
                    Ok(found) => repeat_with(start, end, found),
                },
            },
        },
    }
}

/// Whether `found` is what `period` and `pattern` hold.
spec fn repeat_args_are(
    found: RepeatArgs,
    period: Option<PositionExpr>,
    pattern: Option<Vec<RepeatSegment>>,
) -> bool {
    &&& match period {
        Some(p) => found.period == Some(p@),
        None => found.period is None,
    }
    &&& match pattern {
        Some(p) => found.pattern == Some(segments(p@)) && forall|i: int|
            0 <= i < p@.len() ==> action_wf((#[trigger] p@[i]).action),
        None => found.pattern is None,
    }
}

pub proof fn lemma_top_pieces_nonempty(s: Seq<char>, delim: char, start: int, at: int)
    ensures
        top_pieces(s, delim, start, at).len() > 0,
    decreases s.len() - at,
{
    if 0 <= at < s.len() {
        if s[at] == delim && s[at] != '(' && s[at] != ')' && depth(s, at) == 0 {
        } else {
            lemma_top_pieces_nonempty(s, delim, start, at + 1);
        }
    }
}

/// Reads `repeat(<start>..<end>,period=...,pattern=...)`.
pub fn parse_repeat_rule(token: &[char], allowed_scopes: &[&str]) -> (rule: Result<
    RepeatRule,
    PolicyError,
>)
    ensures
        policy_error::agrees(rule, repeat_of(token@, strs(allowed_scopes@))),
        rule matches Ok(r) ==> rule_wf(ScheduleRule::Repeat(r)),
{
    let inner = match strip_enclosed(token, "repeat(") {
        Some(inner) => inner,
        None => {
            return Err(refuse(PolicyErrorKind::InvalidRepeat, token));
        },
    };
    let args = match split_top_level(inner, ',') {
        Ok(args) => args,
        Err(error) => {
            return Err(error);
        },
    };
    proof {
        lemma_top_pieces_nonempty(inner@, ',', 0, 0);
        assert(slices(args@)[0] == args@[0]@);
    }
    let (start, end) = match parse_range(trim(args[0])) {
        Ok(bounds) => bounds,
        Err(error) => {
            return Err(error);
        },
    };
    let mut period: Option<PositionExpr> = None;
    let mut pattern: Option<Vec<RepeatSegment>> = None;
    let ghost allowed = strs(allowed_scopes@);
    let ghost mut found = RepeatArgs { period: None, pattern: None };
    let ghost all = with_repeat_args(found, slices(args@), 1, allowed);
    let mut i: usize = 1;
    while i < args.len()
        invariant
            1 <= i <= args@.len(),
            allowed == strs(allowed_scopes@),
            all == with_repeat_args(found, slices(args@), i as int, allowed),
            repeat_args_are(found, period, pattern),
            repeat_of(token@, allowed) == (match all {
                Err(error) => Err::<RepeatModel, ErrorModel>(error),
                Ok(f) => repeat_with(start@, end@, f),
            }),
        decreases args@.len() - i,
    {
        let arg = trim(args[i]);
        assert(slices(args@)[i as int] == args@[i as int]@);
        if arg.len() != 0 {
            let (k, v) = match split_once_char(arg, '=') {
                Some(parts) => parts,
                None => {
                    return Err(refuse(PolicyErrorKind::InvalidRepeatArgument, arg));
                },
            };
            let key = lowercase(trim(k));
            let val = trim(v);
            if is_text(&key, "period") {
                match parse_position_expr(val) {
                    Ok(p) => {
                        proof {
                            found = RepeatArgs { period: Some(p@), ..found };
                        }
                        period = Some(p);
                    },
                    Err(error) => {
                        return Err(error);
                    },
                }
            } else if is_text(&key, "pattern") {
                match parse_pattern(val, allowed_scopes) {
                    Ok(p) => {
                        proof {
                            found = RepeatArgs { pattern: Some(segments(p@)), ..found };
                        }
                        pattern = Some(p);
                    },
                    Err(error) => {
                        return Err(error);
                    },
                }
            } else {
                return Err(refuse(PolicyErrorKind::UnknownRepeatKey, &key));
            }
        }
        i += 1;
    }
    let period = match period {
        Some(period) => period,
        None => {
            return Err(refuse_plain(PolicyErrorKind::PeriodRequired));
        },
    };
    let pattern = match pattern {
        Some(pattern) => pattern,
        None => {
            return Err(refuse_plain(PolicyErrorKind::PatternRequired));
        },
    };
    if pattern.len() == 0 {
        return Err(refuse_plain(PolicyErrorKind::EmptyPattern));
    }
    Ok(RepeatRule { start, end, period, pattern })
}

/// Rules written by the tokens from index `i` on, behind `done`; empty ones are skipped.
pub open spec fn rules_of(
    tokens: Seq<Seq<char>>,
    i: int,
    done: Seq<ScheduleModel>,
    allowed: Seq<Seq<char>>,
) -> Result<Seq<ScheduleModel>, ErrorModel>
    decreases tokens.len() - i,
{
    if i < 0 || i >= tokens.len() {
        Ok(done)
    } else {
        let t = text::trimmed(tokens[i]);
        if t.len() == 0 {
            rules_of(tokens, i + 1, done, allowed)
        } else if text::begins(t, "repeat("@) {
            match repeat_of(t, allowed) {
                Ok(rule) => rules_of(tokens, i + 1, done.push(ScheduleModel::Repeat(rule)), allowed),
                Err(error) => Err(error),
            }
        } else {
            match interval_of(t, allowed) {
                Ok(rule) => rules_of(
                    tokens,
                    i + 1,
                    done.push(ScheduleModel::Interval(rule)),
                    allowed,
                ),
                Err(error) => Err(error),
            }
        }
    }
}

/// Schedule written by `text`.
pub open spec fn schedule_of(text: Seq<char>, allowed: Seq<Seq<char>>) -> Result<
    Seq<ScheduleModel>,
    ErrorModel,
> {
    match top_split(text, '|') {
        Err(error) => Err(error),
        Ok(tokens) => match rules_of(tokens, 0, Seq::empty(), allowed) {
            Err(error) => Err(error),
            Ok(schedule) => if schedule.len() == 0 {
                Err(policy_error::plain(PolicyErrorKind::NoScheduleRule))
            } else {
                Ok(schedule)
            },
        },
    }
}

fn parse_schedule(text: &[char], allowed_scopes: &[&str]) -> (schedule: Result<
    Vec<ScheduleRule>,
    PolicyError,
>)
    ensures
        match schedule {
            Ok(s) => schedule_of(text@, strs(allowed_scopes@)) == Ok::<
                Seq<ScheduleModel>,
                ErrorModel,
            >(rules(s@)) && forall|i: int| 0 <= i < s@.len() ==> rule_wf(#[trigger] s@[i]),
            Err(error) => schedule_of(text@, strs(allowed_scopes@)) == Err::<
                Seq<ScheduleModel>,
                ErrorModel,
            >(error@),
        },
{
    let tokens = match split_top_level(text, '|') {
        Ok(tokens) => tokens,
        Err(error) => {
            return Err(error);
        },
    };
    let ghost allowed = strs(allowed_scopes@);
    let mut schedule: Vec<ScheduleRule> = Vec::new();
    assert(rules(schedule@) =~= Seq::empty());
    let opening = chars_of("repeat(");
    let mut i: usize = 0;
    while i < tokens.len()
        invariant
            i <= tokens@.len(),
            allowed == strs(allowed_scopes@),
            opening@ == "repeat("@,
            rules_of(slices(tokens@), 0, Seq::empty(), allowed) == rules_of(
                slices(tokens@),
                i as int,
                rules(schedule@),
                allowed,
            ),
            top_split(text@, '|') == Ok::<Seq<Seq<char>>, ErrorModel>(slices(tokens@)),
            forall|i: int| 0 <= i < schedule@.len() ==> rule_wf(#[trigger] schedule@[i]),
        decreases tokens@.len() - i,
    {
        let t = trim(tokens[i]);
        assert(slices(tokens@)[i as int] == tokens@[i as int]@);
        if t.len() != 0 {
            let ghost before = rules(schedule@);
            if occurs(t, &opening, 0) {
                match parse_repeat_rule(t, allowed_scopes) {
                    Ok(rule) => {
                        schedule.push(ScheduleRule::Repeat(rule));
                        assert(rules(schedule@) =~= before.push(ScheduleModel::Repeat(rule@)));
                    },
                    Err(error) => {
                        return Err(error);
                    },
                }
            } else {
                match parse_interval_rule(t, allowed_scopes) {
                    Ok(rule) => {
                        schedule.push(ScheduleRule::Interval(rule));
                        assert(rules(schedule@) =~= before.push(ScheduleModel::Interval(rule@)));
                    },
                    Err(error) => {
                        return Err(error);
                    },
                }
            }
        }
        i += 1;
    }
    if schedule.len() == 0 {
        return Err(refuse_plain(PolicyErrorKind::NoScheduleRule));
    }
    Ok(schedule)
}

/// Source and schedule text found so far in a policy segment.
#[verifier::ext_equal]
pub struct PolicyEntries {
    pub load_from: Option<Seq<char>>,
    pub schedule: Option<Seq<char>>,
}

/// `found` with the entries from index `i` on applied in order; empty ones are skipped.
pub open spec fn with_entries(found: PolicyEntries, entries: Seq<Seq<char>>, i: int) -> Result<
    PolicyEntries,
    ErrorModel,
>
    decreases entries.len() - i,
{
    if i < 0 || i >= entries.len() {
        Ok(found)
    } else {
        let entry = text::trimmed(entries[i]);
        if entry.len() == 0 {
            with_entries(found, entries, i + 1)
        } else {
            match text::cut_char(entry, '=') {
                None => Err(policy_error::bad(PolicyErrorKind::InvalidPolicyPair, entry)),
                Some((k, v)) => {
                    let key = text::lowered(text::trimmed(k));
                    let val = text::trimmed(v);
                    if key == "load_from"@ {
                        if val.len() == 0 {
                            Err(policy_error::plain(PolicyErrorKind::EmptyLoadFrom))
                        } else {
                            with_entries(
                                PolicyEntries { load_from: Some(val), ..found },
                                entries,
                                i + 1,
                            )
                        }
                    } else if key == "schedule"@ {
                        if val.len() == 0 {
                            Err(policy_error::plain(PolicyErrorKind::EmptySchedule))
                        } else {
                            with_entries(
                                PolicyEntries { schedule: Some(val), ..found },
                                entries,
                                i + 1,
                            )
                        }
                    } else {
                        Err(policy_error::bad(PolicyErrorKind::UnknownPolicyKey, key))
                    }
                },
            }
        }
    }
}

/// Text of a policy segment without its optional `policy:` prefix.
pub open spec fn policy_body(segment: Seq<char>) -> Seq<char> {
    match text::after_prefix(text::trimmed(segment), "policy:"@) {
        Some(rest) => text::trimmed(rest),
        None => text::trimmed(text::trimmed(segment)),
    }
}

/// Policy written by a segment.
pub open spec fn policy_of(segment: Seq<char>, allowed: Seq<Seq<char>>) -> Result<
    PolicyModel,
    ErrorModel,
> {
    let body = policy_body(segment);
    if body.len() == 0 {
        Err(policy_error::plain(PolicyErrorKind::EmptyPolicy))
    } else {
        match top_split(body, ',') {
            Err(error) => Err(error),
            Ok(entries) => match with_entries(
                PolicyEntries { load_from: None, schedule: None },
                entries,
                0,
            ) {
                Err(error) => Err(error),
                Ok(found) => match found.schedule {
                    None => Err(policy_error::plain(PolicyErrorKind::ScheduleRequired)),
                    Some(text) => match schedule_of(text, allowed) {
                        Err(error) => Err(error),
                        Ok(schedule) => Ok(PolicyModel { load_from: found.load_from, schedule }),
                    },
                },
            },
        }
    }
}

/// Parse a `policy:...` string into [`LlmPolicy`].
pub fn parse_policy_segment(policy_segment: &str, allowed_scopes: &[&str]) -> (policy: Result<
    LlmPolicy,
    PolicyError,
>)
    ensures
        policy_error::agrees(policy, policy_of(policy_segment@, strs(allowed_scopes@))),
        policy matches Ok(p) ==> forall|i: int|
            0 <= i < p.schedule@.len() ==> rule_wf(#[trigger] p.schedule@[i]),
{
    let chars = chars_of(policy_segment);
    let whole = trim(&chars);
    let body = match strip_prefix(whole, "policy:") {
        Some(rest) => trim(rest),
        None => trim(whole),
    };
    if body.len() == 0 {
        return Err(refuse_plain(PolicyErrorKind::EmptyPolicy));
    }
    let entries = match split_top_level(body, ',') {
        Ok(entries) => entries,
        Err(error) => {
            return Err(error);
        },
    };
    let mut load_from: Option<String> = None;
    let mut schedule_raw: Option<&[char]> = None;
    let ghost mut found = PolicyEntries { load_from: None, schedule: None };
    let ghost all = with_entries(found, slices(entries@), 0);
    let mut i: usize = 0;
    while i < entries.len()
        invariant
            i <= entries@.len(),
            all == with_entries(found, slices(entries@), i as int),
            found.load_from == (match load_from {
                Some(path) => Some(path@),
                None => None,
            }),
            found.schedule == (match schedule_raw {
                Some(text) => Some(text@),
                None => None,
            }),
            policy_body(policy_segment@) == body@,
            body@.len() > 0,
            top_split(body@, ',') == Ok::<Seq<Seq<char>>, ErrorModel>(slices(entries@)),
            all == with_entries(
                PolicyEntries { load_from: None, schedule: None },
                slices(entries@),
                0,
            ),
        decreases entries@.len() - i,
    {
        let entry = trim(entries[i]);
        assert(slices(entries@)[i as int] == entries@[i as int]@);
        if entry.len() != 0 {
            let (k, v) = match split_once_char(entry, '=') {
                Some(parts) => parts,
                None => {
                    return Err(refuse(PolicyErrorKind::InvalidPolicyPair, entry));
                },
            };
            let key = lowercase(trim(k));
            let val = trim(v);
            if is_text(&key, "load_from") {
                if val.len() == 0 {
                    return Err(refuse_plain(PolicyErrorKind::EmptyLoadFrom));
                }
                load_from = Some(string_of(val));
                proof {
                    found = PolicyEntries { load_from: Some(val@), ..found };
                }
            } else if is_text(&key, "schedule") {
                if val.len() == 0 {
                    return Err(refuse_plain(PolicyErrorKind::EmptySchedule));
                }
                schedule_raw = Some(val);
                proof {
                    found = PolicyEntries { schedule: Some(val@), ..found };
                }
            } else {
                return Err(refuse(PolicyErrorKind::UnknownPolicyKey, &key));
            }
        }
        i += 1;
    }
    let text = match schedule_raw {
        Some(text) => text,
        None => {
            return Err(refuse_plain(PolicyErrorKind::ScheduleRequired));
        },
    };
    match parse_schedule(text, allowed_scopes) {
        Err(error) => Err(error),
        Ok(schedule) => Ok(LlmPolicy { load_from, schedule }),
    }
}

// ---------------------------------------------------------------------------------------
// Canonical text
// ---------------------------------------------------------------------------------------

/// Canonical text of a scope set.
pub open spec fn scope_text(scope: ScopeModel) -> Seq<char> {
    if scope.all {
        "all"@
    } else if scope.names.len() == 0 {
        "none"@
    } else {
        text::joined(scope.names, "+"@)
    }
}

/// Canonical text of a position.
pub open spec fn position_text(position: PositionModel) -> Seq<char> {
    match position {
        PositionModel::Bytes(v) => text::decimal(v),
        PositionModel::Percent(p) => p + "%"@,
    }
}

/// Canonical name of an optimizer.
pub open spec fn optimizer_text(optimizer: OptimizerKind) -> Seq<char> {
    match optimizer {
        OptimizerKind::Sgd => "sgd"@,
        OptimizerKind::Adam => "adam"@,
    }
}

/// Canonical text of an action.
pub open spec fn action_text(action: ActionModel) -> Seq<char> {
    match action {
        ActionModel::Infer => "infer"@,
        ActionModel::Train(train) => "train(scope="@ + scope_text(train.scope) + ",opt="@
            + optimizer_text(train.optimizer) + ",lr="@ + train.hyper.lr + ",stride="@ + text::decimal(
            train.hyper.stride,
        ) + ",bptt="@ + text::decimal(train.hyper.bptt) + ",clip="@ + train.hyper.clip + ",momentum="@
            + train.hyper.momentum + ")"@,
    }
}

/// Canonical text of the first `n` segments of a pattern.
pub open spec fn pattern_text(pattern: Seq<SegmentModel>, n: int) -> Seq<char>
    decreases n,
{
    if n <= 0 || n > pattern.len() {
        Seq::empty()
    } else {
        let segment = pattern[n - 1];
        let own = position_text(segment.span) + ":"@ + action_text(segment.action);
        if n == 1 {
            own
        } else {
            pattern_text(pattern, n - 1) + "+"@ + own
        }
    }
}

/// Canonical text of a rule.
pub open spec fn rule_text(rule: ScheduleModel) -> Seq<char> {
    match rule {
        ScheduleModel::Interval(interval) => position_text(interval.start) + ".."@ + position_text(
            interval.end,
        ) + ":"@ + action_text(interval.action),
        ScheduleModel::Repeat(repeat) => "repeat("@ + position_text(repeat.start) + ".."@
            + position_text(repeat.end) + ",period="@ + position_text(repeat.period)
            + ",pattern="@ + pattern_text(repeat.pattern, repeat.pattern.len() as int) + ")"@,
    }
}

/// Canonical text of the first `n` rules of a schedule.
pub open spec fn schedule_text(schedule: Seq<ScheduleModel>, n: int) -> Seq<char>
    decreases n,
{
    if n <= 0 || n > schedule.len() {
        Seq::empty()
    } else if n == 1 {
        rule_text(schedule[0])
    } else {
        schedule_text(schedule, n - 1) + "|"@ + rule_text(schedule[n - 1])
    }
}

/// Canonical text of a policy.
pub open spec fn policy_text(policy: PolicyModel) -> Seq<char> {
    let schedule = "schedule="@ + schedule_text(policy.schedule, policy.schedule.len() as int);
    match policy.load_from {
        Some(path) => "load_from="@ + path + ","@ + schedule,
        None => schedule,
    }
}

fn render_scope(scope: &TrainScopeSet) -> (out: Vec<char>)
    ensures
        out@ == scope_text(scope@),
{
    if scope.all {
        return chars_of("all");
    }
    if scope.names.len() == 0 {
        return chars_of("none");
    }
    let ghost names = policy_schedule::texts(scope.names@);
    let mut out: Vec<char> = Vec::new();
    let mut i: usize = 0;
    while i < scope.names.len()
        invariant
            i <= scope.names@.len(),
            names == policy_schedule::texts(scope.names@),
            out@ == text::joined(names.subrange(0, i as int), "+"@),
        decreases scope.names@.len() - i,
    {
        let ghost before = names.subrange(0, i as int);
        if i > 0 {
            push_text(&mut out, "+");
        }
        push_text(&mut out, scope.names[i].as_str());
        i += 1;
        proof {
            let now = names.subrange(0, i as int);
            assert(now.drop_last() =~= before);
            if i == 1 {
                assert(out@ =~= now[0]);
            }
        }
    }
    assert(names.subrange(0, names.len() as int) =~= names);
    out
}

fn push_position(out: &mut Vec<char>, position: &PositionExpr)
    ensures
        final(out)@ == old(out)@ + position_text(position@),
{
    match position {
        PositionExpr::Bytes(v) => {
            let digits = decimal_of(*v);
            push_chars(out, &digits);
        },
        PositionExpr::Percent(p) => {
            push_text(out, p.as_str());
            push_text(out, "%");
            assert(out@ =~= old(out)@ + (p@ + "%"@));
        },
    }
}

fn push_action(out: &mut Vec<char>, action: &PolicyAction)
    ensures
        final(out)@ == old(out)@ + action_text(action@),
{
    match action {
        PolicyAction::Infer => {
            push_text(out, "infer");
        },
        PolicyAction::Train(train) => {
            push_text(out, "train(scope=");
            let scope = render_scope(&train.scope);
            push_chars(out, &scope);
            push_text(out, ",opt=");
            match train.optimizer {
                OptimizerKind::Sgd => push_text(out, "sgd"),
                OptimizerKind::Adam => push_text(out, "adam"),
            }
            push_text(out, ",lr=");
            push_text(out, train.hyper.lr.as_str());
            push_text(out, ",stride=");
            let stride = decimal_of(train.hyper.stride as u64);
            push_chars(out, &stride);
            push_text(out, ",bptt=");
            let bptt = decimal_of(train.hyper.bptt as u64);
            push_chars(out, &bptt);
            push_text(out, ",clip=");
            push_text(out, train.hyper.clip.as_str());
            push_text(out, ",momentum=");
            push_text(out, train.hyper.momentum.as_str());
            push_text(out, ")");
            assert(out@ =~= old(out)@ + action_text(action@));
        },
    }
}

fn push_rule(out: &mut Vec<char>, rule: &ScheduleRule)
    ensures
        final(out)@ == old(out)@ + rule_text(rule@),
{
    match rule {
        ScheduleRule::Interval(interval) => {
            push_position(out, &interval.start);
            push_text(out, "..");
            push_position(out, &interval.end);
            push_text(out, ":");
            push_action(out, &interval.action);
            assert(out@ =~= old(out)@ + rule_text(rule@));
        },
        ScheduleRule::Repeat(repeat) => {
            push_text(out, "repeat(");
            push_position(out, &repeat.start);
            push_text(out, "..");
            push_position(out, &repeat.end);
            push_text(out, ",period=");
            push_position(out, &repeat.period);
            push_text(out, ",pattern=");
            let ghost head = out@;
            let ghost pattern = segments(repeat.pattern@);
            let mut i: usize = 0;
            while i < repeat.pattern.len()
                invariant
                    i <= repeat.pattern@.len(),
                    pattern == segments(repeat.pattern@),
                    out@ == head + pattern_text(pattern, i as int),
                decreases repeat.pattern@.len() - i,
            {
                if i > 0 {
                    push_text(out, "+");
                }
                let segment = &repeat.pattern[i];
                push_position(out, &segment.span);
                push_text(out, ":");
                push_action(out, &segment.action);
                i += 1;
                assert(pattern[i - 1] == segment@);
                assert(out@ =~= head + pattern_text(pattern, i as int));
            }
            push_text(out, ")");
            assert(out@ =~= old(out)@ + rule_text(rule@));
        },
    }
}

impl LlmPolicy {
    /// Serialize back to canonical `load_from=...,schedule=...` form.
    pub fn canonical(&self) -> (text: String)
        ensures
            text@ == policy_text(self@),
    {
        let out = render_policy(self);
        string_of(&out)
    }
}

fn render_policy(policy: &LlmPolicy) -> (out: Vec<char>)
    ensures
        out@ == policy_text(policy@),
{
    let mut out: Vec<char> = Vec::new();
    match &policy.load_from {
        Some(path) => {
            push_text(&mut out, "load_from=");
            push_text(&mut out, path.as_str());
            push_text(&mut out, ",");
        },
        None => {},
    }
    push_text(&mut out, "schedule=");
    let ghost head = out@;
    let ghost schedule = rules(policy.schedule@);
    let mut i: usize = 0;
    while i < policy.schedule.len()
        invariant
            i <= policy.schedule@.len(),
            schedule == rules(policy.schedule@),
            out@ == head + schedule_text(schedule, i as int),
        decreases policy.schedule@.len() - i,
    {
        if i > 0 {
            push_text(&mut out, "|");
        }
        push_rule(&mut out, &policy.schedule[i]);
        i += 1;
        assert(schedule[i - 1] == policy.schedule@[i - 1]@);
        assert(out@ =~= head + schedule_text(schedule, i as int));
    }
    assert(out@ =~= policy_text(policy@));
    out
}

// ---------------------------------------------------------------------------------------
// Compilation
// ---------------------------------------------------------------------------------------

/// Percentages among one position: itself or none.
pub open spec fn position_percents(position: PositionModel) -> Seq<Seq<char>> {
    match position {
        PositionModel::Bytes(_) => Seq::empty(),
        PositionModel::Percent(p) => seq![p],
    }
}

/// Percentages among the first `n` segments of a pattern, in order.
pub open spec fn pattern_percents(pattern: Seq<SegmentModel>, n: int) -> Seq<Seq<char>>
    decreases n,
{
    if n <= 0 || n > pattern.len() {
        Seq::empty()
    } else {
        pattern_percents(pattern, n - 1) + position_percents(pattern[n - 1].span)
    }
}

/// Percentages of a rule, in the order in which they are resolved.
pub open spec fn rule_percents(rule: ScheduleModel) -> Seq<Seq<char>> {
    match rule {
        ScheduleModel::Interval(interval) => position_percents(interval.start) + position_percents(
            interval.end,
        ),
        ScheduleModel::Repeat(repeat) => position_percents(repeat.start) + position_percents(
            repeat.end,
        ) + position_percents(repeat.period) + pattern_percents(
            repeat.pattern,
            repeat.pattern.len() as int,
        ),
    }
}

/// Percentages of the first `n` rules, in order.
pub open spec fn schedule_percents(schedule: Seq<ScheduleModel>, n: int) -> Seq<Seq<char>>
    decreases n,
{
    if n <= 0 || n > schedule.len() {
        Seq::empty()
    } else {
        schedule_percents(schedule, n - 1) + rule_percents(schedule[n - 1])
    }
}

/// The smaller of two numbers.
pub open spec fn smaller(a: nat, b: nat) -> nat {
    if a < b {
        a
    } else {
        b
    }
}

/// Absolute position of a boundary: an offset or a resolved percentage, within the total
/// where that is known.
pub open spec fn boundary_at(
    position: PositionModel,
    total: Option<u64>,
    floors: Seq<u64>,
    at: int,
) -> Result<nat, ErrorModel> {
    match position {
        PositionModel::Bytes(v) => match total {
            Some(t) => Ok(smaller(v, t as nat)),
            None => Ok(v),
        },
        PositionModel::Percent(_) => match total {
            Some(t) => Ok(smaller(floors[at] as nat, t as nat)),
            None => Err(policy_error::plain(PolicyErrorKind::BoundaryNeedsTotal)),
        },
    }
}

/// Length of a span: an offset or a resolved percentage.
pub open spec fn span_at(
    position: PositionModel,
    total: Option<u64>,
    floors: Seq<u64>,
    at: int,
) -> Result<nat, ErrorModel> {
    match position {
        PositionModel::Bytes(v) => Ok(v),
        PositionModel::Percent(_) => match total {
            Some(_) => Ok(floors[at] as nat),
            None => Err(policy_error::plain(PolicyErrorKind::SpanNeedsTotal)),
        },
    }
}

/// Compiled segments of the pattern from index `i` on, behind `done` whose last end is `acc`.
pub open spec fn compiled_pattern(
    pattern: Seq<SegmentModel>,
    i: int,
    total: Option<u64>,
    floors: Seq<u64>,
    at: int,
    done: Seq<CompiledSegmentModel>,
    acc: nat,
) -> Result<(Seq<CompiledSegmentModel>, nat), ErrorModel>
    decreases pattern.len() - i,
{
    if i < 0 || i >= pattern.len() {
        Ok((done, acc))
    } else {
        match span_at(pattern[i].span, total, floors, at) {
            Err(error) => Err(error),
            Ok(span) => if span == 0 {
                Err(policy_error::plain(PolicyErrorKind::ZeroSpan))
            } else {
                let end = smaller(acc + span, u64::MAX as nat);
                compiled_pattern(
                    pattern,
                    i + 1,
                    total,
                    floors,
                    at + position_percents(pattern[i].span).len(),
                    done.push(CompiledSegmentModel { end, action: pattern[i].action }),
                    end,
                )
            },
        }
    }
}

/// Text of a resolved range.
pub open spec fn range_text(start: nat, end: nat) -> Seq<char> {
    text::decimal(start) + ".."@ + text::decimal(end)
}

/// Compiled form of one rule whose first percentage is number `at`.
pub open spec fn compiled_rule(
    rule: ScheduleModel,
    total: Option<u64>,
    floors: Seq<u64>,
    at: int,
) -> Result<CompiledRuleModel, ErrorModel> {
    match rule {
        ScheduleModel::Interval(r) => match boundary_at(r.start, total, floors, at) {
            Err(error) => Err(error),
            Ok(start) => match boundary_at(
                r.end,
                total,
                floors,
                at + position_percents(r.start).len(),
            ) {
                Err(error) => Err(error),
                Ok(end) => if end <= start {
                    Err(policy_error::bad(PolicyErrorKind::EmptyInterval, range_text(start, end)))
                } else {
                    Ok(CompiledRuleModel::Interval { start, end, action: r.action })
                },
            },
        },
        ScheduleModel::Repeat(r) => {
            let at_end = at + position_percents(r.start).len();
            let at_period = at_end + position_percents(r.end).len();
            let at_pattern = at_period + position_percents(r.period).len();
            match boundary_at(r.start, total, floors, at) {
                Err(error) => Err(error),
                Ok(start) => match boundary_at(r.end, total, floors, at_end) {
                    Err(error) => Err(error),
                    Ok(end) => if end <= start {
                        Err(policy_error::bad(PolicyErrorKind::EmptyRepeatInterval, range_text(start, end)))
                    } else {
                        match span_at(r.period, total, floors, at_period) {
                            Err(error) => Err(error),
                            Ok(period) => if period == 0 {
                                Err(policy_error::plain(PolicyErrorKind::ZeroPeriod))
                            } else {
                                match compiled_pattern(
                                    r.pattern,
                                    0,
                                    total,
                                    floors,
                                    at_pattern,
                                    Seq::empty(),
                                    0,
                                ) {
                                    Err(error) => Err(error),
                                    Ok((pattern, pattern_total)) => if pattern.len() == 0 {
                                        Err(policy_error::plain(PolicyErrorKind::EmptyRepeatPattern))
                                    } else {
                                        Ok(
                                            CompiledRuleModel::Repeat {
                                                start,
                                                end,
                                                period,
                                                pattern_total,
                                                pattern,
                                            },
                                        )
                                    },
                                }
                            },
                        }
                    },
                },
            }
        },
    }
}

/// Compiled rules of the schedule from index `i` on, behind `done`.
pub open spec fn compiled_schedule(
    schedule: Seq<ScheduleModel>,
    i: int,
    total: Option<u64>,
    floors: Seq<u64>,
    done: Seq<CompiledRuleModel>,
) -> Result<Seq<CompiledRuleModel>, ErrorModel>
    decreases schedule.len() - i,
{
    if i < 0 || i >= schedule.len() {
        Ok(done)
    } else {
        match compiled_rule(
            schedule[i],
            total,
            floors,
            schedule_percents(schedule, i).len() as int,
        ) {
            Err(error) => Err(error),
            Ok(rule) => compiled_schedule(schedule, i + 1, total, floors, done.push(rule)),
        }
    }
}

fn min_u64(a: u64, b: u64) -> (m: u64)
    ensures
        m == smaller(a as nat, b as nat),
{
    if a < b {
        a
    } else {
        b
    }
}

fn resolve_boundary(
    position: &PositionExpr,
    total_symbols: Option<u64>,
    floors: &[u64],
    at: &mut usize,
) -> (resolved: Result<u64, PolicyError>)
    requires
        *old(at) + position_percents(position@).len() <= floors@.len(),
    ensures
        *final(at) == *old(at) + position_percents(position@).len(),
        match resolved {
            Ok(v) => boundary_at(position@, total_symbols, floors@, *old(at) as int) == Ok::<
                nat,
                ErrorModel,
            >(v as nat),
            Err(error) => boundary_at(position@, total_symbols, floors@, *old(at) as int) == Err::<
                nat,
                ErrorModel,
            >(error@),
        },
{
    match position {
        PositionExpr::Bytes(v) => match total_symbols {
            Some(total) => Ok(min_u64(*v, total)),
            None => Ok(*v),
        },
        PositionExpr::Percent(_) => {
            let own: usize = *at;
            let known: usize = floors.len();
            assert(own < known);
            *at = own + 1;
            match total_symbols {
                Some(total) => Ok(min_u64(floors[own], total)),
                None => Err(refuse_plain(PolicyErrorKind::BoundaryNeedsTotal)),
            }
        },
    }
}

fn resolve_span(
    position: &PositionExpr,
    total_symbols: Option<u64>,
    floors: &[u64],
    at: &mut usize,
) -> (resolved: Result<u64, PolicyError>)
    requires
        *old(at) + position_percents(position@).len() <= floors@.len(),
    ensures
        *final(at) == *old(at) + position_percents(position@).len(),
        match resolved {
            Ok(v) => span_at(position@, total_symbols, floors@, *old(at) as int) == Ok::<
                nat,
                ErrorModel,
            >(v as nat),
            Err(error) => span_at(position@, total_symbols, floors@, *old(at) as int) == Err::<
                nat,
                ErrorModel,
            >(error@),
        },
{
    match position {
        PositionExpr::Bytes(v) => Ok(*v),
        PositionExpr::Percent(_) => {
            let own: usize = *at;
            let known: usize = floors.len();
            assert(own < known);
            *at = own + 1;
            match total_symbols {
                Some(_) => Ok(floors[own]),
                None => Err(refuse_plain(PolicyErrorKind::SpanNeedsTotal)),
            }
        },
    }
}

fn refuse_range(kind: PolicyErrorKind, start: u64, end: u64) -> (error: PolicyError)
    ensures
        error@ == policy_error::bad(kind, range_text(start as nat, end as nat)),
{
    let mut subject = decimal_of(start);
    push_text(&mut subject, "..");
    let past = decimal_of(end);
    push_chars(&mut subject, &past);
    refuse(kind, &subject)
}

proof fn lemma_pattern_percents_step(pattern: Seq<SegmentModel>, i: int)
    requires
        0 <= i < pattern.len(),
    ensures
        pattern_percents(pattern, i + 1).len() == pattern_percents(pattern, i).len()
            + position_percents(pattern[i].span).len(),
        pattern_percents(pattern, i + 1).len() <= pattern_percents(
            pattern,
            pattern.len() as int,
        ).len(),
    decreases pattern.len() - i,
{
    if i + 1 < pattern.len() {
        lemma_pattern_percents_step(pattern, i + 1);
    }
}

proof fn lemma_schedule_percents_step(schedule: Seq<ScheduleModel>, i: int)
    requires
        0 <= i < schedule.len(),
    ensures
        schedule_percents(schedule, i + 1).len() == schedule_percents(schedule, i).len()
            + rule_percents(schedule[i]).len(),
        schedule_percents(schedule, i + 1).len() <= schedule_percents(
            schedule,
            schedule.len() as int,
        ).len(),
    decreases schedule.len() - i,
{
    if i + 1 < schedule.len() {
        lemma_schedule_percents_step(schedule, i + 1);
    }
}

fn compile_pattern(
    source: &Vec<RepeatSegment>,
    total_symbols: Option<u64>,
    floors: &[u64],
    at: &mut usize,
) -> (compiled: Result<(Vec<CompiledPatternSegment>, u64), PolicyError>)
    requires
        *old(at) + pattern_percents(segments(source@), source@.len() as int).len() <= floors@.len(),
    ensures
        match compiled {
            Ok((pattern, total)) => {
                &&& compiled_pattern(
                    segments(source@),
                    0,
                    total_symbols,
                    floors@,
                    *old(at) as int,
                    Seq::empty(),
                    0,
                ) == Ok::<(Seq<CompiledSegmentModel>, nat), ErrorModel>(
                    (policy_schedule::compiled_segments(pattern@), total as nat),
                )
                &&& forall|i: int, j: int|
                    0 <= i <= j < pattern@.len() ==> pattern@[i].end <= pattern@[j].end
                &&& pattern@.len() > 0 ==> total == pattern@.last().end
                &&& *final(at) == *old(at) + pattern_percents(
                    segments(source@),
                    source@.len() as int,
                ).len()
            },
            Err(error) => compiled_pattern(
                segments(source@),
                0,
                total_symbols,
                floors@,
                *old(at) as int,
                Seq::empty(),
                0,
            ) == Err::<(Seq<CompiledSegmentModel>, nat), ErrorModel>(error@),
        },
{
    let ghost model = segments(source@);
    let ghost first = *at as int;
    let ghost all = compiled_pattern(model, 0, total_symbols, floors@, first, Seq::empty(), 0);
    let mut pattern: Vec<CompiledPatternSegment> = Vec::new();
    assert(policy_schedule::compiled_segments(pattern@) =~= Seq::empty());
    let mut acc: u64 = 0;
    let mut i: usize = 0;
    while i < source.len()
        invariant
            i <= source@.len(),
            model == segments(source@),
            first + pattern_percents(model, model.len() as int).len() <= floors@.len(),
            *at == first + pattern_percents(model, i as int).len(),
            all == compiled_pattern(
                model,
                i as int,
                total_symbols,
                floors@,
                *at as int,
                policy_schedule::compiled_segments(pattern@),
                acc as nat,
            ),
            all == compiled_pattern(model, 0, total_symbols, floors@, first, Seq::empty(), 0),
            first == *old(at),
            forall|i: int, j: int|
                0 <= i <= j < pattern@.len() ==> pattern@[i].end <= pattern@[j].end,
            pattern@.len() > 0 ==> acc == pattern@.last().end,
        decreases source@.len() - i,
    {
        let seg = &source[i];
        proof {
            lemma_pattern_percents_step(model, i as int);
            assert(model[i as int] == seg@);
        }
        match resolve_span(&seg.span, total_symbols, floors, at) {
            Err(error) => {
                return Err(error);
            },
            Ok(span) => {
                if span == 0 {
                    return Err(refuse_plain(PolicyErrorKind::ZeroSpan));
                }
                let ghost before = policy_schedule::compiled_segments(pattern@);
                acc = acc.saturating_add(span);
                let action = seg.action.clone();
                pattern.push(CompiledPatternSegment { end: acc, action });
                assert(policy_schedule::compiled_segments(pattern@) =~= before.push(pattern@.last()@));
            },
        }
        i += 1;
    }
    Ok((pattern, acc))
}

fn compile_rule(
    rule: &ScheduleRule,
    total_symbols: Option<u64>,
    floors: &[u64],
    at: &mut usize,
) -> (compiled: Result<CompiledScheduleRule, PolicyError>)
    requires
        *old(at) + rule_percents(rule@).len() <= floors@.len(),
    ensures
        policy_error::agrees(compiled, compiled_rule(rule@, total_symbols, floors@, *old(at) as int)),
        compiled matches Ok(r) ==> r.wf() && *final(at) == *old(at) + rule_percents(rule@).len(),
{
    match rule {
        ScheduleRule::Interval(r) => {
            let start: u64 = match resolve_boundary(&r.start, total_symbols, floors, at) {
                Ok(v) => v,
                Err(error) => {
                    return Err(error);
                },
            };
            let end: u64 = match resolve_boundary(&r.end, total_symbols, floors, at) {
                Ok(v) => v,
                Err(error) => {
                    return Err(error);
                },
            };
            if end <= start {
                return Err(refuse_range(PolicyErrorKind::EmptyInterval, start, end));
            }
            let action = r.action.clone();
            Ok(CompiledScheduleRule::Interval { start, end, action })
        },
        ScheduleRule::Repeat(r) => {
            let start: u64 = match resolve_boundary(&r.start, total_symbols, floors, at) {
                Ok(v) => v,
                Err(error) => {
                    return Err(error);
                },
            };
            let end: u64 = match resolve_boundary(&r.end, total_symbols, floors, at) {
                Ok(v) => v,
                Err(error) => {
                    return Err(error);
                },
            };
            if end <= start {
                return Err(refuse_range(PolicyErrorKind::EmptyRepeatInterval, start, end));
            }
            let period: u64 = match resolve_span(&r.period, total_symbols, floors, at) {
                Ok(v) => v,
                Err(error) => {
                    return Err(error);
                },
            };
            if period == 0 {
                return Err(refuse_plain(PolicyErrorKind::ZeroPeriod));
            }
            match compile_pattern(&r.pattern, total_symbols, floors, at) {
                Err(error) => Err(error),
                Ok((pattern, pattern_total)) => {
                    assert(policy_schedule::compiled_segments(pattern@).len() == pattern@.len());
                    if pattern.len() == 0 {
                        return Err(refuse_plain(PolicyErrorKind::EmptyRepeatPattern));
                    }
                    Ok(CompiledScheduleRule::Repeat { start, end, period, pattern_total, pattern })
                },
            }
        },
    }
}

fn push_percent(out: &mut Vec<String>, position: &PositionExpr)
    ensures
        policy_schedule::texts(final(out)@) == policy_schedule::texts(old(out)@) + position_percents(position@),
{
    let ghost before = policy_schedule::texts(out@);
    match position {
        PositionExpr::Bytes(_) => {
            assert(policy_schedule::texts(out@) =~= before + position_percents(position@));
        },
        PositionExpr::Percent(p) => {
            out.push(p.clone());
            assert(policy_schedule::texts(out@) =~= before + position_percents(position@));
        },
    }
}

/// Shares of the total that the percentages of a schedule come to; zero where it is not known.
pub open spec fn shares_in(schedule: Seq<ScheduleModel>, total: Option<u64>) -> Seq<u64> {
    schedule_percents(schedule, schedule.len() as int).map_values(
        |p: Seq<char>|
            match total {
                Some(t) => reals::percent_share(p, t) as u64,
                None => 0u64,
            },
    )
}

/// Schedule compiled for a total.
pub open spec fn compiled_for(schedule: Seq<ScheduleModel>, total: Option<u64>) -> Result<
    Seq<CompiledRuleModel>,
    ErrorModel,
> {
    compiled_schedule(schedule, 0, total, shares_in(schedule, total), Seq::empty())
}

impl LlmPolicy {
    /// Percentages of the schedule, in the order in which [`LlmPolicy::compile`] resolves them.
    pub fn percents(&self) -> (list: Vec<String>)
        ensures
            policy_schedule::texts(list@) == schedule_percents(self@.schedule, self@.schedule.len() as int),
    {
        let ghost schedule = rules(self.schedule@);
        let mut out: Vec<String> = Vec::new();
        assert(policy_schedule::texts(out@) =~= Seq::empty());
        let mut i: usize = 0;
        while i < self.schedule.len()
            invariant
                i <= self.schedule@.len(),
                schedule == rules(self.schedule@),
                policy_schedule::texts(out@) == schedule_percents(schedule, i as int),
            decreases self.schedule@.len() - i,
        {
            let ghost before = policy_schedule::texts(out@);
            let rule = &self.schedule[i];
            assert(schedule[i as int] == rule@);
            match rule {
                ScheduleRule::Interval(r) => {
                    push_percent(&mut out, &r.start);
                    push_percent(&mut out, &r.end);
                    assert(policy_schedule::texts(out@) =~= before + rule_percents(rule@));
                },
                ScheduleRule::Repeat(r) => {
                    push_percent(&mut out, &r.start);
                    push_percent(&mut out, &r.end);
                    push_percent(&mut out, &r.period);
                    let ghost head = policy_schedule::texts(out@);
                    let ghost pattern = segments(r.pattern@);
                    let mut j: usize = 0;
                    while j < r.pattern.len()
                        invariant
                            j <= r.pattern@.len(),
                            pattern == segments(r.pattern@),
                            policy_schedule::texts(out@) == head + pattern_percents(pattern, j as int),
                        decreases r.pattern@.len() - j,
                    {
                        push_percent(&mut out, &r.pattern[j].span);
                        j += 1;
                        assert(pattern[j - 1] == r.pattern@[j - 1]@);
                        assert(policy_schedule::texts(out@) =~= head + pattern_percents(pattern, j as int));
                    }
                    assert(policy_schedule::texts(out@) =~= before + rule_percents(rule@));
                },
            }
            i += 1;
        }
        out
    }

    /// Shares of the total that the percentages of the schedule come to.
    fn percent_shares(&self, total_symbols: Option<u64>) -> (floors: Vec<u64>)
        ensures
            floors@ == shares_in(self@.schedule, total_symbols),
    {
        let list = self.percents();
        let ghost texts = policy_schedule::texts(list@);
        let mut floors: Vec<u64> = Vec::new();
        let mut i: usize = 0;
        while i < list.len()
            invariant
                i <= list@.len(),
                texts == policy_schedule::texts(list@),
                texts == schedule_percents(self@.schedule, self@.schedule.len() as int),
                floors@ == shares_in(self@.schedule, total_symbols).take(i as int),
            decreases list@.len() - i,
        {
            let share: u64 = match total_symbols {
                Some(total) => share_of_total(&chars_of(list[i].as_str()), total),
                None => 0,
            };
            proof {
                assert(texts[i as int] == list@[i as int]@);
            }
            floors.push(share);
            i += 1;
            assert(floors@ =~= shares_in(self@.schedule, total_symbols).take(i as int));
        }
        assert(floors@ =~= shares_in(self@.schedule, total_symbols));
        floors
    }

    /// Compile policy boundaries/spans using optional known total symbol count.
    pub fn compile(&self, total_symbols: Option<u64>) -> (compiled: Result<
        CompiledPolicy,
        PolicyError,
    >)
        ensures
            match compiled {
                Ok(policy) => compiled_for(self@.schedule, total_symbols) == Ok::<
                    Seq<CompiledRuleModel>,
                    ErrorModel,
                >(policy_schedule::compiled_rules(policy.spec_rules())),
                Err(error) => compiled_for(self@.schedule, total_symbols) == Err::<
                    Seq<CompiledRuleModel>,
                    ErrorModel,
                >(error@),
            },
    {
        let floors = self.percent_shares(total_symbols);
        self.compile_with(total_symbols, floors.as_slice())
    }

    /// Compiles with the shares that the percentages come to.
    fn compile_with(&self, total_symbols: Option<u64>, floors: &[u64]) -> (compiled: Result<
        CompiledPolicy,
        PolicyError,
    >)
        requires
            floors@.len() == schedule_percents(self@.schedule, self@.schedule.len() as int).len(),
        ensures
            match compiled {
                Ok(policy) => compiled_schedule(
                    self@.schedule,
                    0,
                    total_symbols,
                    floors@,
                    Seq::empty(),
                ) == Ok::<Seq<CompiledRuleModel>, ErrorModel>(
                    policy_schedule::compiled_rules(policy.spec_rules()),
                ),
                Err(error) => compiled_schedule(
                    self@.schedule,
                    0,
                    total_symbols,
                    floors@,
                    Seq::empty(),
                ) == Err::<Seq<CompiledRuleModel>, ErrorModel>(error@),
            },
    {
        let ghost schedule = rules(self.schedule@);
        let ghost all = compiled_schedule(schedule, 0, total_symbols, floors@, Seq::empty());
        let mut out: Vec<CompiledScheduleRule> = Vec::new();
        assert(policy_schedule::compiled_rules(out@) =~= Seq::empty());
        let mut at: usize = 0;
        let mut i: usize = 0;
        while i < self.schedule.len()
            invariant
                i <= self.schedule@.len(),
                schedule == rules(self.schedule@),
                schedule == self@.schedule,
                floors@.len() == schedule_percents(schedule, schedule.len() as int).len(),
                at == schedule_percents(schedule, i as int).len(),
                all == compiled_schedule(schedule, 0, total_symbols, floors@, Seq::empty()),
                all == compiled_schedule(
                    schedule,
                    i as int,
                    total_symbols,
                    floors@,
                    policy_schedule::compiled_rules(out@),
                ),
                forall|k: int| 0 <= k < out@.len() ==> (#[trigger] out@[k]).wf(),
            decreases self.schedule@.len() - i,
        {
            proof {
                lemma_schedule_percents_step(schedule, i as int);
                assert(schedule[i as int] == self.schedule@[i as int]@);
            }
            match compile_rule(&self.schedule[i], total_symbols, floors, &mut at) {
                Err(error) => {
                    return Err(error);
                },
                Ok(rule) => {
                    let ghost before = policy_schedule::compiled_rules(out@);
                    out.push(rule);
                    assert(policy_schedule::compiled_rules(out@) =~= before.push(rule@));
                },
            }
            i += 1;
        }
        Ok(CompiledPolicy::from_rules(out))
    }
}

/// Whether some branch of the rule trains.
pub open spec fn rule_can_train(rule: ScheduleModel) -> bool {
    match rule {
        ScheduleModel::Interval(interval) => interval.action is Train,
        ScheduleModel::Repeat(repeat) => exists|i: int|
            0 <= i < repeat.pattern.len() && (#[trigger] repeat.pattern[i]).action is Train,
    }
}

/// Returns `true` if any schedule branch can emit a training action.
pub fn policy_can_train(policy: &LlmPolicy) -> (yes: bool)
    ensures
        yes == exists|i: int|
            0 <= i < policy@.schedule.len() && rule_can_train(#[trigger] policy@.schedule[i]),
{
    let mut i: usize = 0;
    while i < policy.schedule.len()
        invariant
            i <= policy.schedule@.len(),
            forall|j: int|
                0 <= j < i ==> !rule_can_train(#[trigger] policy@.schedule[j]),
        decreases policy.schedule@.len() - i,
    {
        let rule = &policy.schedule[i];
        assert(policy@.schedule[i as int] == rule@);
        match rule {
            ScheduleRule::Interval(interval) => match &interval.action {
                PolicyAction::Train(_) => {
                    return true;
                },
                PolicyAction::Infer => {},
            },
            ScheduleRule::Repeat(repeat) => {
                let mut j: usize = 0;
                while j < repeat.pattern.len()
                    invariant
                        j <= repeat.pattern@.len(),
                        i < policy.schedule@.len(),
                        policy@.schedule[i as int] == ScheduleModel::Repeat(repeat@),
                        forall|k: int|
                            0 <= k < j ==> !((#[trigger] repeat@.pattern[k]).action is Train),
                    decreases repeat.pattern@.len() - j,
                {
                    assert(repeat@.pattern[j as int] == repeat.pattern@[j as int]@);
                    match &repeat.pattern[j].action {
                        PolicyAction::Train(_) => {
                            return true;
                        },
                        PolicyAction::Infer => {},
                    }
                    j += 1;
                }
            },
        }
        i += 1;
    }
    false
}

} // verus!
