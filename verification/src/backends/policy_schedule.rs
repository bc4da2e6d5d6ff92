//! Position-resolved training schedules.
//!
//! A compiled policy is an ordered list of rules over absolute stream positions. The first
//! rule whose half-open range holds a position decides the action there; a position that no
//! rule holds is inference-only.

use vstd::prelude::*;

verus! {

/// Optimizer family selected by a train action.
#[derive(Clone, Copy, Debug, PartialEq, Eq, Structural)]
pub enum OptimizerKind {
    /// Stochastic gradient descent.
    Sgd,
    /// Adam optimizer.
    Adam,
}

/// Hyper-parameters attached to a training action.
///
/// Real-valued settings are kept as decimal text.
#[derive(Debug)]
pub struct OptimizerHyperParams {
    /// Learning rate.
    pub lr: String,
    /// Apply one update every `stride` eligible steps.
    pub stride: usize,
    /// Truncated backprop length for full-parameter training.
    pub bptt: usize,
    /// Gradient clipping threshold (`0` disables clipping).
    pub clip: String,
    /// Momentum used by SGD-style updates.
    pub momentum: String,
}

/// Mathematical value of [`OptimizerHyperParams`].
#[verifier::ext_equal]
pub struct HyperModel {
    pub lr: Seq<char>,
    pub stride: nat,
    pub bptt: nat,
    pub clip: Seq<char>,
    pub momentum: Seq<char>,
}

impl View for OptimizerHyperParams {
    type V = HyperModel;

    open spec fn view(&self) -> HyperModel {
        HyperModel {
            lr: self.lr@,
            stride: self.stride as nat,
            bptt: self.bptt as nat,
            clip: self.clip@,
            momentum: self.momentum@,
        }
    }
}

impl Clone for OptimizerHyperParams {
    fn clone(&self) -> (copy: Self)
        ensures
            copy@ == self@,
    {
        OptimizerHyperParams {
            lr: self.lr.clone(),
            stride: self.stride,
            bptt: self.bptt,
            clip: self.clip.clone(),
            momentum: self.momentum.clone(),
        }
    }
}

/// Texts of a list of strings.
pub open spec fn texts(names: Seq<String>) -> Seq<Seq<char>> {
    names.map_values(|name: String| name@)
}

/// Canonical set of train scopes (`all`, `none`, or sorted named scopes).
#[derive(Debug)]
pub struct TrainScopeSet {
    /// If true, every allowed scope is enabled.
    pub all: bool,
    /// Sorted explicit scope names used when `all == false`.
    pub names: Vec<String>,
}

/// Mathematical value of [`TrainScopeSet`].
#[verifier::ext_equal]
pub struct ScopeModel {
    pub all: bool,
    pub names: Seq<Seq<char>>,
}

impl View for TrainScopeSet {
    type V = ScopeModel;

    open spec fn view(&self) -> ScopeModel {
        ScopeModel { all: self.all, names: texts(self.names@) }
    }
}

impl Clone for TrainScopeSet {
    fn clone(&self) -> (copy: Self)
        ensures
            copy@ == self@,
    {
        let names = self.names.clone();
        assert(texts(names@) =~= texts(self.names@));
        TrainScopeSet { all: self.all, names }
    }
}

/// Concrete training directive.
#[derive(Debug)]
pub struct TrainAction {
    /// Parameter subsets to update.
    pub scope: TrainScopeSet,
    /// Optimizer family.
    pub optimizer: OptimizerKind,
    /// Optimizer hyper-parameters.
    pub hyper: OptimizerHyperParams,
}

/// Mathematical value of [`TrainAction`].
#[verifier::ext_equal]
pub struct TrainModel {
    pub scope: ScopeModel,
    pub optimizer: OptimizerKind,
    pub hyper: HyperModel,
}

impl View for TrainAction {
    type V = TrainModel;

    open spec fn view(&self) -> TrainModel {
        TrainModel { scope: self.scope@, optimizer: self.optimizer, hyper: self.hyper@ }
    }
}

impl Clone for TrainAction {
    fn clone(&self) -> (copy: Self)
        ensures
            copy@ == self@,
    {
        TrainAction {
            scope: self.scope.clone(),
            optimizer: self.optimizer,
            hyper: self.hyper.clone(),
        }
    }
}

/// Action emitted by the policy at each stream position.
#[derive(Debug)]
pub enum PolicyAction {
    /// Inference-only step (no adaptation).
    Infer,
    /// Training step with provided parameters.
    Train(TrainAction),
}

/// Mathematical value of [`PolicyAction`].
#[verifier::ext_equal]
pub enum ActionModel {
    Infer,
    Train(TrainModel),
}

impl View for PolicyAction {
    type V = ActionModel;

    open spec fn view(&self) -> ActionModel {
        match self {
            PolicyAction::Infer => ActionModel::Infer,
            PolicyAction::Train(train) => ActionModel::Train(train@),
        }
    }
}

impl Clone for PolicyAction {
    fn clone(&self) -> (copy: Self)
        ensures
            copy@ == self@,
    {
        match self {
            PolicyAction::Infer => PolicyAction::Infer,
            PolicyAction::Train(train) => PolicyAction::Train(train.clone()),
        }
    }
}

/// One segment of a repeating pattern; it covers the phases from the end of the segment
/// before it up to, not including, `end`.
#[derive(Debug)]
pub struct CompiledPatternSegment {
    pub end: u64,
    pub action: PolicyAction,
}

/// A schedule rule whose boundaries are absolute positions.
#[derive(Debug)]
pub enum CompiledScheduleRule {
    /// One action over `start..end`.
    Interval { start: u64, end: u64, action: PolicyAction },
    /// A pattern repeated every `period` positions over `start..end`.
    Repeat {
        start: u64,
        end: u64,
        period: u64,
        pattern_total: u64,
        pattern: Vec<CompiledPatternSegment>,
    },
}

/// Mathematical value of [`CompiledPatternSegment`].
#[verifier::ext_equal]
pub struct CompiledSegmentModel {
    pub end: nat,
    pub action: ActionModel,
}

impl View for CompiledPatternSegment {
    type V = CompiledSegmentModel;

    open spec fn view(&self) -> CompiledSegmentModel {
        CompiledSegmentModel { end: self.end as nat, action: self.action@ }
    }
}

impl Clone for CompiledPatternSegment {
    fn clone(&self) -> (copy: Self)
        ensures
            copy@ == self@,
    {
        CompiledPatternSegment { end: self.end, action: self.action.clone() }
    }
}

/// Mathematical value of [`CompiledScheduleRule`].
#[verifier::ext_equal]
pub enum CompiledRuleModel {
    Interval { start: nat, end: nat, action: ActionModel },
    Repeat {
        start: nat,
        end: nat,
        period: nat,
        pattern_total: nat,
        pattern: Seq<CompiledSegmentModel>,
    },
}

/// Values of a list of compiled segments.
pub open spec fn compiled_segments(pattern: Seq<CompiledPatternSegment>) -> Seq<
    CompiledSegmentModel,
> {
    pattern.map_values(|segment: CompiledPatternSegment| segment@)
}

impl View for CompiledScheduleRule {
    type V = CompiledRuleModel;

    open spec fn view(&self) -> CompiledRuleModel {
        match self {
            CompiledScheduleRule::Interval { start, end, action } => CompiledRuleModel::Interval {
                start: *start as nat,
                end: *end as nat,
                action: action@,
            },
            CompiledScheduleRule::Repeat { start, end, period, pattern_total, pattern } =>
                CompiledRuleModel::Repeat {
                start: *start as nat,
                end: *end as nat,
                period: *period as nat,
                pattern_total: *pattern_total as nat,
                pattern: compiled_segments(pattern@),
            },
        }
    }
}

impl Clone for CompiledScheduleRule {
    fn clone(&self) -> (copy: Self)
        ensures
            copy@ == self@,
            copy.wf() == self.wf(),
    {
        match self {
            CompiledScheduleRule::Interval { start, end, action } => {
                CompiledScheduleRule::Interval {
                    start: *start,
                    end: *end,
                    action: action.clone(),
                }
            },
            CompiledScheduleRule::Repeat { start, end, period, pattern_total, pattern } => {
                let segments = pattern.clone();
                proof {
                    assert(compiled_segments(segments@) =~= compiled_segments(pattern@));
                    assert forall|i: int| 0 <= i < pattern@.len() implies (#[trigger]
                    segments@[i]).end == pattern@[i].end by {
                        assert(compiled_segments(segments@)[i] == compiled_segments(pattern@)[i]);
                    }
                }
                CompiledScheduleRule::Repeat {
                    start: *start,
                    end: *end,
                    period: *period,
                    pattern_total: *pattern_total,
                    pattern: segments,
                }
            },
        }
    }
}

/// Values of a list of compiled rules.
pub open spec fn compiled_rules(rules: Seq<CompiledScheduleRule>) -> Seq<CompiledRuleModel> {
    rules.map_values(|rule: CompiledScheduleRule| rule@)
}

impl CompiledScheduleRule {
    /// First position the rule holds.
    pub open spec fn first(&self) -> u64 {
        match self {
            CompiledScheduleRule::Interval { start, .. } => *start,
            CompiledScheduleRule::Repeat { start, .. } => *start,
        }
    }

    /// First position past the rule.
    pub open spec fn past(&self) -> u64 {
        match self {
            CompiledScheduleRule::Interval { end, .. } => *end,
            CompiledScheduleRule::Repeat { end, .. } => *end,
        }
    }

    /// Whether the rule holds position `pos`.
    pub open spec fn holds(&self, pos: int) -> bool {
        self.first() <= pos < self.past()
    }

    /// What the rule asks for at a position it holds.
    pub open spec fn asks(&self, pos: int) -> PolicyAction {
        match self {
            CompiledScheduleRule::Interval { action, .. } => *action,
            CompiledScheduleRule::Repeat { start, period, pattern, .. } => pattern_asks(
                pattern@,
                0,
                (pos - *start) % (*period as int),
            ),
        }
    }

    /// A repeat rule has a positive period, segment ends that never decrease, and a total
    /// equal to its last segment's end.
    pub open spec fn wf(&self) -> bool {
        match self {
            CompiledScheduleRule::Interval { .. } => true,
            CompiledScheduleRule::Repeat { period, pattern_total, pattern, .. } => {
                &&& *period > 0
                &&& pattern@.len() > 0
                &&& *pattern_total == pattern@.last().end
                &&& forall|i: int, j: int|
                    0 <= i <= j < pattern@.len() ==> pattern@[i].end <= pattern@[j].end
            },
        }
    }
}

/// Action of the first segment from `from` on that ends after `phase`; inference past the
/// last one.
pub open spec fn pattern_asks(
    pattern: Seq<CompiledPatternSegment>,
    from: int,
    phase: int,
) -> PolicyAction
    decreases pattern.len() - from,
{
    if from < 0 || from >= pattern.len() {
        PolicyAction::Infer
    } else if phase < pattern[from].end {
        pattern[from].action
    } else {
        pattern_asks(pattern, from + 1, phase)
    }
}

/// Whether one of the first `n` rules holds `pos`.
pub open spec fn covered(rules: Seq<CompiledScheduleRule>, n: int, pos: int) -> bool {
    exists|k: int| 0 <= k < n && (#[trigger] rules[k]).holds(pos)
}

/// Action that the rules from index `from` on ask for at `pos`: that of the first rule
/// holding the position, inference if none does.
pub open spec fn schedule_asks(
    rules: Seq<CompiledScheduleRule>,
    from: int,
    pos: int,
) -> PolicyAction
    decreases rules.len() - from,
{
    if from < 0 || from >= rules.len() {
        PolicyAction::Infer
    } else if rules[from].holds(pos) {
        rules[from].asks(pos)
    } else {
        schedule_asks(rules, from + 1, pos)
    }
}

/// Phase of `pos` within the cycles of length `period` that begin at `start`.
spec fn phase_at(start: int, period: int, pos: int) -> int {
    (pos - start) % period
}

proof fn lemma_pattern_asks_at(pattern: Seq<CompiledPatternSegment>, from: int, k: int, phase: int)
    requires
        0 <= from <= k < pattern.len(),
        forall|i: int| from <= i < k ==> pattern[i].end <= phase,
        phase < pattern[k].end,
    ensures
        pattern_asks(pattern, from, phase) == pattern[k].action,
    decreases k - from,
{
    if from < k {
        lemma_pattern_asks_at(pattern, from + 1, k, phase);
    }
}

proof fn lemma_pattern_asks_none(pattern: Seq<CompiledPatternSegment>, from: int, phase: int)
    requires
        0 <= from,
        forall|i: int| from <= i < pattern.len() ==> pattern[i].end <= phase,
    ensures
        pattern_asks(pattern, from, phase) == PolicyAction::Infer,
    decreases pattern.len() - from,
{
    if from < pattern.len() {
        lemma_pattern_asks_none(pattern, from + 1, phase);
    }
}

proof fn lemma_schedule_asks_at(rules: Seq<CompiledScheduleRule>, from: int, k: int, pos: int)
    requires
        0 <= from <= k < rules.len(),
        forall|i: int| from <= i < k ==> !(#[trigger] rules[i]).holds(pos),
        rules[k].holds(pos),
    ensures
        schedule_asks(rules, from, pos) == rules[k].asks(pos),
    decreases k - from,
{
    if from < k {
        lemma_schedule_asks_at(rules, from + 1, k, pos);
    }
}

/// The rule that decides `pos`, when some rule from `from` on holds it.
proof fn lemma_deciding_rule(rules: Seq<CompiledScheduleRule>, from: int, pos: int) -> (k: int)
    requires
        0 <= from,
        schedule_asks(rules, from, pos) is Train,
    ensures
        from <= k < rules.len(),
        rules[k].holds(pos),
        forall|i: int| from <= i < k ==> !(#[trigger] rules[i]).holds(pos),
        schedule_asks(rules, from, pos) == rules[k].asks(pos),
    decreases rules.len() - from,
{
    if rules[from].holds(pos) {
        from
    } else {
        lemma_deciding_rule(rules, from + 1, pos)
    }
}

/// The segment that decides `phase`, when the pattern trains there.
proof fn lemma_deciding_segment(
    pattern: Seq<CompiledPatternSegment>,
    from: int,
    phase: int,
) -> (k: int)
    requires
        0 <= from,
        pattern_asks(pattern, from, phase) is Train,
    ensures
        from <= k < pattern.len(),
        phase < pattern[k].end,
        forall|i: int| from <= i < k ==> pattern[i].end <= phase,
        pattern_asks(pattern, from, phase) == pattern[k].action,
    decreases pattern.len() - from,
{
    if phase < pattern[from].end {
        from
    } else {
        lemma_deciding_segment(pattern, from + 1, phase)
    }
}

fn active_range(rule: &CompiledScheduleRule) -> (range: (u64, u64))
    ensures
        range == (rule.first(), rule.past()),
{
    match rule {
        CompiledScheduleRule::Interval { start, end, .. } => (*start, *end),
        CompiledScheduleRule::Repeat { start, end, .. } => (*start, *end),
    }
}

/// Looks for a position of `start..end` that none of the first `n` rules holds: `Ok` if
/// there is one, otherwise the position at which the search ended.
fn interval_uncovered_or_next(
    start: u64,
    end: u64,
    rules: &Vec<CompiledScheduleRule>,
    n: usize,
) -> (found: Result<(), u64>)
    requires
        n <= rules@.len(),
    ensures
        found is Ok <==> exists|pos: int| start <= pos < end && !#[trigger] covered(
            rules@,
            n as int,
            pos,
        ),
        found matches Err(next) ==> next == end,
{
    if start >= end {
        return Err(end);
    }
    let mut probe: u64 = start;
    while probe < end
        invariant
            start <= probe <= end,
            n <= rules@.len(),
            forall|pos: int| start <= pos < probe ==> #[trigger] covered(rules@, n as int, pos),
        decreases end - probe,
    {
        let mut next_probe: u64 = probe;
        let mut k: usize = 0;
        while k < n
            invariant
                k <= n <= rules@.len(),
                probe <= next_probe <= end,
                probe < end,
                forall|pos: int|
                    probe <= pos < next_probe ==> #[trigger] covered(rules@, n as int, pos),
                next_probe == probe ==> forall|i: int|
                    0 <= i < k ==> !(#[trigger] rules@[i]).holds(probe as int),
            decreases n - k,
        {
            let (rule_start, rule_end) = active_range(&rules[k]);
            if rule_start <= probe && probe < rule_end {
                let reach: u64 = if rule_end < end { rule_end } else { end };
                if next_probe < reach {
                    assert forall|pos: int| probe <= pos < reach implies #[trigger] covered(
                        rules@,
                        n as int,
                        pos,
                    ) by {
                        assert(rules@[k as int].holds(pos));
                    }
                    next_probe = reach;
                }
            }
            k += 1;
        }
        if next_probe == probe {
            assert(!covered(rules@, n as int, probe as int));
            return Ok(());
        }
        probe = next_probe;
    }
    Err(probe)
}

proof fn lemma_phase_of_cycle(start: int, period: int, cycle: int, offset: int)
    requires
        period > 0,
        0 <= offset < period,
    ensures
        phase_at(start, period, start + cycle * period + offset) == offset,
{
    vstd::arithmetic::div_mod::lemma_fundamental_div_mod_converse(
        cycle * period + offset,
        period,
        cycle,
        offset,
    );
}

proof fn lemma_cycle_of_pos(start: int, period: int, pos: int)
    requires
        period > 0,
        start <= pos,
    ensures
        pos == start + ((pos - start) / period) * period + phase_at(start, period, pos),
        0 <= phase_at(start, period, pos) < period,
        0 <= (pos - start) / period,
{
    vstd::arithmetic::div_mod::lemma_fundamental_div_mod(pos - start, period);
    vstd::arithmetic::mul::lemma_mul_is_commutative(period, (pos - start) / period);
    vstd::arithmetic::div_mod::lemma_div_pos_is_pos(pos - start, period);
}

fn saturating_mul(a: u64, b: u64) -> (product: u64)
    ensures
        product == if a * b <= u64::MAX { a * b } else { u64::MAX as int },
{
    match a.checked_mul(b) {
        Some(p) => p,
        None => u64::MAX,
    }
}

/// First run of positions from `from` on, within `start..end`, whose phase lies in
/// `seg_start..seg_end`.
fn next_repeat_segment_interval(
    start: u64,
    end: u64,
    period: u64,
    seg_start: u64,
    seg_end: u64,
    from: u64,
) -> (found: Option<(u64, u64)>)
    requires
        period > 0,
    ensures
        found matches Some((a, b)) ==> {
            &&& start <= a
            &&& from <= a
            &&& a < b
            &&& b <= end
            &&& forall|pos: int|
                a <= pos < b ==> seg_start <= #[trigger] phase_at(
                    start as int,
                    period as int,
                    pos,
                ) < seg_end
            &&& forall|pos: int|
                from <= pos < a && start <= pos ==> !(seg_start <= #[trigger] phase_at(
                    start as int,
                    period as int,
                    pos,
                ) < seg_end)
        },
        found is None ==> forall|pos: int|
            from <= pos < end && start <= pos ==> !(seg_start <= #[trigger] phase_at(
                start as int,
                period as int,
                pos,
            ) < seg_end),
{
    let seg_stop: u64 = if seg_end < period { seg_end } else { period };
    assert forall|pos: int| start <= pos implies 0 <= #[trigger] phase_at(
        start as int,
        period as int,
        pos,
    ) < period by {
        lemma_cycle_of_pos(start as int, period as int, pos);
    }
    if seg_start >= seg_stop {
        return None;
    }
    let lower: u64 = if from < start { start } else { from };
    if lower >= end {
        return None;
    }
    let rel: u64 = lower - start;
    let mut cycle_idx: u64 = rel / period;
    proof {
        lemma_cycle_of_pos(start as int, period as int, lower as int);
        assert((cycle_idx as int) * (period as int) <= rel);
    }
    loop
        invariant
            period > 0,
            seg_start < seg_stop <= period,
            seg_stop == if seg_end < period { seg_end } else { period },
            lower == if from < start { start } else { from },
            start <= lower < end,
            forall|pos: int|
                start <= pos ==> 0 <= #[trigger] phase_at(
                    start as int,
                    period as int,
                    pos,
                ) < period,
            forall|pos: int|
                lower <= pos < start + cycle_idx * period && pos < end ==> !(seg_start <= #[trigger] phase_at(
                    start as int,
                    period as int,
                    pos,
                ) < seg_stop),
        decreases
            if start + cycle_idx * period < end {
                end - (start + cycle_idx * period)
            } else {
                0
            },
    {
        let cycle_base: u64 = start.saturating_add(saturating_mul(cycle_idx, period));
        if cycle_base >= end {
            return None;
        }
        assert(cycle_base == start + cycle_idx * period);
        let raw_start: u64 = cycle_base.saturating_add(seg_start);
        let raw_end: u64 = cycle_base.saturating_add(seg_stop);
        let interval_start: u64 = if raw_start < lower { lower } else { raw_start };
        let interval_end: u64 = if raw_end < end { raw_end } else { end };
        assert forall|pos: int| cycle_base <= pos < cycle_base + period implies #[trigger] phase_at(
            start as int,
            period as int,
            pos,
        ) == pos - cycle_base by {
            lemma_phase_of_cycle(start as int, period as int, cycle_idx as int, pos - cycle_base);
        }
        if interval_start < interval_end {
            return Some((interval_start, interval_end));
        }
        assert((cycle_idx + 1) * period == cycle_idx * period + period) by (nonlinear_arith);
        assert(cycle_idx < u64::MAX) by (nonlinear_arith)
            requires
                cycle_idx * period < u64::MAX,
                period > 0,
        ;
        cycle_idx = cycle_idx.saturating_add(1);
    }
}

/// Whether some position at or after `cursor`, within `start..end`, has its phase in
/// `seg_start..seg_end` and is held by none of the first `n` rules.
fn repeat_segment_has_uncovered_position(
    start: u64,
    end: u64,
    period: u64,
    seg_start: u64,
    seg_end: u64,
    cursor: u64,
    rules: &Vec<CompiledScheduleRule>,
    n: usize,
) -> (found: bool)
    requires
        period > 0,
        n <= rules@.len(),
    ensures
        found <==> exists|pos: int|
            #![trigger covered(rules@, n as int, pos)]
            cursor <= pos < end && start <= pos && seg_start <= phase_at(
                start as int,
                period as int,
                pos,
            ) < seg_end && !covered(rules@, n as int, pos),
{
    let mut search_from: u64 = cursor;
    loop
        invariant
            period > 0,
            n <= rules@.len(),
            cursor <= search_from,
            forall|pos: int|
                #![trigger covered(rules@, n as int, pos)]
                cursor <= pos < search_from && pos < end && start <= pos && seg_start <= phase_at(
                    start as int,
                    period as int,
                    pos,
                ) < seg_end ==> covered(rules@, n as int, pos),
        decreases u64::MAX - search_from,
    {
        match next_repeat_segment_interval(start, end, period, seg_start, seg_end, search_from) {
            None => {
                return false;
            },
            Some((candidate_start, candidate_end)) => {
                match interval_uncovered_or_next(candidate_start, candidate_end, rules, n) {
                    Ok(()) => {
                        assert(exists|pos: int|
                            candidate_start <= pos < candidate_end && !#[trigger] covered(
                                rules@,
                                n as int,
                                pos,
                            ));
                        return true;
                    },
                    Err(next) => {
                        search_from = next;
                    },
                }
            },
        }
    }
}

/// Compiled, position-resolved policy ready for runtime evaluation.
#[derive(Debug)]
pub struct CompiledPolicy {
    rules: Vec<CompiledScheduleRule>,
}

impl CompiledPolicy {
    #[verifier::type_invariant]
    spec fn wf(self) -> bool {
        forall|i: int| 0 <= i < self.rules@.len() ==> (#[trigger] self.rules@[i]).wf()
    }

    /// The rules, in order of precedence.
    pub closed spec fn spec_rules(&self) -> Seq<CompiledScheduleRule> {
        self.rules@
    }

    /// Action in force at position `pos`.
    pub open spec fn asks(&self, pos: int) -> PolicyAction {
        schedule_asks(self.spec_rules(), 0, pos)
    }

    /// Builds a policy from rules that are each well formed.
    pub fn from_rules(rules: Vec<CompiledScheduleRule>) -> (policy: CompiledPolicy)
        requires
            forall|i: int| 0 <= i < rules@.len() ==> (#[trigger] rules@[i]).wf(),
        ensures
            policy.spec_rules() == rules@,
    {
        CompiledPolicy { rules }
    }

    /// Resolve the action at absolute position `pos`.
    pub fn action_at(&self, pos: u64) -> (action: PolicyAction)
        ensures
            action@ == self.asks(pos as int)@,
    {
        proof {
            use_type_invariant(self);
        }
        let mut i: usize = 0;
        while i < self.rules.len()
            invariant
                i <= self.rules@.len(),
                self.asks(pos as int) == schedule_asks(self.rules@, i as int, pos as int),
                self.wf(),
            decreases self.rules@.len() - i,
        {
            let rule = &self.rules[i];
            assert(rule.wf());
            match rule {
                CompiledScheduleRule::Interval { start, end, action } => {
                    if pos >= *start && pos < *end {
                        return action.clone();
                    }
                },
                CompiledScheduleRule::Repeat { start, end, period, pattern_total, pattern } => {
                    if pos >= *start && pos < *end {
                        let phase: u64 = (pos - *start) % *period;
                        if phase >= *pattern_total {
                            proof {
                                lemma_pattern_asks_none(pattern@, 0, phase as int);
                            }
                            return PolicyAction::Infer;
                        }
                        let mut k: usize = 0;
                        while k < pattern.len()
                            invariant
                                k <= pattern@.len(),
                                pattern_asks(pattern@, 0, phase as int) == pattern_asks(
                                    pattern@,
                                    k as int,
                                    phase as int,
                                ),
                                self.asks(pos as int) == pattern_asks(
                                    pattern@,
                                    0,
                                    phase as int,
                                ),
                            decreases pattern@.len() - k,
                        {
                            if phase < pattern[k].end {
                                return pattern[k].action.clone();
                            }
                            k += 1;
                        }
                        return PolicyAction::Infer;
                    }
                },
            }
            i += 1;
        }
        PolicyAction::Infer
    }

    /// Returns whether any position at or after `cursor` can emit a matching train action.
    ///
    /// The answer is `true` exactly when the predicate accepted a train action that is in
    /// force at some position from `cursor` on. No other action is put to the predicate.
    pub fn has_future_train_matching_from<F: Fn(&TrainAction) -> bool>(
        &self,
        cursor: u64,
        predicate: F,
    ) -> (found: bool)
        requires
            forall|pos: int| #![trigger self.asks(pos)]
                cursor <= pos <= u64::MAX && self.asks(pos) is Train ==> predicate.requires(
                    (&self.asks(pos)->Train_0,),
                ),
        ensures
            found ==> exists|pos: int| #![trigger self.asks(pos)]
                cursor <= pos <= u64::MAX && self.asks(pos) is Train && predicate.ensures(
                    (&self.asks(pos)->Train_0,),
                    true,
                ),
            !found ==> forall|pos: int| #![trigger self.asks(pos)]
                cursor <= pos <= u64::MAX && self.asks(pos) is Train ==> predicate.ensures(
                    (&self.asks(pos)->Train_0,),
                    false,
                ),
    {
        proof {
            use_type_invariant(self);
        }
        let mut idx: usize = 0;
        while idx < self.rules.len()
            invariant
                idx <= self.rules@.len(),
                self.wf(),
                forall|pos: int| #![trigger self.asks(pos)]
                    cursor <= pos <= u64::MAX && self.asks(pos) is Train ==> predicate.requires(
                        (&self.asks(pos)->Train_0,),
                    ),
                forall|k: int, pos: int|
                    #![trigger self.rules@[k].holds(pos)]
                    0 <= k < idx && cursor <= pos && self.rules@[k].holds(pos) && !covered(
                        self.rules@,
                        k,
                        pos,
                    ) && self.rules@[k].asks(pos) is Train ==> predicate.ensures(
                        (&self.rules@[k].asks(pos)->Train_0,),
                        false,
                    ),
            decreases self.rules@.len() - idx,
        {
            proof {
                assert forall|pos: int| #![trigger self.rules@[idx as int].holds(pos)]
                    cursor <= pos && self.rules@[idx as int].holds(pos) && !covered(
                        self.rules@,
                        idx as int,
                        pos,
                    ) && self.rules@[idx as int].asks(pos) is Train implies predicate.requires(
                    (&self.rules@[idx as int].asks(pos)->Train_0,),
                ) by {
                    lemma_schedule_asks_at(self.rules@, 0, idx as int, pos);
                    assert(self.asks(pos) == self.rules@[idx as int].asks(pos));
                }
            }
            if self.rule_has_future_train_matching(idx, cursor, &predicate) {
                proof {
                    let pos = choose|pos: int|
                        #![trigger self.rules@[idx as int].holds(pos)]
                        cursor <= pos && self.rules@[idx as int].holds(pos) && !covered(
                            self.rules@,
                            idx as int,
                            pos,
                        ) && self.rules@[idx as int].asks(pos) is Train && predicate.ensures(
                            (&self.rules@[idx as int].asks(pos)->Train_0,),
                            true,
                        );
                    lemma_schedule_asks_at(self.rules@, 0, idx as int, pos);
                    assert(self.asks(pos) == self.rules@[idx as int].asks(pos));
                }
                return true;
            }
            idx += 1;
        }
        assert forall|pos: int| #![trigger self.asks(pos)]
            cursor <= pos <= u64::MAX && self.asks(pos) is Train implies predicate.ensures(
            (&self.asks(pos)->Train_0,),
            false,
        ) by {
            let k = lemma_deciding_rule(self.rules@, 0, pos);
            assert(self.rules@[k].holds(pos));
            assert(!covered(self.rules@, k, pos));
        }
        false
    }

    /// The same question for one rule, over the positions that no earlier rule holds.
    fn rule_has_future_train_matching<F: Fn(&TrainAction) -> bool>(
        &self,
        idx: usize,
        cursor: u64,
        predicate: &F,
    ) -> (found: bool)
        requires
            self.wf(),
            idx < self.rules@.len(),
            forall|pos: int|
                #![trigger self.rules@[idx as int].holds(pos)]
                cursor <= pos && self.rules@[idx as int].holds(pos) && !covered(
                    self.rules@,
                    idx as int,
                    pos,
                ) && self.rules@[idx as int].asks(pos) is Train ==> predicate.requires(
                    (&self.rules@[idx as int].asks(pos)->Train_0,),
                ),
        ensures
            found ==> exists|pos: int|
                #![trigger self.rules@[idx as int].holds(pos)]
                cursor <= pos && self.rules@[idx as int].holds(pos) && !covered(
                    self.rules@,
                    idx as int,
                    pos,
                ) && self.rules@[idx as int].asks(pos) is Train && predicate.ensures(
                    (&self.rules@[idx as int].asks(pos)->Train_0,),
                    true,
                ),
            !found ==> forall|pos: int|
                #![trigger self.rules@[idx as int].holds(pos)]
                cursor <= pos && self.rules@[idx as int].holds(pos) && !covered(
                    self.rules@,
                    idx as int,
                    pos,
                ) && self.rules@[idx as int].asks(pos) is Train ==> predicate.ensures(
                    (&self.rules@[idx as int].asks(pos)->Train_0,),
                    false,
                ),
    {
        let rule = &self.rules[idx];
        assert(rule.wf());
        match rule {
            CompiledScheduleRule::Interval { start, end, action } => {
                let candidate_start: u64 = if cursor < *start { *start } else { cursor };
                if candidate_start >= *end {
                    return false;
                }
                match action {
                    PolicyAction::Infer => false,
                    PolicyAction::Train(train) => {
                        match interval_uncovered_or_next(candidate_start, *end, &self.rules, idx) {
                            Ok(()) => {
                                proof {
                                    let pos = choose|pos: int|
                                        candidate_start <= pos < *end && !#[trigger] covered(
                                            self.rules@,
                                            idx as int,
                                            pos,
                                        );
                                    assert(self.rules@[idx as int].holds(pos));
                                }
                                predicate(train)
                            },
                            Err(_) => false,
                        }
                    },
                }
            },
            CompiledScheduleRule::Repeat { start, end, period, pattern_total, pattern } => {
                let mut seg_start: u64 = 0;
                let mut k: usize = 0;
                while k < pattern.len()
                    invariant
                        k <= pattern@.len(),
                        rule == self.rules@[idx as int],
                        *rule == (CompiledScheduleRule::Repeat {
                            start: *start,
                            end: *end,
                            period: *period,
                            pattern_total: *pattern_total,
                            pattern: *pattern,
                        }),
                        rule.wf(),
                        idx < self.rules@.len(),
                        forall|pos: int|
                            #![trigger self.rules@[idx as int].holds(pos)]
                            cursor <= pos && self.rules@[idx as int].holds(pos) && !covered(
                                self.rules@,
                                idx as int,
                                pos,
                            ) && self.rules@[idx as int].asks(pos) is Train
                                ==> predicate.requires(
                                (&self.rules@[idx as int].asks(pos)->Train_0,),
                            ),
                        seg_start == if k == 0 { 0 } else { pattern@[k - 1].end },
                        forall|j: int, pos: int|
                            #![trigger pattern@[j], covered(self.rules@, idx as int, pos)]
                            0 <= j < k && cursor <= pos && rule.holds(pos) && !covered(
                                self.rules@,
                                idx as int,
                                pos,
                            ) && (j == 0 || pattern@[j - 1].end <= phase_at(
                                *start as int,
                                *period as int,
                                pos,
                            )) && phase_at(*start as int, *period as int, pos)
                                < pattern@[j].end && pattern@[j].action is Train
                                ==> predicate.ensures((&pattern@[j].action->Train_0,), false),
                    decreases pattern@.len() - k,
                {
                    let seg = &pattern[k];
                    if let PolicyAction::Train(train) = &seg.action {
                        if repeat_segment_has_uncovered_position(
                            *start,
                            *end,
                            *period,
                            seg_start,
                            seg.end,
                            cursor,
                            &self.rules,
                            idx,
                        ) {
                            proof {
                                let pos = choose|pos: int|
                                    #![trigger covered(self.rules@, idx as int, pos)]
                                    cursor <= pos < *end && *start <= pos && seg_start <= phase_at(
                                        *start as int,
                                        *period as int,
                                        pos,
                                    ) < seg.end && !covered(self.rules@, idx as int, pos);
                                let phase = phase_at(*start as int, *period as int, pos);
                                lemma_pattern_asks_at(pattern@, 0, k as int, phase);
                                assert(self.rules@[idx as int].holds(pos));
                            }
                            if predicate(train) {
                                return true;
                            }
                        }
                    }
                    assert forall|pos: int|
                        #![trigger covered(self.rules@, idx as int, pos)]
                        cursor <= pos && rule.holds(pos) && !covered(
                            self.rules@,
                            idx as int,
                            pos,
                        ) && (k == 0 || pattern@[k - 1].end <= phase_at(
                            *start as int,
                            *period as int,
                            pos,
                        )) && phase_at(*start as int, *period as int, pos)
                            < pattern@[k as int].end && pattern@[k as int].action is Train implies predicate.ensures(
                        (&pattern@[k as int].action->Train_0,),
                        false,
                    ) by {
                        lemma_cycle_of_pos(*start as int, *period as int, pos);
                    }
                    seg_start = seg.end;
                    k += 1;
                }
                assert forall|pos: int|
                    #![trigger self.rules@[idx as int].holds(pos)]
                    cursor <= pos && self.rules@[idx as int].holds(pos) && !covered(
                        self.rules@,
                        idx as int,
                        pos,
                    ) && self.rules@[idx as int].asks(pos) is Train implies predicate.ensures(
                    (&self.rules@[idx as int].asks(pos)->Train_0,),
                    false,
                ) by {
                    let phase = phase_at(*start as int, *period as int, pos);
                    let j = lemma_deciding_segment(pattern@, 0, phase);
                    assert(pattern@[j].action is Train);
                }
                false
            },
        }
    }
}

impl Clone for CompiledPolicy {
    fn clone(&self) -> (copy: Self)
        ensures
            compiled_rules(copy.spec_rules()) == compiled_rules(self.spec_rules()),
    {
        proof {
            use_type_invariant(self);
        }
        let rules = self.rules.clone();
        proof {
            assert(compiled_rules(rules@) =~= compiled_rules(self.rules@));
            assert forall|i: int| 0 <= i < rules@.len() implies (#[trigger] rules@[i]).wf() by {
                assert(self.rules@[i].wf());
            }
        }
        CompiledPolicy { rules }
    }
}

/// Stateful cursor over a [`CompiledPolicy`].
#[derive(Debug)]
pub struct PolicyRuntime {
    compiled: CompiledPolicy,
    cursor: u64,
}

impl Clone for PolicyRuntime {
    fn clone(&self) -> (copy: Self)
        ensures
            compiled_rules(copy.policy().spec_rules()) == compiled_rules(
                self.policy().spec_rules(),
            ),
            copy.at() == self.at(),
    {
        PolicyRuntime { compiled: self.compiled.clone(), cursor: self.cursor }
    }
}

impl PolicyRuntime {
    /// The policy walked.
    pub closed spec fn policy(&self) -> CompiledPolicy {
        self.compiled
    }

    /// The current position.
    pub closed spec fn at(&self) -> u64 {
        self.cursor
    }

    /// Create a runtime positioned at cursor `0`.
    pub fn new(compiled: CompiledPolicy) -> (runtime: Self)
        ensures
            runtime.policy() == compiled,
            runtime.at() == 0,
    {
        PolicyRuntime { compiled, cursor: 0 }
    }

    /// Current cursor position.
    pub fn cursor(&self) -> (cursor: u64)
        ensures
            cursor == self.at(),
    {
        self.cursor
    }

    /// Set cursor position directly.
    pub fn set_cursor(&mut self, cursor: u64)
        ensures
            final(self).policy() == old(self).policy(),
            final(self).at() == cursor,
    {
        self.cursor = cursor;
    }

    /// Peek current action without advancing cursor.
    pub fn peek_action(&self) -> (action: PolicyAction)
        ensures
            action@ == self.policy().asks(self.at() as int)@,
    {
        self.compiled.action_at(self.cursor)
    }

    /// Return current action and advance cursor by one.
    pub fn next_action(&mut self) -> (action: PolicyAction)
        ensures
            action@ == old(self).policy().asks(old(self).at() as int)@,
            final(self).policy() == old(self).policy(),
            final(self).at() == if old(self).at() < u64::MAX {
                old(self).at() + 1
            } else {
                u64::MAX as int
            },
    {
        let action = self.compiled.action_at(self.cursor);
        self.cursor = self.cursor.saturating_add(1);
        action
    }

    /// Returns whether any future cursor position can emit a matching train action.
    pub fn has_future_train_matching<F: Fn(&TrainAction) -> bool>(&self, predicate: F) -> (found:
        bool)
        requires
            forall|pos: int| #![trigger self.policy().asks(pos)]
                self.at() <= pos <= u64::MAX && self.policy().asks(pos) is Train
                    ==> predicate.requires((&self.policy().asks(pos)->Train_0,)),
        ensures
            found ==> exists|pos: int| #![trigger self.policy().asks(pos)]
                self.at() <= pos <= u64::MAX && self.policy().asks(pos) is Train
                    && predicate.ensures((&self.policy().asks(pos)->Train_0,), true),
            !found ==> forall|pos: int| #![trigger self.policy().asks(pos)]
                self.at() <= pos <= u64::MAX && self.policy().asks(pos) is Train
                    ==> predicate.ensures((&self.policy().asks(pos)->Train_0,), false),
    {
        self.compiled.has_future_train_matching_from(self.cursor, predicate)
    }
}

} // verus!
