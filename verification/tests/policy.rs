//! Schedules of training: parsing, rendering, compiling, asking.

use infotheory::backends::llm_policy::{parse_policy_segment, policy_can_train};
use infotheory::backends::policy_error::PolicyErrorKind;
use infotheory::backends::policy_schedule::{
    CompiledPolicy, OptimizerKind, PolicyAction, PolicyRuntime, TrainScopeSet,
};
use infotheory::reals::share_of_total;

const RWKV_SCOPES: &[&str] = &[
    "embed",
    "pre_norm",
    "attn_norm",
    "ffn_norm",
    "attn",
    "ffn",
    "head",
    "bias",
    "all",
    "none",
];

fn compiled(text: &str, total: u64) -> CompiledPolicy {
    let policy = parse_policy_segment(text, RWKV_SCOPES).expect("policy");
    policy.compile(Some(total)).expect("compile")
}

fn refused(text: &str) -> PolicyErrorKind {
    parse_policy_segment(text, RWKV_SCOPES)
        .expect_err("a refusal")
        .kind
}

fn compile_refused(text: &str, total: Option<u64>) -> PolicyErrorKind {
    let policy = parse_policy_segment(text, RWKV_SCOPES).expect("policy");
    match policy.compile(total) {
        Ok(_) => panic!("a refusal"),
        Err(e) => e.kind,
    }
}

#[test]
fn parse_policy_basic_and_compile() {
    let c = compiled(
        "policy:schedule=0..10:infer|10..100%:train(scope=head+bias,opt=adam,lr=0.01,stride=2,bptt=4,clip=1.0,momentum=0.95)",
        100,
    );
    assert!(matches!(c.action_at(0), PolicyAction::Infer));
    match c.action_at(15) {
        PolicyAction::Train(t) => {
            assert!(t.scope.contains("head"));
            assert!(t.scope.contains("bias"));
            assert_eq!(t.hyper.stride, 2);
            assert_eq!(t.hyper.bptt, 4);
            assert_eq!(t.optimizer, OptimizerKind::Adam);
            assert!(!t.scope.contains("attn"));
        }
        _ => panic!("expected train"),
    }
}

#[test]
fn parse_repeat_policy() {
    let p = parse_policy_segment(
        "schedule=0..100:repeat(0..100,period=10,pattern=3:train(scope=head,opt=sgd,lr=0.1,stride=1,bptt=1,clip=0,momentum=0.9)+7:infer)",
        RWKV_SCOPES,
    );
    assert!(p.is_err());

    let c = compiled(
        "schedule=repeat(0..100,period=10,pattern=3:train(scope=head,opt=sgd,lr=0.1,stride=1,bptt=1,clip=0,momentum=0.9)+7:infer)",
        100,
    );
    assert!(matches!(c.action_at(0), PolicyAction::Train(_)));
    assert!(matches!(c.action_at(3), PolicyAction::Infer));
    assert!(matches!(c.action_at(10), PolicyAction::Train(_)));
}

#[test]
fn policy_runtime_future_train_matching_interval_respects_cursor() {
    let mut runtime = PolicyRuntime::new(compiled(
        "schedule=0..5:infer|5..10:train(scope=attn,opt=adam,lr=0.1,stride=1,bptt=2,clip=0,momentum=0.9)|10..20:infer",
        20,
    ));
    assert!(runtime.has_future_train_matching(|train| train.scope.contains("attn")));
    runtime.set_cursor(10);
    assert!(!runtime.has_future_train_matching(|train| train.scope.contains("attn")));
}

#[test]
fn policy_runtime_future_train_matching_repeat_respects_remaining_cycles() {
    let mut runtime = PolicyRuntime::new(compiled(
        "schedule=repeat(0..30,period=10,pattern=2:train(scope=attn,opt=adam,lr=0.1,stride=1,bptt=2,clip=0,momentum=0.9)+8:infer)",
        30,
    ));
    runtime.set_cursor(9);
    assert!(runtime.has_future_train_matching(|train| train.scope.contains("attn")));
    runtime.set_cursor(29);
    assert!(!runtime.has_future_train_matching(|train| train.scope.contains("attn")));
}

#[test]
fn policy_runtime_future_train_matching_respects_shadowed_interval_precedence() {
    let runtime = PolicyRuntime::new(compiled(
        "schedule=0..100:infer|10..20:train(scope=attn,opt=adam,lr=0.1,stride=1,bptt=2,clip=0,momentum=0.9)",
        100,
    ));
    assert!(matches!(runtime.peek_action(), PolicyAction::Infer));
    assert!(!runtime.has_future_train_matching(|train| train.scope.contains("attn")));
}

#[test]
fn policy_runtime_future_train_matching_respects_shadowed_repeat_precedence() {
    let runtime = PolicyRuntime::new(compiled(
        "schedule=repeat(0..100,period=10,pattern=10:infer)|10..20:train(scope=attn,opt=adam,lr=0.1,stride=1,bptt=2,clip=0,momentum=0.9)",
        100,
    ));
    assert!(matches!(runtime.peek_action(), PolicyAction::Infer));
    assert!(!runtime.has_future_train_matching(|train| train.scope.contains("attn")));
}

#[test]
fn runtime_walks_through_its_schedule() {
    let mut runtime = PolicyRuntime::new(compiled("schedule=1..2:train(scope=head,opt=sgd,lr=0.1,stride=1,bptt=1,clip=0,momentum=0.9)", 10));
    assert_eq!(runtime.cursor(), 0);
    assert!(matches!(runtime.next_action(), PolicyAction::Infer));
    assert_eq!(runtime.cursor(), 1);
    assert!(matches!(runtime.next_action(), PolicyAction::Train(_)));
    assert!(matches!(runtime.next_action(), PolicyAction::Infer));
    assert_eq!(runtime.cursor(), 3);
}

#[test]
fn canonical_policy_is_parsed_back() {
    let text = "load_from=/tmp/x,schedule=0..10:infer|repeat(10..90%,period=10,pattern=3:train(scope=bias+head,opt=adam,lr=0.01,stride=2,bptt=4,clip=0,momentum=0.9)+7:infer)";
    let policy = parse_policy_segment(text, RWKV_SCOPES).expect("policy");
    let canonical = policy.canonical();
    let again = parse_policy_segment(&canonical, RWKV_SCOPES).expect("canonical policy");
    assert_eq!(again.canonical(), canonical);
    assert!(policy_can_train(&policy));
    let infer = parse_policy_segment("schedule=0..10:infer", RWKV_SCOPES).expect("policy");
    assert!(!policy_can_train(&infer));
    assert_eq!(infer.percents().len(), 0);
}

#[test]
fn numbers_are_shown_as_plain_decimals() {
    let shown = |text: &str| {
        let once = parse_policy_segment(text, RWKV_SCOPES).expect("policy").canonical();
        let twice = parse_policy_segment(&once, RWKV_SCOPES).expect("policy").canonical();
        assert_eq!(twice, once);
        once
    };
    assert_eq!(
        shown("schedule=0..+10.50%:train(scope=head,lr=1e-2,clip=1.0,momentum=+.50)"),
        "schedule=0..10.5%:train(scope=head,opt=sgd,lr=0.01,stride=1,bptt=1,clip=1,momentum=0.5)",
    );
    assert_eq!(
        shown("schedule=-0%..1e2%:train(scope=head,lr=-3,clip=nan,momentum=-0.0)"),
        "schedule=0%..100%:train(scope=head,opt=sgd,lr=0,stride=1,bptt=1,clip=0,momentum=-0)",
    );
    assert_eq!(
        shown("schedule=0..9:train(scope=head,lr=1e50,clip=1e-50,momentum=-INF)"),
        "schedule=0..9:train(scope=head,opt=sgd,lr=inf,stride=1,bptt=1,clip=0,momentum=-inf)",
    );
    assert_eq!(
        shown("schedule=0..9:train(scope=head,lr=0.12345e3,clip=12345e2,momentum=nan)"),
        "schedule=0..9:train(scope=head,opt=sgd,lr=123.45,stride=1,bptt=1,clip=1234500,momentum=NaN)",
    );
    assert_eq!(
        shown("schedule=0..33.33333333333333333333%:train(scope=head,lr=0.123456789123,clip=16777217,momentum=0.99999999)"),
        "schedule=0..33.333333333333336%:train(scope=head,opt=sgd,lr=0.12345679,stride=1,bptt=1,clip=16777216,momentum=1)",
    );
}

#[test]
fn scopes_are_sets_of_names() {
    let set = TrainScopeSet::parse(" Head | bias+head ", RWKV_SCOPES).expect("scopes");
    assert_eq!(set.canonical(), "bias+head");
    assert!(set.contains("head"));
    assert!(!set.contains("attn"));
    assert!(!set.is_none());
    let all = TrainScopeSet::parse("all", RWKV_SCOPES).expect("all");
    assert!(all.contains("anything"));
    assert_eq!(all.canonical(), "all");
    assert_eq!(TrainScopeSet::all().canonical(), "all");
    let none = TrainScopeSet::parse("none", RWKV_SCOPES).expect("none");
    assert!(none.is_none());
    assert_eq!(TrainScopeSet::none().canonical(), "none");
    assert_eq!(
        TrainScopeSet::parse("", RWKV_SCOPES).expect_err("empty").kind,
        PolicyErrorKind::EmptyScope
    );
    assert_eq!(
        TrainScopeSet::parse("tail", RWKV_SCOPES)
            .expect_err("unknown")
            .kind,
        PolicyErrorKind::UnknownScope
    );
    assert_eq!(
        TrainScopeSet::parse("none+head", RWKV_SCOPES)
            .expect_err("mixed")
            .kind,
        PolicyErrorKind::MixedScope
    );
}

#[test]
fn percentages_are_shares_of_the_total() {
    let mut bits: u64 = 88172645463325252;
    for total in [0u64, 1, 3, 100, 1000, 4097, 1 << 53, (1 << 53) + 1, u64::MAX] {
        for text in ["0", "100", "33.3", "0.1", "99.99999999999999", "1e-300", "57", "14.285714285714286"] {
            bits ^= bits << 13;
            bits ^= bits >> 7;
            bits ^= bits << 17;
            let drawn = format!("{}", (bits >> 11) as f64 / (1u64 << 53) as f64 * 100.0);
            for text in [text, drawn.as_str()] {
                let percent: f64 = text.parse().expect("a number");
                let expected = ((total as f64) * (percent / 100.0)).floor() as u64;
                let chars: Vec<char> = text.chars().collect();
                assert_eq!(share_of_total(&chars, total), expected, "{text}% of {total}");
            }
        }
    }
    let chars = |text: &str| text.chars().collect::<Vec<char>>();
    assert_eq!(share_of_total(&chars("-5"), 100), 0);
    assert_eq!(share_of_total(&chars("nan"), 100), 0);
    assert_eq!(share_of_total(&chars("x"), 100), 0);
    assert_eq!(share_of_total(&chars("inf"), 100), u64::MAX);
    assert_eq!(share_of_total(&chars("1e999"), 0), 0);
    assert_eq!(share_of_total(&chars("1e300"), 7), u64::MAX);
}

#[test]
fn percentages_lie_between_zero_and_one_hundred() {
    let taken = |p: &str| {
        parse_policy_segment(&format!("schedule=0..{p}%:infer"), RWKV_SCOPES).is_ok()
    };
    for p in ["0", "-0", "-0.0e9", "100", "1e2", "0.1E3", "99.99", "100.0000000000000000001", "1e-400", "+5", ".5", "100.00000000000000710542735760100185871124267578125", "-1e-400", "0e999999999999999999999999999999999999999"] {
        assert!(taken(p), "{p}");
        let value: f64 = p.parse().expect("a number");
        assert!((0.0..=100.0).contains(&value), "{p}");
    }
    for p in ["100.1", "101", "1e3", "-1", "-0.5", "100.00000000000000710542735760100185871124267578126", "inf", "nan", "-inf", "1e99999999999999999999999999999999999999"] {
        assert!(!taken(p), "{p}");
        let value: f64 = p.parse().expect("a number");
        assert!(!(0.0..=100.0).contains(&value), "{p}");
    }
    let err = parse_policy_segment("schedule=0..101%:infer", RWKV_SCOPES).expect_err("a refusal");
    assert!(err.message().contains("percent position must be in [0,100], got 101"));
}

#[test]
fn refusals_name_their_reason() {
    let train = "train(scope=head,opt=sgd,lr=0.1,stride=1,bptt=1,clip=0,momentum=0.9)";
    assert_eq!(refused(""), PolicyErrorKind::EmptyPolicy);
    assert_eq!(refused("schedule"), PolicyErrorKind::InvalidPolicyPair);
    assert_eq!(refused("load_from=,schedule=0..1:infer"), PolicyErrorKind::EmptyLoadFrom);
    assert_eq!(refused("schedule="), PolicyErrorKind::EmptySchedule);
    assert_eq!(refused("plan=0..1:infer"), PolicyErrorKind::UnknownPolicyKey);
    assert_eq!(refused("load_from=x"), PolicyErrorKind::ScheduleRequired);
    assert_eq!(refused("schedule=|"), PolicyErrorKind::NoScheduleRule);
    assert_eq!(refused("schedule=5"), PolicyErrorKind::InvalidRule);
    assert_eq!(refused("schedule=repeat(0..10"), PolicyErrorKind::UnbalancedOpen);
    assert_eq!(refused("schedule=0..10:infer)"), PolicyErrorKind::UnbalancedClose);
    assert_eq!(refused("schedule=repeat(0..10,period)"), PolicyErrorKind::InvalidRepeatArgument);
    assert_eq!(refused("schedule=repeat(0..10,cycle=3)"), PolicyErrorKind::UnknownRepeatKey);
    assert_eq!(
        refused("schedule=repeat(0..10,period=3,pattern=3)"),
        PolicyErrorKind::InvalidPatternSegment
    );
    assert_eq!(
        refused("schedule=repeat(0..10,pattern=3:infer)"),
        PolicyErrorKind::PeriodRequired
    );
    assert_eq!(refused("schedule=repeat(0..10,period=3)"), PolicyErrorKind::PatternRequired);
    assert_eq!(refused("schedule=0..10:sleep"), PolicyErrorKind::InvalidAction);
    assert_eq!(refused("schedule=0..10:train(scope)"), PolicyErrorKind::InvalidTrainArgument);
    assert_eq!(refused("schedule=0..10:train(scopes=head)"), PolicyErrorKind::UnknownTrainKey);
    assert_eq!(refused("schedule=0..10:train(opt=lion)"), PolicyErrorKind::UnknownOptimizer);
    assert_eq!(refused("schedule=0..10:train(lr=x)"), PolicyErrorKind::InvalidLr);
    assert_eq!(refused("schedule=0..10:train(stride=x)"), PolicyErrorKind::InvalidStride);
    assert_eq!(refused("schedule=0..10:train(bptt=x)"), PolicyErrorKind::InvalidBptt);
    assert_eq!(refused("schedule=0..10:train(clip=x)"), PolicyErrorKind::InvalidClip);
    assert_eq!(refused("schedule=0..10:train(momentum=x)"), PolicyErrorKind::InvalidMomentum);
    assert_eq!(refused("schedule=0:infer"), PolicyErrorKind::InvalidRange);
    assert_eq!(refused("schedule=0..x%:infer"), PolicyErrorKind::InvalidPercent);
    assert_eq!(refused("schedule=0..101%:infer"), PolicyErrorKind::PercentOutOfRange);
    assert_eq!(refused("schedule=0..x:infer"), PolicyErrorKind::InvalidAbsolute);
    assert_eq!(compile_refused("schedule=5..5:infer", None), PolicyErrorKind::EmptyInterval);
    assert_eq!(
        compile_refused("schedule=repeat(5..5,period=2,pattern=2:infer)", None),
        PolicyErrorKind::EmptyRepeatInterval
    );
    assert_eq!(
        compile_refused("schedule=repeat(0..5,period=0,pattern=2:infer)", None),
        PolicyErrorKind::ZeroPeriod
    );
    assert_eq!(
        compile_refused(&format!("schedule=repeat(0..5,period=2,pattern=0:{train})"), None),
        PolicyErrorKind::ZeroSpan
    );
    assert_eq!(
        compile_refused("schedule=0..50%:infer", None),
        PolicyErrorKind::BoundaryNeedsTotal
    );
    assert_eq!(
        compile_refused("schedule=repeat(0..5,period=50%,pattern=2:infer)", None),
        PolicyErrorKind::SpanNeedsTotal
    );
}

#[test]
fn odd_scope_names_read_back() {
    let allowed = ["attn", "f(x,y)", "a,b", "("];
    for text in ["attn", "f(x,y)", "a,b", "(+attn"] {
        let set = TrainScopeSet::parse(text, &allowed).expect("scopes");
        let again = TrainScopeSet::parse(&set.canonical(), &allowed).expect("scopes again");
        assert_eq!(again.names, set.names);
        assert_eq!(again.all, set.all);
    }
    for scope in ["attn", "f(x,y)", "attn+f(x,y)"] {
        let text = format!(
            "schedule=0..9:train(scope={},opt=adam,lr=0.1,stride=1,bptt=2,clip=0,momentum=0.9)",
            scope
        );
        let policy = parse_policy_segment(&text, &allowed).expect("policy");
        let again = parse_policy_segment(&policy.canonical(), &allowed).expect("policy again");
        assert_eq!(again.canonical(), policy.canonical());
        assert!(policy.canonical().contains(scope));
    }
}

#[test]
fn unordered_scopes_find_no_name_that_is_not_there() {
    let set = TrainScopeSet {
        all: false,
        names: vec!["head".to_string(), "attn".to_string()],
    };
    assert!(!set.contains("bias"));
    assert!(!set.contains("zzz"));
    let twice = TrainScopeSet {
        all: false,
        names: ["attn", "attn", "bias", "head", "head"].map(String::from).to_vec(),
    };
    for name in ["attn", "bias", "head"] {
        assert!(twice.contains(name));
    }
    assert!(!twice.contains("ffn"));
    assert!(!set.is_none());
}
