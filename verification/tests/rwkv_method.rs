//! Methods of recurrent networks, and the state of their training.

use infotheory::api::types::{CompressionBackend, InfotheoryCtx, PathFacts, RateBackend};
use infotheory::backends::llm_policy::parse_policy_segment;
use infotheory::backends::method_path::PathPiece;
use infotheory::backends::policy_schedule::OptimizerKind;
use infotheory::backends::rwkvzip::method::{
    canonical_method_string, canonical_online_method, cfg_to_method_string, parse_method_spec,
    parse_train_mode_token, plain_path_of, rwkv_scope_list, shape_matches, train_mode_name,
    MethodErrorKind, MethodSpec, OnlineConfig, OnlineTrainMode,
};
use infotheory::backends::rwkvzip::online::{
    effective_full_bptt, head_mask, need_full_adam, policy_needs_full_trace, policy_uses_adam,
    scope_from_train_action, FullTrainSettings, TbpttQueue, TrainScopeMask,
};
use infotheory::backends::rwkvzip::sidecar_json::{resume_from_bytes, sidecar_from_bytes};
use infotheory::backends::rwkvzip::runtime::{plan_update, NoTrace, OnlineRuntime, UpdatePlan};
use infotheory::coders::CoderType;

fn online(method: &str) -> (OnlineConfig, bool) {
    match parse_method_spec(method, false).expect("method") {
        MethodSpec::Online { cfg, policy } => (cfg, policy.is_some()),
        _ => panic!("expected cfg method"),
    }
}

fn refused(method: &str) -> MethodErrorKind {
    parse_method_spec(method, false).expect_err("a refusal").kind
}

#[test]
fn test_parse_method_spec_file_and_cfg() {
    let p = "/tmp/infotheory_rwkvzip_dummy.bin";
    match parse_method_spec(&format!("file:{}", p), false).unwrap() {
        MethodSpec::File { path: got, .. } => assert_eq!(got, p),
        _ => panic!("expected file method"),
    }

    let (cfg, policy) = online(
        "cfg:hidden=64,layers=1,intermediate=64,decay_rank=8,a_rank=8,v_rank=8,g_rank=8,seed=1,train=none,lr=0.01,stride=2;policy:schedule=0..100:infer",
    );
    assert!(policy);
    assert_eq!(cfg.hidden, 64);
    assert_eq!(cfg.layers, 1);
    assert_eq!(cfg.seed, 1);
    assert_eq!(cfg.stride, 2);

    let (cfg, _) = online("64,64,1,0,7,0.01,2;policy:schedule=0..100:infer");
    assert_eq!(cfg.hidden, 64);
    assert_eq!(cfg.intermediate, 64);
    assert_eq!(cfg.layers, 1);
    assert_eq!(cfg.seed, 7);
    assert_eq!(cfg.stride, 2);

    match parse_method_spec(p, true).unwrap() {
        MethodSpec::File { path: got, .. } => assert_eq!(got, p),
        _ => panic!("expected file method"),
    }
    assert_eq!(plain_path_of(p).unwrap(), p);
}

#[test]
fn parse_method_spec_accepts_raw_semicolons_in_file_paths() {
    match parse_method_spec("file:/tmp/rwkv;v1.safetensors", false).expect("file path parse") {
        MethodSpec::File { path, policy } => {
            assert_eq!(path, "/tmp/rwkv;v1.safetensors");
            assert!(policy.is_none());
        }
        _ => panic!("expected file method"),
    }
}

#[test]
fn canonical_method_string_escapes_delimiter_bearing_file_paths() {
    let pieces = vec![
        PathPiece::RootDir,
        PathPiece::Normal("tmp".to_string()),
        PathPiece::Normal("rwkv;policy:model%v1.safetensors".to_string()),
    ];
    let method = canonical_method_string(
        &MethodSpec::File {
            path: "/tmp/rwkv;policy:model%v1.safetensors".to_string(),
            policy: None,
        },
        &pieces,
    );
    assert_eq!(method, "file:/tmp/rwkv%3Bpolicy:model%25v1.safetensors");

    match parse_method_spec(&method, false).expect("canonical method should parse") {
        MethodSpec::File { path, policy } => {
            assert_eq!(path, "/tmp/rwkv;policy:model%v1.safetensors");
            assert!(policy.is_none());
        }
        _ => panic!("expected file method"),
    }
}

#[test]
fn test_parse_method_spec_rejects_unknown_cfg_key() {
    let err =
        parse_method_spec("cfg:hidden=64,wat=1;policy:schedule=0..100:infer", false).unwrap_err();
    assert!(err.message().contains("unknown rwkv cfg key"));
}

#[test]
fn test_parse_method_spec_accepts_cfg_without_policy() {
    let (cfg, policy) = online("cfg:hidden=64,layers=1,intermediate=64");
    assert_eq!(cfg.hidden, 64);
    assert_eq!(cfg.layers, 1);
    assert_eq!(cfg.intermediate, 64);
    assert!(!policy);
}

#[test]
fn test_canonical_method_omits_policy_when_absent() {
    let (cfg, _) = online("cfg:hidden=64,layers=1,intermediate=64");
    assert_eq!(
        canonical_online_method(&cfg, None),
        "cfg:hidden=64,layers=1,intermediate=64,decay_rank=32,a_rank=32,v_rank=32,g_rank=64,seed=0,train=none,lr=0.001,stride=1"
    );
    let rt = OnlineRuntime::<u8>::new(cfg, "m".to_string(), None);
    assert!(!rt.can_adapt_online());
}

#[test]
fn method_refusals_name_their_reason() {
    assert_eq!(refused(" "), MethodErrorKind::Segments);
    assert_eq!(refused("cfg:hidden=64;policy:schedule="), MethodErrorKind::Policy);
    assert_eq!(refused("file:"), MethodErrorKind::EmptyFilePath);
    assert_eq!(
        refused("file:/x;policy:load_from=/y,schedule=0..1:infer"),
        MethodErrorKind::LoadFromWithFile
    );
    assert_eq!(
        parse_method_spec("/x;policy:load_from=/y,schedule=0..1:infer", true)
            .expect_err("a refusal")
            .kind,
        MethodErrorKind::LoadFromWithPath
    );
    assert_eq!(refused("64,64"), MethodErrorKind::PositionalCount);
    assert_eq!(refused("cfg:hidden=64,layers"), MethodErrorKind::InvalidPair);
    assert_eq!(refused("cfg:hidden=x"), MethodErrorKind::InvalidInteger);
    assert_eq!(refused("cfg:lr=x"), MethodErrorKind::InvalidFloat);
    assert_eq!(refused("cfg:train=maybe"), MethodErrorKind::UnknownTrainMode);
    assert_eq!(refused("cfg:wat=1"), MethodErrorKind::UnknownKey);
    assert_eq!(refused("weights"), MethodErrorKind::UnknownMethod);
    let (cfg, _) = online("cfg:hidden=100");
    assert_eq!(
        cfg.to_rwkv_config().expect_err("a refusal").kind,
        MethodErrorKind::HiddenNotMultiple
    );
}

#[test]
fn shapes_follow_configurations() {
    let (cfg, _) = online("cfg:hidden=128,layers=0,intermediate=7");
    let shape = cfg.to_rwkv_config().expect("shape");
    assert_eq!(shape.vocab_size, 256);
    assert_eq!(shape.hidden_size, 128);
    assert_eq!(shape.num_heads, 2);
    assert_eq!(shape.num_layers, 1);
    assert!(shape_matches(&shape, &shape));
    let (other, _) = online("cfg:hidden=64");
    assert!(!shape_matches(&shape, &other.to_rwkv_config().expect("shape")));
}

#[test]
fn train_modes_have_names() {
    let mode = |text: &str| {
        let chars: Vec<char> = text.chars().collect();
        parse_train_mode_token(&chars).expect("mode")
    };
    assert_eq!(mode("none"), OnlineTrainMode::Off);
    assert_eq!(mode("sgd"), OnlineTrainMode::Sgd);
    assert_eq!(mode("adam"), OnlineTrainMode::Adam);
    assert_eq!(train_mode_name(OnlineTrainMode::Off), "none");
    assert_eq!(train_mode_name(OnlineTrainMode::Adam), "adam");
    let (cfg, _) = online("cfg:hidden=64");
    let (again, _) = online(&cfg_to_method_string(&cfg));
    assert_eq!(cfg_to_method_string(&again), cfg_to_method_string(&cfg));
}

#[test]
fn compiling_a_network_backend_makes_its_method_canonical() {
    let facts = PathFacts {
        plain_exists: false,
        foreign: None,
    };
    let compiled = RateBackend::Rwkv7Method {
        method: "file:/a;b".to_string(),
    }
    .compile(&facts)
    .expect("compiled");
    match compiled.canonical_spec() {
        RateBackend::Rwkv7Method { method } => assert_eq!(method, "file:/a%3Bb"),
        _ => panic!("expected rwkv7"),
    }
    let drive = PathFacts {
        plain_exists: false,
        foreign: Some(vec![
            PathPiece::Prefix("C:".to_string()),
            PathPiece::RootDir,
            PathPiece::Normal("w.bin".to_string()),
        ]),
    };
    let network = |method: &str| RateBackend::Rwkv7Method {
        method: method.to_string(),
    };
    let compressor = || CompressionBackend::Rwkv7 {
        method: "file:C:\\w.bin".to_string(),
        coder: CoderType::AC,
    };
    let ctx = InfotheoryCtx::from_specs(network("file:./a//b/./c/"), compressor(), &facts, &drive)
        .expect("context");
    match ctx.rate_backend.canonical_spec() {
        RateBackend::Rwkv7Method { method } => assert_eq!(method, "file:./a/b/c"),
        _ => panic!("expected rwkv7"),
    }
    match ctx.compression_backend.canonical_spec() {
        CompressionBackend::Rwkv7 { method, .. } => assert_eq!(method, "file:C:/w.bin"),
        _ => panic!("expected rwkv7"),
    }
    for text in ["file:./a/b/c", "file:/a%3Bb", "file:../x"] {
        match network(text).compile(&facts).expect("compiled").canonical_spec() {
            RateBackend::Rwkv7Method { method } => assert_eq!(method, text),
            _ => panic!("expected rwkv7"),
        }
    }
    let refused = network("cfg:wat=1").compile(&facts);
    assert!(refused.is_err());
    let ctx = InfotheoryCtx::try_default().expect("context");
    assert!(matches!(
        ctx.rate_backend.canonical_spec(),
        RateBackend::RosaPlus { max_order: -1 }
    ));
}

fn policy_runtime(text: &str) -> OnlineRuntime<u8> {
    let names = rwkv_scope_list();
    let policy = parse_policy_segment(text, &names).expect("policy");
    let (cfg, _) = online("cfg:hidden=64");
    OnlineRuntime::new(cfg, "m".to_string(), Some(policy))
}

fn settings(window: usize) -> FullTrainSettings {
    FullTrainSettings {
        optimizer: OptimizerKind::Adam,
        lr_bits: 7,
        scope: TrainScopeMask::all(),
        bptt: window,
        clip_bits: 0,
    }
}

#[test]
fn schedules_decide_what_is_trained() {
    let text = "schedule=0..1:infer|1..3:train(scope=attn,opt=adam,lr=0.1,stride=2,bptt=1,clip=0,momentum=0.9)";
    let names = rwkv_scope_list();
    let policy = parse_policy_segment(text, &names).expect("policy");
    assert!(policy_uses_adam(&policy));
    assert!(policy_needs_full_trace(&policy));
    let mut rt = policy_runtime(text);
    assert!(rt.can_adapt_online());
    assert!(rt.starts_with_adam());
    rt.prepare_policy_stream(Some(3)).expect("stream");
    let (step, hit) = rt.begin_update().expect("step");
    assert!(!step.scope.trains_any_params());
    assert_eq!(plan_update(&step, hit, false, 0, 0), UpdatePlan::Skip);
    assert_eq!(rt.tokens_processed, 1);
    let (step, first) = rt.begin_update().expect("step");
    let (_, second) = rt.begin_update().expect("step");
    assert!(first != second);
    assert_eq!(step.stride, 2);
    match plan_update(&step, true, false, 5, 6) {
        UpdatePlan::Full(s) => {
            assert_eq!(s.bptt, 8);
            assert_eq!(s.lr_bits, 5);
            assert_eq!(s.clip_bits, 6);
        }
        _ => panic!("expected a full update"),
    }
    assert_eq!(plan_update(&step, true, true, 5, 6), UpdatePlan::Skip);
}

#[test]
fn windows_fill_up() {
    let mut q = TbpttQueue::<u8>::new();
    assert!(q.enqueue(settings(2), 1).is_none());
    q.record_input(10, 100);
    assert!(q.enqueue(settings(2), 1).is_none());
    assert!(!q.is_stale_for(&settings(2)));
    assert!(q.is_stale_for(&settings(3)));
    q.record_input(11, 101);
    let trace = q.enqueue(settings(2), 2).expect("a full window");
    assert_eq!(trace.start, 100);
    assert_eq!(trace.steps, vec![(10, 1), (11, 2)]);
    assert!(q.take_trace().is_none());
}

#[test]
fn full_updates_need_a_trace() {
    let (cfg, _) = online("cfg:hidden=64,train=sgd");
    let mut rt = OnlineRuntime::<u8>::new(cfg, "m".to_string(), None);
    assert_eq!(rt.before_update(&UpdatePlan::Full(settings(2))).err(), Some(NoTrace));
    assert!(rt.before_update(&UpdatePlan::Head).expect("no trace").is_none());
    assert!(rt.after_update(&UpdatePlan::Head, 3).is_none());
    assert!(rt.finish_stream().is_none());
    assert!(NoTrace.message().contains("trace-enabled"));
    assert!(need_full_adam(&settings(1), false));
    assert!(!need_full_adam(&settings(1), true));
    assert_eq!(effective_full_bptt(head_mask(true), 0), 1);
    assert_eq!(effective_full_bptt(TrainScopeMask::all(), 1), 8);
}

#[test]
fn scopes_become_masks() {
    let names = rwkv_scope_list();
    let policy = parse_policy_segment(
        "schedule=0..9:train(scope=ffn+head,opt=sgd,lr=0.1,stride=1,bptt=1,clip=0,momentum=0.9)",
        &names,
    )
    .expect("policy");
    let compiled = policy.compile(None).expect("compiled");
    match compiled.action_at(0) {
        infotheory::backends::policy_schedule::PolicyAction::Train(train) => {
            let mask = scope_from_train_action(&train);
            assert!(mask.ffn && mask.head);
            assert!(!mask.attn && !mask.bias);
        }
        _ => panic!("expected train"),
    }
}

#[test]
fn sidecars_bring_training_back() {
    let text = "schedule=0..9:train(scope=attn,opt=adam,lr=0.1,stride=1,bptt=2,clip=0,momentum=0.9)";
    let mut rt = policy_runtime(text);
    rt.prepare_policy_stream(Some(9)).expect("stream");
    rt.begin_update().expect("step");
    rt.begin_update().expect("step");
    let fields = rt.sidecar(true, 5);
    assert_eq!(fields.policy_cursor, Some(2));
    assert_eq!(fields.tokens_processed, Some(2));
    let missing = match fields.resume::<u8>("default", false, "/tmp/x.adam") {
        Err(e) => e,
        Ok(_) => panic!("expected a refusal"),
    };
    assert_eq!(
        missing.message(),
        "missing optimizer sidecar '/tmp/x.adam' required for exact online resume"
    );
    let mut again = fields
        .resume::<u8>("default", true, "/tmp/x.adam")
        .expect("resumed")
        .expect("a state");
    assert_eq!(again.tokens_processed, 2);
    assert_eq!(again.canonical_method, "m");
    again.resume_stream(2).expect("stream");
    assert_eq!(again.policy_runtime.as_ref().expect("schedule").cursor(), 2);
    assert_eq!(again.policy_train_steps, rt.policy_train_steps);
}

#[test]
fn canonical_methods_are_read_back() {
    let facts = |text: &str| match parse_method_spec(text, false).expect("method") {
        MethodSpec::File { path, policy } => (path, policy.map(|p| p.canonical())),
        MethodSpec::Online { cfg, policy } => {
            (cfg_to_method_string(&cfg), policy.map(|p| p.canonical()))
        }
    };
    let text = "cfg:hidden=64,lr=1e-3,train=adam,stride=3;policy:schedule=0..50%:train(scope=head+bias,lr=.5)|50%..100%:infer";
    let spec = parse_method_spec(text, false).expect("method");
    let canonical = canonical_method_string(&spec, &[]);
    assert_eq!(facts(&canonical), facts(text));
    let again = parse_method_spec(&canonical, false).expect("canonical method");
    assert_eq!(canonical_method_string(&again, &[]), canonical);

    let file = "file:/tmp/a%3Bb%25.safetensors;policy:schedule=0..9:infer";
    let spec = parse_method_spec(file, false).expect("method");
    let pieces = [
        PathPiece::RootDir,
        PathPiece::Normal("tmp".to_string()),
        PathPiece::Normal("a;b%.safetensors".to_string()),
    ];
    let canonical = canonical_method_string(&spec, &pieces);
    assert_eq!(canonical, file);
    assert_eq!(facts(&canonical).0, "/tmp/a;b%.safetensors");
}

#[test]
fn copies_of_a_runtime_go_on_alone() {
    let text = "schedule=0..1:infer|1..9:train(scope=attn,opt=adam,lr=0.1,stride=1,bptt=2,clip=0,momentum=0.9)";
    let mut runtime = policy_runtime(text);
    runtime.record_input(7, 70);
    let mut copy = runtime.clone();
    assert_eq!(copy.canonical_method, runtime.canonical_method);
    let (step, hit) = copy.begin_update().expect("a step");
    assert!(!step.scope.trains_any_params());
    assert!(!hit);
    assert_eq!(copy.tokens_processed, 1);
    assert_eq!(runtime.tokens_processed, 0);
    let (step, hit) = copy.begin_update().expect("a step");
    assert!(hit);
    let plan = plan_update(&step, hit, false, 1, 0);
    let trace = copy.after_update(&plan, 8);
    assert!(trace.is_none());
    let open = copy.finish_stream().expect("a trace");
    assert_eq!((open.start, open.steps.clone()), (70, vec![(7, 8)]));
    assert!(runtime.finish_stream().is_none());
}

const SIDECAR: &str = r#"{
    "version": 1,
    "method": "cfg:hidden=64",
    "policy": "schedule=0..9:infer",
    "policy_cursor": 4,
    "policy_stream_total": 9,
    "policy_train_steps": 2,
    "training_mode": "adam",
    "tokens_processed": 77,
    "adam_t": 6,
    "has_full_adam": false,
    "hidden": 1,
    "config": {
        "hidden": 128, "layers": 3, "intermediate": 256, "decay_rank": 8, "a_rank": 9,
        "v_rank": 10, "g_rank": 11, "seed": 12, "lr": 0.0125, "stride": 0
    },
    "output_bias": [0.5, 1]
}"#;

#[test]
fn sidecars_are_read_from_bytes() {
    let fields = sidecar_from_bytes(SIDECAR.as_bytes()).expect("fields");
    assert_eq!(fields.method.as_deref(), Some("cfg:hidden=64"));
    assert_eq!(fields.policy.as_deref(), Some("schedule=0..9:infer"));
    assert_eq!(fields.policy_cursor, Some(4));
    assert_eq!(fields.policy_stream_total, Some(9));
    assert_eq!(fields.policy_train_steps, Some(2));
    assert_eq!(fields.training_mode.as_deref(), Some("adam"));
    assert_eq!(fields.tokens_processed, Some(77));
    assert_eq!(fields.adam_t, Some(6));
    assert_eq!(fields.has_full_adam, Some(false));
    assert!(fields.has_output_bias);
    assert_eq!(fields.hidden, Some(128));
    assert_eq!(fields.layers, Some(3));
    assert_eq!(fields.intermediate, Some(256));
    assert_eq!(fields.decay_rank, Some(8));
    assert_eq!(fields.a_rank, Some(9));
    assert_eq!(fields.v_rank, Some(10));
    assert_eq!(fields.g_rank, Some(11));
    assert_eq!(fields.seed, Some(12));
    assert_eq!(fields.lr.as_deref(), Some("0.0125"));
    assert_eq!(fields.stride, Some(0));
}

#[test]
fn training_goes_on_from_the_bytes_of_a_sidecar() {
    let resumed = resume_from_bytes::<u8>(SIDECAR.as_bytes(), "default", false, "/tmp/x.adam")
        .expect("a state")
        .expect("an output bias");
    assert_eq!(resumed.cursor, Some(4));
    assert_eq!(resumed.adam_t, 6);
    let rt = resumed.runtime;
    assert_eq!(rt.canonical_method, "cfg:hidden=64");
    assert_eq!(rt.cfg.hidden, 128);
    assert_eq!(rt.cfg.layers, 3);
    assert_eq!(rt.cfg.seed, 12);
    assert_eq!(rt.cfg.stride, 1);
    assert_eq!(rt.cfg.lr, "0.0125");
    assert_eq!(rt.cfg.train_mode, OnlineTrainMode::Adam);
    assert_eq!(rt.policy_stream_total, Some(9));
    assert_eq!(rt.policy_train_steps, 2);
    assert_eq!(rt.tokens_processed, 77);
    assert!(rt.policy.is_some());

    let resume = |text: &str| resume_from_bytes::<u8>(text.as_bytes(), "default", false, "/x.adam");
    match resume("{\"method\"") {
        Err(e) => assert!(e.message().contains("EOF while parsing an object")),
        Ok(_) => panic!("expected a refusal"),
    }
    match resume("{\"output_bias\": [], \"has_full_adam\": true}") {
        Err(e) => assert_eq!(
            e.message(),
            "missing optimizer sidecar '/x.adam' required for exact online resume"
        ),
        Ok(_) => panic!("expected a refusal"),
    }
    assert!(matches!(resume("{\"output_bias\": 3}"), Ok(None)));
    assert!(matches!(resume("[1, 2]"), Ok(None)));
    let odd = "{\"output_bias\": [], \"method\": 3, \"tokens_processed\": -1, \"training_mode\": \"x\", \"policy\": \"x\", \"config\": {\"hidden\": 1.5, \"lr\": 2, \"seed\": \"4\"}}";
    let rt = resume(odd).ok().flatten().expect("a state").runtime;
    let (default, _) = online("cfg:hidden=256");
    assert_eq!(rt.canonical_method, "default");
    assert_eq!(rt.tokens_processed, 0);
    assert_eq!(rt.cfg.train_mode, OnlineTrainMode::Off);
    assert_eq!(rt.cfg.hidden, OnlineConfig::default().hidden);
    assert_eq!(rt.cfg.seed, default.seed);
    assert_eq!(rt.cfg.lr, "2");
    assert!(rt.policy.is_none());
}
