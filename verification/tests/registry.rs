//! Names of backends, and what can be asked of a description.

use infotheory::api::types::{CompressionBackend, FramingMode, PathFacts, RateBackend};
use infotheory::backends::registry::{
    available_compression_backends, available_rate_backends, compression_backend_method_string,
    compression_backend_method_string_compiled, compression_backend_registry,
    normalize_file_roundtrip_backend, normalize_file_roundtrip_compiled_backend, parse_rate_coder,
    parse_rwkv7_coder, rate_backend_method_string, rate_backend_method_string_compiled,
    rate_backend_registry, resolve_compression_backend_name, resolve_rate_backend_name,
    BackendAvailability, MethodBackendFamily,
};
use infotheory::coders::CoderType;

fn no_facts() -> PathFacts {
    PathFacts {
        plain_exists: false,
        foreign: None,
    }
}

#[test]
fn resolve_rate_backend_name_canonicalizes_aliases() {
    let rosa = BackendAvailability::Enabled("rosaplus");
    let fac_ctw = BackendAvailability::Disabled {
        canonical: "fac-ctw",
        feature: "backend-ctw",
    };
    let mixture = BackendAvailability::Disabled {
        canonical: "mixture",
        feature: "backend-mixture",
    };
    let sequitur = BackendAvailability::Disabled {
        canonical: "sequitur",
        feature: "backend-sequitur",
    };

    assert_eq!(resolve_rate_backend_name("  Rosa  "), Some(rosa));
    assert_eq!(resolve_rate_backend_name("facctw"), Some(fac_ctw));
    assert_eq!(resolve_rate_backend_name("mix"), Some(mixture));
    assert_eq!(resolve_rate_backend_name("sequitur"), Some(sequitur));
    assert_eq!(resolve_rate_backend_name("unknown"), None);
}

#[test]
fn resolve_rate_backend_name_reports_feature_disabled() {
    assert_eq!(
        resolve_rate_backend_name("zpaq"),
        Some(BackendAvailability::Enabled("zpaq"))
    );
    assert_eq!(
        resolve_rate_backend_name("rwkv7"),
        Some(BackendAvailability::Enabled("rwkv7"))
    );
    assert_eq!(
        resolve_rate_backend_name("mamba"),
        Some(BackendAvailability::Disabled {
            canonical: "mamba",
            feature: "backend-mamba",
        })
    );
}

#[test]
fn resolve_compression_backend_name_canonicalizes_aliases() {
    assert_eq!(resolve_compression_backend_name("unknown"), None);
    assert_eq!(
        resolve_compression_backend_name("zpaq"),
        Some(BackendAvailability::Enabled("zpaq"))
    );
    assert_eq!(
        resolve_compression_backend_name("rate_ac"),
        Some(BackendAvailability::Enabled("rate-ac"))
    );
    assert_eq!(
        resolve_compression_backend_name("raterans"),
        Some(BackendAvailability::Enabled("rate-rans"))
    );
    assert_eq!(
        resolve_compression_backend_name("rwkv"),
        Some(BackendAvailability::Enabled("rwkv7"))
    );
}

#[test]
fn available_backend_lists_track_runtime_registry() {
    assert_eq!(
        available_rate_backends(),
        rate_backend_registry()
            .iter()
            .filter(|descriptor| descriptor.enabled)
            .map(|descriptor| descriptor.canonical)
            .collect::<Vec<_>>()
    );
    assert_eq!(
        available_compression_backends(),
        compression_backend_registry()
            .iter()
            .filter(|descriptor| descriptor.enabled)
            .map(|descriptor| descriptor.canonical)
            .collect::<Vec<_>>()
    );
    assert!(available_rate_backends().contains(&"rosaplus"));
}

#[test]
fn normalize_file_roundtrip_backend_forces_framed_rate_payloads() {
    let rate = CompressionBackend::Rate {
        rate_backend: RateBackend::Ctw { depth: 8 },
        coder: CoderType::RANS,
        framing: FramingMode::Raw,
    };
    let normalized = normalize_file_roundtrip_backend(&rate);
    match normalized {
        CompressionBackend::Rate {
            rate_backend: RateBackend::Ctw { depth },
            coder,
            framing,
        } => {
            assert_eq!(depth, 8);
            assert_eq!(coder, CoderType::RANS);
            assert_eq!(framing, FramingMode::Framed);
        }
        _ => panic!("expected normalized rate backend"),
    }

    let zpaq = CompressionBackend::Zpaq {
        method: "5".to_string(),
    };
    match normalize_file_roundtrip_backend(&zpaq) {
        CompressionBackend::Zpaq { method } => assert_eq!(method, "5"),
        _ => panic!("expected zpaq backend to remain unchanged"),
    }
}

#[test]
fn normalize_file_roundtrip_compiled_backend_forces_framed_rate_payloads() {
    let rate = CompressionBackend::Rate {
        rate_backend: RateBackend::try_default(),
        coder: CoderType::RANS,
        framing: FramingMode::Raw,
    }
    .compile(&no_facts())
    .expect("compiled rate backend");
    let normalized = normalize_file_roundtrip_compiled_backend(&rate);
    match normalized.canonical_spec() {
        CompressionBackend::Rate { coder, framing, .. } => {
            assert_eq!(*coder, CoderType::RANS);
            assert_eq!(*framing, FramingMode::Framed);
        }
        _ => panic!("expected normalized compiled rate backend"),
    }

    let zpaq = CompressionBackend::Zpaq {
        method: "5".to_string(),
    }
    .compile(&no_facts())
    .expect("compiled zpaq");
    match normalize_file_roundtrip_compiled_backend(&zpaq).canonical_spec() {
        CompressionBackend::Zpaq { method } => assert_eq!(method, "5"),
        _ => panic!("expected compiled zpaq backend to remain unchanged"),
    }
}

#[test]
fn compiled_method_string_helpers_reuse_compiled_specs() {
    let method = "cfg:hidden=64,layers=1,intermediate=64,decay_rank=8,a_rank=8,v_rank=8,g_rank=8,seed=11,train=none,lr=0.0,stride=1;policy:schedule=0..100:infer";
    let rate = RateBackend::Rwkv7Method {
        method: method.to_string(),
    }
    .compile(&no_facts())
    .expect("compiled rwkv rate backend");
    let canonical_rate = match rate.canonical_spec() {
        RateBackend::Rwkv7Method { method } => method,
        _ => panic!("expected canonical rwkv7 rate backend"),
    };
    assert_eq!(
        rate_backend_method_string_compiled(&rate, MethodBackendFamily::Rwkv7),
        Some(canonical_rate.as_str())
    );

    let compression = CompressionBackend::Rwkv7 {
        method: method.to_string(),
        coder: CoderType::AC,
    }
    .compile(&no_facts())
    .expect("compiled rwkv compression backend");
    let canonical_compression = match compression.canonical_spec() {
        CompressionBackend::Rwkv7 { method, .. } => method,
        _ => panic!("expected canonical rwkv7 compression backend"),
    };
    assert_eq!(
        compression_backend_method_string_compiled(&compression, MethodBackendFamily::Rwkv7),
        Some(canonical_compression.as_str())
    );
}

#[test]
fn parse_rwkv7_coder_accepts_common_aliases() {
    assert_eq!(parse_rwkv7_coder("ac"), Some(CoderType::AC));
    assert_eq!(parse_rwkv7_coder("AC"), Some(CoderType::AC));
    assert_eq!(parse_rwkv7_coder("rans"), Some(CoderType::RANS));
    assert_eq!(parse_rwkv7_coder("RANS"), Some(CoderType::RANS));
    assert_eq!(parse_rwkv7_coder("nope"), None);
    assert_eq!(parse_rate_coder("rANS"), Some(CoderType::RANS));
    assert_eq!(parse_rate_coder("Ac"), None);
}

#[test]
fn methods_belong_to_families() {
    let mamba = RateBackend::MambaMethod {
        method: "cfg:x".to_string(),
    };
    assert_eq!(rate_backend_method_string(&mamba, MethodBackendFamily::Mamba), None);
    assert_eq!(rate_backend_method_string(&mamba, MethodBackendFamily::Rwkv7), None);
    let rate = RateBackend::Rwkv7Method {
        method: "cfg:y".to_string(),
    };
    assert_eq!(
        rate_backend_method_string(&rate, MethodBackendFamily::Rwkv7),
        Some("cfg:y")
    );
    assert_eq!(rate_backend_method_string(&rate, MethodBackendFamily::Mamba), None);
    let wrapped = CompressionBackend::Rate {
        rate_backend: rate,
        coder: CoderType::AC,
        framing: FramingMode::Raw,
    };
    assert_eq!(
        compression_backend_method_string(&wrapped, MethodBackendFamily::Rwkv7),
        Some("cfg:y")
    );
    assert_eq!(
        compression_backend_method_string(&wrapped, MethodBackendFamily::Mamba),
        None
    );
    let again = normalize_file_roundtrip_backend(&normalize_file_roundtrip_backend(&wrapped));
    assert!(matches!(again, CompressionBackend::Rate { framing: FramingMode::Framed, .. }));
}
