//! Method strings and the paths in them.

use infotheory::backends::llm_policy::parse_policy_segment;
use infotheory::backends::method_path::{
    canonical_file_method_string, parse_method_file_path, path_pieces, render_method_file_path,
    split_method_policy_segments, PathPiece,
};
use infotheory::backends::policy_error::PolicyErrorKind;

fn name(text: &str) -> PathPiece {
    PathPiece::Normal(text.to_string())
}

#[test]
fn split_method_policy() {
    let (base, pol) = split_method_policy_segments("cfg:hidden=64;policy:schedule=0..100:infer")
        .expect("split");
    assert_eq!(base, "cfg:hidden=64");
    assert_eq!(pol.as_deref(), Some("schedule=0..100:infer"));
}

#[test]
fn split_method_policy_preserves_file_path_semicolons() {
    let (base, pol) =
        split_method_policy_segments("file:/tmp/model;v1.safetensors").expect("split");
    assert_eq!(base, "file:/tmp/model;v1.safetensors");
    assert_eq!(pol, None);
}

#[test]
fn method_file_path_roundtrips_reserved_delimiters() {
    let pieces = vec![
        PathPiece::RootDir,
        name("tmp"),
        name("model;policy:v1%done.safetensors"),
    ];
    let rendered = render_method_file_path(&pieces);
    assert_eq!(rendered, "/tmp/model%3Bpolicy:v1%25done.safetensors");
    assert_eq!(
        parse_method_file_path(&rendered),
        "/tmp/model;policy:v1%done.safetensors"
    );
}

#[test]
fn method_file_path_preserves_unowned_percent_sequences() {
    let path = "/tmp/model%2Fv1.safetensors";
    assert_eq!(parse_method_file_path(path), path);
}

#[test]
fn method_file_path_preserves_literal_backslashes_in_unix_components() {
    let pieces = vec![name(r"weights\model;snap%done.safetensors")];
    let rendered = render_method_file_path(&pieces);
    assert_eq!(rendered, r"weights\model%3Bsnap%25done.safetensors");
}

#[test]
fn split_method_policy_rejects_ambiguous_file_suffixes() {
    let err = split_method_policy_segments("file:/tmp/model;polciy:train").unwrap_err();
    assert!(err
        .message()
        .contains("ambiguous file method segment ';polciy:'"));
}

#[test]
fn split_refusals_name_their_reason() {
    let kind = |text: &str| split_method_policy_segments(text).expect_err("a refusal").kind;
    assert_eq!(kind("  "), PolicyErrorKind::EmptyMethod);
    assert_eq!(kind(";policy:schedule=0..1:infer"), PolicyErrorKind::MissingBase);
    assert_eq!(kind("cfg:a=1;policy:x;policy:y"), PolicyErrorKind::DuplicatePolicy);
    assert_eq!(kind("cfg:a=1;plan:x"), PolicyErrorKind::UnknownMethodSegment);
}

#[test]
fn every_component_is_separated_by_a_slash() {
    let pieces = vec![name("a"), PathPiece::ParentDir, PathPiece::ParentDir, name("c")];
    assert_eq!(render_method_file_path(&pieces), "a/../../c");
    let rooted = vec![PathPiece::RootDir, PathPiece::ParentDir, name("c")];
    assert_eq!(render_method_file_path(&rooted), "/../c");
    let here = vec![PathPiece::CurDir, PathPiece::ParentDir];
    assert_eq!(render_method_file_path(&here), "./..");
}

#[test]
fn canonical_file_method_carries_its_policy() {
    let policy = parse_policy_segment("schedule=0..100:infer", &["head"]).expect("policy");
    let pieces = vec![PathPiece::ParentDir, name("a;b"), name("c")];
    assert_eq!(canonical_file_method_string(&pieces, None), "file:../a%3Bb/c");
    assert_eq!(
        canonical_file_method_string(&pieces, Some(&policy)),
        "file:../a%3Bb/c;policy:schedule=0..100:infer"
    );
}

#[test]
fn paths_are_cut_at_slashes() {
    for path in [
        "", ".", "..", "/", "//", "/.", "./", "a", "/a/b", "a//b/", "./a/./b/.", "../a/..", "a/.b/..c",
        "a\\b/c", "/./a", "a;b/%c",
    ] {
        let expected: Vec<String> = std::path::Path::new(path)
            .components()
            .map(|c| format!("{:?}", c))
            .collect();
        let found: Vec<String> = path_pieces(path).iter().map(|p| format!("{:?}", p)).collect();
        assert_eq!(found, expected, "{}", path);
    }
    assert_eq!(render_method_file_path(&path_pieces("./a//b/./c;d/")), "./a/b/c%3Bd");
}
