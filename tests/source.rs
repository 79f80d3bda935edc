use cargo_lock_fetch::registry_aliases::RegistryAliases;
use cargo_lock_fetch::source::{
    registry_key_string, translate, DependencySpec, GitReference, SourceDescriptor,
    TranslateError,
};

fn fields(spec: &DependencySpec) -> Vec<(&str, &str)> {
    spec.fields.iter().map(|(k, v)| (k.as_str(), v.as_str())).collect()
}

#[test]
fn registry_source_pins_the_exact_version() {
    let mut aliases = RegistryAliases::new();
    let source = SourceDescriptor::Registry {
        endpoint: "https://github.com/rust-lang/crates.io-index".to_string(),
        sparse: false,
    };
    let t = translate("serde", &source, "1.2.3", &mut aliases).unwrap();
    assert_eq!(fields(&t.spec), vec![("version", "=1.2.3"), ("registry", "reg1")]);
    assert!(!t.spec.default_features);
    assert!(t.reproducible);
    assert_eq!(
        aliases.iter(),
        vec![(
            "reg1".to_string(),
            "registry+https://github.com/rust-lang/crates.io-index".to_string()
        )]
    );
}

#[test]
fn sparse_and_git_index_at_one_address_are_distinct() {
    let mut aliases = RegistryAliases::new();
    let git = SourceDescriptor::Registry { endpoint: "https://example.org/index".to_string(), sparse: false };
    let sparse = SourceDescriptor::Registry { endpoint: "https://example.org/index".to_string(), sparse: true };
    let a = translate("a", &git, "0.1.0", &mut aliases).unwrap();
    let b = translate("b", &sparse, "0.2.0", &mut aliases).unwrap();
    let c = translate("c", &git, "0.3.0", &mut aliases).unwrap();
    assert_eq!(fields(&a.spec)[1], ("registry", "reg1"));
    assert_eq!(fields(&b.spec)[1], ("registry", "reg2"));
    assert_eq!(fields(&c.spec)[1], ("registry", "reg1"));
    assert_eq!(aliases.len(), 2);
    assert_eq!(registry_key_string(&"https://example.org/index".to_string(), true), "sparse+https://example.org/index");
}

#[test]
fn precise_commit_wins_over_tag_and_branch() {
    let mut aliases = RegistryAliases::new();
    for reference in [
        GitReference::Tag("v1".to_string()),
        GitReference::Branch("main".to_string()),
        GitReference::Rev("abc".to_string()),
    ] {
        let source = SourceDescriptor::Git {
            repo: "https://github.com/o/r".to_string(),
            precise: Some("0123456789abcdef".to_string()),
            reference,
        };
        let t = translate("r", &source, "1.0.0", &mut aliases).unwrap();
        assert_eq!(fields(&t.spec), vec![("git", "https://github.com/o/r"), ("rev", "0123456789abcdef")]);
        assert!(!t.spec.default_features);
        assert!(t.reproducible);
    }
    assert_eq!(aliases.len(), 0);
}

#[test]
fn git_tag_and_rev_without_commit() {
    let mut aliases = RegistryAliases::new();
    let tag = SourceDescriptor::Git {
        repo: "https://g/x".to_string(),
        precise: None,
        reference: GitReference::Tag("v1".to_string()),
    };
    let rev = SourceDescriptor::Git {
        repo: "https://g/x".to_string(),
        precise: None,
        reference: GitReference::Rev("deadbeef".to_string()),
    };
    let t = translate("x", &tag, "1.0.0", &mut aliases).unwrap();
    assert_eq!(fields(&t.spec), vec![("git", "https://g/x"), ("tag", "v1")]);
    assert!(t.reproducible);
    let r = translate("x", &rev, "1.0.0", &mut aliases).unwrap();
    assert_eq!(fields(&r.spec), vec![("git", "https://g/x"), ("rev", "deadbeef")]);
    assert!(r.reproducible);
}

#[test]
fn git_branch_without_commit_is_flagged() {
    let mut aliases = RegistryAliases::new();
    let source = SourceDescriptor::Git {
        repo: "https://g/x".to_string(),
        precise: None,
        reference: GitReference::Branch("main".to_string()),
    };
    let t = translate("x", &source, "1.0.0", &mut aliases).unwrap();
    assert_eq!(fields(&t.spec), vec![("git", "https://g/x"), ("branch", "https://g/x")]);
    assert!(!t.spec.default_features);
    assert!(!t.reproducible);
}

#[test]
fn path_source_gives_path() {
    let mut aliases = RegistryAliases::new();
    let source = SourceDescriptor::Path { uri: "/src/local".to_string() };
    let t = translate("local", &source, "0.0.0", &mut aliases).unwrap();
    assert_eq!(fields(&t.spec), vec![("path", "/src/local")]);
    assert!(!t.spec.default_features);
}

#[test]
fn other_source_is_unsupported() {
    let mut aliases = RegistryAliases::new();
    let source = SourceDescriptor::Other { kind: "directory".to_string() };
    let e = translate("odd", &source, "0.1.0", &mut aliases).unwrap_err();
    assert_eq!(
        e,
        TranslateError::UnsupportedSource { name: "odd".to_string(), kind: "directory".to_string() }
    );
    assert_eq!(aliases.len(), 0);
}
