use cargo_lock_fetch::assembly::{assemble, AssemblyError, Package};
use cargo_lock_fetch::source::{DependencySpec, GitReference, SourceDescriptor};

fn registry(endpoint: &str) -> Option<SourceDescriptor> {
    Some(SourceDescriptor::Registry { endpoint: endpoint.to_string(), sparse: false })
}

fn package(name: &str, version: &str, source: Option<SourceDescriptor>) -> Package {
    Package { name: name.to_string(), version: version.to_string(), source }
}

fn entry(name: &str, fields: &[(&str, &str)]) -> (String, DependencySpec) {
    (
        name.to_string(),
        DependencySpec {
            fields: fields.iter().map(|(k, v)| (k.to_string(), v.to_string())).collect(),
            default_features: false,
        },
    )
}

fn lockfile() -> Vec<Package> {
    vec![
        package("serde", "1.0.0", registry("R")),
        package("serde", "2.0.0", registry("R")),
        package(
            "left-pad",
            "1.0.0",
            Some(SourceDescriptor::Git {
                repo: "G".to_string(),
                precise: None,
                reference: GitReference::Tag("v1".to_string()),
            }),
        ),
    ]
}

#[test]
fn end_to_end_two_batches_one_registry() {
    let a = assemble(lockfile()).unwrap();
    assert_eq!(a.batches.len(), 2);
    assert_eq!(a.batches[0].name, "batch1");
    assert_eq!(
        a.batches[0].dependencies,
        vec![
            entry("left-pad", &[("git", "G"), ("tag", "v1")]),
            entry("serde", &[("version", "=1.0.0"), ("registry", "reg1")]),
        ]
    );
    assert_eq!(a.batches[1].name, "batch2");
    assert_eq!(
        a.batches[1].dependencies,
        vec![entry("serde", &[("version", "=2.0.0"), ("registry", "reg1")])]
    );
    let reg = vec![("reg1".to_string(), "registry+R".to_string())];
    assert_eq!(a.registries, reg);
    assert_eq!(a.batches[0].registries, reg);
    assert_eq!(a.batches[1].registries, reg);
    assert_eq!(
        a.root_dependencies,
        vec![entry("batch1", &[("path", "batch1")]), entry("batch2", &[("path", "batch2")])]
    );
    assert!(a.unsourced.is_empty());
    assert!(a.batches[0].unpinned.is_empty());
}

#[test]
fn assembling_twice_gives_the_same_plan() {
    assert_eq!(assemble(lockfile()), assemble(lockfile()));
}

#[test]
fn empty_lockfile_gives_no_batches() {
    let a = assemble(vec![]).unwrap();
    assert!(a.batches.is_empty());
    assert!(a.root_dependencies.is_empty());
    assert!(a.registries.is_empty());
}

#[test]
fn packages_without_source_are_left_out_and_reported() {
    let a = assemble(vec![
        package("app", "0.1.0", None),
        package("serde", "1.0.0", registry("R")),
        package("tool", "0.2.0", None),
    ])
    .unwrap();
    assert_eq!(a.unsourced, vec!["app".to_string(), "tool".to_string()]);
    assert_eq!(a.batches.len(), 1);
    assert_eq!(a.batches[0].dependencies.len(), 1);
    assert_eq!(a.batches[0].dependencies[0].0, "serde");
}

#[test]
fn registries_accumulate_over_batches() {
    let a = assemble(vec![
        package("a", "1.0.0", registry("R")),
        package("a", "2.0.0", registry("S")),
        package("b", "1.0.0", Some(SourceDescriptor::Registry { endpoint: "R".to_string(), sparse: true })),
    ])
    .unwrap();
    assert_eq!(
        a.batches[0].registries,
        vec![("reg1".to_string(), "registry+R".to_string()), ("reg2".to_string(), "sparse+R".to_string())]
    );
    assert_eq!(a.batches[1].dependencies, vec![entry("a", &[("version", "=2.0.0"), ("registry", "reg3")])]);
    assert_eq!(a.registries.len(), 3);
    assert_eq!(a.registries[2], ("reg3".to_string(), "registry+S".to_string()));
}

#[test]
fn branch_packages_are_listed_as_unpinned() {
    let a = assemble(vec![package(
        "x",
        "1.0.0",
        Some(SourceDescriptor::Git {
            repo: "G".to_string(),
            precise: None,
            reference: GitReference::Branch("main".to_string()),
        }),
    )])
    .unwrap();
    assert_eq!(a.batches[0].unpinned, vec!["x".to_string()]);
}

#[test]
fn unsupported_source_names_batch_and_package() {
    let e = assemble(vec![
        package("a", "1.0.0", registry("R")),
        package("a", "2.0.0", Some(SourceDescriptor::Other { kind: "directory".to_string() })),
        package("b", "1.0.0", Some(SourceDescriptor::Other { kind: "local-registry".to_string() })),
    ])
    .unwrap_err();
    assert_eq!(
        e,
        AssemblyError::UnsupportedSource {
            batch: 1,
            name: "b".to_string(),
            kind: "local-registry".to_string()
        }
    );
}
