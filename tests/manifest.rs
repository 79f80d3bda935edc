use cargo_lock_fetch::manifest::{
    dependencies_table, dependency_table, registries_config, with_dependencies, ManifestError,
};
use cargo_lock_fetch::source::DependencySpec;

fn spec(fields: &[(&str, &str)]) -> DependencySpec {
    DependencySpec {
        fields: fields.iter().map(|(k, v)| (k.to_string(), v.to_string())).collect(),
        default_features: false,
    }
}

#[test]
fn dependency_table_holds_fields_and_default_features() {
    let t = dependency_table(&spec(&[("version", "=1.2.3"), ("registry", "reg1")]));
    let keys: Vec<&str> = t.iter().map(|(k, _)| k).collect();
    assert_eq!(keys, vec!["version", "registry", "default-features"]);
    assert_eq!(t["version"].as_str(), Some("=1.2.3"));
    assert_eq!(t["registry"].as_str(), Some("reg1"));
    assert_eq!(t["default-features"].as_bool(), Some(false));
}

#[test]
fn dependencies_table_has_one_entry_per_name() {
    let entries = vec![
        ("serde".to_string(), spec(&[("version", "=1.0.0")])),
        ("left-pad".to_string(), spec(&[("git", "G"), ("tag", "v1")])),
    ];
    let t = dependencies_table(&entries);
    let keys: Vec<&str> = t.iter().map(|(k, _)| k).collect();
    assert_eq!(keys, vec!["serde", "left-pad"]);
    assert_eq!(t["left-pad"]["tag"].as_str(), Some("v1"));
}

#[test]
fn manifest_dependencies_are_replaced() {
    let manifest = "[package]\nname = \"batch1\"\nversion = \"0.1.0\"\n\n[dependencies]\nold = \"1\"\n";
    let entries = vec![("serde".to_string(), spec(&[("version", "=1.0.0"), ("registry", "reg1")]))];
    let doc = with_dependencies(manifest, &entries).unwrap();
    assert_eq!(doc["package"]["name"].as_str(), Some("batch1"));
    assert!(doc["dependencies"].get("old").is_none());
    assert_eq!(doc["dependencies"]["serde"]["version"].as_str(), Some("=1.0.0"));
    assert_eq!(doc["dependencies"]["serde"]["default-features"].as_bool(), Some(false));
    let text = doc.to_string();
    let reparsed: toml_edit::DocumentMut = text.parse().unwrap();
    assert_eq!(reparsed["dependencies"]["serde"]["registry"].as_str(), Some("reg1"));
}

#[test]
fn invalid_manifest_is_rejected() {
    let entries = vec![];
    assert_eq!(with_dependencies("[package\nname = ", &entries).unwrap_err(), ManifestError::InvalidToml);
}

#[test]
fn registries_config_maps_aliases_to_indexes() {
    let registries = vec![
        ("reg1".to_string(), "registry+R".to_string()),
        ("reg2".to_string(), "sparse+https://s".to_string()),
    ];
    let doc = toml_edit::DocumentMut::from(registries_config(&registries));
    assert_eq!(doc["registries"]["reg1"]["index"].as_str(), Some("registry+R"));
    assert_eq!(doc["registries"]["reg2"]["index"].as_str(), Some("sparse+https://s"));
    let reparsed: toml_edit::DocumentMut = doc.to_string().parse().unwrap();
    assert_eq!(reparsed["registries"]["reg2"]["index"].as_str(), Some("sparse+https://s"));
}
