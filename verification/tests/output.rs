use cargo_attribution::metadata::{DependencyData, PackageData};
use cargo_attribution::notices::DirEntryData;
use cargo_attribution::serialize::{format_toml, DependencySerialized, SelfSerialized};

fn record(name: &str) -> DependencyData {
    DependencyData::new(&PackageData {
        name: name.to_string(),
        version: "0.1.0".to_string(),
        authors: Vec::new(),
        description: None,
        repository: None,
        homepage: None,
        license: Some("MIT".to_string()),
        is_root: false,
        dir_entries: Some(Vec::<DirEntryData>::new()),
    })
}

#[test]
fn dependency_file_is_named_after_the_collection() {
    let s = DependencySerialized::new(vec![record("alpha")], "dependencies".to_string());
    assert_eq!(s.output_file_name(), "dependencies.toml");
    assert_eq!(s.file_name(), "dependencies");
    assert_eq!(s.dependencies().len(), 1);
    assert_eq!(s.dependencies()[0].name, "alpha");
}

#[test]
fn self_file_is_named_after_its_key() {
    let s = SelfSerialized::new(record("myproject"), "self".to_string());
    assert_eq!(s.output_file_name(), "self.toml");
    assert_eq!(s.file_name(), "self");
    assert_eq!(s.self_crate().name, "myproject");
}

#[test]
fn format_toml_normalizes_spacing() {
    let raw = "title   =   \"x\"\n";
    let formatted = format_toml(raw);
    assert_ne!(formatted, raw);
    assert!(formatted.contains("title = \"x\""));
}

#[test]
fn format_toml_is_deterministic() {
    let raw = "[table]\nkey= 1\n";
    assert_eq!(format_toml(raw), format_toml(raw));
}
