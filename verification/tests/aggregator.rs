use cargo_attribution::metadata::{
    get_data, DependencyData, DependencyKind, PackageData, RootDependency,
};
use cargo_attribution::notices::DirEntryData;

fn package(name: &str, license: Option<&str>, is_root: bool) -> PackageData {
    PackageData {
        name: name.to_string(),
        version: "1.0.0".to_string(),
        authors: vec![format!("{name} author")],
        description: Some(format!("the {name} package")),
        repository: Some(format!("https://example.org/{name}")),
        homepage: Some(format!("https://example.org/{name}/home")),
        license: license.map(str::to_string),
        is_root,
        dir_entries: Some(vec![DirEntryData {
            name: "LICENSE".to_string(),
            is_dir: false,
            content: Some(format!("Copyright (c) 2020 {name} author\n")),
        }]),
    }
}

#[test]
fn new_copies_metadata_and_suppresses_duplicate_homepage() {
    let mut p = package("alpha", Some("MIT"), false);
    p.homepage = p.repository.clone();
    let d = DependencyData::new(&p);
    assert_eq!(d.name, "alpha");
    assert_eq!(d.version, "1.0.0");
    assert_eq!(d.homepage, None);
    assert_eq!(d.repository, p.repository);
    assert!(d.notices.is_empty() && d.licenses.is_empty() && d.exceptions.is_empty());

    let q = package("beta", Some("MIT"), false);
    let e = DependencyData::new(&q);
    assert_eq!(e.homepage, Some("https://example.org/beta/home".to_string()));
}

#[test]
fn absent_license_resolves_to_empty_lists_not_an_error() {
    let mut d = DependencyData::new(&package("gamma", None, false));
    let ok = d.get_parse_licenses();
    assert!(ok);
    assert_eq!(d.licenses, Vec::<String>::new());
    assert_eq!(d.exceptions, Vec::<String>::new());
}

#[test]
fn unparseable_license_reports_failure_and_leaves_record_unchanged() {
    let mut d = DependencyData::new(&package("delta", Some("not a license !!!"), false));
    let before = d.clone();
    let ok = d.get_parse_licenses();
    assert!(!ok);
    assert_eq!(d, before);
}

#[test]
fn root_package_is_routed_to_the_self_slot() {
    let packages = vec![
        package("alpha", Some("MIT"), false),
        package("myproject", Some("Apache-2.0"), true),
        package("beta", Some("MIT/Apache-2.0"), false),
    ];
    let (deps, me) = get_data(&packages, &Vec::new(), false);
    let names: Vec<String> = deps.iter().map(|d| d.name.clone()).collect();
    assert_eq!(names, vec!["alpha".to_string(), "beta".to_string()]);
    let me = me.expect("root should be aggregated");
    assert_eq!(me.name, "myproject");
    assert_eq!(me.licenses, vec!["Apache-2.0".to_string()]);
    assert_eq!(deps[1].licenses, vec!["Apache-2.0".to_string(), "MIT".to_string()]);
    assert_eq!(deps[0].notices, vec!["Copyright (c) 2020 alpha author".to_string()]);
}

#[test]
fn only_normal_filter_skips_packages_on_non_normal_root_edges() {
    let packages = vec![
        package("alpha", Some("MIT"), false),
        package("devtool", Some("MIT"), false),
    ];
    let roots = vec![
        RootDependency { name: "alpha".to_string(), kind: DependencyKind::Normal },
        RootDependency { name: "devtool".to_string(), kind: DependencyKind::Development },
    ];
    let (deps, _) = get_data(&packages, &roots, true);
    let names: Vec<String> = deps.iter().map(|d| d.name.clone()).collect();
    assert_eq!(names, vec!["alpha".to_string()]);

    let (unfiltered, _) = get_data(&packages, &roots, false);
    assert_eq!(unfiltered.len(), 2);
}

#[test]
fn normal_edge_keeps_a_package_a_dev_edge_also_names() {
    let packages = vec![package("dual", Some("MIT"), false)];
    let roots = vec![
        RootDependency { name: "dual".to_string(), kind: DependencyKind::Development },
        RootDependency { name: "dual".to_string(), kind: DependencyKind::Normal },
    ];
    let (deps, _) = get_data(&packages, &roots, true);
    let names: Vec<String> = deps.iter().map(|d| d.name.clone()).collect();
    assert_eq!(names, vec!["dual".to_string()]);
}

#[test]
fn unreadable_directory_skips_the_dependency() {
    let mut broken = package("broken", Some("MIT"), false);
    broken.dir_entries = None;
    let packages = vec![broken, package("fine", Some("MIT"), false)];
    let (deps, _) = get_data(&packages, &Vec::new(), false);
    let names: Vec<String> = deps.iter().map(|d| d.name.clone()).collect();
    assert_eq!(names, vec!["fine".to_string()]);
}

#[test]
fn unresolvable_license_skips_the_dependency() {
    let packages = vec![
        package("odd", Some("??no-such-grammar??"), false),
        package("fine", Some("MIT"), false),
    ];
    let (deps, _) = get_data(&packages, &Vec::new(), false);
    let names: Vec<String> = deps.iter().map(|d| d.name.clone()).collect();
    assert_eq!(names, vec!["fine".to_string()]);
}

#[test]
fn build_edges_also_count_as_non_normal() {
    let packages = vec![package("gen", Some("MIT"), false)];
    let roots = vec![RootDependency { name: "gen".to_string(), kind: DependencyKind::Build }];
    let (deps, _) = get_data(&packages, &roots, true);
    assert!(deps.is_empty());
}

#[test]
fn aggregation_is_deterministic_across_runs() {
    let build = || {
        vec![
            package("alpha", Some("MIT OR Apache-2.0"), false),
            package("root", Some("MIT"), true),
            package("zeta", Some("BSD-3-Clause"), false),
        ]
    };
    let (d1, s1) = get_data(&build(), &Vec::new(), false);
    let (d2, s2) = get_data(&build(), &Vec::new(), false);
    assert_eq!(d1, d2);
    assert_eq!(s1, s2);
}
