use cargo_attribution::licenses::{fetch_result, plan_downloads, FetchOutcome};
use cargo_attribution::metadata::{DependencyData, PackageData};
use cargo_attribution::notices::DirEntryData;

fn record(name: &str, licenses: &[&str], exceptions: &[&str]) -> DependencyData {
    let mut d = DependencyData::new(&PackageData {
        name: name.to_string(),
        version: "1.0.0".to_string(),
        authors: Vec::new(),
        description: None,
        repository: None,
        homepage: None,
        license: None,
        is_root: false,
        dir_entries: Some(Vec::<DirEntryData>::new()),
    });
    d.licenses = licenses.iter().map(|s| s.to_string()).collect();
    d.exceptions = exceptions.iter().map(|s| s.to_string()).collect();
    d
}

#[test]
fn shared_licenses_are_fetched_once() {
    let records = vec![
        record("a", &["MIT"], &[]),
        record("b", &["MIT"], &[]),
        record("c", &["Apache-2.0"], &[]),
    ];
    let plan = plan_downloads(&records, "out");
    assert_eq!(plan.licenses.len(), 2);
    assert_eq!(plan.licenses[0].name, "Apache-2.0");
    assert_eq!(plan.licenses[1].name, "MIT");
    assert!(plan.exceptions.is_empty());
}

#[test]
fn artifact_urls_and_paths_are_deterministic() {
    let records = vec![record("a", &["MIT"], &["LLVM-exception"])];
    let plan = plan_downloads(&records, "attribution");
    assert_eq!(
        plan.licenses[0].url,
        "https://raw.githubusercontent.com/spdx/license-list-data/main/text/MIT.txt"
    );
    assert_eq!(plan.licenses[0].path, "attribution/licenses/MIT");
    assert_eq!(
        plan.exceptions[0].url,
        "https://raw.githubusercontent.com/spdx/license-list-data/main/text/LLVM-exception.txt"
    );
    assert_eq!(plan.exceptions[0].path, "attribution/licenses/exceptions/LLVM-exception");
}

#[test]
fn planning_twice_yields_identical_plans() {
    let records =
        vec![record("a", &["Zlib", "MIT"], &[]), record("b", &["MIT"], &["LLVM-exception"])];
    let p1 = plan_downloads(&records, "out");
    let p2 = plan_downloads(&records, "out");
    assert_eq!(p1.licenses, p2.licenses);
    assert_eq!(p1.exceptions, p2.exceptions);
    assert_eq!(p1.licenses[0].name, "MIT");
    assert_eq!(p1.licenses[1].name, "Zlib");
}

#[test]
fn no_records_plan_no_retrievals() {
    let plan = plan_downloads(&Vec::new(), "out");
    assert!(plan.licenses.is_empty());
    assert!(plan.exceptions.is_empty());
}

#[test]
fn all_successful_tasks_make_the_batch_succeed() {
    let outcomes = vec![
        FetchOutcome { name: "MIT".to_string(), succeeded: true },
        FetchOutcome { name: "Zlib".to_string(), succeeded: true },
    ];
    assert!(fetch_result(&outcomes).is_ok());
    assert!(fetch_result(&Vec::new()).is_ok());
}

#[test]
fn one_failed_task_fails_the_whole_batch() {
    let outcomes = vec![
        FetchOutcome { name: "MIT".to_string(), succeeded: true },
        FetchOutcome { name: "Apache-2.0".to_string(), succeeded: false },
        FetchOutcome { name: "Zlib".to_string(), succeeded: true },
    ];
    let err = fetch_result(&outcomes).expect_err("one failure must fail the batch");
    assert_eq!(err.identifier, "Apache-2.0");
}
