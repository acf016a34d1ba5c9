use volt::install::{dedup_packages, holds_token, store_dir, verify_tarball, InstallReport, InstallStep};
use volt::lockfile::DependencyID;
use volt::registry::VoltPackage;

fn pkg(name: &str, version: &str, tarball: &str) -> VoltPackage {
    VoltPackage {
        name: name.to_string(),
        version: version.to_string(),
        tarball: tarball.to_string(),
        bin: None,
        integrity: "sha256-abc".to_string(),
        peer_dependencies: None,
        dependencies: None,
    }
}

#[test]
fn duplicate_packages_install_once() {
    let set = dedup_packages(&vec![pkg("a", "1.0.0", "t1"), pkg("b", "1.0.0", "t2"), pkg("a", "1.0.0", "t1")]);
    assert_eq!(set.len(), 2);
    assert_eq!(set.iter().filter(|p| p.name == "a").count(), 1);
}

#[test]
fn dedup_keeps_versions_apart() {
    let set = dedup_packages(&vec![pkg("a", "1.0.0", "t1"), pkg("a", "2.0.0", "t2")]);
    assert_eq!(set.len(), 2);
}

#[test]
fn dedup_later_duplicate_wins() {
    let set = dedup_packages(&vec![pkg("a", "1.0.0", "t1"), pkg("a", "1.0.0", "t9")]);
    assert_eq!(set.len(), 1);
    assert_eq!(set[0].tarball, "t9");
}

#[test]
fn intact_tarball_verifies() {
    let data = b"package contents".to_vec();
    let sri = ssri::Integrity::from(&data).to_string();
    assert!(verify_tarball(&sri, &data).is_ok());
}

#[test]
fn corrupted_tarball_is_rejected() {
    let data = b"package contents".to_vec();
    let sri = ssri::Integrity::from(&data).to_string();
    let mut corrupted = data.clone();
    corrupted[3] ^= 0x01;
    assert_eq!(verify_tarball(&sri, &corrupted), Err(InstallStep::IntegrityMismatch));
}

#[test]
fn blank_or_malformed_integrity_is_rejected() {
    let data = b"x".to_vec();
    assert_eq!(verify_tarball(&"".to_string(), &data), Err(InstallStep::IntegrityMismatch));
    assert_eq!(verify_tarball(&"  \n".to_string(), &data), Err(InstallStep::IntegrityMismatch));
    assert_eq!(verify_tarball(&"nonsense".to_string(), &data), Err(InstallStep::IntegrityMismatch));
    assert!(!holds_token(" \t"));
    assert!(holds_token(" a "));
}

#[test]
fn store_dir_is_keyed_by_name_and_version() {
    assert_eq!(store_dir(&pkg("left-pad", "1.3.0", "t")), "left-pad@1.3.0");
    assert_eq!(store_dir(&pkg("@s/a", "2.0.0", "t")), "@s/a@2.0.0");
}

#[test]
fn report_keeps_every_outcome() {
    let outcomes = vec![
        (DependencyID("a".to_string(), "1.0.0".to_string()), Ok(())),
        (DependencyID("b".to_string(), "1.0.0".to_string()), Err(InstallStep::IntegrityMismatch)),
        (DependencyID("c".to_string(), "1.0.0".to_string()), Ok(())),
        (DependencyID("d".to_string(), "1.0.0".to_string()), Err(InstallStep::Download)),
    ];
    let report = InstallReport::summarize(&outcomes);
    assert!(!report.succeeded());
    let ok: Vec<String> = report.installed.iter().map(|d| d.0.clone()).collect();
    assert_eq!(ok, vec!["a".to_string(), "c".to_string()]);
    assert_eq!(report.failed.len(), 2);
    assert_eq!(report.failed[0].id.0, "b");
    assert_eq!(report.failed[0].step, InstallStep::IntegrityMismatch);
    assert_eq!(report.failed[1].step, InstallStep::Download);
}

#[test]
fn empty_batch_succeeds() {
    let report = InstallReport::summarize(&Vec::new());
    assert!(report.succeeded());
    assert!(report.installed.is_empty());
}
