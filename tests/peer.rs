use volt::lockfile::{DependencyLock, LockFile};
use volt::peer::{check_peer_dependency, unmet_peers};
use volt::registry::VoltPackage;

fn installed() -> LockFile {
    let mut l = LockFile::new("volt.lock".to_string());
    for (n, v) in [("react", "17.0.2"), ("@types/node", "16.0.0")] {
        l.upsert(DependencyLock {
            name: n.to_string(),
            version: v.to_string(),
            tarball: String::new(),
            integrity: String::new(),
            dependencies: vec![],
        });
    }
    l
}

#[test]
fn peer_exact_version_met() {
    assert!(check_peer_dependency(&"react@17.0.2".to_string(), &installed()));
    assert!(check_peer_dependency(&"@types/node@16.0.0".to_string(), &installed()));
}

#[test]
fn peer_any_version_met() {
    assert!(check_peer_dependency(&"react".to_string(), &installed()));
    assert!(check_peer_dependency(&"react@*".to_string(), &installed()));
}

#[test]
fn peer_unmet() {
    assert!(!check_peer_dependency(&"react@18.0.0".to_string(), &installed()));
    assert!(!check_peer_dependency(&"vue".to_string(), &installed()));
    assert!(!check_peer_dependency(&"react@^17.0.0".to_string(), &installed()));
    assert!(!check_peer_dependency(&"a@1@2".to_string(), &installed()));
}

#[test]
fn unmet_peers_are_listed_per_package() {
    let p = VoltPackage {
        name: "react-dom".to_string(),
        version: "17.0.2".to_string(),
        tarball: String::new(),
        bin: None,
        integrity: String::new(),
        peer_dependencies: Some(vec!["react@17.0.2".to_string(), "scheduler@1.0.0".to_string()]),
        dependencies: None,
    };
    let q = VoltPackage { name: "x".to_string(), peer_dependencies: None, ..p.clone() };
    let unmet = unmet_peers(&vec![p, q], &installed());
    assert_eq!(unmet, vec![("react-dom".to_string(), "scheduler@1.0.0".to_string())]);
}
