use volt::lockfile::{record_resolved, upsert_both, DependencyID, DependencyLock, LockError, LockFile, StoredLock};
use volt::registry::VoltPackage;

fn lock(name: &str, version: &str, tarball: &str) -> DependencyLock {
    DependencyLock {
        name: name.to_string(),
        version: version.to_string(),
        tarball: tarball.to_string(),
        integrity: "sha256-abc".to_string(),
        dependencies: vec!["dep".to_string()],
    }
}

fn id(name: &str, version: &str) -> DependencyID {
    DependencyID(name.to_string(), version.to_string())
}

#[test]
fn upsert_twice_is_upsert_once() {
    let mut l = LockFile::new("volt.lock".to_string());
    l.upsert(lock("a", "1.0.0", "t1"));
    let once = l.entries().len();
    l.upsert(lock("a", "1.0.0", "t1"));
    assert_eq!(once, 1);
    assert_eq!(l.entries().len(), 1);
    assert_eq!(l.dependencies[0].tarball, "t1");
}

#[test]
fn upsert_overwrites_same_key() {
    let mut l = LockFile::new("volt.lock".to_string());
    l.upsert(lock("a", "1.0.0", "t1"));
    l.upsert(lock("a", "2.0.0", "t2"));
    l.upsert(lock("a", "1.0.0", "t3"));
    assert_eq!(l.dependencies.len(), 2);
    let e = l.dependencies.iter().find(|e| e.version == "1.0.0").unwrap();
    assert_eq!(e.tarball, "t3");
}

#[test]
fn missing_lockfile_loads_empty() {
    let l = LockFile::load("/nonexistent/volt.lock".to_string(), StoredLock::Missing).unwrap();
    assert_eq!(l.path, "/nonexistent/volt.lock");
    assert!(l.dependencies.is_empty());
}

#[test]
fn unreadable_lockfile_is_an_error() {
    let r = LockFile::load("volt.lock".to_string(), StoredLock::Unreadable);
    assert!(matches!(r, Err(LockError::Io)));
}

#[test]
fn persist_then_load_round_trips() {
    let mut l = LockFile::new("volt.lock".to_string());
    l.upsert(lock("a", "1.0.0", "t1"));
    l.upsert(lock("b", "2.0.0", "t2"));
    let reloaded = LockFile::load(l.path.clone(), StoredLock::Entries(l.entries())).unwrap();
    assert_eq!(reloaded.path, l.path);
    assert_eq!(reloaded.dependencies.len(), 2);
    assert!(reloaded.contains(&id("a", "1.0.0")));
    assert!(reloaded.contains(&id("b", "2.0.0")));
    assert!(!reloaded.contains(&id("a", "2.0.0")));
}

#[test]
fn loading_duplicates_keeps_last() {
    let l = LockFile::load(
        "volt.lock".to_string(),
        StoredLock::Entries(vec![lock("a", "1.0.0", "t1"), lock("a", "1.0.0", "t2")]),
    )
    .unwrap();
    assert_eq!(l.dependencies.len(), 1);
    assert_eq!(l.dependencies[0].tarball, "t2");
}

#[test]
fn both_lockfiles_get_the_entry() {
    let mut local = LockFile::new("volt.lock".to_string());
    let mut global = LockFile::new(".global.lock".to_string());
    global.upsert(lock("z", "0.1.0", "tz"));
    upsert_both(&mut local, &mut global, lock("a", "1.0.0", "t1"));
    assert!(local.contains(&id("a", "1.0.0")));
    assert!(global.contains(&id("a", "1.0.0")));
    assert!(global.contains(&id("z", "0.1.0")));
    assert!(!local.contains(&id("z", "0.1.0")));
}

#[test]
fn record_resolved_drops_peer_and_bin_data() {
    let p = VoltPackage {
        name: "a".to_string(),
        version: "1.0.0".to_string(),
        tarball: "t".to_string(),
        bin: None,
        integrity: "sha256-x".to_string(),
        peer_dependencies: Some(vec!["react@17.0.0".to_string()]),
        dependencies: None,
    };
    let mut local = LockFile::new("volt.lock".to_string());
    let mut global = LockFile::new(".global.lock".to_string());
    record_resolved(&mut local, &mut global, &vec![p]);
    assert_eq!(local.dependencies.len(), 1);
    assert_eq!(global.dependencies.len(), 1);
    assert!(local.dependencies[0].dependencies.is_empty());
    assert_eq!(global.dependencies[0].integrity, "sha256-x");
}
