use volt::add::{Add, AddState, Info};
use volt::install::dedup_packages;
use volt::lockfile::{record_resolved, DependencyID, LockFile, StoredLock};
use volt::registry::{merge_responses, VoltPackage, VoltResponse};
use volt::specifier::parse_versions;

#[test]
fn states_advance_in_order() {
    let mut s = AddState::ParsingInput;
    let mut seen = vec![s];
    while s != AddState::Done {
        s = Add::next(s, true);
        seen.push(s);
    }
    assert_eq!(seen.len(), 8);
    assert_eq!(seen[1], AddState::FetchingTree);
    assert_eq!(seen[5], AddState::Installing);
    assert_eq!(seen[6], AddState::UpdatingManifest);
}

#[test]
fn failure_short_circuits() {
    assert_eq!(Add::next(AddState::FetchingTree, false), AddState::Failed);
    assert_eq!(Add::next(AddState::Failed, true), AddState::Failed);
    assert_eq!(Add::next(AddState::Done, false), AddState::Done);
}

#[test]
fn duplicate_request_fetched_once() {
    let refs = parse_versions(&vec!["a".to_string(), "a".to_string()]);
    let reqs = Add::distinct_requests(&refs);
    assert_eq!(reqs.len(), 1);
    assert_eq!(reqs[0].name, "a");
    let tree = vec![VoltPackage {
        name: "a".to_string(),
        version: "1.0.0".to_string(),
        tarball: "t".to_string(),
        bin: None,
        integrity: "sha256-x".to_string(),
        peer_dependencies: None,
        dependencies: None,
    }];
    let r = VoltResponse { version: "1.0.0".to_string(), versions: vec![("1.0.0".to_string(), tree)] };
    let merged = merge_responses(&vec![r.clone(), r]).unwrap();
    assert_eq!(dedup_packages(&merged).len(), 1);
}

#[test]
fn distinct_requests_keep_versions_apart() {
    let refs = parse_versions(&vec!["a@1".to_string(), "a@2".to_string(), "a@1".to_string(), "b".to_string()]);
    let reqs = Add::distinct_requests(&refs);
    let got: Vec<(String, Option<String>)> = reqs.iter().map(|p| (p.name.clone(), p.version.clone())).collect();
    assert_eq!(
        got,
        vec![
            ("a".to_string(), Some("1".to_string())),
            ("a".to_string(), Some("2".to_string())),
            ("b".to_string(), None),
        ]
    );
}

#[test]
fn adding_left_pad_end_to_end() {
    let refs = Add::distinct_requests(&parse_versions(&vec!["left-pad".to_string()]));
    assert_eq!(refs.len(), 1);
    assert_eq!(refs[0].name, "left-pad");
    assert!(refs[0].version.is_none());
    let tree = vec![VoltPackage {
        name: "left-pad".to_string(),
        version: "1.3.0".to_string(),
        tarball: "https://registry.example/left-pad-1.3.0.tgz".to_string(),
        bin: None,
        integrity: "sha512-x".to_string(),
        peer_dependencies: None,
        dependencies: None,
    }];
    let r = VoltResponse { version: "1.3.0".to_string(), versions: vec![("1.3.0".to_string(), tree)] };
    let merged = merge_responses(&vec![r]).unwrap();
    let set = dedup_packages(&merged);
    let mut local = LockFile::load("volt.lock".to_string(), StoredLock::Missing).unwrap();
    let mut global = LockFile::load(".global.lock".to_string(), StoredLock::Missing).unwrap();
    record_resolved(&mut local, &mut global, &set);
    let key = DependencyID("left-pad".to_string(), "1.3.0".to_string());
    assert_eq!(local.dependencies.len(), 1);
    assert_eq!(global.dependencies.len(), 1);
    assert!(local.contains(&key));
    assert!(global.contains(&key));
    assert_eq!(set.len(), 1);
}

#[test]
fn info_target_from_arguments() {
    let args = vec!["info".to_string(), "react".to_string(), "readme".to_string()];
    let (name, field) = Info::target(&args, true, &"proj".to_string());
    assert_eq!((name.as_str(), field.as_str()), ("react", "readme"));
    let (name, field) = Info::target(&vec!["info".to_string()], false, &"proj".to_string());
    assert_eq!((name.as_str(), field.as_str()), ("proj", ""));
    let (name, _) = Info::target(&vec!["info".to_string()], true, &"proj".to_string());
    assert_eq!(name, "");
}

#[test]
fn info_readme_choice() {
    let own = Some("# Own".to_string());
    let latest = Some("# Latest".to_string());
    assert_eq!(Info::readme_text(&own, &latest), Some("# Own".to_string()));
    assert_eq!(Info::readme_text(&Some("  \n".to_string()), &latest), Some("# Latest".to_string()));
    assert_eq!(Info::readme_text(&None, &None), None);
    assert_eq!(Info::readme_text(&Some(" ".to_string()), &Some(String::new())), None);
}
