use volt::registry::{interpret_reply, merge_responses, RegistryError, RegistryReply, VoltPackage, VoltResponse};

fn pkg(name: &str, version: &str, deps: &[&str]) -> VoltPackage {
    VoltPackage {
        name: name.to_string(),
        version: version.to_string(),
        tarball: format!("https://registry.example/{}-{}.tgz", name, version),
        bin: None,
        integrity: "sha256-abc".to_string(),
        peer_dependencies: None,
        dependencies: Some(deps.iter().map(|s| s.to_string()).collect()),
    }
}

fn response(tag: &str, packages: Vec<VoltPackage>) -> VoltResponse {
    VoltResponse { version: tag.to_string(), versions: vec![(tag.to_string(), packages)] }
}

#[test]
fn merge_keeps_two_versions_of_one_name() {
    let r1 = response("1.0.0", vec![pkg("a", "1.0.0", &["c"]), pkg("c", "1.0.0", &[])]);
    let r2 = response("2.0.0", vec![pkg("b", "2.0.0", &["c"]), pkg("c", "2.0.0", &[])]);
    let merged = merge_responses(&vec![r1, r2]).unwrap();
    assert_eq!(merged.len(), 4);
    let mut keys: Vec<(String, String)> =
        merged.iter().map(|p| (p.name.clone(), p.version.clone())).collect();
    keys.sort();
    assert_eq!(
        keys,
        vec![
            ("a".to_string(), "1.0.0".to_string()),
            ("b".to_string(), "2.0.0".to_string()),
            ("c".to_string(), "1.0.0".to_string()),
            ("c".to_string(), "2.0.0".to_string()),
        ]
    );
}

#[test]
fn merge_collapses_same_key() {
    let r1 = response("1.0.0", vec![pkg("a", "1.0.0", &["c"]), pkg("c", "1.0.0", &[])]);
    let r2 = response("3.0.0", vec![pkg("b", "3.0.0", &["c"]), pkg("c", "1.0.0", &[])]);
    let merged = merge_responses(&vec![r1, r2]).unwrap();
    assert_eq!(merged.len(), 3);
}

#[test]
fn merge_uses_only_requested_version() {
    let r = VoltResponse {
        version: "2.0.0".to_string(),
        versions: vec![
            ("1.0.0".to_string(), vec![pkg("a", "1.0.0", &[])]),
            ("2.0.0".to_string(), vec![pkg("a", "2.0.0", &[])]),
        ],
    };
    let merged = merge_responses(&vec![r]).unwrap();
    assert_eq!(merged.len(), 1);
    assert_eq!(merged[0].version, "2.0.0");
}

#[test]
fn merge_reports_missing_version() {
    let r = VoltResponse { version: "9.9.9".to_string(), versions: vec![("1.0.0".to_string(), vec![])] };
    assert!(matches!(merge_responses(&vec![r]), Err(RegistryError::MissingVersion)));
}

#[test]
fn merge_of_nothing_is_empty() {
    assert!(merge_responses(&Vec::new()).unwrap().is_empty());
}

#[test]
fn reply_interpretation() {
    assert!(matches!(interpret_reply(RegistryReply::Unreachable), Err(RegistryError::Network)));
    assert!(matches!(
        interpret_reply(RegistryReply::Answered { status: 404, body: None }),
        Ok(None)
    ));
    assert!(matches!(
        interpret_reply(RegistryReply::Answered { status: 200, body: None }),
        Err(RegistryError::Decode)
    ));
    let ok = interpret_reply(RegistryReply::Answered {
        status: 200,
        body: Some(response("1.0.0", vec![pkg("a", "1.0.0", &[])])),
    });
    assert_eq!(ok.unwrap().unwrap().version, "1.0.0");
    assert!(matches!(
        interpret_reply(RegistryReply::Answered { status: 500, body: None }),
        Err(RegistryError::Decode)
    ));
}
