use volt::specifier::{parse_one, parse_versions, trim, Package};

fn strings(v: &[&str]) -> Vec<String> {
    v.iter().map(|s| s.to_string()).collect()
}

fn pair(p: &Package) -> (String, Option<String>) {
    (p.name.clone(), p.version.clone())
}

#[test]
fn parses_plain_name() {
    let r = parse_versions(&strings(&["a"]));
    assert_eq!(r.len(), 1);
    assert_eq!(pair(&r[0]), ("a".to_string(), None));
}

#[test]
fn parses_name_with_version() {
    let r = parse_versions(&strings(&["a@1.0.0"]));
    assert_eq!(r.len(), 1);
    assert_eq!(pair(&r[0]), ("a".to_string(), Some("1.0.0".to_string())));
}

#[test]
fn parses_scoped_name() {
    let r = parse_versions(&strings(&["@s/a"]));
    assert_eq!(r.len(), 1);
    assert_eq!(pair(&r[0]), ("@s/a".to_string(), None));
}

#[test]
fn parses_scoped_name_with_version() {
    let r = parse_versions(&strings(&["@s/a@1.0.0"]));
    assert_eq!(r.len(), 1);
    assert_eq!(pair(&r[0]), ("@s/a".to_string(), Some("1.0.0".to_string())));
}

#[test]
fn drops_malformed_specifier() {
    assert!(parse_versions(&strings(&["a@1@2"])).is_empty());
    assert!(parse_one(&"@s/a@1@2".to_string()).is_none());
}

#[test]
fn keeps_order_and_skips_only_malformed() {
    let r = parse_versions(&strings(&["react@17.0.2", "x@1@2", "@types/node"]));
    assert_eq!(r.len(), 2);
    assert_eq!(pair(&r[0]), ("react".to_string(), Some("17.0.2".to_string())));
    assert_eq!(pair(&r[1]), ("@types/node".to_string(), None));
}

#[test]
fn trims_segments() {
    let r = parse_versions(&strings(&[" lodash @ 4.17.21 "]));
    assert_eq!(pair(&r[0]), ("lodash".to_string(), Some("4.17.21".to_string())));
    assert_eq!(trim("\t x y \u{3000}"), "x y");
    assert_eq!(trim("   "), "");
}

#[test]
fn empty_input_gives_nothing() {
    assert!(parse_versions(&Vec::new()).is_empty());
}
