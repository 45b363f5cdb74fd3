use handel::config::{parse_port_range, Error, HandelConfig};
use handel::templates::{ComposeServiceFragment, ComposeServiceMap};

fn frag(image: &str, depends_on: Option<Vec<&str>>) -> ComposeServiceFragment {
    ComposeServiceFragment {
        image: image.to_string(),
        platform: None,
        restart: None,
        depends_on: depends_on.map(|v| v.into_iter().map(|s| s.to_string()).collect()),
        volumes: None,
        environment: None,
        ports: None,
        deploy: None,
    }
}

fn catalog(entries: Vec<(&str, ComposeServiceFragment)>) -> ComposeServiceMap {
    ComposeServiceMap::new(
        entries
            .into_iter()
            .map(|(n, f)| (n.to_string(), f))
            .collect(),
    )
    .unwrap()
}

fn config(scenarios: Vec<(&str, Vec<&str>)>) -> HandelConfig {
    HandelConfig::new(
        ".".to_string(),
        None,
        None,
        scenarios
            .into_iter()
            .map(|(n, l)| (n.to_string(), l.into_iter().map(|s| s.to_string()).collect()))
            .collect(),
        None,
    )
}

#[test]
fn test_config_port_range_ok() {
    assert_eq!(parse_port_range("1234-5678").unwrap(), (1234, 5678));
}

#[test]
fn test_config_port_range_missing() {
    let c = config(vec![("a", vec!["b"])]);
    assert!(c.get_port_range().is_none());
}

#[test]
fn test_config_port_range_missing_first() {
    assert!(parse_port_range("-5678").is_none());
}

#[test]
fn test_config_port_range_missing_last() {
    assert!(parse_port_range("5678-").is_none());
}

#[test]
fn test_port_range_swaps_inverted_sides() {
    assert_eq!(parse_port_range("5678-1234").unwrap(), (1234, 5678));
}

#[test]
fn test_port_range_rejects_leading_zero_and_overflow() {
    assert!(parse_port_range("0123-456").is_none());
    assert!(parse_port_range("70000-80000").is_none());
    assert!(parse_port_range("12x4-5678").is_none());
}

#[test]
fn test_get_scenarios_sorted() {
    let c = config(vec![("zeta", vec!["a"]), ("alpha", vec!["b"]), ("mid", vec!["c"])]);
    assert_eq!(c.get_scenarios(), vec!["alpha", "mid", "zeta"]);
}

#[test]
fn test_scenario_services_and_has_scenario() {
    let c = config(vec![("dev", vec!["api", "db"])]);
    assert!(c.has_scenario("dev"));
    assert!(!c.has_scenario("prod"));
    assert_eq!(c.scenario_services("dev"), vec!["api", "db"]);
    assert!(c.scenario_services("prod").is_empty());
}

#[test]
fn test_diamond_dependencies_resolve_once() {
    // a depends on b and c; both depend on d: d appears exactly once.
    let cat = catalog(vec![
        ("a", frag("img/a:1", Some(vec!["b", "c"]))),
        ("b", frag("img/b:1", Some(vec!["d"]))),
        ("c", frag("img/c:1", Some(vec!["d"]))),
        ("d", frag("img/d:1", None)),
    ]);
    let c = config(vec![]);
    let list = c.build_service_list("a", &cat).unwrap();
    let names: Vec<String> = list.iter().map(|s| s.name()).collect();
    assert_eq!(names, vec!["a", "b", "c", "d"]);
}

#[test]
fn test_resolution_is_idempotent() {
    let cat = catalog(vec![
        ("a", frag("img/a:1", Some(vec!["b", "c"]))),
        ("b", frag("img/b:1", Some(vec!["d"]))),
        ("c", frag("img/c:1", Some(vec!["d"]))),
        ("d", frag("img/d:1", None)),
    ]);
    let c = config(vec![("all", vec!["a"])]);
    let first: Vec<String> = c
        .build_service_list("all", &cat)
        .unwrap()
        .iter()
        .map(|s| s.name())
        .collect();
    let second: Vec<String> = c
        .build_service_list("all", &cat)
        .unwrap()
        .iter()
        .map(|s| s.name())
        .collect();
    assert_eq!(first, second);
    assert_eq!(first, vec!["a", "b", "c", "d"]);
}

#[test]
fn test_unknown_root_fails_with_not_found() {
    let cat = catalog(vec![("a", frag("img/a:1", None))]);
    let c = config(vec![("dev", vec!["a"])]);
    match c.build_service_list("missing", &cat) {
        Err(Error::NotFound { input }) => assert_eq!("missing", input),
        _ => panic!("expected NotFound"),
    }
}

#[test]
fn test_unknown_scenario_member_fails_with_not_found() {
    // A scenario naming something that is neither template nor scenario
    // fails with that exact entry, and no service list is produced.
    let cat = catalog(vec![("a", frag("img/a:1", None))]);
    let c = config(vec![("dev", vec!["a", "ghost"])]);
    match c.build_service_list("dev", &cat) {
        Err(Error::NotFound { input }) => assert_eq!("ghost", input),
        _ => panic!("expected NotFound"),
    }
}

#[test]
fn test_nested_scenarios_resolve() {
    let cat = catalog(vec![
        ("api", frag("img/api:1", None)),
        ("db", frag("img/db:1", None)),
        ("cache", frag("img/cache:1", None)),
    ]);
    let c = config(vec![("base", vec!["db", "cache"]), ("dev", vec!["api", "base"])]);
    let list = c.build_service_list("dev", &cat).unwrap();
    let names: Vec<String> = list.iter().map(|s| s.name()).collect();
    assert_eq!(names, vec!["api", "cache", "db"]);
}

#[test]
fn test_scenario_cycle_terminates() {
    // Accidental self-reference must not loop forever.
    let cat = catalog(vec![("api", frag("img/api:1", None))]);
    let c = config(vec![("x", vec!["api", "y"]), ("y", vec!["x"])]);
    let list = c.build_service_list("x", &cat).unwrap();
    let names: Vec<String> = list.iter().map(|s| s.name()).collect();
    assert_eq!(names, vec!["api"]);
}

#[test]
fn test_non_template_dependency_is_skipped() {
    // A depends_on entry that is no template does not fail resolution.
    let cat = catalog(vec![("api", frag("img/api:1", Some(vec!["external-thing"])))]);
    let c = config(vec![]);
    let list = c.build_service_list("api", &cat).unwrap();
    let names: Vec<String> = list.iter().map(|s| s.name()).collect();
    assert_eq!(names, vec!["api"]);
}

#[test]
fn test_template_shadows_scenario_of_same_name() {
    let cat = catalog(vec![
        ("api", frag("img/api:1", None)),
        ("db", frag("img/db:1", None)),
    ]);
    let c = config(vec![("api", vec!["db"])]);
    let list = c.build_service_list("api", &cat).unwrap();
    let names: Vec<String> = list.iter().map(|s| s.name()).collect();
    assert_eq!(names, vec!["api"]);
}
