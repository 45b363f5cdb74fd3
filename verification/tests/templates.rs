use handel::templates::{
    ComposeService, ComposeServiceFragment, ComposeServiceMap, PortMapping, TemplateError,
};

fn frag_with_ports(image: &str, ports: Option<Vec<PortMapping>>) -> ComposeServiceFragment {
    ComposeServiceFragment {
        image: image.to_string(),
        platform: None,
        restart: None,
        depends_on: None,
        volumes: None,
        environment: None,
        ports,
        deploy: None,
    }
}

fn catalog(entries: Vec<(&str, ComposeServiceFragment)>) -> ComposeServiceMap {
    ComposeServiceMap::new(
        entries
            .into_iter()
            .map(|(n, f)| (n.to_string(), f))
            .collect(),
    )
    .unwrap()
}

#[test]
fn test_port_token_with_source_and_target() {
    let pm = PortMapping::parse("121:343").unwrap();
    assert_eq!(Some(121), pm.source);
    assert_eq!(343, pm.target);
}

#[test]
fn test_port_token_target_only() {
    let pm = PortMapping::parse("212").unwrap();
    assert_eq!(None, pm.source);
    assert_eq!(212, pm.target);
}

#[test]
fn test_port_token_rejects_garbage() {
    for bad in ["", "abc", "80:", ":80", "70000", "80:70000", "1:2:3"] {
        match PortMapping::parse(bad) {
            Err(TemplateError::PortMappingFormat { input }) => assert_eq!(bad, input),
            other => panic!("expected PortMappingFormat for {:?}, got {:?}", bad, other),
        }
    }
}

#[test]
fn test_port_render_round_trip() {
    for s in ["121:343", "212", "8080:80"] {
        assert_eq!(s, PortMapping::parse(s).unwrap().render());
    }
}

#[test]
fn test_catalog_lookup() {
    let cat = catalog(vec![
        ("api", frag_with_ports("registry/api:1", None)),
        ("db", frag_with_ports("postgres:12", None)),
    ]);
    let api = cat.get_service_fragment("api").unwrap();
    assert_eq!("api", api.name());
    assert_eq!("registry/api", api.image());
    assert_eq!("registry/api:1", api.fragment().image);
    assert!(cat.get_service_fragment("nope").is_none());
}

#[test]
fn test_catalog_rejects_unparseable_image() {
    let entries = vec![("bad".to_string(), frag_with_ports(":", None))];
    match ComposeServiceMap::new(entries) {
        Err(TemplateError::ServiceName { input }) => assert_eq!(":", input),
        _ => panic!("expected ServiceName"),
    }
}

#[test]
fn test_two_templates_on_same_source_port_conflict() {
    let cat = catalog(vec![
        (
            "api",
            frag_with_ports(
                "registry/api:1",
                Some(vec![PortMapping { source: Some(8080), target: 80 }]),
            ),
        ),
        (
            "web",
            frag_with_ports(
                "registry/web:1",
                Some(vec![PortMapping { source: Some(8080), target: 8000 }]),
            ),
        ),
    ]);
    let conflicts = cat.port_conflicts();
    assert_eq!(1, conflicts.len());
    assert_eq!(8080, conflicts[0].0);
    assert_eq!(vec!["api".to_string(), "web".to_string()], conflicts[0].1);
}

#[test]
fn test_target_only_ports_never_conflict() {
    let cat = catalog(vec![
        (
            "api",
            frag_with_ports(
                "registry/api:1",
                Some(vec![PortMapping { source: None, target: 8080 }]),
            ),
        ),
        (
            "web",
            frag_with_ports(
                "registry/web:1",
                Some(vec![PortMapping { source: None, target: 8080 }]),
            ),
        ),
    ]);
    assert!(cat.port_conflicts().is_empty());
}

#[test]
fn test_distinct_source_ports_do_not_conflict() {
    let cat = catalog(vec![
        (
            "api",
            frag_with_ports(
                "registry/api:1",
                Some(vec![PortMapping { source: Some(8080), target: 80 }]),
            ),
        ),
        (
            "web",
            frag_with_ports(
                "registry/web:1",
                Some(vec![PortMapping { source: Some(8081), target: 80 }]),
            ),
        ),
    ]);
    assert!(cat.port_conflicts().is_empty());
}

#[test]
fn test_free_ports_skip_claimed_ones() {
    let cat = catalog(vec![
        (
            "api",
            frag_with_ports(
                "registry/api:1",
                Some(vec![
                    PortMapping { source: Some(9001), target: 80 },
                    PortMapping { source: Some(9003), target: 81 },
                ]),
            ),
        ),
    ]);
    assert_eq!(vec![9000u16, 9002], cat.free_ports(9000, 9010, 2));
    assert_eq!(vec![9000u16, 9002, 9004], cat.free_ports(9000, 9010, 3));
    assert!(cat.free_ports(9000, 9010, 0).is_empty());
}

#[test]
fn test_dependencies_are_reported() {
    let mut f = frag_with_ports("registry/api:1", None);
    f.depends_on = Some(vec!["db".to_string(), "cache".to_string()]);
    let svc = ComposeService::new("api", "registry/api", &f);
    assert_eq!(vec!["db".to_string(), "cache".to_string()], svc.get_dependencies());
}

#[test]
fn test_fragment_using_version() {
    let f = frag_with_ports("registry/api:1.0", None);
    let svc = ComposeService::new("api", "registry/api", &f);
    let updated = svc.fragment_using_version(Some("2.0".to_string()));
    assert_eq!("registry/api:2.0", updated.image);
    let unchanged = svc.fragment_using_version(None);
    assert_eq!("registry/api:1.0", unchanged.image);
}
