use handel::templates::{ImageVersion, TemplateError};

#[test]
fn test1() {
    let i = ImageVersion::new("12121212121.dkr.ecr.us-east-1.amazonaws.com/api:1.0.423").unwrap();
    assert_eq!("api", i.name);
    assert_eq!(
        "12121212121.dkr.ecr.us-east-1.amazonaws.com",
        i.repository.unwrap()
    );
    assert_eq!("1.0.423", i.version.unwrap());
}

#[test]
fn test2() {
    let i = ImageVersion::new("wurstmeister/kafka:2.12-2.4.0").unwrap();
    assert_eq!("kafka", i.name);
    assert_eq!("wurstmeister", i.repository.unwrap());
    assert_eq!("2.12-2.4.0", i.version.unwrap());
}

#[test]
fn test3() {
    let i = ImageVersion::new("wurstmeister/kafka").unwrap();
    assert_eq!("kafka", i.name);
    assert_eq!("wurstmeister", i.repository.unwrap());
    assert_eq!(None, i.version);
}

#[test]
fn test4() {
    let i = ImageVersion::new("mailhog/mailhog").unwrap();
    assert_eq!("mailhog", i.name);
    assert_eq!("mailhog", i.repository.unwrap());
    assert_eq!(None, i.version);
}

#[test]
fn test5() {
    let i = ImageVersion::new("memcached:1.6.7").unwrap();
    assert_eq!("memcached", i.name);
    assert_eq!(None, i.repository);
    assert_eq!("1.6.7", i.version.unwrap());
}

#[test]
fn test_parse_example_with_repository() {
    let i = ImageVersion::new("repo.example.com/api:1.0.423").unwrap();
    assert_eq!("repo.example.com", i.repository.as_deref().unwrap());
    assert_eq!("api", i.name);
    assert_eq!("1.0.423", i.version.as_deref().unwrap());
}

#[test]
fn test_render_parse_round_trip() {
    for s in [
        "repo.example.com/api:1.0.423",
        "kafka:2.12-2.4.0",
        "mailhog/mailhog",
        "memcached:1.6.7",
        "api",
        "host:5000/deep/path:v2",
    ] {
        let i = ImageVersion::new(s).unwrap();
        assert_eq!(s, i.get());
    }
}

#[test]
fn test_get_without_version() {
    let i = ImageVersion::new("registry/contentrepo:1.0.423").unwrap();
    assert_eq!("registry/contentrepo", i.get_without_version());
}

#[test]
fn test_with_version_replaces_only_version() {
    let i = ImageVersion::new("registry/contentrepo:1.0.423").unwrap();
    let j = i.with_version(Some("2.0".to_string()));
    assert_eq!("registry/contentrepo:2.0", j.get());
}

#[test]
fn test_parse_empty_name_is_rejected() {
    match ImageVersion::new(":1.0") {
        Err(TemplateError::ServiceName { input }) => assert_eq!(":1.0", input),
        _ => panic!("expected a ServiceName error"),
    }
    assert!(ImageVersion::new("").is_err());
    assert!(ImageVersion::new("repo/").is_err());
}

#[test]
fn test_service_name_from_repository() {
    assert_eq!(
        "contentrepo",
        handel::images::get_service_name_from_repository("registry/contentrepo").unwrap()
    );
    assert_eq!(
        "api",
        handel::images::get_service_name_from_repository("api").unwrap()
    );
    assert!(handel::images::get_service_name_from_repository("").is_none());
}
