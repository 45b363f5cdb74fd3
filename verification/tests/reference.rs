use handel::reference::{Reference, RunningService};
use handel::volumes::VolumeInitializer;

#[test]
fn test_running_service_accessors() {
    let r = RunningService::new("contentrepo", "1.0.425");
    assert_eq!("contentrepo", r.name());
    assert_eq!("1.0.425", r.version());
}

#[test]
fn test_resolve_url_replaces_placeholder() {
    let r = Reference::new("https://versions.example.com/{env}/list".to_string(), None, None);
    assert_eq!(
        "https://versions.example.com/staging/list",
        r.resolve_url("staging")
    );
}

#[test]
fn test_resolve_url_applies_env_mapping() {
    let r = Reference::new(
        "https://versions.example.com/{env}/list".to_string(),
        Some(vec![("prod".to_string(), "production".to_string())]),
        None,
    );
    assert_eq!(
        "https://versions.example.com/production/list",
        r.resolve_url("prod")
    );
    assert_eq!(
        "https://versions.example.com/dev/list",
        r.resolve_url("dev")
    );
}

#[test]
fn test_resolve_url_replaces_every_occurrence() {
    let r = Reference::new("{env}.example.com/{env}".to_string(), None, None);
    assert_eq!("qa.example.com/qa", r.resolve_url("qa"));
}

#[test]
fn test_resolve_url_without_placeholder() {
    let r = Reference::new("https://fixed.example.com/list".to_string(), None, None);
    assert_eq!("https://fixed.example.com/list", r.resolve_url("prod"));
}

#[test]
fn test_jq_filter_accessor() {
    let r = Reference::new("u".to_string(), None, Some(".versions".to_string()));
    assert_eq!(Some(".versions".to_string()), *r.jq_filter());
}

#[test]
fn test_bucket_source_detection() {
    let s3 = VolumeInitializer::new(
        "data".to_string(),
        "S3://bucket/key.zip".to_string(),
        "/tmp/data".to_string(),
    );
    assert!(s3.has_bucket_source());
    let local = VolumeInitializer::new(
        "data".to_string(),
        "/var/cache/data.zip".to_string(),
        "/tmp/data".to_string(),
    );
    assert!(!local.has_bucket_source());
    let lower = VolumeInitializer::new(
        "data".to_string(),
        "s3://bucket/key.zip".to_string(),
        "/tmp/data".to_string(),
    );
    assert!(lower.has_bucket_source());
}
