use handel::compose::{resolve_version, DockerCompose};
use handel::images::ContainerImage;
use handel::reference::RunningService;
use handel::templates::{ComposeService, ComposeServiceFragment};

fn frag(image: &str) -> ComposeServiceFragment {
    ComposeServiceFragment {
        image: image.to_string(),
        platform: None,
        restart: None,
        depends_on: None,
        volumes: None,
        environment: None,
        ports: None,
        deploy: None,
    }
}

#[test]
fn test_can_use_image_name() {
    let f = frag("12121212121.dkr.ecr.us-east-1.amazonaws.com/contentrepo:1.0.400");

    let svcs = vec![ComposeService::new(
        "content-repo",
        "12121212121.dkr.ecr.us-east-1.amazonaws.com/contentrepo:1.0.423",
        &f,
    )];

    let running = vec![RunningService::new("contentrepo", "1.0.425")];
    let local = vec![];

    let result = DockerCompose::generate(&svcs, &running, &local);

    assert_eq!("3", result.version_marker());
    let services = result.services();
    assert_eq!(1, services.len());
    assert_eq!("content-repo", services[0].0);
    assert_eq!(
        "12121212121.dkr.ecr.us-east-1.amazonaws.com/contentrepo:1.0.425",
        services[0].1.image
    );
}

#[test]
fn test_local_image_wins_over_running_service() {
    // Template content-repo with image registry/contentrepo:1.0.423, a
    // local image for registry/contentrepo tagged 1.0.425, and a running
    // entry contentrepo@1.0.500: the local image wins.
    let f = frag("registry/contentrepo:1.0.423");
    let svc = ComposeService::new("content-repo", "registry/contentrepo", &f);
    let local = vec![ContainerImage::new(
        "contentrepo",
        "registry/contentrepo",
        "1.0.425",
    )];
    let running = vec![RunningService::new("contentrepo", "1.0.500")];

    assert_eq!(
        Some("1.0.425".to_string()),
        resolve_version(&svc, &local, &running)
    );

    let manifest = DockerCompose::generate(&vec![svc], &running, &local);
    assert_eq!(
        "registry/contentrepo:1.0.425",
        manifest.services()[0].1.image
    );
}

#[test]
fn test_service_key_wins_over_bare_image_name() {
    // With no local-image match, a running entry named like the service's
    // own key beats one matching only the bare image name.
    let f = frag("registry/contentrepo:1.0.423");
    let svc = ComposeService::new("content-repo", "registry/contentrepo", &f);
    let local = vec![];
    let running = vec![
        RunningService::new("contentrepo", "1.0.500"),
        RunningService::new("content-repo", "1.0.600"),
    ];

    assert_eq!(
        Some("1.0.600".to_string()),
        resolve_version(&svc, &local, &running)
    );
}

#[test]
fn test_embedded_version_is_the_fallback() {
    let f = frag("registry/contentrepo:1.0.423");
    let svc = ComposeService::new("content-repo", "registry/contentrepo", &f);

    assert_eq!(
        Some("1.0.423".to_string()),
        resolve_version(&svc, &vec![], &vec![])
    );

    let manifest = DockerCompose::generate(&vec![svc], &vec![], &vec![]);
    assert_eq!(
        "registry/contentrepo:1.0.423",
        manifest.services()[0].1.image
    );
}

#[test]
fn test_no_version_anywhere_leaves_image_unchanged() {
    let f = frag("registry/contentrepo");
    let svc = ComposeService::new("content-repo", "registry/contentrepo", &f);

    assert_eq!(None, resolve_version(&svc, &vec![], &vec![]));

    let manifest = DockerCompose::generate(&vec![svc], &vec![], &vec![]);
    assert_eq!("registry/contentrepo", manifest.services()[0].1.image);
}

#[test]
fn test_last_matching_entry_wins_within_one_source() {
    let f = frag("registry/api:1");
    let svc = ComposeService::new("api", "registry/api", &f);
    let running = vec![
        RunningService::new("api", "old"),
        RunningService::new("api", "new"),
    ];
    assert_eq!(
        Some("new".to_string()),
        resolve_version(&svc, &vec![], &running)
    );
}

#[test]
fn test_fragment_fields_are_kept_verbatim() {
    let mut f = frag("registry/api:1.0");
    f.platform = Some("amd64".to_string());
    f.restart = Some("always".to_string());
    f.environment = Some(vec![("K".to_string(), "V".to_string())]);
    let svc = ComposeService::new("api", "registry/api", &f);
    let running = vec![RunningService::new("api", "2.0")];

    let manifest = DockerCompose::generate(&vec![svc], &running, &vec![]);
    let out = &manifest.services()[0].1;
    assert_eq!("registry/api:2.0", out.image);
    assert_eq!(Some("amd64".to_string()), out.platform);
    assert_eq!(Some("always".to_string()), out.restart);
    assert_eq!(
        Some(vec![("K".to_string(), "V".to_string())]),
        out.environment
    );
}

#[test]
fn test_unparseable_image_is_skipped() {
    let good = ComposeService::new("api", "registry/api", &frag("registry/api:1"));
    let bad = ComposeService::new("bad", ":", &frag(":"));
    let manifest = DockerCompose::generate(&vec![bad, good], &vec![], &vec![]);
    assert_eq!(1, manifest.services().len());
    assert_eq!("api", manifest.services()[0].0);
}
