//! Service composition engine for local container orchestration.
//!
//! The crate resolves a named deployment scenario into a complete
//! docker-compose-style manifest. It combines service templates, a table of
//! remote reference versions, and a list of locally available container
//! images. The pieces are:
//!
//! - image reference strings, parsed and rendered by [`templates::ImageVersion`];
//! - the template catalog with static port-conflict detection,
//!   [`templates::ComposeServiceMap`];
//! - the dependency resolver that expands a scenario into a deduplicated,
//!   sorted service list, [`config::HandelConfig::build_service_list`];
//! - the version precedence chain and manifest assembly,
//!   [`compose::DockerCompose::generate`].
//!
//! All resolution logic is in-memory and deterministic. Loading YAML files,
//! fetching reference feeds and enumerating local images are left to callers,
//! which hand the results in as plain values.

pub mod compose;
pub mod config;
pub mod images;
pub mod reference;
pub mod templates;
pub mod text;
pub mod volumes;
