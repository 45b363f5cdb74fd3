//! Locally available container images, as plain records: the external
//! enumeration (image tool invocation, staleness filtering) happens outside
//! and hands in one record per usable image.

use vstd::prelude::*;
use vstd::string::StringExecFns;
use crate::templates::{image_name, image_parse_ok, ImageVersion};

verus! {

/// One locally available image: the service name derived from its
/// repository, the full repository string, and its tag.
#[derive(Debug)]
pub struct ContainerImage {
    name: String,
    repository: String,
    tag: String,
}

/// The mathematical value of a [`ContainerImage`].
pub struct ContainerImageView {
    pub name: Seq<char>,
    pub repository: Seq<char>,
    pub tag: Seq<char>,
}

impl View for ContainerImage {
    type V = ContainerImageView;

    closed spec fn view(&self) -> ContainerImageView {
        ContainerImageView { name: self.name@, repository: self.repository@, tag: self.tag@ }
    }
}

impl ContainerImage {
    /// Builds an image record from its parts.
    pub fn new(name: &str, repository: &str, tag: &str) -> (r: ContainerImage)
        ensures
            r@.name == name@,
            r@.repository == repository@,
            r@.tag == tag@,
    {
        ContainerImage {
            name: String::from_str(name),
            repository: String::from_str(repository),
            tag: String::from_str(tag),
        }
    }

    /// The image's tag: the version it carries.
    pub fn version(&self) -> (r: String)
        ensures
            r@ == self@.tag,
    {
        self.tag.clone()
    }

    /// The service name derived from the repository.
    pub fn name(&self) -> (r: String)
        ensures
            r@ == self@.name,
    {
        self.name.clone()
    }

    /// The full repository string, the image-without-tag identity.
    pub fn repository(&self) -> (r: String)
        ensures
            r@ == self@.repository,
    {
        self.repository.clone()
    }
}

/// The views of a sequence of image records.
pub open spec fn image_views(s: Seq<ContainerImage>) -> Seq<ContainerImageView> {
    s.map_values(|c: ContainerImage| c@)
}

/// The service name embedded in a repository string: the name segment of
/// the image grammar.
pub fn get_service_name_from_repository(repo: &str) -> (r: Option<String>)
    ensures
        match r {
            Some(s) => image_parse_ok(repo@) && s@ == image_name(repo@),
            None => !image_parse_ok(repo@),
        },
{
    match ImageVersion::new(repo) {
        Ok(iv) => Some(iv.get_name()),
        Err(_) => None,
    }
}

} // verus!
