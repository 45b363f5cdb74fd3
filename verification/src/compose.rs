//! Manifest assembly: the version precedence chain and the final
//! docker-compose-style document. Serializing the document to YAML and
//! writing it out is outside work; callers read the assembled value through
//! the accessors.

use vstd::prelude::*;
use vstd::string::StringExecFns;
use crate::images::{image_views, ContainerImage, ContainerImageView};
use crate::reference::{running_views, RunningService, RunningServiceView};
use crate::templates::{
    fragment_with_image, image_name, image_parse_ok, image_render, image_repo, image_version,
    opt_view, services_views, ComposeService, ComposeServiceFragment, FragmentView, ServiceView,
};
use crate::text::str_eq;

verus! {

/// The tag of the last local image whose repository equals `repo`.
pub open spec fn last_local_tag(local: Seq<ContainerImageView>, repo: Seq<char>) -> Option<
    Seq<char>,
>
    decreases local.len(),
{
    if local.len() == 0 {
        None
    } else if local.last().repository == repo {
        Some(local.last().tag)
    } else {
        last_local_tag(local.drop_last(), repo)
    }
}

/// The version of the last feed entry whose name equals `name`.
pub open spec fn last_running_version(running: Seq<RunningServiceView>, name: Seq<char>) -> Option<
    Seq<char>,
>
    decreases running.len(),
{
    if running.len() == 0 {
        None
    } else if running.last().name == name {
        Some(running.last().version)
    } else {
        last_running_version(running.drop_last(), name)
    }
}

/// The version precedence chain, first match wins: a local image whose
/// repository equals the service's image-without-version identity; a feed
/// entry named like the service itself; a feed entry named like the image's
/// bare name; the version embedded in the template's own image string.
pub open spec fn resolved_version(
    sv: ServiceView,
    local: Seq<ContainerImageView>,
    running: Seq<RunningServiceView>,
) -> Option<Seq<char>> {
    if last_local_tag(local, sv.image) is Some {
        last_local_tag(local, sv.image)
    } else if last_running_version(running, sv.name) is Some {
        last_running_version(running, sv.name)
    } else if image_parse_ok(sv.fragment.image) {
        if last_running_version(running, image_name(sv.fragment.image)) is Some {
            last_running_version(running, image_name(sv.fragment.image))
        } else {
            image_version(sv.fragment.image)
        }
    } else {
        None
    }
}

/// The fragment emitted for one service: its template fragment with the
/// image rewritten to carry the resolved version, or unchanged when no
/// version resolves.
pub open spec fn emitted_fragment(
    sv: ServiceView,
    local: Seq<ContainerImageView>,
    running: Seq<RunningServiceView>,
) -> FragmentView {
    match resolved_version(sv, local, running) {
        Some(v) => fragment_with_image(
            sv.fragment,
            image_render(image_repo(sv.fragment.image), image_name(sv.fragment.image), Some(v)),
        ),
        None => sv.fragment,
    }
}

/// The manifest's service entries: one per service whose image string is
/// well formed, in input order; a service without one is skipped.
pub open spec fn spec_generate(
    svcs: Seq<ServiceView>,
    running: Seq<RunningServiceView>,
    local: Seq<ContainerImageView>,
) -> Seq<(Seq<char>, FragmentView)>
    decreases svcs.len(),
{
    if svcs.len() == 0 {
        Seq::<(Seq<char>, FragmentView)>::empty()
    } else {
        spec_generate(svcs.drop_last(), running, local) + (if image_parse_ok(
            svcs.last().fragment.image,
        ) {
            seq![(svcs.last().name, emitted_fragment(svcs.last(), local, running))]
        } else {
            Seq::<(Seq<char>, FragmentView)>::empty()
        })
    }
}

/// The views of manifest entries.
pub open spec fn manifest_views(s: Seq<(String, ComposeServiceFragment)>) -> Seq<
    (Seq<char>, FragmentView),
> {
    s.map_values(|e: (String, ComposeServiceFragment)| (e.0@, e.1@))
}

fn last_local_tag_exec(local: &Vec<ContainerImage>, repo: &str) -> (r: Option<String>)
    ensures
        opt_view(r) == last_local_tag(image_views(local@), repo@),
{
    let ghost lv = image_views(local@);
    let mut i: usize = local.len();
    proof {
        assert(lv.take(lv.len() as int) =~= lv);
    }
    while i > 0
        invariant
            i <= local@.len(),
            lv == image_views(local@),
            last_local_tag(lv, repo@) == last_local_tag(lv.take(i as int), repo@),
        decreases i,
    {
        i = i - 1;
        proof {
            assert(lv.take((i + 1) as int).drop_last() =~= lv.take(i as int));
            assert(lv.take((i + 1) as int).last() == lv[i as int]);
        }
        let candidate = local[i].repository();
        if str_eq(candidate.as_str(), repo) {
            return Some(local[i].version());
        }
    }
    None
}

fn last_running_version_exec(running: &Vec<RunningService>, name: &str) -> (r: Option<String>)
    ensures
        opt_view(r) == last_running_version(running_views(running@), name@),
{
    let ghost rv = running_views(running@);
    let mut i: usize = running.len();
    proof {
        assert(rv.take(rv.len() as int) =~= rv);
    }
    while i > 0
        invariant
            i <= running@.len(),
            rv == running_views(running@),
            last_running_version(rv, name@) == last_running_version(rv.take(i as int), name@),
        decreases i,
    {
        i = i - 1;
        proof {
            assert(rv.take((i + 1) as int).drop_last() =~= rv.take(i as int));
            assert(rv.take((i + 1) as int).last() == rv[i as int]);
        }
        let candidate = running[i].name();
        if str_eq(candidate.as_str(), name) {
            return Some(running[i].version());
        }
    }
    None
}

/// Picks the authoritative version for one service along the precedence
/// chain.
pub fn resolve_version(
    service: &ComposeService,
    local: &Vec<ContainerImage>,
    running: &Vec<RunningService>,
) -> (r: Option<String>)
    ensures
        opt_view(r) == resolved_version(service@, image_views(local@), running_views(running@)),
{
    let repo = service.image();
    match last_local_tag_exec(local, repo.as_str()) {
        Some(tag) => Some(tag),
        None => {
            let name = service.name();
            match last_running_version_exec(running, name.as_str()) {
                Some(v) => Some(v),
                None => {
                    match service.fragment().get_version() {
                        Some(iv) => {
                            let img_name = iv.get_name();
                            match last_running_version_exec(running, img_name.as_str()) {
                                Some(v) => Some(v),
                                None => iv.get_version(),
                            }
                        },
                        None => None,
                    }
                },
            }
        },
    }
}

/// The assembled manifest: a version marker and one entry per service.
#[derive(Debug)]
pub struct DockerCompose {
    version: String,
    services: Vec<(String, ComposeServiceFragment)>,
}

/// The mathematical value of a [`DockerCompose`].
pub struct DockerComposeView {
    pub version: Seq<char>,
    pub services: Seq<(Seq<char>, FragmentView)>,
}

impl View for DockerCompose {
    type V = DockerComposeView;

    closed spec fn view(&self) -> DockerComposeView {
        DockerComposeView { version: self.version@, services: manifest_views(self.services@) }
    }
}

impl DockerCompose {
    /// Assembles the manifest for the resolved services: each service whose
    /// image string is well formed contributes its fragment with the image
    /// rewritten to the resolved version; a service without a well-formed
    /// image string is skipped.
    pub fn generate(
        svcs: &Vec<ComposeService>,
        running: &Vec<RunningService>,
        local: &Vec<ContainerImage>,
    ) -> (r: DockerCompose)
        ensures
            r@.version == seq!['3'],
            r@.services == spec_generate(
                services_views(svcs@),
                running_views(running@),
                image_views(local@),
            ),
    {
        let ghost sv = services_views(svcs@);
        let ghost rv = running_views(running@);
        let ghost lv = image_views(local@);
        let mut services: Vec<(String, ComposeServiceFragment)> = Vec::new();
        let mut i: usize = 0;
        while i < svcs.len()
            invariant
                i <= svcs@.len(),
                sv == services_views(svcs@),
                rv == running_views(running@),
                lv == image_views(local@),
                manifest_views(services@) == spec_generate(sv.take(i as int), rv, lv),
            decreases svcs@.len() - i,
        {
            let s = &svcs[i];
            let ghost entries0 = manifest_views(services@);
            proof {
                assert(sv.take((i + 1) as int).drop_last() =~= sv.take(i as int));
                assert(sv.take((i + 1) as int).last() == sv[i as int]);
                assert(s@ == sv[i as int]);
            }
            let has_version = match s.fragment().get_version() {
                Some(_) => true,
                None => false,
            };
            if has_version {
                let version = resolve_version(s, local, running);
                let frag = s.fragment_using_version(version);
                let name = s.name();
                services.push((name, frag));
                proof {
                    assert(manifest_views(services@) =~= entries0.push(
                        (sv[i as int].name, emitted_fragment(sv[i as int], lv, rv)),
                    ));
                    assert(entries0 + seq![
                        (sv[i as int].name, emitted_fragment(sv[i as int], lv, rv)),
                    ] =~= manifest_views(services@));
                }
            } else {
                proof {
                    assert(entries0 + Seq::<(Seq<char>, FragmentView)>::empty() =~= entries0);
                }
            }
            i = i + 1;
        }
        proof {
            assert(sv.take(sv.len() as int) =~= sv);
        }
        let version = String::from_str("3");
        proof {
            reveal_strlit("3");
            assert(version@ =~= seq!['3']);
        }
        DockerCompose { version, services }
    }

    /// The manifest's schema-version marker.
    pub fn version_marker(&self) -> (r: &str)
        ensures
            r@ == self@.version,
    {
        self.version.as_str()
    }

    /// The manifest's service entries, in order.
    pub fn services(&self) -> (r: &Vec<(String, ComposeServiceFragment)>)
        ensures
            manifest_views(r@) == self@.services,
    {
        &self.services
    }
}

} // verus!
