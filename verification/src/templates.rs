//! Service templates: image reference strings, port mappings, template
//! fragments, and the template catalog with port-conflict detection.

use vstd::prelude::*;
use crate::text::{
    all_digits, digits_to_nat, find_first, lemma_first_index, lemma_no_first_index, str_eq,
};
use vstd::string::StrSliceExecFns;
use vstd::string::StringExecFns;

verus! {

/// Errors raised while interpreting template data.
#[derive(Debug)]
pub enum TemplateError {
    /// The image string has no usable shape at all.
    RepositoryFormat { input: String },
    /// The image string has no service-name segment.
    ServiceName { input: String },
    /// A port token is not `"N"` or `"N:M"` with values that fit a port.
    PortMappingFormat { input: String },
}

/// The view of an optional string.
pub open spec fn opt_view(o: Option<String>) -> Option<Seq<char>> {
    match o {
        Some(s) => Some(s@),
        None => None,
    }
}

// An image reference string is `[repository/]name[:version]`: the repository
// runs up to the first `/` of the string, the name up to the first `:` of the
// remainder, and the version is everything after that `:`.
/// The remainder of an image string after its repository segment, if any.
pub open spec fn image_rest(s: Seq<char>) -> Seq<char> {
    match s.index_of_first('/') {
        Some(i) => if i > 0 {
            s.skip(i + 1)
        } else {
            s
        },
        None => s,
    }
}

/// The repository segment of an image string: what stands before the first
/// `/`, when that is non-empty.
pub open spec fn image_repo(s: Seq<char>) -> Option<Seq<char>> {
    match s.index_of_first('/') {
        Some(i) => if i > 0 {
            Some(s.take(i))
        } else {
            None
        },
        None => None,
    }
}

/// The name segment of an image string: the remainder up to its first `:`.
pub open spec fn image_name(s: Seq<char>) -> Seq<char> {
    let rest = image_rest(s);
    match rest.index_of_first(':') {
        Some(j) => rest.take(j),
        None => rest,
    }
}

/// The version segment of an image string: what follows the remainder's
/// first `:`, if there is one.
pub open spec fn image_version(s: Seq<char>) -> Option<Seq<char>> {
    let rest = image_rest(s);
    match rest.index_of_first(':') {
        Some(j) => Some(rest.skip(j + 1)),
        None => None,
    }
}

/// An image string parses exactly when its name segment is non-empty.
pub open spec fn image_parse_ok(s: Seq<char>) -> bool {
    image_name(s).len() > 0
}

/// Reassembles `[repository/]name[:version]`.
pub open spec fn image_render(
    repo: Option<Seq<char>>,
    name: Seq<char>,
    ver: Option<Seq<char>>,
) -> Seq<char> {
    (match repo {
        Some(r) => r + seq!['/'],
        None => Seq::<char>::empty(),
    }) + name + (match ver {
        Some(v) => seq![':'] + v,
        None => Seq::<char>::empty(),
    })
}

/// The mathematical value of a parsed image reference.
pub struct ImageVersionView {
    pub name: Seq<char>,
    pub version: Option<Seq<char>>,
    pub repository: Option<Seq<char>>,
}

/// The parse of a well-formed image string.
pub open spec fn spec_parse_image(s: Seq<char>) -> ImageVersionView {
    ImageVersionView { name: image_name(s), version: image_version(s), repository: image_repo(s) }
}

/// A parsed container image reference: `[repository/]name[:version]`.
#[derive(Debug)]
pub struct ImageVersion {
    pub name: String,
    pub version: Option<String>,
    pub repository: Option<String>,
}

impl View for ImageVersion {
    type V = ImageVersionView;

    open spec fn view(&self) -> ImageVersionView {
        ImageVersionView {
            name: self.name@,
            version: opt_view(self.version),
            repository: opt_view(self.repository),
        }
    }
}

impl ImageVersion {
    /// Parses an image string. Succeeds exactly when the name segment is
    /// non-empty; a string without one is rejected as `ServiceName`.
    pub fn new(image_str: &str) -> (r: Result<ImageVersion, TemplateError>)
        ensures
            match r {
                Ok(iv) => image_parse_ok(image_str@) && iv@ == spec_parse_image(image_str@),
                Err(e) => !image_parse_ok(image_str@) && (e matches TemplateError::ServiceName {
                    input,
                } && input@ == image_str@),
            },
    {
        let ghost s = image_str@;
        let n = image_str.unicode_len();
        let slash = find_first(image_str, '/');
        let (repository, rest): (Option<String>, &str) = match slash {
            Some(i) => {
                if i > 0 {
                    proof {
                        lemma_first_index(s, '/', i as int);
                    }
                    (
                        Some(String::from_str(image_str.substring_char(0, i))),
                        image_str.substring_char(i + 1, n),
                    )
                } else {
                    proof {
                        lemma_first_index(s, '/', 0);
                        assert(s.subrange(0, n as int) =~= s);
                    }
                    (None, image_str.substring_char(0, n))
                }
            },
            None => {
                proof {
                    lemma_no_first_index(s, '/');
                    assert(s.subrange(0, n as int) =~= s);
                }
                (None, image_str.substring_char(0, n))
            },
        };
        proof {
            assert(rest@ == image_rest(s));
            assert(opt_view(repository) == image_repo(s));
        }
        let rn = rest.unicode_len();
        let colon = find_first(rest, ':');
        match colon {
            Some(j) => {
                proof {
                    lemma_first_index(rest@, ':', j as int);
                }
                if j == 0 {
                    Err(TemplateError::ServiceName { input: String::from_str(image_str) })
                } else {
                    let name = String::from_str(rest.substring_char(0, j));
                    let version = Some(String::from_str(rest.substring_char(j + 1, rn)));
                    Ok(ImageVersion { name, version, repository })
                }
            },
            None => {
                proof {
                    lemma_no_first_index(rest@, ':');
                }
                if rn == 0 {
                    Err(TemplateError::ServiceName { input: String::from_str(image_str) })
                } else {
                    proof {
                        assert(rest@.subrange(0, rn as int) =~= rest@);
                    }
                    Ok(ImageVersion { name: String::from_str(rest), version: None, repository })
                }
            },
        }
    }

    /// Renders `[repository/]name[:version]`.
    pub fn get(&self) -> (r: String)
        ensures
            r@ == image_render(self@.repository, self@.name, self@.version),
    {
        let mut out = String::new();
        if let Some(rep) = &self.repository {
            out.append(rep.as_str());
            out.append("/");
        }
        out.append(self.name.as_str());
        if let Some(v) = &self.version {
            out.append(":");
            out.append(v.as_str());
        }
        proof {
            reveal_strlit("/");
            reveal_strlit(":");
            assert(out@ =~= image_render(self@.repository, self@.name, self@.version));
        }
        out
    }

    /// Renders `[repository/]name`, dropping any version.
    pub fn get_without_version(self) -> (r: String)
        ensures
            r@ == image_render(self@.repository, self@.name, None),
    {
        let mut out = String::new();
        if let Some(rep) = &self.repository {
            out.append(rep.as_str());
            out.append("/");
        }
        out.append(self.name.as_str());
        proof {
            reveal_strlit("/");
            assert(out@ =~= image_render(self@.repository, self@.name, None));
        }
        out
    }

    /// The bare name segment.
    pub fn get_name(&self) -> (r: String)
        ensures
            r@ == self@.name,
    {
        self.name.clone()
    }

    /// The version segment, if any.
    pub fn get_version(&self) -> (r: Option<String>)
        ensures
            opt_view(r) == self@.version,
    {
        crate::text::clone_opt_string(&self.version)
    }

    /// The same reference with the version replaced.
    pub fn with_version(self, version: Option<String>) -> (r: ImageVersion)
        ensures
            r@.name == self@.name,
            r@.repository == self@.repository,
            r@.version == opt_view(version),
    {
        ImageVersion { name: self.name, version, repository: self.repository }
    }
}

/// A single port mapping. The token `"N"` publishes only a target port;
/// `"N:M"` maps source (host) port `N` to target port `M`.
#[derive(Debug, Clone, Copy, PartialEq, Eq, Structural)]
pub struct PortMapping {
    pub source: Option<u16>,
    pub target: u16,
}

/// A digit run that denotes a port.
pub open spec fn port_value_ok(d: Seq<char>) -> bool {
    d.len() > 0 && all_digits(d) && digits_to_nat(d) <= u16::MAX as int
}

/// A port token is `"N"` or `"N:M"` with both values fitting a port.
pub open spec fn port_token_ok(s: Seq<char>) -> bool {
    match s.index_of_first(':') {
        Some(j) => port_value_ok(s.take(j)) && port_value_ok(s.skip(j + 1)),
        None => port_value_ok(s),
    }
}

/// The mapping denoted by a well-formed port token.
pub open spec fn spec_parse_port(s: Seq<char>) -> PortMapping {
    match s.index_of_first(':') {
        Some(j) => PortMapping {
            source: Some(digits_to_nat(s.take(j)) as u16),
            target: digits_to_nat(s.skip(j + 1)) as u16,
        },
        None => PortMapping { source: None, target: digits_to_nat(s) as u16 },
    }
}

/// The token that denotes a mapping: `"N:M"` with a source, else `"N"`.
pub open spec fn spec_render_port(pm: PortMapping) -> Seq<char> {
    match pm.source {
        Some(sp) => crate::text::u16_digits(sp as int) + seq![':'] + crate::text::u16_digits(
            pm.target as int,
        ),
        None => crate::text::u16_digits(pm.target as int),
    }
}

impl PortMapping {
    /// Parses a port token. Succeeds exactly on `"N"` or `"N:M"` where each
    /// side is a non-empty digit run whose value fits a port.
    pub fn parse(s: &str) -> (r: Result<PortMapping, TemplateError>)
        ensures
            match r {
                Ok(pm) => port_token_ok(s@) && pm == spec_parse_port(s@),
                Err(e) => !port_token_ok(s@) && (e matches TemplateError::PortMappingFormat {
                    input,
                } && input@ == s@),
            },
    {
        let n = s.unicode_len();
        match find_first(s, ':') {
            Some(j) => {
                proof {
                    lemma_first_index(s@, ':', j as int);
                }
                let left = crate::text::parse_u16(s.substring_char(0, j));
                let right = crate::text::parse_u16(s.substring_char(j + 1, n));
                match (left, right) {
                    (Some(a), Some(b)) => Ok(PortMapping { source: Some(a), target: b }),
                    _ => Err(TemplateError::PortMappingFormat { input: String::from_str(s) }),
                }
            },
            None => {
                proof {
                    lemma_no_first_index(s@, ':');
                    assert(s@.subrange(0, n as int) =~= s@);
                }
                match crate::text::parse_u16(s.substring_char(0, n)) {
                    Some(a) => Ok(PortMapping { source: None, target: a }),
                    None => Err(TemplateError::PortMappingFormat { input: String::from_str(s) }),
                }
            },
        }
    }

    /// Renders the token for this mapping.
    pub fn render(&self) -> (r: String)
        ensures
            r@ == spec_render_port(*self),
    {
        match self.source {
            Some(sp) => {
                let mut out = crate::text::u16_to_string(sp);
                out.append(":");
                let t = crate::text::u16_to_string(self.target);
                out.append(t.as_str());
                proof {
                    reveal_strlit(":");
                    assert(out@ =~= spec_render_port(*self));
                }
                out
            },
            None => crate::text::u16_to_string(self.target),
        }
    }
}

/// A rendered port token is well formed and parses back to the same
/// mapping: rendering loses nothing.
pub proof fn lemma_port_round_trip(pm: PortMapping)
    ensures
        port_token_ok(spec_render_port(pm)),
        spec_parse_port(spec_render_port(pm)) == pm,
{
    match pm.source {
        Some(sp) => {
            let a = crate::text::u16_digits(sp as int);
            let b = crate::text::u16_digits(pm.target as int);
            crate::text::lemma_u16_digits_value(sp as int);
            crate::text::lemma_u16_digits_value(pm.target as int);
            let s = a + seq![':'] + b;
            assert(spec_render_port(pm) == s);
            assert forall|j: int| 0 <= j < a.len() implies s[j] != ':' by {
                assert(s[j] == a[j]);
                assert(crate::text::is_digit(a[j]));
            }
            assert(s[a.len() as int] == ':');
            lemma_first_index(s, ':', a.len() as int);
            assert(s.take(a.len() as int) =~= a);
            assert(s.skip(a.len() as int + 1) =~= b);
        },
        None => {
            let b = crate::text::u16_digits(pm.target as int);
            crate::text::lemma_u16_digits_value(pm.target as int);
            assert forall|j: int| 0 <= j < b.len() implies b[j] != ':' by {
                assert(crate::text::is_digit(b[j]));
            }
            lemma_no_first_index(b, ':');
        },
    }
}

/// Deployment options carried through to the manifest unchanged.
#[derive(Debug)]
pub struct DeployOptions {
    pub mode: Option<String>,
    pub replicas: Option<u16>,
}

/// The mathematical value of [`DeployOptions`].
pub struct DeployView {
    pub mode: Option<Seq<char>>,
    pub replicas: Option<u16>,
}

impl View for DeployOptions {
    type V = DeployView;

    open spec fn view(&self) -> DeployView {
        DeployView { mode: opt_view(self.mode), replicas: self.replicas }
    }
}

/// The views of an optional vector of strings.
pub open spec fn opt_views(o: Option<Vec<String>>) -> Option<Seq<Seq<char>>> {
    match o {
        Some(v) => Some(crate::text::string_views(v@)),
        None => None,
    }
}

/// The views of a sequence of string pairs.
pub open spec fn pair_views(s: Seq<(String, String)>) -> Seq<(Seq<char>, Seq<char>)> {
    s.map_values(|p: (String, String)| (p.0@, p.1@))
}

/// The views of an optional vector of string pairs.
pub open spec fn opt_pair_views(
    o: Option<Vec<(String, String)>>,
) -> Option<Seq<(Seq<char>, Seq<char>)>> {
    match o {
        Some(v) => Some(pair_views(v@)),
        None => None,
    }
}

/// The contents of an optional vector of port mappings.
pub open spec fn opt_ports_view(o: Option<Vec<PortMapping>>) -> Option<Seq<PortMapping>> {
    match o {
        Some(v) => Some(v@),
        None => None,
    }
}

/// The view of an optional deploy section.
pub open spec fn opt_deploy_view(o: Option<DeployOptions>) -> Option<DeployView> {
    match o {
        Some(d) => Some(d@),
        None => None,
    }
}

/// One service template as read from a template file. Only `image` is
/// required; the remaining fields are copied into the manifest unchanged.
#[derive(Debug)]
pub struct ComposeServiceFragment {
    pub image: String,
    pub platform: Option<String>,
    pub restart: Option<String>,
    pub depends_on: Option<Vec<String>>,
    pub volumes: Option<Vec<String>>,
    pub environment: Option<Vec<(String, String)>>,
    pub ports: Option<Vec<PortMapping>>,
    pub deploy: Option<DeployOptions>,
}

/// The mathematical value of a template fragment.
pub struct FragmentView {
    pub image: Seq<char>,
    pub platform: Option<Seq<char>>,
    pub restart: Option<Seq<char>>,
    pub depends_on: Option<Seq<Seq<char>>>,
    pub volumes: Option<Seq<Seq<char>>>,
    pub environment: Option<Seq<(Seq<char>, Seq<char>)>>,
    pub ports: Option<Seq<PortMapping>>,
    pub deploy: Option<DeployView>,
}

impl View for ComposeServiceFragment {
    type V = FragmentView;

    open spec fn view(&self) -> FragmentView {
        FragmentView {
            image: self.image@,
            platform: opt_view(self.platform),
            restart: opt_view(self.restart),
            depends_on: opt_views(self.depends_on),
            volumes: opt_views(self.volumes),
            environment: opt_pair_views(self.environment),
            ports: opt_ports_view(self.ports),
            deploy: opt_deploy_view(self.deploy),
        }
    }
}

fn clone_opt_string_vec(o: &Option<Vec<String>>) -> (r: Option<Vec<String>>)
    ensures
        opt_views(r) == opt_views(*o),
{
    match o {
        Some(v) => Some(crate::text::clone_string_vec(v)),
        None => None,
    }
}

fn clone_pair_vec(v: &Vec<(String, String)>) -> (r: Vec<(String, String)>)
    ensures
        r@ == v@,
{
    let mut r: Vec<(String, String)> = Vec::new();
    let mut i: usize = 0;
    while i < v.len()
        invariant
            i <= v.len(),
            r@ == v@.subrange(0, i as int),
        decreases v.len() - i,
    {
        let p = &v[i];
        r.push((p.0.clone(), p.1.clone()));
        proof {
            assert(v@.subrange(0, (i + 1) as int) =~= v@.subrange(0, i as int).push(v@[i as int]));
        }
        i = i + 1;
    }
    proof {
        assert(v@.subrange(0, v@.len() as int) =~= v@);
    }
    r
}

fn clone_port_vec(v: &Vec<PortMapping>) -> (r: Vec<PortMapping>)
    ensures
        r@ == v@,
{
    let mut r: Vec<PortMapping> = Vec::new();
    let mut i: usize = 0;
    while i < v.len()
        invariant
            i <= v.len(),
            r@ == v@.subrange(0, i as int),
        decreases v.len() - i,
    {
        r.push(v[i]);
        proof {
            assert(v@.subrange(0, (i + 1) as int) =~= v@.subrange(0, i as int).push(v@[i as int]));
        }
        i = i + 1;
    }
    proof {
        assert(v@.subrange(0, v@.len() as int) =~= v@);
    }
    r
}

impl ComposeServiceFragment {
    /// A copy whose value equals this fragment's.
    pub fn duplicate(&self) -> (r: ComposeServiceFragment)
        ensures
            r@ == self@,
    {
        ComposeServiceFragment {
            image: self.image.clone(),
            platform: crate::text::clone_opt_string(&self.platform),
            restart: crate::text::clone_opt_string(&self.restart),
            depends_on: clone_opt_string_vec(&self.depends_on),
            volumes: clone_opt_string_vec(&self.volumes),
            environment: match &self.environment {
                Some(v) => Some(clone_pair_vec(v)),
                None => None,
            },
            ports: match &self.ports {
                Some(v) => Some(clone_port_vec(v)),
                None => None,
            },
            deploy: match &self.deploy {
                Some(d) => Some(
                    DeployOptions {
                        mode: crate::text::clone_opt_string(&d.mode),
                        replicas: d.replicas,
                    },
                ),
                None => None,
            },
        }
    }

    /// The parsed image reference, when the image string is well formed.
    pub fn get_version(&self) -> (r: Option<ImageVersion>)
        ensures
            match r {
                Some(iv) => image_parse_ok(self@.image) && iv@ == spec_parse_image(self@.image),
                None => !image_parse_ok(self@.image),
            },
    {
        match ImageVersion::new(self.image.as_str()) {
            Ok(iv) => Some(iv),
            Err(_) => None,
        }
    }

    /// The image string without its version, when it is well formed.
    pub fn get_image_name(&self) -> (r: Option<String>)
        ensures
            match r {
                Some(s) => image_parse_ok(self@.image) && s@ == image_render(
                    image_repo(self@.image),
                    image_name(self@.image),
                    None,
                ),
                None => !image_parse_ok(self@.image),
            },
    {
        match ImageVersion::new(self.image.as_str()) {
            Ok(iv) => Some(iv.get_without_version()),
            Err(_) => None,
        }
    }
}

/// A named service: its catalog key, its image-without-version identity, and
/// the template fragment it came from.
#[derive(Debug)]
pub struct ComposeService {
    name: String,
    image: String,
    fragment: ComposeServiceFragment,
}

/// The mathematical value of a [`ComposeService`].
pub struct ServiceView {
    pub name: Seq<char>,
    pub image: Seq<char>,
    pub fragment: FragmentView,
}

impl View for ComposeService {
    type V = ServiceView;

    closed spec fn view(&self) -> ServiceView {
        ServiceView { name: self.name@, image: self.image@, fragment: self.fragment@ }
    }
}

/// The dependency names a service declares.
pub open spec fn spec_dependencies(s: ServiceView) -> Seq<Seq<char>> {
    match s.fragment.depends_on {
        Some(l) => l,
        None => Seq::<Seq<char>>::empty(),
    }
}

/// `f` with its image string replaced.
pub open spec fn fragment_with_image(f: FragmentView, image: Seq<char>) -> FragmentView {
    FragmentView {
        image,
        platform: f.platform,
        restart: f.restart,
        depends_on: f.depends_on,
        volumes: f.volumes,
        environment: f.environment,
        ports: f.ports,
        deploy: f.deploy,
    }
}

impl ComposeService {
    /// Builds a service from its parts.
    pub fn new(name: &str, image: &str, frag: &ComposeServiceFragment) -> (r: ComposeService)
        ensures
            r@.name == name@,
            r@.image == image@,
            r@.fragment == frag@,
    {
        ComposeService {
            name: String::from_str(name),
            image: String::from_str(image),
            fragment: frag.duplicate(),
        }
    }

    /// A copy whose value equals this service's.
    pub fn duplicate(&self) -> (r: ComposeService)
        ensures
            r@ == self@,
    {
        ComposeService {
            name: self.name.clone(),
            image: self.image.clone(),
            fragment: self.fragment.duplicate(),
        }
    }

    /// The dependency names this service declares.
    pub fn get_dependencies(&self) -> (r: Vec<String>)
        ensures
            crate::text::string_views(r@) == spec_dependencies(self@),
    {
        match &self.fragment.depends_on {
            Some(v) => {
                let r = crate::text::clone_string_vec(v);
                proof {
                    assert(crate::text::string_views(r@) =~= spec_dependencies(self@));
                }
                r
            },
            None => {
                let r: Vec<String> = Vec::new();
                proof {
                    assert(crate::text::string_views(r@) =~= spec_dependencies(self@));
                }
                r
            },
        }
    }

    /// The catalog key of this service.
    pub fn name(&self) -> (r: String)
        ensures
            r@ == self@.name,
    {
        self.name.clone()
    }

    /// The image-without-version identity of this service.
    pub fn image(&self) -> (r: String)
        ensures
            r@ == self@.image,
    {
        self.image.clone()
    }

    /// The template fragment this service came from.
    pub fn fragment(&self) -> (r: &ComposeServiceFragment)
        ensures
            r@ == self@.fragment,
    {
        &self.fragment
    }

    /// The fragment with its image rewritten to carry `version`, when a
    /// version is given and the image string is well formed; otherwise an
    /// unchanged copy of the fragment.
    pub fn fragment_using_version(&self, version: Option<String>) -> (r: ComposeServiceFragment)
        ensures
            version is Some && image_parse_ok(self@.fragment.image) ==> r@ == fragment_with_image(
                self@.fragment,
                image_render(
                    image_repo(self@.fragment.image),
                    image_name(self@.fragment.image),
                    opt_view(version),
                ),
            ),
            !(version is Some && image_parse_ok(self@.fragment.image)) ==> r@ == self@.fragment,
    {
        if version.is_some() {
            match ImageVersion::new(self.fragment.image.as_str()) {
                Ok(iv) => {
                    let updated = iv.with_version(version);
                    let updated_image = updated.get();
                    let mut r = self.fragment.duplicate();
                    r.image = updated_image;
                    return r;
                },
                Err(_) => {},
            }
        }
        self.fragment.duplicate()
    }
}

/// The views of a sequence of services.
pub open spec fn services_views(s: Seq<ComposeService>) -> Seq<ServiceView> {
    s.map_values(|c: ComposeService| c@)
}

/// The catalog keys, in catalog order.
pub open spec fn catalog_names(m: Seq<ServiceView>) -> Seq<Seq<char>> {
    m.map_values(|sv: ServiceView| sv.name)
}

/// The first service named `name`, if any.
pub open spec fn catalog_get(m: Seq<ServiceView>, name: Seq<char>) -> Option<ServiceView>
    decreases m.len(),
{
    if m.len() == 0 {
        None
    } else if m[0].name == name {
        Some(m[0])
    } else {
        catalog_get(m.drop_first(), name)
    }
}

/// Whether the catalog holds a service named `name`.
pub open spec fn catalog_has(m: Seq<ServiceView>, name: Seq<char>) -> bool {
    catalog_get(m, name) is Some
}

/// `catalog_get` finds the match at `i` when nothing before `i` matches.
pub proof fn lemma_catalog_get_at(m: Seq<ServiceView>, name: Seq<char>, i: int)
    requires
        0 <= i < m.len(),
        m[i].name == name,
        forall|k: int| 0 <= k < i ==> m[k].name != name,
    ensures
        catalog_get(m, name) == Some(m[i]),
    decreases i,
{
    if i > 0 {
        assert forall|k: int| 0 <= k < i - 1 implies m.drop_first()[k].name != name by {
            assert(m.drop_first()[k] == m[k + 1]);
        }
        assert(m.drop_first()[i - 1] == m[i]);
        lemma_catalog_get_at(m.drop_first(), name, i - 1);
    }
}

/// `catalog_get` finds nothing when no entry matches.
pub proof fn lemma_catalog_get_none(m: Seq<ServiceView>, name: Seq<char>)
    requires
        forall|k: int| 0 <= k < m.len() ==> m[k].name != name,
    ensures
        catalog_get(m, name) is None,
    decreases m.len(),
{
    if m.len() > 0 {
        assert forall|k: int| 0 <= k < m.drop_first().len() implies m.drop_first()[k].name
            != name by {
            assert(m.drop_first()[k] == m[k + 1]);
        }
        lemma_catalog_get_none(m.drop_first(), name);
    }
}

/// What `catalog_get` returns is an entry of the catalog.
pub proof fn lemma_catalog_get_is_entry(m: Seq<ServiceView>, name: Seq<char>)
    ensures
        match catalog_get(m, name) {
            Some(sv) => m.contains(sv) && sv.name == name,
            None => forall|k: int| 0 <= k < m.len() ==> m[k].name != name,
        },
    decreases m.len(),
{
    if m.len() > 0 {
        lemma_catalog_get_is_entry(m.drop_first(), name);
        if m[0].name != name {
            match catalog_get(m.drop_first(), name) {
                Some(sv) => {
                    let k = choose|k: int|
                        0 <= k < m.drop_first().len() && m.drop_first()[k] == sv;
                    assert(m[k + 1] == sv);
                },
                None => {
                    assert forall|k: int| 0 <= k < m.len() implies m[k].name != name by {
                        if k > 0 {
                            assert(m.drop_first()[k - 1] == m[k]);
                        }
                    }
                },
            }
        }
    }
}

/// The names of a batch of catalog entries.
pub open spec fn entry_names(es: Seq<(String, ComposeServiceFragment)>) -> Seq<Seq<char>> {
    es.map_values(|e: (String, ComposeServiceFragment)| e.0@)
}

/// The template catalog: one service per template, keyed by unique name.
#[derive(Debug)]
pub struct ComposeServiceMap {
    templates: Vec<ComposeService>,
}

impl View for ComposeServiceMap {
    type V = Seq<ServiceView>;

    closed spec fn view(&self) -> Seq<ServiceView> {
        services_views(self.templates@)
    }
}

impl ComposeServiceMap {
    /// The catalog invariant: service names are unique keys.
    pub open spec fn wf(&self) -> bool {
        catalog_names(self@).no_duplicates()
    }

    /// Builds the catalog from named template fragments. Each service takes
    /// the entry's name and the fragment's image-without-version identity.
    /// Fails on the first fragment whose image string has no name segment.
    pub fn new(entries: Vec<(String, ComposeServiceFragment)>) -> (r: Result<
        ComposeServiceMap,
        TemplateError,
    >)
        requires
            entry_names(entries@).no_duplicates(),
        ensures
            match r {
                Ok(m) => {
                    &&& m.wf()
                    &&& m@.len() == entries@.len()
                    &&& forall|i: int|
                        0 <= i < entries@.len() ==> {
                            &&& image_parse_ok(#[trigger] entries@[i].1@.image)
                            &&& m@[i].name == entries@[i].0@
                            &&& m@[i].fragment == entries@[i].1@
                            &&& m@[i].image == image_render(
                                image_repo(entries@[i].1@.image),
                                image_name(entries@[i].1@.image),
                                None,
                            )
                        }
                },
                Err(e) => {
                    &&& e matches TemplateError::ServiceName { input }
                    &&& exists|i: int|
                        {
                            &&& 0 <= i < entries@.len()
                            &&& !image_parse_ok(#[trigger] entries@[i].1@.image)
                            &&& forall|j: int| 0 <= j < i ==> image_parse_ok(
                                #[trigger] entries@[j].1@.image,
                            )
                            &&& input@ == entries@[i].1@.image
                        }
                },
            },
    {
        let mut templates: Vec<ComposeService> = Vec::new();
        let mut i: usize = 0;
        while i < entries.len()
            invariant
                i <= entries@.len(),
                templates@.len() == i,
                forall|k: int| 0 <= k < i ==> image_parse_ok(#[trigger] entries@[k].1@.image),
                forall|k: int|
                    0 <= k < i ==> (#[trigger] templates@[k])@.name == entries@[k].0@,
                forall|k: int|
                    0 <= k < i ==> (#[trigger] templates@[k])@.fragment == entries@[k].1@,
                forall|k: int|
                    0 <= k < i ==> (#[trigger] templates@[k])@.image == image_render(
                        image_repo(entries@[k].1@.image),
                        image_name(entries@[k].1@.image),
                        None,
                    ),
            decreases entries@.len() - i,
        {
            let e = &entries[i];
            match e.1.get_image_name() {
                Some(img) => {
                    templates.push(ComposeService::new(e.0.as_str(), img.as_str(), &e.1));
                },
                None => {
                    return Err(TemplateError::ServiceName { input: e.1.image.clone() });
                },
            }
            i = i + 1;
        }
        let m = ComposeServiceMap { templates };
        proof {
            assert forall|k: int| 0 <= k < m@.len() implies {
                &&& m@[k].name == entries@[k].0@
                &&& m@[k].fragment == entries@[k].1@
                &&& m@[k].image == image_render(
                    image_repo(entries@[k].1@.image),
                    image_name(entries@[k].1@.image),
                    None,
                )
            } by {
                assert(m@[k] == templates@[k]@);
            }
            assert forall|k: int| 0 <= k < m@.len() implies catalog_names(m@)[k] == entry_names(
                entries@,
            )[k] by {
                assert(m@[k].name == entries@[k].0@);
            }
            assert(catalog_names(m@) =~= entry_names(entries@));
        }
        Ok(m)
    }

    /// Looks a service up by name.
    pub fn get_service_fragment(&self, service: &str) -> (r: Option<&ComposeService>)
        ensures
            match r {
                Some(c) => catalog_get(self@, service@) == Some(c@),
                None => catalog_get(self@, service@) is None,
            },
    {
        let mut i: usize = 0;
        while i < self.templates.len()
            invariant
                i <= self.templates@.len(),
                self@ == services_views(self.templates@),
                forall|k: int| 0 <= k < i ==> self@[k].name != service@,
            decreases self.templates@.len() - i,
        {
            if str_eq(self.templates[i].name.as_str(), service) {
                proof {
                    assert(self@[i as int].name == service@);
                    lemma_catalog_get_at(self@, service@, i as int);
                }
                return Some(&self.templates[i]);
            }
            i = i + 1;
        }
        proof {
            lemma_catalog_get_none(self@, service@);
        }
        None
    }
}

// Port-conflict detection. A template claims a host port with every port
// mapping that has a source; target-only mappings claim nothing. A port
// claimed more than once across the catalog is a conflict.
/// The `(source port, service name)` claims of one list of mappings.
pub open spec fn ports_claims(ps: Seq<PortMapping>, name: Seq<char>) -> Seq<(u16, Seq<char>)>
    decreases ps.len(),
{
    if ps.len() == 0 {
        Seq::<(u16, Seq<char>)>::empty()
    } else {
        ports_claims(ps.drop_last(), name) + (match ps.last().source {
            Some(sp) => seq![(sp, name)],
            None => Seq::<(u16, Seq<char>)>::empty(),
        })
    }
}

/// The claims of one service.
pub open spec fn service_claims(sv: ServiceView) -> Seq<(u16, Seq<char>)> {
    match sv.fragment.ports {
        Some(ps) => ports_claims(ps, sv.name),
        None => Seq::<(u16, Seq<char>)>::empty(),
    }
}

/// All claims of the catalog, in catalog order.
pub open spec fn catalog_claims(m: Seq<ServiceView>) -> Seq<(u16, Seq<char>)>
    decreases m.len(),
{
    if m.len() == 0 {
        Seq::<(u16, Seq<char>)>::empty()
    } else {
        catalog_claims(m.drop_last()) + service_claims(m.last())
    }
}

/// How many claims name the port `p`.
pub open spec fn count_port(claims: Seq<(u16, Seq<char>)>, p: u16) -> int
    decreases claims.len(),
{
    if claims.len() == 0 {
        0
    } else {
        count_port(claims.drop_last(), p) + (if claims.last().0 == p {
            1int
        } else {
            0int
        })
    }
}

/// The names of the services claiming `p`, in claim order.
pub open spec fn claimants(claims: Seq<(u16, Seq<char>)>, p: u16) -> Seq<Seq<char>>
    decreases claims.len(),
{
    if claims.len() == 0 {
        Seq::<Seq<char>>::empty()
    } else {
        claimants(claims.drop_last(), p) + (if claims.last().0 == p {
            seq![claims.last().1]
        } else {
            Seq::<Seq<char>>::empty()
        })
    }
}

/// The conflicting ports found from claim index `i` on: each port claimed
/// more than once, listed once, at its first appearance.
pub open spec fn conflict_ports_from(claims: Seq<(u16, Seq<char>)>, i: int) -> Seq<u16>
    decreases claims.len() - i,
    when 0 <= i
{
    if i >= claims.len() {
        Seq::<u16>::empty()
    } else {
        let p = claims[i].0;
        let rest = conflict_ports_from(claims, i + 1);
        if exists|j: int| 0 <= j < i && (#[trigger] claims[j]).0 == p {
            rest
        } else if count_port(claims, p) > 1 {
            seq![p] + rest
        } else {
            rest
        }
    }
}

/// The conflict report of a catalog: each conflicting port with the names
/// of the services that claim it.
pub open spec fn spec_port_conflicts(m: Seq<ServiceView>) -> Seq<(u16, Seq<Seq<char>>)> {
    conflict_ports_from(catalog_claims(m), 0).map_values(
        |p: u16| (p, claimants(catalog_claims(m), p)),
    )
}

/// A port is reported as conflicting exactly when it is claimed more than
/// once. A mapping without a source port makes no claim, so a template that
/// only publishes target ports is never reported.
pub proof fn lemma_conflict_iff(claims: Seq<(u16, Seq<char>)>, i: int, p: u16)
    requires
        0 <= i <= claims.len(),
    ensures
        conflict_ports_from(claims, i).contains(p) <==> (count_port(claims, p) > 1 && exists|k: int|
            i <= k < claims.len() && (#[trigger] claims[k]).0 == p && (forall|j: int|
                0 <= j < k ==> (#[trigger] claims[j]).0 != p)),
    decreases claims.len() - i,
{
    if i == claims.len() {
        assert(!conflict_ports_from(claims, i).contains(p));
    } else {
        lemma_conflict_iff(claims, i + 1, p);
        let q = claims[i].0;
        let rest = conflict_ports_from(claims, i + 1);
        if exists|j: int| 0 <= j < i && (#[trigger] claims[j]).0 == q {
            assert(conflict_ports_from(claims, i) == rest);
            if p == q {
                let j0 = choose|j: int| 0 <= j < i && (#[trigger] claims[j]).0 == q;
                assert forall|k: int|
                    i <= k < claims.len() && (#[trigger] claims[k]).0 == p implies !(forall|j: int|
                    0 <= j < k ==> (#[trigger] claims[j]).0 != p) by {
                    assert(claims[j0].0 == p);
                }
                assert forall|k: int|
                    i + 1 <= k < claims.len() && (#[trigger] claims[k]).0 == p implies !(forall|
                        j: int,
                    | 0 <= j < k ==> (#[trigger] claims[j]).0 != p) by {
                    assert(claims[j0].0 == p);
                }
            }
        } else if count_port(claims, q) > 1 {
            assert(conflict_ports_from(claims, i) == seq![q] + rest);
            assert(conflict_ports_from(claims, i)[0] == q);
            if p == q {
                assert(conflict_ports_from(claims, i).contains(p));
                assert(claims[i].0 == p && (forall|j: int|
                    0 <= j < i ==> (#[trigger] claims[j]).0 != p));
            } else {
                assert forall|x: u16| (seq![q] + rest).contains(x) && x != q implies rest.contains(
                    x,
                ) by {
                    let ix = choose|ix: int|
                        0 <= ix < (seq![q] + rest).len() && (seq![q] + rest)[ix] == x;
                    assert(rest[ix - 1] == x);
                }
                if rest.contains(p) {
                    assert((seq![q] + rest).contains(p)) by {
                        let ix = choose|ix: int| 0 <= ix < rest.len() && rest[ix] == p;
                        assert((seq![q] + rest)[ix + 1] == p);
                    }
                }
                assert forall|k: int|
                    i <= k < claims.len() && (#[trigger] claims[k]).0 == p implies k >= i + 1 by {}
            }
        } else {
            assert(conflict_ports_from(claims, i) == rest);
            if p == q {
                assert(!(count_port(claims, p) > 1));
            }
        }
    }
}

/// `count_port` unfolded at the front of the claim list.
proof fn lemma_count_port_front(claims: Seq<(u16, Seq<char>)>, p: u16)
    requires
        claims.len() > 0,
    ensures
        count_port(claims, p) == (if claims[0].0 == p {
            1int
        } else {
            0int
        }) + count_port(claims.drop_first(), p),
    decreases claims.len(),
{
    if claims.len() > 1 {
        lemma_count_port_front(claims.drop_last(), p);
        assert(claims.drop_last().drop_first() =~= claims.drop_first().drop_last());
        assert(claims.drop_first().last() == claims.last());
    } else {
        assert(claims.drop_first() =~= Seq::<(u16, Seq<char>)>::empty());
        assert(claims.drop_last() =~= Seq::<(u16, Seq<char>)>::empty());
    }
}

/// A port with a positive claim count has a first claim.
proof fn lemma_count_pos_first(claims: Seq<(u16, Seq<char>)>, p: u16)
    requires
        count_port(claims, p) > 0,
    ensures
        exists|k: int|
            0 <= k < claims.len() && (#[trigger] claims[k]).0 == p && (forall|j: int|
                0 <= j < k ==> (#[trigger] claims[j]).0 != p),
    decreases claims.len(),
{
    lemma_count_port_front(claims, p);
    if claims[0].0 == p {
        assert(claims[0].0 == p && (forall|j: int| 0 <= j < 0 ==> (#[trigger] claims[j]).0 != p));
    } else {
        lemma_count_pos_first(claims.drop_first(), p);
        let k = choose|k: int|
            0 <= k < claims.drop_first().len() && (#[trigger] claims.drop_first()[k]).0 == p && (
            forall|j: int| 0 <= j < k ==> (#[trigger] claims.drop_first()[j]).0 != p);
        assert(claims[k + 1] == claims.drop_first()[k]);
        assert forall|j: int| 0 <= j < k + 1 implies (#[trigger] claims[j]).0 != p by {
            if j > 0 {
                assert(claims.drop_first()[j - 1] == claims[j]);
            }
        }
    }
}

/// The ports of the conflict report.
pub open spec fn conflict_report_ports(r: Seq<(u16, Seq<Seq<char>>)>) -> Seq<u16> {
    r.map_values(|e: (u16, Seq<Seq<char>>)| e.0)
}

/// The report lists a port exactly when it is claimed more than once. A
/// mapping without a source port makes no claim, so a template that only
/// publishes a target port is never reported.
pub proof fn lemma_port_conflict_reported(m: Seq<ServiceView>, p: u16)
    ensures
        conflict_report_ports(spec_port_conflicts(m)).contains(p) <==> count_port(
            catalog_claims(m),
            p,
        ) > 1,
{
    let cl = catalog_claims(m);
    lemma_conflict_iff(cl, 0, p);
    assert(conflict_report_ports(spec_port_conflicts(m)) =~= conflict_ports_from(cl, 0));
    if count_port(cl, p) > 1 {
        lemma_count_pos_first(cl, p);
    }
}

/// Mappings that publish only target ports claim nothing.
pub proof fn lemma_no_source_no_claims(ps: Seq<PortMapping>, name: Seq<char>)
    requires
        forall|i: int| 0 <= i < ps.len() ==> (#[trigger] ps[i]).source is None,
    ensures
        ports_claims(ps, name) == Seq::<(u16, Seq<char>)>::empty(),
    decreases ps.len(),
{
    if ps.len() > 0 {
        lemma_no_source_no_claims(ps.drop_last(), name);
        assert(ports_claims(ps, name) =~= Seq::<(u16, Seq<char>)>::empty());
    }
}

/// The view of a collected claim list.
spec fn claims_view(s: Seq<(u16, String)>) -> Seq<(u16, Seq<char>)> {
    s.map_values(|c: (u16, String)| (c.0, c.1@))
}

impl ComposeServiceMap {
    /// Gathers every `(source port, service name)` claim, in catalog order.
    fn collect_claims(&self) -> (r: Vec<(u16, String)>)
        ensures
            claims_view(r@) == catalog_claims(self@),
    {
        let mut out: Vec<(u16, String)> = Vec::new();
        let mut i: usize = 0;
        while i < self.templates.len()
            invariant
                i <= self.templates@.len(),
                self@ == services_views(self.templates@),
                claims_view(out@) == catalog_claims(self@.take(i as int)),
            decreases self.templates@.len() - i,
        {
            let t = &self.templates[i];
            let ghost base = catalog_claims(self@.take(i as int));
            match &t.fragment.ports {
                Some(ps) => {
                    let mut k: usize = 0;
                    while k < ps.len()
                        invariant
                            k <= ps@.len(),
                            i < self.templates@.len(),
                            self@ == services_views(self.templates@),
                            t@ == self@[i as int],
                            t@.fragment.ports == Some(ps@),
                            claims_view(out@) == base + ports_claims(ps@.take(k as int), t@.name),
                            base == catalog_claims(self@.take(i as int)),
                        decreases ps@.len() - k,
                    {
                        let ghost oc = out@;
                        let ghost prev = ports_claims(ps@.take(k as int), t@.name);
                        match ps[k].source {
                            Some(sp) => {
                                out.push((sp, t.name.clone()));
                                proof {
                                    assert(claims_view(out@) =~= claims_view(oc).push(
                                        (sp, t@.name),
                                    ));
                                }
                            },
                            None => {},
                        }
                        proof {
                            assert(ps@.take((k + 1) as int).drop_last() =~= ps@.take(k as int));
                            assert(ps@.take((k + 1) as int).last() == ps@[k as int]);
                            match ps@[k as int].source {
                                Some(sp) => {
                                    assert(ports_claims(ps@.take((k + 1) as int), t@.name) == prev
                                        + seq![(sp, t@.name)]);
                                    assert(base + ports_claims(ps@.take((k + 1) as int), t@.name)
                                        =~= (base + prev).push((sp, t@.name)));
                                },
                                None => {
                                    assert(ports_claims(ps@.take((k + 1) as int), t@.name) =~= prev);
                                },
                            }
                        }
                        k = k + 1;
                    }
                    proof {
                        assert(ps@.take(ps@.len() as int) =~= ps@);
                        assert(service_claims(t@) == ports_claims(ps@, t@.name));
                    }
                },
                None => {
                    proof {
                        assert(service_claims(t@) =~= Seq::<(u16, Seq<char>)>::empty());
                        assert(base + service_claims(t@) =~= base);
                    }
                },
            }
            proof {
                assert(self@.take((i + 1) as int).drop_last() =~= self@.take(i as int));
                assert(self@.take((i + 1) as int).last() == self@[i as int]);
                assert(catalog_claims(self@.take((i + 1) as int)) == base + service_claims(t@));
            }
            i = i + 1;
        }
        proof {
            assert(self@.take(self@.len() as int) =~= self@);
        }
        out
    }
}

/// How many entries of `claims` name the port `p`.
fn count_claims(claims: &Vec<(u16, String)>, p: u16) -> (c: usize)
    ensures
        c as int == count_port(claims_view(claims@), p),
{
    let ghost cl = claims_view(claims@);
    let mut c: usize = 0;
    let mut k: usize = 0;
    while k < claims.len()
        invariant
            k <= claims@.len(),
            cl == claims_view(claims@),
            c <= k,
            c as int == count_port(cl.take(k as int), p),
        decreases claims@.len() - k,
    {
        proof {
            assert(cl.take((k + 1) as int).drop_last() =~= cl.take(k as int));
            assert(cl.take((k + 1) as int).last() == cl[k as int]);
        }
        if claims[k].0 == p {
            c = c + 1;
        }
        k = k + 1;
    }
    proof {
        assert(cl.take(cl.len() as int) =~= cl);
    }
    c
}

/// The names attached to claims of `p`, in claim order.
fn claimant_names(claims: &Vec<(u16, String)>, p: u16) -> (r: Vec<String>)
    ensures
        crate::text::string_views(r@) == claimants(claims_view(claims@), p),
{
    let ghost cl = claims_view(claims@);
    let mut r: Vec<String> = Vec::new();
    let mut k: usize = 0;
    while k < claims.len()
        invariant
            k <= claims@.len(),
            cl == claims_view(claims@),
            crate::text::string_views(r@) == claimants(cl.take(k as int), p),
        decreases claims@.len() - k,
    {
        let ghost orv = r@;
        proof {
            assert(cl.take((k + 1) as int).drop_last() =~= cl.take(k as int));
            assert(cl.take((k + 1) as int).last() == cl[k as int]);
        }
        if claims[k].0 == p {
            r.push(claims[k].1.clone());
            proof {
                assert(crate::text::string_views(r@) =~= crate::text::string_views(orv).push(
                    cl[k as int].1,
                ));
                assert(claimants(cl.take((k + 1) as int), p) =~= claimants(cl.take(k as int), p)
                    + seq![cl[k as int].1]);
                assert(crate::text::string_views(orv).push(cl[k as int].1) =~= crate::text::string_views(
                    orv,
                ) + seq![cl[k as int].1]);
            }
        } else {
            proof {
                assert(claimants(cl.take((k + 1) as int), p) =~= claimants(cl.take(k as int), p));
            }
        }
        k = k + 1;
    }
    proof {
        assert(cl.take(cl.len() as int) =~= cl);
    }
    r
}

/// Whether any claim before `upto` names `p`.
fn port_seen(claims: &Vec<(u16, String)>, p: u16, upto: usize) -> (r: bool)
    requires
        upto <= claims@.len(),
    ensures
        r == exists|j: int| 0 <= j < upto && (#[trigger] claims_view(claims@)[j]).0 == p,
{
    let ghost cl = claims_view(claims@);
    let mut k: usize = 0;
    while k < upto
        invariant
            k <= upto <= claims@.len(),
            cl == claims_view(claims@),
            forall|j: int| 0 <= j < k ==> (#[trigger] cl[j]).0 != p,
        decreases upto - k,
    {
        if claims[k].0 == p {
            proof {
                assert(cl[k as int].0 == p);
            }
            return true;
        }
        k = k + 1;
    }
    false
}

/// The view of a conflict report.
pub open spec fn conflicts_view(r: Seq<(u16, Vec<String>)>) -> Seq<(u16, Seq<Seq<char>>)> {
    r.map_values(|e: (u16, Vec<String>)| (e.0, crate::text::string_views(e.1@)))
}

impl ComposeServiceMap {
    /// The port-conflict report: every host port claimed by more than one
    /// port mapping, with the names of the claiming services, each port
    /// listed once at its first claim.
    pub fn port_conflicts(&self) -> (r: Vec<(u16, Vec<String>)>)
        ensures
            conflicts_view(r@) == spec_port_conflicts(self@),
    {
        let claims = self.collect_claims();
        let ghost cl = catalog_claims(self@);
        let mut out: Vec<(u16, Vec<String>)> = Vec::new();
        let mut i: usize = 0;
        while i < claims.len()
            invariant
                i <= claims@.len(),
                claims_view(claims@) == cl,
                cl == catalog_claims(self@),
                conflict_ports_from(cl, 0) == conflict_report_ports(conflicts_view(out@))
                    + conflict_ports_from(cl, i as int),
                forall|k: int|
                    0 <= k < out@.len() ==> #[trigger] conflicts_view(out@)[k] == (
                    conflicts_view(out@)[k].0,
                    claimants(cl, conflicts_view(out@)[k].0),
                ),
            decreases claims@.len() - i,
        {
            let p = claims[i].0;
            let ghost oc = out@;
            let seen = port_seen(&claims, p, i);
            if !seen {
                let cnt = count_claims(&claims, p);
                if cnt > 1 {
                    let names = claimant_names(&claims, p);
                    out.push((p, names));
                    proof {
                        assert(conflict_ports_from(cl, i as int) == seq![p]
                            + conflict_ports_from(cl, (i + 1) as int));
                        assert(conflict_report_ports(conflicts_view(out@)) =~= conflict_report_ports(
                            conflicts_view(oc),
                        ).push(p));
                        assert(conflict_report_ports(conflicts_view(oc)) + (seq![p]
                            + conflict_ports_from(cl, (i + 1) as int)) =~= conflict_report_ports(
                            conflicts_view(out@),
                        ) + conflict_ports_from(cl, (i + 1) as int));
                        assert(conflicts_view(out@) =~= conflicts_view(oc).push(
                            (p, crate::text::string_views(names@)),
                        ));
                    }
                } else {
                    proof {
                        assert(conflict_ports_from(cl, i as int) == conflict_ports_from(
                            cl,
                            (i + 1) as int,
                        ));
                    }
                }
            } else {
                proof {
                    assert(conflict_ports_from(cl, i as int) == conflict_ports_from(
                        cl,
                        (i + 1) as int,
                    ));
                }
            }
            i = i + 1;
        }
        proof {
            assert(conflict_ports_from(cl, claims@.len() as int) =~= Seq::<u16>::empty());
            assert(conflict_report_ports(conflicts_view(out@)) + Seq::<u16>::empty()
                =~= conflict_report_ports(conflicts_view(out@)));
            assert(conflict_report_ports(conflicts_view(out@)) == conflict_ports_from(cl, 0));
            assert forall|k: int| 0 <= k < out@.len() implies conflicts_view(out@)[k]
                == spec_port_conflicts(self@)[k] by {
                assert(conflicts_view(out@)[k].0 == conflict_report_ports(conflicts_view(out@))[k]);
            }
            assert(conflicts_view(out@) =~= spec_port_conflicts(self@));
        }
        out
    }
}

/// The first `limit` ports of `lo..=hi` that no template claims, in
/// ascending order.
pub open spec fn spec_free_ports(
    claims: Seq<(u16, Seq<char>)>,
    lo: int,
    hi: int,
    limit: int,
) -> Seq<u16>
    decreases hi + 1 - lo,
{
    if lo > hi || limit <= 0 {
        Seq::<u16>::empty()
    } else if count_port(claims, lo as u16) == 0 {
        seq![lo as u16] + spec_free_ports(claims, lo + 1, hi, limit - 1)
    } else {
        spec_free_ports(claims, lo + 1, hi, limit)
    }
}

impl ComposeServiceMap {
    /// Up to `limit` ports of `low..=high` that no template claims, to aid
    /// reassigning conflicting ports.
    pub fn free_ports(&self, low: u16, high: u16, limit: usize) -> (r: Vec<u16>)
        ensures
            r@ == spec_free_ports(catalog_claims(self@), low as int, high as int, limit as int),
    {
        if low > high {
            return Vec::new();
        }
        let claims = self.collect_claims();
        let ghost cl = catalog_claims(self@);
        let mut out: Vec<u16> = Vec::new();
        let mut p: u32 = low as u32;
        let mut remaining: usize = limit;
        while p <= high as u32 && remaining > 0
            invariant
                low as int <= p as int <= high as int + 1,
                remaining <= limit,
                claims_view(claims@) == cl,
                cl == catalog_claims(self@),
                spec_free_ports(cl, low as int, high as int, limit as int) == out@
                    + spec_free_ports(cl, p as int, high as int, remaining as int),
            decreases high as int + 1 - p as int,
        {
            let ghost oo = out@;
            let cnt = count_claims(&claims, p as u16);
            if cnt == 0 {
                out.push(p as u16);
                remaining = remaining - 1;
                proof {
                    assert(spec_free_ports(cl, p as int, high as int, (remaining + 1) as int)
                        == seq![p as u16] + spec_free_ports(
                        cl,
                        p as int + 1,
                        high as int,
                        remaining as int,
                    ));
                    assert(oo + (seq![p as u16] + spec_free_ports(
                        cl,
                        p as int + 1,
                        high as int,
                        remaining as int,
                    )) =~= out@ + spec_free_ports(cl, p as int + 1, high as int, remaining as int));
                }
            }
            p = p + 1;
        }
        proof {
            assert(spec_free_ports(cl, p as int, high as int, remaining as int) =~= Seq::<
                u16,
            >::empty());
            assert(out@ + Seq::<u16>::empty() =~= out@);
        }
        out
    }
}

/// Rendering the parts of a well-formed image string gives the string back:
/// parsing loses nothing.
pub proof fn lemma_image_round_trip(s: Seq<char>)
    requires
        image_parse_ok(s),
    ensures
        image_render(image_repo(s), image_name(s), image_version(s)) == s,
{
    s.index_of_first_ensures('/');
    let rest = image_rest(s);
    rest.index_of_first_ensures(':');
    match s.index_of_first('/') {
        Some(i) => {
            if i > 0 {
                assert(s =~= s.take(i) + seq!['/'] + s.skip(i + 1));
            }
        },
        None => {},
    }
    match rest.index_of_first(':') {
        Some(j) => {
            assert(rest =~= rest.take(j) + seq![':'] + rest.skip(j + 1));
        },
        None => {},
    }
    assert(image_render(image_repo(s), image_name(s), image_version(s)) =~= s);
}

} // verus!
