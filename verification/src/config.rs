//! The top-level configuration: the scenario table, the template directory
//! path, the host port range, the reference-feed descriptor and the volume
//! list — and the dependency resolver that expands a scenario into the
//! deduplicated, sorted list of services it needs.

use vstd::prelude::*;
use vstd::relations::sorted_by;
use vstd::string::StrSliceExecFns;
use vstd::string::StringExecFns;
use crate::reference::Reference;
use crate::templates::{
    catalog_get, catalog_has, catalog_names, services_views, spec_dependencies, ComposeService,
    ComposeServiceMap, ServiceView,
};
use crate::text::{
    all_digits, assoc_get, contains_str, digits_to_nat, find_first, lemma_assoc_get_at,
    lemma_assoc_get_is_entry, lemma_assoc_get_none, lemma_first_index, lemma_lex_leq_connected,
    lemma_lex_leq_transitive, lemma_no_first_index, lex_leq, lex_leq_fn, parse_u16, str_eq,
    str_leq, string_views,
};
use crate::volumes::{VolumeInitializer, VolumeView};

verus! {

broadcast use vstd::seq_lib::group_to_multiset_ensures;

/// Errors raised while resolving a scenario.
#[derive(Debug)]
pub enum Error {
    /// The name is neither a template nor a scenario.
    NotFound { input: String },
}

/// The member names of one scenario.
pub type ServiceList = Vec<String>;

// The host port range is written `"<low>-<high>"`: each side a digit run
// without a leading zero whose value fits a port. The sides are swapped if
// inverted; any other string yields no range rather than an error.
/// One side of a port range.
pub open spec fn range_side_ok(d: Seq<char>) -> bool {
    d.len() > 0 && all_digits(d) && d[0] != '0' && digits_to_nat(d) <= u16::MAX as int
}

/// Whether `s` is a well-formed port range.
pub open spec fn port_range_ok(s: Seq<char>) -> bool {
    match s.index_of_first('-') {
        Some(j) => range_side_ok(s.take(j)) && range_side_ok(s.skip(j + 1)),
        None => false,
    }
}

/// The range a well-formed string denotes, low side first.
pub open spec fn spec_port_range(s: Seq<char>) -> (u16, u16) {
    let j = s.index_of_first('-').unwrap();
    let a = digits_to_nat(s.take(j));
    let b = digits_to_nat(s.skip(j + 1));
    if a <= b {
        (a as u16, b as u16)
    } else {
        (b as u16, a as u16)
    }
}

/// Parses a `"<low>-<high>"` port range, swapping inverted sides. Returns
/// `Some` exactly on well-formed strings.
pub fn parse_port_range(s: &str) -> (r: Option<(u16, u16)>)
    ensures
        match r {
            Some(pr) => port_range_ok(s@) && pr == spec_port_range(s@) && pr.0 <= pr.1,
            None => !port_range_ok(s@),
        },
{
    let n = s.unicode_len();
    match find_first(s, '-') {
        Some(j) => {
            proof {
                lemma_first_index(s@, '-', j as int);
            }
            let left = s.substring_char(0, j);
            let right = s.substring_char(j + 1, n);
            let a = parse_u16(left);
            let b = parse_u16(right);
            match (a, b) {
                (Some(x), Some(y)) => {
                    if left.get_char(0) == '0' || right.get_char(0) == '0' {
                        return None;
                    }
                    if x <= y {
                        Some((x, y))
                    } else {
                        Some((y, x))
                    }
                },
                _ => None,
            }
        },
        None => {
            proof {
                lemma_no_first_index(s@, '-');
            }
            None
        },
    }
}

/// The views of a scenario table.
pub open spec fn scenario_views(sc: Seq<(String, ServiceList)>) -> Seq<(Seq<char>, Seq<Seq<char>>)> {
    sc.map_values(|e: (String, ServiceList)| (e.0@, string_views(e.1@)))
}

/// The scenario names of a table.
pub open spec fn scenario_keys(sc: Seq<(Seq<char>, Seq<Seq<char>>)>) -> Seq<Seq<char>> {
    sc.map_values(|e: (Seq<char>, Seq<Seq<char>>)| e.0)
}

/// The member list of the first scenario named `name`, if any.
pub open spec fn scenario_get(
    sc: Seq<(Seq<char>, Seq<Seq<char>>)>,
    name: Seq<char>,
) -> Option<Seq<Seq<char>>> {
    assoc_get(sc, name)
}

/// Whether the table has a scenario named `name`.
pub open spec fn scenario_has(sc: Seq<(Seq<char>, Seq<Seq<char>>)>, name: Seq<char>) -> bool {
    scenario_get(sc, name) is Some
}

/// The members of the scenario named `name`, or nothing.
pub open spec fn members_of(
    sc: Seq<(Seq<char>, Seq<Seq<char>>)>,
    name: Seq<char>,
) -> Seq<Seq<char>> {
    match scenario_get(sc, name) {
        Some(l) => l,
        None => Seq::<Seq<char>>::empty(),
    }
}

/// The top-level configuration.
#[derive(Debug)]
pub struct HandelConfig {
    template_folder_path: String,
    port_range: Option<(u16, u16)>,
    reference: Option<Reference>,
    scenarios: Vec<(String, ServiceList)>,
    volume_init: Option<Vec<VolumeInitializer>>,
}

/// The mathematical value of a [`HandelConfig`].
pub struct ConfigView {
    pub template_folder_path: Seq<char>,
    pub port_range: Option<(u16, u16)>,
    pub reference: Option<crate::reference::ReferenceView>,
    pub scenarios: Seq<(Seq<char>, Seq<Seq<char>>)>,
    pub volume_init: Option<Seq<VolumeView>>,
}

impl View for HandelConfig {
    type V = ConfigView;

    closed spec fn view(&self) -> ConfigView {
        ConfigView {
            template_folder_path: self.template_folder_path@,
            port_range: self.port_range,
            reference: match self.reference {
                Some(ref r) => Some(r@),
                None => None,
            },
            scenarios: scenario_views(self.scenarios@),
            volume_init: match self.volume_init {
                Some(ref v) => Some(v@.map_values(|x: VolumeInitializer| x@)),
                None => None,
            },
        }
    }
}

/// Whether the names of a scenario table are distinct, decided at run time.
pub fn scenario_names_distinct(scenarios: &Vec<(String, ServiceList)>) -> (r: bool)
    ensures
        r == scenario_keys(scenario_views(scenarios@)).no_duplicates(),
{
    let ghost keys = scenario_keys(scenario_views(scenarios@));
    let mut i: usize = 0;
    while i < scenarios.len()
        invariant
            i <= scenarios@.len(),
            keys == scenario_keys(scenario_views(scenarios@)),
            forall|p: int, q: int| 0 <= p < q < i ==> keys[p] != keys[q],
        decreases scenarios@.len() - i,
    {
        let mut j: usize = 0;
        while j < i
            invariant
                j <= i < scenarios@.len(),
                keys == scenario_keys(scenario_views(scenarios@)),
                forall|p: int| 0 <= p < j ==> keys[p] != keys[i as int],
            decreases i - j,
        {
            if str_eq(scenarios[j].0.as_str(), scenarios[i].0.as_str()) {
                proof {
                    assert(keys[j as int] == keys[i as int]);
                }
                return false;
            }
            j = j + 1;
        }
        i = i + 1;
    }
    true
}

impl HandelConfig {
    /// The configuration invariant: scenario names are unique keys.
    pub open spec fn wf(&self) -> bool {
        scenario_keys(self@.scenarios).no_duplicates()
    }

    /// Builds a configuration from its parts. Scenario names must be
    /// distinct, as keys of a mapping are.
    pub fn new(
        template_folder_path: String,
        port_range: Option<(u16, u16)>,
        reference: Option<Reference>,
        scenarios: Vec<(String, ServiceList)>,
        volume_init: Option<Vec<VolumeInitializer>>,
    ) -> (r: HandelConfig)
        requires
            scenario_keys(scenario_views(scenarios@)).no_duplicates(),
        ensures
            r.wf(),
            r@.template_folder_path == template_folder_path@,
            r@.port_range == port_range,
            r@.reference == (match reference {
                Some(rf) => Some(rf@),
                None => None::<crate::reference::ReferenceView>,
            }),
            r@.scenarios == scenario_views(scenarios@),
            r@.volume_init == (match volume_init {
                Some(v) => Some(v@.map_values(|x: VolumeInitializer| x@)),
                None => None::<Seq<VolumeView>>,
            }),
    {
        HandelConfig { template_folder_path, port_range, reference, scenarios, volume_init }
    }

    /// The configured template directory.
    pub fn template_dir(&self) -> (r: &str)
        ensures
            r@ == self@.template_folder_path,
    {
        self.template_folder_path.as_str()
    }

    /// The configured reference feed, if any.
    pub fn get_reference(&self) -> (r: &Option<Reference>)
        ensures
            (match r {
                Some(rf) => Some(rf@),
                None => None::<crate::reference::ReferenceView>,
            }) == self@.reference,
    {
        &self.reference
    }

    /// The configured host port range, if any.
    pub fn get_port_range(&self) -> (r: Option<(u16, u16)>)
        ensures
            r == self@.port_range,
    {
        self.port_range
    }

    /// The configured volumes, if any.
    pub fn volumes(&self) -> (r: &Option<Vec<VolumeInitializer>>)
        ensures
            (match r {
                Some(v) => Some(v@.map_values(|x: VolumeInitializer| x@)),
                None => None::<Seq<VolumeView>>,
            }) == self@.volume_init,
    {
        &self.volume_init
    }

    /// All scenario names, sorted.
    pub fn get_scenarios(&self) -> (r: Vec<String>)
        ensures
            sorted_by(string_views(r@), lex_leq_fn()),
            string_views(r@).to_multiset() == scenario_keys(self@.scenarios).to_multiset(),
    {
        let mut keys: Vec<String> = Vec::new();
        let mut i: usize = 0;
        while i < self.scenarios.len()
            invariant
                i <= self.scenarios@.len(),
                self@.scenarios == scenario_views(self.scenarios@),
                string_views(keys@) == scenario_keys(self@.scenarios).take(i as int),
            decreases self.scenarios@.len() - i,
        {
            let ghost ok = keys@;
            keys.push(self.scenarios[i].0.clone());
            proof {
                assert(string_views(keys@) =~= string_views(ok).push(self@.scenarios[i as int].0));
                assert(scenario_keys(self@.scenarios).take((i + 1) as int) =~= scenario_keys(
                    self@.scenarios,
                ).take(i as int).push(self@.scenarios[i as int].0));
            }
            i = i + 1;
        }
        proof {
            assert(scenario_keys(self@.scenarios).take(self.scenarios@.len() as int)
                =~= scenario_keys(self@.scenarios));
        }
        sort_strings(keys)
    }

    /// The members of the named scenario; an unknown name has none.
    pub fn scenario_services(&self, scenario: &str) -> (r: ServiceList)
        ensures
            string_views(r@) == members_of(self@.scenarios, scenario@),
    {
        let mut i: usize = 0;
        while i < self.scenarios.len()
            invariant
                i <= self.scenarios@.len(),
                self@.scenarios == scenario_views(self.scenarios@),
                forall|k: int| 0 <= k < i ==> (#[trigger] self@.scenarios[k]).0 != scenario@,
            decreases self.scenarios@.len() - i,
        {
            if str_eq(self.scenarios[i].0.as_str(), scenario) {
                proof {
                    assert(self@.scenarios[i as int].0 == scenario@);
                    lemma_assoc_get_at(self@.scenarios, scenario@, i as int);
                }
                return crate::text::clone_string_vec(&self.scenarios[i].1);
            }
            i = i + 1;
        }
        proof {
            lemma_assoc_get_none(self@.scenarios, scenario@);
        }
        Vec::new()
    }

    /// Whether the named scenario exists.
    pub fn has_scenario(&self, scenario: &str) -> (r: bool)
        ensures
            r == scenario_has(self@.scenarios, scenario@),
    {
        let mut i: usize = 0;
        while i < self.scenarios.len()
            invariant
                i <= self.scenarios@.len(),
                self@.scenarios == scenario_views(self.scenarios@),
                forall|k: int| 0 <= k < i ==> (#[trigger] self@.scenarios[k]).0 != scenario@,
            decreases self.scenarios@.len() - i,
        {
            if str_eq(self.scenarios[i].0.as_str(), scenario) {
                proof {
                    assert(self@.scenarios[i as int].0 == scenario@);
                    lemma_assoc_get_at(self@.scenarios, scenario@, i as int);
                }
                return true;
            }
            i = i + 1;
        }
        proof {
            lemma_assoc_get_none(self@.scenarios, scenario@);
        }
        false
    }
}

// The dependency resolver. Expanding a scenario visits names: a template
// pulls in each dependency that is itself a template; a name that is not a
// template but a scenario pulls in each member; any other name is an error.
// The set of visited names is the least set closed under those two rules,
// which is what the resolver's contract states.
/// The dependency names of the template called `n`.
pub open spec fn template_deps(cat: Seq<ServiceView>, n: Seq<char>) -> Seq<Seq<char>> {
    match catalog_get(cat, n) {
        Some(sv) => spec_dependencies(sv),
        None => Seq::<Seq<char>>::empty(),
    }
}

/// A name the resolver can expand: a template or a scenario.
pub open spec fn known_name(
    cat: Seq<ServiceView>,
    sc: Seq<(Seq<char>, Seq<Seq<char>>)>,
    n: Seq<char>,
) -> bool {
    catalog_has(cat, n) || scenario_has(sc, n)
}

/// A name set closed under resolution from `root`: it holds the root; with
/// each template every dependency that is itself a template; and with each
/// name that is a scenario but no template, every member.
pub open spec fn resolution_closed(
    cat: Seq<ServiceView>,
    sc: Seq<(Seq<char>, Seq<Seq<char>>)>,
    root: Seq<char>,
    v: Set<Seq<char>>,
) -> bool {
    &&& v.contains(root)
    &&& forall|n: Seq<char>, j: int|
        #![trigger v.contains(n), template_deps(cat, n)[j]]
        v.contains(n) && catalog_has(cat, n) && 0 <= j < template_deps(cat, n).len()
            && catalog_has(cat, template_deps(cat, n)[j]) ==> v.contains(template_deps(cat, n)[j])
    &&& forall|n: Seq<char>, j: int|
        #![trigger v.contains(n), members_of(sc, n)[j]]
        v.contains(n) && !catalog_has(cat, n) && scenario_has(sc, n) && 0 <= j < members_of(
            sc,
            n,
        ).len() ==> v.contains(members_of(sc, n)[j])
}

/// The least set closed under resolution from `root`.
pub open spec fn least_resolution(
    cat: Seq<ServiceView>,
    sc: Seq<(Seq<char>, Seq<Seq<char>>)>,
    root: Seq<char>,
    v: Set<Seq<char>>,
) -> bool {
    &&& resolution_closed(cat, sc, root, v)
    &&& forall|w: Set<Seq<char>>| #[trigger] resolution_closed(cat, sc, root, w) ==> v.subset_of(w)
}

/// What resolving `root` returns when it succeeds: the templates of the
/// least closed name set, sorted by name, each listed once under its own
/// catalog entry.
pub open spec fn resolved_service_list(
    cat: Seq<ServiceView>,
    sc: Seq<(Seq<char>, Seq<Seq<char>>)>,
    root: Seq<char>,
    list: Seq<ServiceView>,
) -> bool {
    &&& sorted_by(catalog_names(list), lex_leq_fn())
    &&& catalog_names(list).no_duplicates()
    &&& forall|i: int|
        0 <= i < list.len() ==> catalog_get(cat, (#[trigger] list[i]).name) == Some(list[i])
    &&& exists|v: Set<Seq<char>>|
        {
            &&& #[trigger] least_resolution(cat, sc, root, v)
            &&& forall|n: Seq<char>|
                #![trigger catalog_names(list).contains(n)]
                #![trigger v.contains(n)]
                catalog_names(list).contains(n) <==> v.contains(n) && catalog_has(cat, n)
        }
}

/// Two least closed sets are the same set.
proof fn lemma_least_resolution_unique(
    cat: Seq<ServiceView>,
    sc: Seq<(Seq<char>, Seq<Seq<char>>)>,
    root: Seq<char>,
    v1: Set<Seq<char>>,
    v2: Set<Seq<char>>,
)
    requires
        least_resolution(cat, sc, root, v1),
        least_resolution(cat, sc, root, v2),
    ensures
        v1 == v2,
{
    assert(v1.subset_of(v2));
    assert(v2.subset_of(v1));
    assert(v1 =~= v2);
}

/// Any two lists that satisfy the resolution contract for the same inputs
/// are equal: dependency resolution is a function of the catalog, the
/// scenario table and the root name, so resolving twice gives the same
/// list, with no duplicate service names.
pub proof fn lemma_resolution_deterministic(
    cat: Seq<ServiceView>,
    sc: Seq<(Seq<char>, Seq<Seq<char>>)>,
    root: Seq<char>,
    l1: Seq<ServiceView>,
    l2: Seq<ServiceView>,
)
    requires
        resolved_service_list(cat, sc, root, l1),
        resolved_service_list(cat, sc, root, l2),
    ensures
        l1 == l2,
{
    let v1 = choose|v: Set<Seq<char>>|
        {
            &&& #[trigger] least_resolution(cat, sc, root, v)
            &&& forall|n: Seq<char>|
                #![trigger catalog_names(l1).contains(n)]
                #![trigger v.contains(n)]
                catalog_names(l1).contains(n) <==> v.contains(n) && catalog_has(cat, n)
        };
    let v2 = choose|v: Set<Seq<char>>|
        {
            &&& #[trigger] least_resolution(cat, sc, root, v)
            &&& forall|n: Seq<char>|
                #![trigger catalog_names(l2).contains(n)]
                #![trigger v.contains(n)]
                catalog_names(l2).contains(n) <==> v.contains(n) && catalog_has(cat, n)
        };
    lemma_least_resolution_unique(cat, sc, root, v1, v2);
    let n1 = catalog_names(l1);
    let n2 = catalog_names(l2);
    assert(forall|n: Seq<char>| n1.contains(n) <==> n2.contains(n));
    n1.lemma_multiset_has_no_duplicates();
    n2.lemma_multiset_has_no_duplicates();
    assert forall|x: Seq<char>| true implies n1.to_multiset().count(x) == n2.to_multiset().count(
        x,
    ) by {
        if n1.contains(x) {
            assert(n2.contains(x));
        } else {
            assert(!n2.contains(x));
            assert(n1.to_multiset().count(x) == 0);
            assert(n2.to_multiset().count(x) == 0);
        }
    }
    assert(n1.to_multiset() =~= n2.to_multiset());
    crate::text::lemma_lex_leq_total_ordering();
    vstd::seq_lib::lemma_sorted_unique(n1, n2, lex_leq_fn());
    assert(n1 == n2);
    assert forall|i: int| 0 <= i < l1.len() implies l1[i] == l2[i] by {
        assert(catalog_get(cat, l1[i].name) == Some(l1[i]));
        assert(n1[i] == l1[i].name);
        assert(n2[i] == l2[i].name);
        assert(catalog_get(cat, l2[i].name) == Some(l2[i]));
    }
    assert(l1 =~= l2);
}

// Termination of the worklist: every name the resolver ever queues is the
// root, a dependency of some template, or a member of some scenario, and a
// name is queued at most once.
/// Every dependency name of every template, in catalog order.
spec fn all_dep_names(cat: Seq<ServiceView>) -> Seq<Seq<char>>
    decreases cat.len(),
{
    if cat.len() == 0 {
        Seq::<Seq<char>>::empty()
    } else {
        all_dep_names(cat.drop_last()) + spec_dependencies(cat.last())
    }
}

/// Every member name of every scenario, in table order.
spec fn all_member_names(sc: Seq<(Seq<char>, Seq<Seq<char>>)>) -> Seq<Seq<char>>
    decreases sc.len(),
{
    if sc.len() == 0 {
        Seq::<Seq<char>>::empty()
    } else {
        all_member_names(sc.drop_last()) + sc.last().1
    }
}

/// Every name the resolver can ever queue.
spec fn name_universe(
    cat: Seq<ServiceView>,
    sc: Seq<(Seq<char>, Seq<Seq<char>>)>,
    root: Seq<char>,
) -> Seq<Seq<char>> {
    seq![root] + all_dep_names(cat) + all_member_names(sc)
}

proof fn lemma_dep_in_all(cat: Seq<ServiceView>, i: int, j: int)
    requires
        0 <= i < cat.len(),
        0 <= j < spec_dependencies(cat[i]).len(),
    ensures
        all_dep_names(cat).contains(spec_dependencies(cat[i])[j]),
    decreases cat.len(),
{
    let pre = all_dep_names(cat.drop_last());
    if i == cat.len() - 1 {
        assert(all_dep_names(cat)[pre.len() + j] == spec_dependencies(cat.last())[j]);
    } else {
        assert(cat.drop_last()[i] == cat[i]);
        lemma_dep_in_all(cat.drop_last(), i, j);
        let k = choose|k: int| 0 <= k < pre.len() && pre[k] == spec_dependencies(cat[i])[j];
        assert(all_dep_names(cat)[k] == spec_dependencies(cat[i])[j]);
    }
}

proof fn lemma_member_in_all(sc: Seq<(Seq<char>, Seq<Seq<char>>)>, i: int, j: int)
    requires
        0 <= i < sc.len(),
        0 <= j < sc[i].1.len(),
    ensures
        all_member_names(sc).contains(sc[i].1[j]),
    decreases sc.len(),
{
    let pre = all_member_names(sc.drop_last());
    if i == sc.len() - 1 {
        assert(all_member_names(sc)[pre.len() + j] == sc.last().1[j]);
    } else {
        assert(sc.drop_last()[i] == sc[i]);
        lemma_member_in_all(sc.drop_last(), i, j);
        let k = choose|k: int| 0 <= k < pre.len() && pre[k] == sc[i].1[j];
        assert(all_member_names(sc)[k] == sc[i].1[j]);
    }
}

proof fn lemma_universe_has(
    cat: Seq<ServiceView>,
    sc: Seq<(Seq<char>, Seq<Seq<char>>)>,
    root: Seq<char>,
    n: Seq<char>,
)
    requires
        n == root || all_dep_names(cat).contains(n) || all_member_names(sc).contains(n),
    ensures
        name_universe(cat, sc, root).contains(n),
{
    let uni = name_universe(cat, sc, root);
    if n == root {
        assert(uni[0] == n);
    } else if all_dep_names(cat).contains(n) {
        let k = choose|k: int| 0 <= k < all_dep_names(cat).len() && all_dep_names(cat)[k] == n;
        assert(uni[1 + k] == n);
    } else {
        let k = choose|k: int|
            0 <= k < all_member_names(sc).len() && all_member_names(sc)[k] == n;
        assert(uni[1 + all_dep_names(cat).len() + k] == n);
    }
}

/// Distinct names, all from the universe, are no more than the universe.
proof fn lemma_visited_bound(vn: Seq<Seq<char>>, uni: Seq<Seq<char>>)
    requires
        vn.no_duplicates(),
        forall|k: int| 0 <= k < vn.len() ==> uni.contains(#[trigger] vn[k]),
    ensures
        vn.len() <= uni.len(),
{
    broadcast use vstd::seq_lib::seq_to_set_is_finite;

    vn.unique_seq_to_set();
    assert forall|x: Seq<char>| vn.to_set().contains(x) implies uni.to_set().contains(x) by {
        let k = choose|k: int| 0 <= k < vn.len() && vn[k] == x;
        assert(uni.contains(x));
    }
    assert(vn.to_set().subset_of(uni.to_set()));
    vstd::set_lib::lemma_len_subset(vn.to_set(), uni.to_set());
    uni.lemma_cardinality_of_set();
}

/// After pushing, a sequence holds what it held and the new element.
proof fn lemma_push_contains<A>(s: Seq<A>, x: A)
    ensures
        forall|y: A| s.contains(y) ==> #[trigger] s.push(x).contains(y),
        s.push(x).contains(x),
        forall|y: A| #[trigger] s.push(x).contains(y) ==> s.contains(y) || y == x,
{
    assert(s.push(x)[s.len() as int] == x);
    assert forall|y: A| s.contains(y) implies #[trigger] s.push(x).contains(y) by {
        let k = choose|k: int| 0 <= k < s.len() && s[k] == y;
        assert(s.push(x)[k] == y);
    }
    assert forall|y: A| #[trigger] s.push(x).contains(y) implies s.contains(y) || y == x by {
        let k = choose|k: int| 0 <= k < s.push(x).len() && s.push(x)[k] == y;
        if k < s.len() {
            assert(s[k] == y);
        }
    }
}

/// Pushing a fresh element keeps a sequence duplicate-free.
proof fn lemma_push_no_dup<A>(s: Seq<A>, x: A)
    requires
        s.no_duplicates(),
        !s.contains(x),
    ensures
        s.push(x).no_duplicates(),
{
    assert forall|p: int, q: int| 0 <= p < q < s.push(x).len() implies s.push(x)[p] != s.push(
        x,
    )[q] by {
        if q == s.len() {
            if s.push(x)[p] == x {
                assert(s[p] == x);
            }
        }
    }
}

/// What removing one position does to membership and duplicates.
proof fn lemma_remove_effects<A>(s: Seq<A>, i: int)
    requires
        0 <= i < s.len(),
    ensures
        forall|y: A| #[trigger] s.remove(i).contains(y) ==> s.contains(y),
        forall|k: int| 0 <= k < s.len() && k != i ==> s.remove(i).contains(#[trigger] s[k]),
        s.no_duplicates() ==> s.remove(i).no_duplicates(),
        s.no_duplicates() ==> !s.remove(i).contains(s[i]),
{
    s.remove_ensures(i);
    let r = s.remove(i);
    assert forall|y: A| #[trigger] r.contains(y) implies s.contains(y) by {
        let k = choose|k: int| 0 <= k < r.len() && r[k] == y;
        if k < i {
            assert(s[k] == y);
        } else {
            assert(s[k + 1] == y);
        }
    }
    assert forall|k: int| 0 <= k < s.len() && k != i implies r.contains(#[trigger] s[k]) by {
        if k < i {
            assert(r[k] == s[k]);
        } else {
            assert(r[k - 1] == s[k]);
        }
    }
    if s.no_duplicates() {
        assert forall|p: int, q: int| 0 <= p < q < r.len() implies r[p] != r[q] by {
            if q < i {
            } else if p < i {
                assert(r[p] == s[p] && r[q] == s[q + 1]);
            } else {
                assert(r[p] == s[p + 1] && r[q] == s[q + 1]);
            }
        }
        if r.contains(s[i]) {
            let k = choose|k: int| 0 <= k < r.len() && r[k] == s[i];
            if k < i {
                assert(s[k] == s[i]);
            } else {
                assert(s[k + 1] == s[i]);
            }
        }
    }
}

/// Sorts services by name, keeping the same collection of values.
fn sort_services(v: Vec<ComposeService>) -> (r: Vec<ComposeService>)
    ensures
        sorted_by(catalog_names(services_views(r@)), lex_leq_fn()),
        services_views(r@).to_multiset() == services_views(v@).to_multiset(),
{
    let mut out: Vec<ComposeService> = Vec::new();
    let mut i: usize = 0;
    while i < v.len()
        invariant
            i <= v@.len(),
            sorted_by(catalog_names(services_views(out@)), lex_leq_fn()),
            services_views(out@).to_multiset() == services_views(v@.take(i as int)).to_multiset(),
        decreases v@.len() - i,
    {
        let x = v[i].duplicate();
        let xname = x.name();
        let mut j: usize = 0;
        while j < out.len()
            invariant
                j <= out@.len(),
                xname@ == x@.name,
                forall|k: int|
                    0 <= k < j ==> lex_leq(
                        #[trigger] catalog_names(services_views(out@))[k],
                        x@.name,
                    ),
            ensures
                j <= out@.len(),
                forall|k: int|
                    0 <= k < j ==> lex_leq(
                        #[trigger] catalog_names(services_views(out@))[k],
                        x@.name,
                    ),
                j < out@.len() ==> lex_leq(x@.name, catalog_names(services_views(out@))[j as int]),
            decreases out@.len() - j,
        {
            let oname = out[j].name();
            if !str_leq(oname.as_str(), xname.as_str()) {
                proof {
                    lemma_lex_leq_connected(x@.name, out@[j as int]@.name);
                }
                break;
            }
            j = j + 1;
        }
        let ghost oldout = out@;
        let ghost xv = x@;
        out.insert(j, x);
        proof {
            let a = catalog_names(services_views(oldout));
            let na = catalog_names(services_views(out@));
            assert(services_views(out@) =~= services_views(oldout).insert(j as int, xv));
            assert(na =~= a.insert(j as int, xv.name));
            a.insert_ensures(j as int, xv.name);
            assert forall|p: int, q: int| 0 <= p < q < na.len() implies lex_leq_fn()(
                na[p],
                na[q],
            ) by {
                if q < j {
                    assert(na[p] == a[p] && na[q] == a[q]);
                } else if p < j && q == j {
                    assert(na[p] == a[p] && na[q] == xv.name);
                } else if p < j && q > j {
                    assert(na[p] == a[p] && na[q] == a[q - 1]);
                    assert(lex_leq_fn()(a[p], a[q - 1]));
                } else if p == j && q > j {
                    assert(na[p] == xv.name && na[q] == a[q - 1]);
                    if q - 1 > j {
                        assert(lex_leq_fn()(a[j as int], a[q - 1]));
                        lemma_lex_leq_transitive(xv.name, a[j as int], a[q - 1]);
                    }
                } else {
                    assert(na[p] == a[p - 1] && na[q] == a[q - 1]);
                }
            }
            assert(services_views(v@.take((i + 1) as int)) =~= services_views(
                v@.take(i as int),
            ).push(v@[i as int]@));
        }
        i = i + 1;
    }
    proof {
        assert(v@.take(v@.len() as int) =~= v@);
    }
    out
}

impl HandelConfig {
    /// Expands `scenario` into every service it transitively needs: the
    /// templates of the least name set closed under template dependencies
    /// and scenario membership, sorted by name, each exactly once. Fails
    /// with `NotFound` on the first expanded name that is neither a
    /// template nor a scenario; an unknown root fails under its own name.
    #[verifier::loop_isolation(false)]
    #[verifier::rlimit(60)]
    pub fn build_service_list(&self, scenario: &str, templates: &ComposeServiceMap) -> (r: Result<
        Vec<ComposeService>,
        Error,
    >)
        ensures
            match r {
                Ok(list) => known_name(templates@, self@.scenarios, scenario@)
                    && resolved_service_list(
                    templates@,
                    self@.scenarios,
                    scenario@,
                    services_views(list@),
                ),
                Err(e) => e matches Error::NotFound { input } && {
                    &&& !known_name(templates@, self@.scenarios, input@)
                    &&& (input@ == scenario@ || exists|k: int, j: int|
                        #![trigger self@.scenarios[k].1[j]]
                        0 <= k < self@.scenarios.len() && 0 <= j < self@.scenarios[k].1.len()
                            && self@.scenarios[k].1[j] == input@)
                },
            },
            !known_name(templates@, self@.scenarios, scenario@) ==> (r matches Err(
                Error::NotFound { input },
            ) && input@ == scenario@),
            (known_name(templates@, self@.scenarios, scenario@) && (forall|k: int, j: int|
                #![trigger self@.scenarios[k].1[j]]
                0 <= k < self@.scenarios.len() && 0 <= j < self@.scenarios[k].1.len()
                    ==> known_name(templates@, self@.scenarios, self@.scenarios[k].1[j])))
                ==> r is Ok,
    {
        let ghost cat = templates@;
        let ghost sc = self@.scenarios;
        let ghost root = scenario@;
        let ghost uni = name_universe(cat, sc, root);

        let root_is_template = match templates.get_service_fragment(scenario) {
            Some(_) => true,
            None => false,
        };
        if !root_is_template && !self.has_scenario(scenario) {
            return Err(Error::NotFound { input: String::from_str(scenario) });
        }
        assert(known_name(cat, sc, root));

        let mut visited: Vec<String> = Vec::new();
        let mut work: Vec<String> = Vec::new();
        let mut found: Vec<ComposeService> = Vec::new();
        visited.push(String::from_str(scenario));
        work.push(String::from_str(scenario));
        proof {
            assert(string_views(visited@) =~= seq![root]);
            assert(string_views(work@) =~= seq![root]);
            assert(uni[0] == root);
            assert(string_views(visited@)[0] == root);
            assert(string_views(work@)[0] == root);
            lemma_visited_bound(string_views(visited@), uni);
        }
        while work.len() > 0
            invariant
                string_views(visited@).no_duplicates(),
                string_views(work@).no_duplicates(),
                forall|k: int|
                    0 <= k < visited@.len() ==> uni.contains(#[trigger] string_views(visited@)[k]),
                string_views(visited@).contains(root),
                forall|k: int|
                    0 <= k < work@.len() ==> string_views(visited@).contains(
                        #[trigger] string_views(work@)[k],
                    ),
                forall|k: int|
                    0 <= k < visited@.len() ==> (#[trigger] string_views(visited@)[k] == root
                        || catalog_has(cat, string_views(visited@)[k]) || (exists|s: int, j: int|
                        #![trigger sc[s].1[j]]
                        0 <= s < sc.len() && 0 <= j < sc[s].1.len() && sc[s].1[j]
                            == string_views(visited@)[k])),
                forall|w: Set<Seq<char>>, k: int|
                    #![trigger resolution_closed(cat, sc, root, w), string_views(visited@)[k]]
                    resolution_closed(cat, sc, root, w) && 0 <= k < visited@.len() ==> w.contains(
                        string_views(visited@)[k],
                    ),
                forall|t: int|
                    0 <= t < found@.len() ==> catalog_get(
                        cat,
                        (#[trigger] services_views(found@)[t]).name,
                    ) == Some(services_views(found@)[t]),
                catalog_names(services_views(found@)).no_duplicates(),
                forall|t: int|
                    0 <= t < found@.len() ==> string_views(visited@).contains(
                        (#[trigger] services_views(found@)[t]).name,
                    ),
                forall|t: int|
                    0 <= t < found@.len() ==> catalog_has(
                        cat,
                        (#[trigger] services_views(found@)[t]).name,
                    ),
                forall|t: int|
                    0 <= t < found@.len() ==> !string_views(work@).contains(
                        (#[trigger] services_views(found@)[t]).name,
                    ),
                forall|k: int|
                    0 <= k < visited@.len() && !string_views(work@).contains(
                        #[trigger] string_views(visited@)[k],
                    ) && catalog_has(cat, string_views(visited@)[k]) ==> catalog_names(
                        services_views(found@),
                    ).contains(string_views(visited@)[k]),
                forall|t: int, j: int|
                    #![trigger spec_dependencies(services_views(found@)[t])[j]]
                    0 <= t < found@.len() && 0 <= j < spec_dependencies(
                        services_views(found@)[t],
                    ).len() && catalog_has(cat, spec_dependencies(services_views(found@)[t])[j])
                        ==> string_views(visited@).contains(
                        spec_dependencies(services_views(found@)[t])[j],
                    ),
                forall|k: int, j: int|
                    #![trigger string_views(visited@)[k], members_of(sc, string_views(visited@)[k])[j]]
                    0 <= k < visited@.len() && !string_views(work@).contains(
                        string_views(visited@)[k],
                    ) && !catalog_has(cat, string_views(visited@)[k]) && scenario_has(
                        sc,
                        string_views(visited@)[k],
                    ) && 0 <= j < members_of(sc, string_views(visited@)[k]).len()
                        ==> string_views(visited@).contains(
                        members_of(sc, string_views(visited@)[k])[j],
                    ),
                forall|k: int|
                    0 <= k < visited@.len() && !string_views(work@).contains(
                        #[trigger] string_views(visited@)[k],
                    ) ==> known_name(cat, sc, string_views(visited@)[k]),
                visited@.len() <= uni.len(),
            decreases uni.len() - visited@.len(), work@.len(),
        {
            let idx = work.len() - 1;
            let ghost vlen0 = visited@.len();
            let ghost wlen0 = work@.len();
            let current = work[idx].clone();
            let ghost cn = current@;
            proof {
                assert(string_views(work@)[idx as int] == cn);
                assert(string_views(visited@).contains(cn));
            }
            match templates.get_service_fragment(current.as_str()) {
                Some(svc) => {
                    let ghost svcv = svc@;
                    proof {
                        crate::templates::lemma_catalog_get_is_entry(cat, cn);
                        assert(svcv.name == cn);
                        assert(catalog_has(cat, cn));
                    }
                    let dup = svc.duplicate();
                    let deps = svc.get_dependencies();
                    let ghost found0 = services_views(found@);
                    proof {
                        assert(!catalog_names(found0).contains(cn)) by {
                            if catalog_names(found0).contains(cn) {
                                let t = choose|t: int|
                                    0 <= t < found0.len() && catalog_names(found0)[t] == cn;
                                assert(!string_views(work@).contains(
                                    services_views(found@)[t].name,
                                ));
                            }
                        }
                    }
                    found.push(dup);
                    proof {
                        assert(services_views(found@) =~= found0.push(svcv));
                        assert(catalog_names(services_views(found@)) =~= catalog_names(
                            found0,
                        ).push(cn));
                        lemma_push_no_dup(catalog_names(found0), cn);
                        lemma_push_contains(catalog_names(found0), cn);
                        lemma_push_contains(found0, svcv);
                    }
                    let mut dj: usize = 0;
                    while dj < deps.len()
                        invariant
                            dj <= deps@.len(),
                            visited@.len() >= vlen0,
                            work@.len() == wlen0 + (visited@.len() - vlen0),
                            string_views(visited@).contains(root),
                            string_views(visited@).no_duplicates(),
                            string_views(work@).no_duplicates(),
                            work@.len() > idx,
                            string_views(work@)[idx as int] == cn,
                            forall|k: int|
                                0 <= k < visited@.len() ==> uni.contains(
                                    #[trigger] string_views(visited@)[k],
                                ),
                            forall|k: int|
                                0 <= k < work@.len() ==> string_views(visited@).contains(
                                    #[trigger] string_views(work@)[k],
                                ),
                            forall|k: int|
                                0 <= k < visited@.len() ==> (#[trigger] string_views(visited@)[k]
                                    == root || catalog_has(cat, string_views(visited@)[k]) || (
                                exists|s: int, j: int|
                                    #![trigger sc[s].1[j]]
                                    0 <= s < sc.len() && 0 <= j < sc[s].1.len()
                                        && sc[s].1[j] == string_views(visited@)[k])),
                            forall|w: Set<Seq<char>>, k: int|
                                #![trigger resolution_closed(cat, sc, root, w), string_views(visited@)[k]]
                                resolution_closed(cat, sc, root, w) && 0 <= k < visited@.len()
                                    ==> w.contains(string_views(visited@)[k]),
                            forall|t: int|
                                0 <= t < found@.len() ==> catalog_get(
                                    cat,
                                    (#[trigger] services_views(found@)[t]).name,
                                ) == Some(services_views(found@)[t]),
                            catalog_names(services_views(found@)).no_duplicates(),
                            forall|t: int|
                                0 <= t < found@.len() ==> string_views(visited@).contains(
                                    (#[trigger] services_views(found@)[t]).name,
                                ),
                            forall|t: int|
                                0 <= t < found@.len() ==> catalog_has(
                                    cat,
                                    (#[trigger] services_views(found@)[t]).name,
                                ),
                            forall|t: int|
                                0 <= t < found@.len() ==> (!string_views(work@).contains(
                                    (#[trigger] services_views(found@)[t]).name,
                                ) || services_views(found@)[t].name == cn),
                            forall|k: int|
                                0 <= k < visited@.len() && !string_views(work@).contains(
                                    #[trigger] string_views(visited@)[k],
                                ) && catalog_has(cat, string_views(visited@)[k]) ==> catalog_names(
                                    services_views(found@),
                                ).contains(string_views(visited@)[k]),
                            forall|t: int, j: int|
                                #![trigger spec_dependencies(services_views(found@)[t])[j]]
                                0 <= t < found@.len() - 1 && 0 <= j < spec_dependencies(
                                    services_views(found@)[t],
                                ).len() && catalog_has(
                                    cat,
                                    spec_dependencies(services_views(found@)[t])[j],
                                ) ==> string_views(visited@).contains(
                                    spec_dependencies(services_views(found@)[t])[j],
                                ),
                            services_views(found@).len() > 0,
                            services_views(found@).last() == svcv,
                            string_views(deps@) == spec_dependencies(svcv),
                            forall|j2: int|
                                0 <= j2 < dj && catalog_has(cat, #[trigger] string_views(deps@)[j2])
                                    ==> string_views(visited@).contains(string_views(deps@)[j2]),
                            forall|k: int, j: int|
                                #![trigger string_views(visited@)[k], members_of(sc, string_views(visited@)[k])[j]]
                                0 <= k < visited@.len() && !string_views(work@).contains(
                                    string_views(visited@)[k],
                                ) && !catalog_has(cat, string_views(visited@)[k]) && scenario_has(
                                    sc,
                                    string_views(visited@)[k],
                                ) && 0 <= j < members_of(sc, string_views(visited@)[k]).len()
                                    ==> string_views(visited@).contains(
                                    members_of(sc, string_views(visited@)[k])[j],
                                ),
                            forall|k: int|
                                0 <= k < visited@.len() && !string_views(work@).contains(
                                    #[trigger] string_views(visited@)[k],
                                ) ==> known_name(cat, sc, string_views(visited@)[k]),
                            visited@.len() <= uni.len(),
                        decreases deps@.len() - dj,
                    {
                        let d = &deps[dj];
                        proof {
                            assert(string_views(deps@)[dj as int] == d@);
                        }
                        if !contains_str(&visited, d.as_str()) {
                            let dep_is_template = match templates.get_service_fragment(d.as_str()) {
                                Some(_) => true,
                                None => false,
                            };
                            if dep_is_template {
                                let ghost vn0 = string_views(visited@);
                                let ghost wn0 = string_views(work@);
                                visited.push(d.clone());
                                work.push(d.clone());
                                proof {
                                    assert(string_views(visited@) =~= vn0.push(d@));
                                    assert(string_views(work@) =~= wn0.push(d@));
                                    lemma_push_contains(vn0, d@);
                                    lemma_push_contains(wn0, d@);
                                    lemma_push_no_dup(vn0, d@);
                                    assert(!wn0.contains(d@));
                                    lemma_push_no_dup(wn0, d@);
                                    let si = choose|si: int|
                                        0 <= si < cat.len() && cat[si] == svcv;
                                    lemma_dep_in_all(cat, si, dj as int);
                                    lemma_universe_has(cat, sc, root, d@);
                                    assert forall|w: Set<Seq<char>>|
                                        #[trigger] resolution_closed(cat, sc, root, w) implies w.contains(
                                        d@,
                                    ) by {
                                        let kc = choose|kc: int|
                                            0 <= kc < vn0.len() && vn0[kc] == cn;
                                        assert(w.contains(vn0[kc]));
                                        assert(template_deps(cat, cn) == spec_dependencies(svcv));
                                        assert(template_deps(cat, cn)[dj as int] == d@);
                                        assert(w.contains(template_deps(cat, cn)[dj as int]));
                                    }
                                    lemma_visited_bound(string_views(visited@), uni);
                                }
                            }
                        }
                        dj = dj + 1;
                    }
                    proof {
                        assert(string_views(work@)[idx as int] == cn);
                    }
                    let ghost wnpre = string_views(work@);
                    let ghost wspre = work@;
                    work.remove(idx);
                    proof {
                        wspre.remove_ensures(idx as int);
                        wnpre.remove_ensures(idx as int);
                        assert(string_views(work@) =~= wnpre.remove(idx as int));
                        lemma_remove_effects(wnpre, idx as int);
                        assert(!string_views(work@).contains(cn));
                        assert forall|k: int|
                            0 <= k < visited@.len() && !string_views(work@).contains(
                                #[trigger] string_views(visited@)[k],
                            ) && catalog_has(cat, string_views(visited@)[k]) implies catalog_names(
                            services_views(found@),
                        ).contains(string_views(visited@)[k]) by {
                            let n = string_views(visited@)[k];
                            if n != cn {
                                assert(!wnpre.contains(n));
                            } else {
                                assert(services_views(found@).last().name == cn);
                                assert(catalog_names(services_views(found@)).last() == cn);
                            }
                        }
                    }
                },
                None => {
                    proof {
                        assert(!catalog_has(cat, cn));
                    }
                    if self.has_scenario(current.as_str()) {
                        let members = self.scenario_services(current.as_str());
                        let ghost mems = members_of(sc, cn);
                        proof {
                            assert(string_views(members@) == mems);
                            lemma_assoc_get_is_entry(sc, cn);
                        }
                        let mut mj: usize = 0;
                        while mj < members.len()
                            invariant
                                mj <= members@.len(),
                                visited@.len() >= vlen0,
                                work@.len() == wlen0 + (visited@.len() - vlen0),
                                string_views(visited@).contains(root),
                                string_views(visited@).no_duplicates(),
                                string_views(work@).no_duplicates(),
                                work@.len() > idx,
                                string_views(work@)[idx as int] == cn,
                                forall|k: int|
                                    0 <= k < visited@.len() ==> uni.contains(
                                        #[trigger] string_views(visited@)[k],
                                    ),
                                forall|k: int|
                                    0 <= k < work@.len() ==> string_views(visited@).contains(
                                        #[trigger] string_views(work@)[k],
                                    ),
                                forall|k: int|
                                    0 <= k < visited@.len() ==> (#[trigger] string_views(
                                        visited@,
                                    )[k] == root || catalog_has(cat, string_views(visited@)[k])
                                        || (exists|s: int, j: int|
                                        #![trigger sc[s].1[j]]
                                        0 <= s < sc.len() && 0 <= j < sc[s].1.len()
                                            && sc[s].1[j] == string_views(visited@)[k])),
                                forall|w: Set<Seq<char>>, k: int|
                                    #![trigger resolution_closed(cat, sc, root, w), string_views(visited@)[k]]
                                    resolution_closed(cat, sc, root, w) && 0 <= k < visited@.len()
                                        ==> w.contains(string_views(visited@)[k]),
                                forall|t: int|
                                    0 <= t < found@.len() ==> catalog_get(
                                        cat,
                                        (#[trigger] services_views(found@)[t]).name,
                                    ) == Some(services_views(found@)[t]),
                                catalog_names(services_views(found@)).no_duplicates(),
                                forall|t: int|
                                    0 <= t < found@.len() ==> string_views(visited@).contains(
                                        (#[trigger] services_views(found@)[t]).name,
                                    ),
                                forall|t: int|
                                    0 <= t < found@.len() ==> catalog_has(
                                        cat,
                                        (#[trigger] services_views(found@)[t]).name,
                                    ),
                                forall|t: int|
                                    0 <= t < found@.len() ==> !string_views(work@).contains(
                                        (#[trigger] services_views(found@)[t]).name,
                                    ),
                                forall|k: int|
                                    0 <= k < visited@.len() && !string_views(work@).contains(
                                        #[trigger] string_views(visited@)[k],
                                    ) && catalog_has(cat, string_views(visited@)[k])
                                        ==> catalog_names(services_views(found@)).contains(
                                        string_views(visited@)[k],
                                    ),
                                forall|t: int, j: int|
                                    #![trigger spec_dependencies(services_views(found@)[t])[j]]
                                    0 <= t < found@.len() && 0 <= j < spec_dependencies(
                                        services_views(found@)[t],
                                    ).len() && catalog_has(
                                        cat,
                                        spec_dependencies(services_views(found@)[t])[j],
                                    ) ==> string_views(visited@).contains(
                                        spec_dependencies(services_views(found@)[t])[j],
                                    ),
                                string_views(members@) == mems,
                                mems == members_of(sc, cn),
                                forall|j2: int|
                                    0 <= j2 < mj ==> string_views(visited@).contains(
                                        #[trigger] string_views(members@)[j2],
                                    ),
                                forall|k: int, j: int|
                                    #![trigger string_views(visited@)[k], members_of(sc, string_views(visited@)[k])[j]]
                                    0 <= k < visited@.len() && !string_views(work@).contains(
                                        string_views(visited@)[k],
                                    ) && !catalog_has(cat, string_views(visited@)[k])
                                        && scenario_has(sc, string_views(visited@)[k]) && 0 <= j
                                        < members_of(sc, string_views(visited@)[k]).len()
                                        ==> string_views(visited@).contains(
                                        members_of(sc, string_views(visited@)[k])[j],
                                    ),
                                forall|k: int|
                                    0 <= k < visited@.len() && !string_views(work@).contains(
                                        #[trigger] string_views(visited@)[k],
                                    ) ==> known_name(cat, sc, string_views(visited@)[k]),
                                visited@.len() <= uni.len(),
                            decreases members@.len() - mj,
                        {
                            let m = &members[mj];
                            proof {
                                assert(string_views(members@)[mj as int] == m@);
                            }
                            if !contains_str(&visited, m.as_str()) {
                                let ghost vn0 = string_views(visited@);
                                let ghost wn0 = string_views(work@);
                                visited.push(m.clone());
                                work.push(m.clone());
                                proof {
                                    assert(string_views(visited@) =~= vn0.push(m@));
                                    assert(string_views(work@) =~= wn0.push(m@));
                                    lemma_push_contains(vn0, m@);
                                    lemma_push_contains(wn0, m@);
                                    lemma_push_no_dup(vn0, m@);
                                    assert(!wn0.contains(m@));
                                    lemma_push_no_dup(wn0, m@);
                                    let si = choose|si: int|
                                        0 <= si < sc.len() && (#[trigger] sc[si]).0 == cn
                                            && sc[si].1 == mems;
                                    lemma_member_in_all(sc, si, mj as int);
                                    lemma_universe_has(cat, sc, root, m@);
                                    assert forall|w: Set<Seq<char>>|
                                        #[trigger] resolution_closed(cat, sc, root, w) implies w.contains(
                                        m@,
                                    ) by {
                                        let kc = choose|kc: int|
                                            0 <= kc < vn0.len() && vn0[kc] == cn;
                                        assert(w.contains(vn0[kc]));
                                        assert(members_of(sc, cn)[mj as int] == m@);
                                        assert(w.contains(members_of(sc, cn)[mj as int]));
                                    }
                                    assert(exists|s: int, j: int|
                                        #![trigger sc[s].1[j]]
                                        0 <= s < sc.len() && 0 <= j < sc[s].1.len()
                                            && sc[s].1[j] == m@) by {
                                        assert(0 <= si < sc.len() && 0 <= mj < sc[si].1.len()
                                            && sc[si].1[mj as int] == m@);
                                    }
                                    lemma_visited_bound(string_views(visited@), uni);
                                }
                            }
                            mj = mj + 1;
                        }
                        let ghost wnpre = string_views(work@);
                        let ghost wspre = work@;
                        work.remove(idx);
                        proof {
                            wspre.remove_ensures(idx as int);
                            wnpre.remove_ensures(idx as int);
                            assert(string_views(work@) =~= wnpre.remove(idx as int));
                            lemma_remove_effects(wnpre, idx as int);
                            assert(!string_views(work@).contains(cn));
                            assert forall|k: int, j: int|
                                #![trigger string_views(visited@)[k], members_of(sc, string_views(visited@)[k])[j]]
                                0 <= k < visited@.len() && !string_views(work@).contains(
                                    string_views(visited@)[k],
                                ) && !catalog_has(cat, string_views(visited@)[k]) && scenario_has(
                                    sc,
                                    string_views(visited@)[k],
                                ) && 0 <= j < members_of(sc, string_views(visited@)[k]).len() implies string_views(
                                visited@,
                            ).contains(members_of(sc, string_views(visited@)[k])[j]) by {
                                let n = string_views(visited@)[k];
                                if n != cn {
                                    assert(!wnpre.contains(n));
                                } else {
                                    assert(string_views(members@)[j] == members_of(sc, cn)[j]);
                                }
                            }
                        }
                    } else {
                        proof {
                            assert(!known_name(cat, sc, cn));
                            let kv = choose|kv: int|
                                0 <= kv < visited@.len() && string_views(visited@)[kv] == cn;
                            assert(string_views(visited@)[kv] == root || catalog_has(
                                cat,
                                string_views(visited@)[kv],
                            ) || (exists|s: int, j: int|
                                #![trigger sc[s].1[j]]
                                0 <= s < sc.len() && 0 <= j < sc[s].1.len()
                                    && sc[s].1[j] == string_views(visited@)[kv]));
                            if known_name(cat, sc, root) && (forall|k: int, j: int|
                                #![trigger sc[k].1[j]]
                                0 <= k < sc.len() && 0 <= j < sc[k].1.len()
                                    ==> known_name(cat, sc, sc[k].1[j])) {
                                if cn == root {
                                    assert(false);
                                } else {
                                    let (s, j): (int, int) = choose|s: int, j: int|
                                        #![trigger sc[s].1[j]]
                                        0 <= s < sc.len() && 0 <= j < sc[s].1.len()
                                            && sc[s].1[j] == cn;
                                    assert(known_name(cat, sc, sc[s].1[j]));
                                    assert(false);
                                }
                            }
                        }
                        return Err(Error::NotFound { input: current });
                    }
                },
            }
        }
        let ghost vn = string_views(visited@);
        let ghost vset = vn.to_set();
        let ghost fv = services_views(found@);
        proof {
            assert(string_views(work@).len() == 0);
            assert forall|n: Seq<char>| #[trigger] vset.contains(n) implies vn.contains(n) by {}
            assert(resolution_closed(cat, sc, root, vset)) by {
                assert(vset.contains(root));
                assert forall|n: Seq<char>, j: int|
                    #![trigger vset.contains(n), template_deps(cat, n)[j]]
                    vset.contains(n) && catalog_has(cat, n) && 0 <= j < template_deps(
                        cat,
                        n,
                    ).len() && catalog_has(cat, template_deps(cat, n)[j]) implies vset.contains(
                    template_deps(cat, n)[j],
                ) by {
                    let k = choose|k: int| 0 <= k < vn.len() && vn[k] == n;
                    assert(!string_views(work@).contains(vn[k]));
                    assert(catalog_names(fv).contains(n));
                    let t = choose|t: int| 0 <= t < fv.len() && catalog_names(fv)[t] == n;
                    assert(fv[t].name == n);
                    assert(catalog_get(cat, n) == Some(fv[t]));
                    assert(template_deps(cat, n) == spec_dependencies(fv[t]));
                    assert(vn.contains(template_deps(cat, n)[j]));
                }
                assert forall|n: Seq<char>, j: int|
                    #![trigger vset.contains(n), members_of(sc, n)[j]]
                    vset.contains(n) && !catalog_has(cat, n) && scenario_has(sc, n) && 0 <= j
                        < members_of(sc, n).len() implies vset.contains(members_of(sc, n)[j]) by {
                    let k = choose|k: int| 0 <= k < vn.len() && vn[k] == n;
                    assert(!string_views(work@).contains(vn[k]));
                    assert(vn.contains(members_of(sc, vn[k])[j]));
                }
            }
            assert forall|w: Set<Seq<char>>|
                #[trigger] resolution_closed(cat, sc, root, w) implies vset.subset_of(w) by {
                assert forall|n: Seq<char>| vset.contains(n) implies w.contains(n) by {
                    let k = choose|k: int| 0 <= k < vn.len() && vn[k] == n;
                    assert(w.contains(vn[k]));
                }
            }
            assert(least_resolution(cat, sc, root, vset));
        }
        let list = sort_services(found);
        proof {
            let lv = services_views(list@);
            assert(lv.to_multiset() == fv.to_multiset());
            assert forall|sv: ServiceView| #[trigger] lv.contains(sv) implies fv.contains(sv) by {
                assert(lv.to_multiset().count(sv) > 0);
            }
            assert forall|sv: ServiceView| #[trigger] fv.contains(sv) implies lv.contains(sv) by {
                assert(fv.to_multiset().count(sv) > 0);
            }
            assert(fv.no_duplicates()) by {
                assert forall|p: int, q: int| 0 <= p < q < fv.len() implies fv[p] != fv[q] by {
                    assert(catalog_names(fv)[p] == fv[p].name);
                    assert(catalog_names(fv)[q] == fv[q].name);
                }
            }
            fv.lemma_multiset_has_no_duplicates();
            lv.lemma_multiset_has_no_duplicates_conv();
            assert forall|i: int| 0 <= i < lv.len() implies catalog_get(
                cat,
                (#[trigger] lv[i]).name,
            ) == Some(lv[i]) by {
                assert(lv.contains(lv[i]));
                let t = choose|t: int| 0 <= t < fv.len() && fv[t] == lv[i];
                assert(catalog_get(cat, services_views(found@)[t].name) == Some(
                    services_views(found@)[t],
                ));
            }
            assert(catalog_names(lv).no_duplicates()) by {
                assert forall|p: int, q: int|
                    0 <= p < q < catalog_names(lv).len() implies catalog_names(lv)[p]
                    != catalog_names(lv)[q] by {
                    if catalog_names(lv)[p] == catalog_names(lv)[q] {
                        assert(catalog_get(cat, lv[p].name) == Some(lv[p]));
                        assert(catalog_get(cat, lv[q].name) == Some(lv[q]));
                        assert(lv[p] == lv[q]);
                        assert(lv.no_duplicates());
                    }
                }
            }
            assert forall|n: Seq<char>|
                #![trigger catalog_names(lv).contains(n)]
                #![trigger vset.contains(n)]
                catalog_names(lv).contains(n) <==> vset.contains(n) && catalog_has(cat, n) by {
                if catalog_names(lv).contains(n) {
                    let p = choose|p: int| 0 <= p < lv.len() && catalog_names(lv)[p] == n;
                    assert(lv.contains(lv[p]));
                    let t = choose|t: int| 0 <= t < fv.len() && fv[t] == lv[p];
                    assert(string_views(visited@).contains(
                        (services_views(found@)[t]).name,
                    ));
                    assert(catalog_has(cat, (services_views(found@)[t]).name));
                }
                if vset.contains(n) && catalog_has(cat, n) {
                    let k = choose|k: int| 0 <= k < vn.len() && vn[k] == n;
                    assert(!string_views(work@).contains(vn[k]));
                    assert(catalog_names(fv).contains(n));
                    let t = choose|t: int| 0 <= t < fv.len() && catalog_names(fv)[t] == n;
                    assert(fv.contains(fv[t]));
                    assert(lv.contains(fv[t]));
                    let p = choose|p: int| 0 <= p < lv.len() && lv[p] == fv[t];
                    assert(catalog_names(lv)[p] == n);
                }
            }
            assert(resolved_service_list(cat, sc, root, services_views(list@)));
        }
        Ok(list)
    }
}

/// Sorts strings by `lex_leq` on their views, keeping the same collection.
fn sort_strings(v: Vec<String>) -> (r: Vec<String>)
    ensures
        sorted_by(string_views(r@), lex_leq_fn()),
        string_views(r@).to_multiset() == string_views(v@).to_multiset(),
{
    let mut out: Vec<String> = Vec::new();
    let mut i: usize = 0;
    while i < v.len()
        invariant
            i <= v@.len(),
            sorted_by(string_views(out@), lex_leq_fn()),
            string_views(out@).to_multiset() == string_views(v@.take(i as int)).to_multiset(),
        decreases v@.len() - i,
    {
        let x = v[i].clone();
        let mut j: usize = 0;
        while j < out.len()
            invariant
                j <= out@.len(),
                forall|k: int| 0 <= k < j ==> lex_leq(#[trigger] string_views(out@)[k], x@),
            ensures
                j <= out@.len(),
                forall|k: int| 0 <= k < j ==> lex_leq(#[trigger] string_views(out@)[k], x@),
                j < out@.len() ==> lex_leq(x@, string_views(out@)[j as int]),
            decreases out@.len() - j,
        {
            if !str_leq(out[j].as_str(), x.as_str()) {
                proof {
                    lemma_lex_leq_connected(x@, out@[j as int]@);
                }
                break;
            }
            j = j + 1;
        }
        let ghost oldout = out@;
        let ghost xv = x@;
        out.insert(j, x);
        proof {
            let a = string_views(oldout);
            let na = string_views(out@);
            assert(na =~= a.insert(j as int, xv));
            a.insert_ensures(j as int, xv);
            assert forall|p: int, q: int| 0 <= p < q < na.len() implies lex_leq_fn()(
                na[p],
                na[q],
            ) by {
                if q < j {
                    assert(na[p] == a[p] && na[q] == a[q]);
                } else if p < j && q == j {
                    assert(na[p] == a[p] && na[q] == xv);
                } else if p < j && q > j {
                    assert(na[p] == a[p] && na[q] == a[q - 1]);
                    assert(lex_leq_fn()(a[p], a[q - 1]));
                } else if p == j && q > j {
                    assert(na[p] == xv && na[q] == a[q - 1]);
                    if q - 1 > j {
                        assert(lex_leq_fn()(a[j as int], a[q - 1]));
                        lemma_lex_leq_transitive(xv, a[j as int], a[q - 1]);
                    }
                } else {
                    assert(na[p] == a[p - 1] && na[q] == a[q - 1]);
                }
            }
            assert(string_views(v@.take((i + 1) as int)) =~= string_views(v@.take(i as int)).push(
                v@[i as int]@,
            ));
        }
        i = i + 1;
    }
    proof {
        assert(v@.take(v@.len() as int) =~= v@);
    }
    out
}

} // verus!
