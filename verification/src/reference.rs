//! The reference feed: running-service versions and the feed descriptor.
//! Fetching the feed is outside work; this module holds the records and the
//! URL resolution that precedes the fetch.

use vstd::prelude::*;
use vstd::string::StrSliceExecFns;
use vstd::string::StringExecFns;
use crate::templates::{opt_view, pair_views};
use crate::text::{assoc_get, lemma_assoc_get_at, lemma_assoc_get_none, str_eq};

verus! {

/// One entry of the reference feed: a deployed service and its version.
#[derive(Debug)]
pub struct RunningService {
    name: String,
    version: String,
}

/// The mathematical value of a [`RunningService`].
pub struct RunningServiceView {
    pub name: Seq<char>,
    pub version: Seq<char>,
}

impl View for RunningService {
    type V = RunningServiceView;

    closed spec fn view(&self) -> RunningServiceView {
        RunningServiceView { name: self.name@, version: self.version@ }
    }
}

impl RunningService {
    /// Builds an entry from its parts.
    pub fn new(name: &str, version: &str) -> (r: Self)
        ensures
            r@.name == name@,
            r@.version == version@,
    {
        RunningService { name: String::from_str(name), version: String::from_str(version) }
    }

    /// The deployed service's name.
    pub fn name(&self) -> (r: String)
        ensures
            r@ == self@.name,
    {
        self.name.clone()
    }

    /// The deployed service's version.
    pub fn version(&self) -> (r: String)
        ensures
            r@ == self@.version,
    {
        self.version.clone()
    }
}

/// The views of a sequence of feed entries.
pub open spec fn running_views(s: Seq<RunningService>) -> Seq<RunningServiceView> {
    s.map_values(|r: RunningService| r@)
}

/// The reference feed descriptor: a URL with an `{env}` placeholder,
/// optional environment-name mappings, and an optional post-filter.
#[derive(Debug)]
pub struct Reference {
    url: String,
    env_mappings: Option<Vec<(String, String)>>,
    jq_filter: Option<String>,
}

/// The mathematical value of a [`Reference`].
pub struct ReferenceView {
    pub url: Seq<char>,
    pub env_mappings: Option<Seq<(Seq<char>, Seq<char>)>>,
    pub jq_filter: Option<Seq<char>>,
}

impl View for Reference {
    type V = ReferenceView;

    closed spec fn view(&self) -> ReferenceView {
        ReferenceView {
            url: self.url@,
            env_mappings: match self.env_mappings {
                Some(m) => Some(pair_views(m@)),
                None => None,
            },
            jq_filter: opt_view(self.jq_filter),
        }
    }
}

/// The placeholder replaced by the environment name.
pub open spec fn env_pattern() -> Seq<char> {
    seq!['{', 'e', 'n', 'v', '}']
}

/// `s` with every occurrence of `pat` replaced by `rep`, left to right.
pub open spec fn replace_all(s: Seq<char>, pat: Seq<char>, rep: Seq<char>) -> Seq<char>
    decreases s.len(),
    when pat.len() > 0
{
    if s.len() < pat.len() {
        s
    } else if s.take(pat.len() as int) == pat {
        rep + replace_all(s.skip(pat.len() as int), pat, rep)
    } else {
        seq![s[0]] + replace_all(s.drop_first(), pat, rep)
    }
}

/// The environment name after the feed's mappings are applied: the mapped
/// value where one is given, else the name itself.
pub open spec fn mapped_env(
    mappings: Option<Seq<(Seq<char>, Seq<char>)>>,
    env: Seq<char>,
) -> Seq<char> {
    match mappings {
        Some(m) => match assoc_get(m, env) {
            Some(v) => v,
            None => env,
        },
        None => env,
    }
}

fn lookup_env<'a>(m: &'a Vec<(String, String)>, env: &str) -> (r: Option<&'a String>)
    ensures
        match r {
            Some(s) => assoc_get(pair_views(m@), env@) == Some(s@),
            None => assoc_get(pair_views(m@), env@) is None,
        },
{
    let mut i: usize = 0;
    while i < m.len()
        invariant
            i <= m@.len(),
            forall|k: int| 0 <= k < i ==> (#[trigger] pair_views(m@)[k]).0 != env@,
        decreases m@.len() - i,
    {
        if str_eq(m[i].0.as_str(), env) {
            proof {
                assert(pair_views(m@)[i as int].0 == env@);
                lemma_assoc_get_at(pair_views(m@), env@, i as int);
            }
            return Some(&m[i].1);
        }
        i = i + 1;
    }
    proof {
        lemma_assoc_get_none(pair_views(m@), env@);
    }
    None
}

fn replace_env(url: &str, rep: &str) -> (r: String)
    ensures
        r@ == replace_all(url@, env_pattern(), rep@),
{
    let ghost s = url@;
    let n = url.unicode_len();
    let mut out = String::new();
    let mut i: usize = 0;
    proof {
        assert(s.skip(0) =~= s);
        assert(Seq::<char>::empty() + replace_all(s, env_pattern(), rep@) =~= replace_all(
            s,
            env_pattern(),
            rep@,
        ));
    }
    while n - i >= 5
        invariant
            i <= n,
            n == s.len(),
            s == url@,
            replace_all(s, env_pattern(), rep@) == out@ + replace_all(
                s.skip(i as int),
                env_pattern(),
                rep@,
            ),
        decreases n - i,
    {
        let ghost oo = out@;
        let is_pat = url.get_char(i) == '{' && url.get_char(i + 1) == 'e' && url.get_char(i + 2)
            == 'n' && url.get_char(i + 3) == 'v' && url.get_char(i + 4) == '}';
        if is_pat {
            out.append(rep);
            proof {
                assert(s.skip(i as int).take(5) =~= env_pattern());
                assert(s.skip(i as int).skip(5) =~= s.skip(i as int + 5));
                assert(oo + (rep@ + replace_all(s.skip(i as int + 5), env_pattern(), rep@)) =~= out@
                    + replace_all(s.skip(i as int + 5), env_pattern(), rep@));
            }
            i = i + 5;
        } else {
            out.append(url.substring_char(i, i + 1));
            proof {
                if s.skip(i as int).take(5) == env_pattern() {
                    assert(s.skip(i as int).take(5)[0] == s[i as int]);
                    assert(s.skip(i as int).take(5)[1] == s[i as int + 1]);
                    assert(s.skip(i as int).take(5)[2] == s[i as int + 2]);
                    assert(s.skip(i as int).take(5)[3] == s[i as int + 3]);
                    assert(s.skip(i as int).take(5)[4] == s[i as int + 4]);
                    assert(false);
                }
                assert(s.skip(i as int).drop_first() =~= s.skip(i as int + 1));
                assert(s.subrange(i as int, i as int + 1) =~= seq![s.skip(i as int)[0]]);
                assert(oo + (seq![s.skip(i as int)[0]] + replace_all(
                    s.skip(i as int + 1),
                    env_pattern(),
                    rep@,
                )) =~= out@ + replace_all(s.skip(i as int + 1), env_pattern(), rep@));
            }
            i = i + 1;
        }
    }
    let tail = url.substring_char(i, n);
    out.append(tail);
    proof {
        assert(s.skip(i as int).len() < 5);
        assert(replace_all(s.skip(i as int), env_pattern(), rep@) == s.skip(i as int));
        assert(s.subrange(i as int, n as int) =~= s.skip(i as int));
    }
    out
}

impl Reference {
    /// Builds a descriptor from its parts.
    pub fn new(
        url: String,
        env_mappings: Option<Vec<(String, String)>>,
        jq_filter: Option<String>,
    ) -> (r: Reference)
        ensures
            r@.url == url@,
            r@.env_mappings == (match env_mappings {
                Some(m) => Some(pair_views(m@)),
                None => None::<Seq<(Seq<char>, Seq<char>)>>,
            }),
            r@.jq_filter == opt_view(jq_filter),
    {
        Reference { url, env_mappings, jq_filter }
    }

    /// The configured post-filter, if any.
    pub fn jq_filter(&self) -> (r: &Option<String>)
        ensures
            opt_view(*r) == self@.jq_filter,
    {
        &self.jq_filter
    }

    /// The URL to fetch for `env`: the feed URL with `{env}` replaced by
    /// the mapped environment name.
    pub fn resolve_url(&self, env: &str) -> (r: String)
        ensures
            r@ == replace_all(self@.url, env_pattern(), mapped_env(self@.env_mappings, env@)),
    {
        match &self.env_mappings {
            Some(m) => match lookup_env(m, env) {
                Some(s) => {
                    let mapped = s.clone();
                    replace_env(self.url.as_str(), mapped.as_str())
                },
                None => replace_env(self.url.as_str(), env),
            },
            None => replace_env(self.url.as_str(), env),
        }
    }
}

} // verus!
