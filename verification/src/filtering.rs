//! Which workspace crates take part in the analysis: dependency kinds and
//! scopes, feature strings, seed crates and the crates reachable from them.

use vstd::prelude::*;
use vstd::string::*;
use crate::model::{WorkspaceCrates, find_last_entry, normalize_crate_name, pairs_to_map};
use crate::strings::{hyphen_to_underscore, str_eq};

verus! {

/// Kind of a dependency edge, as Cargo reports it.
#[derive(Debug, Clone, Copy, PartialEq, Eq, Structural)]
pub enum DepKind {
    Normal,
    Dev,
    Build,
    Unknown,
}

/// Whether a dependency is a member of the workspace.
#[derive(Debug, Clone, Copy, PartialEq, Eq, Structural)]
pub enum DepScope {
    Workspace,
    External,
}

/// A dependency as the filters see it.
#[derive(Debug)]
pub struct DepInfo<'a> {
    pub name: &'a str,
    pub kind: DepKind,
    pub scope: DepScope,
}

/// Feature selection for an analysis run.
#[derive(Debug, Clone, Default)]
pub struct FeatureConfig {
    pub features: Vec<String>,
    pub all_features: bool,
    pub no_default_features: bool,
    pub include_tests: bool,
    pub debug: bool,
}

/// A package of the workspace metadata: its name and the names of the
/// features it declares.
#[derive(Debug, Clone)]
pub struct PackageFeatures {
    pub name: String,
    pub features: Vec<String>,
}

/// The kind that decides how a dependency listed under several kinds is
/// treated: normal over dev over build.
pub open spec fn decisive_kind(kinds: Seq<DepKind>) -> DepKind {
    if kinds.contains(DepKind::Normal) {
        DepKind::Normal
    } else if kinds.contains(DepKind::Dev) {
        DepKind::Dev
    } else if kinds.contains(DepKind::Build) {
        DepKind::Build
    } else {
        DepKind::Unknown
    }
}

/// Scope of the crate `name` relative to the workspace members `ws`.
pub open spec fn scope_of(ws: Set<Seq<char>>, name: Seq<char>) -> DepScope {
    if ws.contains(hyphen_to_underscore(name)) {
        DepScope::Workspace
    } else {
        DepScope::External
    }
}

fn has_kind(kinds: &Vec<DepKind>, k: DepKind) -> (r: bool)
    ensures
        r == kinds@.contains(k),
{
    let mut i: usize = 0;
    while i < kinds.len()
        invariant
            0 <= i <= kinds.len(),
            forall|j: int| 0 <= j < i ==> kinds@[j] != k,
        decreases kinds.len() - i,
    {
        if kinds[i] == k {
            return true;
        }
        i = i + 1;
    }
    false
}

impl<'a> DepInfo<'a> {
    /// The dependency `name`, listed under `kinds`, seen from a workspace
    /// whose members are `workspace_members`.
    pub fn from_node_dep(name: &'a str, kinds: &Vec<DepKind>, workspace_members: &WorkspaceCrates) -> (r: Self)
        ensures
            r.name == name,
            r.kind == decisive_kind(kinds@),
            r.scope == scope_of(workspace_members@, name@),
    {
        let kind = if has_kind(kinds, DepKind::Normal) {
            DepKind::Normal
        } else if has_kind(kinds, DepKind::Dev) {
            DepKind::Dev
        } else if has_kind(kinds, DepKind::Build) {
            DepKind::Build
        } else {
            DepKind::Unknown
        };
        let scope = if workspace_members.contains(name) {
            DepScope::Workspace
        } else {
            DepScope::External
        };
        DepInfo { name, kind, scope }
    }

    /// A normal dependency on a workspace member: it enters the graph.
    pub fn is_included(&self) -> (r: bool)
        ensures
            r == (self.kind == DepKind::Normal && self.scope == DepScope::Workspace),
    {
        self.kind == DepKind::Normal && self.scope == DepScope::Workspace
    }

    /// A dev-dependency on a workspace member.
    pub fn is_dev_workspace(&self) -> (r: bool)
        ensures
            r == (self.kind == DepKind::Dev && self.scope == DepScope::Workspace),
    {
        self.kind == DepKind::Dev && self.scope == DepScope::Workspace
    }
}

/// Position of the first `c` in `s`, if any.
pub open spec fn first_index_of(s: Seq<char>, c: char) -> Option<int> {
    if s.contains(c) {
        Some(choose|i: int| 0 <= i < s.len() && s[i] == c && forall|j: int| 0 <= j < i ==> s[j] != c)
    } else {
        None
    }
}

/// A feature string split at its first `/` into crate filter and feature
/// name; without `/` there is no filter.
pub open spec fn parsed_feature(f: Seq<char>) -> (Option<Seq<char>>, Seq<char>) {
    match first_index_of(f, '/') {
        Some(i) => (Some(f.take(i)), f.skip(i + 1)),
        None => (None, f),
    }
}

proof fn lemma_first_index_at(s: Seq<char>, c: char, i: int)
    requires
        0 <= i < s.len(),
        s[i] == c,
        forall|j: int| 0 <= j < i ==> s[j] != c,
    ensures
        first_index_of(s, c) == Some(i),
{
    assert(s.contains(c));
    let k = choose|k: int| 0 <= k < s.len() && s[k] == c && forall|j: int| 0 <= j < k ==> s[j] != c;
    if k < i {
        assert(s[k] != c);
    } else if i < k {
        assert(s[i] != c);
    }
}

/// `crate/feature` gives the crate as filter and the rest as feature name,
/// whatever the feature name holds; a name without `/` has no filter.
pub proof fn law_parse_feature_split(c: Seq<char>, f: Seq<char>)
    requires
        !c.contains('/'),
    ensures
        parsed_feature(c + seq!['/'] + f) == (Some(c), f),
        !f.contains('/') ==> parsed_feature(f) == (None::<Seq<char>>, f),
{
    let s = c + seq!['/'] + f;
    assert forall|j: int| 0 <= j < c.len() implies s[j] != '/' by {
        assert(s[j] == c[j]);
    }
    lemma_first_index_at(s, '/', c.len() as int);
    assert(s.take(c.len() as int) =~= c);
    assert(s.skip(c.len() as int + 1) =~= f);
}

/// Splits `crate/feature` into `(Some(crate), feature)`; a string without
/// `/` is a bare feature name.
pub fn parse_feature(feature: &str) -> (r: (Option<&str>, &str))
    ensures
        opt_str_view(r.0) == parsed_feature(feature@).0,
        r.1@ == parsed_feature(feature@).1,
{
    let n = feature.unicode_len();
    let mut i: usize = 0;
    while i < n
        invariant
            n == feature@.len(),
            0 <= i <= n,
            forall|j: int| 0 <= j < i ==> feature@[j] != '/',
        decreases n - i,
    {
        if feature.get_char(i) == '/' {
            proof {
                lemma_first_index_at(feature@, '/', i as int);
            }
            let crate_name = feature.substring_char(0, i);
            let feat = feature.substring_char(i + 1, n);
            assert(crate_name@ =~= feature@.take(i as int));
            assert(feat@ =~= feature@.skip(i + 1));
            return (Some(crate_name), feat);
        }
        i = i + 1;
    }
    assert(!feature@.contains('/'));
    (None, feature)
}

pub open spec fn opt_str_view(o: Option<&str>) -> Option<Seq<char>> {
    match o {
        Some(s) => Some(s@),
        None => None,
    }
}

/// A crate filter admits `name` when it is absent or equal to it.
pub open spec fn filter_admits(f: Option<Seq<char>>, name: Seq<char>) -> bool {
    match f {
        Some(c) => c == name,
        None => true,
    }
}

/// Whether package `name`, declaring `features`, is selected by one of the
/// parsed feature requests.
pub open spec fn package_matches(name: Seq<char>, features: Seq<Seq<char>>, parsed: Seq<(Option<Seq<char>>, Seq<char>)>) -> bool {
    exists|k: int|
        0 <= k < parsed.len() && filter_admits((#[trigger] parsed[k]).0, name) && features.contains(parsed[k].1)
}

pub open spec fn parsed_views(p: Seq<(Option<&str>, &str)>) -> Seq<(Option<Seq<char>>, Seq<char>)> {
    p.map_values(|x: (Option<&str>, &str)| (opt_str_view(x.0), x.1@))
}

fn has_string(v: &Vec<String>, s: &str) -> (r: bool)
    ensures
        r == v.deep_view().contains(s@),
{
    let mut i: usize = 0;
    while i < v.len()
        invariant
            0 <= i <= v.len(),
            forall|j: int| 0 <= j < i ==> v@[j]@ != s@,
        decreases v.len() - i,
    {
        if str_eq(v[i].as_str(), s) {
            assert(v.deep_view()[i as int] == s@);
            return true;
        }
        i = i + 1;
    }
    assert forall|j: int| 0 <= j < v.len() implies v.deep_view()[j] != s@ by {
        assert(v.deep_view()[j] == v@[j]@);
    }
    false
}

/// Appends `s` unless it is already present.
fn push_unique(v: &mut Vec<String>, s: String)
    requires
        old(v).deep_view().no_duplicates(),
    ensures
        final(v).deep_view().no_duplicates(),
        final(v).deep_view().to_set() == old(v).deep_view().to_set().insert(s@),
        old(v).deep_view().is_prefix_of(final(v).deep_view()),
{
    let ghost before = v.deep_view();
    if !has_string(v, s.as_str()) {
        let ghost sv = s@;
        v.push(s);
        proof {
            assert(v.deep_view() =~= before.push(sv));
            before.lemma_push_to_set_commute(sv);
        }
    } else {
        assert(before.to_set().insert(s@) =~= before.to_set());
        assert(before.is_prefix_of(v.deep_view())) by {
            assert(v.deep_view() =~= before);
        }
    }
}

/// Whether the package declares a feature that one of the requests names,
/// with a crate filter, if any, equal to the package's name.
pub fn package_matches_features(pkg: &PackageFeatures, parsed_features: &Vec<(Option<&str>, &str)>) -> (r: bool)
    ensures
        r == package_matches(pkg.name@, pkg.features.deep_view(), parsed_views(parsed_features@)),
{
    let ghost pv = parsed_views(parsed_features@);
    let mut k: usize = 0;
    while k < parsed_features.len()
        invariant
            pv == parsed_views(parsed_features@),
            0 <= k <= parsed_features.len(),
            forall|q: int| 0 <= q < k ==> !(filter_admits((#[trigger] pv[q]).0, pkg.name@) && pkg.features.deep_view().contains(pv[q].1)),
        decreases parsed_features.len() - k,
    {
        let (crate_filter, feature_name) = parsed_features[k];
        let crate_matches = match crate_filter {
            Some(c) => str_eq(c, pkg.name.as_str()),
            None => true,
        };
        let feature_exists = has_string(&pkg.features, feature_name);
        assert(pv[k as int] == (opt_str_view(crate_filter), feature_name@));
        if crate_matches && feature_exists {
            return true;
        }
        k = k + 1;
    }
    false
}

/// Name and declared features of each package.
pub open spec fn package_views(s: Seq<PackageFeatures>) -> Seq<(Seq<char>, Seq<Seq<char>>)> {
    s.map_values(|p: PackageFeatures| (p.name@, p.features.deep_view()))
}

/// The packages that seed the analysis: workspace members that declare a
/// requested feature, by normalized name.
pub open spec fn seed_set(
    packages: Seq<(Seq<char>, Seq<Seq<char>>)>,
    parsed: Seq<(Option<Seq<char>>, Seq<char>)>,
    ws: Set<Seq<char>>,
) -> Set<Seq<char>> {
    Set::new(
        |s: Seq<char>|
            exists|k: int|
                0 <= k < packages.len() && ws.contains(hyphen_to_underscore((#[trigger] packages[k]).0))
                    && package_matches(packages[k].0, packages[k].1, parsed)
                    && s == hyphen_to_underscore(packages[k].0),
    )
}

/// Finds the crates that define the requested features; every workspace
/// member when no feature is requested or all features are.
pub fn find_seed_crates(packages: &Vec<PackageFeatures>, feature_config: &FeatureConfig, workspace_members: &WorkspaceCrates) -> (r: Vec<String>)
    ensures
        r.deep_view().no_duplicates(),
        feature_config.features.len() == 0 || feature_config.all_features ==> r.deep_view().to_set() == workspace_members@,
        !(feature_config.features.len() == 0 || feature_config.all_features) ==> r.deep_view().to_set() == seed_set(
            package_views(packages@),
            feature_config.features.deep_view().map_values(|f: Seq<char>| parsed_feature(f)),
            workspace_members@,
        ),
{
    if feature_config.features.len() == 0 || feature_config.all_features {
        return workspace_members.to_vec();
    }
    let features = &feature_config.features;
    let ghost want = features.deep_view().map_values(|f: Seq<char>| parsed_feature(f));
    let mut parsed: Vec<(Option<&str>, &str)> = Vec::new();
    let mut i: usize = 0;
    while i < features.len()
        invariant
            0 <= i <= features.len(),
            want == features.deep_view().map_values(|f: Seq<char>| parsed_feature(f)),
            parsed.len() == i,
            forall|j: int| 0 <= j < i ==> #[trigger] parsed_views(parsed@)[j] == want[j],
        decreases features.len() - i,
    {
        let pf = parse_feature(features[i].as_str());
        let ghost old_parsed = parsed@;
        parsed.push(pf);
        proof {
            assert forall|j: int| 0 <= j < i + 1 implies #[trigger] parsed_views(parsed@)[j] == want[j] by {
                assert(features.deep_view()[j] == features@[j]@);
                assert(want[j] == parsed_feature(features.deep_view()[j]));
                assert(parsed_views(parsed@)[j] == (opt_str_view(parsed@[j].0), parsed@[j].1@));
                if j == i {
                    assert(parsed@[j] == pf);
                } else {
                    assert(parsed_views(old_parsed)[j] == want[j]);
                    assert(parsed@[j] == old_parsed[j]);
                }
            }
        }
        i = i + 1;
    }
    assert(parsed_views(parsed@) =~= want);
    let ghost pv = package_views(packages@);
    let ghost target = seed_set(pv, want, workspace_members@);
    let mut seeds: Vec<String> = Vec::new();
    let mut k: usize = 0;
    while k < packages.len()
        invariant
            0 <= k <= packages.len(),
            parsed_views(parsed@) == want,
            pv == package_views(packages@),
            target == seed_set(pv, want, workspace_members@),
            seeds.deep_view().no_duplicates(),
            seeds.deep_view().to_set() == Set::new(
                |s: Seq<char>|
                    exists|q: int|
                        0 <= q < k && workspace_members@.contains(hyphen_to_underscore((#[trigger] pv[q]).0))
                            && package_matches(pv[q].0, pv[q].1, want)
                            && s == hyphen_to_underscore(pv[q].0),
            ),
        decreases packages.len() - k,
    {
        let pkg = &packages[k];
        if workspace_members.contains(pkg.name.as_str()) && package_matches_features(pkg, &parsed) {
            let norm = normalize_crate_name(pkg.name.as_str());
            push_unique(&mut seeds, norm);
        }
        proof {
            assert(pv[k as int] == (packages@[k as int].name@, packages@[k as int].features.deep_view()));
            assert(seeds.deep_view().to_set() =~= Set::new(
                |s: Seq<char>|
                    exists|q: int|
                        0 <= q < k + 1 && workspace_members@.contains(hyphen_to_underscore((#[trigger] pv[q]).0))
                            && package_matches(pv[q].0, pv[q].1, want)
                            && s == hyphen_to_underscore(pv[q].0),
            ));
        }
        k = k + 1;
    }
    assert(seeds.deep_view().to_set() =~= target);
    seeds
}

/// `d` is a workspace dependency of crate `a` under the resolved
/// dependencies `m`.
pub open spec fn dep_step(m: Map<Seq<char>, Set<Seq<char>>>, ws: Set<Seq<char>>, a: Seq<char>, d: Seq<char>) -> bool {
    m.contains_key(a) && m[a].contains(d) && ws.contains(hyphen_to_underscore(d))
}

/// Every workspace dependency of a crate of `s` is in `s`.
pub open spec fn deps_closed(m: Map<Seq<char>, Set<Seq<char>>>, ws: Set<Seq<char>>, s: Set<Seq<char>>) -> bool {
    forall|a: Seq<char>, d: Seq<char>| s.contains(a) && #[trigger] dep_step(m, ws, a, d) ==> s.contains(d)
}

/// `r` is the least set holding `seeds` and closed under workspace
/// dependencies: the seeds and the workspace crates they reach.
pub open spec fn is_reach_closure(
    m: Map<Seq<char>, Set<Seq<char>>>,
    ws: Set<Seq<char>>,
    seeds: Set<Seq<char>>,
    r: Set<Seq<char>>,
) -> bool {
    &&& seeds.subset_of(r)
    &&& deps_closed(m, ws, r)
    &&& forall|t: Set<Seq<char>>| seeds.subset_of(t) && #[trigger] deps_closed(m, ws, t) ==> r.subset_of(t)
}

/// Every crate the closure reaches is a seed or a workspace crate: the
/// walk stops at crates outside the workspace.
pub proof fn law_reach_stays_in_workspace(
    m: Map<Seq<char>, Set<Seq<char>>>,
    ws: Set<Seq<char>>,
    seeds: Set<Seq<char>>,
    r: Set<Seq<char>>,
)
    requires
        is_reach_closure(m, ws, seeds, r),
    ensures
        forall|x: Seq<char>| #[trigger] r.contains(x) ==> seeds.contains(x) || ws.contains(hyphen_to_underscore(x)),
{
    let t = Set::new(|x: Seq<char>| seeds.contains(x) || ws.contains(hyphen_to_underscore(x)));
    assert(seeds.subset_of(t));
    assert(deps_closed(m, ws, t)) by {
        assert forall|a: Seq<char>, d: Seq<char>| t.contains(a) && #[trigger] dep_step(m, ws, a, d) implies t.contains(d) by {
        }
    }
    assert(r.subset_of(t));
}

/// More seeds reach at least as much: the closure grows with its seeds.
pub proof fn law_reach_monotone(
    m: Map<Seq<char>, Set<Seq<char>>>,
    ws: Set<Seq<char>>,
    seeds1: Set<Seq<char>>,
    r1: Set<Seq<char>>,
    seeds2: Set<Seq<char>>,
    r2: Set<Seq<char>>,
)
    requires
        is_reach_closure(m, ws, seeds1, r1),
        is_reach_closure(m, ws, seeds2, r2),
        seeds1.subset_of(seeds2),
    ensures
        r1.subset_of(r2),
{
    assert(seeds1.subset_of(r2));
    assert(deps_closed(m, ws, r2));
}

/// Closing a closure again changes nothing.
pub proof fn law_reach_idempotent(
    m: Map<Seq<char>, Set<Seq<char>>>,
    ws: Set<Seq<char>>,
    seeds: Set<Seq<char>>,
    r: Set<Seq<char>>,
    r2: Set<Seq<char>>,
)
    requires
        is_reach_closure(m, ws, seeds, r),
        is_reach_closure(m, ws, r, r2),
    ensures
        r2 == r,
{
    assert(r.subset_of(r));
    assert(deps_closed(m, ws, r));
    assert(r2.subset_of(r));
    assert(r2 =~= r);
}

/// All dependency names of the resolved-dependency entries, in order.
pub open spec fn flat_deps(s: Seq<(String, Vec<String>)>) -> Seq<Seq<char>>
    decreases s.len(),
{
    if s.len() == 0 {
        Seq::empty()
    } else {
        flat_deps(s.drop_last()) + s.last().1.deep_view()
    }
}

proof fn lemma_deps_in_flat(s: Seq<(String, Vec<String>)>, k: Seq<char>, d: Seq<char>)
    requires
        pairs_to_map(s).contains_key(k),
        pairs_to_map(s)[k].contains(d),
    ensures
        flat_deps(s).contains(d),
    decreases s.len(),
{
    if s.len() > 0 {
        let pre = flat_deps(s.drop_last());
        let last = s.last().1.deep_view();
        assert(flat_deps(s) == pre + last);
        if s.last().0@ == k {
            assert(last.to_set().contains(d));
            let j = choose|j: int| 0 <= j < last.len() && last[j] == d;
            assert((pre + last)[pre.len() + j] == d);
        } else {
            lemma_deps_in_flat(s.drop_last(), k, d);
            let j = choose|j: int| 0 <= j < pre.len() && pre[j] == d;
            assert((pre + last)[j] == d);
        }
    }
}

proof fn lemma_unique_within(v: Seq<Seq<char>>, pool: Seq<Seq<char>>)
    requires
        v.no_duplicates(),
        forall|j: int| 0 <= j < v.len() ==> pool.contains(#[trigger] v[j]),
    ensures
        v.len() <= pool.len(),
{
    v.unique_seq_to_set();
    pool.lemma_cardinality_of_set();
    assert forall|x: Seq<char>| v.to_set().contains(x) implies pool.to_set().contains(x) by {
        let j = choose|j: int| 0 <= j < v.len() && v[j] == x;
    }
    vstd::set_lib::lemma_len_subset(v.to_set(), pool.to_set());
}

/// Collects the seeds and every workspace crate reachable from them through
/// the resolved dependencies (breadth first; a later entry for a crate
/// replaces an earlier one). Each name appears once.
pub fn collect_reachable_crates(
    seeds: &Vec<String>,
    resolved_deps: &Vec<(String, Vec<String>)>,
    workspace_members: &WorkspaceCrates,
) -> (r: Vec<String>)
    ensures
        r.deep_view().no_duplicates(),
        is_reach_closure(pairs_to_map(resolved_deps@), workspace_members@, seeds.deep_view().to_set(), r.deep_view().to_set()),
{
    let ghost m = pairs_to_map(resolved_deps@);
    let ghost ws = workspace_members@;
    let ghost sd = seeds.deep_view().to_set();
    let ghost pool = seeds.deep_view() + flat_deps(resolved_deps@);
    let mut reach: Vec<String> = Vec::new();
    let mut i: usize = 0;
    while i < seeds.len()
        invariant
            0 <= i <= seeds.len(),
            sd == seeds.deep_view().to_set(),
            reach.deep_view().no_duplicates(),
            reach.deep_view().to_set() == seeds.deep_view().take(i as int).to_set(),
        decreases seeds.len() - i,
    {
        push_unique(&mut reach, seeds[i].clone());
        proof {
            assert(seeds.deep_view().take(i + 1) =~= seeds.deep_view().take(i as int).push(seeds@[i as int]@));
            seeds.deep_view().take(i as int).lemma_push_to_set_commute(seeds@[i as int]@);
        }
        i = i + 1;
    }
    assert(seeds.deep_view().take(seeds.len() as int) =~= seeds.deep_view());
    let mut head: usize = 0;
    proof {
        assert forall|t: Set<Seq<char>>| sd.subset_of(t) && #[trigger] deps_closed(m, ws, t) implies reach.deep_view().to_set().subset_of(t) by {}
        assert forall|j: int| 0 <= j < reach.len() implies pool.contains(#[trigger] reach.deep_view()[j]) by {
            assert(reach.deep_view().to_set().contains(reach.deep_view()[j]));
            let q = choose|q: int| 0 <= q < seeds.len() && seeds.deep_view()[q] == reach.deep_view()[j];
            assert(pool[q] == seeds.deep_view()[q]);
        }
        lemma_unique_within(reach.deep_view(), pool);
    }
    while head < reach.len()
        invariant
            m == pairs_to_map(resolved_deps@),
            ws == workspace_members@,
            sd == seeds.deep_view().to_set(),
            pool == seeds.deep_view() + flat_deps(resolved_deps@),
            0 <= head <= reach.len(),
            reach.len() <= pool.len(),
            reach.deep_view().no_duplicates(),
            sd.subset_of(reach.deep_view().to_set()),
            forall|j: int| 0 <= j < reach.len() ==> pool.contains(#[trigger] reach.deep_view()[j]),
            forall|t: Set<Seq<char>>| sd.subset_of(t) && #[trigger] deps_closed(m, ws, t) ==> reach.deep_view().to_set().subset_of(t),
            forall|j: int, d: Seq<char>| 0 <= j < head && #[trigger] dep_step(m, ws, reach.deep_view()[j], d) ==> reach.deep_view().contains(d),
        decreases pool.len() - reach.len(), reach.len() - head,
    {
        let name = reach[head].clone();
        let ghost len0 = reach.len();
        assert(name@ == reach.deep_view()[head as int]);
        match find_last_entry(resolved_deps, name.as_str()) {
            Some(deps) => {
                let mut j: usize = 0;
                while j < deps.len()
                    invariant
                        m == pairs_to_map(resolved_deps@),
                        ws == workspace_members@,
                        sd == seeds.deep_view().to_set(),
                        pool == seeds.deep_view() + flat_deps(resolved_deps@),
                        m.contains_key(name@),
                        deps.deep_view().to_set() == m[name@],
                        0 <= j <= deps.len(),
                        head < len0 <= reach.len(),
                        reach.len() <= pool.len(),
                        name@ == reach.deep_view()[head as int],
                        reach.deep_view().no_duplicates(),
                        sd.subset_of(reach.deep_view().to_set()),
                        forall|q: int| 0 <= q < reach.len() ==> pool.contains(#[trigger] reach.deep_view()[q]),
                        forall|t: Set<Seq<char>>| sd.subset_of(t) && #[trigger] deps_closed(m, ws, t) ==> reach.deep_view().to_set().subset_of(t),
                        forall|q: int, d: Seq<char>| 0 <= q < head && #[trigger] dep_step(m, ws, reach.deep_view()[q], d) ==> reach.deep_view().contains(d),
                        forall|q: int| 0 <= q < j && ws.contains(hyphen_to_underscore(#[trigger] deps.deep_view()[q])) ==> reach.deep_view().contains(deps.deep_view()[q]),
                    decreases deps.len() - j,
                {
                    let d = &deps[j];
                    assert(deps.deep_view()[j as int] == d@);
                    if workspace_members.contains(d.as_str()) && !has_string(&reach, d.as_str()) {
                        let ghost before = reach.deep_view();
                        assert(m[name@].contains(d@));
                        assert(dep_step(m, ws, name@, d@));
                        reach.push(d.clone());
                        proof {
                            assert(reach.deep_view() =~= before.push(d@));
                            before.lemma_push_to_set_commute(d@);
                            lemma_deps_in_flat(resolved_deps@, name@, d@);
                            let fq = choose|fq: int| 0 <= fq < flat_deps(resolved_deps@).len() && flat_deps(resolved_deps@)[fq] == d@;
                            assert(pool[seeds.len() + fq] == d@);
                            assert forall|q: int| 0 <= q < reach.len() implies pool.contains(#[trigger] reach.deep_view()[q]) by {
                                if q < before.len() {
                                    assert(reach.deep_view()[q] == before[q]);
                                }
                            }
                            assert forall|t: Set<Seq<char>>| sd.subset_of(t) && #[trigger] deps_closed(m, ws, t) implies reach.deep_view().to_set().subset_of(t) by {
                                assert(before.to_set().subset_of(t));
                                assert(before.to_set().contains(name@));
                                assert(t.contains(name@));
                                assert(t.contains(d@));
                            }
                            assert forall|q: int, e: Seq<char>| 0 <= q < head && #[trigger] dep_step(m, ws, reach.deep_view()[q], e) implies reach.deep_view().contains(e) by {
                                assert(reach.deep_view()[q] == before[q]);
                                let w = choose|w: int| 0 <= w < before.len() && before[w] == e;
                                assert(reach.deep_view()[w] == e);
                            }
                            assert forall|q: int| 0 <= q < j + 1 && ws.contains(hyphen_to_underscore(#[trigger] deps.deep_view()[q])) implies reach.deep_view().contains(deps.deep_view()[q]) by {
                                if q < j {
                                    let w = choose|w: int| 0 <= w < before.len() && before[w] == deps.deep_view()[q];
                                    assert(reach.deep_view()[w] == deps.deep_view()[q]);
                                } else {
                                    assert(reach.deep_view()[before.len() as int] == d@);
                                }
                            }
                            lemma_unique_within(reach.deep_view(), pool);
                        }
                    }
                    j = j + 1;
                }
                proof {
                    assert forall|q: int, d: Seq<char>| 0 <= q < head + 1 && #[trigger] dep_step(m, ws, reach.deep_view()[q], d) implies reach.deep_view().contains(d) by {
                        if q == head {
                            assert(deps.deep_view().to_set().contains(d));
                            let w = choose|w: int| 0 <= w < deps.len() && deps.deep_view()[w] == d;
                        }
                    }
                }
            },
            None => {
                proof {
                    assert forall|q: int, d: Seq<char>| 0 <= q < head + 1 && #[trigger] dep_step(m, ws, reach.deep_view()[q], d) implies reach.deep_view().contains(d) by {
                        if q == head {
                            assert(!m.contains_key(name@));
                        }
                    }
                }
            },
        }
        head = head + 1;
    }
    proof {
        assert forall|a: Seq<char>, d: Seq<char>| reach.deep_view().to_set().contains(a) && #[trigger] dep_step(m, ws, a, d) implies reach.deep_view().to_set().contains(d) by {
            let q = choose|q: int| 0 <= q < reach.len() && reach.deep_view()[q] == a;
            assert(reach.deep_view().contains(d));
        }
    }
    reach
}

} // verus!
