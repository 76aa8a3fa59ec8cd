//! Workspace analysis from Cargo metadata: which member crates take part
//! and their workspace-internal dependencies.

use vstd::prelude::*;
use crate::filtering::{
    DepInfo, DepKind, FeatureConfig, PackageFeatures, package_views, collect_reachable_crates, decisive_kind, find_seed_crates,
    is_reach_closure, parsed_feature, scope_of, seed_set, DepScope,
};
use crate::model::{CrateInfo, WorkspaceCrates, normalize_crate_name, pairs_to_map};
use crate::strings::{hyphen_to_underscore, str_eq};

verus! {

/// A dependency of a resolved package: the name its code uses, the id of
/// the package and the kinds it is declared with.
#[derive(Debug, Clone)]
pub struct MetaDep {
    pub name: String,
    pub pkg: String,
    pub kinds: Vec<DepKind>,
}

/// A node of the resolved dependency graph.
#[derive(Debug, Clone)]
pub struct MetaNode {
    pub id: String,
    pub deps: Vec<MetaDep>,
}

/// A package of the metadata: id, name, version, directory of its
/// manifest, the features it declares, and whether it comes from a local
/// path (it has no registry or git source).
#[derive(Debug, Clone)]
pub struct MetaPackage {
    pub id: String,
    pub name: String,
    pub version: String,
    pub dir: String,
    pub features: Vec<String>,
    pub is_local: bool,
}

/// What the analysis reads of `cargo metadata`.
#[derive(Debug, Clone)]
pub struct WorkspaceMetadata {
    pub packages: Vec<MetaPackage>,
    pub workspace_members: Vec<String>,
    pub resolve: Option<Vec<MetaNode>>,
}

/// Why a workspace could not be analyzed.
#[derive(Debug, Clone, Copy, PartialEq, Eq, Structural)]
pub enum WorkspaceError {
    /// The metadata has no resolve section.
    NoResolve,
}

/// A crate as the analysis reports it: name, directory, dependencies and
/// dev-dependencies.
pub type CrateView = (Seq<char>, Seq<char>, Seq<Seq<char>>, Seq<Seq<char>>);

pub open spec fn crate_view(c: CrateInfo) -> CrateView {
    (c.name@, c.path@, c.dependencies.deep_view(), c.dev_dependencies.deep_view())
}

pub open spec fn crate_views(s: Seq<CrateInfo>) -> Seq<CrateView> {
    s.map_values(|c: CrateInfo| crate_view(c))
}

/// Whether `id` is a workspace member.
pub open spec fn is_member(meta: WorkspaceMetadata, id: Seq<char>) -> bool {
    meta.workspace_members.deep_view().contains(id)
}

/// The member packages among the first `k` packages, in order.
pub open spec fn member_packages(meta: WorkspaceMetadata, k: int) -> Seq<MetaPackage>
    decreases k,
{
    if k <= 0 {
        Seq::empty()
    } else if is_member(meta, meta.packages@[k - 1].id@) {
        member_packages(meta, k - 1).push(meta.packages@[k - 1])
    } else {
        member_packages(meta, k - 1)
    }
}

/// The workspace member names, normalized.
pub open spec fn member_names(meta: WorkspaceMetadata) -> Set<Seq<char>> {
    member_packages(meta, meta.packages.len() as int).map_values(|p: MetaPackage| p.name@).to_set().map(
        |s: Seq<char>| hyphen_to_underscore(s),
    )
}

/// The name of the last package with the given id.
pub open spec fn id_name(packages: Seq<MetaPackage>, id: Seq<char>) -> Option<Seq<char>>
    decreases packages.len(),
{
    if packages.len() == 0 {
        None
    } else if packages.last().id@ == id {
        Some(packages.last().name@)
    } else {
        id_name(packages.drop_last(), id)
    }
}

/// The normal and the dev dependencies on workspace members among the
/// first `k` dependencies, by name.
pub open spec fn split_deps(ws: Set<Seq<char>>, deps: Seq<MetaDep>, k: int) -> (Seq<Seq<char>>, Seq<Seq<char>>)
    decreases k,
{
    if k <= 0 {
        (Seq::empty(), Seq::empty())
    } else {
        let prev = split_deps(ws, deps, k - 1);
        let d = deps[k - 1];
        let kind = decisive_kind(d.kinds@);
        let scope = scope_of(ws, d.name@);
        if kind == DepKind::Normal && scope == DepScope::Workspace {
            (prev.0.push(d.name@), prev.1)
        } else if kind == DepKind::Dev && scope == DepScope::Workspace {
            (prev.0, prev.1.push(d.name@))
        } else {
            prev
        }
    }
}

/// One entry per member node of the first `k` resolve nodes whose package
/// is known: normalized name, normal and dev dependencies.
pub open spec fn resolved_entries(meta: WorkspaceMetadata, nodes: Seq<MetaNode>, k: int) -> Seq<
    (Seq<char>, Seq<Seq<char>>, Seq<Seq<char>>),
>
    decreases k,
{
    if k <= 0 {
        Seq::empty()
    } else {
        let prev = resolved_entries(meta, nodes, k - 1);
        let node = nodes[k - 1];
        match id_name(meta.packages@, node.id@) {
            Some(name) => if is_member(meta, node.id@) {
                let lists = split_deps(member_names(meta), node.deps@, node.deps.len() as int);
                prev.push((hyphen_to_underscore(name), lists.0, lists.1))
            } else {
                prev
            },
            None => prev,
        }
    }
}

/// The value of the last entry for `key` among the first `k` entries.
pub open spec fn last_value(entries: Seq<(Seq<char>, Seq<Seq<char>>, Seq<Seq<char>>)>, key: Seq<char>, k: int, dev: bool) -> Option<
    Seq<Seq<char>>,
>
    decreases k,
{
    if k <= 0 {
        None
    } else if entries[k - 1].0 == key {
        Some(if dev { entries[k - 1].2 } else { entries[k - 1].1 })
    } else {
        last_value(entries, key, k - 1, dev)
    }
}

/// The map from crate to its normal dependencies that the entries give.
pub open spec fn prod_map(entries: Seq<(Seq<char>, Seq<Seq<char>>, Seq<Seq<char>>)>) -> Map<Seq<char>, Set<Seq<char>>>
    decreases entries.len(),
{
    if entries.len() == 0 {
        Map::empty()
    } else {
        prod_map(entries.drop_last()).insert(entries.last().0, entries.last().1.to_set())
    }
}

/// The value for `key`, or nothing.
pub open spec fn value_or_empty(v: Option<Seq<Seq<char>>>) -> Seq<Seq<char>> {
    match v {
        Some(s) => s,
        None => Seq::empty(),
    }
}

/// Whether a member package takes part: always without a feature request
/// (or with all features), else when it is reachable.
pub open spec fn takes_part(cfg: FeatureConfig, reach: Set<Seq<char>>, p: MetaPackage) -> bool {
    cfg.features.len() == 0 || cfg.all_features || reach.contains(hyphen_to_underscore(p.name@))
}

/// The crates reported for the first `k` member packages.
pub open spec fn reported_crates(
    cfg: FeatureConfig,
    reach: Set<Seq<char>>,
    entries: Seq<(Seq<char>, Seq<Seq<char>>, Seq<Seq<char>>)>,
    members: Seq<MetaPackage>,
    k: int,
) -> Seq<CrateView>
    decreases k,
{
    if k <= 0 {
        Seq::empty()
    } else {
        let prev = reported_crates(cfg, reach, entries, members, k - 1);
        let p = members[k - 1];
        if takes_part(cfg, reach, p) {
            let key = hyphen_to_underscore(p.name@);
            prev.push(
                (
                    p.name@,
                    p.dir@,
                    value_or_empty(last_value(entries, key, entries.len() as int, false)),
                    if cfg.include_tests {
                        value_or_empty(last_value(entries, key, entries.len() as int, true))
                    } else {
                        Seq::empty()
                    },
                ),
            )
        } else {
            prev
        }
    }
}

/// The set of crates from which the reachable ones are collected: every
/// member without a feature request, else the seeds.
pub open spec fn start_set(meta: WorkspaceMetadata, cfg: FeatureConfig) -> Set<Seq<char>> {
    if cfg.features.len() == 0 || cfg.all_features {
        member_names(meta)
    } else {
        seed_set(
            meta.packages@.map_values(|p: MetaPackage| (p.name@, p.features.deep_view())),
            cfg.features.deep_view().map_values(|f: Seq<char>| parsed_feature(f)),
            member_names(meta),
        )
    }
}

pub open spec fn entries_view(v: Seq<(String, Vec<String>, Vec<String>)>) -> Seq<(Seq<char>, Seq<Seq<char>>, Seq<Seq<char>>)> {
    v.map_values(|e: (String, Vec<String>, Vec<String>)| (e.0@, e.1.deep_view(), e.2.deep_view()))
}

fn has_id(ids: &Vec<String>, id: &str) -> (r: bool)
    ensures
        r == ids.deep_view().contains(id@),
{
    let mut i: usize = 0;
    while i < ids.len()
        invariant
            0 <= i <= ids.len(),
            forall|j: int| 0 <= j < i ==> ids@[j]@ != id@,
        decreases ids.len() - i,
    {
        if str_eq(ids[i].as_str(), id) {
            assert(ids.deep_view()[i as int] == id@);
            return true;
        }
        i = i + 1;
    }
    assert forall|j: int| 0 <= j < ids.len() implies ids.deep_view()[j] != id@ by {
        assert(ids.deep_view()[j] == ids@[j]@);
    }
    false
}

/// Indices of the member packages, in order.
fn member_indices(meta: &WorkspaceMetadata) -> (r: Vec<usize>)
    ensures
        r.len() == member_packages(*meta, meta.packages.len() as int).len(),
        forall|k: int| 0 <= k < r.len() ==> #[trigger] r@[k] < meta.packages.len(),
        forall|k: int| 0 <= k < r.len() ==> meta.packages@[#[trigger] r@[k] as int] == member_packages(*meta, meta.packages.len() as int)[k],
{
    let mut r: Vec<usize> = Vec::new();
    let mut i: usize = 0;
    while i < meta.packages.len()
        invariant
            0 <= i <= meta.packages.len(),
            r.len() == member_packages(*meta, i as int).len(),
            forall|k: int| 0 <= k < r.len() ==> #[trigger] r@[k] < i,
            forall|k: int| 0 <= k < r.len() ==> meta.packages@[#[trigger] r@[k] as int] == member_packages(*meta, i as int)[k],
        decreases meta.packages.len() - i,
    {
        if has_id(&meta.workspace_members, meta.packages[i].id.as_str()) {
            r.push(i);
        }
        i = i + 1;
    }
    r
}

proof fn lemma_id_name_take(packages: Seq<MetaPackage>, id: Seq<char>, k: int)
    requires
        0 <= k <= packages.len(),
        forall|q: int| k <= q < packages.len() ==> packages[q].id@ != id,
    ensures
        id_name(packages, id) == id_name(packages.take(k), id),
    decreases packages.len() - k,
{
    if k < packages.len() {
        lemma_id_name_take(packages, id, k + 1);
        assert(packages.take(k + 1).drop_last() =~= packages.take(k));
    } else {
        assert(packages.take(k) =~= packages);
    }
}

/// The name of the last package with id `id`.
fn find_id_name<'a>(packages: &'a Vec<MetaPackage>, id: &str) -> (r: Option<&'a String>)
    ensures
        match r {
            Some(n) => id_name(packages@, id@) == Some(n@),
            None => id_name(packages@, id@) is None,
        },
{
    let mut k: usize = packages.len();
    while k > 0
        invariant
            k <= packages.len(),
            forall|q: int| k <= q < packages.len() ==> packages@[q].id@ != id@,
        decreases k,
    {
        if str_eq(packages[k - 1].id.as_str(), id) {
            proof {
                lemma_id_name_take(packages@, id@, k as int);
                assert(packages@.take(k as int).last() == packages@[k - 1]);
            }
            return Some(&packages[k - 1].name);
        }
        k = k - 1;
    }
    proof {
        lemma_id_name_take(packages@, id@, 0);
    }
    None
}

/// The normal and the dev dependencies of a node on workspace members.
fn split_node_deps(ws: &WorkspaceCrates, deps: &Vec<MetaDep>) -> (r: (Vec<String>, Vec<String>))
    ensures
        r.0.deep_view() == split_deps(ws@, deps@, deps.len() as int).0,
        r.1.deep_view() == split_deps(ws@, deps@, deps.len() as int).1,
{
    let mut prod: Vec<String> = Vec::new();
    let mut dev: Vec<String> = Vec::new();
    let mut j: usize = 0;
    while j < deps.len()
        invariant
            0 <= j <= deps.len(),
            prod.deep_view() == split_deps(ws@, deps@, j as int).0,
            dev.deep_view() == split_deps(ws@, deps@, j as int).1,
        decreases deps.len() - j,
    {
        let dep = &deps[j];
        let info = DepInfo::from_node_dep(dep.name.as_str(), &dep.kinds, ws);
        if info.is_included() {
            let ghost before = prod.deep_view();
            prod.push(dep.name.clone());
            assert(prod.deep_view() =~= before.push(dep.name@));
        } else if info.is_dev_workspace() {
            let ghost before = dev.deep_view();
            dev.push(dep.name.clone());
            assert(dev.deep_view() =~= before.push(dep.name@));
        }
        j = j + 1;
    }
    (prod, dev)
}

/// The resolved dependencies of the member nodes.
fn resolved_deps(meta: &WorkspaceMetadata, nodes: &Vec<MetaNode>, ws: &WorkspaceCrates) -> (r: Vec<(String, Vec<String>, Vec<String>)>)
    requires
        ws@ == member_names(*meta),
    ensures
        entries_view(r@) == resolved_entries(*meta, nodes@, nodes.len() as int),
{
    let mut r: Vec<(String, Vec<String>, Vec<String>)> = Vec::new();
    let mut k: usize = 0;
    while k < nodes.len()
        invariant
            ws@ == member_names(*meta),
            0 <= k <= nodes.len(),
            entries_view(r@) == resolved_entries(*meta, nodes@, k as int),
        decreases nodes.len() - k,
    {
        let node = &nodes[k];
        if has_id(&meta.workspace_members, node.id.as_str()) {
            match find_id_name(&meta.packages, node.id.as_str()) {
                Some(name) => {
                    let (prod, dev) = split_node_deps(ws, &node.deps);
                    let norm = normalize_crate_name(name.as_str());
                    let ghost before = r@;
                    r.push((norm, prod, dev));
                    assert(entries_view(r@) =~= entries_view(before).push(
                        (hyphen_to_underscore(name@), split_deps(ws@, node.deps@, node.deps.len() as int).0, split_deps(ws@, node.deps@, node.deps.len() as int).1),
                    ));
                },
                None => {},
            }
        }
        k = k + 1;
    }
    r
}

proof fn lemma_prod_pairs(pairs: Seq<(String, Vec<String>)>, entries: Seq<(String, Vec<String>, Vec<String>)>)
    requires
        pairs.len() == entries.len(),
        forall|k: int| 0 <= k < pairs.len() ==> (#[trigger] pairs[k]).0@ == entries[k].0@ && pairs[k].1.deep_view() == entries[k].1.deep_view(),
    ensures
        pairs_to_map(pairs) == prod_map(entries_view(entries)),
    decreases pairs.len(),
{
    if pairs.len() > 0 {
        lemma_prod_pairs(pairs.drop_last(), entries.drop_last());
        assert(entries_view(entries.drop_last()) =~= entries_view(entries).drop_last());
        assert(pairs.last() == pairs[pairs.len() - 1]);
    }
}

/// The crate and normal-dependency pairs of the entries.
fn prod_pairs(entries: &Vec<(String, Vec<String>, Vec<String>)>) -> (r: Vec<(String, Vec<String>)>)
    ensures
        pairs_to_map(r@) == prod_map(entries_view(entries@)),
{
    let mut r: Vec<(String, Vec<String>)> = Vec::new();
    let mut k: usize = 0;
    while k < entries.len()
        invariant
            0 <= k <= entries.len(),
            r.len() == k,
            forall|q: int| 0 <= q < k ==> (#[trigger] r@[q]).0@ == entries@[q].0@ && r@[q].1.deep_view() == entries@[q].1.deep_view(),
        decreases entries.len() - k,
    {
        let deps = crate::model::clone_strings(&entries[k].1);
        r.push((entries[k].0.clone(), deps));
        k = k + 1;
    }
    proof {
        lemma_prod_pairs(r@, entries@);
    }
    r
}

/// The dependencies (or dev-dependencies) of the last entry for `key`.
fn lookup_deps(entries: &Vec<(String, Vec<String>, Vec<String>)>, key: &str, dev: bool) -> (r: Vec<String>)
    ensures
        r.deep_view() == value_or_empty(last_value(entries_view(entries@), key@, entries.len() as int, dev)),
{
    let ghost ev = entries_view(entries@);
    let mut k: usize = entries.len();
    while k > 0
        invariant
            ev == entries_view(entries@),
            k <= entries.len(),
            last_value(ev, key@, entries.len() as int, dev) == last_value(ev, key@, k as int, dev),
        decreases k,
    {
        if str_eq(entries[k - 1].0.as_str(), key) {
            let v = if dev { &entries[k - 1].2 } else { &entries[k - 1].1 };
            return crate::model::clone_strings(v);
        }
        k = k - 1;
    }
    Vec::new()
}

/// Analyzes the workspace that the metadata describes: the member crates
/// that take part under the feature configuration, in package order, each
/// with its normal workspace dependencies and, when tests are included,
/// its dev-dependencies on workspace members. Without a resolve section
/// there is nothing to analyze.
pub fn analyze_workspace(metadata: &WorkspaceMetadata, feature_config: &FeatureConfig) -> (r: Result<Vec<CrateInfo>, WorkspaceError>)
    ensures
        metadata.resolve is None <==> r is Err,
        r matches Ok(crates) ==> exists|reach: Set<Seq<char>>|
            #[trigger] is_reach_closure(
                prod_map(resolved_entries(*metadata, metadata.resolve->0@, metadata.resolve->0.len() as int)),
                member_names(*metadata),
                start_set(*metadata, *feature_config),
                reach,
            ) && crate_views(crates@) == reported_crates(
                *feature_config,
                reach,
                resolved_entries(*metadata, metadata.resolve->0@, metadata.resolve->0.len() as int),
                member_packages(*metadata, metadata.packages.len() as int),
                member_packages(*metadata, metadata.packages.len() as int).len() as int,
            ),
{
    let nodes = match &metadata.resolve {
        Some(nodes) => nodes,
        None => {
            return Err(WorkspaceError::NoResolve);
        },
    };
    let ghost members = member_packages(*metadata, metadata.packages.len() as int);
    let members_idx = member_indices(metadata);
    let mut names: Vec<String> = Vec::new();
    let mut i: usize = 0;
    while i < members_idx.len()
        invariant
            members == member_packages(*metadata, metadata.packages.len() as int),
            members_idx.len() == members.len(),
            forall|k: int| 0 <= k < members_idx.len() ==> #[trigger] members_idx@[k] < metadata.packages.len(),
            forall|k: int| 0 <= k < members_idx.len() ==> metadata.packages@[#[trigger] members_idx@[k] as int] == members[k],
            0 <= i <= members_idx.len(),
            names.deep_view() == members.take(i as int).map_values(|p: MetaPackage| p.name@),
        decreases members_idx.len() - i,
    {
        let ghost before = names.deep_view();
        let pkg = &metadata.packages[members_idx[i]];
        names.push(pkg.name.clone());
        assert(members.take(i + 1) =~= members.take(i as int).push(members[i as int]));
        assert(names.deep_view() =~= before.push(members[i as int].name@));
        i = i + 1;
    }
    assert(members.take(members.len() as int) =~= members);
    let ws = WorkspaceCrates::from_names(names);
    assert(ws@ == member_names(*metadata));
    let entries = resolved_deps(metadata, nodes, &ws);
    let ghost ev = entries_view(entries@);
    let prod = prod_pairs(&entries);
    let mut features_of: Vec<PackageFeatures> = Vec::new();
    let mut q: usize = 0;
    while q < metadata.packages.len()
        invariant
            0 <= q <= metadata.packages.len(),
            package_views(features_of@) == metadata.packages@.take(q as int).map_values(
                |p: MetaPackage| (p.name@, p.features.deep_view()),
            ),
        decreases metadata.packages.len() - q,
    {
        let p = &metadata.packages[q];
        let name = p.name.clone();
        let features = p.features.clone();
        assert(features@ =~= p.features@);
        assert(features.deep_view() =~= p.features.deep_view());
        let ghost before = features_of@;
        let pf = PackageFeatures { name, features };
        features_of.push(pf);
        assert(features_of@ =~= before.push(pf));
        assert(metadata.packages@.take(q + 1) =~= metadata.packages@.take(q as int).push(metadata.packages@[q as int]));
        assert(package_views(features_of@) =~= package_views(before).push((p.name@, p.features.deep_view())));
        q = q + 1;
    }
    assert(metadata.packages@.take(metadata.packages.len() as int) =~= metadata.packages@);
    let seeds = find_seed_crates(&features_of, feature_config, &ws);
    assert(seeds.deep_view().to_set() == start_set(*metadata, *feature_config));
    let reachable = collect_reachable_crates(&seeds, &prod, &ws);
    let ghost reach = reachable.deep_view().to_set();
    let open_filter = feature_config.features.len() == 0 || feature_config.all_features;
    let mut crates: Vec<CrateInfo> = Vec::new();
    let mut m: usize = 0;
    while m < members_idx.len()
        invariant
            members == member_packages(*metadata, metadata.packages.len() as int),
            members_idx.len() == members.len(),
            forall|k: int| 0 <= k < members_idx.len() ==> #[trigger] members_idx@[k] < metadata.packages.len(),
            forall|k: int| 0 <= k < members_idx.len() ==> metadata.packages@[#[trigger] members_idx@[k] as int] == members[k],
            ev == entries_view(entries@),
            reach == reachable.deep_view().to_set(),
            open_filter == (feature_config.features.len() == 0 || feature_config.all_features),
            0 <= m <= members_idx.len(),
            crate_views(crates@) == reported_crates(*feature_config, reach, ev, members, m as int),
        decreases members_idx.len() - m,
    {
        let pkg = &metadata.packages[members_idx[m]];
        assert(*pkg == members[m as int]);
        let norm = normalize_crate_name(pkg.name.as_str());
        let mut found = false;
        let mut t: usize = 0;
        while t < reachable.len()
            invariant
                0 <= t <= reachable.len(),
                found == exists|u: int| 0 <= u < t && reachable@[u]@ == norm@,
            decreases reachable.len() - t,
        {
            if str_eq(reachable[t].as_str(), norm.as_str()) {
                found = true;
            }
            t = t + 1;
        }
        proof {
            if found {
                let u = choose|u: int| 0 <= u < reachable.len() && reachable@[u]@ == norm@;
                assert(reachable.deep_view()[u] == norm@);
                assert(reach.contains(norm@));
            } else if reach.contains(norm@) {
                let u = choose|u: int| 0 <= u < reachable.len() && reachable.deep_view()[u] == norm@;
                assert(reachable.deep_view()[u] == reachable@[u]@);
            }
        }
        if open_filter || found {
            let dependencies = lookup_deps(&entries, norm.as_str(), false);
            let dev_dependencies = if feature_config.include_tests {
                lookup_deps(&entries, norm.as_str(), true)
            } else {
                Vec::new()
            };
            let ghost before = crates@;
            let info = CrateInfo { name: pkg.name.clone(), path: pkg.dir.clone(), dependencies, dev_dependencies };
            assert(takes_part(*feature_config, reach, members[m as int]));
            assert(ev.len() == entries.len());
            crates.push(info);
            assert(crate_views(crates@) =~= crate_views(before).push(crate_view(info)));
            let ghost key = hyphen_to_underscore(members[m as int].name@);
            assert(norm@ == key);
            assert(crate_view(info) == (
                members[m as int].name@,
                members[m as int].dir@,
                value_or_empty(last_value(ev, key, ev.len() as int, false)),
                if feature_config.include_tests {
                    value_or_empty(last_value(ev, key, ev.len() as int, true))
                } else {
                    Seq::<Seq<char>>::empty()
                },
            ));
        }
        proof {
            assert(takes_part(*feature_config, reach, members[m as int]) == (open_filter || found));
        }
        m = m + 1;
    }
    Ok(crates)
}

} // verus!
