//! External crates that the workspace depends on: the ones its members use
//! directly and, on request, those reachable through other external crates.

use vstd::prelude::*;
use crate::filtering::DepKind;
use crate::model::normalize_crate_name;
use crate::strings::{hyphen_to_underscore, str_eq};
use crate::workspace::{MetaDep, MetaNode, MetaPackage, WorkspaceMetadata, is_member};

verus! {

/// An external crate (one per package id, so one per version).
#[derive(Debug, Clone)]
pub struct ExternalCrateInfo {
    pub name: String,
    pub version: String,
    pub package_id: String,
}

/// A dependency of one external crate on another.
#[derive(Debug, Clone)]
pub struct ExternalDep {
    pub from_pkg_id: String,
    pub to_pkg_id: String,
    pub dep_kinds: Vec<DepKind>,
}

/// A dependency of a workspace crate on an external crate.
#[derive(Debug, Clone)]
pub struct WorkspaceExternalDep {
    pub workspace_crate: String,
    pub external_pkg_id: String,
    pub dep_kinds: Vec<DepKind>,
}

/// What the external analysis finds. `crate_name_map` lists, in the order
/// found, (workspace crate, name its code uses, package id); a later entry
/// for the same crate and name replaces an earlier one.
#[derive(Debug)]
pub struct ExternalsResult {
    pub crates: Vec<ExternalCrateInfo>,
    pub external_deps: Vec<ExternalDep>,
    pub workspace_deps: Vec<WorkspaceExternalDep>,
    pub crate_name_map: Vec<(String, String, String)>,
}

/// An edge as reported: source, target and the kinds kept.
pub type EdgeView = (Seq<char>, Seq<char>, Seq<DepKind>);

/// Index of the last package with the given id.
pub open spec fn last_package(packages: Seq<MetaPackage>, id: Seq<char>) -> Option<int>
    decreases packages.len(),
{
    if packages.len() == 0 {
        None
    } else if packages.last().id@ == id {
        Some(packages.len() - 1)
    } else {
        last_package(packages.drop_last(), id)
    }
}

/// Index of the last resolve node with the given id.
pub open spec fn last_node(nodes: Seq<MetaNode>, id: Seq<char>) -> Option<int>
    decreases nodes.len(),
{
    if nodes.len() == 0 {
        None
    } else if nodes.last().id@ == id {
        Some(nodes.len() - 1)
    } else {
        last_node(nodes.drop_last(), id)
    }
}

/// A normal or dev dependency.
pub open spec fn dep_relevant(d: MetaDep) -> bool {
    d.kinds@.contains(DepKind::Normal) || d.kinds@.contains(DepKind::Dev)
}

/// The normal and dev kinds of a dependency, in order.
pub open spec fn kinds_kept(kinds: Seq<DepKind>) -> Seq<DepKind>
    decreases kinds.len(),
{
    if kinds.len() == 0 {
        Seq::empty()
    } else if kinds.last() == DepKind::Normal || kinds.last() == DepKind::Dev {
        kinds_kept(kinds.drop_last()).push(kinds.last())
    } else {
        kinds_kept(kinds.drop_last())
    }
}

/// A relevant dependency on a known package that does not come from a
/// local path.
pub open spec fn is_external_dep(meta: WorkspaceMetadata, d: MetaDep) -> bool {
    &&& last_package(meta.packages@, d.pkg@) matches Some(k)
    &&& !meta.packages@[k].is_local
    &&& dep_relevant(d)
}

/// `x` is a direct external dependency of a workspace member.
pub open spec fn direct_external(meta: WorkspaceMetadata, nodes: Seq<MetaNode>, x: Seq<char>) -> bool {
    exists|i: int, j: int|
        0 <= i < nodes.len() && 0 <= j < nodes[i].deps.len() && is_member(meta, nodes[i].id@) && is_external_dep(
            meta,
            #[trigger] nodes[i].deps@[j],
        ) && nodes[i].deps@[j].pkg@ == x
}

/// `d` is an external dependency of the node of package `a`.
pub open spec fn ext_step(meta: WorkspaceMetadata, nodes: Seq<MetaNode>, a: Seq<char>, d: MetaDep) -> bool {
    &&& last_node(nodes, a) matches Some(k)
    &&& nodes[k].deps@.contains(d)
    &&& is_external_dep(meta, d)
}

/// Every external dependency of a package of `s` is in `s`.
pub open spec fn ext_closed(meta: WorkspaceMetadata, nodes: Seq<MetaNode>, s: Set<Seq<char>>) -> bool {
    forall|a: Seq<char>, d: MetaDep| s.contains(a) && #[trigger] ext_step(meta, nodes, a, d) ==> s.contains(d.pkg@)
}

/// `s` holds what the analysis collects: the direct external dependencies
/// of the members and, when `transitive`, everything external reachable
/// from them; and nothing else.
pub open spec fn is_external_set(meta: WorkspaceMetadata, nodes: Seq<MetaNode>, transitive: bool, s: Set<Seq<char>>) -> bool {
    &&& forall|x: Seq<char>| direct_external(meta, nodes, x) ==> s.contains(x)
    &&& transitive ==> ext_closed(meta, nodes, s)
    &&& forall|t: Set<Seq<char>>| #[trigger] ext_admissible(meta, nodes, transitive, t) ==> s.subset_of(t)
}

/// `t` holds the direct external dependencies and, when `transitive`, is
/// closed under external dependencies.
pub open spec fn ext_admissible(meta: WorkspaceMetadata, nodes: Seq<MetaNode>, transitive: bool, t: Set<Seq<char>>) -> bool {
    &&& forall|x: Seq<char>| direct_external(meta, nodes, x) ==> t.contains(x)
    &&& transitive ==> ext_closed(meta, nodes, t)
}

/// The normalized name of the package of a node, or `?`.
pub open spec fn node_crate_name(meta: WorkspaceMetadata, id: Seq<char>) -> Seq<char> {
    match last_package(meta.packages@, id) {
        Some(k) => hyphen_to_underscore(meta.packages@[k].name@),
        None => "?"@,
    }
}

/// Edges contributed by the first `j` dependencies of a node: workspace
/// edges from members, external edges between collected crates when
/// `transitive`.
pub open spec fn node_edges(
    meta: WorkspaceMetadata,
    s: Set<Seq<char>>,
    transitive: bool,
    node: MetaNode,
    j: int,
) -> (Seq<EdgeView>, Seq<EdgeView>)
    decreases j,
{
    if j <= 0 {
        (Seq::empty(), Seq::empty())
    } else {
        let prev = node_edges(meta, s, transitive, node, j - 1);
        let d = node.deps@[j - 1];
        let kept = kinds_kept(d.kinds@);
        if !s.contains(d.pkg@) || kept.len() == 0 {
            prev
        } else if is_member(meta, node.id@) {
            (prev.0.push((node_crate_name(meta, node.id@), d.pkg@, kept)), prev.1)
        } else if transitive && s.contains(node.id@) {
            (prev.0, prev.1.push((node.id@, d.pkg@, kept)))
        } else {
            prev
        }
    }
}

/// Edges of the first `i` nodes.
pub open spec fn all_edges(meta: WorkspaceMetadata, nodes: Seq<MetaNode>, s: Set<Seq<char>>, transitive: bool, i: int) -> (
    Seq<EdgeView>,
    Seq<EdgeView>,
)
    decreases i,
{
    if i <= 0 {
        (Seq::empty(), Seq::empty())
    } else {
        let prev = all_edges(meta, nodes, s, transitive, i - 1);
        let here = node_edges(meta, s, transitive, nodes[i - 1], nodes[i - 1].deps.len() as int);
        (prev.0 + here.0, prev.1 + here.1)
    }
}

/// The (crate, code name, package id) entries of the first `j` dependencies
/// of a member node.
pub open spec fn node_names(meta: WorkspaceMetadata, node: MetaNode, j: int) -> Seq<(Seq<char>, Seq<char>, Seq<char>)>
    decreases j,
{
    if j <= 0 {
        Seq::empty()
    } else {
        let prev = node_names(meta, node, j - 1);
        let d = node.deps@[j - 1];
        if is_external_dep(meta, d) {
            prev.push((node_crate_name(meta, node.id@), d.name@, d.pkg@))
        } else {
            prev
        }
    }
}

/// The name entries of the member nodes among the first `i` nodes.
pub open spec fn all_names(meta: WorkspaceMetadata, nodes: Seq<MetaNode>, i: int) -> Seq<(Seq<char>, Seq<char>, Seq<char>)>
    decreases i,
{
    if i <= 0 {
        Seq::empty()
    } else if is_member(meta, nodes[i - 1].id@) {
        all_names(meta, nodes, i - 1) + node_names(meta, nodes[i - 1], nodes[i - 1].deps.len() as int)
    } else {
        all_names(meta, nodes, i - 1)
    }
}

pub open spec fn edge_views_ws(v: Seq<WorkspaceExternalDep>) -> Seq<EdgeView> {
    v.map_values(|e: WorkspaceExternalDep| (e.workspace_crate@, e.external_pkg_id@, e.dep_kinds@))
}

pub open spec fn edge_views_ext(v: Seq<ExternalDep>) -> Seq<EdgeView> {
    v.map_values(|e: ExternalDep| (e.from_pkg_id@, e.to_pkg_id@, e.dep_kinds@))
}

pub open spec fn name_views(v: Seq<(String, String, String)>) -> Seq<(Seq<char>, Seq<char>, Seq<char>)> {
    v.map_values(|e: (String, String, String)| (e.0@, e.1@, e.2@))
}

proof fn lemma_last_package_take(packages: Seq<MetaPackage>, id: Seq<char>, k: int)
    requires
        0 <= k <= packages.len(),
        forall|q: int| k <= q < packages.len() ==> packages[q].id@ != id,
    ensures
        last_package(packages, id) == last_package(packages.take(k), id),
    decreases packages.len() - k,
{
    if k < packages.len() {
        lemma_last_package_take(packages, id, k + 1);
        assert(packages.take(k + 1).drop_last() =~= packages.take(k));
    } else {
        assert(packages.take(k) =~= packages);
    }
}

proof fn lemma_last_node_take(nodes: Seq<MetaNode>, id: Seq<char>, k: int)
    requires
        0 <= k <= nodes.len(),
        forall|q: int| k <= q < nodes.len() ==> nodes[q].id@ != id,
    ensures
        last_node(nodes, id) == last_node(nodes.take(k), id),
    decreases nodes.len() - k,
{
    if k < nodes.len() {
        lemma_last_node_take(nodes, id, k + 1);
        assert(nodes.take(k + 1).drop_last() =~= nodes.take(k));
    } else {
        assert(nodes.take(k) =~= nodes);
    }
}

proof fn lemma_last_node_range(nodes: Seq<MetaNode>, id: Seq<char>)
    ensures
        last_node(nodes, id) matches Some(k) ==> 0 <= k < nodes.len() && nodes[k].id@ == id,
    decreases nodes.len(),
{
    if nodes.len() > 0 {
        lemma_last_node_range(nodes.drop_last(), id);
    }
}

proof fn lemma_last_package_range(packages: Seq<MetaPackage>, id: Seq<char>)
    ensures
        last_package(packages, id) matches Some(k) ==> 0 <= k < packages.len() && packages[k].id@ == id,
    decreases packages.len(),
{
    if packages.len() > 0 {
        lemma_last_package_range(packages.drop_last(), id);
    }
}

/// The last package with id `id`.
fn find_package(packages: &Vec<MetaPackage>, id: &str) -> (r: Option<usize>)
    ensures
        match r {
            Some(k) => last_package(packages@, id@) == Some(k as int) && k < packages.len(),
            None => last_package(packages@, id@) is None,
        },
{
    let mut k: usize = packages.len();
    while k > 0
        invariant
            k <= packages.len(),
            forall|q: int| k <= q < packages.len() ==> packages@[q].id@ != id@,
        decreases k,
    {
        if str_eq(packages[k - 1].id.as_str(), id) {
            proof {
                lemma_last_package_take(packages@, id@, k as int);
            }
            return Some(k - 1);
        }
        k = k - 1;
    }
    proof {
        lemma_last_package_take(packages@, id@, 0);
    }
    None
}

/// The last resolve node with id `id`.
fn find_node(nodes: &Vec<MetaNode>, id: &str) -> (r: Option<usize>)
    ensures
        match r {
            Some(k) => last_node(nodes@, id@) == Some(k as int) && k < nodes.len(),
            None => last_node(nodes@, id@) is None,
        },
{
    let mut k: usize = nodes.len();
    while k > 0
        invariant
            k <= nodes.len(),
            forall|q: int| k <= q < nodes.len() ==> nodes@[q].id@ != id@,
        decreases k,
    {
        if str_eq(nodes[k - 1].id.as_str(), id) {
            proof {
                lemma_last_node_take(nodes@, id@, k as int);
            }
            return Some(k - 1);
        }
        k = k - 1;
    }
    proof {
        lemma_last_node_take(nodes@, id@, 0);
    }
    None
}

fn has_kind(kinds: &Vec<DepKind>, k: DepKind) -> (r: bool)
    ensures
        r == kinds@.contains(k),
{
    let mut i: usize = 0;
    while i < kinds.len()
        invariant
            0 <= i <= kinds.len(),
            forall|j: int| 0 <= j < i ==> kinds@[j] != k,
        decreases kinds.len() - i,
    {
        if kinds[i] == k {
            return true;
        }
        i = i + 1;
    }
    false
}

/// The normal and dev kinds, in order.
fn kept_kinds(kinds: &Vec<DepKind>) -> (r: Vec<DepKind>)
    ensures
        r@ == kinds_kept(kinds@),
{
    let mut r: Vec<DepKind> = Vec::new();
    let mut i: usize = 0;
    while i < kinds.len()
        invariant
            0 <= i <= kinds.len(),
            r@ == kinds_kept(kinds@.take(i as int)),
        decreases kinds.len() - i,
    {
        assert(kinds@.take(i + 1).drop_last() =~= kinds@.take(i as int));
        assert(kinds@.take(i + 1).last() == kinds@[i as int]);
        if kinds[i] == DepKind::Normal || kinds[i] == DepKind::Dev {
            r.push(kinds[i]);
        }
        i = i + 1;
    }
    assert(kinds@.take(kinds.len() as int) =~= kinds@);
    r
}

/// Whether a dependency is external: relevant, on a known package that does
/// not come from a local path.
fn is_external(meta: &WorkspaceMetadata, d: &MetaDep) -> (r: bool)
    ensures
        r == is_external_dep(*meta, *d),
{
    match find_package(&meta.packages, d.pkg.as_str()) {
        Some(k) => !meta.packages[k].is_local && (has_kind(&d.kinds, DepKind::Normal) || has_kind(&d.kinds, DepKind::Dev)),
        None => false,
    }
}

/// The normalized name of a node's package, or `?`.
fn crate_name_of(meta: &WorkspaceMetadata, id: &str) -> (r: String)
    ensures
        r@ == node_crate_name(*meta, id@),
{
    match find_package(&meta.packages, id) {
        Some(k) => normalize_crate_name(meta.packages[k].name.as_str()),
        None => crate::strings::copy_string("?"),
    }
}

fn has_id(ids: &Vec<String>, id: &str) -> (r: bool)
    ensures
        r == ids.deep_view().contains(id@),
{
    let mut i: usize = 0;
    while i < ids.len()
        invariant
            0 <= i <= ids.len(),
            forall|j: int| 0 <= j < i ==> ids@[j]@ != id@,
        decreases ids.len() - i,
    {
        if str_eq(ids[i].as_str(), id) {
            assert(ids.deep_view()[i as int] == id@);
            return true;
        }
        i = i + 1;
    }
    assert forall|j: int| 0 <= j < ids.len() implies ids.deep_view()[j] != id@ by {
        assert(ids.deep_view()[j] == ids@[j]@);
    }
    false
}

/// The package ids of all dependencies of the nodes, in order.
pub open spec fn dep_ids(nodes: Seq<MetaNode>) -> Seq<Seq<char>>
    decreases nodes.len(),
{
    if nodes.len() == 0 {
        Seq::empty()
    } else {
        dep_ids(nodes.drop_last()) + nodes.last().deps@.map_values(|d: MetaDep| d.pkg@)
    }
}

proof fn lemma_dep_ids_has(nodes: Seq<MetaNode>, i: int, j: int)
    requires
        0 <= i < nodes.len(),
        0 <= j < nodes[i].deps.len(),
    ensures
        dep_ids(nodes).contains(nodes[i].deps@[j].pkg@),
    decreases nodes.len(),
{
    let pre = dep_ids(nodes.drop_last());
    let last = nodes.last().deps@.map_values(|d: MetaDep| d.pkg@);
    if i == nodes.len() - 1 {
        assert((pre + last)[pre.len() + j] == nodes[i].deps@[j].pkg@);
    } else {
        lemma_dep_ids_has(nodes.drop_last(), i, j);
        let q = choose|q: int| 0 <= q < pre.len() && pre[q] == nodes[i].deps@[j].pkg@;
        assert((pre + last)[q] == pre[q]);
    }
}

proof fn lemma_unique_within(v: Seq<Seq<char>>, pool: Seq<Seq<char>>)
    requires
        v.no_duplicates(),
        forall|j: int| 0 <= j < v.len() ==> pool.contains(#[trigger] v[j]),
    ensures
        v.len() <= pool.len(),
{
    v.unique_seq_to_set();
    pool.lemma_cardinality_of_set();
    assert forall|x: Seq<char>| v.to_set().contains(x) implies pool.to_set().contains(x) by {
        let j = choose|j: int| 0 <= j < v.len() && v[j] == x;
    }
    vstd::set_lib::lemma_len_subset(v.to_set(), pool.to_set());
}

/// The crate of a collected package id: the name and version of the last
/// package with that id.
pub open spec fn info_matches(meta: WorkspaceMetadata, info: ExternalCrateInfo) -> bool {
    &&& last_package(meta.packages@, info.package_id@) matches Some(k)
    &&& info.name@ == meta.packages@[k].name@
    &&& info.version@ == meta.packages@[k].version@
}

/// The crate information of the package at index `k`, under id `id`.
fn info_of(meta: &WorkspaceMetadata, k: usize, id: &String) -> (r: ExternalCrateInfo)
    requires
        k < meta.packages.len(),
        last_package(meta.packages@, id@) == Some(k as int),
    ensures
        info_matches(*meta, r),
        r.package_id@ == id@,
{
    ExternalCrateInfo {
        name: meta.packages[k].name.clone(),
        version: meta.packages[k].version.clone(),
        package_id: id.clone(),
    }
}

/// The direct external dependencies of the members, each once, with their
/// crate information, and the names the members' code uses for them.
fn collect_direct(meta: &WorkspaceMetadata, nodes: &Vec<MetaNode>) -> (r: (Vec<String>, Vec<ExternalCrateInfo>, Vec<(String, String, String)>))
    ensures
        r.0.deep_view().no_duplicates(),
        forall|x: Seq<char>| r.0.deep_view().contains(x) <==> direct_external(*meta, nodes@, x),
        r.1.len() == r.0.len(),
        forall|k: int| 0 <= k < r.1.len() ==> (#[trigger] r.1@[k]).package_id@ == r.0@[k]@ && info_matches(*meta, r.1@[k]),
        name_views(r.2@) == all_names(*meta, nodes@, nodes.len() as int),
{
    let ghost ns = nodes@;
    let mut seen: Vec<String> = Vec::new();
    let mut infos: Vec<ExternalCrateInfo> = Vec::new();
    let mut names: Vec<(String, String, String)> = Vec::new();
    let mut i: usize = 0;
    while i < nodes.len()
        invariant
            ns == nodes@,
            0 <= i <= nodes.len(),
            seen.deep_view().no_duplicates(),
            forall|x: Seq<char>| seen.deep_view().contains(x) ==> direct_external(*meta, ns, x),
            forall|i2: int, j2: int|
                0 <= i2 < i && 0 <= j2 < ns[i2].deps.len() && is_member(*meta, ns[i2].id@) && is_external_dep(
                    *meta,
                    #[trigger] ns[i2].deps@[j2],
                ) ==> seen.deep_view().contains(ns[i2].deps@[j2].pkg@),
            infos.len() == seen.len(),
            forall|k: int| 0 <= k < infos.len() ==> (#[trigger] infos@[k]).package_id@ == seen@[k]@ && info_matches(*meta, infos@[k]),
            name_views(names@) == all_names(*meta, ns, i as int),
        decreases nodes.len() - i,
    {
        let node = &nodes[i];
        if has_id(&meta.workspace_members, node.id.as_str()) {
            let ws_name = crate_name_of(meta, node.id.as_str());
            let ghost names0 = name_views(names@);
            let mut j: usize = 0;
            while j < node.deps.len()
                invariant
                    ns == nodes@,
                    0 <= i < nodes.len(),
                    node == ns[i as int],
                    is_member(*meta, node.id@),
                    ws_name@ == node_crate_name(*meta, node.id@),
                    0 <= j <= node.deps.len(),
                    seen.deep_view().no_duplicates(),
                    forall|x: Seq<char>| seen.deep_view().contains(x) ==> direct_external(*meta, ns, x),
                    forall|i2: int, j2: int|
                        0 <= i2 < i && 0 <= j2 < ns[i2].deps.len() && is_member(*meta, ns[i2].id@) && is_external_dep(
                            *meta,
                            #[trigger] ns[i2].deps@[j2],
                        ) ==> seen.deep_view().contains(ns[i2].deps@[j2].pkg@),
                    forall|j2: int| 0 <= j2 < j && is_external_dep(*meta, #[trigger] node.deps@[j2]) ==> seen.deep_view().contains(node.deps@[j2].pkg@),
                    infos.len() == seen.len(),
                    forall|k: int| 0 <= k < infos.len() ==> (#[trigger] infos@[k]).package_id@ == seen@[k]@ && info_matches(*meta, infos@[k]),
                    names0 == all_names(*meta, ns, i as int),
                    name_views(names@) == names0 + node_names(*meta, *node, j as int),
                decreases node.deps.len() - j,
            {
                let d = &node.deps[j];
                if is_external(meta, d) {
                    proof {
                        assert(direct_external(*meta, ns, d.pkg@)) by {
                            assert(ns[i as int].deps@[j as int] == *d);
                        }
                    }
                    if !has_id(&seen, d.pkg.as_str()) {
                        let k = match find_package(&meta.packages, d.pkg.as_str()) {
                            Some(k) => k,
                            None => 0,
                        };
                        let info = info_of(meta, k, &d.pkg);
                        let ghost before = seen.deep_view();
                        seen.push(d.pkg.clone());
                        infos.push(info);
                        proof {
                            assert(seen.deep_view() =~= before.push(d.pkg@));
                            assert(seen.deep_view()[seen.len() - 1] == d.pkg@);
                            assert forall|x: Seq<char>| before.contains(x) implies seen.deep_view().contains(x) by {
                                let q = choose|q: int| 0 <= q < before.len() && before[q] == x;
                                assert(seen.deep_view()[q] == x);
                            }
                            assert forall|x: Seq<char>| seen.deep_view().contains(x) implies direct_external(*meta, ns, x) by {
                                if x != d.pkg@ {
                                    let q = choose|q: int| 0 <= q < seen.len() && seen.deep_view()[q] == x;
                                    assert(before[q] == x);
                                }
                            }
                            assert forall|q: int| 0 <= q < infos.len() implies (#[trigger] infos@[q]).package_id@ == seen@[q]@ && info_matches(*meta, infos@[q]) by {
                                if q < infos.len() - 1 {
                                    assert(seen@[q] == seen@.drop_last()[q]);
                                }
                            }
                        }
                    }
                    let ghost nv = name_views(names@);
                    names.push((ws_name.clone(), d.name.clone(), d.pkg.clone()));
                    proof {
                        assert(name_views(names@) =~= nv.push((node_crate_name(*meta, node.id@), d.name@, d.pkg@)));
                        assert(seen.deep_view().contains(d.pkg@));
                    }
                }
                proof {
                    assert forall|j2: int| 0 <= j2 < j + 1 && is_external_dep(*meta, #[trigger] node.deps@[j2]) implies seen.deep_view().contains(node.deps@[j2].pkg@) by {
                        if j2 == j {
                            assert(node.deps@[j2] == *d);
                        }
                    }
                }
                j = j + 1;
            }
            proof {
                assert(all_names(*meta, ns, i + 1) == names0 + node_names(*meta, *node, node.deps.len() as int));
            }
        }
        i = i + 1;
    }
    (seen, infos, names)
}

/// Adds every external crate reachable from the collected ones.
fn extend_transitive(meta: &WorkspaceMetadata, nodes: &Vec<MetaNode>, seen: &mut Vec<String>, infos: &mut Vec<ExternalCrateInfo>)
    requires
        old(seen).deep_view().no_duplicates(),
        forall|x: Seq<char>| old(seen).deep_view().contains(x) <==> direct_external(*meta, nodes@, x),
        old(infos).len() == old(seen).len(),
        forall|k: int| 0 <= k < old(infos).len() ==> (#[trigger] old(infos)@[k]).package_id@ == old(seen)@[k]@ && info_matches(*meta, old(infos)@[k]),
    ensures
        final(seen).deep_view().no_duplicates(),
        is_external_set(*meta, nodes@, true, final(seen).deep_view().to_set()),
        final(infos).len() == final(seen).len(),
        forall|k: int| 0 <= k < final(infos).len() ==> (#[trigger] final(infos)@[k]).package_id@ == final(seen)@[k]@ && info_matches(*meta, final(infos)@[k]),
{
    let ghost ns = nodes@;
    let ghost pool = dep_ids(ns);
    proof {
        assert forall|q: int| 0 <= q < seen.len() implies pool.contains(#[trigger] seen.deep_view()[q]) by {
            assert(seen.deep_view().contains(seen.deep_view()[q]));
            assert(direct_external(*meta, ns, seen.deep_view()[q]));
            let (i, j) = choose|i: int, j: int|
                0 <= i < ns.len() && 0 <= j < ns[i].deps.len() && is_member(*meta, ns[i].id@) && is_external_dep(*meta, #[trigger] ns[i].deps@[j])
                    && ns[i].deps@[j].pkg@ == seen.deep_view()[q];
            lemma_dep_ids_has(ns, i, j);
        }
        lemma_unique_within(seen.deep_view(), pool);
        assert forall|t: Set<Seq<char>>| #[trigger] ext_admissible(*meta, ns, true, t) implies seen.deep_view().to_set().subset_of(t) by {
            assert forall|x: Seq<char>| seen.deep_view().to_set().contains(x) implies t.contains(x) by {
                assert(seen.deep_view().contains(x));
            }
        }
    }
    let mut head: usize = 0;
    while head < seen.len()
        invariant
            ns == nodes@,
            pool == dep_ids(ns),
            0 <= head <= seen.len(),
            seen.len() <= pool.len(),
            seen.deep_view().no_duplicates(),
            forall|x: Seq<char>| direct_external(*meta, ns, x) ==> seen.deep_view().contains(x),
            forall|q: int| 0 <= q < seen.len() ==> pool.contains(#[trigger] seen.deep_view()[q]),
            forall|t: Set<Seq<char>>| #[trigger] ext_admissible(*meta, ns, true, t) ==> seen.deep_view().to_set().subset_of(t),
            forall|q: int, d: MetaDep| 0 <= q < head && #[trigger] ext_step(*meta, ns, seen.deep_view()[q], d) ==> seen.deep_view().contains(d.pkg@),
            infos.len() == seen.len(),
            forall|k: int| 0 <= k < infos.len() ==> (#[trigger] infos@[k]).package_id@ == seen@[k]@ && info_matches(*meta, infos@[k]),
        decreases pool.len() - seen.len(), seen.len() - head,
    {
        let id = seen[head].clone();
        let ghost len0 = seen.len();
        assert(id@ == seen.deep_view()[head as int]);
        proof {
            lemma_last_node_range(ns, id@);
        }
        match find_node(nodes, id.as_str()) {
            Some(k) => {
                let deps = &nodes[k].deps;
                let mut j: usize = 0;
                while j < deps.len()
                    invariant
                        ns == nodes@,
                        pool == dep_ids(ns),
                        k < ns.len(),
                        deps == ns[k as int].deps,
                        last_node(ns, id@) == Some(k as int),
                        head < len0 <= seen.len(),
                        id@ == seen.deep_view()[head as int],
                        seen.len() <= pool.len(),
                        0 <= j <= deps.len(),
                        seen.deep_view().no_duplicates(),
                        forall|x: Seq<char>| direct_external(*meta, ns, x) ==> seen.deep_view().contains(x),
                        forall|q: int| 0 <= q < seen.len() ==> pool.contains(#[trigger] seen.deep_view()[q]),
                        forall|t: Set<Seq<char>>| #[trigger] ext_admissible(*meta, ns, true, t) ==> seen.deep_view().to_set().subset_of(t),
                        forall|q: int, d: MetaDep| 0 <= q < head && #[trigger] ext_step(*meta, ns, seen.deep_view()[q], d) ==> seen.deep_view().contains(d.pkg@),
                        forall|j2: int| 0 <= j2 < j && is_external_dep(*meta, #[trigger] deps@[j2]) ==> seen.deep_view().contains(deps@[j2].pkg@),
                        infos.len() == seen.len(),
                        forall|q: int| 0 <= q < infos.len() ==> (#[trigger] infos@[q]).package_id@ == seen@[q]@ && info_matches(*meta, infos@[q]),
                    decreases deps.len() - j,
                {
                    let d = &deps[j];
                    if is_external(meta, d) && !has_id(&seen, d.pkg.as_str()) {
                        let kp = match find_package(&meta.packages, d.pkg.as_str()) {
                            Some(kp) => kp,
                            None => 0,
                        };
                        let info = info_of(meta, kp, &d.pkg);
                        let ghost before = seen.deep_view();
                        seen.push(d.pkg.clone());
                        infos.push(info);
                        proof {
                            assert(seen.deep_view() =~= before.push(d.pkg@));
                            assert(seen.deep_view()[seen.len() - 1] == d.pkg@);
                            assert forall|x: Seq<char>| before.contains(x) implies seen.deep_view().contains(x) by {
                                let q = choose|q: int| 0 <= q < before.len() && before[q] == x;
                                assert(seen.deep_view()[q] == x);
                            }
                            assert(ns[k as int].deps@[j as int] == *d);
                            lemma_dep_ids_has(ns, k as int, j as int);
                            assert forall|q: int| 0 <= q < seen.len() implies pool.contains(#[trigger] seen.deep_view()[q]) by {
                                if q < before.len() {
                                    assert(seen.deep_view()[q] == before[q]);
                                }
                            }
                            lemma_unique_within(seen.deep_view(), pool);
                            assert forall|t: Set<Seq<char>>| #[trigger] ext_admissible(*meta, ns, true, t) implies seen.deep_view().to_set().subset_of(t) by {
                                assert(before.to_set().subset_of(t));
                                assert(before.to_set().contains(id@));
                                assert(ns[k as int].deps@.contains(*d));
                                assert(ext_step(*meta, ns, id@, *d));
                                assert(t.contains(d.pkg@));
                                assert forall|x: Seq<char>| seen.deep_view().to_set().contains(x) implies t.contains(x) by {
                                    if x != d.pkg@ {
                                        let q = choose|q: int| 0 <= q < seen.len() && seen.deep_view()[q] == x;
                                        assert(before[q] == x);
                                        assert(before.to_set().contains(x));
                                    }
                                }
                            }
                            assert forall|q: int, e: MetaDep| 0 <= q < head && #[trigger] ext_step(*meta, ns, seen.deep_view()[q], e) implies seen.deep_view().contains(e.pkg@) by {
                                assert(seen.deep_view()[q] == before[q]);
                            }
                            assert forall|q: int| 0 <= q < infos.len() implies (#[trigger] infos@[q]).package_id@ == seen@[q]@ && info_matches(*meta, infos@[q]) by {
                                if q < infos.len() - 1 {
                                    assert(seen@[q] == seen@.drop_last()[q]);
                                }
                            }
                        }
                    }
                    proof {
                        assert forall|j2: int| 0 <= j2 < j + 1 && is_external_dep(*meta, #[trigger] deps@[j2]) implies seen.deep_view().contains(deps@[j2].pkg@) by {
                            if j2 == j {
                                assert(deps@[j2] == *d);
                            }
                        }
                    }
                    j = j + 1;
                }
                proof {
                    assert forall|q: int, d: MetaDep| 0 <= q < head + 1 && #[trigger] ext_step(*meta, ns, seen.deep_view()[q], d) implies seen.deep_view().contains(d.pkg@) by {
                        if q == head {
                            assert(ns[k as int].deps@.contains(d));
                            let j2 = choose|j2: int| 0 <= j2 < deps.len() && deps@[j2] == d;
                            assert(is_external_dep(*meta, deps@[j2]));
                        }
                    }
                }
            },
            None => {
                proof {
                    assert forall|q: int, d: MetaDep| 0 <= q < head + 1 && #[trigger] ext_step(*meta, ns, seen.deep_view()[q], d) implies seen.deep_view().contains(d.pkg@) by {
                        if q == head {
                            assert(last_node(ns, id@) is None);
                        }
                    }
                }
            },
        }
        head = head + 1;
    }
    proof {
        let sset = seen.deep_view().to_set();
        assert forall|x: Seq<char>| direct_external(*meta, ns, x) implies sset.contains(x) by {
            assert(seen.deep_view().contains(x));
        }
        assert forall|a: Seq<char>, d: MetaDep| sset.contains(a) && #[trigger] ext_step(*meta, ns, a, d) implies sset.contains(d.pkg@) by {
            let q = choose|q: int| 0 <= q < seen.len() && seen.deep_view()[q] == a;
            assert(seen.deep_view().contains(d.pkg@));
        }
    }
}

/// The workspace and external edges to the collected crates.
fn collect_edges(meta: &WorkspaceMetadata, nodes: &Vec<MetaNode>, seen: &Vec<String>, transitive: bool) -> (r: (
    Vec<WorkspaceExternalDep>,
    Vec<ExternalDep>,
))
    ensures
        edge_views_ws(r.0@) == all_edges(*meta, nodes@, seen.deep_view().to_set(), transitive, nodes.len() as int).0,
        edge_views_ext(r.1@) == all_edges(*meta, nodes@, seen.deep_view().to_set(), transitive, nodes.len() as int).1,
{
    let ghost ns = nodes@;
    let ghost sset = seen.deep_view().to_set();
    let mut ws_deps: Vec<WorkspaceExternalDep> = Vec::new();
    let mut ext_deps: Vec<ExternalDep> = Vec::new();
    let mut i: usize = 0;
    while i < nodes.len()
        invariant
            ns == nodes@,
            sset == seen.deep_view().to_set(),
            0 <= i <= nodes.len(),
            edge_views_ws(ws_deps@) == all_edges(*meta, ns, sset, transitive, i as int).0,
            edge_views_ext(ext_deps@) == all_edges(*meta, ns, sset, transitive, i as int).1,
        decreases nodes.len() - i,
    {
        let node = &nodes[i];
        let member = has_id(&meta.workspace_members, node.id.as_str());
        let node_seen = has_id(seen, node.id.as_str());
        let ws_name = crate_name_of(meta, node.id.as_str());
        let ghost w0 = edge_views_ws(ws_deps@);
        let ghost e0 = edge_views_ext(ext_deps@);
        let mut j: usize = 0;
        while j < node.deps.len()
            invariant
                ns == nodes@,
                sset == seen.deep_view().to_set(),
                0 <= i < nodes.len(),
                node == ns[i as int],
                member == is_member(*meta, node.id@),
                node_seen == sset.contains(node.id@),
                ws_name@ == node_crate_name(*meta, node.id@),
                0 <= j <= node.deps.len(),
                w0 == all_edges(*meta, ns, sset, transitive, i as int).0,
                e0 == all_edges(*meta, ns, sset, transitive, i as int).1,
                edge_views_ws(ws_deps@) == w0 + node_edges(*meta, sset, transitive, *node, j as int).0,
                edge_views_ext(ext_deps@) == e0 + node_edges(*meta, sset, transitive, *node, j as int).1,
            decreases node.deps.len() - j,
        {
            let d = &node.deps[j];
            if has_id(seen, d.pkg.as_str()) {
                let kept = kept_kinds(&d.kinds);
                if kept.len() > 0 {
                    if member {
                        let ghost wv = edge_views_ws(ws_deps@);
                        ws_deps.push(WorkspaceExternalDep { workspace_crate: ws_name.clone(), external_pkg_id: d.pkg.clone(), dep_kinds: kept });
                        assert(edge_views_ws(ws_deps@) =~= wv.push((node_crate_name(*meta, node.id@), d.pkg@, kinds_kept(d.kinds@))));
                    } else if transitive && node_seen {
                        let ghost ev = edge_views_ext(ext_deps@);
                        ext_deps.push(ExternalDep { from_pkg_id: node.id.clone(), to_pkg_id: d.pkg.clone(), dep_kinds: kept });
                        assert(edge_views_ext(ext_deps@) =~= ev.push((node.id@, d.pkg@, kinds_kept(d.kinds@))));
                    }
                }
            }
            j = j + 1;
        }
        i = i + 1;
    }
    (ws_deps, ext_deps)
}

/// Analyzes the external crates the workspace depends on: those its
/// members use directly (normal or dev dependencies on packages that do not
/// come from a local path) and, when `transitive`, all external crates
/// reachable from them; the edges among them; and, per member, the name its
/// code uses for each. Without a resolve section nothing is found.
pub fn analyze_externals(metadata: &WorkspaceMetadata, transitive: bool) -> (r: ExternalsResult)
    ensures
        metadata.resolve is None ==> r.crates.len() == 0 && r.external_deps.len() == 0 && r.workspace_deps.len() == 0
            && r.crate_name_map.len() == 0,
        metadata.resolve is Some ==> exists|s: Set<Seq<char>>|
            #[trigger] is_external_set(*metadata, metadata.resolve->0@, transitive, s) && externals_found(
                *metadata,
                metadata.resolve->0@,
                transitive,
                s,
                r,
            ),
{
    let nodes = match &metadata.resolve {
        Some(nodes) => nodes,
        None => {
            return ExternalsResult {
                crates: Vec::new(),
                external_deps: Vec::new(),
                workspace_deps: Vec::new(),
                crate_name_map: Vec::new(),
            };
        },
    };
    let (mut seen, mut infos, names) = collect_direct(metadata, nodes);
    if transitive {
        extend_transitive(metadata, nodes, &mut seen, &mut infos);
    } else {
        proof {
            let sset = seen.deep_view().to_set();
            assert forall|t: Set<Seq<char>>| #[trigger] ext_admissible(*metadata, nodes@, false, t) implies sset.subset_of(t) by {
                assert forall|x: Seq<char>| sset.contains(x) implies t.contains(x) by {
                    assert(seen.deep_view().contains(x));
                }
            }
            assert forall|x: Seq<char>| direct_external(*metadata, nodes@, x) implies sset.contains(x) by {
                assert(seen.deep_view().contains(x));
            }
        }
    }
    let (workspace_deps, external_deps) = collect_edges(metadata, nodes, &seen, transitive);
    proof {
        let ids = infos@.map_values(|c: ExternalCrateInfo| c.package_id@);
        assert(ids =~= seen.deep_view());
    }
    let r = ExternalsResult { crates: infos, external_deps, workspace_deps, crate_name_map: names };
    assert(externals_found(*metadata, nodes@, transitive, seen.deep_view().to_set(), r));
    assert(is_external_set(*metadata, nodes@, transitive, seen.deep_view().to_set()));
    r
}

/// `r` reports the collected set `s`: each crate of `s` once with its name
/// and version, the edges and the code names.
pub open spec fn externals_found(meta: WorkspaceMetadata, nodes: Seq<MetaNode>, transitive: bool, s: Set<Seq<char>>, r: ExternalsResult) -> bool {
    &&& r.crates@.map_values(|c: ExternalCrateInfo| c.package_id@).no_duplicates()
    &&& r.crates@.map_values(|c: ExternalCrateInfo| c.package_id@).to_set() == s
    &&& forall|k: int| 0 <= k < r.crates.len() ==> info_matches(meta, #[trigger] r.crates@[k])
    &&& edge_views_ws(r.workspace_deps@) == all_edges(meta, nodes, s, transitive, nodes.len() as int).0
    &&& edge_views_ext(r.external_deps@) == all_edges(meta, nodes, s, transitive, nodes.len() as int).1
    &&& name_views(r.crate_name_map@) == all_names(meta, nodes, nodes.len() as int)
}

} // verus!
