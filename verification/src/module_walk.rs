//! The rules of the module walk: which `mod` items lead to files, where a
//! file's child modules live, module paths, what a crate exports, and how
//! the dependencies of a module and the trees of several roots are merged.

use vstd::prelude::*;
use crate::model::{
    DependencyRef, DependencyRefView, EdgeContext, EdgeContextView, ModuleInfo, dep_full_target, dep_views, merge_all,
};
use crate::strings::{chars_have_prefix, copy_string, has_prefix, path_concat, push_str, str_chars, str_eq, string_from_chars};
use crate::use_parser::{
    ResolutionContext, UseItem, UseTree, parse_path_ref_dependencies, parse_workspace_dependencies, path_ref_resolutions,
    use_item_resolutions,
};

verus! {

/// A `mod` item of a parsed file.
#[derive(Debug, Clone)]
pub struct ModItem {
    pub name: String,
    /// `mod name { ... }` rather than `mod name;`
    pub inline: bool,
    /// Carries `#[cfg(test)]`.
    pub cfg_test: bool,
    /// The value of a `#[path = "..."]` attribute.
    pub path_attr: Option<String>,
}

/// A `mod name;` declaration that names another file.
#[derive(Debug, Clone)]
pub struct ModDecl {
    pub name: String,
    pub explicit_path: Option<String>,
}

/// Whether a `mod` item names a file that the walk visits.
pub open spec fn walks_into(m: ModItem, include_tests: bool) -> bool {
    !m.inline && (include_tests || !m.cfg_test)
}

/// The declarations of the first `k` items that the walk visits.
pub open spec fn mod_decls(items: Seq<ModItem>, include_tests: bool, k: int) -> Seq<(Seq<char>, Option<Seq<char>>)>
    decreases k,
{
    if k <= 0 {
        Seq::empty()
    } else if walks_into(items[k - 1], include_tests) {
        mod_decls(items, include_tests, k - 1).push((items[k - 1].name@, crate::model::opt_view(items[k - 1].path_attr)))
    } else {
        mod_decls(items, include_tests, k - 1)
    }
}

pub open spec fn decl_views(v: Seq<ModDecl>) -> Seq<(Seq<char>, Option<Seq<char>>)> {
    v.map_values(|d: ModDecl| (d.name@, crate::model::opt_view(d.explicit_path)))
}

/// The external `mod` declarations among the items: inline modules are
/// left out, and `#[cfg(test)]` modules unless tests are included.
pub fn extract_mod_declarations(items: &Vec<ModItem>, include_tests: bool) -> (r: Vec<ModDecl>)
    ensures
        decl_views(r@) == mod_decls(items@, include_tests, items.len() as int),
{
    let mut r: Vec<ModDecl> = Vec::new();
    let mut i: usize = 0;
    while i < items.len()
        invariant
            0 <= i <= items.len(),
            decl_views(r@) == mod_decls(items@, include_tests, i as int),
        decreases items.len() - i,
    {
        let m = &items[i];
        if !m.inline && (include_tests || !m.cfg_test) {
            let ghost before = decl_views(r@);
            let d = ModDecl { name: m.name.clone(), explicit_path: crate::model::clone_opt_string(&m.path_attr) };
            r.push(d);
            assert(decl_views(r@) =~= before.push((m.name@, crate::model::opt_view(m.path_attr))));
        }
        i = i + 1;
    }
    r
}

/// The full path of a module: the crate root's own name, or the parent's
/// path and the module's name.
pub open spec fn full_module_path(parent_path: Seq<char>, module_name: Seq<char>) -> Seq<char> {
    if parent_path == module_name {
        module_name
    } else {
        path_concat(parent_path, module_name)
    }
}

/// The full path of module `module_name` under `parent_path`; a root
/// module is passed its own name as parent.
pub fn module_full_path(parent_path: &str, module_name: &str) -> (r: String)
    ensures
        r@ == full_module_path(parent_path@, module_name@),
{
    if str_eq(parent_path, module_name) {
        copy_string(module_name)
    } else {
        let mut out = str_chars(parent_path);
        push_str(&mut out, "::");
        push_str(&mut out, module_name);
        proof {
            reveal_strlit("::");
        }
        assert(out@ =~= path_concat(parent_path@, module_name@));
        string_from_chars(out.as_slice())
    }
}

/// The full path of the child `name` under `parent` (`name` itself at the
/// root, where `parent` is empty).
pub fn child_module_path(parent: &str, name: &str) -> (r: String)
    ensures
        r@ == (if parent@.len() == 0 {
            name@
        } else {
            path_concat(parent@, name@)
        }),
{
    if parent.unicode_len() == 0 {
        copy_string(name)
    } else {
        let mut out = str_chars(parent);
        push_str(&mut out, "::");
        push_str(&mut out, name);
        proof {
            reveal_strlit("::");
        }
        assert(out@ =~= path_concat(parent@, name@));
        string_from_chars(out.as_slice())
    }
}

// ---------------------------------------------------------------------------
// Exports
// ---------------------------------------------------------------------------

/// An item at the top of a crate's root file, as far as exports go.
#[derive(Debug)]
pub enum ExportItem {
    /// A function, struct, enum, trait, constant, static or type alias.
    Named { public: bool, name: String },
    /// A `use` item.
    Use { public: bool, tree: UseTree },
    /// Anything else (modules included).
    Other,
}

/// The names a `use` tree brings into scope: the last segment of each path,
/// the new name of a rename; globs bring none.
pub open spec fn use_tree_names(t: UseTree) -> Seq<Seq<char>>
    decreases t,
{
    match t {
        UseTree::Path(_, sub) => use_tree_names(*sub),
        UseTree::Name(n) => seq![n@],
        UseTree::Rename(_, alias) => seq![alias@],
        UseTree::Glob => Seq::empty(),
        UseTree::Group(items) => use_group_names(items@),
    }
}

pub open spec fn use_group_names(items: Seq<UseTree>) -> Seq<Seq<char>>
    decreases items,
{
    if items.len() == 0 {
        Seq::empty()
    } else {
        use_group_names(items.drop_last()) + use_tree_names(items.last())
    }
}

/// Appends the names a `use` tree brings into scope.
pub fn collect_use_tree_names(tree: &UseTree, names: &mut Vec<String>)
    ensures
        final(names).deep_view() == old(names).deep_view() + use_tree_names(*tree),
    decreases tree, 1int,
{
    match tree {
        UseTree::Path(_, sub) => {
            collect_use_tree_names(sub, names);
        },
        UseTree::Name(n) => {
            let ghost before = names.deep_view();
            names.push(n.clone());
            assert(names.deep_view() =~= before + seq![n@]);
        },
        UseTree::Rename(_, alias) => {
            let ghost before = names.deep_view();
            names.push(alias.clone());
            assert(names.deep_view() =~= before + seq![alias@]);
        },
        UseTree::Glob => {
            assert(names.deep_view() =~= names.deep_view() + Seq::<Seq<char>>::empty());
        },
        UseTree::Group(items) => {
            collect_use_group_names(items, names);
        },
    }
}

fn collect_use_group_names(items: &Vec<UseTree>, names: &mut Vec<String>)
    ensures
        final(names).deep_view() == old(names).deep_view() + use_group_names(items@),
    decreases items, 0int,
{
    let ghost start = names.deep_view();
    let mut i: usize = 0;
    assert(items@.take(0) =~= Seq::<UseTree>::empty());
    while i < items.len()
        invariant
            0 <= i <= items.len(),
            names.deep_view() == start + use_group_names(items@.take(i as int)),
        decreases items.len() - i,
    {
        assert(items@.take(i + 1).drop_last() =~= items@.take(i as int));
        assert(items@.take(i + 1).last() == items@[i as int]);
        let ghost before = names.deep_view();
        collect_use_tree_names(&items[i], names);
        assert(names.deep_view() =~= start + use_group_names(items@.take(i + 1)));
        i = i + 1;
    }
    assert(items@.take(items.len() as int) =~= items@);
}

/// The names the first `k` items export.
pub open spec fn exported_names(items: Seq<ExportItem>, k: int) -> Seq<Seq<char>>
    decreases k,
{
    if k <= 0 {
        Seq::empty()
    } else {
        let prev = exported_names(items, k - 1);
        match items[k - 1] {
            ExportItem::Named { public, name } => if public {
                prev.push(name@)
            } else {
                prev
            },
            ExportItem::Use { public, tree } => if public {
                prev + use_tree_names(tree)
            } else {
                prev
            },
            ExportItem::Other => prev,
        }
    }
}

/// The public names of a crate's root items: `pub` functions, types,
/// traits, constants and statics, and what `pub use` brings in (not through
/// globs). Modules do not count.
pub fn collect_crate_exports(items: &Vec<ExportItem>) -> (r: Vec<String>)
    ensures
        r.deep_view() == exported_names(items@, items.len() as int),
{
    let mut r: Vec<String> = Vec::new();
    let mut i: usize = 0;
    while i < items.len()
        invariant
            0 <= i <= items.len(),
            r.deep_view() == exported_names(items@, i as int),
        decreases items.len() - i,
    {
        match &items[i] {
            ExportItem::Named { public, name } => {
                if *public {
                    let ghost before = r.deep_view();
                    r.push(name.clone());
                    assert(r.deep_view() =~= before.push(name@));
                }
            },
            ExportItem::Use { public, tree } => {
                if *public {
                    collect_use_tree_names(tree, &mut r);
                }
            },
            ExportItem::Other => {},
        }
        i = i + 1;
    }
    r
}

// ---------------------------------------------------------------------------
// Merging
// ---------------------------------------------------------------------------

/// Whether two edge contexts are equal.
fn context_eq(a: &crate::model::EdgeContext, b: &crate::model::EdgeContext) -> (r: bool)
    ensures
        r == (a@ == b@),
{
    if a.kind != b.kind || a.features.len() != b.features.len() {
        proof {
            if a.kind == b.kind {
                assert(a@.features.len() == a.features.len());
                assert(b@.features.len() == b.features.len());
            }
        }
        return false;
    }
    let mut i: usize = 0;
    while i < a.features.len()
        invariant
            a.features.len() == b.features.len(),
            0 <= i <= a.features.len(),
            forall|j: int| 0 <= j < i ==> a.features@[j]@ == b.features@[j]@,
        decreases a.features.len() - i,
    {
        if !str_eq(a.features[i].as_str(), b.features[i].as_str()) {
            assert(a@.features[i as int] != b@.features[i as int]);
            return false;
        }
        i = i + 1;
    }
    assert(a@.features =~= b@.features);
    true
}

fn opt_str_eq(a: &Option<String>, b: &Option<String>) -> (r: bool)
    ensures
        r == (crate::model::opt_view(*a) == crate::model::opt_view(*b)),
{
    match (a, b) {
        (Some(x), Some(y)) => str_eq(x.as_str(), y.as_str()),
        (None, None) => true,
        _ => false,
    }
}

/// Whether two dependencies are equal in every field.
fn dep_eq(a: &DependencyRef, b: &DependencyRef) -> (r: bool)
    ensures
        r == (a@ == b@),
{
    str_eq(a.target_crate.as_str(), b.target_crate.as_str()) && str_eq(a.target_module.as_str(), b.target_module.as_str())
        && opt_str_eq(&a.target_item, &b.target_item) && str_eq(a.source_file.as_str(), b.source_file.as_str())
        && a.line == b.line && context_eq(&a.context, &b.context)
}

/// The key by which a module's dependencies are told apart: full target and
/// context.
pub open spec fn walk_key(d: DependencyRefView) -> (Seq<char>, EdgeContextView) {
    (dep_full_target(d), d.context)
}

pub open spec fn has_walk_key(s: Seq<DependencyRefView>, k: (Seq<char>, EdgeContextView)) -> bool {
    exists|i: int| 0 <= i < s.len() && walk_key(#[trigger] s[i]) == k
}

/// `acc` followed by each dependency of `s` whose key is new.
pub open spec fn merge_by_key(acc: Seq<DependencyRefView>, s: Seq<DependencyRefView>) -> Seq<DependencyRefView>
    decreases s.len(),
{
    if s.len() == 0 {
        acc
    } else {
        let a = merge_by_key(acc, s.drop_last());
        if has_walk_key(a, walk_key(s.last())) {
            a
        } else {
            a.push(s.last())
        }
    }
}

/// The dependencies of a module: those of its `use` items, then those of
/// its path references whose full target and context are new.
pub fn merge_module_dependencies(use_deps: Vec<DependencyRef>, path_deps: &Vec<DependencyRef>) -> (r: Vec<DependencyRef>)
    ensures
        dep_views(r@) == merge_by_key(dep_views(use_deps@), dep_views(path_deps@)),
{
    let ghost uv = dep_views(use_deps@);
    let ghost pv = dep_views(path_deps@);
    let mut r = use_deps;
    let mut i: usize = 0;
    assert(pv.take(0) =~= Seq::<DependencyRefView>::empty());
    while i < path_deps.len()
        invariant
            uv == dep_views(use_deps@),
            pv == dep_views(path_deps@),
            0 <= i <= path_deps.len(),
            dep_views(r@) == merge_by_key(uv, pv.take(i as int)),
        decreases path_deps.len() - i,
    {
        let p = &path_deps[i];
        let target = p.full_target();
        assert(pv.take(i + 1).drop_last() =~= pv.take(i as int));
        assert(pv.take(i + 1).last() == p@);
        let mut found = false;
        let mut j: usize = 0;
        while j < r.len()
            invariant
                0 <= j <= r.len(),
                target@ == dep_full_target(p@),
                found == exists|q: int| 0 <= q < j && walk_key(#[trigger] dep_views(r@)[q]) == walk_key(p@),
            decreases r.len() - j,
        {
            let t2 = r[j].full_target();
            assert(dep_views(r@)[j as int] == r@[j as int]@);
            if str_eq(t2.as_str(), target.as_str()) && context_eq(&r[j].context, &p.context) {
                found = true;
            }
            j = j + 1;
        }
        if !found {
            let ghost before = dep_views(r@);
            r.push(p.clone());
            assert(dep_views(r@) =~= before.push(p@));
        }
        i = i + 1;
    }
    assert(pv.take(path_deps.len() as int) =~= pv);
    r
}

/// Whether some module of `s` is called `name`.
pub open spec fn has_child_named(s: Seq<ModuleInfo>, name: Seq<char>) -> bool {
    exists|i: int| 0 <= i < s.len() && (#[trigger] s[i]).name@ == name
}

/// `acc` followed by each module of `s` whose name is new.
pub open spec fn merge_children(acc: Seq<ModuleInfo>, s: Seq<ModuleInfo>) -> Seq<ModuleInfo>
    decreases s.len(),
{
    if s.len() == 0 {
        acc
    } else {
        let a = merge_children(acc, s.drop_last());
        if has_child_named(a, s.last().name@) {
            a
        } else {
            a.push(s.last())
        }
    }
}

/// `acc` followed by each dependency of `s` not already present.
pub open spec fn merge_new_deps(acc: Seq<DependencyRefView>, s: Seq<DependencyRefView>) -> Seq<DependencyRefView>
    decreases s.len(),
{
    if s.len() == 0 {
        acc
    } else {
        let a = merge_new_deps(acc, s.drop_last());
        if a.contains(s.last()) {
            a
        } else {
            a.push(s.last())
        }
    }
}

/// Merges the module tree of a further root file (such as `main.rs` beside
/// `lib.rs`) into the first: children with new names and dependencies not
/// yet present are added.
pub fn merge_root_module(existing: &mut ModuleInfo, tree: ModuleInfo)
    ensures
        final(existing).name == old(existing).name,
        final(existing).full_path == old(existing).full_path,
        final(existing).children@ == merge_children(old(existing).children@, tree.children@),
        dep_views(final(existing).dependencies@) == merge_new_deps(dep_views(old(existing).dependencies@), dep_views(tree.dependencies@)),
{
    let ghost tc = tree.children@;
    let ghost start = existing.children@;
    let ghost name0 = existing.name;
    let ghost path0 = existing.full_path;
    let ModuleInfo { name: _, full_path: _, children: mut kids, dependencies: deps } = tree;
    let mut k: usize = 0;
    let n = kids.len();
    assert(tc.take(0) =~= Seq::<ModuleInfo>::empty());
    assert(kids@ =~= tc.skip(0));
    while kids.len() > 0
        invariant
            n == tc.len(),
            k + kids.len() == n,
            kids@ == tc.skip(k as int),
            existing.children@ == merge_children(start, tc.take(k as int)),
            existing.name == name0,
            existing.full_path == path0,
            dep_views(existing.dependencies@) == dep_views(old(existing).dependencies@),
        decreases kids.len(),
    {
        let child = kids.remove(0);
        assert(child == tc[k as int]);
        assert(tc.take(k + 1).drop_last() =~= tc.take(k as int));
        assert(tc.take(k + 1).last() == tc[k as int]);
        assert(kids@ =~= tc.skip(k + 1));
        let mut present = false;
        let mut j: usize = 0;
        while j < existing.children.len()
            invariant
                0 <= j <= existing.children.len(),
                present == exists|q: int| 0 <= q < j && (#[trigger] existing.children@[q]).name@ == child.name@,
            decreases existing.children.len() - j,
        {
            if str_eq(existing.children[j].name.as_str(), child.name.as_str()) {
                present = true;
            }
            j = j + 1;
        }
        if !present {
            existing.children.push(child);
        }
        k = k + 1;
    }
    assert(tc.take(n as int) =~= tc);
    let ghost dv = dep_views(deps@);
    let ghost dstart = dep_views(existing.dependencies@);
    let mut i: usize = 0;
    assert(dv.take(0) =~= Seq::<DependencyRefView>::empty());
    while i < deps.len()
        invariant
            dv == dep_views(deps@),
            existing.children@ == merge_children(start, tc),
            existing.name == name0,
            existing.full_path == path0,
            0 <= i <= deps.len(),
            dep_views(existing.dependencies@) == merge_new_deps(dstart, dv.take(i as int)),
        decreases deps.len() - i,
    {
        let d = &deps[i];
        assert(dv.take(i + 1).drop_last() =~= dv.take(i as int));
        assert(dv.take(i + 1).last() == d@);
        let mut present = false;
        let mut j: usize = 0;
        while j < existing.dependencies.len()
            invariant
                0 <= j <= existing.dependencies.len(),
                present == exists|q: int| 0 <= q < j && dep_views(existing.dependencies@)[q] == d@,
            decreases existing.dependencies.len() - j,
        {
            assert(dep_views(existing.dependencies@)[j as int] == existing.dependencies@[j as int]@);
            if dep_eq(&existing.dependencies[j], d) {
                present = true;
            }
            j = j + 1;
        }
        if !present {
            let ghost before = dep_views(existing.dependencies@);
            existing.dependencies.push(d.clone());
            assert(dep_views(existing.dependencies@) =~= before.push(d@));
        } else {
            proof {
                let q = choose|q: int| 0 <= q < existing.dependencies.len() && dep_views(existing.dependencies@)[q] == d@;
            }
        }
        i = i + 1;
    }
    assert(dv.take(deps.len() as int) =~= dv);
}

// ---------------------------------------------------------------------------
// Where child modules live
// ---------------------------------------------------------------------------

/// Position of the last `c` in `s`.
pub open spec fn last_index_of(s: Seq<char>, c: char) -> Option<int>
    decreases s.len(),
{
    if s.len() == 0 {
        None
    } else if s.last() == c {
        Some(s.len() - 1)
    } else {
        last_index_of(s.drop_last(), c)
    }
}

/// The directory part of a `/`-separated path (`/` for a file at the root,
/// empty for a bare file name).
pub open spec fn parent_dir(p: Seq<char>) -> Seq<char> {
    match last_index_of(p, '/') {
        Some(i) => if i == 0 {
            seq!['/']
        } else {
            p.take(i)
        },
        None => Seq::empty(),
    }
}

/// The file name part of a `/`-separated path.
pub open spec fn file_name_of(p: Seq<char>) -> Seq<char> {
    match last_index_of(p, '/') {
        Some(i) => p.skip(i + 1),
        None => p,
    }
}

/// A file name without its extension: the part before the last `.`, unless
/// that `.` starts the name.
pub open spec fn file_stem_of(name: Seq<char>) -> Seq<char> {
    match last_index_of(name, '.') {
        Some(i) => if i > 0 {
            name.take(i)
        } else {
            name
        },
        None => name,
    }
}

/// `dir/name`, or `name` for an empty directory.
pub open spec fn join_dir(dir: Seq<char>, name: Seq<char>) -> Seq<char> {
    if dir.len() == 0 {
        name
    } else if dir.last() == '/' {
        dir + name
    } else {
        dir + seq!['/'] + name
    }
}

/// Whether a file keeps its child modules beside it.
pub open spec fn is_dir_style(name: Seq<char>) -> bool {
    name == "mod.rs"@ || name == "lib.rs"@ || name == "main.rs"@
}

/// The directory of a file's child modules: its own directory for
/// `mod.rs`, `lib.rs` and `main.rs`, else the subdirectory named after it.
pub open spec fn child_dir(p: Seq<char>) -> Seq<char> {
    if is_dir_style(file_name_of(p)) {
        parent_dir(p)
    } else {
        join_dir(parent_dir(p), file_stem_of(file_name_of(p)))
    }
}

fn find_last(s: &Vec<char>, c: char) -> (r: Option<usize>)
    ensures
        match r {
            Some(i) => last_index_of(s@, c) == Some(i as int) && i < s.len(),
            None => last_index_of(s@, c) is None,
        },
{
    let mut k: usize = s.len();
    assert(s@.take(k as int) =~= s@);
    while k > 0
        invariant
            k <= s.len(),
            last_index_of(s@, c) == last_index_of(s@.take(k as int), c),
        decreases k,
    {
        assert(s@.take(k as int).drop_last() =~= s@.take(k - 1));
        if s[k - 1] == c {
            return Some(k - 1);
        }
        k = k - 1;
    }
    assert(s@.take(0) =~= Seq::<char>::empty());
    None
}

fn sub_chars(s: &Vec<char>, from: usize, to: usize) -> (r: Vec<char>)
    requires
        from <= to <= s.len(),
    ensures
        r@ == s@.subrange(from as int, to as int),
{
    let mut r: Vec<char> = Vec::new();
    let mut i: usize = from;
    while i < to
        invariant
            from <= i <= to <= s.len(),
            r@ == s@.subrange(from as int, i as int),
        decreases to - i,
    {
        r.push(s[i]);
        i = i + 1;
        assert(r@ =~= s@.subrange(from as int, i as int));
    }
    r
}

/// The directory where the child modules of the file `file_path` are
/// looked up.
pub fn child_resolve_dir(file_path: &str) -> (r: String)
    ensures
        r@ == child_dir(file_path@),
{
    let p = str_chars(file_path);
    let slash = find_last(&p, '/');
    let (dir, name) = match slash {
        Some(i) => {
            let dir = if i == 0 {
                let mut d: Vec<char> = Vec::new();
                d.push('/');
                d
            } else {
                sub_chars(&p, 0, i)
            };
            (dir, sub_chars(&p, i + 1, p.len()))
        },
        None => (Vec::new(), sub_chars(&p, 0, p.len())),
    };
    assert(dir@ =~= parent_dir(p@));
    assert(name@ =~= file_name_of(p@));
    let nm = string_from_chars(name.as_slice());
    if str_eq(nm.as_str(), "mod.rs") || str_eq(nm.as_str(), "lib.rs") || str_eq(nm.as_str(), "main.rs") {
        return string_from_chars(dir.as_slice());
    }
    let stem = match find_last(&name, '.') {
        Some(j) => if j > 0 {
            sub_chars(&name, 0, j)
        } else {
            sub_chars(&name, 0, name.len())
        },
        None => sub_chars(&name, 0, name.len()),
    };
    assert(stem@ =~= file_stem_of(file_name_of(p@)));
    let mut out = dir;
    if out.len() > 0 && out[out.len() - 1] != '/' {
        out.push('/');
    }
    let ghost before = out@;
    let mut st = stem;
    out.append(&mut st);
    assert(out@ =~= join_dir(parent_dir(p@), file_stem_of(file_name_of(p@))));
    string_from_chars(out.as_slice())
}

/// What a scan of one source file found: its `use` items with their
/// context and inline-module depth, its paths of two or more segments
/// likewise, and its top-level `mod` items.
pub struct SourceScan {
    pub uses: Vec<(UseItem, EdgeContext, usize)>,
    pub paths: Vec<(String, usize, EdgeContext, usize)>,
    pub mods: Vec<ModItem>,
}

/// `full` without a leading crate name `krate` and the `::` after it.
pub open spec fn crate_relative_spec(full: Seq<char>, krate: Seq<char>) -> Seq<char> {
    if has_prefix(full, krate) {
        let rest = full.skip(krate.len() as int);
        if has_prefix(rest, seq![':', ':']) {
            rest.skip(2)
        } else {
            rest
        }
    } else {
        full
    }
}

/// The module path within the crate: `full_path` without the crate name and
/// the `::` after it (`""` for the crate root).
pub fn crate_relative_path(full_path: &str, crate_name: &str) -> (r: String)
    ensures
        r@ == crate_relative_spec(full_path@, crate_name@),
{
    let f = str_chars(full_path);
    let k = str_chars(crate_name);
    if !chars_have_prefix(&f, &k) {
        return copy_string(full_path);
    }
    let rest = sub_chars(&f, k.len(), f.len());
    assert(rest@ =~= f@.skip(k.len() as int));
    let sep = str_chars("::");
    proof {
        reveal_strlit("::");
        assert(sep@ =~= seq![':', ':']);
    }
    if chars_have_prefix(&rest, &sep) {
        let tail = sub_chars(&rest, 2, rest.len());
        assert(tail@ =~= rest@.skip(2));
        string_from_chars(tail.as_slice())
    } else {
        string_from_chars(rest.as_slice())
    }
}

/// The module of one source file: its name and full path, no children yet;
/// the dependencies that its `use` items and its path references resolve
/// to, merged; and its `mod` declarations that name other files. A file
/// that could not be read or parsed gives no dependencies and no
/// declarations.
pub fn module_from_scan(
    scan: &Option<SourceScan>,
    module_name: &str,
    parent_path: &str,
    ctx: &ResolutionContext,
    include_tests: bool,
) -> (r: (ModuleInfo, Vec<ModDecl>))
    ensures
        r.0.name@ == module_name@,
        r.0.full_path@ == full_module_path(parent_path@, module_name@),
        r.0.children@.len() == 0,
        scan is None ==> r.0.dependencies@.len() == 0 && r.1@.len() == 0,
        scan matches Some(sc) ==> dep_views(r.0.dependencies@) == merge_by_key(
            merge_all(Seq::empty(), use_item_resolutions(*ctx, sc.uses@)),
            merge_all(Seq::empty(), path_ref_resolutions(*ctx, sc.paths@)),
        ),
        scan matches Some(sc) ==> decl_views(r.1@) == mod_decls(sc.mods@, include_tests, sc.mods.len() as int),
{
    let full_path = module_full_path(parent_path, module_name);
    let name = copy_string(module_name);
    match scan {
        None => (ModuleInfo { name, full_path, children: Vec::new(), dependencies: Vec::new() }, Vec::new()),
        Some(sc) => {
            let use_deps = parse_workspace_dependencies(&sc.uses, ctx);
            let path_deps = parse_path_ref_dependencies(&sc.paths, ctx);
            let dependencies = merge_module_dependencies(use_deps, &path_deps);
            let decls = extract_mod_declarations(&sc.mods, include_tests);
            (ModuleInfo { name, full_path, children: Vec::new(), dependencies }, decls)
        },
    }
}

} // verus!
