//! Resolution of `use` paths and qualified path references into
//! workspace dependencies.

use vstd::prelude::*;
use crate::model::{
    CrateExportMap, DependencyKind, DependencyRef, DependencyRefView, EdgeContext,
    EdgeContextView, ModulePathMap, SeenIndex, TestKind, WorkspaceCrates, dep_key, dep_views,
    keys_unique, lemma_merge_all_concat, merge_all, seen_consistent, seen_lookup,
};
use crate::strings::{
    chars_contain, chars_eq, chars_have_prefix, chars_have_suffix, contains_seq, has_prefix,
    has_suffix, hyphen_to_underscore, join_path, join_path_chars, normalize_chars, path_concat,
    split_path, split_path_chars, str_chars, str_eq, string_from_chars, trim, trim_chars, trim_end_char,
    trim_end_char_chars,
};

verus! {

/// Everything a path is resolved against.
pub struct ResolutionContext<'a> {
    pub current_crate: &'a str,
    pub workspace_crates: &'a WorkspaceCrates,
    pub source_file: &'a str,
    pub all_module_paths: &'a ModulePathMap,
    pub crate_exports: &'a CrateExportMap,
    /// Module of the file being resolved, without the crate name (`""` at the root).
    pub current_module_path: &'a str,
}

/// Production becomes a unit-test context; test contexts are kept.
pub open spec fn promote_to_test_spec(c: EdgeContextView) -> EdgeContextView {
    match c.kind {
        DependencyKind::Production => EdgeContextView {
            kind: DependencyKind::Test(TestKind::Unit),
            features: c.features,
        },
        _ => c,
    }
}

/// Promotes a context to a test context (used for `#[cfg(test)]` scopes).
pub fn promote_to_test(base: &EdgeContext) -> (r: EdgeContext)
    ensures
        r@ == promote_to_test_spec(base@),
{
    match base.kind {
        DependencyKind::Production => EdgeContext {
            kind: DependencyKind::Test(TestKind::Unit),
            features: crate::model::clone_strings(&base.features),
        },
        _ => base.clone(),
    }
}

/// Module paths known for a crate (empty when the crate is unknown).
pub open spec fn module_set(ctx: ResolutionContext, krate: Seq<char>) -> Set<Seq<char>> {
    if ctx.all_module_paths@.contains_key(krate) {
        ctx.all_module_paths@[krate]
    } else {
        Set::empty()
    }
}

/// Exports known for a crate (empty when the crate is unknown).
pub open spec fn export_set(ctx: ResolutionContext, krate: Seq<char>) -> Set<Seq<char>> {
    if ctx.crate_exports@.contains_key(krate) {
        ctx.crate_exports@[krate]
    } else {
        Set::empty()
    }
}

/// Segment count of the longest prefix of `parts` (at most `end` segments)
/// that is a known module path; 1 when none is.
pub open spec fn longest_prefix_from(parts: Seq<Seq<char>>, paths: Set<Seq<char>>, end: int) -> int
    decreases end,
{
    if end <= 1 {
        1
    } else if paths.contains(join_path(parts.take(end))) {
        end
    } else {
        longest_prefix_from(parts, paths, end - 1)
    }
}

pub proof fn lemma_longest_prefix_bounds(parts: Seq<Seq<char>>, paths: Set<Seq<char>>, end: int)
    ensures
        1 <= longest_prefix_from(parts, paths, end),
        end >= 1 ==> longest_prefix_from(parts, paths, end) <= end,
    decreases end,
{
    if end > 1 && !paths.contains(join_path(parts.take(end))) {
        lemma_longest_prefix_bounds(parts, paths, end - 1);
    }
}

/// Whether `s` is among the strings of `v`.
pub fn strings_contain(v: &Vec<String>, s: &Vec<char>) -> (r: bool)
    ensures
        r == v.deep_view().to_set().contains(s@),
{
    let mut i: usize = 0;
    while i < v.len()
        invariant
            0 <= i <= v.len(),
            forall|j: int| 0 <= j < i ==> v@[j]@ != s@,
        decreases v.len() - i,
    {
        let c = str_chars(v[i].as_str());
        if chars_eq(&c, s) {
            assert(v.deep_view()[i as int] == s@);
            return true;
        }
        i = i + 1;
    }
    assert(!v.deep_view().contains(s@));
    false
}

fn longest_prefix_chars(parts: &Vec<Vec<char>>, paths: &Vec<String>) -> (r: usize)
    requires
        parts.len() >= 1,
    ensures
        r as int == longest_prefix_from(parts.deep_view(), paths.deep_view().to_set(), parts.len() as int),
        1 <= r <= parts.len(),
{
    let ghost ps = parts.deep_view();
    let ghost set = paths.deep_view().to_set();
    let mut end: usize = parts.len();
    while end > 1
        invariant
            1 <= end <= parts.len(),
            ps == parts.deep_view(),
            set == paths.deep_view().to_set(),
            longest_prefix_from(ps, set, parts.len() as int) == longest_prefix_from(ps, set, end as int),
        decreases end,
    {
        let candidate = join_path_chars(parts, end);
        assert(longest_prefix_from(ps, set, end as int) == if set.contains(
            join_path(ps.take(end as int)),
        ) {
            end as int
        } else {
            longest_prefix_from(ps, set, end - 1)
        });
        if strings_contain(paths, &candidate) {
            return end;
        }
        end = end - 1;
    }
    end
}

/// Copies the segments into strings.
fn chars_to_strings(parts: &Vec<Vec<char>>) -> (r: Vec<String>)
    ensures
        r.deep_view() == parts.deep_view(),
{
    let mut out: Vec<String> = Vec::new();
    let mut i: usize = 0;
    while i < parts.len()
        invariant
            0 <= i <= parts.len(),
            out.deep_view() =~= parts.deep_view().take(i as int),
        decreases parts.len() - i,
    {
        let s = string_from_chars(parts[i].as_slice());
        proof {
            assert(parts.deep_view()[i as int] == parts@[i as int]@);
        }
        let ghost prev = out.deep_view();
        out.push(s);
        assert(out.deep_view() =~= prev.push(parts.deep_view()[i as int]));
        assert(parts.deep_view().take(i + 1) =~= parts.deep_view().take(i as int).push(
            parts.deep_view()[i as int],
        ));
        i = i + 1;
    }
    assert(parts.deep_view().take(parts.len() as int) =~= parts.deep_view());
    out
}

/// Copies a list of segments.
fn copy_parts(parts: &Vec<Vec<char>>) -> (r: Vec<Vec<char>>)
    ensures
        r.deep_view() == parts.deep_view(),
{
    let mut out: Vec<Vec<char>> = Vec::new();
    let mut i: usize = 0;
    while i < parts.len()
        invariant
            0 <= i <= parts.len(),
            out.deep_view() =~= parts.deep_view().take(i as int),
        decreases parts.len() - i,
    {
        let c = parts[i].clone();
        assert(c@ =~= parts@[i as int]@);
        assert(c.deep_view() =~= c@);
        assert(parts.deep_view()[i as int] == parts@[i as int]@);
        let ghost prev = out.deep_view();
        out.push(c);
        assert(out.deep_view() =~= prev.push(parts.deep_view()[i as int]));
        assert(parts.deep_view().take(i + 1) =~= parts.deep_view().take(i as int).push(
            parts.deep_view()[i as int],
        ));
        i = i + 1;
    }
    assert(parts.deep_view().take(parts.len() as int) =~= parts.deep_view());
    out
}

/// Copies the strings into character vectors.
fn strings_to_chars(parts: &Vec<String>) -> (r: Vec<Vec<char>>)
    ensures
        r.deep_view() == parts.deep_view(),
{
    let mut out: Vec<Vec<char>> = Vec::new();
    let mut i: usize = 0;
    while i < parts.len()
        invariant
            0 <= i <= parts.len(),
            out.deep_view() =~= parts.deep_view().take(i as int),
        decreases parts.len() - i,
    {
        let c = str_chars(parts[i].as_str());
        assert(c.deep_view() =~= c@);
        let ghost prev = out.deep_view();
        out.push(c);
        assert(out.deep_view() =~= prev.push(parts.deep_view()[i as int]));
        assert(parts.deep_view().take(i + 1) =~= parts.deep_view().take(i as int).push(
            parts.deep_view()[i as int],
        ));
        i = i + 1;
    }
    assert(parts.deep_view().take(parts.len() as int) =~= parts.deep_view());
    out
}

/// The longest prefix of `parts` that is a known module path, with its
/// segment count; the first segment when none is.
pub fn find_longest_module_prefix(parts: &Vec<String>, module_paths: &Vec<String>) -> (r: (
    String,
    usize,
))
    requires
        parts.len() >= 1,
    ensures
        r.1 as int == longest_prefix_from(
            parts.deep_view(),
            module_paths.deep_view().to_set(),
            parts.len() as int,
        ),
        r.0@ == join_path(parts.deep_view().take(r.1 as int)),
        1 <= r.1 <= parts.len(),
{
    let cs = strings_to_chars(parts);
    assert(cs.deep_view().len() == cs.len() && parts.deep_view().len() == parts.len());
    let k = longest_prefix_chars(&cs, module_paths);
    let joined = join_path_chars(&cs, k);
    (string_from_chars(joined.as_slice()), k)
}

/// The item named by segment `idx`, with trailing `{`, `;` and whitespace
/// removed; none when that leaves nothing or a `{`.
pub open spec fn item_at(parts: Seq<Seq<char>>, idx: int) -> Option<Seq<char>> {
    if idx < 0 || idx >= parts.len() {
        None
    } else {
        let p = trim(trim_end_char(trim_end_char(parts[idx], '{'), ';'));
        if p.len() == 0 || p[0] == '{' {
            None
        } else {
            Some(p)
        }
    }
}

fn item_at_chars(parts: &Vec<Vec<char>>, idx: usize) -> (r: Option<Vec<char>>)
    ensures
        r matches Some(v) ==> item_at(parts.deep_view(), idx as int) == Some(v@),
        r is None ==> item_at(parts.deep_view(), idx as int) is None,
{
    if idx >= parts.len() {
        return None;
    }
    assert(parts.deep_view()[idx as int] == parts@[idx as int]@);
    let a = trim_end_char_chars(&parts[idx], '{');
    let b = trim_end_char_chars(&a, ';');
    let p = trim_chars(&b);
    if p.len() == 0 || p[0] == '{' {
        None
    } else {
        Some(p)
    }
}

/// Extracts the item at `index` of a split path (see `item_at`).
pub fn extract_item_from_parts(parts: &Vec<String>, index: usize) -> (r: Option<String>)
    ensures
        r matches Some(s) ==> item_at(parts.deep_view(), index as int) == Some(s@),
        r is None ==> item_at(parts.deep_view(), index as int) is None,
{
    let cs = strings_to_chars(parts);
    match item_at_chars(&cs, index) {
        Some(v) => Some(string_from_chars(v.as_slice())),
        None => None,
    }
}

/// Whether a crate name (in either spelling) is a workspace member.
pub fn is_workspace_member(name: &str, workspace_crates: &WorkspaceCrates) -> (r: bool)
    ensures
        r == workspace_crates@.contains(hyphen_to_underscore(name@)),
{
    workspace_crates.contains(name)
}

pub open spec fn dep_view(
    krate: Seq<char>,
    module: Seq<char>,
    item: Option<Seq<char>>,
    file: Seq<char>,
    line: usize,
    c: EdgeContextView,
) -> DependencyRefView {
    DependencyRefView {
        target_crate: krate,
        target_module: module,
        target_item: item,
        source_file: file,
        line,
        context: c,
    }
}

fn make_dep(
    krate: &Vec<char>,
    module: &Vec<char>,
    item: Option<Vec<char>>,
    file: &str,
    line: usize,
    c: &EdgeContext,
) -> (r: DependencyRef)
    ensures
        r@ == dep_view(
            krate@,
            module@,
            match item {
                Some(v) => Some(v@),
                None => None,
            },
            file@,
            line,
            c@,
        ),
{
    let target_item = match item {
        Some(v) => Some(string_from_chars(v.as_slice())),
        None => None,
    };
    DependencyRef {
        target_crate: string_from_chars(krate.as_slice()),
        target_module: string_from_chars(module.as_slice()),
        target_item,
        source_file: string_from_chars(str_chars(file).as_slice()),
        line,
        context: c.clone(),
    }
}

pub open spec fn crate_prefix() -> Seq<char> {
    seq!['c', 'r', 'a', 't', 'e', ':', ':']
}

/// `use crate::module[::item]`
pub open spec fn crate_local_spec(
    ctx: ResolutionContext,
    path: Seq<char>,
    line: usize,
    c: EdgeContextView,
) -> Option<DependencyRefView> {
    if !has_prefix(path, crate_prefix()) {
        None
    } else {
        let parts = split_path(path.skip(7));
        let first = trim(trim_end_char(parts[0], '{'));
        if first.len() == 0 {
            None
        } else {
            let cn = hyphen_to_underscore(ctx.current_crate@);
            let k = longest_prefix_from(parts, module_set(ctx, cn), parts.len() as int);
            Some(dep_view(cn, join_path(parts.take(k)), item_at(parts, k), ctx.source_file@, line, c))
        }
    }
}

/// Module paths of a crate as strings (empty when unknown).
fn module_paths_of(ctx: &ResolutionContext, krate: &Vec<char>) -> (r: Vec<String>)
    ensures
        r.deep_view().to_set() == module_set(*ctx, krate@),
{
    let key = string_from_chars(krate.as_slice());
    let r = ctx.all_module_paths.get_or_empty(key.as_str());
    if r.len() == 0 {
        assert(r.deep_view().to_set() =~= Set::<Seq<char>>::empty());
    }
    r
}

/// Parses a crate-local import: `use crate::module[::item]`.
pub fn parse_crate_local_import(
    ctx: &ResolutionContext,
    path: &str,
    line_num: usize,
    context: &EdgeContext,
) -> (r: Option<DependencyRef>)
    ensures
        r matches Some(d) ==> crate_local_spec(*ctx, path@, line_num, context@) == Some(d@),
        r is None ==> crate_local_spec(*ctx, path@, line_num, context@) is None,
{
    let p = str_chars(path);
    let prefix = vec!['c', 'r', 'a', 't', 'e', ':', ':'];
    assert(prefix@ == crate_prefix());
    if !chars_have_prefix(&p, &prefix) {
        return None;
    }
    let mut after: Vec<char> = Vec::new();
    let mut i: usize = 7;
    while i < p.len()
        invariant
            7 <= i <= p.len(),
            after@ =~= p@.subrange(7, i as int),
        decreases p.len() - i,
    {
        after.push(p[i]);
        i = i + 1;
    }
    assert(after@ =~= p@.skip(7));
    let parts = split_path_chars(&after);
    assert(parts.deep_view()[0] == parts@[0]@);
    let f0 = trim_end_char_chars(&parts[0], '{');
    let first = trim_chars(&f0);
    if first.len() == 0 {
        return None;
    }
    let cur = str_chars(ctx.current_crate);
    let cn = normalize_chars(&cur);
    let mp = module_paths_of(ctx, &cn);
    let k = longest_prefix_chars(&parts, &mp);
    let module = join_path_chars(&parts, k);
    let item = item_at_chars(&parts, k);
    Some(make_dep(&cn, &module, item, ctx.source_file, line_num, context))
}

/// `use module[::item]` for a module of the current crate, looked up first
/// as a child of the current module, then from the crate root.
pub open spec fn bare_module_spec(
    ctx: ResolutionContext,
    path: Seq<char>,
    line: usize,
    c: EdgeContextView,
) -> Option<DependencyRefView> {
    let parts = split_path(path);
    let first = trim(trim_end_char(parts[0], '{'));
    let cn = hyphen_to_underscore(ctx.current_crate@);
    let mp = module_set(ctx, cn);
    let cur = ctx.current_module_path@;
    if first.len() == 0 {
        None
    } else if cur.len() > 0 && mp.contains(path_concat(cur, first)) {
        let full = split_path(cur) + parts;
        let k = longest_prefix_from(full, mp, full.len() as int);
        Some(dep_view(cn, join_path(full.take(k)), item_at(full, k), ctx.source_file@, line, c))
    } else if mp.contains(first) {
        let k = longest_prefix_from(parts, mp, parts.len() as int);
        Some(dep_view(cn, join_path(parts.take(k)), item_at(parts, k), ctx.source_file@, line, c))
    } else {
        None
    }
}

/// Parses a bare module import such as `use cli::Args` (Rust 2018 paths).
pub fn parse_bare_module_import(
    ctx: &ResolutionContext,
    path: &str,
    line_num: usize,
    context: &EdgeContext,
) -> (r: Option<DependencyRef>)
    ensures
        r matches Some(d) ==> bare_module_spec(*ctx, path@, line_num, context@) == Some(d@),
        r is None ==> bare_module_spec(*ctx, path@, line_num, context@) is None,
{
    let p = str_chars(path);
    let parts = split_path_chars(&p);
    assert(parts.deep_view()[0] == parts@[0]@);
    let f0 = trim_end_char_chars(&parts[0], '{');
    let first = trim_chars(&f0);
    if first.len() == 0 {
        return None;
    }
    let cur_crate = str_chars(ctx.current_crate);
    let cn = normalize_chars(&cur_crate);
    let mp = module_paths_of(ctx, &cn);
    let cur = str_chars(ctx.current_module_path);
    if cur.len() > 0 {
        let mut child = cur.clone();
        child.push(':');
        child.push(':');
        let mut fc = first.clone();
        child.append(&mut fc);
        assert(child@ =~= path_concat(cur@, first@));
        if strings_contain(&mp, &child) {
            let mut full = split_path_chars(&cur);
            let ghost cur_parts = full.deep_view();
            let mut rest = copy_parts(&parts);
            full.append(&mut rest);
            assert(full.deep_view() =~= cur_parts + parts.deep_view());
            let k = longest_prefix_chars(&full, &mp);
            let module = join_path_chars(&full, k);
            let item = item_at_chars(&full, k);
            return Some(make_dep(&cn, &module, item, ctx.source_file, line_num, context));
        }
    }
    if !strings_contain(&mp, &first) {
        return None;
    }
    let k = longest_prefix_chars(&parts, &mp);
    let module = join_path_chars(&parts, k);
    let item = item_at_chars(&parts, k);
    Some(make_dep(&cn, &module, item, ctx.source_file, line_num, context))
}

} // verus!

verus! {

/// `use other_crate::module[::item]` for a workspace crate; an exported
/// symbol that is not a known module becomes an entry-point dependency
/// (empty module).
pub open spec fn workspace_import_spec(
    ctx: ResolutionContext,
    path: Seq<char>,
    line: usize,
    c: EdgeContextView,
) -> Option<DependencyRefView> {
    let parts = split_path(path);
    let crate_name = trim(parts[0]);
    if !ctx.workspace_crates@.contains(hyphen_to_underscore(crate_name)) || parts.len() < 2 {
        None
    } else {
        let seg = trim(trim_end_char(trim_end_char(parts[1], '{'), ';'));
        if seg.len() == 0 {
            None
        } else {
            let tn = hyphen_to_underscore(crate_name);
            let mp = module_set(ctx, tn);
            let rest = parts.skip(1);
            let k = longest_prefix_from(rest, mp, rest.len() as int);
            let tm = join_path(rest.take(k));
            if !mp.contains(tm) && export_set(ctx, tn).contains(seg) {
                Some(dep_view(crate_name, Seq::empty(), Some(seg), ctx.source_file@, line, c))
            } else {
                Some(dep_view(crate_name, tm, item_at(parts, 1 + k), ctx.source_file@, line, c))
            }
        }
    }
}

/// Exports of a crate as strings (empty when unknown).
fn exports_of(ctx: &ResolutionContext, krate: &Vec<char>) -> (r: Vec<String>)
    ensures
        r.deep_view().to_set() == export_set(*ctx, krate@),
{
    let key = string_from_chars(krate.as_slice());
    match ctx.crate_exports.get(key.as_str()) {
        Some(v) => {
            let c = v.clone();
            assert(c.deep_view() =~= v.deep_view());
            c
        },
        None => {
            let r: Vec<String> = Vec::new();
            assert(r.deep_view().to_set() =~= Set::<Seq<char>>::empty());
            r
        },
    }
}

/// Parses an import of another workspace crate: `use other_crate::module[::item]`.
pub fn parse_workspace_import(
    ctx: &ResolutionContext,
    path: &str,
    line_num: usize,
    context: &EdgeContext,
) -> (r: Option<DependencyRef>)
    ensures
        r matches Some(d) ==> workspace_import_spec(*ctx, path@, line_num, context@) == Some(d@),
        r is None ==> workspace_import_spec(*ctx, path@, line_num, context@) is None,
{
    let p = str_chars(path);
    let parts = split_path_chars(&p);
    assert(parts.deep_view()[0] == parts@[0]@);
    let crate_name = trim_chars(&parts[0]);
    let cn_string = string_from_chars(crate_name.as_slice());
    if !is_workspace_member(cn_string.as_str(), ctx.workspace_crates) || parts.len() < 2 {
        return None;
    }
    assert(parts.deep_view()[1] == parts@[1]@);
    let s0 = trim_end_char_chars(&parts[1], '{');
    let s1 = trim_end_char_chars(&s0, ';');
    let seg = trim_chars(&s1);
    if seg.len() == 0 {
        return None;
    }
    let tn = normalize_chars(&crate_name);
    let mp = module_paths_of(ctx, &tn);
    let mut rest: Vec<Vec<char>> = Vec::new();
    let mut i: usize = 1;
    while i < parts.len()
        invariant
            1 <= i <= parts.len(),
            rest.deep_view() =~= parts.deep_view().subrange(1, i as int),
        decreases parts.len() - i,
    {
        let c = parts[i].clone();
        assert(c@ =~= parts@[i as int]@);
        assert(c.deep_view() =~= c@);
        assert(parts.deep_view()[i as int] == parts@[i as int]@);
        let ghost prev = rest.deep_view();
        rest.push(c);
        assert(rest.deep_view() =~= prev.push(parts.deep_view()[i as int]));
        i = i + 1;
    }
    assert(rest.deep_view() =~= parts.deep_view().skip(1));
    assert(rest.deep_view().len() == rest.len());
    let k = longest_prefix_chars(&rest, &mp);
    let tm = join_path_chars(&rest, k);
    let exports = exports_of(ctx, &tn);
    if !strings_contain(&mp, &tm) && strings_contain(&exports, &seg) {
        let empty: Vec<char> = Vec::new();
        assert(empty@ =~= Seq::<char>::empty());
        return Some(make_dep(&crate_name, &empty, Some(seg), ctx.source_file, line_num, context));
    }
    let item = item_at_chars(&parts, 1 + k);
    Some(make_dep(&crate_name, &tm, item, ctx.source_file, line_num, context))
}

pub open spec fn self_prefix() -> Seq<char> {
    seq!['s', 'e', 'l', 'f', ':', ':']
}

pub open spec fn super_prefix() -> Seq<char> {
    seq!['s', 'u', 'p', 'e', 'r', ':', ':']
}

/// Number of leading `super::` segments.
pub open spec fn count_supers(p: Seq<char>) -> nat
    decreases p.len(),
{
    if has_prefix(p, super_prefix()) {
        1 + count_supers(p.skip(7))
    } else {
        0
    }
}

/// What follows the leading `super::` segments.
pub open spec fn after_supers(p: Seq<char>) -> Seq<char>
    decreases p.len(),
{
    if has_prefix(p, super_prefix()) {
        after_supers(p.skip(7))
    } else {
        p
    }
}

/// `base::rest`, or `rest` when `base` is the crate root.
pub open spec fn under(base: Seq<char>, rest: Seq<char>) -> Seq<char> {
    if base.len() == 0 {
        rest
    } else {
        path_concat(base, rest)
    }
}

/// Segments of a module path (none for the crate root).
pub open spec fn module_segments(m: Seq<char>) -> Seq<Seq<char>> {
    if m.len() == 0 {
        Seq::empty()
    } else {
        split_path(m)
    }
}

/// Crate-relative path named by a `self::` or `super::` path written in
/// module `current` at `depth` inline `mod` blocks below the file's module.
/// None when the path is not relative, stays inside the file's inline
/// modules, or climbs above the crate root.
pub open spec fn resolve_relative_spec(path: Seq<char>, current: Seq<char>, depth: usize) -> Option<
    Seq<char>,
> {
    if has_prefix(path, self_prefix()) {
        if depth > 0 {
            None
        } else {
            Some(under(current, path.skip(6)))
        }
    } else if has_prefix(path, super_prefix()) {
        let n = count_supers(path);
        let segs = module_segments(current);
        if n <= depth || n - depth > segs.len() {
            None
        } else {
            let keep = segs.len() - (n - depth);
            Some(under(join_path(segs.take(keep)), after_supers(path)))
        }
    } else {
        None
    }
}

fn skip_chars(p: &Vec<char>, n: usize) -> (r: Vec<char>)
    requires
        n <= p.len(),
    ensures
        r@ == p@.skip(n as int),
{
    let mut out: Vec<char> = Vec::new();
    let mut i: usize = n;
    while i < p.len()
        invariant
            n <= i <= p.len(),
            out@ =~= p@.subrange(n as int, i as int),
        decreases p.len() - i,
    {
        out.push(p[i]);
        i = i + 1;
    }
    out
}

fn under_chars(base: &Vec<char>, rest: &Vec<char>) -> (r: Vec<char>)
    ensures
        r@ == under(base@, rest@),
{
    if base.len() == 0 {
        return rest.clone();
    }
    let mut out = base.clone();
    out.push(':');
    out.push(':');
    let mut tail = rest.clone();
    out.append(&mut tail);
    assert(out@ =~= path_concat(base@, rest@));
    out
}

/// Resolves `self::`/`super::` paths to crate-relative paths (see
/// `resolve_relative_spec`).
pub fn resolve_relative_path(path: &str, current_module_path: &str, inline_depth: usize) -> (r: Option<
    String,
>)
    ensures
        r matches Some(s) ==> resolve_relative_spec(path@, current_module_path@, inline_depth)
            == Some(s@),
        r is None ==> resolve_relative_spec(path@, current_module_path@, inline_depth) is None,
{
    let p = str_chars(path);
    let cur = str_chars(current_module_path);
    let self_p = vec!['s', 'e', 'l', 'f', ':', ':'];
    let super_p = vec!['s', 'u', 'p', 'e', 'r', ':', ':'];
    assert(self_p@ == self_prefix());
    assert(super_p@ == super_prefix());
    if chars_have_prefix(&p, &self_p) {
        if inline_depth > 0 {
            return None;
        }
        let rest = skip_chars(&p, 6);
        let r = under_chars(&cur, &rest);
        return Some(string_from_chars(r.as_slice()));
    }
    if !chars_have_prefix(&p, &super_p) {
        return None;
    }
    let mut n: usize = 0;
    let mut rest = p.clone();
    assert(rest@ =~= p@);
    while chars_have_prefix(&rest, &super_p)
        invariant
            super_p@ == super_prefix(),
            n <= p.len(),
            n + count_supers(rest@) == count_supers(p@),
            after_supers(rest@) == after_supers(p@),
            rest@.len() + 7 * n == p@.len(),
        decreases rest.len(),
    {
        rest = skip_chars(&rest, 7);
        n = n + 1;
    }
    let segs: Vec<Vec<char>> = if cur.len() == 0 {
        Vec::new()
    } else {
        split_path_chars(&cur)
    };
    assert(segs.deep_view() =~= module_segments(cur@));
    if n <= inline_depth || n - inline_depth > segs.len() {
        return None;
    }
    let keep = segs.len() - (n - inline_depth);
    let base = join_path_chars(&segs, keep);
    let r = under_chars(&base, &rest);
    Some(string_from_chars(r.as_slice()))
}

} // verus!

verus! {

pub open spec fn star_suffix() -> Seq<char> {
    seq![':', ':', '*']
}

pub open spec fn sep() -> Seq<char> {
    seq![':', ':']
}

/// Resolution of a crate-relative or absolute path: a trailing `::*` resolves
/// its base and names the item `*`; otherwise the first of crate-local,
/// bare module, workspace crate and bare workspace crate name that applies.
pub open spec fn resolve_absolute_spec(
    ctx: ResolutionContext,
    path: Seq<char>,
    line: usize,
    c: EdgeContextView,
) -> Option<DependencyRefView>
    decreases path.len(),
{
    if has_suffix(path, star_suffix()) {
        match resolve_absolute_spec(ctx, path.take(path.len() - 3), line, c) {
            Some(d) => Some(DependencyRefView { target_item: Some(seq!['*']), ..d }),
            None => None,
        }
    } else if crate_local_spec(ctx, path, line, c) is Some {
        crate_local_spec(ctx, path, line, c)
    } else if bare_module_spec(ctx, path, line, c) is Some {
        bare_module_spec(ctx, path, line, c)
    } else if workspace_import_spec(ctx, path, line, c) is Some {
        workspace_import_spec(ctx, path, line, c)
    } else if !contains_seq(path, sep()) && ctx.workspace_crates@.contains(
        hyphen_to_underscore(path),
    ) {
        Some(dep_view(path, Seq::empty(), None, ctx.source_file@, line, c))
    } else {
        None
    }
}

/// Resolution of a path written at `depth` inline modules below the file's
/// module: `self::`/`super::` paths are made crate-relative first.
pub open spec fn resolve_path_spec(
    ctx: ResolutionContext,
    path: Seq<char>,
    line: usize,
    c: EdgeContextView,
    depth: usize,
) -> Option<DependencyRefView> {
    if has_prefix(path, self_prefix()) || has_prefix(path, super_prefix()) {
        match resolve_relative_spec(path, ctx.current_module_path@, depth) {
            Some(a) => resolve_absolute_spec(ctx, crate_prefix() + a, line, c),
            None => None,
        }
    } else {
        resolve_absolute_spec(ctx, path, line, c)
    }
}

/// A glob import `base::*` resolves exactly when `base` does, to the same
/// crate and module, from the same file, line and context, naming the item
/// `*`.
pub proof fn law_glob_import_names_star(ctx: ResolutionContext, base: Seq<char>, line: usize, c: EdgeContextView, depth: usize)
    requires
        !has_prefix(base + star_suffix(), self_prefix()),
        !has_prefix(base + star_suffix(), super_prefix()),
    ensures
        resolve_path_spec(ctx, base + star_suffix(), line, c, depth) is Some <==> resolve_path_spec(ctx, base, line, c, depth) is Some,
        resolve_path_spec(ctx, base + star_suffix(), line, c, depth) matches Some(d) ==> (d.target_item == Some(seq!['*'])
            && (resolve_path_spec(ctx, base, line, c, depth) matches Some(b) && d.target_crate == b.target_crate && d.target_module
            == b.target_module && d.source_file == b.source_file && d.line == b.line && d.context == b.context)),
{
    let p = base + star_suffix();
    assert(has_suffix(p, star_suffix())) by {
        assert(p.skip(p.len() - 3) =~= star_suffix());
    }
    assert(p.take(p.len() - 3) =~= base);
    assert(!has_prefix(base, self_prefix())) by {
        if has_prefix(base, self_prefix()) {
            assert(p.take(self_prefix().len() as int) =~= base.take(self_prefix().len() as int));
        }
    }
    assert(!has_prefix(base, super_prefix())) by {
        if has_prefix(base, super_prefix()) {
            assert(p.take(super_prefix().len() as int) =~= base.take(super_prefix().len() as int));
        }
    }
}

fn resolve_absolute(ctx: &ResolutionContext, path: &String, line_num: usize, context: &EdgeContext) -> (r: Option<
    DependencyRef,
>)
    ensures
        r matches Some(d) ==> resolve_absolute_spec(*ctx, path@, line_num, context@) == Some(d@),
        r is None ==> resolve_absolute_spec(*ctx, path@, line_num, context@) is None,
    decreases path@.len(),
{
    let p = str_chars(path.as_str());
    let star = vec![':', ':', '*'];
    assert(star@ == star_suffix());
    if chars_have_suffix(&p, &star) {
        let base_len = p.len() - 3;
        let mut base: Vec<char> = Vec::new();
        let mut i: usize = 0;
        while i < base_len
            invariant
                base_len == p.len() - 3,
                i <= base_len,
                base@ =~= p@.take(i as int),
            decreases base_len - i,
        {
            base.push(p[i]);
            i = i + 1;
        }
        let base_s = string_from_chars(base.as_slice());
        assert(base_s@ =~= path@.take(path@.len() - 3));
        return match resolve_absolute(ctx, &base_s, line_num, context) {
            Some(d) => {
                let mut d = d;
                let star_v = vec!['*'];
                assert(star_v@ =~= seq!['*']);
                d.target_item = Some(string_from_chars(star_v.as_slice()));
                Some(d)
            },
            None => None,
        };
    }
    if let Some(d) = parse_crate_local_import(ctx, path.as_str(), line_num, context) {
        return Some(d);
    }
    if let Some(d) = parse_bare_module_import(ctx, path.as_str(), line_num, context) {
        return Some(d);
    }
    if let Some(d) = parse_workspace_import(ctx, path.as_str(), line_num, context) {
        return Some(d);
    }
    let sep_v = vec![':', ':'];
    assert(sep_v@ == sep());
    if !chars_contain(&p, &sep_v) && is_workspace_member(path.as_str(), ctx.workspace_crates) {
        let empty: Vec<char> = Vec::new();
        assert(empty@ =~= Seq::<char>::empty());
        return Some(make_dep(&p, &empty, None, ctx.source_file, line_num, context));
    }
    None
}

/// Resolves one path through the chain: relative paths, glob, crate-local,
/// bare module, workspace crate, bare workspace crate name.
pub fn resolve_single_path(
    ctx: &ResolutionContext,
    path: &str,
    line_num: usize,
    context: &EdgeContext,
    inline_depth: usize,
) -> (r: Option<DependencyRef>)
    ensures
        r matches Some(d) ==> resolve_path_spec(*ctx, path@, line_num, context@, inline_depth)
            == Some(d@),
        r is None ==> resolve_path_spec(*ctx, path@, line_num, context@, inline_depth) is None,
{
    let p = str_chars(path);
    let self_p = vec!['s', 'e', 'l', 'f', ':', ':'];
    let super_p = vec!['s', 'u', 'p', 'e', 'r', ':', ':'];
    assert(self_p@ == self_prefix());
    assert(super_p@ == super_prefix());
    if chars_have_prefix(&p, &self_p) || chars_have_prefix(&p, &super_p) {
        match resolve_relative_path(path, ctx.current_module_path, inline_depth) {
            Some(a) => {
                let mut full = vec!['c', 'r', 'a', 't', 'e', ':', ':'];
                let mut ac = str_chars(a.as_str());
                full.append(&mut ac);
                assert(full@ =~= crate_prefix() + a@);
                let fs = string_from_chars(full.as_slice());
                resolve_absolute(ctx, &fs, line_num, context)
            },
            None => None,
        }
    } else {
        let ps = string_from_chars(p.as_slice());
        resolve_absolute(ctx, &ps, line_num, context)
    }
}

/// A `use` tree, as written after `use`.
#[derive(Debug)]
pub enum UseTree {
    /// `segment::tree`
    Path(String, Box<UseTree>),
    /// `name`
    Name(String),
    /// `name as rename`
    Rename(String, String),
    /// `*`
    Glob,
    /// `{a, b, ...}`
    Group(Vec<UseTree>),
}

/// A `use` item with the line of its `use` keyword.
#[derive(Debug)]
pub struct UseItem {
    pub tree: UseTree,
    pub line: usize,
}

/// Fully qualified paths of a use tree under `prefix`; a rename is tracked
/// by its original name.
pub open spec fn use_tree_paths(t: UseTree, prefix: Seq<char>) -> Seq<Seq<char>>
    decreases t, 1int,
{
    match t {
        UseTree::Path(seg, sub) => use_tree_paths(*sub, under(prefix, seg@)),
        UseTree::Name(n) => seq![under(prefix, n@)],
        UseTree::Rename(n, _) => seq![under(prefix, n@)],
        UseTree::Glob => seq![under(prefix, seq!['*'])],
        UseTree::Group(items) => group_paths(items@, prefix),
    }
}

pub open spec fn group_paths(items: Seq<UseTree>, prefix: Seq<char>) -> Seq<Seq<char>>
    decreases items, 0int,
{
    if items.len() == 0 {
        Seq::empty()
    } else {
        group_paths(items.drop_last(), prefix) + use_tree_paths(items.last(), prefix)
    }
}

/// Flattens a use tree into fully qualified path strings.
pub fn resolve_use_tree(tree: &UseTree, prefix: &str) -> (r: Vec<String>)
    ensures
        r.deep_view() == use_tree_paths(*tree, prefix@),
    decreases tree, 1int,
{
    let pc = str_chars(prefix);
    match tree {
        UseTree::Path(seg, sub) => {
            let sc = str_chars(seg.as_str());
            let np = under_chars(&pc, &sc);
            let nps = string_from_chars(np.as_slice());
            let r = resolve_use_tree(sub, nps.as_str());
            assert(r.deep_view() == use_tree_paths(*tree, prefix@));
            r
        },
        UseTree::Name(n) => {
            let r = single_path(&pc, n.as_str());
            assert(r.deep_view() == use_tree_paths(*tree, prefix@));
            r
        },
        UseTree::Rename(n, _) => {
            let r = single_path(&pc, n.as_str());
            assert(r.deep_view() == use_tree_paths(*tree, prefix@));
            r
        },
        UseTree::Glob => {
            proof {
                reveal_strlit("*");
                assert("*"@ =~= seq!['*']);
            }
            let r = single_path(&pc, "*");
            assert(r.deep_view() == use_tree_paths(*tree, prefix@));
            r
        },
        UseTree::Group(items) => {
            let r = resolve_use_group(items, prefix);
            assert(r.deep_view() == use_tree_paths(*tree, prefix@));
            r
        },
    }
}

/// The one path `prefix::name`.
fn single_path(pc: &Vec<char>, name: &str) -> (r: Vec<String>)
    ensures
        r.deep_view() == seq![under(pc@, name@)],
{
    let nc = str_chars(name);
    let full = under_chars(pc, &nc);
    let mut out: Vec<String> = Vec::new();
    out.push(string_from_chars(full.as_slice()));
    assert(out.deep_view() =~= seq![full@]);
    out
}

/// Flattens the members of a `{..}` group, in order.
fn resolve_use_group(items: &Vec<UseTree>, prefix: &str) -> (r: Vec<String>)
    ensures
        r.deep_view() == group_paths(items@, prefix@),
    decreases items, 0int,
{
    let mut out: Vec<String> = Vec::new();
    let mut i: usize = 0;
    while i < items.len()
        invariant
            0 <= i <= items.len(),
            out.deep_view() == group_paths(items@.take(i as int), prefix@),
        decreases items.len() - i,
    {
        proof {
            assert(items@.take(i + 1).drop_last() =~= items@.take(i as int));
            assert(items@.take(i + 1).last() == items@[i as int]);
            broadcast use vstd::std_specs::vec::axiom_vec_index_decreases;
            assert(decreases_to!(*items => items[i as int]));
        }
        let mut sub = resolve_use_tree(&items[i], prefix);
        let ghost prev = out.deep_view();
        let ghost subv = sub.deep_view();
        out.append(&mut sub);
        assert(out.deep_view() =~= prev + subv);
        i = i + 1;
    }
    assert(items@.take(items.len() as int) =~= items@);
    out
}

} // verus!

verus! {

/// Resolutions of the paths of one source location, in order; paths that
/// resolve to nothing are left out.
pub open spec fn resolve_paths_spec(
    ctx: ResolutionContext,
    paths: Seq<Seq<char>>,
    line: usize,
    c: EdgeContextView,
    depth: usize,
) -> Seq<DependencyRefView>
    decreases paths.len(),
{
    if paths.len() == 0 {
        Seq::empty()
    } else {
        let prev = resolve_paths_spec(ctx, paths.drop_last(), line, c, depth);
        match resolve_path_spec(ctx, paths.last(), line, c, depth) {
            Some(d) => prev.push(d),
            None => prev,
        }
    }
}

/// Resolutions of path references `(path, line, context, inline depth)`, in order.
pub open spec fn path_ref_resolutions(
    ctx: ResolutionContext,
    refs: Seq<(String, usize, EdgeContext, usize)>,
) -> Seq<DependencyRefView>
    decreases refs.len(),
{
    if refs.len() == 0 {
        Seq::empty()
    } else {
        let prev = path_ref_resolutions(ctx, refs.drop_last());
        let r = refs.last();
        match resolve_path_spec(ctx, r.0@, r.1, r.2@, r.3) {
            Some(d) => prev.push(d),
            None => prev,
        }
    }
}

/// Resolutions of `use` items `(item, context, inline depth)`: every path
/// of every use tree, in order.
pub open spec fn use_item_resolutions(
    ctx: ResolutionContext,
    uses: Seq<(UseItem, EdgeContext, usize)>,
) -> Seq<DependencyRefView>
    decreases uses.len(),
{
    if uses.len() == 0 {
        Seq::empty()
    } else {
        let u = uses.last();
        use_item_resolutions(ctx, uses.drop_last()) + resolve_paths_spec(
            ctx,
            use_tree_paths(u.0.tree, Seq::empty()),
            u.0.line,
            u.1@,
            u.2,
        )
    }
}

/// Resolves path references into workspace dependencies; one entry per
/// `(full target, kind)`, whose features are those of every reference to it.
pub fn parse_path_ref_dependencies(
    paths: &Vec<(String, usize, EdgeContext, usize)>,
    ctx: &ResolutionContext,
) -> (r: Vec<DependencyRef>)
    ensures
        dep_views(r@) == merge_all(Seq::empty(), path_ref_resolutions(*ctx, paths@)),
        keys_unique(r@),
{
    let mut deps: Vec<DependencyRef> = Vec::new();
    let mut seen: SeenIndex = Vec::new();
    let mut i: usize = 0;
    assert(paths@.take(0) =~= Seq::<(String, usize, EdgeContext, usize)>::empty());
    assert(dep_views(deps@) =~= Seq::<DependencyRefView>::empty());
    while i < paths.len()
        invariant
            0 <= i <= paths.len(),
            seen_consistent(deps@, seen@),
            keys_unique(deps@),
            dep_views(deps@) == merge_all(Seq::empty(), path_ref_resolutions(*ctx, paths@.take(i as int))),
        decreases paths.len() - i,
    {
        let ghost prev = path_ref_resolutions(*ctx, paths@.take(i as int));
        assert(paths@.take(i + 1).drop_last() =~= paths@.take(i as int));
        assert(paths@.take(i + 1).last() == paths@[i as int]);
        let (ref path, line, ref context, depth) = paths[i];
        match resolve_single_path(ctx, path.as_str(), line, context, depth) {
            Some(dep) => {
                let ghost dv = dep@;
                DependencyRef::merge_into(&mut deps, &mut seen, dep);
                assert(prev.push(dv).drop_last() =~= prev);
            },
            None => {},
        }
        i = i + 1;
    }
    assert(paths@.take(paths.len() as int) =~= paths@);
    deps
}

/// Resolves the paths of one use tree and merges them into `deps`.
fn merge_use_paths(
    deps: &mut Vec<DependencyRef>,
    seen: &mut SeenIndex,
    ctx: &ResolutionContext,
    paths: &Vec<String>,
    line: usize,
    context: &EdgeContext,
    depth: usize,
)
    requires
        seen_consistent(old(deps)@, old(seen)@),
        keys_unique(old(deps)@),
    ensures
        seen_consistent(final(deps)@, final(seen)@),
        keys_unique(final(deps)@),
        dep_views(final(deps)@) == merge_all(
            dep_views(old(deps)@),
            resolve_paths_spec(*ctx, paths.deep_view(), line, context@, depth),
        ),
{
    let ghost start = dep_views(deps@);
    let mut j: usize = 0;
    assert(paths.deep_view().take(0) =~= Seq::<Seq<char>>::empty());
    while j < paths.len()
        invariant
            0 <= j <= paths.len(),
            seen_consistent(deps@, seen@),
            keys_unique(deps@),
            dep_views(deps@) == merge_all(
                start,
                resolve_paths_spec(*ctx, paths.deep_view().take(j as int), line, context@, depth),
            ),
        decreases paths.len() - j,
    {
        let ghost pv = paths.deep_view();
        let ghost prev = resolve_paths_spec(*ctx, pv.take(j as int), line, context@, depth);
        assert(pv.take(j + 1).drop_last() =~= pv.take(j as int));
        assert(pv.take(j + 1).last() == paths@[j as int]@);
        match resolve_single_path(ctx, paths[j].as_str(), line, context, depth) {
            Some(dep) => {
                let ghost dv = dep@;
                DependencyRef::merge_into(deps, seen, dep);
                assert(prev.push(dv).drop_last() =~= prev);
            },
            None => {},
        }
        j = j + 1;
    }
    assert(paths.deep_view().take(paths.len() as int) =~= paths.deep_view());
}

/// Resolves `use` items into workspace dependencies; one entry per
/// `(full target, kind)`, whose features are those of every use of it.
pub fn parse_workspace_dependencies(
    uses: &Vec<(UseItem, EdgeContext, usize)>,
    ctx: &ResolutionContext,
) -> (r: Vec<DependencyRef>)
    ensures
        dep_views(r@) == merge_all(Seq::empty(), use_item_resolutions(*ctx, uses@)),
        keys_unique(r@),
{
    let mut deps: Vec<DependencyRef> = Vec::new();
    let mut seen: SeenIndex = Vec::new();
    let mut i: usize = 0;
    assert(uses@.take(0) =~= Seq::<(UseItem, EdgeContext, usize)>::empty());
    assert(dep_views(deps@) =~= Seq::<DependencyRefView>::empty());
    while i < uses.len()
        invariant
            0 <= i <= uses.len(),
            seen_consistent(deps@, seen@),
            keys_unique(deps@),
            dep_views(deps@) == merge_all(Seq::empty(), use_item_resolutions(*ctx, uses@.take(i as int))),
        decreases uses.len() - i,
    {
        let ghost prev = use_item_resolutions(*ctx, uses@.take(i as int));
        assert(uses@.take(i + 1).drop_last() =~= uses@.take(i as int));
        assert(uses@.take(i + 1).last() == uses@[i as int]);
        let (ref item, ref context, depth) = uses[i];
        let paths = resolve_use_tree(&item.tree, "");
        proof {
            reveal_strlit("");
            assert(""@ =~= Seq::<char>::empty());
        }
        let ghost before = dep_views(deps@);
        merge_use_paths(&mut deps, &mut seen, ctx, &paths, item.line, context, depth);
        proof {
            lemma_merge_all_concat(
                Seq::empty(),
                prev,
                resolve_paths_spec(*ctx, paths.deep_view(), item.line, context@, depth),
            );
        }
        i = i + 1;
    }
    assert(uses@.take(uses.len() as int) =~= uses@);
    deps
}

/// The context inside an item or inline module: a test context under
/// `#[cfg(test)]`, the surrounding one otherwise.
pub fn scoped_context(base: &EdgeContext, cfg_test: bool) -> (r: EdgeContext)
    ensures
        r@ == (if cfg_test {
            promote_to_test_spec(base@)
        } else {
            base@
        }),
{
    if cfg_test {
        promote_to_test(base)
    } else {
        base.clone()
    }
}

/// A path reference: its segments joined by `::`, with its line, context
/// and inline-module depth; none for a path of fewer than two segments.
pub fn path_reference(segments: &Vec<String>, line: usize, context: &EdgeContext, depth: usize) -> (r: Option<(String, usize, EdgeContext, usize)>)
    ensures
        r is None <==> segments.len() < 2,
        r matches Some(t) ==> t.0@ == join_path(segments.deep_view()) && t.1 == line && t.2@ == context@ && t.3 == depth,
{
    if segments.len() < 2 {
        return None;
    }
    let mut parts: Vec<Vec<char>> = Vec::new();
    let mut i: usize = 0;
    while i < segments.len()
        invariant
            0 <= i <= segments.len(),
            parts.len() == i,
            forall|k: int| 0 <= k < i ==> #[trigger] parts@[k]@ == segments@[k]@,
        decreases segments.len() - i,
    {
        parts.push(str_chars(segments[i].as_str()));
        i = i + 1;
    }
    assert forall|k: int| 0 <= k < parts.len() implies #[trigger] parts.deep_view()[k] == segments.deep_view()[k] by {
        assert(parts@[k]@ == segments@[k]@);
    }
    assert(parts.deep_view() =~= segments.deep_view());
    let joined = join_path_chars(&parts, parts.len());
    assert(parts.deep_view().take(parts.len() as int) =~= parts.deep_view());
    Some((string_from_chars(joined.as_slice()), line, context.clone(), depth))
}

/// Whether an attribute named `name`, whose nested entries are `nested`,
/// is `#[cfg(test)]`.
pub fn is_cfg_test_attribute(name: &str, nested: &Vec<String>) -> (r: bool)
    ensures
        r == (name@ == "cfg"@ && nested.deep_view().contains("test"@)),
{
    if !str_eq(name, "cfg") {
        return false;
    }
    let mut i: usize = 0;
    while i < nested.len()
        invariant
            name@ == "cfg"@,
            0 <= i <= nested.len(),
            forall|k: int| 0 <= k < i ==> nested@[k]@ != "test"@,
        decreases nested.len() - i,
    {
        if str_eq(nested[i].as_str(), "test") {
            assert(nested.deep_view()[i as int] == "test"@);
            return true;
        }
        i = i + 1;
    }
    assert(!nested.deep_view().contains("test"@)) by {
        if nested.deep_view().contains("test"@) {
            let k = choose|k: int| 0 <= k < nested.len() && nested.deep_view()[k] == "test"@;
            assert(nested@[k]@ == nested.deep_view()[k]);
        }
    }
    false
}

} // verus!
