//! Shared data structures of the analysis and graph layers.

use vstd::prelude::*;
use crate::strings::{
    has_prefix, hyphen_to_underscore, normalize_chars, path_concat, push_str, str_chars, str_eq,
    string_from_chars,
};

verus! {

/// Where a module dependency was found in source.
#[derive(Debug, Clone)]
pub struct SourceLocation {
    pub file: String,
    pub line: usize,
    pub symbols: Vec<String>,
    pub mod_path: String,
}

pub struct SourceLocationView {
    pub file: Seq<char>,
    pub line: usize,
    pub symbols: Seq<Seq<char>>,
    pub mod_path: Seq<char>,
}

impl View for SourceLocation {
    type V = SourceLocationView;

    open spec fn view(&self) -> SourceLocationView {
        SourceLocationView {
            file: self.file@,
            line: self.line,
            symbols: self.symbols.deep_view(),
            mod_path: self.mod_path@,
        }
    }
}

/// Crate name with every `-` replaced by `_`.
pub fn normalize_crate_name(name: &str) -> (r: String)
    ensures
        r@ == hyphen_to_underscore(name@),
{
    let cs = str_chars(name);
    let n = normalize_chars(&cs);
    string_from_chars(n.as_slice())
}

/// Normalizing a name twice gives the same result as normalizing it once.
pub proof fn lemma_normalize_idempotent(s: Seq<char>)
    ensures
        hyphen_to_underscore(hyphen_to_underscore(s)) == hyphen_to_underscore(s),
{
    assert(hyphen_to_underscore(hyphen_to_underscore(s)) =~= hyphen_to_underscore(s));
}

/// Two spellings of a crate name that differ only in `-` against `_` are
/// the same crate: once one is inserted, the set contains the other.
pub proof fn law_crates_spelling_insensitive(s: Set<Seq<char>>, name: Seq<char>, alias: Seq<char>)
    requires
        alias.len() == name.len(),
        forall|i: int|
            0 <= i < name.len() ==> #[trigger] alias[i] == name[i] || (alias[i] == '-' && name[i] == '_') || (
            alias[i] == '_' && name[i] == '-'),
    ensures
        hyphen_to_underscore(alias) == hyphen_to_underscore(name),
        s.insert(hyphen_to_underscore(name)).contains(hyphen_to_underscore(alias)),
{
    assert(hyphen_to_underscore(alias) =~= hyphen_to_underscore(name));
}

/// A normalized name holds no `-`.
pub open spec fn is_normalized(s: Seq<char>) -> bool {
    forall|i: int| 0 <= i < s.len() ==> s[i] != '-'
}

/// A list of normalized names gives a finite set of normalized names.
proof fn lemma_stored_names(names: Seq<Seq<char>>)
    requires
        forall|i: int| 0 <= i < names.len() ==> is_normalized(#[trigger] names[i]),
    ensures
        names.to_set().finite(),
        forall|s: Seq<char>| #[trigger] names.to_set().contains(s) ==> is_normalized(s),
{
    broadcast use vstd::seq_lib::seq_to_set_is_finite;
    assert forall|s: Seq<char>| #[trigger] names.to_set().contains(s) implies is_normalized(s) by {
        let i = choose|i: int| 0 <= i < names.len() && names[i] == s;
    }
}

/// A name with every `-` replaced holds no `-`.
proof fn lemma_hyphen_to_underscore_normalized(s: Seq<char>)
    ensures
        is_normalized(hyphen_to_underscore(s)),
{
}

/// Workspace crate names, stored in normalized form (hyphens become underscores).
#[derive(Debug)]
pub struct WorkspaceCrates {
    names: Vec<String>,
}

impl View for WorkspaceCrates {
    type V = Set<Seq<char>>;

    closed spec fn view(&self) -> Set<Seq<char>> {
        self.names.deep_view().to_set()
    }
}

impl Clone for WorkspaceCrates {
    fn clone(&self) -> (r: Self)
        ensures
            r@ == self@,
    {
        proof {
            use_type_invariant(self);
        }
        let names = self.names.clone();
        assert(names@ =~= self.names@);
        WorkspaceCrates { names }
    }
}

impl WorkspaceCrates {
    #[verifier::type_invariant]
    closed spec fn wf(self) -> bool {
        &&& self.names.deep_view().no_duplicates()
        &&& forall|i: int|
            0 <= i < self.names.len() ==> is_normalized(#[trigger] self.names@[i]@)
    }

    /// The empty set of workspace crates.
    pub fn new() -> (r: Self)
        ensures
            r@ == Set::<Seq<char>>::empty(),
    {
        let r = WorkspaceCrates { names: Vec::new() };
        assert(r.names.deep_view().to_set() =~= Set::<Seq<char>>::empty());
        r
    }

    /// The set of the normalized forms of `names`.
    pub fn from_names(names: Vec<String>) -> (r: Self)
        ensures
            r@ == names.deep_view().to_set().map(|s: Seq<char>| hyphen_to_underscore(s)),
    {
        let mut r = WorkspaceCrates::new();
        let mut i: usize = 0;
        while i < names.len()
            invariant
                0 <= i <= names.len(),
                r@ == names.deep_view().take(i as int).to_set().map(
                    |s: Seq<char>| hyphen_to_underscore(s),
                ),
            decreases names.len() - i,
        {
            let ghost before = r@;
            let name = names[i].clone();
            r.insert(name);
            proof {
                let f = |s: Seq<char>| hyphen_to_underscore(s);
                let a = names.deep_view().take(i as int);
                let b = names.deep_view().take(i + 1);
                assert(b =~= a.push(names@[i as int]@));
                a.lemma_push_to_set_commute(names@[i as int]@);
                a.to_set().lemma_set_map_insert_commute(names@[i as int]@, f);
            }
            i = i + 1;
        }
        assert(names.deep_view().take(names.len() as int) =~= names.deep_view());
        r
    }

    /// Adds the normalized `name`; true when it was not present. The count
    /// of crates grows by one exactly then; every stored name is normalized.
    pub fn insert(&mut self, name: String) -> (r: bool)
        ensures
            r == !old(self)@.contains(hyphen_to_underscore(name@)),
            final(self)@ == old(self)@.insert(hyphen_to_underscore(name@)),
            final(self)@.len() == old(self)@.len() + if r { 1nat } else { 0nat },
            forall|s: Seq<char>| #[trigger] final(self)@.contains(s) ==> is_normalized(s),
    {
        proof {
            use_type_invariant(&*self);
            lemma_stored_names(self.names.deep_view());
        }
        let norm = normalize_crate_name(name.as_str());
        if self.contains_normalized(&norm) {
            assert(self@.insert(norm@) =~= self@);
            proof {
                lemma_hyphen_to_underscore_normalized(name@);
            }
            return false;
        }
        let ghost old_names = self.names.deep_view();
        let mut names = Vec::new();
        std::mem::swap(&mut names, &mut self.names);
        names.push(norm);
        proof {
            assert(names.deep_view() =~= old_names.push(hyphen_to_underscore(name@)));
            assert forall|i: int| 0 <= i < names.len() implies is_normalized(
                #[trigger] names@[i]@,
            ) by {
                if i < old_names.len() {
                    assert(old_names[i] == names@[i]@);
                } else {
                    assert(names@[i]@ == hyphen_to_underscore(name@));
                }
            }
            old_names.lemma_push_to_set_commute(hyphen_to_underscore(name@));
            assert(!old_names.contains(hyphen_to_underscore(name@)));
            assert(names.deep_view().no_duplicates());
            lemma_stored_names(names.deep_view());
            lemma_hyphen_to_underscore_normalized(name@);
        }
        self.names = names;
        true
    }

    /// Whether an already normalized name is present.
    fn contains_normalized(&self, norm: &String) -> (r: bool)
        ensures
            r == self@.contains(norm@),
    {
        let mut i: usize = 0;
        while i < self.names.len()
            invariant
                0 <= i <= self.names.len(),
                forall|j: int| 0 <= j < i ==> self.names@[j]@ != norm@,
            decreases self.names.len() - i,
        {
            if self.names[i] == *norm {
                assert(self.names.deep_view()[i as int] == norm@);
                return true;
            }
            i = i + 1;
        }
        assert(!self.names.deep_view().contains(norm@));
        false
    }

    /// Membership, normalizing the input name.
    pub fn contains(&self, name: &str) -> (r: bool)
        ensures
            r == self@.contains(hyphen_to_underscore(name@)),
    {
        let norm = normalize_crate_name(name);
        self.contains_normalized(&norm)
    }

    /// The stored (normalized) names, each once.
    pub fn iter(&self) -> (r: std::slice::Iter<'_, String>)
        ensures
            vstd::std_specs::slice::into_iter_elts(r).map_values(|s: String| s@).to_set()
                == self@,
            vstd::std_specs::slice::into_iter_elts(r).map_values(|s: String| s@).no_duplicates(),
    {
        proof {
            use_type_invariant(self);
        }
        let r = self.names.iter();
        proof {
            broadcast use vstd::std_specs::slice::axiom_spec_slice_iter;
            assert(vstd::std_specs::slice::into_iter_elts(r) =~= self.names@);
            assert(self.names@.map_values(|s: String| s@) =~= self.names.deep_view());
        }
        r
    }

    /// The stored (normalized) names, each once.
    pub fn to_vec(&self) -> (r: Vec<String>)
        ensures
            r.deep_view().to_set() == self@,
            r.deep_view().no_duplicates(),
    {
        proof {
            use_type_invariant(self);
        }
        let r = self.names.clone();
        assert(r.deep_view() =~= self.names.deep_view()) by {
            assert(r@ =~= self.names@);
        }
        r
    }

    /// Number of distinct crates.
    pub fn len(&self) -> (r: usize)
        ensures
            r == self@.len(),
            self@.finite(),
            forall|s: Seq<char>| #[trigger] self@.contains(s) ==> is_normalized(s),
    {
        proof {
            use_type_invariant(self);
            lemma_stored_names(self.names.deep_view());
            self.names.deep_view().unique_seq_to_set();
        }
        self.names.len()
    }

    /// Whether no crate is stored.
    pub fn is_empty(&self) -> (r: bool)
        ensures
            r == (self@.len() == 0),
    {
        self.len() == 0
    }
}

/// Map view of an association list of name sets: a later entry for a key
/// replaces an earlier one (as collecting pairs into a `HashMap`).
pub open spec fn pairs_to_map(s: Seq<(String, Vec<String>)>) -> Map<Seq<char>, Set<Seq<char>>>
    decreases s.len(),
{
    if s.len() == 0 {
        Map::empty()
    } else {
        pairs_to_map(s.drop_last()).insert(s.last().0@, s.last().1.deep_view().to_set())
    }
}

proof fn lemma_pairs_to_map_skip_tail(s: Seq<(String, Vec<String>)>, i: int, k: Seq<char>)
    requires
        0 <= i <= s.len(),
        forall|j: int| i <= j < s.len() ==> s[j].0@ != k,
    ensures
        pairs_to_map(s).contains_key(k) == pairs_to_map(s.take(i)).contains_key(k),
        pairs_to_map(s).contains_key(k) ==> pairs_to_map(s)[k] == pairs_to_map(s.take(i))[k],
    decreases s.len() - i,
{
    if i == s.len() {
        assert(s.take(i) =~= s);
    } else {
        lemma_pairs_to_map_skip_tail(s.drop_last(), i, k);
        assert(s.drop_last().take(i) =~= s.take(i));
    }
}

proof fn lemma_pairs_to_map_hit(s: Seq<(String, Vec<String>)>, i: int, k: Seq<char>)
    requires
        0 <= i < s.len(),
        s[i].0@ == k,
        forall|j: int| i < j < s.len() ==> s[j].0@ != k,
    ensures
        pairs_to_map(s).contains_key(k),
        pairs_to_map(s)[k] == s[i].1.deep_view().to_set(),
{
    lemma_pairs_to_map_skip_tail(s, i + 1, k);
    assert(s.take(i + 1).drop_last() =~= s.take(i));
    assert(s.take(i + 1).last() == s[i]);
}

/// Last entry of `entries` whose key is `key`, if any.
pub(crate) fn find_last_entry<'a>(entries: &'a Vec<(String, Vec<String>)>, key: &str) -> (r: Option<
    &'a Vec<String>,
>)
    ensures
        r is None <==> !pairs_to_map(entries@).contains_key(key@),
        r matches Some(v) ==> v.deep_view().to_set() == pairs_to_map(entries@)[key@],
{
    let mut i: usize = entries.len();
    while i > 0
        invariant
            i <= entries.len(),
            forall|j: int| i <= j < entries.len() ==> entries@[j].0@ != key@,
        decreases i,
    {
        if str_eq(entries[i - 1].0.as_str(), key) {
            proof {
                lemma_pairs_to_map_hit(entries@, i - 1, key@);
            }
            return Some(&entries[i - 1].1);
        }
        i = i - 1;
    }
    proof {
        lemma_pairs_to_map_skip_tail(entries@, 0, key@);
        assert(entries@.take(0) =~= Seq::<(String, Vec<String>)>::empty());
    }
    None
}

/// Crate name to the set of its module paths (such as `analyze::hir`).
#[derive(Debug, Clone)]
pub struct ModulePathMap {
    entries: Vec<(String, Vec<String>)>,
}

impl View for ModulePathMap {
    type V = Map<Seq<char>, Set<Seq<char>>>;

    closed spec fn view(&self) -> Map<Seq<char>, Set<Seq<char>>> {
        pairs_to_map(self.entries@)
    }
}

impl ModulePathMap {
    /// The map with the given entries; a later entry for a key replaces an earlier one.
    pub fn from_entries(entries: Vec<(String, Vec<String>)>) -> (r: Self)
        ensures
            r@ == pairs_to_map(entries@),
    {
        ModulePathMap { entries }
    }

    /// The module paths of a crate, if the crate is known.
    pub fn get(&self, key: &str) -> (r: Option<&Vec<String>>)
        ensures
            r is None <==> !self@.contains_key(key@),
            r matches Some(v) ==> v.deep_view().to_set() == self@[key@],
    {
        find_last_entry(&self.entries, key)
    }

    /// The module paths of a crate, or an empty set if unknown.
    pub fn get_or_empty(&self, key: &str) -> (r: Vec<String>)
        ensures
            self@.contains_key(key@) ==> r.deep_view().to_set() == self@[key@],
            !self@.contains_key(key@) ==> r.len() == 0,
    {
        match self.get(key) {
            Some(v) => {
                let c = v.clone();
                assert(c.deep_view() =~= v.deep_view());
                c
            },
            None => Vec::new(),
        }
    }
}

/// Crate name to the set of symbols its entry point exports.
#[derive(Debug, Clone)]
pub struct CrateExportMap {
    entries: Vec<(String, Vec<String>)>,
}

impl View for CrateExportMap {
    type V = Map<Seq<char>, Set<Seq<char>>>;

    closed spec fn view(&self) -> Map<Seq<char>, Set<Seq<char>>> {
        pairs_to_map(self.entries@)
    }
}

impl CrateExportMap {
    /// The map with the given entries; a later entry for a key replaces an earlier one.
    pub fn from_entries(entries: Vec<(String, Vec<String>)>) -> (r: Self)
        ensures
            r@ == pairs_to_map(entries@),
    {
        CrateExportMap { entries }
    }

    /// The exports of a crate, if the crate is known.
    pub fn get(&self, key: &str) -> (r: Option<&Vec<String>>)
        ensures
            r is None <==> !self@.contains_key(key@),
            r matches Some(v) ==> v.deep_view().to_set() == self@[key@],
    {
        find_last_entry(&self.entries, key)
    }
}

} // verus!

verus! {

#[derive(Debug, Clone, Copy, PartialEq, Eq, Hash, Structural)]
pub enum TestKind {
    Unit,
    Integration,
}

#[derive(Debug, Clone, Copy, PartialEq, Eq, Hash, Structural)]
pub enum DependencyKind {
    Production,
    Test(TestKind),
    Build,
}

/// The `kind` string of the JS serialization.
pub open spec fn kind_js_spec(k: DependencyKind) -> Seq<char> {
    match k {
        DependencyKind::Production => "production"@,
        DependencyKind::Test(_) => "test"@,
        DependencyKind::Build => "build"@,
    }
}

/// The `subKind` string of the JS serialization.
pub open spec fn sub_kind_js_spec(k: DependencyKind) -> Option<Seq<char>> {
    match k {
        DependencyKind::Test(TestKind::Unit) => Some("unit"@),
        DependencyKind::Test(TestKind::Integration) => Some("integration"@),
        _ => None,
    }
}

impl DependencyKind {
    pub fn kind_js(&self) -> (r: &'static str)
        ensures
            r@ == kind_js_spec(*self),
    {
        match self {
            DependencyKind::Production => "production",
            DependencyKind::Test(_) => "test",
            DependencyKind::Build => "build",
        }
    }

    pub fn sub_kind_js(&self) -> (r: Option<&'static str>)
        ensures
            r is Some == sub_kind_js_spec(*self) is Some,
            r matches Some(s) ==> s@ == sub_kind_js_spec(*self)->0,
    {
        match self {
            DependencyKind::Test(TestKind::Unit) => Some("unit"),
            DependencyKind::Test(TestKind::Integration) => Some("integration"),
            _ => None,
        }
    }
}

/// Kind of a dependency edge and the features it is gated on.
#[derive(Debug, PartialEq, Eq)]
pub struct EdgeContext {
    pub kind: DependencyKind,
    pub features: Vec<String>,
}

pub struct EdgeContextView {
    pub kind: DependencyKind,
    pub features: Seq<Seq<char>>,
}

impl View for EdgeContext {
    type V = EdgeContextView;

    open spec fn view(&self) -> EdgeContextView {
        EdgeContextView { kind: self.kind, features: self.features.deep_view() }
    }
}

/// Copies a list of strings.
pub fn clone_strings(v: &Vec<String>) -> (r: Vec<String>)
    ensures
        r.deep_view() == v.deep_view(),
{
    let r = v.clone();
    assert(r@ =~= v@);
    assert(r.deep_view() =~= v.deep_view());
    r
}

impl Clone for EdgeContext {
    fn clone(&self) -> (r: Self)
        ensures
            r@ == self@,
    {
        EdgeContext { kind: self.kind, features: clone_strings(&self.features) }
    }
}

/// `"s"`
pub open spec fn quoted(s: Seq<char>) -> Seq<char> {
    seq!['"'] + s + seq!['"']
}

/// Quoted strings joined with `, `.
pub open spec fn join_quoted(fs: Seq<Seq<char>>) -> Seq<char>
    decreases fs.len(),
{
    if fs.len() == 0 {
        Seq::empty()
    } else if fs.len() == 1 {
        quoted(fs[0])
    } else {
        join_quoted(fs.drop_last()) + ", "@ + quoted(fs.last())
    }
}

/// The JS object literal of an edge context.
pub open spec fn format_js_spec(c: EdgeContextView) -> Seq<char> {
    "{ kind: \""@ + kind_js_spec(c.kind) + "\", subKind: "@ + (match sub_kind_js_spec(c.kind) {
        Some(s) => quoted(s),
        None => "null"@,
    }) + ", features: ["@ + join_quoted(c.features) + "] }"@
}

impl EdgeContext {
    pub fn production() -> (r: Self)
        ensures
            r@.kind == DependencyKind::Production,
            r@.features.len() == 0,
    {
        EdgeContext { kind: DependencyKind::Production, features: Vec::new() }
    }

    pub fn test(kind: TestKind) -> (r: Self)
        ensures
            r@.kind == DependencyKind::Test(kind),
            r@.features.len() == 0,
    {
        EdgeContext { kind: DependencyKind::Test(kind), features: Vec::new() }
    }

    pub fn build() -> (r: Self)
        ensures
            r@.kind == DependencyKind::Build,
            r@.features.len() == 0,
    {
        EdgeContext { kind: DependencyKind::Build, features: Vec::new() }
    }

    /// Serializes to a JS object literal.
    pub fn format_js(&self) -> (r: String)
        ensures
            r@ == format_js_spec(self@),
    {
        let mut out: Vec<char> = Vec::new();
        push_str(&mut out, "{ kind: \"");
        push_str(&mut out, self.kind.kind_js());
        push_str(&mut out, "\", subKind: ");
        match self.kind.sub_kind_js() {
            Some(s) => {
                out.push('"');
                push_str(&mut out, s);
                out.push('"');
            },
            None => {
                push_str(&mut out, "null");
            },
        }
        push_str(&mut out, ", features: [");
        let ghost before = out@;
        let mut i: usize = 0;
        while i < self.features.len()
            invariant
                0 <= i <= self.features.len(),
                out@ == before + join_quoted(self.features.deep_view().take(i as int)),
            decreases self.features.len() - i,
        {
            let ghost prev = out@;
            let ghost fs = self.features.deep_view();
            assert(fs.take(i + 1).drop_last() =~= fs.take(i as int));
            assert(fs.take(i + 1).last() == self.features@[i as int]@);
            if i > 0 {
                push_str(&mut out, ", ");
            }
            out.push('"');
            push_str(&mut out, self.features[i].as_str());
            out.push('"');
            if i == 0 {
                assert(out@ =~= before + join_quoted(fs.take(1)));
            } else {
                assert(out@ =~= before + join_quoted(fs.take(i + 1)));
            }
            i = i + 1;
        }
        assert(self.features.deep_view().take(self.features.len() as int)
            =~= self.features.deep_view());
        push_str(&mut out, "] }");
        proof {
            let mid = match sub_kind_js_spec(self.kind) {
                Some(s) => quoted(s),
                None => "null"@,
            };
            assert(out@ =~= format_js_spec(self@));
        }
        string_from_chars(out.as_slice())
    }
}

/// A workspace crate and its workspace-internal dependencies.
#[derive(Debug, Clone)]
pub struct CrateInfo {
    pub name: String,
    pub path: String,
    pub dependencies: Vec<String>,
    pub dev_dependencies: Vec<String>,
}

/// A use of another module or crate found in source.
#[derive(Debug, PartialEq)]
pub struct DependencyRef {
    pub target_crate: String,
    pub target_module: String,
    pub target_item: Option<String>,
    pub source_file: String,
    pub line: usize,
    pub context: EdgeContext,
}

pub struct DependencyRefView {
    pub target_crate: Seq<char>,
    pub target_module: Seq<char>,
    pub target_item: Option<Seq<char>>,
    pub source_file: Seq<char>,
    pub line: usize,
    pub context: EdgeContextView,
}

pub open spec fn opt_view(o: Option<String>) -> Option<Seq<char>> {
    match o {
        Some(s) => Some(s@),
        None => None,
    }
}

impl View for DependencyRef {
    type V = DependencyRefView;

    open spec fn view(&self) -> DependencyRefView {
        DependencyRefView {
            target_crate: self.target_crate@,
            target_module: self.target_module@,
            target_item: opt_view(self.target_item),
            source_file: self.source_file@,
            line: self.line,
            context: self.context@,
        }
    }
}

/// Copies an optional string.
pub fn clone_opt_string(o: &Option<String>) -> (r: Option<String>)
    ensures
        opt_view(r) == opt_view(*o),
{
    match o {
        Some(s) => Some(s.clone()),
        None => None,
    }
}

impl Clone for DependencyRef {
    fn clone(&self) -> (r: Self)
        ensures
            r@ == self@,
    {
        DependencyRef {
            target_crate: self.target_crate.clone(),
            target_module: self.target_module.clone(),
            target_item: clone_opt_string(&self.target_item),
            source_file: self.source_file.clone(),
            line: self.line,
            context: self.context.clone(),
        }
    }
}

/// `crate::module` or just `crate` for an entry-point target.
pub open spec fn module_target_spec(krate: Seq<char>, module: Seq<char>) -> Seq<char> {
    if module.len() == 0 {
        krate
    } else {
        path_concat(krate, module)
    }
}

/// `crate::module::item`, leaving out the parts that are absent.
pub open spec fn full_target_spec(krate: Seq<char>, module: Seq<char>, item: Option<Seq<char>>) -> Seq<
    char,
> {
    match item {
        Some(i) => path_concat(module_target_spec(krate, module), i),
        None => module_target_spec(krate, module),
    }
}

pub open spec fn dep_full_target(d: DependencyRefView) -> Seq<char> {
    full_target_spec(d.target_crate, d.target_module, d.target_item)
}

pub open spec fn dep_module_target(d: DependencyRefView) -> Seq<char> {
    module_target_spec(d.target_crate, d.target_module)
}

/// The module target is the full target without its item.
pub proof fn lemma_full_target_extends_module_target(d: DependencyRefView)
    ensures
        d.target_item is None ==> dep_full_target(d) == dep_module_target(d),
        d.target_item matches Some(i) ==> dep_full_target(d) == dep_module_target(d) + seq![
            ':',
            ':',
        ] + i,
        has_prefix(dep_full_target(d), dep_module_target(d)),
{
    let m = dep_module_target(d);
    let f = dep_full_target(d);
    assert(f.take(m.len() as int) =~= m);
}

/// Whether a dependency key is `(full target, kind)` of some listed dependency.
pub open spec fn dep_key(d: DependencyRefView) -> (Seq<char>, DependencyKind) {
    (dep_full_target(d), d.context.kind)
}

impl DependencyRef {
    /// `crate::module::item`, `crate::module`, `crate::item` or `crate`.
    pub fn full_target(&self) -> (r: String)
        ensures
            r@ == dep_full_target(self@),
    {
        let mut out = str_chars(self.target_crate.as_str());
        if !self.target_module.as_str().is_empty() {
            push_str(&mut out, "::");
            push_str(&mut out, self.target_module.as_str());
        }
        proof {
            vstd::string::axiom_str_literal_len("::");
        }
        match &self.target_item {
            Some(item) => {
                push_str(&mut out, "::");
                push_str(&mut out, item.as_str());
            },
            None => {},
        }
        proof {
            reveal_strlit("::");
            assert(out@ =~= dep_full_target(self@));
        }
        string_from_chars(out.as_slice())
    }

    /// `crate::module`, or just `crate` for an entry-point target.
    pub fn module_target(&self) -> (r: String)
        ensures
            r@ == dep_module_target(self@),
    {
        let mut out = str_chars(self.target_crate.as_str());
        if !self.target_module.as_str().is_empty() {
            push_str(&mut out, "::");
            push_str(&mut out, self.target_module.as_str());
        }
        proof {
            reveal_strlit("::");
            assert(out@ =~= dep_module_target(self@));
        }
        string_from_chars(out.as_slice())
    }
}

/// A module with its children and the dependencies found in its source.
#[derive(Debug)]
pub struct ModuleInfo {
    pub name: String,
    pub full_path: String,
    pub children: Vec<ModuleInfo>,
    pub dependencies: Vec<DependencyRef>,
}

#[derive(Debug)]
pub struct ModuleTree {
    pub root: ModuleInfo,
}

} // verus!

verus! {

/// Index of dependencies by `(full target, kind)`.
pub type SeenIndex = Vec<(String, DependencyKind, usize)>;

pub open spec fn seen_key(e: (String, DependencyKind, usize)) -> (Seq<char>, DependencyKind) {
    (e.0@, e.1)
}

/// The position that the first entry for `key` records.
pub open spec fn seen_lookup(seen: Seq<(String, DependencyKind, usize)>, key: (Seq<char>, DependencyKind)) -> Option<
    usize,
>
    decreases seen.len(),
{
    if seen.len() == 0 {
        None
    } else if seen_key(seen[0]) == key {
        Some(seen[0].2)
    } else {
        seen_lookup(seen.drop_first(), key)
    }
}

/// Every entry points at a dependency with its key, every dependency's key
/// has an entry, and no key has two entries.
pub open spec fn seen_consistent(deps: Seq<DependencyRef>, seen: Seq<(String, DependencyKind, usize)>) -> bool {
    &&& forall|j: int|
        0 <= j < seen.len() ==> (#[trigger] seen[j]).2 < deps.len() && dep_key(deps[seen[j].2 as int]@)
            == seen_key(seen[j])
    &&& forall|i: int|
        #![trigger deps[i]]
        0 <= i < deps.len() ==> exists|j: int|
            0 <= j < seen.len() && seen_key(#[trigger] seen[j]) == dep_key(deps[i]@)
    &&& forall|a: int, b: int|
        0 <= a < b < seen.len() ==> seen_key(#[trigger] seen[a]) != seen_key(#[trigger] seen[b])
}

/// No two dependencies share a key.
pub open spec fn keys_unique(deps: Seq<DependencyRef>) -> bool {
    forall|a: int, b: int| 0 <= a < b < deps.len() ==> dep_key(#[trigger] deps[a]@) != dep_key(#[trigger] deps[b]@)
}

proof fn lemma_seen_lookup_found(seen: Seq<(String, DependencyKind, usize)>, j: int)
    requires
        0 <= j < seen.len(),
        forall|a: int, b: int|
            0 <= a < b < seen.len() ==> seen_key(#[trigger] seen[a]) != seen_key(#[trigger] seen[b]),
    ensures
        seen_lookup(seen, seen_key(seen[j])) == Some(seen[j].2),
    decreases j,
{
    if j > 0 {
        let t = seen.drop_first();
        assert(seen_key(seen[0]) != seen_key(seen[j]));
        assert(t[j - 1] == seen[j]);
        assert forall|a: int, b: int| 0 <= a < b < t.len() implies seen_key(#[trigger] t[a])
            != seen_key(#[trigger] t[b]) by {
            assert(t[a] == seen[a + 1]);
            assert(t[b] == seen[b + 1]);
        }
        lemma_seen_lookup_found(t, j - 1);
    }
}

proof fn lemma_seen_lookup_none(seen: Seq<(String, DependencyKind, usize)>, key: (Seq<char>, DependencyKind))
    requires
        forall|j: int| 0 <= j < seen.len() ==> seen_key(#[trigger] seen[j]) != key,
    ensures
        seen_lookup(seen, key) is None,
    decreases seen.len(),
{
    if seen.len() > 0 {
        let t = seen.drop_first();
        assert forall|j: int| 0 <= j < t.len() implies seen_key(#[trigger] t[j]) != key by {
            assert(t[j] == seen[j + 1]);
        }
        lemma_seen_lookup_none(t, key);
    }
}

/// Position of the entry for `key` in `seen`, if any.
fn seen_position(seen: &SeenIndex, key: &String, kind: DependencyKind) -> (r: Option<usize>)
    ensures
        r matches Some(j) ==> j < seen.len() && seen_key(seen@[j as int]) == (key@, kind),
        r is None ==> forall|j: int| 0 <= j < seen.len() ==> seen_key(#[trigger] seen@[j]) != (
            key@,
            kind,
        ),
{
    let mut j: usize = 0;
    while j < seen.len()
        invariant
            0 <= j <= seen.len(),
            forall|k: int| 0 <= k < j ==> seen_key(#[trigger] seen@[k]) != (key@, kind),
        decreases seen.len() - j,
    {
        if seen[j].1 == kind && seen[j].0 == *key {
            return Some(j);
        }
        j = j + 1;
    }
    None
}

impl DependencyRef {
    /// Index of `deps` by `(full target, kind)`; for a repeated key the last
    /// position wins.
    pub fn build_seen_index(deps: &Vec<DependencyRef>) -> (r: SeenIndex)
        ensures
            seen_consistent(deps@, r@),
            forall|i: int|
                #![trigger deps@[i]]
                0 <= i < deps.len() ==> match seen_lookup(r@, dep_key(deps@[i]@)) {
                    Some(p) => i <= p < deps.len() && dep_key(deps@[p as int]@) == dep_key(deps@[i]@)
                        && forall|q: int|
                        p < q < deps.len() ==> dep_key(#[trigger] deps@[q]@) != dep_key(deps@[i]@),
                    None => false,
                },
    {
        let mut seen: SeenIndex = Vec::new();
        let mut i: usize = 0;
        while i < deps.len()
            invariant
                0 <= i <= deps.len(),
                seen_consistent(deps@.take(i as int), seen@),
                forall|j: int|
                    0 <= j < seen.len() ==> forall|q: int|
                        (#[trigger] seen@[j]).2 < q < i ==> dep_key(#[trigger] deps@[q]@) != seen_key(seen@[j]),
            decreases deps.len() - i,
        {
            let key = deps[i].full_target();
            let kind = deps[i].context.kind;
            let ghost pre = seen@;
            let ghost di = dep_key(deps@[i as int]@);
            let ghost mut pos: int = 0;
            match seen_position(&seen, &key, kind) {
                Some(j) => {
                    seen.set(j, (key, kind, i));
                    proof {
                        pos = j as int;
                    }
                },
                None => {
                    seen.push((key, kind, i));
                    proof {
                        pos = pre.len() as int;
                    }
                },
            }
            assert(0 <= pos < seen.len() && seen_key(seen@[pos]) == di && seen@[pos].2 == i);
            proof {
                let d = deps@.take(i + 1);
                assert forall|j: int| 0 <= j < seen.len() implies (#[trigger] seen@[j]).2 < d.len()
                    && dep_key(d[seen@[j].2 as int]@) == seen_key(seen@[j]) by {
                    if j < pre.len() && seen_key(pre[j]) != di {
                        assert(seen@[j] == pre[j]);
                    }
                }
                assert forall|k: int| #![trigger d[k]] 0 <= k < d.len() implies exists|j: int|
                    0 <= j < seen.len() && seen_key(#[trigger] seen@[j]) == dep_key(d[k]@) by {
                    if k < i {
                        let j0 = choose|j: int|
                            0 <= j < pre.len() && seen_key(#[trigger] pre[j]) == dep_key(
                                deps@.take(i as int)[k]@,
                            );
                        assert(seen_key(seen@[j0]) == seen_key(pre[j0]));
                    } else {
                        assert(seen_key(seen@[pos]) == dep_key(d[k]@));
                    }
                }
                assert forall|a: int, b: int| 0 <= a < b < seen.len() implies seen_key(
                    #[trigger] seen@[a],
                ) != seen_key(#[trigger] seen@[b]) by {
                    if a < pre.len() && b < pre.len() {
                        assert(seen_key(seen@[a]) == seen_key(pre[a]));
                        assert(seen_key(seen@[b]) == seen_key(pre[b]));
                    }
                }
                assert forall|j: int| 0 <= j < seen.len() implies forall|q: int|
                    (#[trigger] seen@[j]).2 < q < i + 1 ==> dep_key(#[trigger] deps@[q]@) != seen_key(
                        seen@[j],
                    ) by {
                    if seen_key(seen@[j]) != di {
                        assert(seen@[j] == pre[j]);
                    }
                }
            }
            i = i + 1;
        }
        assert(deps@.take(deps.len() as int) =~= deps@);
        proof {
            assert forall|i: int| #![trigger deps@[i]] 0 <= i < deps.len() implies match seen_lookup(
                seen@,
                dep_key(deps@[i]@),
            ) {
                Some(p) => i <= p < deps.len() && dep_key(deps@[p as int]@) == dep_key(deps@[i]@)
                    && forall|q: int| p < q < deps.len() ==> dep_key(#[trigger] deps@[q]@) != dep_key(deps@[i]@),
                None => false,
            } by {
                let j = choose|j: int|
                    0 <= j < seen.len() && seen_key(#[trigger] seen@[j]) == dep_key(deps@[i]@);
                lemma_seen_lookup_found(seen@, j);
                let p = seen@[j].2 as int;
                if p < i {
                    assert(dep_key(deps@[i]@) != seen_key(seen@[j]));
                }
            }
        }
        seen
    }

    /// Inserts `dep` unless a dependency with the same `(full target, kind)`
    /// is indexed; then its features are appended to that entry instead.
    pub fn dedup_push(deps: &mut Vec<DependencyRef>, seen: &mut SeenIndex, dep: DependencyRef)
        requires
            seen_consistent(old(deps)@, old(seen)@),
        ensures
            seen_consistent(final(deps)@, final(seen)@),
            match seen_lookup(old(seen)@, dep_key(dep@)) {
                Some(p) => {
                    &&& final(deps)@.len() == old(deps)@.len()
                    &&& forall|q: int|
                        0 <= q < old(deps)@.len() && q != p ==> final(deps)@[q]@ == old(deps)@[q]@
                    &&& final(deps)@[p as int]@ == (DependencyRefView {
                        context: EdgeContextView {
                            features: old(deps)@[p as int]@.context.features + dep@.context.features,
                            ..old(deps)@[p as int]@.context
                        },
                        ..old(deps)@[p as int]@
                    })
                },
                None => final(deps)@.len() == old(deps)@.len() + 1 && final(deps)@.take(
                    old(deps)@.len() as int,
                ) == old(deps)@ && final(deps)@.last()@ == dep@,
            },
            seen_lookup(old(seen)@, dep_key(dep@)) is None <==> forall|q: int|
                0 <= q < old(deps)@.len() ==> dep_key(old(deps)@[q]@) != dep_key(dep@),
            keys_unique(old(deps)@) ==> keys_unique(final(deps)@),
    {
        let key = dep.full_target();
        let kind = dep.context.kind;
        let ghost dkey = dep_key(dep@);
        match seen_position(seen, &key, kind) {
            Some(j) => {
                proof {
                    lemma_seen_lookup_found(seen@, j as int);
                }
                let idx = seen[j].2;
                let mut entry = deps.remove(idx);
                let mut extra = dep.context.features;
                let ghost old_features = entry.context.features.deep_view();
                let ghost extra_v = extra.deep_view();
                entry.context.features.append(&mut extra);
                assert(entry.context.features.deep_view() =~= old_features + extra_v);
                deps.insert(idx, entry);
                proof {
                    assert forall|q: int|
                        0 <= q < deps.len() && q != idx implies #[trigger] deps@[q]@ == old(
                        deps,
                    )@[q]@ by {}
                    assert forall|q: int| 0 <= q < deps.len() implies dep_key(#[trigger] deps@[q]@)
                        == dep_key(old(deps)@[q]@) by {}
                    assert forall|i: int| #![trigger deps@[i]] 0 <= i < deps.len() implies exists|jj: int|
                        0 <= jj < seen.len() && seen_key(#[trigger] seen@[jj]) == dep_key(
                            deps@[i]@,
                        ) by {
                        assert(dep_key(deps@[i]@) == dep_key(old(deps)@[i]@));
                    }
                }
            },
            None => {
                proof {
                    lemma_seen_lookup_none(seen@, dkey);
                    assert forall|q: int| 0 <= q < deps.len() implies dep_key(
                        #[trigger] deps@[q]@,
                    ) != dkey by {
                        let jq = choose|jj: int|
                            0 <= jj < seen.len() && seen_key(#[trigger] seen@[jj]) == dep_key(
                                deps@[q]@,
                            );
                    }
                }
                let ghost pre_seen = seen@;
                let ghost pre_deps = deps@;
                seen.push((key, kind, deps.len()));
                deps.push(dep);
                proof {
                    assert(deps@.take(pre_deps.len() as int) =~= pre_deps);
                    assert forall|j: int| 0 <= j < seen.len() implies (#[trigger] seen@[j]).2
                        < deps.len() && dep_key(deps@[seen@[j].2 as int]@) == seen_key(seen@[j]) by {
                        if j < pre_seen.len() {
                            assert(seen@[j] == pre_seen[j]);
                            assert(deps@[seen@[j].2 as int] == pre_deps[seen@[j].2 as int]);
                        }
                    }
                    assert forall|i: int| #![trigger deps@[i]] 0 <= i < deps.len() implies exists|jj: int|
                        0 <= jj < seen.len() && seen_key(#[trigger] seen@[jj]) == dep_key(
                            deps@[i]@,
                        ) by {
                        if i < pre_deps.len() {
                            let j0 = choose|jj: int|
                                0 <= jj < pre_seen.len() && seen_key(#[trigger] pre_seen[jj])
                                    == dep_key(pre_deps[i]@);
                            assert(seen@[j0] == pre_seen[j0]);
                        } else {
                            assert(seen_key(seen@[pre_seen.len() as int]) == dkey);
                        }
                    }
                    assert forall|a: int, b: int| 0 <= a < b < seen.len() implies seen_key(
                        #[trigger] seen@[a],
                    ) != seen_key(#[trigger] seen@[b]) by {
                        if b < pre_seen.len() {
                            assert(seen@[a] == pre_seen[a]);
                            assert(seen@[b] == pre_seen[b]);
                        } else {
                            assert(seen@[a] == pre_seen[a]);
                        }
                    }
                }
            },
        }
    }
}

} // verus!

verus! {

/// Views of a list of dependencies.
pub open spec fn dep_views(s: Seq<DependencyRef>) -> Seq<DependencyRefView> {
    s.map_values(|d: DependencyRef| d@)
}

/// `d` with `extra` appended to its features.
pub open spec fn with_features_appended(d: DependencyRefView, extra: Seq<Seq<char>>) -> DependencyRefView {
    DependencyRefView {
        context: EdgeContextView { features: d.context.features + extra, ..d.context },
        ..d
    }
}

/// Adds `d` to a deduplicated list: when an entry has the same
/// `(full target, kind)`, the features of `d` are appended to it;
/// otherwise `d` is added at the end.
pub open spec fn merge_one(acc: Seq<DependencyRefView>, d: DependencyRefView) -> Seq<DependencyRefView> {
    if exists|i: int| 0 <= i < acc.len() && dep_key(#[trigger] acc[i]) == dep_key(d) {
        let i = choose|i: int| 0 <= i < acc.len() && dep_key(#[trigger] acc[i]) == dep_key(d);
        acc.update(i, with_features_appended(acc[i], d.context.features))
    } else {
        acc.push(d)
    }
}

/// Adds every dependency of `s`, in order, with `merge_one`.
pub open spec fn merge_all(acc: Seq<DependencyRefView>, s: Seq<DependencyRefView>) -> Seq<DependencyRefView>
    decreases s.len(),
{
    if s.len() == 0 {
        acc
    } else {
        merge_one(merge_all(acc, s.drop_last()), s.last())
    }
}

/// No two views share a key.
pub open spec fn view_keys_unique(s: Seq<DependencyRefView>) -> bool {
    forall|a: int, b: int| 0 <= a < b < s.len() ==> dep_key(#[trigger] s[a]) != dep_key(#[trigger] s[b])
}

/// Merging keeps keys unique and puts every merged key in the list.
pub proof fn lemma_merge_one_keys(acc: Seq<DependencyRefView>, d: DependencyRefView)
    requires
        view_keys_unique(acc),
    ensures
        view_keys_unique(merge_one(acc, d)),
        exists|i: int| 0 <= i < merge_one(acc, d).len() && dep_key(#[trigger] merge_one(acc, d)[i]) == dep_key(d),
        forall|i: int| 0 <= i < acc.len() ==> exists|j: int|
            0 <= j < merge_one(acc, d).len() && dep_key(#[trigger] merge_one(acc, d)[j]) == dep_key(#[trigger] acc[i]),
        forall|j: int| 0 <= j < merge_one(acc, d).len() ==> (dep_key(#[trigger] merge_one(acc, d)[j]) == dep_key(d)
            || exists|i: int| 0 <= i < acc.len() && dep_key(#[trigger] acc[i]) == dep_key(merge_one(acc, d)[j])),
{
    let m = merge_one(acc, d);
    if exists|i: int| 0 <= i < acc.len() && dep_key(#[trigger] acc[i]) == dep_key(d) {
        let i = choose|i: int| 0 <= i < acc.len() && dep_key(#[trigger] acc[i]) == dep_key(d);
        assert(dep_key(m[i]) == dep_key(d));
        assert forall|k: int| 0 <= k < acc.len() implies exists|j: int|
            0 <= j < m.len() && dep_key(#[trigger] m[j]) == dep_key(#[trigger] acc[k]) by {
            assert(dep_key(m[k]) == dep_key(acc[k]));
        }
        assert forall|j: int| 0 <= j < m.len() implies (dep_key(#[trigger] m[j]) == dep_key(d)
            || exists|k: int| 0 <= k < acc.len() && dep_key(#[trigger] acc[k]) == dep_key(m[j])) by {
            assert(dep_key(m[j]) == dep_key(acc[j]));
        }
    } else {
        assert(dep_key(m[acc.len() as int]) == dep_key(d));
        assert forall|k: int| 0 <= k < acc.len() implies exists|j: int|
            0 <= j < m.len() && dep_key(#[trigger] m[j]) == dep_key(#[trigger] acc[k]) by {
            assert(m[k] == acc[k]);
        }
        assert forall|j: int| 0 <= j < m.len() implies (dep_key(#[trigger] m[j]) == dep_key(d)
            || exists|k: int| 0 <= k < acc.len() && dep_key(#[trigger] acc[k]) == dep_key(m[j])) by {
            if j < acc.len() {
                assert(m[j] == acc[j]);
            }
        }
    }
}

/// Merging a concatenation merges its parts in turn.
pub proof fn lemma_merge_all_concat(acc: Seq<DependencyRefView>, a: Seq<DependencyRefView>, b: Seq<DependencyRefView>)
    ensures
        merge_all(acc, a + b) == merge_all(merge_all(acc, a), b),
    decreases b.len(),
{
    if b.len() == 0 {
        assert(a + b =~= a);
    } else {
        assert((a + b).drop_last() =~= a + b.drop_last());
        assert((a + b).last() == b.last());
        lemma_merge_all_concat(acc, a, b.drop_last());
    }
}

/// Merging keeps keys unique.
pub proof fn lemma_merge_all_keys_unique(acc: Seq<DependencyRefView>, s: Seq<DependencyRefView>)
    requires
        view_keys_unique(acc),
    ensures
        view_keys_unique(merge_all(acc, s)),
    decreases s.len(),
{
    if s.len() > 0 {
        lemma_merge_all_keys_unique(acc, s.drop_last());
        lemma_merge_one_keys(merge_all(acc, s.drop_last()), s.last());
    }
}

proof fn lemma_seen_lookup_some(seen: Seq<(String, DependencyKind, usize)>, key: (Seq<char>, DependencyKind), p: usize)
    requires
        seen_lookup(seen, key) == Some(p),
    ensures
        exists|j: int| 0 <= j < seen.len() && seen_key(#[trigger] seen[j]) == key && seen[j].2 == p,
    decreases seen.len(),
{
    if seen_key(seen[0]) != key {
        let t = seen.drop_first();
        lemma_seen_lookup_some(t, key, p);
        let j = choose|j: int| 0 <= j < t.len() && seen_key(#[trigger] t[j]) == key && t[j].2 == p;
        assert(seen[j + 1] == t[j]);
    } else {
        assert(seen_key(seen[0]) == key);
    }
}

impl DependencyRef {
    /// Adds `dep` to a list whose index is consistent and whose keys are
    /// unique; the list's views become `merge_one` of the old views.
    pub(crate) fn merge_into(deps: &mut Vec<DependencyRef>, seen: &mut SeenIndex, dep: DependencyRef)
        requires
            seen_consistent(old(deps)@, old(seen)@),
            keys_unique(old(deps)@),
        ensures
            seen_consistent(final(deps)@, final(seen)@),
            keys_unique(final(deps)@),
            dep_views(final(deps)@) == merge_one(dep_views(old(deps)@), dep@),
    {
        let ghost d = dep@;
        let ghost old_deps = deps@;
        let ghost old_seen = seen@;
        DependencyRef::dedup_push(deps, seen, dep);
        proof {
            let acc = dep_views(old_deps);
            let key = dep_key(d);
            match seen_lookup(old_seen, key) {
                Some(p) => {
                    lemma_seen_lookup_some(old_seen, key, p);
                    let j = choose|j: int|
                        0 <= j < old_seen.len() && seen_key(#[trigger] old_seen[j]) == key && old_seen[j].2 == p;
                    assert(dep_key(old_deps[p as int]@) == key);
                    assert(dep_key(acc[p as int]) == key);
                    let i = choose|i: int| 0 <= i < acc.len() && dep_key(#[trigger] acc[i]) == key;
                    if i != p as int {
                        if i < p {
                            assert(dep_key(old_deps[i]@) != dep_key(old_deps[p as int]@));
                        } else {
                            assert(dep_key(old_deps[p as int]@) != dep_key(old_deps[i]@));
                        }
                    }
                    assert(dep_views(deps@) =~= merge_one(acc, d));
                },
                None => {
                    assert(!exists|i: int| 0 <= i < acc.len() && dep_key(#[trigger] acc[i]) == key);
                    assert(dep_views(deps@) =~= merge_one(acc, d));
                },
            }
        }
    }
}

} // verus!
