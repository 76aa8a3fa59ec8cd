//! Registry of the embedded JavaScript modules: their `@module`, `@deps`
//! and `@config` annotations, their load order, the check that a module
//! only references the modules it declares, and the generated Rust table.

use vstd::prelude::*;
use crate::model::join_quoted;
use crate::graph::{mask_indices, mask_set};
use crate::layout::{
    acyclic, available, index_edges, index_graph_add_edge, index_graph_add_node, index_graph_new, index_nodes,
    is_stable_order, is_stable_prefix, kahn_order, law_stable_order_is_topological,
};
use crate::strings::{
    chars_contain, chars_have_prefix, chars_have_suffix, contains_seq, has_prefix, has_suffix, lines_of,
    push_str, split_char, split_chars_on, str_chars, str_eq, string_from_chars, text_lines, trim, trim_chars,
};

verus! {

/// A JavaScript module and what its annotations declare.
#[derive(Debug, Clone)]
pub struct JsModuleInfo {
    pub name: String,
    pub file_name: String,
    pub deps: Vec<String>,
    pub config_keys: Vec<String>,
}

/// A `.js` file that is not a `.test.js` file.
pub fn is_module_file(file_name: &str) -> (r: bool)
    ensures
        r == (has_suffix(file_name@, ".js"@) && !has_suffix(file_name@, ".test.js"@)),
{
    let f = str_chars(file_name);
    let js = str_chars(".js");
    let test_js = str_chars(".test.js");
    chars_have_suffix(&f, &js) && !chars_have_suffix(&f, &test_js)
}

/// What the annotations declare so far: module name, dependencies and
/// configuration keys.
pub type Annotations = (Option<Seq<char>>, Seq<Seq<char>>, Seq<Seq<char>>);

/// The trimmed text after `tag` in `t`.
pub open spec fn after_tag(t: Seq<char>, tag: Seq<char>) -> Seq<char> {
    trim(t.skip(tag.len() as int))
}

/// A comma-separated list, each item trimmed.
pub open spec fn comma_list(v: Seq<char>) -> Seq<Seq<char>> {
    split_char(v, ',').map_values(|x: Seq<char>| trim(x))
}

/// The effect of one line on the annotations: a non-empty `// @module`,
/// `// @deps` or `// @config` value replaces the earlier one.
pub open spec fn annotation_step(st: Annotations, line: Seq<char>) -> Annotations {
    let t = trim(line);
    if has_prefix(t, "// @module"@) {
        let v = after_tag(t, "// @module"@);
        if v.len() > 0 {
            (Some(v), st.1, st.2)
        } else {
            st
        }
    } else if has_prefix(t, "// @deps"@) {
        let v = after_tag(t, "// @deps"@);
        if v.len() > 0 {
            (st.0, comma_list(v), st.2)
        } else {
            st
        }
    } else if has_prefix(t, "// @config"@) {
        let v = after_tag(t, "// @config"@);
        if v.len() > 0 {
            (st.0, st.1, comma_list(v))
        } else {
            st
        }
    } else {
        st
    }
}

/// The annotations of the given lines, read in order.
pub open spec fn annotations_of(ls: Seq<Seq<char>>) -> Annotations
    decreases ls.len(),
{
    if ls.len() == 0 {
        (None, Seq::empty(), Seq::empty())
    } else {
        annotation_step(annotations_of(ls.drop_last()), ls.last())
    }
}

/// At most the first `k` elements.
pub open spec fn first_n<A>(s: Seq<A>, k: int) -> Seq<A> {
    if s.len() <= k {
        s
    } else {
        s.take(k)
    }
}

/// The annotations of a module source: only its first five lines count.
pub open spec fn js_annotations(content: Seq<char>) -> Annotations {
    annotations_of(first_n(text_lines(content), 5))
}

/// The characters of `s` from position `k` on.
fn chars_from(s: &Vec<char>, k: usize) -> (r: Vec<char>)
    requires
        k <= s.len(),
    ensures
        r@ == s@.skip(k as int),
{
    let mut r: Vec<char> = Vec::new();
    let mut i: usize = k;
    while i < s.len()
        invariant
            k <= i <= s.len(),
            r@ == s@.subrange(k as int, i as int),
        decreases s.len() - i,
    {
        r.push(s[i]);
        i = i + 1;
        assert(r@ =~= s@.subrange(k as int, i as int));
    }
    assert(r@ =~= s@.skip(k as int));
    r
}

/// The items of a comma-separated list, each trimmed.
fn comma_items(v: &Vec<char>) -> (r: Vec<String>)
    ensures
        r.deep_view() == comma_list(v@),
{
    let parts = split_chars_on(v, ',');
    let ghost pv = parts.deep_view();
    let mut r: Vec<String> = Vec::new();
    let mut i: usize = 0;
    while i < parts.len()
        invariant
            pv == parts.deep_view(),
            0 <= i <= parts.len(),
            r.len() == i,
            forall|j: int| 0 <= j < i ==> #[trigger] r@[j]@ == trim(pv[j]),
        decreases parts.len() - i,
    {
        let t = trim_chars(&parts[i]);
        assert(parts@[i as int]@ == pv[i as int]);
        r.push(string_from_chars(t.as_slice()));
        i = i + 1;
    }
    assert(r.deep_view() =~= comma_list(v@)) by {
        assert(split_char(v@, ',') == pv);
        assert forall|j: int| 0 <= j < r.len() implies r.deep_view()[j] == comma_list(v@)[j] by {
            assert(r.deep_view()[j] == r@[j]@);
        }
    }
    r
}

/// Reads the annotations of the first five lines of a module source.
fn scan_annotations(content: &str) -> (r: (Option<String>, Vec<String>, Vec<String>))
    ensures
        (match r.0 {
            Some(n) => Some(n@),
            None => None,
        }) == js_annotations(content@).0,
        r.1.deep_view() == js_annotations(content@).1,
        r.2.deep_view() == js_annotations(content@).2,
{
    let lines = lines_of(content);
    let ghost ls = lines.deep_view();
    let limit: usize = if lines.len() <= 5 { lines.len() } else { 5 };
    let module_tag = str_chars("// @module");
    let deps_tag = str_chars("// @deps");
    let config_tag = str_chars("// @config");
    let mut name: Option<String> = None;
    let mut deps: Vec<String> = Vec::new();
    let mut config_keys: Vec<String> = Vec::new();
    let mut k: usize = 0;
    while k < limit
        invariant
            ls == lines.deep_view(),
            limit <= lines.len(),
            limit == first_n(ls, 5).len(),
            module_tag@ == "// @module"@,
            deps_tag@ == "// @deps"@,
            config_tag@ == "// @config"@,
            0 <= k <= limit,
            (match name {
                Some(n) => Some(n@),
                None => None,
            }) == annotations_of(ls.take(k as int)).0,
            deps.deep_view() == annotations_of(ls.take(k as int)).1,
            config_keys.deep_view() == annotations_of(ls.take(k as int)).2,
        decreases limit - k,
    {
        let t = trim_chars(&lines[k]);
        assert(ls.take(k + 1).drop_last() =~= ls.take(k as int));
        assert(ls.take(k + 1).last() == lines@[k as int]@);
        if chars_have_prefix(&t, &module_tag) {
            let v = trim_chars(&chars_from(&t, module_tag.len()));
            if v.len() > 0 {
                name = Some(string_from_chars(v.as_slice()));
            }
        } else if chars_have_prefix(&t, &deps_tag) {
            let v = trim_chars(&chars_from(&t, deps_tag.len()));
            if v.len() > 0 {
                deps = comma_items(&v);
            }
        } else if chars_have_prefix(&t, &config_tag) {
            let v = trim_chars(&chars_from(&t, config_tag.len()));
            if v.len() > 0 {
                config_keys = comma_items(&v);
            }
        }
        k = k + 1;
    }
    assert(ls.take(limit as int) =~= first_n(ls, 5));
    (name, deps, config_keys)
}

/// The module name that the `@module` annotation of a source declares, if
/// it declares one.
pub fn declared_module_name(content: &str) -> (r: Option<String>)
    ensures
        (match r {
            Some(n) => Some(n@),
            None => None,
        }) == js_annotations(content@).0,
{
    scan_annotations(content).0
}

/// Reads `@module`, `@deps` and `@config` from the first five lines of a
/// module source; the source must declare its module name.
pub fn parse_js_annotations(content: &str, file_name: &str) -> (r: JsModuleInfo)
    requires
        js_annotations(content@).0 is Some,
    ensures
        r.name@ == js_annotations(content@).0->0,
        r.file_name@ == file_name@,
        r.deps.deep_view() == js_annotations(content@).1,
        r.config_keys.deep_view() == js_annotations(content@).2,
{
    let (name, deps, config_keys) = scan_annotations(content);
    let name = match name {
        Some(n) => n,
        None => String::new(),
    };
    let file_name = string_from_chars(str_chars(file_name).as_slice());
    JsModuleInfo { name, file_name, deps, config_keys }
}

/// The code lines of a source, trimmed: comment lines (`//` or `*`) are
/// skipped, and everything from the CommonJS export (`if (typeof module`)
/// on is left out.
pub open spec fn active_lines(ls: Seq<Seq<char>>) -> Seq<Seq<char>>
    decreases ls.len(),
{
    if ls.len() == 0 {
        Seq::empty()
    } else {
        let t = trim(ls[0]);
        if has_prefix(t, "if (typeof module"@) {
            Seq::empty()
        } else if has_prefix(t, "//"@) || has_prefix(t, "*"@) {
            active_lines(ls.drop_first())
        } else {
            seq![t] + active_lines(ls.drop_first())
        }
    }
}

/// The trimmed code lines of a module source.
pub fn active_source_lines(source: &str) -> (r: Vec<String>)
    ensures
        r.deep_view() == active_lines(text_lines(source@)),
{
    let lines = lines_of(source);
    let ghost ls = lines.deep_view();
    let stop = str_chars("if (typeof module");
    let slashes = str_chars("//");
    let star = str_chars("*");
    let mut out: Vec<String> = Vec::new();
    let mut i: usize = 0;
    assert(ls.skip(0) =~= ls);
    while i < lines.len()
        invariant
            ls == lines.deep_view(),
            ls == text_lines(source@),
            stop@ == "if (typeof module"@,
            slashes@ == "//"@,
            star@ == "*"@,
            0 <= i <= lines.len(),
            out.deep_view() + active_lines(ls.skip(i as int)) == active_lines(ls),
        decreases lines.len() - i,
    {
        let t = trim_chars(&lines[i]);
        let ghost rest = ls.skip(i as int);
        assert(rest[0] == lines@[i as int]@);
        assert(rest.drop_first() =~= ls.skip(i + 1));
        if chars_have_prefix(&t, &stop) {
            assert(active_lines(rest) =~= Seq::<Seq<char>>::empty());
            assert(out.deep_view() + Seq::<Seq<char>>::empty() =~= out.deep_view());
            return out;
        }
        if !(chars_have_prefix(&t, &slashes) || chars_have_prefix(&t, &star)) {
            let ghost before = out.deep_view();
            out.push(string_from_chars(t.as_slice()));
            assert(out.deep_view() =~= before.push(t@));
            assert(before + active_lines(rest) =~= out.deep_view() + active_lines(ls.skip(i + 1)));
        }
        i = i + 1;
    }
    assert(ls.skip(lines.len() as int) =~= Seq::<Seq<char>>::empty());
    assert(out.deep_view() + Seq::<Seq<char>>::empty() =~= out.deep_view());
    out
}

/// Module `k` is referenced (`Name.`) on an active line of module `i`'s
/// source although `i` neither is `k` by name nor declares it.
pub open spec fn undeclared_ref(ms: Seq<JsModuleInfo>, sources: Seq<&str>, i: int, k: int) -> bool {
    &&& ms[k].name@ != ms[i].name@
    &&& !ms[i].deps.deep_view().contains(ms[k].name@)
    &&& exists|j: int|
        0 <= j < active_lines(text_lines(sources[i]@)).len()
            && contains_seq(#[trigger] active_lines(text_lines(sources[i]@))[j], ms[k].name@.push('.'))
}

/// The first module (in module order, then in referenced-module order)
/// that references a module it does not declare.
#[derive(Debug, Clone, Copy, PartialEq, Eq, Structural)]
pub struct UndeclaredReference {
    pub module: usize,
    pub referenced: usize,
}

fn references_in(lines: &Vec<String>, pattern: &Vec<char>) -> (r: bool)
    ensures
        r == exists|j: int| 0 <= j < lines.len() && contains_seq(#[trigger] lines.deep_view()[j], pattern@),
{
    let mut j: usize = 0;
    while j < lines.len()
        invariant
            0 <= j <= lines.len(),
            forall|q: int| 0 <= q < j ==> !contains_seq(#[trigger] lines.deep_view()[q], pattern@),
        decreases lines.len() - j,
    {
        let l = str_chars(lines[j].as_str());
        assert(lines.deep_view()[j as int] == lines@[j as int]@);
        if chars_contain(&l, pattern) {
            return true;
        }
        j = j + 1;
    }
    false
}

/// Checks that every module references (as `Name.`) only the modules it
/// declares in `@deps`; otherwise reports the first reference that is not
/// declared.
pub fn validate_source_deps(modules: &Vec<JsModuleInfo>, sources: &Vec<&str>) -> (r: Result<(), UndeclaredReference>)
    requires
        sources.len() >= modules.len(),
    ensures
        r is Ok <==> forall|i: int, k: int|
            0 <= i < modules.len() && 0 <= k < modules.len() ==> !#[trigger] undeclared_ref(modules@, sources@, i, k),
        r matches Err(e) ==> e.module < modules.len() && e.referenced < modules.len()
            && undeclared_ref(modules@, sources@, e.module as int, e.referenced as int)
            && forall|i: int, k: int|
                0 <= i < modules.len() && 0 <= k < modules.len() && (i < e.module || (i == e.module && k < e.referenced))
                    ==> !#[trigger] undeclared_ref(modules@, sources@, i, k),
{
    let n = modules.len();
    let mut i: usize = 0;
    while i < n
        invariant
            n == modules.len(),
            sources.len() >= n,
            0 <= i <= n,
            forall|i2: int, k: int| 0 <= i2 < i && 0 <= k < n ==> !#[trigger] undeclared_ref(modules@, sources@, i2, k),
        decreases n - i,
    {
        let module = &modules[i];
        let lines = active_source_lines(sources[i]);
        let mut k: usize = 0;
        while k < n
            invariant
                n == modules.len(),
                sources.len() >= n,
                0 <= i < n,
                0 <= k <= n,
                module == modules@[i as int],
                lines.deep_view() == active_lines(text_lines(sources@[i as int]@)),
                forall|i2: int, k2: int| 0 <= i2 < i && 0 <= k2 < n ==> !#[trigger] undeclared_ref(modules@, sources@, i2, k2),
                forall|k2: int| 0 <= k2 < k ==> !#[trigger] undeclared_ref(modules@, sources@, i as int, k2),
            decreases n - k,
        {
            let name = &modules[k].name;
            if !str_eq(name.as_str(), module.name.as_str()) {
                let mut declared = false;
                let mut d: usize = 0;
                while d < module.deps.len()
                    invariant
                        0 <= d <= module.deps.len(),
                        declared == exists|q: int| 0 <= q < d && module.deps@[q]@ == name@,
                    decreases module.deps.len() - d,
                {
                    if str_eq(module.deps[d].as_str(), name.as_str()) {
                        declared = true;
                    }
                    d = d + 1;
                }
                proof {
                    if declared {
                        let q = choose|q: int| 0 <= q < module.deps.len() && module.deps@[q]@ == name@;
                        assert(module.deps.deep_view()[q] == name@);
                    } else {
                        assert forall|q: int| 0 <= q < module.deps.len() implies module.deps.deep_view()[q] != name@ by {
                            assert(module.deps.deep_view()[q] == module.deps@[q]@);
                        }
                    }
                }
                if !declared {
                    let mut pattern = str_chars(name.as_str());
                    pattern.push('.');
                    if references_in(&lines, &pattern) {
                        proof {
                            assert(pattern@ == name@.push('.'));
                            let j = choose|j: int| 0 <= j < lines.len() && contains_seq(#[trigger] lines.deep_view()[j], pattern@);
                            assert(contains_seq(active_lines(text_lines(sources@[i as int]@))[j], modules@[k as int].name@.push('.')));
                            assert(undeclared_ref(modules@, sources@, i as int, k as int));
                        }
                        return Err(UndeclaredReference { module: i, referenced: k });
                    }
                }
            }
            k = k + 1;
        }
        i = i + 1;
    }
    Ok(())
}

/// The `config_keys` line of a table entry.
pub open spec fn config_keys_line(keys: Seq<Seq<char>>) -> Seq<char> {
    if keys.len() == 0 {
        "        config_keys: &[],\n"@
    } else {
        "        config_keys: &["@ + join_quoted(keys) + "],\n"@
    }
}

/// The table entry of one module.
pub open spec fn module_entry(m: JsModuleInfo) -> Seq<char> {
    "    JsModule {\n"@ + "        name: \""@ + m.name@ + "\",\n"@
        + "        source: include_str!(concat!(env!(\"CARGO_MANIFEST_DIR\"), \"/js/"@ + m.file_name@ + "\")),\n"@
        + config_keys_line(m.config_keys.deep_view()) + "    },\n"@
}

/// The entries of the listed modules, in the given order.
pub open spec fn module_entries(ms: Seq<JsModuleInfo>, order: Seq<usize>) -> Seq<char>
    decreases order.len(),
{
    if order.len() == 0 {
        Seq::empty()
    } else {
        module_entries(ms, order.drop_last()) + module_entry(ms[order.last() as int])
    }
}

/// The struct declaration that opens the generated file.
pub open spec fn modules_rs_header() -> Seq<char> {
    "#[allow(dead_code)]\n"@ + "struct JsModule {\n"@ + "    name: &'static str,\n"@ + "    source: &'static str,\n"@
        + "    config_keys: &'static [&'static str],\n"@ + "}\n\n"@ + "const MODULES: &[JsModule] = &[\n"@
}

/// The generated Rust source: the `JsModule` struct and the `MODULES`
/// table listing the modules in the given order.
pub open spec fn modules_rs(ms: Seq<JsModuleInfo>, order: Seq<usize>) -> Seq<char> {
    modules_rs_header() + module_entries(ms, order) + "];\n"@
}

fn push_config_keys(out: &mut Vec<char>, keys: &Vec<String>)
    ensures
        final(out)@ == old(out)@ + config_keys_line(keys.deep_view()),
{
    if keys.len() == 0 {
        push_str(out, "        config_keys: &[],\n");
        return;
    }
    push_str(out, "        config_keys: &[");
    let ghost before = out@;
    let ghost ks = keys.deep_view();
    let mut i: usize = 0;
    while i < keys.len()
        invariant
            ks == keys.deep_view(),
            0 <= i <= keys.len(),
            out@ == before + join_quoted(ks.take(i as int)),
        decreases keys.len() - i,
    {
        assert(ks.take(i + 1).drop_last() =~= ks.take(i as int));
        assert(ks.take(i + 1).last() == keys@[i as int]@);
        if i > 0 {
            push_str(out, ", ");
        }
        out.push('"');
        push_str(out, keys[i].as_str());
        out.push('"');
        if i == 0 {
            assert(out@ =~= before + join_quoted(ks.take(1)));
        } else {
            assert(out@ =~= before + join_quoted(ks.take(i + 1)));
        }
        i = i + 1;
    }
    assert(ks.take(keys.len() as int) =~= ks);
    push_str(out, "],\n");
    assert(out@ =~= before + join_quoted(ks) + "],\n"@);
}

/// Generates the Rust source of the module table, listing the modules in
/// the order `sorted_indices` gives.
pub fn generate_modules_rs(modules: &Vec<JsModuleInfo>, sorted_indices: &Vec<usize>) -> (r: String)
    requires
        forall|k: int| 0 <= k < sorted_indices.len() ==> #[trigger] sorted_indices@[k] < modules.len(),
    ensures
        r@ == modules_rs(modules@, sorted_indices@),
{
    let mut out: Vec<char> = Vec::new();
    push_str(&mut out, "#[allow(dead_code)]\n");
    push_str(&mut out, "struct JsModule {\n");
    push_str(&mut out, "    name: &'static str,\n");
    push_str(&mut out, "    source: &'static str,\n");
    push_str(&mut out, "    config_keys: &'static [&'static str],\n");
    push_str(&mut out, "}\n\n");
    push_str(&mut out, "const MODULES: &[JsModule] = &[\n");
    assert(out@ =~= modules_rs_header());
    let ghost order = sorted_indices@;
    let mut t: usize = 0;
    while t < sorted_indices.len()
        invariant
            order == sorted_indices@,
            forall|k: int| 0 <= k < sorted_indices.len() ==> #[trigger] sorted_indices@[k] < modules.len(),
            0 <= t <= sorted_indices.len(),
            out@ == modules_rs_header() + module_entries(modules@, order.take(t as int)),
        decreases sorted_indices.len() - t,
    {
        let m = &modules[sorted_indices[t]];
        let ghost before = out@;
        assert(order.take(t + 1).drop_last() =~= order.take(t as int));
        assert(order.take(t + 1).last() == order[t as int]);
        push_str(&mut out, "    JsModule {\n");
        push_str(&mut out, "        name: \"");
        push_str(&mut out, m.name.as_str());
        push_str(&mut out, "\",\n");
        push_str(&mut out, "        source: include_str!(concat!(env!(\"CARGO_MANIFEST_DIR\"), \"/js/");
        push_str(&mut out, m.file_name.as_str());
        push_str(&mut out, "\")),\n");
        push_config_keys(&mut out, &m.config_keys);
        push_str(&mut out, "    },\n");
        assert(out@ =~= before + module_entry(*m));
        t = t + 1;
    }
    assert(order.take(sorted_indices.len() as int) =~= order);
    push_str(&mut out, "];\n");
    string_from_chars(out.as_slice())
}

/// Why the modules have no load order.
#[derive(Debug)]
pub enum JsOrderError {
    /// Dependency `dep` of module `module` names no module.
    UnknownDependency { module: usize, dep: usize },
    /// The dependencies form a cycle; these modules (ascending) could not
    /// be placed.
    Cycle { remaining: Vec<usize> },
}

/// The module called `name`; the last one where several share it.
pub open spec fn named_index(ms: Seq<JsModuleInfo>, name: Seq<char>) -> Option<int> {
    if exists|k: int| 0 <= k < ms.len() && #[trigger] ms[k].name@ == name {
        Some(
            choose|k: int|
                0 <= k < ms.len() && #[trigger] ms[k].name@ == name && forall|q: int| k < q < ms.len() ==> ms[q].name@ != name,
        )
    } else {
        None
    }
}

/// Dependency `j` of module `i` names a module.
pub open spec fn dep_known(ms: Seq<JsModuleInfo>, i: int, j: int) -> bool {
    named_index(ms, ms[i].deps@[j]@) is Some
}

/// Every dependency names a module.
pub open spec fn deps_known(ms: Seq<JsModuleInfo>) -> bool {
    forall|i: int, j: int| 0 <= i < ms.len() && 0 <= j < ms[i].deps.len() ==> #[trigger] dep_known(ms, i, j)
}

/// The edges from each dependency to its dependent, for the first `i`
/// modules, in module order and then in `@deps` order.
pub open spec fn module_edges(ms: Seq<JsModuleInfo>, i: int) -> Seq<(usize, usize)>
    decreases i,
{
    if i <= 0 {
        Seq::empty()
    } else {
        module_edges(ms, i - 1) + ms[i - 1].deps@.map_values(
            |d: String| (named_index(ms, d@)->0 as usize, (i - 1) as usize),
        )
    }
}

/// The module names, by index.
pub open spec fn module_names(ms: Seq<JsModuleInfo>) -> Seq<Seq<char>> {
    ms.map_values(|m: JsModuleInfo| m.name@)
}

proof fn lemma_named_index_at(ms: Seq<JsModuleInfo>, name: Seq<char>, k: int)
    requires
        0 <= k < ms.len(),
        ms[k].name@ == name,
        forall|q: int| k < q < ms.len() ==> ms[q].name@ != name,
    ensures
        named_index(ms, name) == Some(k),
{
    assert(ms[k].name@ == name);
    let c = choose|c: int|
        0 <= c < ms.len() && #[trigger] ms[c].name@ == name && forall|q: int| c < q < ms.len() ==> ms[q].name@ != name;
    if c < k {
        assert(ms[k].name@ != name);
    } else if k < c {
        assert(ms[c].name@ != name);
    }
}

proof fn lemma_last_named(ms: Seq<JsModuleInfo>, name: Seq<char>, j: int)
    requires
        -1 <= j < ms.len(),
        forall|q: int| j < q < ms.len() ==> ms[q].name@ != name,
        exists|k: int| 0 <= k <= j && #[trigger] ms[k].name@ == name,
    ensures
        exists|k: int|
            0 <= k < ms.len() && #[trigger] ms[k].name@ == name && forall|q: int| k < q < ms.len() ==> ms[q].name@ != name,
    decreases j + 1,
{
    if ms[j].name@ == name {
        assert(ms[j].name@ == name);
    } else {
        lemma_last_named(ms, name, j - 1);
    }
}

/// A named index is the last module of that name.
proof fn lemma_named_index(ms: Seq<JsModuleInfo>, name: Seq<char>)
    ensures
        named_index(ms, name) matches Some(k) ==> 0 <= k < ms.len() && ms[k].name@ == name && forall|q: int|
            k < q < ms.len() ==> ms[q].name@ != name,
{
    if exists|k: int| 0 <= k < ms.len() && #[trigger] ms[k].name@ == name {
        lemma_last_named(ms, name, ms.len() - 1);
    }
}

/// The last module called `name`.
fn find_module(modules: &Vec<JsModuleInfo>, name: &str) -> (r: Option<usize>)
    ensures
        match r {
            Some(k) => named_index(modules@, name@) == Some(k as int),
            None => named_index(modules@, name@) is None,
        },
{
    let mut k: usize = modules.len();
    while k > 0
        invariant
            k <= modules.len(),
            forall|q: int| k <= q < modules.len() ==> modules@[q].name@ != name@,
        decreases k,
    {
        if str_eq(modules[k - 1].name.as_str(), name) {
            proof {
                lemma_named_index_at(modules@, name@, k - 1);
            }
            return Some(k - 1);
        }
        k = k - 1;
    }
    None
}

proof fn lemma_module_edges_len(ms: Seq<JsModuleInfo>, i: int)
    requires
        0 <= i < ms.len(),
    ensures
        module_edges(ms, i).len() + ms[i].deps.len() == module_edges(ms, i + 1).len(),
{
}

proof fn lemma_module_edges_mono(ms: Seq<JsModuleInfo>, i: int, j: int)
    requires
        0 <= i <= j <= ms.len(),
    ensures
        module_edges(ms, i).len() <= module_edges(ms, j).len(),
    decreases j - i,
{
    if i < j {
        lemma_module_edges_mono(ms, i, j - 1);
    }
}

proof fn lemma_module_edge_at(ms: Seq<JsModuleInfo>, i: int, b: int, j: int)
    requires
        0 <= b < i <= ms.len(),
        0 <= j < ms[b].deps.len(),
    ensures
        module_edges(ms, b).len() + j < module_edges(ms, i).len(),
        module_edges(ms, i)[module_edges(ms, b).len() + j] == (
            named_index(ms, ms[b].deps@[j]@)->0 as usize,
            b as usize,
        ),
    decreases i,
{
    lemma_module_edges_len(ms, b);
    if b < i - 1 {
        lemma_module_edge_at(ms, i - 1, b, j);
        lemma_module_edges_len(ms, i - 1);
    }
}

/// In a sorted module order every module comes after each module that its
/// `@deps` name.
pub proof fn law_js_order_dependencies_first(ms: Seq<JsModuleInfo>, o: Seq<usize>)
    requires
        ms.len() <= usize::MAX,
        deps_known(ms),
        is_stable_order(ms.len(), module_edges(ms, ms.len() as int), module_names(ms), o),
    ensures
        o.len() == ms.len(),
        o.no_duplicates(),
        forall|a: int, b: int, j: int|
            #![trigger o[a], ms[o[b] as int].deps@[j]]
            0 <= a < o.len() && 0 <= b < o.len() && 0 <= j < ms[o[b] as int].deps.len() && named_index(
                ms,
                ms[o[b] as int].deps@[j]@,
            ) == Some(o[a] as int) ==> a < b,
{
    let n = ms.len();
    let edges = module_edges(ms, n as int);
    law_stable_order_is_topological(n, edges, module_names(ms), o);
    assert forall|a: int, b: int, j: int|
        #![trigger o[a], ms[o[b] as int].deps@[j]]
        0 <= a < o.len() && 0 <= b < o.len() && 0 <= j < ms[o[b] as int].deps.len() && named_index(
            ms,
            ms[o[b] as int].deps@[j]@,
        ) == Some(o[a] as int) implies a < b by {
        let c = o[b] as int;
        assert(o[b] < n);
        lemma_module_edge_at(ms, n as int, c, j);
        let e = module_edges(ms, c).len() + j;
        assert(edges[e] == (o[a], o[b]));
    }
}

/// Orders the modules so that each comes after its dependencies, taking at
/// each step the ready module that is first by name (then by index), as
/// Kahn's algorithm does. Fails on a dependency that names no module (the
/// first one, in module order) and on a cycle.
pub fn topo_sort(modules: &Vec<JsModuleInfo>) -> (r: Result<Vec<usize>, JsOrderError>)
    requires
        modules.len() < u32::MAX,
        module_edges(modules@, modules.len() as int).len() < u32::MAX,
    ensures
        match r {
            Err(JsOrderError::UnknownDependency { module, dep }) => module < modules.len() && dep
                < modules@[module as int].deps.len() && !dep_known(modules@, module as int, dep as int)
                && forall|i: int, j: int|
                0 <= i < modules.len() && 0 <= j < modules@[i].deps.len() && (i < module || (i == module && j < dep))
                    ==> #[trigger] dep_known(modules@, i, j),
            Ok(o) => deps_known(modules@) && is_stable_order(
                modules.len() as nat,
                module_edges(modules@, modules.len() as int),
                module_names(modules@),
                o@,
            ),
            Err(JsOrderError::Cycle { remaining }) => deps_known(modules@) && !acyclic(
                modules.len() as nat,
                module_edges(modules@, modules.len() as int),
            ) && (forall|a: int, b: int| 0 <= a < b < remaining.len() ==> remaining@[a] < remaining@[b]) && exists|
                o: Seq<usize>,
            |
                is_stable_prefix(modules.len() as nat, module_edges(modules@, modules.len() as int), module_names(modules@), o)
                    && (forall|x: usize| !available(modules.len() as nat, module_edges(modules@, modules.len() as int), o, x))
                    && (forall|x: usize| #[trigger] remaining@.contains(x) <==> (x < modules.len() && !o.contains(x))),
        },
{
    let n = modules.len();
    let ghost ms = modules@;
    let ghost edges = module_edges(ms, n as int);
    // the module each dependency names
    let mut targets: Vec<Vec<usize>> = Vec::new();
    let mut i: usize = 0;
    while i < n
        invariant
            n == modules.len(),
            ms == modules@,
            0 <= i <= n,
            targets.len() == i,
            forall|a: int, j: int| 0 <= a < i && 0 <= j < ms[a].deps.len() ==> #[trigger] dep_known(ms, a, j),
            forall|a: int| 0 <= a < i ==> (#[trigger] targets@[a]).len() == ms[a].deps.len(),
            forall|a: int, j: int| 0 <= a < i && 0 <= j < ms[a].deps.len() ==> named_index(ms, ms[a].deps@[j]@)
                == Some(#[trigger] targets@[a]@[j] as int),
            forall|a: int, j: int| 0 <= a < i && 0 <= j < ms[a].deps.len() ==> #[trigger] targets@[a]@[j] < n,
        decreases n - i,
    {
        let deps = &modules[i].deps;
        let mut row: Vec<usize> = Vec::new();
        let mut j: usize = 0;
        while j < deps.len()
            invariant
                n == modules.len(),
                ms == modules@,
                0 <= i < n,
                deps == ms[i as int].deps,
                0 <= j <= deps.len(),
                row.len() == j,
                forall|a: int, jj: int| 0 <= a < i && 0 <= jj < ms[a].deps.len() ==> #[trigger] dep_known(ms, a, jj),
                forall|jj: int| 0 <= jj < j ==> #[trigger] dep_known(ms, i as int, jj),
                forall|jj: int| 0 <= jj < j ==> named_index(ms, ms[i as int].deps@[jj]@) == Some(#[trigger] row@[jj] as int),
                forall|jj: int| 0 <= jj < j ==> #[trigger] row@[jj] < n,
            decreases deps.len() - j,
        {
            match find_module(modules, deps[j].as_str()) {
                Some(k) => {
                    proof {
                        lemma_named_index(ms, deps@[j as int]@);
                    }
                    row.push(k);
                },
                None => {
                    return Err(JsOrderError::UnknownDependency { module: i, dep: j });
                },
            }
            j = j + 1;
        }
        targets.push(row);
        i = i + 1;
    }
    // dependency graph: an edge from each dependency to its dependent
    let mut g = index_graph_new();
    let mut v: usize = 0;
    while v < n
        invariant
            n == modules.len() < u32::MAX,
            0 <= v <= n,
            index_nodes(g).len() == v,
            index_edges(g).len() == 0,
        decreases n - v,
    {
        index_graph_add_node(&mut g, v);
        v = v + 1;
    }
    let mut a: usize = 0;
    assert(module_edges(ms, 0) =~= Seq::<(usize, usize)>::empty());
    while a < n
        invariant
            n == modules.len() < u32::MAX,
            ms == modules@,
            edges == module_edges(ms, n as int),
            edges.len() < u32::MAX,
            targets.len() == n,
            forall|b: int| 0 <= b < n ==> (#[trigger] targets@[b]).len() == ms[b].deps.len(),
            forall|b: int, j: int| 0 <= b < n && 0 <= j < ms[b].deps.len() ==> named_index(ms, ms[b].deps@[j]@)
                == Some(#[trigger] targets@[b]@[j] as int),
            forall|b: int, j: int| 0 <= b < n && 0 <= j < ms[b].deps.len() ==> #[trigger] targets@[b]@[j] < n,
            0 <= a <= n,
            index_nodes(g).len() == n,
            index_edges(g) == module_edges(ms, a as int),
        decreases n - a,
    {
        let row = &targets[a];
        let ghost e0 = index_edges(g);
        proof {
            lemma_module_edges_len(ms, a as int);
            lemma_module_edges_mono(ms, a + 1, n as int);
        }
        let mut j: usize = 0;
        while j < row.len()
            invariant
                n == modules.len() < u32::MAX,
                ms == modules@,
                0 <= a < n,
                row == targets@[a as int],
                row.len() == ms[a as int].deps.len(),
                forall|jj: int| 0 <= jj < row.len() ==> named_index(ms, ms[a as int].deps@[jj]@) == Some(#[trigger] row@[jj] as int),
                forall|jj: int| 0 <= jj < row.len() ==> #[trigger] row@[jj] < n,
                e0 == module_edges(ms, a as int),
                e0.len() + row.len() <= edges.len() < u32::MAX,
                0 <= j <= row.len(),
                index_nodes(g).len() == n,
                index_edges(g) == e0 + ms[a as int].deps@.take(j as int).map_values(
                    |d: String| (named_index(ms, d@)->0 as usize, a as usize),
                ),
            decreases row.len() - j,
        {
            let ghost before = index_edges(g);
            index_graph_add_edge(&mut g, row[j], a);
            proof {
                let f = |d: String| (named_index(ms, d@)->0 as usize, a as usize);
                assert(ms[a as int].deps@.take(j + 1) =~= ms[a as int].deps@.take(j as int).push(ms[a as int].deps@[j as int]));
                assert(f(ms[a as int].deps@[j as int]) == (row@[j as int], a));
                assert(index_edges(g) =~= e0 + ms[a as int].deps@.take(j + 1).map_values(f));
            }
            j = j + 1;
        }
        proof {
            assert(ms[a as int].deps@.take(row.len() as int) =~= ms[a as int].deps@);
            assert(module_edges(ms, a + 1) == module_edges(ms, a as int) + ms[a as int].deps@.map_values(
                |d: String| (named_index(ms, d@)->0 as usize, a as usize),
            ));
        }
        a = a + 1;
    }
    proof {
        assert forall|e: int| 0 <= e < edges.len() implies (#[trigger] edges[e]).0 < n && edges[e].1 < n by {
            lemma_module_edges_bounds(ms, n as int, e);
        }
    }
    let mut nm: Vec<Vec<char>> = Vec::new();
    let mut q: usize = 0;
    while q < n
        invariant
            n == modules.len(),
            ms == modules@,
            0 <= q <= n,
            nm.len() == q,
            forall|b: int| 0 <= b < q ==> #[trigger] nm@[b]@ == ms[b].name@,
        decreases n - q,
    {
        nm.push(str_chars(modules[q].name.as_str()));
        q = q + 1;
    }
    assert(nm.deep_view() =~= module_names(ms)) by {
        assert forall|b: int| 0 <= b < n implies nm.deep_view()[b] == module_names(ms)[b] by {
            assert(nm.deep_view()[b] == nm@[b]@);
        }
    }
    proof {
        assert forall|b: int, j: int| 0 <= b < n && 0 <= j < ms[b].deps.len() implies #[trigger] dep_known(ms, b, j) by {
            assert(named_index(ms, ms[b].deps@[j]@) == Some(targets@[b]@[j] as int));
        }
    }
    let o = kahn_order(&g, &nm);
    if o.len() == n {
        return Ok(o);
    }
    let mut placed: Vec<bool> = Vec::new();
    let mut x: usize = 0;
    while x < n
        invariant
            0 <= x <= n,
            placed.len() == x,
            forall|y: int| 0 <= y < x ==> (placed@[y] <==> !o@.contains(y as usize)),
        decreases n - x,
    {
        let mut found = false;
        let mut t: usize = 0;
        while t < o.len()
            invariant
                0 <= t <= o.len(),
                found == exists|u: int| 0 <= u < t && o@[u] == x,
            decreases o.len() - t,
        {
            if o[t] == x {
                found = true;
            }
            t = t + 1;
        }
        placed.push(!found);
        x = x + 1;
    }
    let remaining = mask_indices(&placed);
    proof {
        assert forall|y: usize| #[trigger] remaining@.contains(y) <==> (y < n && !o@.contains(y)) by {
            if remaining@.contains(y) {
                assert(remaining@.to_set().contains(y));
                assert(mask_set(placed@).contains(y));
            }
            if y < n && !o@.contains(y) {
                assert(mask_set(placed@).contains(y));
                assert(remaining@.to_set().contains(y));
            }
        }
    }
    Err(JsOrderError::Cycle { remaining })
}

proof fn lemma_module_edges_bounds(ms: Seq<JsModuleInfo>, i: int, e: int)
    requires
        0 <= i <= ms.len(),
        0 <= e < module_edges(ms, i).len(),
        forall|b: int, j: int| 0 <= b < ms.len() && 0 <= j < ms[b].deps.len() ==> #[trigger] dep_known(ms, b, j),
        ms.len() < u32::MAX,
    ensures
        module_edges(ms, i)[e].0 < ms.len(),
        module_edges(ms, i)[e].1 < ms.len(),
    decreases i,
{
    let pre = module_edges(ms, i - 1);
    if e < pre.len() {
        lemma_module_edges_bounds(ms, i - 1, e);
    } else {
        let j = e - pre.len();
        let d = ms[i - 1].deps@[j];
        assert(dep_known(ms, i - 1, j));
        lemma_named_index(ms, d@);
        let k = named_index(ms, d@)->0;
        assert(0 <= k < ms.len());
    }
}

} // verus!
