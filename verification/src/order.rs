//! Orders on names and file paths, as `String` and `PathBuf` compare them.

use vstd::prelude::*;
use crate::strings::str_chars;

verus! {

/// `a` sorts before `b`, comparing characters by code point; a proper
/// prefix sorts first (the order of `str`, which compares UTF-8 bytes).
pub open spec fn lex_lt(a: Seq<char>, b: Seq<char>) -> bool
    decreases a.len(),
{
    if b.len() == 0 {
        false
    } else if a.len() == 0 {
        true
    } else if a[0] != b[0] {
        (a[0] as int) < (b[0] as int)
    } else {
        lex_lt(a.drop_first(), b.drop_first())
    }
}

pub proof fn lemma_lex_irreflexive(a: Seq<char>)
    ensures
        !lex_lt(a, a),
    decreases a.len(),
{
    if a.len() > 0 {
        lemma_lex_irreflexive(a.drop_first());
    }
}

pub proof fn lemma_lex_transitive(a: Seq<char>, b: Seq<char>, c: Seq<char>)
    requires
        lex_lt(a, b),
        lex_lt(b, c),
    ensures
        lex_lt(a, c),
    decreases a.len(),
{
    if a.len() > 0 && b.len() > 0 && c.len() > 0 && a[0] == b[0] && b[0] == c[0] {
        lemma_lex_transitive(a.drop_first(), b.drop_first(), c.drop_first());
    }
}

pub proof fn lemma_lex_total(a: Seq<char>, b: Seq<char>)
    ensures
        lex_lt(a, b) || lex_lt(b, a) || a == b,
    decreases a.len(),
{
    if a.len() > 0 && b.len() > 0 && a[0] == b[0] {
        lemma_lex_total(a.drop_first(), b.drop_first());
        if a.drop_first() == b.drop_first() {
            assert(a =~= seq![a[0]] + a.drop_first());
            assert(b =~= seq![b[0]] + b.drop_first());
        }
    } else if a.len() == 0 && b.len() == 0 {
        assert(a =~= b);
    }
}

pub proof fn lemma_lex_asymmetric(a: Seq<char>, b: Seq<char>)
    requires
        lex_lt(a, b),
    ensures
        !lex_lt(b, a),
{
    if lex_lt(b, a) {
        lemma_lex_transitive(a, b, a);
        lemma_lex_irreflexive(a);
    }
}

/// `a <= b <= c` implies `a <= c` (as "not after").
pub proof fn lemma_lex_le_transitive(a: Seq<char>, b: Seq<char>, c: Seq<char>)
    requires
        !lex_lt(b, a),
        !lex_lt(c, b),
    ensures
        !lex_lt(c, a),
{
    lemma_lex_total(a, b);
    lemma_lex_total(b, c);
    if lex_lt(c, a) {
        if a == b {
            assert(lex_lt(c, b));
        } else if b == c {
            assert(lex_lt(b, a));
        } else {
            lemma_lex_transitive(a, b, c);
            lemma_lex_asymmetric(a, c);
        }
    }
}

/// Three-way comparison: -1, 0 or 1.
pub fn compare_chars(a: &Vec<char>, b: &Vec<char>) -> (r: i8)
    ensures
        r == -1 <==> lex_lt(a@, b@),
        r == 0 <==> a@ == b@,
        r == 1 <==> lex_lt(b@, a@),
{
    let mut i: usize = 0;
    assert(a@.skip(0) =~= a@);
    assert(b@.skip(0) =~= b@);
    while i < a.len() && i < b.len()
        invariant
            0 <= i <= a.len(),
            i <= b.len(),
            a@.take(i as int) == b@.take(i as int),
            lex_lt(a@, b@) == lex_lt(a@.skip(i as int), b@.skip(i as int)),
            lex_lt(b@, a@) == lex_lt(b@.skip(i as int), a@.skip(i as int)),
        decreases a.len() - i,
    {
        assert(a@.skip(i as int).drop_first() =~= a@.skip(i + 1));
        assert(b@.skip(i as int).drop_first() =~= b@.skip(i + 1));
        if a[i] != b[i] {
            proof {
                assert(a@ != b@) by {
                    assert(a@[i as int] != b@[i as int]);
                }
            }
            if a[i] < b[i] {
                return -1;
            } else {
                return 1;
            }
        }
        assert(a@.take(i + 1) =~= a@.take(i as int).push(a@[i as int]));
        assert(b@.take(i + 1) =~= b@.take(i as int).push(b@[i as int]));
        i = i + 1;
    }
    if a.len() == b.len() {
        assert(a@ =~= a@.take(i as int));
        assert(b@ =~= b@.take(i as int));
        proof {
            lemma_lex_irreflexive(a@);
        }
        0
    } else if i == a.len() {
        assert(a@ != b@) by {
            assert(a@.len() != b@.len());
        }
        -1
    } else {
        assert(a@ != b@) by {
            assert(a@.len() != b@.len());
        }
        1
    }
}

/// Whether `a` sorts before `b`.
pub fn str_lt(a: &str, b: &str) -> (r: bool)
    ensures
        r == lex_lt(a@, b@),
{
    let va = str_chars(a);
    let vb = str_chars(b);
    compare_chars(&va, &vb) == -1
}

/// A path component as `std::path::Component` orders them: the root (0),
/// `.` (1), `..` (2), then a named component (3) with its name.
pub type Comp = (nat, Seq<char>);

pub open spec fn comp_lt(x: Comp, y: Comp) -> bool {
    x.0 < y.0 || (x.0 == y.0 && lex_lt(x.1, y.1))
}

/// Lexicographic order on component sequences (as `Path` compares).
pub open spec fn comps_lt(a: Seq<Comp>, b: Seq<Comp>) -> bool
    decreases a.len(),
{
    if b.len() == 0 {
        false
    } else if a.len() == 0 {
        true
    } else if a[0] != b[0] {
        comp_lt(a[0], b[0])
    } else {
        comps_lt(a.drop_first(), b.drop_first())
    }
}

/// The component named by one `/`-separated part: none for an empty part
/// or `.`.
pub open spec fn part_comp(p: Seq<char>) -> Seq<Comp> {
    if p.len() == 0 || p == seq!['.'] {
        Seq::empty()
    } else if p == seq!['.', '.'] {
        seq![(2nat, Seq::<char>::empty())]
    } else {
        seq![(3nat, p)]
    }
}

/// Components of the parts of `s` from `start`, the scan being at `cur`.
pub open spec fn comps_from(s: Seq<char>, start: int, cur: int) -> Seq<Comp>
    decreases s.len() - cur,
{
    if cur >= s.len() {
        part_comp(s.subrange(start, s.len() as int))
    } else if s[cur] == '/' {
        part_comp(s.subrange(start, cur)) + comps_from(s, cur + 1, cur + 1)
    } else {
        comps_from(s, start, cur + 1)
    }
}

/// The components of a Unix path, as `Path::components` yields them:
/// a leading `/` is the root, a leading `.` of a relative path is kept,
/// other `.` parts and empty parts are dropped.
pub open spec fn path_components(s: Seq<char>) -> Seq<Comp> {
    if s.len() > 0 && s[0] == '/' {
        seq![(0nat, Seq::<char>::empty())] + comps_from(s, 1, 1)
    } else if s.len() > 0 && s[0] == '.' && (s.len() == 1 || s[1] == '/') {
        seq![(1nat, Seq::<char>::empty())] + comps_from(s, 1, 1)
    } else {
        comps_from(s, 0, 0)
    }
}

/// `a` sorts before `b` as paths.
pub open spec fn path_lt(a: Seq<char>, b: Seq<char>) -> bool {
    comps_lt(path_components(a), path_components(b))
}

pub proof fn lemma_comps_irreflexive(a: Seq<Comp>)
    ensures
        !comps_lt(a, a),
    decreases a.len(),
{
    if a.len() > 0 {
        lemma_comps_irreflexive(a.drop_first());
    }
}

pub proof fn lemma_comps_transitive(a: Seq<Comp>, b: Seq<Comp>, c: Seq<Comp>)
    requires
        comps_lt(a, b),
        comps_lt(b, c),
    ensures
        comps_lt(a, c),
    decreases a.len(),
{
    if a.len() > 0 && b.len() > 0 && c.len() > 0 {
        if a[0] == b[0] && b[0] == c[0] {
            lemma_comps_transitive(a.drop_first(), b.drop_first(), c.drop_first());
        } else if a[0] == b[0] {
        } else if b[0] == c[0] {
        } else {
            if a[0].0 == b[0].0 && b[0].0 == c[0].0 {
                lemma_lex_transitive(a[0].1, b[0].1, c[0].1);
            }
            if a[0] == c[0] {
                if a[0].0 == b[0].0 {
                    lemma_lex_transitive(a[0].1, b[0].1, a[0].1);
                    lemma_lex_irreflexive(a[0].1);
                }
            }
        }
    }
}

pub proof fn lemma_comps_total(a: Seq<Comp>, b: Seq<Comp>)
    ensures
        comps_lt(a, b) || comps_lt(b, a) || a == b,
    decreases a.len(),
{
    if a.len() > 0 && b.len() > 0 {
        if a[0] == b[0] {
            lemma_comps_total(a.drop_first(), b.drop_first());
            if a.drop_first() == b.drop_first() {
                assert(a =~= seq![a[0]] + a.drop_first());
                assert(b =~= seq![b[0]] + b.drop_first());
            }
        } else {
            lemma_lex_total(a[0].1, b[0].1);
        }
    } else if a.len() == 0 && b.len() == 0 {
        assert(a =~= b);
    }
}

/// Equal component sequences mean equal paths for the order: neither
/// sorts before the other.
pub proof fn lemma_path_lt_asymmetric(a: Seq<char>, b: Seq<char>)
    requires
        path_lt(a, b),
    ensures
        !path_lt(b, a),
{
    if path_lt(b, a) {
        lemma_comps_transitive(path_components(a), path_components(b), path_components(a));
        lemma_comps_irreflexive(path_components(a));
    }
}

fn part_comp_exec(s: &Vec<char>, start: usize, end: usize) -> (r: Vec<(u8, Vec<char>)>)
    requires
        start <= end <= s.len(),
    ensures
        comps_view(r@) == part_comp(s@.subrange(start as int, end as int)),
{
    let mut p: Vec<char> = Vec::new();
    let mut i: usize = start;
    while i < end
        invariant
            start <= i <= end <= s.len(),
            p@ == s@.subrange(start as int, i as int),
        decreases end - i,
    {
        p.push(s[i]);
        assert(s@.subrange(start as int, i + 1) =~= s@.subrange(start as int, i as int).push(s@[i as int]));
        i = i + 1;
    }
    let mut r: Vec<(u8, Vec<char>)> = Vec::new();
    if p.len() == 0 || (p.len() == 1 && p[0] == '.') {
        assert(p.len() == 1 ==> p@ =~= seq!['.']);
        assert(comps_view(r@) =~= Seq::<Comp>::empty());
    } else if p.len() == 2 && p[0] == '.' && p[1] == '.' {
        assert(p@ =~= seq!['.', '.']);
        r.push((2, Vec::new()));
        assert(comps_view(r@) =~= seq![(2nat, Seq::<char>::empty())]);
    } else {
        assert(p@ != seq!['.']);
        assert(p@ != seq!['.', '.']);
        let ghost pv = p@;
        r.push((3, p));
        assert(comps_view(r@) =~= seq![(3nat, pv)]);
    }
    r
}

/// Views of executable components.
pub open spec fn comps_view(s: Seq<(u8, Vec<char>)>) -> Seq<Comp> {
    s.map_values(|c: (u8, Vec<char>)| (c.0 as nat, c.1@))
}

/// The components of a path (see `path_components`).
pub fn components_of(path: &str) -> (r: Vec<(u8, Vec<char>)>)
    ensures
        comps_view(r@) == path_components(path@),
{
    let s = str_chars(path);
    let mut out: Vec<(u8, Vec<char>)> = Vec::new();
    let mut start: usize = 0;
    if s.len() > 0 && s[0] == '/' {
        out.push((0, Vec::new()));
        start = 1;
    } else if s.len() > 0 && s[0] == '.' && (s.len() == 1 || s[1] == '/') {
        out.push((1, Vec::new()));
        start = 1;
    }
    let ghost head = comps_view(out@);
    assert(path_components(s@) == head + comps_from(s@, start as int, start as int));
    let mut i: usize = start;
    while i < s.len()
        invariant
            start <= i <= s.len(),
            comps_view(out@) + comps_from(s@, start as int, i as int) == path_components(s@),
        decreases s.len() - i,
    {
        if s[i] == '/' {
            let mut piece = part_comp_exec(&s, start, i);
            let ghost o = comps_view(out@);
            let ghost pc = comps_view(piece@);
            out.append(&mut piece);
            assert(comps_view(out@) =~= o + pc);
            assert(o + (pc + comps_from(s@, i + 1, i + 1)) =~= comps_view(out@) + comps_from(s@, i + 1, i + 1));
            i = i + 1;
            start = i;
        } else {
            i = i + 1;
        }
    }
    let mut piece = part_comp_exec(&s, start, s.len());
    let ghost o = comps_view(out@);
    let ghost pc = comps_view(piece@);
    out.append(&mut piece);
    assert(comps_view(out@) =~= o + pc);
    out
}

/// Whether path `a` sorts before path `b` (component-wise, as `Path` orders).
pub fn path_less(a: &str, b: &str) -> (r: bool)
    ensures
        r == path_lt(a@, b@),
{
    let ca = components_of(a);
    let cb = components_of(b);
    let ghost va = comps_view(ca@);
    let ghost vb = comps_view(cb@);
    let mut i: usize = 0;
    assert(va.skip(0) =~= va);
    assert(vb.skip(0) =~= vb);
    while i < ca.len() && i < cb.len()
        invariant
            0 <= i <= ca.len(),
            i <= cb.len(),
            va == comps_view(ca@),
            vb == comps_view(cb@),
            va == path_components(a@),
            vb == path_components(b@),
            comps_lt(va, vb) == comps_lt(va.skip(i as int), vb.skip(i as int)),
        decreases ca.len() - i,
    {
        assert(va.skip(i as int).drop_first() =~= va.skip(i + 1));
        assert(vb.skip(i as int).drop_first() =~= vb.skip(i + 1));
        assert(va.skip(i as int)[0] == va[i as int]);
        assert(vb.skip(i as int)[0] == vb[i as int]);
        assert(va[i as int] == (ca@[i as int].0 as nat, ca@[i as int].1@));
        assert(vb[i as int] == (cb@[i as int].0 as nat, cb@[i as int].1@));
        let ta = ca[i].0;
        let tb = cb[i].0;
        if ta != tb {
            assert(va.skip(i as int)[0] != vb.skip(i as int)[0]);
            assert(comps_lt(va.skip(i as int), vb.skip(i as int)) == comp_lt(va[i as int], vb[i as int]));
            return ta < tb;
        }
        let c = compare_chars(&ca[i].1, &cb[i].1);
        if c != 0 {
            assert(va.skip(i as int)[0] != vb.skip(i as int)[0]);
            assert(comps_lt(va.skip(i as int), vb.skip(i as int)) == comp_lt(va[i as int], vb[i as int]));
            return c == -1;
        }
        assert(va[i as int] == vb[i as int]);
        i = i + 1;
    }
    i < cb.len()
}

} // verus!
