//! Character-level helpers shared by the path and annotation parsers.
//!
//! Text is modelled as `Seq<char>`; the executable helpers work on
//! `Vec<char>` and convert at the boundary.

use vstd::prelude::*;
use vstd::std_specs::iter::IteratorSpec;

verus! {

/// The characters that `char::is_whitespace` accepts (Unicode `White_Space`).
pub open spec fn is_ws(c: char) -> bool {
    ||| c == '\t'
    ||| c == '\n'
    ||| c == '\u{0B}'
    ||| c == '\u{0C}'
    ||| c == '\r'
    ||| c == ' '
    ||| c == '\u{85}'
    ||| c == '\u{A0}'
    ||| c == '\u{1680}'
    ||| ('\u{2000}' <= c && c <= '\u{200A}')
    ||| c == '\u{2028}'
    ||| c == '\u{2029}'
    ||| c == '\u{202F}'
    ||| c == '\u{205F}'
    ||| c == '\u{3000}'
}

/// Executable whitespace test, equal to `is_ws`.
pub fn char_is_ws(c: char) -> (r: bool)
    ensures
        r == is_ws(c),
{
    c == '\t' || c == '\n' || c == '\u{0B}' || c == '\u{0C}' || c == '\r' || c == ' ' || c
        == '\u{85}' || c == '\u{A0}' || c == '\u{1680}' || ('\u{2000}' <= c && c <= '\u{200A}')
        || c == '\u{2028}' || c == '\u{2029}' || c == '\u{202F}' || c == '\u{205F}' || c
        == '\u{3000}'
}

/// The characters of a string slice, in order.
pub fn str_chars(s: &str) -> (v: Vec<char>)
    ensures
        v@ == s@,
{
    broadcast use vstd::string::axiom_spec_iter, vstd::string::next_postcondition;

    let mut it = s.chars();
    let mut v: Vec<char> = Vec::new();
    loop
        invariant
            v@ + IteratorSpec::remaining(&it) == s@,
            it.obeys_prophetic_iter_laws(),
            IteratorSpec::decrease(&it) is Some,
        ensures
            v@ == s@,
        decreases IteratorSpec::decrease(&it)->0,
    {
        let ghost before = IteratorSpec::remaining(&it);
        match it.next() {
            Some(c) => {
                assert(v@.push(c) + IteratorSpec::remaining(&it) =~= v@ + before);
                v.push(c);
            },
            None => {
                assert(v@ =~= s@);
                break;
            },
        }
    }
    v
}

/// `String`'s `FromIterator<&char>` (a `collect` over the slice): the
/// string made of the given characters, in order.
#[verifier::external_body]
pub(crate) fn string_from_chars(v: &[char]) -> (s: String)
    ensures
        s@ == v@,
{
    v.iter().collect()
}

/// Copy of a string with the same characters.
pub fn copy_string(s: &str) -> (r: String)
    ensures
        r@ == s@,
{
    let v = str_chars(s);
    string_from_chars(v.as_slice())
}

/// Whether two strings hold the same characters.
pub fn str_eq(a: &str, b: &str) -> (r: bool)
    ensures
        r == (a@ == b@),
{
    let va = str_chars(a);
    let vb = str_chars(b);
    chars_eq(&va, &vb)
}

/// Whether two character vectors are equal.
pub fn chars_eq(a: &Vec<char>, b: &Vec<char>) -> (r: bool)
    ensures
        r == (a@ == b@),
{
    if a.len() != b.len() {
        return false;
    }
    let mut i: usize = 0;
    while i < a.len()
        invariant
            a.len() == b.len(),
            0 <= i <= a.len(),
            forall|j: int| 0 <= j < i ==> a@[j] == b@[j],
        decreases a.len() - i,
    {
        if a[i] != b[i] {
            return false;
        }
        i = i + 1;
    }
    assert(a@ =~= b@);
    true
}

/// `s` with every `-` replaced by `_`.
pub open spec fn hyphen_to_underscore(s: Seq<char>) -> Seq<char> {
    s.map_values(|c: char| if c == '-' { '_' } else { c })
}

/// `s` without leading and trailing whitespace (as `str::trim`).
pub open spec fn trim_start(s: Seq<char>) -> Seq<char>
    decreases s.len(),
{
    if s.len() > 0 && is_ws(s[0]) {
        trim_start(s.drop_first())
    } else {
        s
    }
}

pub open spec fn trim_end(s: Seq<char>) -> Seq<char>
    decreases s.len(),
{
    if s.len() > 0 && is_ws(s.last()) {
        trim_end(s.drop_last())
    } else {
        s
    }
}

pub open spec fn trim(s: Seq<char>) -> Seq<char> {
    trim_end(trim_start(s))
}

/// `s` with every trailing `c` removed (as `str::trim_end_matches(c)`).
pub open spec fn trim_end_char(s: Seq<char>, c: char) -> Seq<char>
    decreases s.len(),
{
    if s.len() > 0 && s.last() == c {
        trim_end_char(s.drop_last(), c)
    } else {
        s
    }
}

/// Whether `p` is a prefix of `s`.
pub open spec fn has_prefix(s: Seq<char>, p: Seq<char>) -> bool {
    p.len() <= s.len() && s.take(p.len() as int) == p
}

/// Whether `p` is a suffix of `s`.
pub open spec fn has_suffix(s: Seq<char>, p: Seq<char>) -> bool {
    p.len() <= s.len() && s.skip(s.len() - p.len()) == p
}

/// Whether `p` occurs in `s` at position `i`.
pub open spec fn occurs_at(s: Seq<char>, p: Seq<char>, i: int) -> bool {
    0 <= i && i + p.len() <= s.len() && s.subrange(i, i + p.len()) == p
}

/// Whether `p` occurs somewhere in `s` (as `str::contains`).
pub open spec fn contains_seq(s: Seq<char>, p: Seq<char>) -> bool {
    exists|i: int| occurs_at(s, p, i)
}

pub fn normalize_chars(s: &Vec<char>) -> (r: Vec<char>)
    ensures
        r@ == hyphen_to_underscore(s@),
{
    let mut out: Vec<char> = Vec::new();
    let mut i: usize = 0;
    while i < s.len()
        invariant
            0 <= i <= s.len(),
            out@ =~= hyphen_to_underscore(s@.take(i as int)),
        decreases s.len() - i,
    {
        let c = s[i];
        if c == '-' {
            out.push('_');
        } else {
            out.push(c);
        }
        assert(s@.take(i + 1) =~= s@.take(i as int).push(c));
        i = i + 1;
    }
    assert(s@.take(s.len() as int) =~= s@);
    out
}

pub fn trim_chars(s: &Vec<char>) -> (r: Vec<char>)
    ensures
        r@ == trim(s@),
{
    let mut start: usize = 0;
    assert(s@.skip(0) =~= s@);
    while start < s.len() && char_is_ws(s[start])
        invariant
            0 <= start <= s.len(),
            trim_start(s@) == trim_start(s@.skip(start as int)),
        decreases s.len() - start,
    {
        assert(s@.skip(start as int).drop_first() =~= s@.skip(start + 1));
        start = start + 1;
    }
    let mut end: usize = s.len();
    proof {
        assert(trim_start(s@.skip(start as int)) == s@.skip(start as int));
        assert(s@.skip(start as int) =~= s@.subrange(start as int, end as int));
    }
    while end > start && char_is_ws(s[end - 1])
        invariant
            start <= end <= s.len(),
            trim(s@) == trim_end(s@.subrange(start as int, end as int)),
        decreases end,
    {
        assert(s@.subrange(start as int, end as int).drop_last() =~= s@.subrange(
            start as int,
            end - 1,
        ));
        end = end - 1;
    }
    let mut out: Vec<char> = Vec::new();
    let mut k: usize = start;
    while k < end
        invariant
            start <= k <= end <= s.len(),
            out@ =~= s@.subrange(start as int, k as int),
        decreases end - k,
    {
        out.push(s[k]);
        k = k + 1;
    }
    out
}

pub fn trim_end_char_chars(s: &Vec<char>, c: char) -> (r: Vec<char>)
    ensures
        r@ == trim_end_char(s@, c),
{
    let mut end: usize = s.len();
    assert(s@.take(end as int) =~= s@);
    while end > 0 && s[end - 1] == c
        invariant
            end <= s.len(),
            trim_end_char(s@, c) == trim_end_char(s@.take(end as int), c),
        decreases end,
    {
        assert(s@.take(end as int).drop_last() =~= s@.take(end - 1));
        end = end - 1;
    }
    let mut out: Vec<char> = Vec::new();
    let mut k: usize = 0;
    while k < end
        invariant
            k <= end <= s.len(),
            out@ =~= s@.take(k as int),
        decreases end - k,
    {
        out.push(s[k]);
        k = k + 1;
    }
    out
}

pub fn chars_have_prefix(s: &Vec<char>, p: &Vec<char>) -> (r: bool)
    ensures
        r == has_prefix(s@, p@),
{
    if p.len() > s.len() {
        return false;
    }
    let mut i: usize = 0;
    while i < p.len()
        invariant
            p.len() <= s.len(),
            0 <= i <= p.len(),
            forall|j: int| 0 <= j < i ==> s@[j] == p@[j],
        decreases p.len() - i,
    {
        if s[i] != p[i] {
            assert(s@.take(p.len() as int)[i as int] != p@[i as int]);
            return false;
        }
        i = i + 1;
    }
    assert(s@.take(p.len() as int) =~= p@);
    true
}

pub fn chars_have_suffix(s: &Vec<char>, p: &Vec<char>) -> (r: bool)
    ensures
        r == has_suffix(s@, p@),
{
    if p.len() > s.len() {
        return false;
    }
    let off = s.len() - p.len();
    let mut i: usize = 0;
    while i < p.len()
        invariant
            p.len() <= s.len(),
            off == s.len() - p.len(),
            0 <= i <= p.len(),
            forall|j: int| 0 <= j < i ==> s@[off + j] == p@[j],
        decreases p.len() - i,
    {
        if s[off + i] != p[i] {
            assert(s@.skip(off as int)[i as int] != p@[i as int]);
            return false;
        }
        i = i + 1;
    }
    assert(s@.skip(off as int) =~= p@);
    true
}

/// Whether `p` occurs in `s` at `i`.
pub fn chars_occur_at(s: &Vec<char>, p: &Vec<char>, i: usize) -> (r: bool)
    ensures
        r == occurs_at(s@, p@, i as int),
{
    if i > s.len() || p.len() > s.len() - i {
        return false;
    }
    let mut k: usize = 0;
    while k < p.len()
        invariant
            i + p.len() <= s.len(),
            0 <= k <= p.len(),
            forall|j: int| 0 <= j < k ==> s@[i + j] == p@[j],
        decreases p.len() - k,
    {
        if s[i + k] != p[k] {
            assert(s@.subrange(i as int, i + p.len())[k as int] != p@[k as int]);
            return false;
        }
        k = k + 1;
    }
    assert(s@.subrange(i as int, i + p.len()) =~= p@);
    true
}

/// Whether `p` occurs somewhere in `s`.
pub fn chars_contain(s: &Vec<char>, p: &Vec<char>) -> (r: bool)
    ensures
        r == contains_seq(s@, p@),
{
    if p.len() > s.len() {
        assert forall|i: int| !occurs_at(s@, p@, i) by {}
        return false;
    }
    let last = s.len() - p.len();
    let mut i: usize = 0;
    while i < last
        invariant
            p.len() <= s.len(),
            last == s.len() - p.len(),
            0 <= i <= last,
            forall|j: int| 0 <= j < i ==> !occurs_at(s@, p@, j),
        decreases last - i,
    {
        if chars_occur_at(s, p, i) {
            return true;
        }
        i = i + 1;
    }
    if chars_occur_at(s, p, last) {
        return true;
    }
    assert forall|j: int| !occurs_at(s@, p@, j) by {
        if 0 <= j && j < i {
        } else if j == last {
        }
    }
    false
}

} // verus!

verus! {

/// Whether a `::` separator starts at `i`.
pub open spec fn is_sep_at(s: Seq<char>, i: int) -> bool {
    0 <= i && i + 1 < s.len() && s[i] == ':' && s[i + 1] == ':'
}

/// Left-to-right split of `s` on `::`, where the current segment began at
/// `start` and the scan has reached `cur` (as `str::split("::")`).
pub open spec fn split_from(s: Seq<char>, start: int, cur: int) -> Seq<Seq<char>>
    decreases s.len() - cur,
{
    if cur >= s.len() {
        seq![s.subrange(start, s.len() as int)]
    } else if is_sep_at(s, cur) {
        seq![s.subrange(start, cur)] + split_from(s, cur + 2, cur + 2)
    } else {
        split_from(s, start, cur + 1)
    }
}

/// The `::`-separated segments of a path.
pub open spec fn split_path(s: Seq<char>) -> Seq<Seq<char>> {
    split_from(s, 0, 0)
}

pub proof fn lemma_split_from_nonempty(s: Seq<char>, start: int, cur: int)
    ensures
        split_from(s, start, cur).len() >= 1,
    decreases s.len() - cur,
{
    if cur >= s.len() {
    } else if is_sep_at(s, cur) {
        lemma_split_from_nonempty(s, cur + 2, cur + 2);
    } else {
        lemma_split_from_nonempty(s, start, cur + 1);
    }
}

/// Segments joined with `::` (as `[..].join("::")`).
pub open spec fn join_path(parts: Seq<Seq<char>>) -> Seq<char>
    decreases parts.len(),
{
    if parts.len() == 0 {
        Seq::empty()
    } else if parts.len() == 1 {
        parts[0]
    } else {
        join_path(parts.drop_last()) + seq![':', ':'] + parts.last()
    }
}

/// `a::b`
pub open spec fn path_concat(a: Seq<char>, b: Seq<char>) -> Seq<char> {
    a + seq![':', ':'] + b
}

/// Splits a path into its `::`-separated segments.
pub fn split_path_chars(s: &Vec<char>) -> (r: Vec<Vec<char>>)
    ensures
        r.deep_view() == split_path(s@),
        r.len() >= 1,
{
    let mut out: Vec<Vec<char>> = Vec::new();
    let mut seg: Vec<char> = Vec::new();
    let mut start: usize = 0;
    let mut i: usize = 0;
    while i < s.len()
        invariant
            start <= i <= s.len(),
            seg@ =~= s@.subrange(start as int, i as int),
            out.deep_view() + split_from(s@, start as int, i as int) == split_path(s@),
        decreases s.len() - i,
    {
        if i + 1 < s.len() && s[i] == ':' && s[i + 1] == ':' {
            let ghost old_out = out.deep_view();
            assert(split_from(s@, start as int, i as int) == seq![
                s@.subrange(start as int, i as int),
            ] + split_from(s@, i + 2, i + 2));
            assert(seg.deep_view() =~= seg@);
            out.push(seg);
            assert(out.deep_view() =~= old_out.push(s@.subrange(start as int, i as int)));
            assert(old_out + (seq![s@.subrange(start as int, i as int)] + split_from(
                s@,
                i + 2,
                i + 2,
            )) =~= out.deep_view() + split_from(s@, i + 2, i + 2));
            seg = Vec::new();
            i = i + 2;
            start = i;
        } else {
            seg.push(s[i]);
            i = i + 1;
        }
    }
    let ghost old_out = out.deep_view();
    assert(seg.deep_view() =~= seg@);
    out.push(seg);
    assert(out.deep_view() =~= old_out.push(s@.subrange(start as int, s.len() as int)));
    assert(old_out + split_from(s@, start as int, i as int) =~= out.deep_view());
    out
}

/// Joins segments with `::`.
pub fn join_path_chars(parts: &Vec<Vec<char>>, n: usize) -> (r: Vec<char>)
    requires
        n <= parts.len(),
    ensures
        r@ == join_path(parts.deep_view().take(n as int)),
{
    let mut out: Vec<char> = Vec::new();
    let mut i: usize = 0;
    assert(parts.deep_view().take(0) =~= Seq::<Seq<char>>::empty());
    while i < n
        invariant
            i <= n <= parts.len(),
            out@ == join_path(parts.deep_view().take(i as int)),
        decreases n - i,
    {
        let ghost prev = parts.deep_view().take(i as int);
        assert(parts.deep_view().take(i + 1).drop_last() =~= prev);
        if i > 0 {
            out.push(':');
            out.push(':');
        }
        let mut piece = parts[i].clone();
        proof {
            assert(piece@ == parts[i as int]@);
        }
        out.append(&mut piece);
        assert(parts.deep_view()[i as int] == parts[i as int]@);
        if i == 0 {
            assert(out@ =~= parts.deep_view().take(1)[0]);
        } else {
            assert(out@ =~= join_path(prev) + seq![':', ':'] + parts.deep_view()[i as int]);
        }
        i = i + 1;
    }
    out
}

/// Appends the characters of `s` to `out`.
pub fn push_str(out: &mut Vec<char>, s: &str)
    ensures
        final(out)@ == old(out)@ + s@,
{
    let mut v = str_chars(s);
    out.append(&mut v);
}

/// Left-to-right split of `s` on the character `c`, where the current piece
/// began at `start` and the scan has reached `cur` (as `str::split(c)`).
pub open spec fn split_char_from(s: Seq<char>, c: char, start: int, cur: int) -> Seq<Seq<char>>
    decreases s.len() - cur,
{
    if cur >= s.len() {
        seq![s.subrange(start, s.len() as int)]
    } else if s[cur] == c {
        seq![s.subrange(start, cur)] + split_char_from(s, c, cur + 1, cur + 1)
    } else {
        split_char_from(s, c, start, cur + 1)
    }
}

/// The pieces of `s` between occurrences of `c`.
pub open spec fn split_char(s: Seq<char>, c: char) -> Seq<Seq<char>> {
    split_char_from(s, c, 0, 0)
}

pub proof fn lemma_split_char_from_nonempty(s: Seq<char>, c: char, start: int, cur: int)
    ensures
        split_char_from(s, c, start, cur).len() >= 1,
    decreases s.len() - cur,
{
    if cur >= s.len() {
    } else if s[cur] == c {
        lemma_split_char_from_nonempty(s, c, cur + 1, cur + 1);
    } else {
        lemma_split_char_from_nonempty(s, c, start, cur + 1);
    }
}

/// The lines of a text: the pieces between `\n`, without the empty piece
/// after a final `\n` (as `str::lines`, except that a `\r` before `\n` is
/// kept; the callers trim every line).
pub open spec fn text_lines(s: Seq<char>) -> Seq<Seq<char>> {
    let p = split_char(s, '\n');
    if p.len() > 0 && p.last().len() == 0 {
        p.drop_last()
    } else {
        p
    }
}

/// Splits `s` at every `c`.
pub fn split_chars_on(s: &Vec<char>, c: char) -> (r: Vec<Vec<char>>)
    ensures
        r.deep_view() == split_char(s@, c),
        r.len() >= 1,
{
    let mut out: Vec<Vec<char>> = Vec::new();
    let mut seg: Vec<char> = Vec::new();
    let mut start: usize = 0;
    let mut i: usize = 0;
    while i < s.len()
        invariant
            start <= i <= s.len(),
            seg@ =~= s@.subrange(start as int, i as int),
            out.deep_view() + split_char_from(s@, c, start as int, i as int) == split_char(s@, c),
        decreases s.len() - i,
    {
        if s[i] == c {
            let ghost old_out = out.deep_view();
            assert(split_char_from(s@, c, start as int, i as int) == seq![s@.subrange(start as int, i as int)]
                + split_char_from(s@, c, i + 1, i + 1));
            assert(seg.deep_view() =~= seg@);
            out.push(seg);
            assert(out.deep_view() =~= old_out.push(s@.subrange(start as int, i as int)));
            assert(old_out + (seq![s@.subrange(start as int, i as int)] + split_char_from(s@, c, i + 1, i + 1))
                =~= out.deep_view() + split_char_from(s@, c, i + 1, i + 1));
            seg = Vec::new();
            i = i + 1;
            start = i;
        } else {
            seg.push(s[i]);
            i = i + 1;
        }
    }
    let ghost old_out = out.deep_view();
    assert(seg.deep_view() =~= seg@);
    out.push(seg);
    assert(out.deep_view() =~= old_out.push(s@.subrange(start as int, s.len() as int)));
    assert(old_out + split_char_from(s@, c, start as int, i as int) =~= out.deep_view());
    out
}

/// The lines of a text.
pub fn lines_of(s: &str) -> (r: Vec<Vec<char>>)
    ensures
        r.deep_view() == text_lines(s@),
{
    let cs = str_chars(s);
    let mut parts = split_chars_on(&cs, '\n');
    let ghost p = parts.deep_view();
    if parts.len() > 0 && parts[parts.len() - 1].len() == 0 {
        assert(p.last() == parts@[parts.len() - 1]@);
        parts.pop();
        assert(parts.deep_view() =~= p.drop_last());
    } else {
        proof {
            if p.len() > 0 {
                assert(p.last() == parts@[parts.len() - 1]@);
            }
        }
    }
    parts
}

} // verus!
