//! Command-line options of `cargo arc` and the report of dependency cycles.

use vstd::prelude::*;
use crate::filtering::FeatureConfig;
use crate::graph::{ArcGraph, node_name};
use crate::layout::Cycle;
use crate::model::clone_strings;
use crate::strings::{has_prefix, has_suffix, push_str};

verus! {

/// The options of `cargo arc`.
#[derive(Debug)]
pub struct Args {
    /// Output file (standard output when absent).
    pub output: Option<String>,
    /// Path to the workspace manifest.
    pub manifest_path: String,
    /// Features to activate.
    pub features: Vec<String>,
    pub all_features: bool,
    pub no_default_features: bool,
    /// Include test code in the analysis.
    pub include_tests: bool,
    /// Only check the graph: fail when it has cycles.
    pub check: bool,
    pub debug: bool,
    /// Print the volatility report instead of the graph.
    pub volatility: bool,
    pub no_volatility: bool,
    pub volatility_months: usize,
    pub volatility_low: usize,
    pub volatility_high: usize,
    /// Include external crate dependencies.
    pub externals: bool,
    /// Include transitive external dependencies.
    pub transitive_deps: bool,
}

/// The `cargo` command line with `arc` as subcommand.
#[derive(Debug)]
pub enum Cargo {
    Arc(Args),
}

impl Args {
    /// The feature selection these options ask for.
    pub fn feature_config(&self) -> (r: FeatureConfig)
        ensures
            r.features.deep_view() == self.features.deep_view(),
            r.all_features == self.all_features,
            r.no_default_features == self.no_default_features,
            r.include_tests == self.include_tests,
            r.debug == self.debug,
    {
        FeatureConfig {
            features: clone_strings(&self.features),
            all_features: self.all_features,
            no_default_features: self.no_default_features,
            include_tests: self.include_tests,
            debug: self.debug,
        }
    }
}

/// The decimal digits of `n`.
pub open spec fn decimal(n: nat) -> Seq<char>
    decreases n,
{
    if n < 10 {
        seq![digit_char(n)]
    } else {
        decimal(n / 10).push(digit_char(n % 10))
    }
}

pub open spec fn digit_char(d: nat) -> char {
    if d == 0 {
        '0'
    } else if d == 1 {
        '1'
    } else if d == 2 {
        '2'
    } else if d == 3 {
        '3'
    } else if d == 4 {
        '4'
    } else if d == 5 {
        '5'
    } else if d == 6 {
        '6'
    } else if d == 7 {
        '7'
    } else if d == 8 {
        '8'
    } else {
        '9'
    }
}

fn digit_of(d: usize) -> (c: char)
    requires
        d < 10,
    ensures
        c == digit_char(d as nat),
{
    if d == 0 {
        '0'
    } else if d == 1 {
        '1'
    } else if d == 2 {
        '2'
    } else if d == 3 {
        '3'
    } else if d == 4 {
        '4'
    } else if d == 5 {
        '5'
    } else if d == 6 {
        '6'
    } else if d == 7 {
        '7'
    } else if d == 8 {
        '8'
    } else {
        '9'
    }
}

/// The value of a string of decimal digits.
pub open spec fn digits_value(s: Seq<char>) -> int
    decreases s.len(),
{
    if s.len() == 0 {
        0
    } else {
        digits_value(s.drop_last()) * 10 + (s.last() as int - '0' as int)
    }
}

proof fn lemma_digit_char(d: nat)
    requires
        d < 10,
    ensures
        digit_char(d) as int - '0' as int == d,
        '0' <= digit_char(d) <= '9',
        digit_char(d) == '0' ==> d == 0,
{
}

/// `decimal(n)` writes `n` in base ten: digits only, no leading zero, and
/// reading them back gives `n`.
pub proof fn law_decimal_reads_back(n: nat)
    ensures
        digits_value(decimal(n)) == n,
        decimal(n).len() > 0,
        forall|k: int| 0 <= k < decimal(n).len() ==> '0' <= #[trigger] decimal(n)[k] <= '9',
        decimal(n)[0] == '0' ==> n == 0,
    decreases n,
{
    if n < 10 {
        lemma_digit_char(n);
        assert(decimal(n) == seq![digit_char(n)]);
        assert(seq![digit_char(n)].drop_last() =~= Seq::<char>::empty());
        assert(digits_value(Seq::<char>::empty()) == 0);
        assert(digits_value(seq![digit_char(n)]) == 0 * 10 + (digit_char(n) as int - '0' as int));
    } else {
        law_decimal_reads_back(n / 10);
        lemma_digit_char(n % 10);
        let d = decimal(n / 10);
        let r = d.push(digit_char(n % 10));
        assert(decimal(n) == r);
        assert(r.drop_last() =~= d);
        assert(digits_value(r) == digits_value(d) * 10 + (digit_char(n % 10) as int - '0' as int));
        assert(digits_value(d) == (n / 10) as int);
        assert((n / 10) * 10 + n % 10 == n);
        assert(digits_value(r) == n) by (nonlinear_arith)
            requires
                digits_value(r) == digits_value(d) * 10 + (n % 10) as int,
                digits_value(d) == (n / 10) as int,
                (n / 10) * 10 + n % 10 == n;
        assert forall|k: int| 0 <= k < r.len() implies '0' <= #[trigger] r[k] <= '9' by {
            if k < d.len() {
                assert(r[k] == d[k]);
            }
        }
        assert(r[0] == d[0]);
    }
}

/// Appends the decimal digits of `n`.
fn push_decimal(out: &mut Vec<char>, n: usize)
    ensures
        final(out)@ == old(out)@ + decimal(n as nat),
    decreases n,
{
    if n < 10 {
        out.push(digit_of(n));
        assert(decimal(n as nat) == seq![digit_char(n as nat)]);
    } else {
        push_decimal(out, n / 10);
        out.push(digit_of(n % 10));
    }
}

/// Names joined with ` -> `.
pub open spec fn join_arrows(names: Seq<Seq<char>>) -> Seq<char>
    decreases names.len(),
{
    if names.len() == 0 {
        Seq::empty()
    } else if names.len() == 1 {
        names[0]
    } else {
        join_arrows(names.drop_last()) + " -> "@ + names.last()
    }
}

/// The error line of a cycle through the named nodes: `A <-> B` for two
/// nodes, else the chain back to the first.
pub open spec fn cycle_line(names: Seq<Seq<char>>) -> Seq<char> {
    if names.len() == 2 {
        "error[cycle]: "@ + names[0] + " <-> "@ + names[1] + "\n"@
    } else {
        "error[cycle]: "@ + join_arrows(names) + " -> "@ + names[0] + "\n"@
    }
}

/// The names of the nodes of a cycle.
pub open spec fn cycle_names(graph: ArcGraph, c: Cycle) -> Seq<Seq<char>> {
    c.nodes@.map_values(|i: usize| node_name(graph@.nodes[i as int]))
}

/// The error lines of the first `k` cycles.
pub open spec fn cycle_lines(graph: ArcGraph, cycles: Seq<Cycle>, k: int) -> Seq<char>
    decreases k,
{
    if k <= 0 {
        Seq::empty()
    } else {
        cycle_lines(graph, cycles, k - 1) + cycle_line(cycle_names(graph, cycles[k - 1]))
    }
}

/// The report of the cycles: one line per cycle and a summary, or nothing
/// without cycles.
pub open spec fn cycle_report(graph: ArcGraph, cycles: Seq<Cycle>) -> Seq<char> {
    if cycles.len() == 0 {
        Seq::empty()
    } else {
        cycle_lines(graph, cycles, cycles.len() as int) + "\nerror: found "@ + decimal(cycles.len())
            + " cycle(s) in dependency graph\n"@
    }
}

/// `s` holds no newline.
pub open spec fn no_newline(s: Seq<char>) -> bool {
    forall|k: int| 0 <= k < s.len() ==> s[k] != '\n'
}

proof fn lemma_join_arrows_no_newline(names: Seq<Seq<char>>)
    requires
        forall|i: int| 0 <= i < names.len() ==> no_newline(#[trigger] names[i]),
    ensures
        no_newline(join_arrows(names)),
    decreases names.len(),
{
    if names.len() > 1 {
        lemma_join_arrows_no_newline(names.drop_last());
        reveal_strlit(" -> ");
        let a = join_arrows(names.drop_last());
        let r = a + " -> "@ + names.last();
        assert forall|k: int| 0 <= k < r.len() implies r[k] != '\n' by {
            if k < a.len() {
                assert(r[k] == a[k]);
            } else if k < a.len() + 4 {
                assert(r[k] == " -> "@[k - a.len()]);
            } else {
                assert(r[k] == names.last()[k - a.len() - 4]);
            }
        }
    }
}

/// The line of one cycle starts with `error[cycle]: ` and the first name,
/// and its only newline ends it.
proof fn lemma_cycle_line_shape(names: Seq<Seq<char>>)
    requires
        names.len() > 0,
        forall|i: int| 0 <= i < names.len() ==> no_newline(#[trigger] names[i]),
    ensures
        has_prefix(cycle_line(names), "error[cycle]: "@ + names[0]),
        cycle_line(names).len() > 0,
        cycle_line(names).last() == '\n',
        no_newline(cycle_line(names).drop_last()),
{
    reveal_strlit("error[cycle]: ");
    reveal_strlit(" <-> ");
    reveal_strlit(" -> ");
    reveal_strlit("\n");
    let head = "error[cycle]: "@;
    assert(no_newline(head)) by {
        assert forall|k: int| 0 <= k < head.len() implies head[k] != '\n' by {}
    }
    assert(no_newline(" <-> "@)) by {
        assert forall|k: int| 0 <= k < " <-> "@.len() implies " <-> "@[k] != '\n' by {}
    }
    assert(no_newline(" -> "@)) by {
        assert forall|k: int| 0 <= k < " -> "@.len() implies " -> "@[k] != '\n' by {}
    }
    let body = if names.len() == 2 {
        head + names[0] + " <-> "@ + names[1]
    } else {
        lemma_join_arrows_no_newline(names);
        lemma_join_arrows_starts(names);
        head + join_arrows(names) + " -> "@ + names[0]
    };
    assert(cycle_line(names) == body + "\n"@);
    assert(cycle_line(names).drop_last() =~= body);
    assert(no_newline(body)) by {
        assert forall|k: int| 0 <= k < body.len() implies body[k] != '\n' by {
            if names.len() == 2 {
                let a = head + names[0];
                let b = a + " <-> "@;
                if k < head.len() {
                    assert(body[k] == head[k]);
                } else if k < a.len() {
                    assert(body[k] == names[0][k - head.len()]);
                } else if k < b.len() {
                    assert(body[k] == " <-> "@[k - a.len()]);
                } else {
                    assert(body[k] == names[1][k - b.len()]);
                }
            } else {
                let j = join_arrows(names);
                let a = head + j;
                let b = a + " -> "@;
                if k < head.len() {
                    assert(body[k] == head[k]);
                } else if k < a.len() {
                    assert(body[k] == j[k - head.len()]);
                } else if k < b.len() {
                    assert(body[k] == " -> "@[k - a.len()]);
                } else {
                    assert(body[k] == names[0][k - b.len()]);
                }
            }
        }
    }
    let pre = head + names[0];
    assert(cycle_line(names).take(pre.len() as int) =~= pre) by {
        if names.len() == 2 {
            assert(cycle_line(names) =~= pre + (" <-> "@ + names[1] + "\n"@));
        } else {
            let j = join_arrows(names);
            assert(j.take(names[0].len() as int) =~= names[0]);
            assert forall|k: int| 0 <= k < pre.len() implies cycle_line(names)[k] == pre[k] by {
                if k >= head.len() {
                    assert(cycle_line(names)[k] == j[k - head.len()]);
                    assert(j.take(names[0].len() as int)[k - head.len()] == names[0][k - head.len()]);
                }
            }
        }
    }
}

proof fn lemma_join_arrows_starts(names: Seq<Seq<char>>)
    requires
        names.len() > 0,
    ensures
        join_arrows(names).len() >= names[0].len(),
        join_arrows(names).take(names[0].len() as int) == names[0],
    decreases names.len(),
{
    if names.len() > 1 {
        lemma_join_arrows_starts(names.drop_last());
        let a = join_arrows(names.drop_last());
        assert(names.drop_last()[0] == names[0]);
        assert(join_arrows(names) == a + " -> "@ + names.last());
        assert(join_arrows(names).take(names[0].len() as int) =~= a.take(names[0].len() as int));
    }
}

/// Without cycles there is nothing to report.
pub proof fn law_no_cycles_no_report(graph: ArcGraph, cycles: Seq<Cycle>)
    requires
        cycles.len() == 0,
    ensures
        cycle_report(graph, cycles).len() == 0,
{
}

/// The cycle report holds one line per cycle, in the order of the cycles:
/// each starts with `error[cycle]: ` and the name of the cycle's first node
/// and is ended by its only newline. A blank line and the number of cycles
/// follow.
pub proof fn law_cycle_report_lines(graph: ArcGraph, cycles: Seq<Cycle>)
    requires
        cycles.len() > 0,
        forall|c: int| 0 <= c < cycles.len() ==> (#[trigger] cycles[c]).nodes.len() > 0,
        forall|c: int, j: int| 0 <= c < cycles.len() && 0 <= j < cycles[c].nodes.len() ==> #[trigger] cycles[c].nodes@[j] < graph@.nodes.len(),
        forall|x: int| 0 <= x < graph@.nodes.len() ==> no_newline(#[trigger] node_name(graph@.nodes[x])),
    ensures
        exists|lines: Seq<Seq<char>>|
            lines.len() == cycles.len() && cycle_report(graph, cycles) == lines.flatten() + "\nerror: found "@ + decimal(cycles.len())
                + " cycle(s) in dependency graph\n"@ && forall|i: int|
                0 <= i < lines.len() ==> has_prefix(
                    #[trigger] lines[i],
                    "error[cycle]: "@ + node_name(graph@.nodes[cycles[i].nodes@[0] as int]),
                ) && lines[i].len() > 0 && lines[i].last() == '\n' && no_newline(lines[i].drop_last()) && (cycles[i].nodes.len() == 2
                    ==> lines[i] == "error[cycle]: "@ + node_name(graph@.nodes[cycles[i].nodes@[0] as int]) + " <-> "@ + node_name(
                    graph@.nodes[cycles[i].nodes@[1] as int],
                ) + "\n"@) && (cycles[i].nodes.len() != 2 ==> has_suffix(
                    lines[i],
                    " -> "@ + node_name(graph@.nodes[cycles[i].nodes@[0] as int]) + "\n"@,
                )),
{
    let lines = Seq::new(cycles.len(), |i: int| cycle_line(cycle_names(graph, cycles[i])));
    assert forall|k: int| 0 <= k <= cycles.len() implies #[trigger] cycle_lines(graph, cycles, k) == lines.take(k).flatten() by {
        lemma_cycle_lines_flatten(graph, cycles, lines, k);
    }
    assert(lines.take(cycles.len() as int) =~= lines);
    assert forall|i: int| 0 <= i < lines.len() implies has_prefix(
        #[trigger] lines[i],
        "error[cycle]: "@ + node_name(graph@.nodes[cycles[i].nodes@[0] as int]),
    ) && lines[i].len() > 0 && lines[i].last() == '\n' && no_newline(lines[i].drop_last()) && (cycles[i].nodes.len() == 2
        ==> lines[i] == "error[cycle]: "@ + node_name(graph@.nodes[cycles[i].nodes@[0] as int]) + " <-> "@ + node_name(
        graph@.nodes[cycles[i].nodes@[1] as int],
    ) + "\n"@) && (cycles[i].nodes.len() != 2 ==> has_suffix(
        lines[i],
        " -> "@ + node_name(graph@.nodes[cycles[i].nodes@[0] as int]) + "\n"@,
    )) by {
        let names = cycle_names(graph, cycles[i]);
        assert forall|q: int| 0 <= q < names.len() implies no_newline(#[trigger] names[q]) by {
            assert(names[q] == node_name(graph@.nodes[cycles[i].nodes@[q] as int]));
        }
        lemma_cycle_line_shape(names);
        if cycles[i].nodes.len() != 2 {
            let tail = " -> "@ + names[0] + "\n"@;
            let l = lines[i];
            assert(l == ("error[cycle]: "@ + join_arrows(names)) + tail);
            assert(l.skip(l.len() - tail.len()) =~= tail);
        }
    }
}

proof fn lemma_cycle_lines_flatten(graph: ArcGraph, cycles: Seq<Cycle>, lines: Seq<Seq<char>>, k: int)
    requires
        0 <= k <= cycles.len(),
        lines.len() == cycles.len(),
        forall|i: int| 0 <= i < lines.len() ==> #[trigger] lines[i] == cycle_line(cycle_names(graph, cycles[i])),
    ensures
        cycle_lines(graph, cycles, k) == lines.take(k).flatten(),
    decreases k,
{
    if k > 0 {
        lemma_cycle_lines_flatten(graph, cycles, lines, k - 1);
        assert(lines.take(k) =~= lines.take(k - 1).push(lines[k - 1]));
        lines.take(k - 1).lemma_flatten_push(lines[k - 1]);
    } else {
        assert(lines.take(0) =~= Seq::<Seq<char>>::empty());
    }
}

/// Formats the cycles as compiler-style errors: `error[cycle]: A <-> B` for
/// a direct cycle, `error[cycle]: A -> B -> C -> A` for a longer one, then
/// the number of cycles found; empty when there is none.
pub fn format_cycle_errors(graph: &ArcGraph, cycles: &Vec<Cycle>) -> (r: String)
    requires
        forall|c: int| 0 <= c < cycles.len() ==> (#[trigger] cycles@[c]).nodes.len() > 0,
        forall|c: int, j: int| 0 <= c < cycles.len() && 0 <= j < cycles@[c].nodes.len() ==> #[trigger] cycles@[c].nodes@[j]
            < graph@.nodes.len(),
    ensures
        r@ == cycle_report(*graph, cycles@),
{
    let mut out: Vec<char> = Vec::new();
    if cycles.len() == 0 {
        return String::new();
    }
    let mut c: usize = 0;
    while c < cycles.len()
        invariant
            forall|c2: int| 0 <= c2 < cycles.len() ==> (#[trigger] cycles@[c2]).nodes.len() > 0,
            forall|c2: int, j: int| 0 <= c2 < cycles.len() && 0 <= j < cycles@[c2].nodes.len() ==> #[trigger] cycles@[c2].nodes@[j]
                < graph@.nodes.len(),
            0 <= c <= cycles.len(),
            out@ == cycle_lines(*graph, cycles@, c as int),
        decreases cycles.len() - c,
    {
        let nodes = &cycles[c].nodes;
        let ghost names = cycle_names(*graph, cycles@[c as int]);
        let ghost before = out@;
        assert(names.len() == nodes.len());
        push_str(&mut out, "error[cycle]: ");
        if nodes.len() == 2 {
            push_str(&mut out, graph.node(nodes[0]).name());
            push_str(&mut out, " <-> ");
            push_str(&mut out, graph.node(nodes[1]).name());
        } else {
            let mut j: usize = 0;
            let ghost mid = out@;
            while j < nodes.len()
                invariant
                    nodes == cycles@[c as int].nodes,
                    names == cycle_names(*graph, cycles@[c as int]),
                    names.len() == nodes.len(),
                    forall|q: int| 0 <= q < nodes.len() ==> #[trigger] nodes@[q] < graph@.nodes.len(),
                    0 <= j <= nodes.len(),
                    out@ == mid + join_arrows(names.take(j as int)),
                decreases nodes.len() - j,
            {
                assert(names.take(j + 1).drop_last() =~= names.take(j as int));
                assert(names.take(j + 1).last() == node_name(graph@.nodes[nodes@[j as int] as int]));
                if j > 0 {
                    push_str(&mut out, " -> ");
                }
                push_str(&mut out, graph.node(nodes[j]).name());
                if j == 0 {
                    assert(out@ =~= mid + join_arrows(names.take(1)));
                } else {
                    assert(out@ =~= mid + join_arrows(names.take(j + 1)));
                }
                j = j + 1;
            }
            assert(names.take(nodes.len() as int) =~= names);
            push_str(&mut out, " -> ");
            push_str(&mut out, graph.node(nodes[0]).name());
        }
        push_str(&mut out, "\n");
        assert(out@ =~= before + cycle_line(names));
        c = c + 1;
    }
    push_str(&mut out, "\nerror: found ");
    push_decimal(&mut out, cycles.len());
    push_str(&mut out, " cycle(s) in dependency graph\n");
    crate::strings::string_from_chars(out.as_slice())
}

} // verus!
