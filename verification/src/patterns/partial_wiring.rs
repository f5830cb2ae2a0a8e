//! Partial wiring detection — functions imported by many files but called
//! from only some of them.
//!
//! For each public or crate-visible function or method, the files outside
//! its own that call it and the files that import it are counted. With
//! three or more referencing files, at least one caller, at least one file
//! that imports without calling, and under 80% of the referencing files
//! calling, the function is reported. Confidence is High under 50% wired,
//! Moderate otherwise; severity is always Warning.
//!
//! The wiring ratio is the binary64 quotient of the two counts; it is
//! compared with 0.8 and 0.5, scaled to a percentage and printed as binary64
//! values are (see `crate::double`): the message shows the percentage cut to
//! an integer, the evidence shows it rounded.

use vstd::prelude::*;

use crate::diagnostic::{
    diag_views, Confidence, Diagnostic, DiagnosticPattern, DiagnosticView, Evidence, EvidenceView,
    Severity,
};
use crate::patterns::exclusion::{excluded, is_excluded_symbol, is_test_path, relative_path, relativize_path, test_path};
use crate::extraction::{seq_lt, str_less};
use crate::graph::{call_targets, valid_id, Edge, Graph};
use crate::ir::{EdgeKind, ReferenceKind, Symbol, SymbolId, SymbolKind, Visibility};
use crate::patterns::common::{
    char_views, contains_chars, gathered, kept, lemma_kept_members, loc, symbol_location,
};
use crate::double::{
    below, below_exec, count_double, count_double_exec, fixed_0, fixed_0_exec, half_units,
    hundred_times, hundred_times_exec, point_eight_units, quotient, quotient_exec, whole, whole_exec,
};
use crate::text::{chars_eq, chars_of, dec, join, owned, push_joined, push_str, push_u128, slice_chars, string_of};

verus! {

broadcast use vstd::seq_lib::group_seq_properties;

/// A callable meant for use across modules: a public or crate-visible
/// function or method, not excluded, outside test files.
pub open spec fn wiring_target(s: Symbol) -> bool {
    &&& s.kind == SymbolKind::Function || s.kind == SymbolKind::Method
    &&& s.visibility == Visibility::Public || s.visibility == Visibility::Crate
    &&& !excluded(s)
    &&& !test_path(s.location.file@)
}

/// `e` is a reference edge whose reference is an import.
pub open spec fn import_edge(g: Graph, e: Edge) -> bool {
    &&& e.kind == EdgeKind::References
    &&& match e.reference_id {
        Some(rid) => valid_id(rid.0, g.refs().len()) && g.refs()[rid.0 - 1].kind == ReferenceKind::Import,
        None => false,
    }
}

/// The other ends of the import edges among `edges`, in order.
pub open spec fn import_sources(g: Graph, edges: Seq<Edge>) -> Seq<SymbolId>
    decreases edges.len(),
{
    if edges.len() == 0 {
        seq![]
    } else {
        let prev = import_sources(g, edges.drop_last());
        if import_edge(g, edges.last()) { prev.push(edges.last().target) } else { prev }
    }
}

/// The distinct files, in order of first appearance, of the stored
/// symbols among the first `k` of `ids` that lie outside test files and
/// outside `own`.
pub open spec fn other_files_upto(g: Graph, ids: Seq<SymbolId>, own: Seq<char>, k: nat) -> Seq<Seq<char>>
    decreases k,
{
    if k == 0 || k > ids.len() {
        seq![]
    } else {
        let prev = other_files_upto(g, ids, own, (k - 1) as nat);
        let id = ids[k - 1];
        if g.is_symbol(id) {
            let f = g.sym(id).location.file@;
            if !test_path(f) && f != own && !prev.contains(f) { prev.push(f) } else { prev }
        } else {
            prev
        }
    }
}

/// The files, other than its own, that call symbol `i` (by index).
pub open spec fn caller_files(g: Graph, i: int) -> Seq<Seq<char>> {
    let ids = call_targets(g.in_edges(SymbolId((i + 1) as usize)));
    other_files_upto(g, ids, g.syms()[i].location.file@, ids.len())
}

/// The files, other than its own, that import symbol `i` (by index).
pub open spec fn importer_files(g: Graph, i: int) -> Seq<Seq<char>> {
    let ids = import_sources(g, g.in_edges(SymbolId((i + 1) as usize)));
    other_files_upto(g, ids, g.syms()[i].location.file@, ids.len())
}

/// Not among `b`.
pub open spec fn absent_from(b: Seq<Seq<char>>) -> spec_fn(Seq<char>) -> bool {
    |x: Seq<char>| !b.contains(x)
}

/// The files that import symbol `i` but never call it.
pub open spec fn unwired_files(g: Graph, i: int) -> Seq<Seq<char>> {
    importer_files(g, i).filter(absent_from(caller_files(g, i)))
}

/// Number of files that call or import symbol `i`.
pub open spec fn referencing_count(g: Graph, i: int) -> nat {
    caller_files(g, i).len() + unwired_files(g, i).len()
}

/// The wiring ratio of symbol `i` as binary64: calling files over
/// referencing files, each count converted first.
pub open spec fn wiring_ratio(g: Graph, i: int) -> (nat, nat) {
    quotient(count_double(caller_files(g, i).len()), count_double(referencing_count(g, i)))
}

/// Symbol `i` is partially wired: a wiring target with three or more
/// referencing files, at least one caller, at least one file that imports
/// without calling, and a wiring ratio under 0.8.
pub open spec fn partially_wired(g: Graph, i: int) -> bool {
    let c = caller_files(g, i).len();
    let t = referencing_count(g, i);
    &&& wiring_target(g.syms()[i])
    &&& t >= 3
    &&& c > 0
    &&& unwired_files(g, i).len() > 0
    &&& below(wiring_ratio(g, i), point_eight_units())
}

/// `x` placed into `s` after every entry that it does not sort before.
pub open spec fn insert_path(s: Seq<Seq<char>>, x: Seq<char>) -> Seq<Seq<char>>
    decreases s.len(),
{
    if s.len() == 0 || !seq_lt(x, s.last()) {
        s.push(x)
    } else {
        insert_path(s.drop_last(), x).push(s.last())
    }
}

/// The first `k` entries of `s`, sorted by insertion.
pub open spec fn sort_paths(s: Seq<Seq<char>>, k: nat) -> Seq<Seq<char>>
    decreases k,
{
    if k == 0 || k > s.len() {
        seq![]
    } else {
        insert_path(sort_paths(s, (k - 1) as nat), s[k - 1])
    }
}

/// The unwired files of symbol `i`, made relative to `root` and sorted.
pub open spec fn unwired_display(g: Graph, root: Seq<char>, i: int) -> Seq<Seq<char>> {
    let rel = unwired_files(g, i).map_values(|f: Seq<char>| relative_path(f, root));
    sort_paths(rel, rel.len())
}

/// The confidence of a finding with wiring ratio `r`: High under 0.5.
pub open spec fn wiring_confidence(r: (nat, nat)) -> Confidence {
    if below(r, half_units()) { Confidence::High } else { Confidence::Moderate }
}

/// The diagnostic reported for partially wired symbol `i`.
pub open spec fn wiring_diag(g: Graph, root: Seq<char>, i: int) -> DiagnosticView {
    let s = g.syms()[i];
    let c = caller_files(g, i).len();
    let t = referencing_count(g, i);
    let u = unwired_files(g, i).len();
    let display = join(unwired_display(g, root, i), ", "@);
    let location = loc(s.location.file@, root, s.location.line);
    DiagnosticView {
        id: seq![],
        pattern: DiagnosticPattern::PartialWiring,
        severity: Severity::Warning,
        confidence: wiring_confidence(wiring_ratio(g, i)),
        entity: s.name@,
        message: "Partial wiring: '"@ + s.name@ + "' is called from "@ + dec(c) + " of "@ + dec(t)
            + " importing files ("@ + dec(whole(hundred_times(wiring_ratio(g, i)))) + "% wired)"@,
        evidence: seq![
            EvidenceView {
                observation: "Called from "@ + dec(c) + " of "@ + dec(t) + " cross-file consumers"@,
                location: Some(location),
                context: Some("Wiring ratio: "@ + dec(fixed_0(hundred_times(wiring_ratio(g, i)))) + "%"@),
            },
            EvidenceView {
                observation: "Unwired files: "@ + display,
                location: None,
                context: Some(dec(u) + " file(s) import '"@ + s.name@ + "' but never call it"@),
            },
        ],
        suggestion: "Add call to '"@ + s.name@ + "' in "@ + display + " or remove the unused import"@,
        location,
    }
}

/// Findings for the first `n` symbols, in symbol order.
pub open spec fn wirings_upto(g: Graph, root: Seq<char>, n: nat) -> Seq<DiagnosticView>
    decreases n,
{
    if n == 0 {
        seq![]
    } else {
        let prev = wirings_upto(g, root, (n - 1) as nat);
        if partially_wired(g, n - 1) { prev.push(wiring_diag(g, root, n - 1)) } else { prev }
    }
}

/// All partial wiring findings of the graph.
pub open spec fn partial_wirings(g: Graph, root: Seq<char>) -> Seq<DiagnosticView> {
    wirings_upto(g, root, g.syms().len())
}

/// Which symbols are partially wired, as a predicate on indices.
pub open spec fn wired_keep(g: Graph) -> spec_fn(int) -> bool {
    |i: int| partially_wired(g, i)
}

/// The finding of the `i`-th symbol, as a function of the index.
pub open spec fn wired_make(g: Graph, root: Seq<char>) -> spec_fn(int) -> DiagnosticView {
    |i: int| wiring_diag(g, root, i)
}

proof fn lemma_wirings_kept(g: Graph, root: Seq<char>, n: nat)
    ensures
        wirings_upto(g, root, n) == gathered(n, kept(wired_keep(g), wired_make(g, root))),
    decreases n,
{
    if n > 0 {
        lemma_wirings_kept(g, root, (n - 1) as nat);
        assert(wirings_upto(g, root, n) =~= gathered(n, kept(wired_keep(g), wired_make(g, root))));
    }
}

/// Partial wiring is reported for exactly the partially wired callables:
/// every finding is the diagnostic of a public or crate-visible function or
/// method, outside tests and not excluded, with three or more referencing
/// files, at least one calling file, at least one importing file that never
/// calls it, and under 80% of referencing files calling; every such symbol
/// has its finding, a Warning with High confidence under 50% wired and
/// Moderate otherwise.
pub proof fn law_partial_wiring_findings(g: Graph, root: Seq<char>)
    ensures
        forall|d: DiagnosticView|
            partial_wirings(g, root).contains(d) <==> exists|i: int|
                0 <= i < g.syms().len() && #[trigger] partially_wired(g, i) && d == wiring_diag(g, root, i),
        forall|i: int|
            0 <= i < g.syms().len() && #[trigger] partially_wired(g, i) ==> {
                let c = caller_files(g, i).len();
                let t = referencing_count(g, i);
                &&& wiring_diag(g, root, i).severity == Severity::Warning
                &&& (wiring_diag(g, root, i).confidence == Confidence::High
                    <==> below(wiring_ratio(g, i), half_units()))
                &&& wiring_diag(g, root, i).entity == g.syms()[i].name@
            },
{
    let n = g.syms().len();
    lemma_wirings_kept(g, root, n);
    lemma_kept_members(n, wired_keep(g), wired_make(g, root));
    assert forall|d: DiagnosticView|
        partial_wirings(g, root).contains(d) <==> exists|i: int|
            0 <= i < n && #[trigger] partially_wired(g, i) && d == wiring_diag(g, root, i) by {
        if partial_wirings(g, root).contains(d) {
            let i = choose|i: int| 0 <= i < n && #[trigger] wired_keep(g)(i) && d == wired_make(g, root)(i);
            assert(partially_wired(g, i));
        }
        if exists|i: int| 0 <= i < n && #[trigger] partially_wired(g, i) && d == wiring_diag(g, root, i) {
            let i = choose|i: int| 0 <= i < n && #[trigger] partially_wired(g, i) && d == wiring_diag(g, root, i);
            assert(wired_keep(g)(i) && d == wired_make(g, root)(i));
        }
    }
}

fn is_wiring_target(s: &Symbol) -> (r: bool)
    ensures
        r == wiring_target(*s),
{
    (s.kind == SymbolKind::Function || s.kind == SymbolKind::Method)
        && (s.visibility == Visibility::Public || s.visibility == Visibility::Crate)
        && !is_excluded_symbol(s) && !is_test_path(s.location.file.as_str())
}

fn import_sources_of(graph: &Graph, edges: &Vec<Edge>) -> (r: Vec<SymbolId>)
    ensures
        r@ == import_sources(*graph, edges@),
{
    let mut out: Vec<SymbolId> = Vec::new();
    let mut k: usize = 0;
    while k < edges.len()
        invariant
            k <= edges@.len(),
            out@ == import_sources(*graph, edges@.take(k as int)),
        decreases edges@.len() - k,
    {
        let e = edges[k];
        assert(edges@.take(k + 1).drop_last() =~= edges@.take(k as int));
        let is_import = e.kind == EdgeKind::References && match e.reference_id {
            Some(rid) => match graph.get_reference(rid) {
                Some(r) => r.kind == ReferenceKind::Import,
                None => false,
            },
            None => false,
        };
        assert(is_import == import_edge(*graph, e));
        if is_import {
            out.push(e.target);
        }
        k = k + 1;
    }
    assert(edges@.take(edges@.len() as int) =~= edges@);
    out
}

fn other_files(graph: &Graph, ids: &Vec<SymbolId>, own: &Vec<char>) -> (r: Vec<Vec<char>>)
    ensures
        char_views(r@) == other_files_upto(*graph, ids@, own@, ids@.len()),
{
    let mut out: Vec<Vec<char>> = Vec::new();
    let mut k: usize = 0;
    while k < ids.len()
        invariant
            k <= ids@.len(),
            char_views(out@) == other_files_upto(*graph, ids@, own@, k as nat),
        decreases ids@.len() - k,
    {
        match graph.get_symbol(ids[k]) {
            Some(s) => {
                let f = chars_of(s.location.file.as_str());
                if !is_test_path(s.location.file.as_str()) && !chars_eq(&f, own) && !contains_chars(&out, &f) {
                    let ghost before = char_views(out@);
                    out.push(f);
                    assert(char_views(out@) =~= before.push(f@));
                }
            },
            None => {},
        }
        k = k + 1;
    }
    out
}

/// The files, other than `own` and test files, of the symbols that call `id`.
fn get_caller_files(graph: &Graph, id: SymbolId, own: &Vec<char>) -> (r: Vec<Vec<char>>)
    ensures
        char_views(r@) == other_files_upto(*graph, call_targets(graph.in_edges(id)), own@,
            call_targets(graph.in_edges(id)).len()),
{
    let callers = graph.callers(id);
    other_files(graph, &callers, own)
}

/// The files, other than `own` and test files, of the symbols that import
/// `id`: the other ends of its incoming reference edges whose reference is
/// an import.
fn get_importer_files(graph: &Graph, id: SymbolId, own: &Vec<char>) -> (r: Vec<Vec<char>>)
    ensures
        char_views(r@) == other_files_upto(*graph, import_sources(*graph, graph.in_edges(id)), own@,
            import_sources(*graph, graph.in_edges(id)).len()),
{
    let incoming = graph.edges_to(id);
    let importers = import_sources_of(graph, &incoming);
    other_files(graph, &importers, own)
}

fn without(a: &Vec<Vec<char>>, b: &Vec<Vec<char>>) -> (r: Vec<Vec<char>>)
    ensures
        char_views(r@) == char_views(a@).filter(absent_from(char_views(b@))),
{
    let ghost av = char_views(a@);
    let ghost bv = char_views(b@);
    let mut out: Vec<Vec<char>> = Vec::new();
    let mut k: usize = 0;
    while k < a.len()
        invariant
            k <= a@.len(),
            av == char_views(a@),
            bv == char_views(b@),
            char_views(out@) == av.take(k as int).filter(absent_from(bv)),
        decreases a@.len() - k,
    {
        assert(av.take(k + 1) =~= av.take(k as int).push(av[k as int]));
        proof {
            av.take(k as int).lemma_filter_push(av[k as int], absent_from(bv));
        }
        if !contains_chars(b, &a[k]) {
            let ghost before = char_views(out@);
            let x = slice_chars(&a[k], 0, a[k].len());
            out.push(x);
            assert(char_views(out@) =~= before.push(av[k as int]));
        }
        k = k + 1;
    }
    assert(av.take(av.len() as int) =~= av);
    out
}

fn insert_path_exec(s: &mut Vec<Vec<char>>, x: Vec<char>)
    ensures
        char_views(final(s)@) == insert_path(char_views(old(s)@), x@),
    decreases old(s)@.len(),
{
    let ghost sv = char_views(s@);
    if s.len() == 0 || !str_less(&x, &s[s.len() - 1]) {
        s.push(x);
        assert(char_views(s@) =~= sv.push(x@));
    } else {
        let last = s.pop().unwrap();
        assert(char_views(s@) =~= sv.drop_last());
        insert_path_exec(s, x);
        let ghost mid = char_views(s@);
        let ghost lv = last@;
        s.push(last);
        assert(char_views(s@) =~= mid.push(lv));
    }
}

fn sorted_relative(files: &Vec<Vec<char>>, project_root: &str) -> (r: Vec<Vec<char>>)
    ensures
        ({
            let rel = char_views(files@).map_values(|f: Seq<char>| relative_path(f, project_root@));
            char_views(r@) == sort_paths(rel, rel.len())
        }),
{
    let ghost rel = char_views(files@).map_values(|f: Seq<char>| relative_path(f, project_root@));
    let mut out: Vec<Vec<char>> = Vec::new();
    let mut k: usize = 0;
    while k < files.len()
        invariant
            k <= files@.len(),
            rel == char_views(files@).map_values(|f: Seq<char>| relative_path(f, project_root@)),
            char_views(out@) == sort_paths(rel, k as nat),
        decreases files@.len() - k,
    {
        let r = relativize_path(string_of(&files[k]).as_str(), project_root);
        let rc = chars_of(r.as_str());
        assert(rc@ == rel[k as int]);
        insert_path_exec(&mut out, rc);
        k = k + 1;
    }
    out
}

/// The binary64 quotient of `c` over `t` counts, for `c <= t`.
fn ratio_of(c: u128, t: u128) -> (r: (u128, u32))
    requires
        c <= t,
        0 < t < 0x40000000000000000,
    ensures
        (r.0 as nat, r.1 as nat) == quotient(count_double(c as nat), count_double(t as nat)),
        r.0 <= 0x20000000000000,
        50 <= r.1 <= 119,
{
    let x = count_double_exec(c);
    let y = count_double_exec(t);
    quotient_exec(x, y)
}

fn build_wiring(graph: &Graph, project_root: &str, i: usize, cf: &Vec<Vec<char>>, unw: &Vec<Vec<char>>) -> (d: Diagnostic)
    requires
        i < graph.syms().len(),
        char_views(cf@) == caller_files(*graph, i as int),
        char_views(unw@) == unwired_files(*graph, i as int),
        partially_wired(*graph, i as int),
    ensures
        d@ == wiring_diag(*graph, project_root@, i as int),
{
    let s = graph.symbol_at(i);
    let c = cf.len() as u128;
    let u = unw.len() as u128;
    let t = c + u;
    let ratio = ratio_of(c, t);
    let pct = hundred_times_exec(ratio);
    let floor = whole_exec(pct);
    let rounded = fixed_0_exec(pct);
    let confidence = if below_exec(ratio, 4503599627370496) { Confidence::High } else { Confidence::Moderate };
    let location = symbol_location(s, project_root);
    let shown = sorted_relative(unw, project_root);
    let mut message = String::new();
    push_str(&mut message, "Partial wiring: '");
    push_str(&mut message, s.name.as_str());
    push_str(&mut message, "' is called from ");
    push_u128(&mut message, c);
    push_str(&mut message, " of ");
    push_u128(&mut message, t);
    push_str(&mut message, " importing files (");
    push_u128(&mut message, floor);
    push_str(&mut message, "% wired)");
    let mut obs1 = String::new();
    push_str(&mut obs1, "Called from ");
    push_u128(&mut obs1, c);
    push_str(&mut obs1, " of ");
    push_u128(&mut obs1, t);
    push_str(&mut obs1, " cross-file consumers");
    let mut ctx1 = String::new();
    push_str(&mut ctx1, "Wiring ratio: ");
    push_u128(&mut ctx1, rounded);
    push_str(&mut ctx1, "%");
    let mut obs2 = String::new();
    push_str(&mut obs2, "Unwired files: ");
    push_joined(&mut obs2, &shown, ", ");
    let mut ctx2 = String::new();
    push_u128(&mut ctx2, u);
    push_str(&mut ctx2, " file(s) import '");
    push_str(&mut ctx2, s.name.as_str());
    push_str(&mut ctx2, "' but never call it");
    let mut suggestion = String::new();
    push_str(&mut suggestion, "Add call to '");
    push_str(&mut suggestion, s.name.as_str());
    push_str(&mut suggestion, "' in ");
    push_joined(&mut suggestion, &shown, ", ");
    push_str(&mut suggestion, " or remove the unused import");
    let e1 = Evidence { observation: obs1, location: Some(location.clone()), context: Some(ctx1) };
    let e2 = Evidence { observation: obs2, location: None, context: Some(ctx2) };
    let d = Diagnostic {
        id: String::new(),
        pattern: DiagnosticPattern::PartialWiring,
        severity: Severity::Warning,
        confidence,
        entity: owned(s.name.as_str()),
        message,
        evidence: vec![e1, e2],
        suggestion,
        location,
    };
    let ghost want = wiring_diag(*graph, project_root@, i as int);
    assert(d@.evidence =~= seq![e1@, e2@]);
    assert(d@.message =~= want.message);
    assert(d@.suggestion =~= want.suggestion);
    assert(e1@.observation =~= want.evidence[0].observation);
    assert(e1@.context =~= want.evidence[0].context);
    assert(e2@.observation =~= want.evidence[1].observation);
    assert(e2@.context =~= want.evidence[1].context);
    d
}

/// Detect partial wiring: public or crate-visible functions and methods
/// that three or more other files call or import, that at least one file
/// calls and at least one imports without calling, and that fewer than 80%
/// of those files call. Findings come in symbol order.
/// Severity: Warning. Confidence: High under 50% wired, else Moderate.
pub fn detect(graph: &Graph, project_root: &str) -> (r: Vec<Diagnostic>)
    ensures
        diag_views(r@) == partial_wirings(*graph, project_root@),
{
    proof {
        graph.lemma_len_bounds();
    }
    let n = graph.symbol_count();
    let mut out: Vec<Diagnostic> = Vec::new();
    let mut i: usize = 0;
    while i < n
        invariant
            n == graph.syms().len(),
            n <= usize::MAX,
            i <= n,
            diag_views(out@) == wirings_upto(*graph, project_root@, i as nat),
        decreases n - i,
    {
        let s = graph.symbol_at(i);
        if is_wiring_target(s) {
            let own = chars_of(s.location.file.as_str());
            let id = SymbolId(i + 1);
            let cf = get_caller_files(graph, id, &own);
            let imf = get_importer_files(graph, id, &own);
            let unw = without(&imf, &cf);
            let c = cf.len() as u128;
            let t = c + unw.len() as u128;
            if t >= 3 && c > 0 && unw.len() > 0 && below_exec(ratio_of(c, t), 7205759403792794) {
                let d = build_wiring(graph, project_root, i, &cf, &unw);
                let ghost before = diag_views(out@);
                out.push(d);
                assert(diag_views(out@) =~= before.push(d@));
            }
        }
        i = i + 1;
    }
    out
}

} // verus!
