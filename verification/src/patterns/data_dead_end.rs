//! Data dead end detection — symbols defined but never consumed.
//!
//! Functions with zero callers, variables assigned but never read.
//! Confidence is calibrated by visibility: private symbols with zero
//! callers are high confidence; public ones might be library API
//! consumed by code outside the analysis (low confidence).

use vstd::prelude::*;

use crate::diagnostic::{
    diag_views, Confidence, Diagnostic, DiagnosticPattern, DiagnosticView, Evidence, EvidenceView,
    Severity,
};
use crate::patterns::exclusion::{excluded, is_excluded_symbol};
use crate::graph::{in_edges_upto, Graph};
use crate::ir::{Reference, Symbol, SymbolId, SymbolKind, Visibility};
use crate::patterns::common::{
    count_files, file_count, gathered, kept, lemma_kept_members, kind_label, kind_label_str, kind_name, kind_name_str, loc,
    push_diag, symbol_location, visibility_name, visibility_name_str,
};
use crate::text::{chars_of, dec, has_prefix, push_str, push_usize, starts_with};

verus! {

/// The `i`-th symbol is a dead end: not excluded, not a structural
/// container, and with no incoming call or reference edge. Methods are
/// included; `orphaned_implementation` reports them as well.
pub open spec fn is_dead_end(g: Graph, i: int) -> bool {
    let s = g.syms()[i];
    &&& !excluded(s)
    &&& s.kind != SymbolKind::Module && s.kind != SymbolKind::Class
    &&& s.kind != SymbolKind::Struct
    &&& g.in_edges(SymbolId((i + 1) as usize)).len() == 0
}

/// An underscore-prefixed name that is not a dunder-style name.
pub open spec fn underscore_private(name: Seq<char>) -> bool {
    starts_with(name, "_"@) && !starts_with(name, "__"@)
}

/// Confidence of a dead end, by visibility.
pub open spec fn dead_end_confidence(s: Symbol) -> Confidence {
    match s.visibility {
        Visibility::Private | Visibility::Protected => Confidence::High,
        Visibility::Crate => Confidence::Moderate,
        Visibility::Public => if underscore_private(s.name@) { Confidence::High } else { Confidence::Low },
    }
}

/// The diagnostic reported for dead end symbol `s`.
pub open spec fn dead_end_diag(s: Symbol, root: Seq<char>, files: nat) -> DiagnosticView {
    let location = loc(s.location.file@, root, s.location.line);
    DiagnosticView {
        id: seq![],
        pattern: DiagnosticPattern::DataDeadEnd,
        severity: Severity::Warning,
        confidence: dead_end_confidence(s),
        entity: s.qualified_name@,
        message: "Dead end: "@ + kind_label(s.kind) + " '"@ + s.name@
            + "' is defined but never called or referenced"@,
        evidence: seq![EvidenceView {
            observation: "0 callers in "@ + dec(files) + " analyzed files"@,
            location: Some(location),
            context: Some("visibility: "@ + visibility_name(s.visibility) + ", kind: "@ + kind_name(s.kind)),
        }],
        suggestion: "Remove '"@ + s.name@
            + "' if it is no longer needed, or add a caller. If this is intentional API surface, consider marking it as an entry point."@,
        location,
    }
}

/// Diagnostics for the dead ends among the first `n` symbols, in order.
pub open spec fn dead_ends_upto(g: Graph, root: Seq<char>, n: nat) -> Seq<DiagnosticView>
    decreases n,
{
    if n == 0 {
        seq![]
    } else if is_dead_end(g, n - 1) {
        dead_ends_upto(g, root, (n - 1) as nat).push(dead_end_diag(g.syms()[n - 1], root, file_count(g)))
    } else {
        dead_ends_upto(g, root, (n - 1) as nat)
    }
}

/// Which symbols are data dead ends, as a predicate on indices.
pub open spec fn dead_end_keep(g: Graph) -> spec_fn(int) -> bool {
    |i: int| is_dead_end(g, i)
}

/// The finding of the `i`-th symbol, as a function of the index.
pub open spec fn dead_end_make(g: Graph, root: Seq<char>) -> spec_fn(int) -> DiagnosticView {
    |i: int| dead_end_diag(g.syms()[i], root, file_count(g))
}

proof fn lemma_dead_end_kept(g: Graph, root: Seq<char>, n: nat)
    ensures
        dead_ends_upto(g, root, n) == gathered(n, kept(dead_end_keep(g), dead_end_make(g, root))),
    decreases n,
{
    if n > 0 {
        lemma_dead_end_kept(g, root, (n - 1) as nat);
        assert(dead_ends_upto(g, root, n) =~= gathered(n, kept(dead_end_keep(g), dead_end_make(g, root))));
    }
}

/// No incoming edge of `id` among the first `n` references means none of
/// them points at `id`.
proof fn lemma_unreferenced(refs: Seq<Reference>, id: SymbolId, n: nat)
    requires
        n <= refs.len(),
        in_edges_upto(refs, id, n).len() == 0,
    ensures
        forall|k: int| 0 <= k < n ==> (#[trigger] refs[k]).to != id,
    decreases n,
{
    if n > 0 {
        let prev = in_edges_upto(refs, id, (n - 1) as nat);
        if refs[n - 1].to == id {
            assert(in_edges_upto(refs, id, n).len() == prev.len() + 1);
        }
        lemma_unreferenced(refs, id, (n - 1) as nat);
    }
}

/// A symbol that some stored reference points at, whatever the reference's
/// kind (a call, a read, a write, an import ...) and wherever it comes from,
/// is consumed and never reported as a data dead end: every finding is a
/// data-dead-end finding whose entity is the qualified name of a symbol
/// that no reference of the graph reaches.
pub proof fn law_referenced_symbols_not_dead_ends(g: Graph, root: Seq<char>)
    ensures
        forall|d: DiagnosticView| #[trigger] dead_ends_upto(g, root, g.syms().len()).contains(d) ==> {
            &&& d.pattern == DiagnosticPattern::DataDeadEnd
            &&& exists|j: int| 0 <= j < g.syms().len() && d.entity == (#[trigger] g.syms()[j]).qualified_name@
                && forall|k: int| 0 <= k < g.refs().len() ==> (#[trigger] g.refs()[k]).to != SymbolId((j + 1) as usize)
        },
{
    law_dead_end_findings(g, root);
    assert forall|d: DiagnosticView| #[trigger] dead_ends_upto(g, root, g.syms().len()).contains(d) implies {
        &&& d.pattern == DiagnosticPattern::DataDeadEnd
        &&& exists|j: int| 0 <= j < g.syms().len() && d.entity == (#[trigger] g.syms()[j]).qualified_name@
            && forall|k: int| 0 <= k < g.refs().len() ==> (#[trigger] g.refs()[k]).to != SymbolId((j + 1) as usize)
    } by {
        let i = choose|i: int| 0 <= i < g.syms().len()
            && #[trigger] is_dead_end(g, i) && d == dead_end_diag(g.syms()[i], root, file_count(g));
        lemma_unreferenced(g.refs(), SymbolId((i + 1) as usize), g.refs().len());
        assert(d.entity == g.syms()[i].qualified_name@);
    }
}

/// When none of the first `n` references points at `id`, `id` has no
/// incoming edge among them.
proof fn lemma_no_in_edges(refs: Seq<Reference>, id: SymbolId, n: nat)
    requires
        n <= refs.len(),
        forall|k: int| 0 <= k < n ==> (#[trigger] refs[k]).to != id,
    ensures
        in_edges_upto(refs, id, n).len() == 0,
    decreases n,
{
    if n > 0 {
        assert(refs[n - 1].to != id);
        lemma_no_in_edges(refs, id, (n - 1) as nat);
    }
}

/// Every symbol that no reference of the graph points at, that no
/// exclusion rule covers and that is not a module, class or struct is
/// reported as a data dead end, under its qualified name.
pub proof fn law_unreferenced_symbols_are_dead_ends(g: Graph, root: Seq<char>, i: int)
    requires
        0 <= i < g.syms().len(),
        !excluded(g.syms()[i]),
        g.syms()[i].kind != SymbolKind::Module && g.syms()[i].kind != SymbolKind::Class
            && g.syms()[i].kind != SymbolKind::Struct,
        forall|k: int| 0 <= k < g.refs().len() ==> (#[trigger] g.refs()[k]).to != SymbolId((i + 1) as usize),
    ensures
        exists|d: DiagnosticView| #[trigger] dead_ends_upto(g, root, g.syms().len()).contains(d)
            && d.pattern == DiagnosticPattern::DataDeadEnd && d.entity == g.syms()[i].qualified_name@,
{
    lemma_no_in_edges(g.refs(), SymbolId((i + 1) as usize), g.refs().len());
    law_dead_end_findings(g, root);
    let d = dead_end_diag(g.syms()[i], root, file_count(g));
    assert(is_dead_end(g, i));
    assert(dead_ends_upto(g, root, g.syms().len()).contains(d));
}

/// A data dead end is reported for exactly the dead ends: every finding is the
/// diagnostic of a non-excluded symbol, other than a module, class or struct,
/// that nothing references, and every such symbol has its finding.
pub proof fn law_dead_end_findings(g: Graph, root: Seq<char>)
    ensures
        forall|d: DiagnosticView|
            dead_ends_upto(g, root, g.syms().len()).contains(d) <==> exists|i: int| 0 <= i < g.syms().len()
                && #[trigger] is_dead_end(g, i) && d == dead_end_diag(g.syms()[i], root, file_count(g)),
{
    let n = g.syms().len();
    lemma_dead_end_kept(g, root, n);
    lemma_kept_members(n, dead_end_keep(g), dead_end_make(g, root));
    assert forall|d: DiagnosticView|
        dead_ends_upto(g, root, n).contains(d) <==> exists|i: int| 0 <= i < n
            && #[trigger] is_dead_end(g, i) && d == dead_end_diag(g.syms()[i], root, file_count(g)) by {
        if dead_ends_upto(g, root, n).contains(d) {
            let i = choose|i: int| 0 <= i < n && #[trigger] dead_end_keep(g)(i) && d == dead_end_make(g, root)(i);
            assert(is_dead_end(g, i));
        }
        if exists|i: int| 0 <= i < n && #[trigger] is_dead_end(g, i) && d == dead_end_diag(g.syms()[i], root, file_count(g)) {
            let i = choose|i: int| 0 <= i < n && #[trigger] is_dead_end(g, i) && d == dead_end_diag(g.syms()[i], root, file_count(g));
            assert(dead_end_keep(g)(i) && d == dead_end_make(g, root)(i));
        }
    }
}

fn confidence_of(symbol: &Symbol) -> (c: Confidence)
    ensures
        c == dead_end_confidence(*symbol),
{
    match symbol.visibility {
        Visibility::Private | Visibility::Protected => Confidence::High,
        Visibility::Crate => Confidence::Moderate,
        Visibility::Public => {
            let name = chars_of(symbol.name.as_str());
            if has_prefix(&name, &chars_of("_")) && !has_prefix(&name, &chars_of("__")) {
                Confidence::High
            } else {
                Confidence::Low
            }
        },
    }
}

fn build(symbol: &Symbol, project_root: &str, files: usize) -> (d: Diagnostic)
    ensures
        d@ == dead_end_diag(*symbol, project_root@, files as nat),
{
    let location = symbol_location(symbol, project_root);
    let location2 = symbol_location(symbol, project_root);
    let location3 = symbol_location(symbol, project_root);
    let mut message = String::new();
    push_str(&mut message, "Dead end: ");
    push_str(&mut message, kind_label_str(symbol.kind));
    push_str(&mut message, " '");
    push_str(&mut message, symbol.name.as_str());
    push_str(&mut message, "' is defined but never called or referenced");
    let mut observation = String::new();
    push_str(&mut observation, "0 callers in ");
    push_usize(&mut observation, files);
    push_str(&mut observation, " analyzed files");
    let mut context = String::new();
    push_str(&mut context, "visibility: ");
    push_str(&mut context, visibility_name_str(symbol.visibility));
    push_str(&mut context, ", kind: ");
    push_str(&mut context, kind_name_str(symbol.kind));
    let mut suggestion = String::new();
    push_str(&mut suggestion, "Remove '");
    push_str(&mut suggestion, symbol.name.as_str());
    push_str(
        &mut suggestion,
        "' if it is no longer needed, or add a caller. If this is intentional API surface, consider marking it as an entry point.",
    );
    let ev = Evidence { observation, location: Some(location2), context: Some(context) };
    let d = Diagnostic {
        id: String::new(),
        pattern: DiagnosticPattern::DataDeadEnd,
        severity: Severity::Warning,
        confidence: confidence_of(symbol),
        entity: symbol.qualified_name.clone(),
        message,
        evidence: vec![ev],
        suggestion,
        location: location3,
    };
    assert(d@.evidence =~= seq![ev@]);
    let ghost want = dead_end_diag(*symbol, project_root@, files as nat);
    assert(d@.message =~= want.message);
    assert(d@.suggestion =~= want.suggestion);
    assert(ev@.observation =~= want.evidence[0].observation);
    assert(ev@.context =~= want.evidence[0].context);
    d
}

/// Detect data dead ends in the analysis graph.
///
/// A dead end is a symbol with zero inbound consumption edges (calls,
/// references). Exclusions: entry points, test functions, test modules,
/// import symbols, and module, class and struct symbols; methods are
/// reported like functions.
pub fn detect(graph: &Graph, project_root: &str) -> (r: Vec<Diagnostic>)
    ensures
        diag_views(r@) == dead_ends_upto(*graph, project_root@, graph.syms().len()),
{
    let mut diagnostics: Vec<Diagnostic> = Vec::new();
    let files = count_files(graph);
    let n = graph.symbol_count();
    let mut i: usize = 0;
    while i < n
        invariant
            n == graph.syms().len(),
            i <= n,
            files == file_count(*graph),
            diag_views(diagnostics@) == dead_ends_upto(*graph, project_root@, i as nat),
        decreases n - i,
    {
        let symbol = graph.symbol_at(i);
        if !is_excluded_symbol(symbol) && symbol.kind != SymbolKind::Module && symbol.kind != SymbolKind::Class
            && symbol.kind != SymbolKind::Struct {
            let inbound = graph.edges_to(SymbolId(i + 1));
            if inbound.len() == 0 {
                push_diag(&mut diagnostics, build(symbol, project_root, files));
            }
        }
        i = i + 1;
    }
    diagnostics
}

} // verus!
