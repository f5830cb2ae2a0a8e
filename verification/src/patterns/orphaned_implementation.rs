//! Orphaned implementation detection — methods with zero dispatch points.
//!
//! Finds method symbols with no inbound call or reference edge. Distinct
//! from `data_dead_end`, which skips methods; the messages and
//! suggestions differ.

use vstd::prelude::*;

use crate::diagnostic::{
    diag_views, Confidence, Diagnostic, DiagnosticPattern, DiagnosticView, Evidence, EvidenceView,
    Severity,
};
use crate::patterns::exclusion::{excluded, is_excluded_symbol};
use crate::graph::Graph;
use crate::ir::{Symbol, SymbolId, SymbolKind, Visibility};
use crate::patterns::common::{
    count_files, file_count, gathered, kept, lemma_kept_members, loc, push_diag, symbol_location, visibility_name, visibility_name_str,
};
use crate::patterns::data_dead_end::underscore_private;
use crate::text::{chars_of, dec, has_prefix, push_str, push_usize};

verus! {

/// The `i`-th symbol is an orphaned method: a non-excluded method with no
/// incoming call or reference edge.
pub open spec fn is_orphan(g: Graph, i: int) -> bool {
    let s = g.syms()[i];
    &&& s.kind == SymbolKind::Method
    &&& !excluded(s)
    &&& g.in_edges(SymbolId((i + 1) as usize)).len() == 0
}

/// Confidence of an orphaned method, by visibility.
pub open spec fn orphan_confidence(s: Symbol) -> Confidence {
    match s.visibility {
        Visibility::Private | Visibility::Protected => Confidence::High,
        Visibility::Crate => Confidence::Moderate,
        Visibility::Public => if underscore_private(s.name@) { Confidence::High } else { Confidence::Moderate },
    }
}

/// The diagnostic reported for orphaned method `s`.
pub open spec fn orphan_diag(s: Symbol, root: Seq<char>, files: nat) -> DiagnosticView {
    let location = loc(s.location.file@, root, s.location.line);
    DiagnosticView {
        id: seq![],
        pattern: DiagnosticPattern::OrphanedImplementation,
        severity: Severity::Warning,
        confidence: orphan_confidence(s),
        entity: s.qualified_name@,
        message: "Orphaned implementation: method '"@ + s.name@ + "' has no dispatch points"@,
        evidence: seq![EvidenceView {
            observation: "0 callers in "@ + dec(files) + " analyzed files"@,
            location: Some(location),
            context: Some("visibility: "@ + visibility_name(s.visibility) + ", kind: Method"@),
        }],
        suggestion: "Wire a dispatch path to '"@ + s.name@
            + "', or remove the implementation if it is no longer needed."@,
        location,
    }
}

/// Diagnostics for the orphaned methods among the first `n` symbols, in order.
pub open spec fn orphans_upto(g: Graph, root: Seq<char>, n: nat) -> Seq<DiagnosticView>
    decreases n,
{
    if n == 0 {
        seq![]
    } else if is_orphan(g, n - 1) {
        orphans_upto(g, root, (n - 1) as nat).push(orphan_diag(g.syms()[n - 1], root, file_count(g)))
    } else {
        orphans_upto(g, root, (n - 1) as nat)
    }
}

/// Which symbols are orphaned methods, as a predicate on indices.
pub open spec fn orphan_keep(g: Graph) -> spec_fn(int) -> bool {
    |i: int| is_orphan(g, i)
}

/// The finding of the `i`-th symbol, as a function of the index.
pub open spec fn orphan_make(g: Graph, root: Seq<char>) -> spec_fn(int) -> DiagnosticView {
    |i: int| orphan_diag(g.syms()[i], root, file_count(g))
}

proof fn lemma_orphan_kept(g: Graph, root: Seq<char>, n: nat)
    ensures
        orphans_upto(g, root, n) == gathered(n, kept(orphan_keep(g), orphan_make(g, root))),
    decreases n,
{
    if n > 0 {
        lemma_orphan_kept(g, root, (n - 1) as nat);
        assert(orphans_upto(g, root, n) =~= gathered(n, kept(orphan_keep(g), orphan_make(g, root))));
    }
}

/// An orphaned implementation is reported for exactly the orphaned methods:
/// every finding is the diagnostic of a non-excluded method that nothing
/// references, and every such method has its finding.
pub proof fn law_orphan_findings(g: Graph, root: Seq<char>)
    ensures
        forall|d: DiagnosticView|
            orphans_upto(g, root, g.syms().len()).contains(d) <==> exists|i: int| 0 <= i < g.syms().len()
                && #[trigger] is_orphan(g, i) && d == orphan_diag(g.syms()[i], root, file_count(g)),
{
    let n = g.syms().len();
    lemma_orphan_kept(g, root, n);
    lemma_kept_members(n, orphan_keep(g), orphan_make(g, root));
    assert forall|d: DiagnosticView|
        orphans_upto(g, root, n).contains(d) <==> exists|i: int| 0 <= i < n
            && #[trigger] is_orphan(g, i) && d == orphan_diag(g.syms()[i], root, file_count(g)) by {
        if orphans_upto(g, root, n).contains(d) {
            let i = choose|i: int| 0 <= i < n && #[trigger] orphan_keep(g)(i) && d == orphan_make(g, root)(i);
            assert(is_orphan(g, i));
        }
        if exists|i: int| 0 <= i < n && #[trigger] is_orphan(g, i) && d == orphan_diag(g.syms()[i], root, file_count(g)) {
            let i = choose|i: int| 0 <= i < n && #[trigger] is_orphan(g, i) && d == orphan_diag(g.syms()[i], root, file_count(g));
            assert(orphan_keep(g)(i) && d == orphan_make(g, root)(i));
        }
    }
}

fn confidence_of(symbol: &Symbol) -> (c: Confidence)
    ensures
        c == orphan_confidence(*symbol),
{
    match symbol.visibility {
        Visibility::Private | Visibility::Protected => Confidence::High,
        Visibility::Crate => Confidence::Moderate,
        Visibility::Public => {
            let name = chars_of(symbol.name.as_str());
            if has_prefix(&name, &chars_of("_")) && !has_prefix(&name, &chars_of("__")) {
                Confidence::High
            } else {
                Confidence::Moderate
            }
        },
    }
}

fn build(symbol: &Symbol, project_root: &str, files: usize) -> (d: Diagnostic)
    ensures
        d@ == orphan_diag(*symbol, project_root@, files as nat),
{
    let location = symbol_location(symbol, project_root);
    let mut message = String::new();
    push_str(&mut message, "Orphaned implementation: method '");
    push_str(&mut message, symbol.name.as_str());
    push_str(&mut message, "' has no dispatch points");
    let mut observation = String::new();
    push_str(&mut observation, "0 callers in ");
    push_usize(&mut observation, files);
    push_str(&mut observation, " analyzed files");
    let mut context = String::new();
    push_str(&mut context, "visibility: ");
    push_str(&mut context, visibility_name_str(symbol.visibility));
    push_str(&mut context, ", kind: Method");
    let mut suggestion = String::new();
    push_str(&mut suggestion, "Wire a dispatch path to '");
    push_str(&mut suggestion, symbol.name.as_str());
    push_str(&mut suggestion, "', or remove the implementation if it is no longer needed.");
    let ev = Evidence { observation, location: Some(location.clone()), context: Some(context) };
    let d = Diagnostic {
        id: String::new(),
        pattern: DiagnosticPattern::OrphanedImplementation,
        severity: Severity::Warning,
        confidence: confidence_of(symbol),
        entity: symbol.qualified_name.clone(),
        message,
        evidence: vec![ev],
        suggestion,
        location,
    };
    assert(d@.evidence =~= seq![ev@]);
    let ghost want = orphan_diag(*symbol, project_root@, files as nat);
    assert(d@.message =~= want.message);
    assert(d@.suggestion =~= want.suggestion);
    assert(ev@.observation =~= want.evidence[0].observation);
    assert(ev@.context =~= want.evidence[0].context);
    d
}

/// Detect orphaned implementations in the analysis graph: methods with
/// zero callers. Exclusions: dunder methods, entry points, test file
/// methods, import symbols. Severity: Warning. Confidence: High (private)
/// or Moderate (public).
pub fn detect(graph: &Graph, project_root: &str) -> (r: Vec<Diagnostic>)
    ensures
        diag_views(r@) == orphans_upto(*graph, project_root@, graph.syms().len()),
{
    let mut diagnostics: Vec<Diagnostic> = Vec::new();
    let files = count_files(graph);
    let n = graph.symbol_count();
    let mut i: usize = 0;
    while i < n
        invariant
            n == graph.syms().len(),
            i <= n,
            files == file_count(*graph),
            diag_views(diagnostics@) == orphans_upto(*graph, project_root@, i as nat),
        decreases n - i,
    {
        let symbol = graph.symbol_at(i);
        if symbol.kind == SymbolKind::Method && !is_excluded_symbol(symbol) {
            let inbound = graph.edges_to(SymbolId(i + 1));
            if inbound.len() == 0 {
                push_diag(&mut diagnostics, build(symbol, project_root, files));
            }
        }
        i = i + 1;
    }
    diagnostics
}

} // verus!
