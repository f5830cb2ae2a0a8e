//! Phantom dependency detection — imports where the imported symbol is
//! never used in the importing file.

use vstd::prelude::*;

use crate::diagnostic::{
    diag_views, Confidence, Diagnostic, DiagnosticPattern, DiagnosticView, Evidence, EvidenceView,
    Severity,
};
use crate::graph::{Edge, Graph};
use crate::ir::{has_annotation, Symbol, SymbolId};
use crate::patterns::common::{
    count_files, file_count, gathered, kept, lemma_kept_members, loc, push_diag, symbol_location,
};
use crate::text::{chars_eq, chars_of, dec, owned, push_str, push_usize};

verus! {

/// Edge `e` into symbol `id` comes from another symbol of `file`.
pub open spec fn same_file_use(g: Graph, e: Edge, id: SymbolId, file: Seq<char>) -> bool {
    g.is_symbol(e.target) && g.sym(e.target).location.file@ == file && e.target != id
}

/// The `i`-th symbol is an import that no other symbol of its file uses.
pub open spec fn is_phantom(g: Graph, i: int) -> bool {
    let s = g.syms()[i];
    let id = SymbolId((i + 1) as usize);
    &&& has_annotation(s, "import"@)
    &&& !exists|j: int| 0 <= j < g.in_edges(id).len()
            && same_file_use(g, #[trigger] g.in_edges(id)[j], id, s.location.file@)
}

/// The diagnostic reported for phantom import `s`.
pub open spec fn phantom_diag(s: Symbol, root: Seq<char>, files: nat) -> DiagnosticView {
    let location = loc(s.location.file@, root, s.location.line);
    DiagnosticView {
        id: seq![],
        pattern: DiagnosticPattern::PhantomDependency,
        severity: Severity::Info,
        confidence: Confidence::High,
        entity: s.name@,
        message: "Phantom dependency: import '"@ + s.name@ + "' is never used in this file"@,
        evidence: seq![EvidenceView {
            observation: "0 references to '"@ + s.name@ + "' in "@ + dec(files) + " analyzed files"@,
            location: Some(location),
            context: Some("imported symbol has no usage in the importing file"@),
        }],
        suggestion: "Remove the unused import '"@ + s.name@
            + "' to reduce phantom dependencies and improve clarity."@,
        location,
    }
}

/// Diagnostics for the phantom imports among the first `n` symbols, in order.
pub open spec fn phantoms_upto(g: Graph, root: Seq<char>, n: nat) -> Seq<DiagnosticView>
    decreases n,
{
    if n == 0 {
        seq![]
    } else if is_phantom(g, n - 1) {
        phantoms_upto(g, root, (n - 1) as nat).push(phantom_diag(g.syms()[n - 1], root, file_count(g)))
    } else {
        phantoms_upto(g, root, (n - 1) as nat)
    }
}

/// Which symbols are phantom imports, as a predicate on indices.
pub open spec fn phantom_keep(g: Graph) -> spec_fn(int) -> bool {
    |i: int| is_phantom(g, i)
}

/// The diagnostic of the `i`-th symbol, as a function of the index.
pub open spec fn phantom_make(g: Graph, root: Seq<char>) -> spec_fn(int) -> DiagnosticView {
    |i: int| phantom_diag(g.syms()[i], root, file_count(g))
}

proof fn lemma_phantoms_kept(g: Graph, root: Seq<char>, n: nat)
    ensures
        phantoms_upto(g, root, n) == gathered(n, kept(phantom_keep(g), phantom_make(g, root))),
    decreases n,
{
    if n > 0 {
        lemma_phantoms_kept(g, root, (n - 1) as nat);
        assert(phantoms_upto(g, root, n) =~= gathered(n, kept(phantom_keep(g), phantom_make(g, root))));
    }
}

/// A phantom-dependency finding is reported for exactly the phantom imports:
/// every finding is the diagnostic of an import symbol that no other symbol
/// of its own file uses, every such import has one, and each is an Info
/// finding with High confidence naming the import.
pub proof fn law_phantom_findings(g: Graph, root: Seq<char>)
    ensures
        forall|d: DiagnosticView|
            phantoms_upto(g, root, g.syms().len()).contains(d)
                <==> exists|i: int| 0 <= i < g.syms().len() && #[trigger] is_phantom(g, i)
                    && d == phantom_diag(g.syms()[i], root, file_count(g)),
        forall|d: DiagnosticView|
            #[trigger] phantoms_upto(g, root, g.syms().len()).contains(d) ==> {
                &&& d.pattern == DiagnosticPattern::PhantomDependency
                &&& d.severity == Severity::Info
                &&& d.confidence == Confidence::High
            },
{
    let n = g.syms().len();
    lemma_phantoms_kept(g, root, n);
    lemma_kept_members(n, phantom_keep(g), phantom_make(g, root));
    assert forall|d: DiagnosticView|
        phantoms_upto(g, root, n).contains(d)
            <==> exists|i: int| 0 <= i < n && #[trigger] is_phantom(g, i)
                && d == phantom_diag(g.syms()[i], root, file_count(g)) by {
        if phantoms_upto(g, root, n).contains(d) {
            let i = choose|i: int| 0 <= i < n && #[trigger] phantom_keep(g)(i) && d == phantom_make(g, root)(i);
            assert(is_phantom(g, i));
        }
        if exists|i: int| 0 <= i < n && #[trigger] is_phantom(g, i)
            && d == phantom_diag(g.syms()[i], root, file_count(g)) {
            let i = choose|i: int| 0 <= i < n && #[trigger] is_phantom(g, i)
                && d == phantom_diag(g.syms()[i], root, file_count(g));
            assert(phantom_keep(g)(i) && d == phantom_make(g, root)(i));
        }
    }
}

fn build(symbol: &Symbol, project_root: &str, files: usize) -> (d: Diagnostic)
    ensures
        d@ == phantom_diag(*symbol, project_root@, files as nat),
{
    let location = symbol_location(symbol, project_root);
    let mut message = String::new();
    push_str(&mut message, "Phantom dependency: import '");
    push_str(&mut message, symbol.name.as_str());
    push_str(&mut message, "' is never used in this file");
    let mut observation = String::new();
    push_str(&mut observation, "0 references to '");
    push_str(&mut observation, symbol.name.as_str());
    push_str(&mut observation, "' in ");
    push_usize(&mut observation, files);
    push_str(&mut observation, " analyzed files");
    let mut suggestion = String::new();
    push_str(&mut suggestion, "Remove the unused import '");
    push_str(&mut suggestion, symbol.name.as_str());
    push_str(&mut suggestion, "' to reduce phantom dependencies and improve clarity.");
    let ev = Evidence {
        observation,
        location: Some(location.clone()),
        context: Some(owned("imported symbol has no usage in the importing file")),
    };
    let d = Diagnostic {
        id: String::new(),
        pattern: DiagnosticPattern::PhantomDependency,
        severity: Severity::Info,
        confidence: Confidence::High,
        entity: symbol.name.clone(),
        message,
        evidence: vec![ev],
        suggestion,
        location,
    };
    assert(d@.evidence =~= seq![ev@]);
    let ghost want = phantom_diag(*symbol, project_root@, files as nat);
    assert(d@.message =~= want.message);
    assert(d@.suggestion =~= want.suggestion);
    assert(ev@.observation =~= want.evidence[0].observation);
    d
}

/// Detect phantom dependencies in the analysis graph.
///
/// Import symbols are identified by the "import" annotation. A phantom
/// import has no incoming edge from another symbol of the same file.
pub fn detect(graph: &Graph, project_root: &str) -> (r: Vec<Diagnostic>)
    ensures
        diag_views(r@) == phantoms_upto(*graph, project_root@, graph.syms().len()),
{
    let mut diagnostics: Vec<Diagnostic> = Vec::new();
    let files = count_files(graph);
    let n = graph.symbol_count();
    let mut i: usize = 0;
    while i < n
        invariant
            n == graph.syms().len(),
            i <= n,
            files == file_count(*graph),
            diag_views(diagnostics@) == phantoms_upto(*graph, project_root@, i as nat),
        decreases n - i,
    {
        let symbol = graph.symbol_at(i);
        if symbol.has_annotation("import") {
            let id = SymbolId(i + 1);
            let file = chars_of(symbol.location.file.as_str());
            let edges = graph.edges_to(id);
            let mut used = false;
            let mut k: usize = 0;
            while k < edges.len()
                invariant
                    k <= edges@.len(),
                    edges@ == graph.in_edges(id),
                    file@ == symbol.location.file@,
                    used == exists|j: int| 0 <= j < k
                        && same_file_use(*graph, #[trigger] edges@[j], id, file@),
                decreases edges@.len() - k,
            {
                let e = edges[k];
                if e.target != id {
                    if let Some(src) = graph.get_symbol(e.target) {
                        let sf = chars_of(src.location.file.as_str());
                        if chars_eq(&sf, &file) {
                            used = true;
                        }
                    }
                }
                assert(used == exists|j: int| 0 <= j < k + 1
                    && same_file_use(*graph, #[trigger] edges@[j], id, file@)) by {
                    if same_file_use(*graph, edges@[k as int], id, file@) {
                        assert(used);
                    }
                }
                k = k + 1;
            }
            if !used {
                push_diag(&mut diagnostics, build(symbol, project_root, files));
            }
        }
        i = i + 1;
    }
    diagnostics
}

} // verus!
