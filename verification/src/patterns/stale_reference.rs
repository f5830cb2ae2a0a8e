//! Stale reference detection — imports referencing symbols that no longer exist.
//!
//! Two signals with distinct confidence levels:
//! - **High:** the import's resolution is `Partial("module resolved, symbol not found")`.
//! - **Moderate:** the import is `Unresolved` and its `from:` module looks local
//!   (relative, or the stem of some analyzed file).
//!
//! Star imports (`Partial("star import ...")`) are skipped as ambiguous.

use vstd::prelude::*;

use crate::diagnostic::{
    diag_views, Confidence, Diagnostic, DiagnosticPattern, DiagnosticView, Evidence, EvidenceView,
    Severity,
};
use crate::patterns::exclusion::file_name;
use crate::graph::Graph;
use crate::ir::{has_annotation, ResolutionStatus, Symbol};
use crate::patterns::common::{gathered, lemma_gathered_members, loc, push_diag, symbol_location};
use crate::text::{
    chars_eq, chars_of, ends_with, has_prefix, has_suffix, last_index_of, lemma_last_index_bounds,
    owned, push_chars, push_str, rfind_char, slice_chars, starts_with,
};

verus! {

/// The module named by the first `from:` annotation among `annots`.
pub open spec fn from_module_of(annots: Seq<Seq<char>>) -> Option<Seq<char>>
    decreases annots.len(),
{
    if annots.len() == 0 {
        None
    } else if starts_with(annots[0], "from:"@) {
        Some(annots[0].skip("from:"@.len() as int))
    } else {
        from_module_of(annots.drop_first())
    }
}

/// The `from:` module of a symbol, if any.
pub open spec fn from_module(s: Symbol) -> Option<Seq<char>> {
    from_module_of(s.annotations@.map_values(|a: String| a@))
}

/// `s` with every trailing repetition of `p` removed.
pub open spec fn trim_suffix_all(s: Seq<char>, p: Seq<char>) -> Seq<char>
    decreases s.len(),
{
    if p.len() > 0 && ends_with(s, p) {
        trim_suffix_all(s.take(s.len() - p.len()), p)
    } else {
        s
    }
}

/// The module stem of a file: its last component without trailing
/// `.py`, `.js`, `.ts` and `.rs` extensions.
pub open spec fn file_stem(f: Seq<char>) -> Seq<char> {
    trim_suffix_all(
        trim_suffix_all(trim_suffix_all(trim_suffix_all(file_name(f), ".py"@), ".js"@), ".ts"@),
        ".rs"@,
    )
}

/// Module `m` looks local: relative, or the stem of some analyzed file.
pub open spec fn is_local_module(g: Graph, m: Seq<char>) -> bool {
    starts_with(m, "."@) || exists|k: int| 0 <= k < g.syms().len() && file_stem(#[trigger] g.syms()[k].location.file@) == m
}

/// ` from module '<m>'` when the import names its module, else empty.
pub open spec fn module_info(m: Option<Seq<char>>) -> Seq<char> {
    match m {
        Some(m) => " from module '"@ + m + "'"@,
        None => seq![],
    }
}

/// The high-confidence diagnostic: module resolved, symbol missing.
pub open spec fn missing_symbol_diag(s: Symbol, root: Seq<char>) -> DiagnosticView {
    let location = loc(s.location.file@, root, s.location.line);
    let info = module_info(from_module(s));
    DiagnosticView {
        id: seq![],
        pattern: DiagnosticPattern::StaleReference,
        severity: Severity::Warning,
        confidence: Confidence::High,
        entity: s.name@,
        message: "Stale reference: import '"@ + s.name@ + "'"@ + info + " targets a symbol that no longer exists"@,
        evidence: seq![EvidenceView {
            observation: "Symbol '"@ + s.name@ + "' not found in target module"@ + info
                + ". The symbol may have been renamed, removed, or moved."@,
            location: Some(location),
            context: Some("module resolved, symbol not found"@),
        }],
        suggestion: "Update or remove the import of '"@ + s.name@
            + "'. Check if the symbol was renamed or moved to a different module."@,
        location,
    }
}

/// The moderate-confidence diagnostic: unresolved import from local module `m`.
pub open spec fn unresolved_local_diag(s: Symbol, m: Seq<char>, root: Seq<char>) -> DiagnosticView {
    let location = loc(s.location.file@, root, s.location.line);
    DiagnosticView {
        id: seq![],
        pattern: DiagnosticPattern::StaleReference,
        severity: Severity::Warning,
        confidence: Confidence::Moderate,
        entity: s.name@,
        message: "Stale reference: import '"@ + s.name@ + "' from '"@ + m + "' could not be resolved"@,
        evidence: seq![EvidenceView {
            observation: "Import '"@ + s.name@ + "' from local module '"@ + m
                + "' is unresolved. The module exists but the symbol may have been removed."@,
            location: Some(location),
            context: Some("unresolved import to local module"@),
        }],
        suggestion: "Verify that '"@ + s.name@ + "' still exists in module '"@ + m
            + "'. The symbol may have been renamed or removed."@,
        location,
    }
}

/// The diagnostics reported for the `i`-th symbol (none or one).
pub open spec fn stale_at(g: Graph, root: Seq<char>, i: int) -> Seq<DiagnosticView> {
    let s = g.syms()[i];
    if !has_annotation(s, "import"@) {
        seq![]
    } else {
        match s.resolution {
            ResolutionStatus::Partial(reason) => if reason@ == "module resolved, symbol not found"@ {
                seq![missing_symbol_diag(s, root)]
            } else {
                seq![]
            },
            ResolutionStatus::Unresolved => match from_module(s) {
                Some(m) => if is_local_module(g, m) { seq![unresolved_local_diag(s, m, root)] } else { seq![] },
                None => seq![],
            },
            ResolutionStatus::Resolved => seq![],
        }
    }
}

/// Diagnostics for the stale imports among the first `n` symbols, in order.
pub open spec fn stale_upto(g: Graph, root: Seq<char>, n: nat) -> Seq<DiagnosticView>
    decreases n,
{
    if n == 0 {
        seq![]
    } else {
        stale_upto(g, root, (n - 1) as nat) + stale_at(g, root, n - 1)
    }
}

/// An import whose module resolved but whose symbol was not found there.
pub open spec fn missing_symbol_import(s: Symbol) -> bool {
    &&& has_annotation(s, "import"@)
    &&& s.resolution matches ResolutionStatus::Partial(reason)
    &&& reason@ == "module resolved, symbol not found"@
}

/// An unresolved import whose `from:` module looks local.
pub open spec fn unresolved_local_import(g: Graph, s: Symbol) -> bool {
    &&& has_annotation(s, "import"@)
    &&& s.resolution is Unresolved
    &&& from_module(s) matches Some(m)
    &&& is_local_module(g, m)
}

/// The stale-reference outputs per symbol index.
pub open spec fn stale_at_fn(g: Graph, root: Seq<char>) -> spec_fn(int) -> Seq<DiagnosticView> {
    |i: int| stale_at(g, root, i)
}

proof fn lemma_stale_gathered(g: Graph, root: Seq<char>, n: nat)
    ensures
        stale_upto(g, root, n) == gathered(n, stale_at_fn(g, root)),
    decreases n,
{
    if n > 0 {
        lemma_stale_gathered(g, root, (n - 1) as nat);
    }
}

/// Stale references are reported for exactly two kinds of import: each
/// finding is either the High-confidence diagnostic of an import whose
/// module resolved but whose symbol was not found, or the
/// Moderate-confidence diagnostic of an unresolved import whose `from:`
/// module looks local; every such import has its finding. Resolved imports,
/// other partial resolutions (star imports), unresolved imports without a
/// local `from:` module, and non-import symbols are never reported.
pub proof fn law_stale_findings(g: Graph, root: Seq<char>)
    ensures
        forall|d: DiagnosticView|
            stale_upto(g, root, g.syms().len()).contains(d) <==> exists|i: int|
                0 <= i < g.syms().len() && {
                    ||| missing_symbol_import(#[trigger] g.syms()[i])
                        && d == missing_symbol_diag(g.syms()[i], root)
                    ||| unresolved_local_import(g, g.syms()[i])
                        && d == unresolved_local_diag(g.syms()[i], from_module(g.syms()[i])->0, root)
                },
{
    let n = g.syms().len();
    lemma_stale_gathered(g, root, n);
    lemma_gathered_members(n, stale_at_fn(g, root));
    assert forall|d: DiagnosticView|
        stale_upto(g, root, n).contains(d) <==> exists|i: int|
            0 <= i < n && {
                ||| missing_symbol_import(#[trigger] g.syms()[i])
                    && d == missing_symbol_diag(g.syms()[i], root)
                ||| unresolved_local_import(g, g.syms()[i])
                    && d == unresolved_local_diag(g.syms()[i], from_module(g.syms()[i])->0, root)
            } by {
        if stale_upto(g, root, n).contains(d) {
            let i = choose|i: int| 0 <= i < n && (#[trigger] stale_at_fn(g, root)(i)).contains(d);
            let o = stale_at(g, root, i);
            assert(o.len() == 1);
            let k = choose|k: int| 0 <= k < o.len() && #[trigger] o[k] == d;
            assert(d == o[0]);
            let _ = g.syms()[i];
        }
        if exists|i: int|
            0 <= i < n && {
                ||| missing_symbol_import(#[trigger] g.syms()[i])
                    && d == missing_symbol_diag(g.syms()[i], root)
                ||| unresolved_local_import(g, g.syms()[i])
                    && d == unresolved_local_diag(g.syms()[i], from_module(g.syms()[i])->0, root)
            } {
            let i = choose|i: int|
                0 <= i < n && {
                    ||| missing_symbol_import(#[trigger] g.syms()[i])
                        && d == missing_symbol_diag(g.syms()[i], root)
                    ||| unresolved_local_import(g, g.syms()[i])
                        && d == unresolved_local_diag(g.syms()[i], from_module(g.syms()[i])->0, root)
                };
            let o = stale_at_fn(g, root)(i);
            assert(o[0] == d);
            assert(o.contains(d));
        }
    }
}

fn from_module_exec(symbol: &Symbol) -> (r: Option<Vec<char>>)
    ensures
        r matches Some(v) ==> from_module(*symbol) == Some(v@),
        r is None ==> from_module(*symbol) is None,
{
    let prefix = chars_of("from:");
    let ghost views = symbol.annotations@.map_values(|a: String| a@);
    let mut i: usize = 0;
    assert(views.skip(0) =~= views);
    while i < symbol.annotations.len()
        invariant
            i <= symbol.annotations@.len(),
            prefix@ == "from:"@,
            views == symbol.annotations@.map_values(|a: String| a@),
            from_module_of(views) == from_module_of(views.skip(i as int)),
        decreases symbol.annotations@.len() - i,
    {
        let a = chars_of(symbol.annotations[i].as_str());
        assert(views.skip(i as int)[0] == a@);
        if has_prefix(&a, &prefix) {
            return Some(slice_chars(&a, prefix.len(), a.len()));
        }
        assert(views.skip(i as int).drop_first() =~= views.skip(i + 1));
        i = i + 1;
    }
    assert(views.skip(i as int).len() == 0);
    None
}

fn trim_all(s: Vec<char>, p: &Vec<char>) -> (r: Vec<char>)
    ensures
        r@ == trim_suffix_all(s@, p@),
{
    let mut cur = s;
    while p.len() > 0 && has_suffix(&cur, p)
        invariant
            trim_suffix_all(cur@, p@) == trim_suffix_all(s@, p@),
        decreases cur@.len(),
    {
        let k = cur.len() - p.len();
        cur = slice_chars(&cur, 0, k);
    }
    cur
}

fn stem_of(file: &str) -> (r: Vec<char>)
    ensures
        r@ == file_stem(file@),
{
    let f = chars_of(file);
    proof {
        lemma_last_index_bounds(f@, '/');
    }
    let start: usize = match rfind_char(&f, '/') {
        Some(i) => i + 1,
        None => 0,
    };
    let name = slice_chars(&f, start, f.len());
    assert(name@ =~= file_name(f@));
    let a = trim_all(name, &chars_of(".py"));
    let b = trim_all(a, &chars_of(".js"));
    let c = trim_all(b, &chars_of(".ts"));
    trim_all(c, &chars_of(".rs"))
}

fn looks_local(graph: &Graph, m: &Vec<char>) -> (r: bool)
    ensures
        r == is_local_module(*graph, m@),
{
    if has_prefix(m, &chars_of(".")) {
        return true;
    }
    let n = graph.symbol_count();
    let mut k: usize = 0;
    while k < n
        invariant
            n == graph.syms().len(),
            k <= n,
            forall|j: int| 0 <= j < k ==> file_stem(#[trigger] graph.syms()[j].location.file@) != m@,
        decreases n - k,
    {
        let st = stem_of(graph.symbol_at(k).location.file.as_str());
        if chars_eq(&st, m) {
            return true;
        }
        k = k + 1;
    }
    false
}

fn build_missing(symbol: &Symbol, project_root: &str, from: &Option<Vec<char>>) -> (d: Diagnostic)
    requires
        from matches Some(v) ==> from_module(*symbol) == Some(v@),
        from is None ==> from_module(*symbol) is None,
    ensures
        d@ == missing_symbol_diag(*symbol, project_root@),
{
    let location = symbol_location(symbol, project_root);
    let mut info = String::new();
    if let Some(m) = from {
        push_str(&mut info, " from module '");
        push_chars(&mut info, m);
        push_str(&mut info, "'");
    }
    assert(info@ =~= module_info(from_module(*symbol)));
    let mut message = String::new();
    push_str(&mut message, "Stale reference: import '");
    push_str(&mut message, symbol.name.as_str());
    push_str(&mut message, "'");
    push_str(&mut message, info.as_str());
    push_str(&mut message, " targets a symbol that no longer exists");
    let mut observation = String::new();
    push_str(&mut observation, "Symbol '");
    push_str(&mut observation, symbol.name.as_str());
    push_str(&mut observation, "' not found in target module");
    push_str(&mut observation, info.as_str());
    push_str(&mut observation, ". The symbol may have been renamed, removed, or moved.");
    let mut suggestion = String::new();
    push_str(&mut suggestion, "Update or remove the import of '");
    push_str(&mut suggestion, symbol.name.as_str());
    push_str(&mut suggestion, "'. Check if the symbol was renamed or moved to a different module.");
    let ev = Evidence {
        observation,
        location: Some(location.clone()),
        context: Some(owned("module resolved, symbol not found")),
    };
    let d = Diagnostic {
        id: String::new(),
        pattern: DiagnosticPattern::StaleReference,
        severity: Severity::Warning,
        confidence: Confidence::High,
        entity: symbol.name.clone(),
        message,
        evidence: vec![ev],
        suggestion,
        location,
    };
    assert(d@.evidence =~= seq![ev@]);
    let ghost want = missing_symbol_diag(*symbol, project_root@);
    assert(d@.message =~= want.message);
    assert(d@.suggestion =~= want.suggestion);
    assert(ev@.observation =~= want.evidence[0].observation);
    d
}

fn build_unresolved(symbol: &Symbol, project_root: &str, m: &Vec<char>) -> (d: Diagnostic)
    ensures
        d@ == unresolved_local_diag(*symbol, m@, project_root@),
{
    let location = symbol_location(symbol, project_root);
    let mut message = String::new();
    push_str(&mut message, "Stale reference: import '");
    push_str(&mut message, symbol.name.as_str());
    push_str(&mut message, "' from '");
    push_chars(&mut message, m);
    push_str(&mut message, "' could not be resolved");
    let mut observation = String::new();
    push_str(&mut observation, "Import '");
    push_str(&mut observation, symbol.name.as_str());
    push_str(&mut observation, "' from local module '");
    push_chars(&mut observation, m);
    push_str(&mut observation, "' is unresolved. The module exists but the symbol may have been removed.");
    let mut suggestion = String::new();
    push_str(&mut suggestion, "Verify that '");
    push_str(&mut suggestion, symbol.name.as_str());
    push_str(&mut suggestion, "' still exists in module '");
    push_chars(&mut suggestion, m);
    push_str(&mut suggestion, "'. The symbol may have been renamed or removed.");
    let ev = Evidence {
        observation,
        location: Some(location.clone()),
        context: Some(owned("unresolved import to local module")),
    };
    let d = Diagnostic {
        id: String::new(),
        pattern: DiagnosticPattern::StaleReference,
        severity: Severity::Warning,
        confidence: Confidence::Moderate,
        entity: symbol.name.clone(),
        message,
        evidence: vec![ev],
        suggestion,
        location,
    };
    assert(d@.evidence =~= seq![ev@]);
    let ghost want = unresolved_local_diag(*symbol, m@, project_root@);
    assert(d@.message =~= want.message);
    assert(d@.suggestion =~= want.suggestion);
    assert(ev@.observation =~= want.evidence[0].observation);
    d
}

/// Detect stale references in the analysis graph.
///
/// Walks all import-annotated symbols and checks their resolution status:
/// `Partial("module resolved, symbol not found")` is flagged at High
/// confidence; an unresolved import from a local-looking module at
/// Moderate confidence.
pub fn detect(graph: &Graph, project_root: &str) -> (r: Vec<Diagnostic>)
    ensures
        diag_views(r@) == stale_upto(*graph, project_root@, graph.syms().len()),
{
    let mut diagnostics: Vec<Diagnostic> = Vec::new();
    let reason_c = chars_of("module resolved, symbol not found");
    let n = graph.symbol_count();
    let mut i: usize = 0;
    while i < n
        invariant
            n == graph.syms().len(),
            i <= n,
            reason_c@ == "module resolved, symbol not found"@,
            diag_views(diagnostics@) == stale_upto(*graph, project_root@, i as nat),
        decreases n - i,
    {
        let symbol = graph.symbol_at(i);
        let ghost before = diag_views(diagnostics@);
        if symbol.has_annotation("import") {
            let from = from_module_exec(symbol);
            match &symbol.resolution {
                ResolutionStatus::Partial(reason) => {
                    let rc = chars_of(reason.as_str());
                    if chars_eq(&rc, &reason_c) {
                        push_diag(&mut diagnostics, build_missing(symbol, project_root, &from));
                    }
                },
                ResolutionStatus::Unresolved => {
                    if let Some(m) = &from {
                        if looks_local(graph, m) {
                            push_diag(&mut diagnostics, build_unresolved(symbol, project_root, m));
                        }
                    }
                },
                ResolutionStatus::Resolved => {},
            }
        }
        assert(diag_views(diagnostics@) =~= before + stale_at(*graph, project_root@, i as int));
        i = i + 1;
    }
    diagnostics
}

} // verus!
