//! Missing re-export detection — public symbols not exported through their
//! parent module.
//!
//! Parent module files are `__init__.py` and `mod.rs`. For each of them the
//! public definitions of the sibling files in the same directory are
//! checked against the names the parent imports; matching is by name.

use vstd::prelude::*;

use crate::diagnostic::{
    diag_views, Confidence, Diagnostic, DiagnosticPattern, DiagnosticView, Evidence, EvidenceView,
    Severity,
};
use crate::patterns::exclusion::{relative_path, relativize_path};
use crate::path::{components, parent_components, path_name, path_name_exec, same_parent, same_path};
use crate::graph::Graph;
use crate::ir::{has_annotation, Symbol, SymbolKind, Visibility};
use crate::patterns::common::{
    char_views, collect_files, distinct_files, push_diag,
};
use crate::text::{
    chars_eq, chars_of, dec, push_str, push_usize, string_of,
};

verus! {

/// A parent module file: its file name is `__init__.py` or `mod.rs`.
pub open spec fn parent_module(p: Seq<char>) -> bool {
    path_name(p) == "__init__.py"@ || path_name(p) == "mod.rs"@
}

/// Some symbol of `file` carries the `import` annotation and is named `name`.
pub open spec fn imported_in(g: Graph, file: Seq<char>, name: Seq<char>) -> bool {
    exists|j: int|
        0 <= j < g.syms().len() && #[trigger] g.syms()[j].location.file@ == file
            && has_annotation(g.syms()[j], "import"@) && g.syms()[j].name@ == name
}

/// The `i`-th symbol is a public definition of `file` that could be
/// re-exported: public, not a module, not an import, and not named like
/// an import of the same file.
pub open spec fn candidate(g: Graph, file: Seq<char>, i: int) -> bool {
    let s = g.syms()[i];
    &&& s.location.file@ == file
    &&& s.visibility == Visibility::Public
    &&& s.kind != SymbolKind::Module
    &&& !has_annotation(s, "import"@)
    &&& !imported_in(g, file, s.name@)
}

/// The `i`-th symbol is the first candidate of `file` with its name.
pub open spec fn first_candidate(g: Graph, file: Seq<char>, i: int) -> bool {
    &&& candidate(g, file, i)
    &&& forall|j: int| 0 <= j < i && #[trigger] candidate(g, file, j) ==> g.syms()[j].name@ != g.syms()[i].name@
}

/// The diagnostic for symbol `s` of `sibling` missing from `parent`.
pub open spec fn reexport_diag(s: Symbol, sibling: Seq<char>, parent: Seq<char>, root: Seq<char>) -> DiagnosticView {
    let srel = relative_path(sibling, root);
    let prel = relative_path(parent, root);
    let location = srel + ":"@ + dec(s.location.line as nat);
    DiagnosticView {
        id: seq![],
        pattern: DiagnosticPattern::MissingReexport,
        severity: Severity::Info,
        confidence: Confidence::Moderate,
        entity: s.qualified_name@,
        message: "Missing re-export: public symbol '"@ + s.name@ + "' in '"@ + srel
            + "' is not exported through '"@ + prel + "'"@,
        evidence: seq![EvidenceView {
            observation: "'"@ + s.name@ + "' is public in '"@ + srel + "' but not found in parent module '"@
                + prel + "'"@,
            location: Some(location),
            context: Some("parent module: "@ + prel + ", submodule: "@ + srel),
        }],
        suggestion: "Add '"@ + s.name@ + "' to the exports in '"@ + prel
            + "', or make it private if it is internal."@,
        location,
    }
}

/// Diagnostics for the first `n` symbols of `sibling` that `parent` does
/// not re-export, in symbol order.
pub open spec fn symbol_diags_upto(g: Graph, root: Seq<char>, parent: Seq<char>, sibling: Seq<char>, n: nat) -> Seq<DiagnosticView>
    decreases n,
{
    if n == 0 {
        seq![]
    } else {
        let prev = symbol_diags_upto(g, root, parent, sibling, (n - 1) as nat);
        let s = g.syms()[n - 1];
        if first_candidate(g, sibling, n - 1) && !imported_in(g, parent, s.name@) {
            prev.push(reexport_diag(s, sibling, parent, root))
        } else {
            prev
        }
    }
}

/// `f` is a sibling submodule of parent module `parent`: another path
/// whose parent has the same components, and no parent module itself.
pub open spec fn sibling_of(f: Seq<char>, parent: Seq<char>) -> bool {
    components(f) != components(parent) && parent_components(f) == parent_components(parent)
        && !parent_module(f)
}

/// Diagnostics for `parent` over the first `k` files of `files`.
pub open spec fn sibling_diags_upto(g: Graph, root: Seq<char>, files: Seq<Seq<char>>, parent: Seq<char>, k: nat) -> Seq<DiagnosticView>
    decreases k,
{
    if k == 0 || k > files.len() {
        seq![]
    } else {
        let prev = sibling_diags_upto(g, root, files, parent, (k - 1) as nat);
        let f = files[k - 1];
        if sibling_of(f, parent) {
            prev + symbol_diags_upto(g, root, parent, f, g.syms().len())
        } else {
            prev
        }
    }
}

/// Diagnostics for the parent modules among the first `k` files of `files`.
pub open spec fn reexport_diags_upto(g: Graph, root: Seq<char>, files: Seq<Seq<char>>, k: nat) -> Seq<DiagnosticView>
    decreases k,
{
    if k == 0 || k > files.len() {
        seq![]
    } else {
        let prev = reexport_diags_upto(g, root, files, (k - 1) as nat);
        let p = files[k - 1];
        if parent_module(p) {
            prev + sibling_diags_upto(g, root, files, p, files.len())
        } else {
            prev
        }
    }
}

/// All missing re-export diagnostics of the graph: parent modules in order
/// of first appearance, their siblings likewise, symbols in id order.
pub open spec fn missing_reexports(g: Graph, root: Seq<char>) -> Seq<DiagnosticView> {
    let files = distinct_files(g);
    reexport_diags_upto(g, root, files, files.len())
}

fn is_parent_module(p: &Vec<char>) -> (r: bool)
    ensures
        r == parent_module(p@),
{
    let name = path_name_exec(p);
    chars_eq(&name, &chars_of("__init__.py")) || chars_eq(&name, &chars_of("mod.rs"))
}

fn is_imported_in(graph: &Graph, file: &Vec<char>, name: &Vec<char>) -> (r: bool)
    ensures
        r == imported_in(*graph, file@, name@),
{
    let n = graph.symbol_count();
    let mut j: usize = 0;
    while j < n
        invariant
            n == graph.syms().len(),
            j <= n,
            forall|k: int|
                0 <= k < j ==> !(#[trigger] graph.syms()[k].location.file@ == file@
                    && has_annotation(graph.syms()[k], "import"@) && graph.syms()[k].name@ == name@),
        decreases n - j,
    {
        let s = graph.symbol_at(j);
        if chars_eq(&chars_of(s.location.file.as_str()), file) && s.has_annotation("import")
            && chars_eq(&chars_of(s.name.as_str()), name) {
            return true;
        }
        j = j + 1;
    }
    false
}

fn is_candidate(graph: &Graph, file: &Vec<char>, i: usize) -> (r: bool)
    requires
        i < graph.syms().len(),
    ensures
        r == candidate(*graph, file@, i as int),
{
    let s = graph.symbol_at(i);
    chars_eq(&chars_of(s.location.file.as_str()), file) && s.visibility == Visibility::Public
        && s.kind != SymbolKind::Module && !s.has_annotation("import")
        && !is_imported_in(graph, file, &chars_of(s.name.as_str()))
}

fn is_first_candidate(graph: &Graph, file: &Vec<char>, i: usize) -> (r: bool)
    requires
        i < graph.syms().len(),
    ensures
        r == first_candidate(*graph, file@, i as int),
{
    if !is_candidate(graph, file, i) {
        return false;
    }
    let name = chars_of(graph.symbol_at(i).name.as_str());
    let mut j: usize = 0;
    while j < i
        invariant
            i < graph.syms().len(),
            j <= i,
            name@ == graph.syms()[i as int].name@,
            forall|k: int| 0 <= k < j && #[trigger] candidate(*graph, file@, k) ==> graph.syms()[k].name@ != name@,
        decreases i - j,
    {
        if is_candidate(graph, file, j) && chars_eq(&chars_of(graph.symbol_at(j).name.as_str()), &name) {
            return false;
        }
        j = j + 1;
    }
    true
}

fn build(symbol: &Symbol, sibling: &Vec<char>, parent: &Vec<char>, project_root: &str) -> (d: Diagnostic)
    ensures
        d@ == reexport_diag(*symbol, sibling@, parent@, project_root@),
{
    let srel = relativize_path(string_of(sibling).as_str(), project_root);
    let prel = relativize_path(string_of(parent).as_str(), project_root);
    let name = symbol.name.as_str();
    let mut location = srel.clone();
    push_str(&mut location, ":");
    push_usize(&mut location, symbol.location.line as usize);
    let mut message = String::new();
    push_str(&mut message, "Missing re-export: public symbol '");
    push_str(&mut message, name);
    push_str(&mut message, "' in '");
    push_str(&mut message, srel.as_str());
    push_str(&mut message, "' is not exported through '");
    push_str(&mut message, prel.as_str());
    push_str(&mut message, "'");
    let mut observation = String::new();
    push_str(&mut observation, "'");
    push_str(&mut observation, name);
    push_str(&mut observation, "' is public in '");
    push_str(&mut observation, srel.as_str());
    push_str(&mut observation, "' but not found in parent module '");
    push_str(&mut observation, prel.as_str());
    push_str(&mut observation, "'");
    let mut context = String::new();
    push_str(&mut context, "parent module: ");
    push_str(&mut context, prel.as_str());
    push_str(&mut context, ", submodule: ");
    push_str(&mut context, srel.as_str());
    let mut suggestion = String::new();
    push_str(&mut suggestion, "Add '");
    push_str(&mut suggestion, name);
    push_str(&mut suggestion, "' to the exports in '");
    push_str(&mut suggestion, prel.as_str());
    push_str(&mut suggestion, "', or make it private if it is internal.");
    let ev = Evidence { observation, location: Some(location.clone()), context: Some(context) };
    let d = Diagnostic {
        id: String::new(),
        pattern: DiagnosticPattern::MissingReexport,
        severity: Severity::Info,
        confidence: Confidence::Moderate,
        entity: symbol.qualified_name.clone(),
        message,
        evidence: vec![ev],
        suggestion,
        location,
    };
    let ghost want = reexport_diag(*symbol, sibling@, parent@, project_root@);
    assert(d@.evidence =~= seq![ev@]);
    assert(d@.location =~= want.location);
    assert(d@.message =~= want.message);
    assert(d@.suggestion =~= want.suggestion);
    assert(ev@.observation =~= want.evidence[0].observation);
    assert(ev@.context =~= want.evidence[0].context);
    d
}

fn sibling_diags(graph: &Graph, project_root: &str, parent: &Vec<char>, sibling: &Vec<char>, out: &mut Vec<Diagnostic>)
    ensures
        diag_views(final(out)@) == diag_views(old(out)@)
            + symbol_diags_upto(*graph, project_root@, parent@, sibling@, graph.syms().len()),
{
    let n = graph.symbol_count();
    let ghost base = diag_views(out@);
    let mut i: usize = 0;
    while i < n
        invariant
            n == graph.syms().len(),
            i <= n,
            diag_views(out@) == base + symbol_diags_upto(*graph, project_root@, parent@, sibling@, i as nat),
        decreases n - i,
    {
        if is_first_candidate(graph, sibling, i) {
            let s = graph.symbol_at(i);
            if !is_imported_in(graph, parent, &chars_of(s.name.as_str())) {
                let ghost before = diag_views(out@);
                push_diag(out, build(s, sibling, parent, project_root));
                assert(diag_views(out@) =~= base + symbol_diags_upto(*graph, project_root@, parent@, sibling@, (i + 1) as nat));
            }
        }
        i = i + 1;
    }
}

/// Detect public symbols in submodules that are not re-exported through
/// their parent module (`__init__.py`, `mod.rs`), matching by name against
/// the parent's imports. Severity: Info. Confidence: Moderate.
pub fn detect(graph: &Graph, project_root: &str) -> (r: Vec<Diagnostic>)
    ensures
        diag_views(r@) == missing_reexports(*graph, project_root@),
{
    let files = collect_files(graph);
    let ghost fs = char_views(files@);
    let mut out: Vec<Diagnostic> = Vec::new();
    let mut k: usize = 0;
    while k < files.len()
        invariant
            fs == distinct_files(*graph),
            fs == char_views(files@),
            k <= files.len(),
            diag_views(out@) == reexport_diags_upto(*graph, project_root@, fs, k as nat),
        decreases files.len() - k,
    {
        let parent = &files[k];
        assert(parent@ == fs[k as int]);
        if is_parent_module(parent) {
            let ghost before = diag_views(out@);
            let mut m: usize = 0;
            while m < files.len()
                invariant
                    fs == char_views(files@),
                    m <= files.len(),
                    parent@ == fs[k as int],
                    diag_views(out@) == before + sibling_diags_upto(*graph, project_root@, fs, parent@, m as nat),
                decreases files.len() - m,
            {
                let f = &files[m];
                assert(f@ == fs[m as int]);
                if !same_path(f, parent) && same_parent(f, parent) && !is_parent_module(f) {
                    let ghost mid = diag_views(out@);
                    sibling_diags(graph, project_root, parent, f, &mut out);
                    assert(diag_views(out@) =~= before + sibling_diags_upto(*graph, project_root@, fs, parent@, (m + 1) as nat));
                }
                m = m + 1;
            }
            assert(diag_views(out@) =~= reexport_diags_upto(*graph, project_root@, fs, (k + 1) as nat));
        }
        k = k + 1;
    }
    out
}

} // verus!
