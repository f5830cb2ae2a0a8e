//! Isolated cluster detection — connected components with zero external
//! inbound edges.
//!
//! An isolated cluster is a group of two or more symbols that reference
//! each other but receive no reference from outside the group: an
//! unwired feature. Single orphans are `data_dead_end`'s business.

use vstd::prelude::*;

use crate::diagnostic::{
    diag_views, Confidence, Diagnostic, DiagnosticPattern, DiagnosticView, Evidence, EvidenceView,
    Severity,
};
use crate::patterns::exclusion::{is_test_path, test_path};
use crate::graph::{components, connected, members_upto, Graph};
use crate::ir::{has_annotation, Symbol, SymbolId, SymbolKind};
use crate::patterns::common::{char_views, count_files, file_count, loc, push_diag, symbol_location};
use crate::text::{chars_of, dec, has_prefix, join, push_joined, push_str, push_usize, starts_with};

verus! {

broadcast use vstd::seq_lib::group_seq_properties;

/// A symbol of a test or example: in a test file, or named `test_*`.
pub open spec fn test_or_example(s: Symbol) -> bool {
    test_path(s.location.file@) || starts_with(s.name@, "test_"@)
}

/// A member that counts toward a cluster: not test code and not a module.
pub open spec fn kept(g: Graph, id: SymbolId) -> bool {
    !test_or_example(g.sym(id)) && g.sym(id).kind != SymbolKind::Module
}

/// [`kept`] as a predicate.
pub open spec fn kept_pred(g: Graph) -> spec_fn(SymbolId) -> bool {
    |id: SymbolId| kept(g, id)
}

/// The members that count toward the cluster, in order.
pub open spec fn kept_ids(g: Graph, ms: Seq<SymbolId>) -> Seq<SymbolId> {
    ms.filter(kept_pred(g))
}

/// Every member lies in a test file.
pub open spec fn all_in_test_files(g: Graph, ms: Seq<SymbolId>) -> bool {
    forall|k: int| 0 <= k < ms.len() ==> test_path(#[trigger] g.sym(ms[k]).location.file@)
}

/// Some reference enters the group from outside it.
pub open spec fn external_inbound(g: Graph, ms: Seq<SymbolId>) -> bool {
    exists|k: int| 0 <= k < g.refs().len() && ms.contains(#[trigger] g.refs()[k].to) && !ms.contains(g.refs()[k].from)
}

/// Reference `k` runs between two members.
pub open spec fn internal_ref(g: Graph, ms: Seq<SymbolId>, k: int) -> bool {
    ms.contains(g.refs()[k].from) && ms.contains(g.refs()[k].to)
}

/// Number of references among the first `k` that run between members.
pub open spec fn internal_count_upto(g: Graph, ms: Seq<SymbolId>, k: nat) -> nat
    decreases k,
{
    if k == 0 {
        0
    } else {
        internal_count_upto(g, ms, (k - 1) as nat) + if internal_ref(g, ms, k - 1) { 1nat } else { 0nat }
    }
}

/// Number of references between members.
pub open spec fn internal_count(g: Graph, ms: Seq<SymbolId>) -> nat {
    internal_count_upto(g, ms, g.refs().len())
}

/// Every counted member is an import.
pub open spec fn all_imports(g: Graph, ne: Seq<SymbolId>) -> bool {
    forall|k: int| 0 <= k < ne.len() ==> has_annotation(#[trigger] g.sym(ne[k]), "import"@)
}

/// The component `ms` is reported as an isolated cluster.
pub open spec fn cluster_reported(g: Graph, ms: Seq<SymbolId>) -> bool {
    &&& ms.len() >= 2
    &&& kept_ids(g, ms).len() >= 2
    &&& !all_in_test_files(g, ms)
    &&& !external_inbound(g, ms)
    &&& internal_count(g, ms) > 0
    &&& !all_imports(g, kept_ids(g, ms))
}

/// Names of the given symbols, in order.
pub open spec fn names_of(g: Graph, ids: Seq<SymbolId>) -> Seq<Seq<char>> {
    ids.map_values(|id: SymbolId| g.sym(id).name@)
}

/// The diagnostic for cluster `ms`.
pub open spec fn cluster_diag(g: Graph, root: Seq<char>, ms: Seq<SymbolId>) -> DiagnosticView {
    let ne = kept_ids(g, ms);
    let names = join(names_of(g, ne), ", "@);
    let ie = internal_count(g, ms);
    let first = g.sym(ms[0]);
    let location = loc(first.location.file@, root, first.location.line);
    DiagnosticView {
        id: seq![],
        pattern: DiagnosticPattern::IsolatedCluster,
        severity: Severity::Warning,
        confidence: Confidence::High,
        entity: names,
        message: "Isolated cluster of "@ + dec(ne.len()) + " symbols with "@ + dec(ie)
            + " internal references but 0 external callers"@,
        evidence: seq![
            EvidenceView {
                observation: "0 external callers across "@ + dec(file_count(g)) + " analyzed files"@,
                location: Some(location),
                context: None,
            },
            EvidenceView {
                observation: dec(ie) + " internal references between "@ + dec(ne.len()) + " symbols"@,
                location: None,
                context: Some("symbols: "@ + names),
            },
        ],
        suggestion: "Wire this cluster into the rest of the codebase by calling one of its entry points, or remove it if no longer needed."@,
        location,
    }
}

/// Diagnostics for the first `k` components of `comps`.
pub open spec fn clusters_upto(g: Graph, root: Seq<char>, comps: Seq<Seq<SymbolId>>, k: nat) -> Seq<DiagnosticView>
    decreases k,
{
    if k == 0 || k > comps.len() {
        seq![]
    } else if cluster_reported(g, comps[k - 1]) {
        clusters_upto(g, root, comps, (k - 1) as nat).push(cluster_diag(g, root, comps[k - 1]))
    } else {
        clusters_upto(g, root, comps, (k - 1) as nat)
    }
}

/// All isolated clusters, in component order.
pub open spec fn isolated_clusters(g: Graph, root: Seq<char>) -> Seq<DiagnosticView> {
    clusters_upto(g, root, components(g), components(g).len())
}

/// Members of a component name stored symbols.
proof fn lemma_members_valid(g: Graph, l: int, k: nat)
    requires
        k <= g.syms().len(),
    ensures
        forall|q: int| 0 <= q < members_upto(g, l, k).len() ==> #[trigger] g.is_symbol(members_upto(g, l, k)[q]),
    decreases k,
{
    g.lemma_len_bounds();
    if k > 0 {
        lemma_members_valid(g, l, (k - 1) as nat);
        let prev = members_upto(g, l, (k - 1) as nat);
        let cur = members_upto(g, l, k);
        assert forall|q: int| 0 <= q < cur.len() implies #[trigger] g.is_symbol(cur[q]) by {
            if q < prev.len() {
                assert(cur[q] == prev[q]);
                assert(g.is_symbol(prev[q]));
            } else {
                assert(cur[q] == SymbolId(k as usize));
            }
        }
    }
}

/// Every component lists stored symbols.
proof fn lemma_components_valid(g: Graph, k: nat)
    requires
        k <= g.syms().len(),
    ensures
        forall|c: int, q: int| 0 <= c < crate::graph::components_upto(g, k).len() && 0 <= q < crate::graph::components_upto(g, k)[c].len()
            ==> #[trigger] g.is_symbol(crate::graph::components_upto(g, k)[c][q]),
    decreases k,
{
    if k > 0 {
        lemma_components_valid(g, (k - 1) as nat);
        lemma_members_valid(g, k - 1, g.syms().len());
        let prev = crate::graph::components_upto(g, (k - 1) as nat);
        let cur = crate::graph::components_upto(g, k);
        assert forall|c: int, q: int| 0 <= c < cur.len() && 0 <= q < cur[c].len() implies #[trigger] g.is_symbol(cur[c][q]) by {
            if c < prev.len() {
                assert(cur[c] == prev[c]);
                assert(g.is_symbol(prev[c][q]));
            } else {
                assert(cur[c] == members_upto(g, k - 1, g.syms().len()));
                assert(g.is_symbol(members_upto(g, k - 1, g.syms().len())[q]));
            }
        }
    }
}

fn has_id(ms: &Vec<SymbolId>, id: SymbolId) -> (r: bool)
    ensures
        r == ms@.contains(id),
{
    let mut i: usize = 0;
    while i < ms.len()
        invariant
            i <= ms@.len(),
            forall|j: int| 0 <= j < i ==> ms@[j] != id,
        decreases ms@.len() - i,
    {
        if ms[i].0 == id.0 {
            assert(ms@[i as int] == id);
            return true;
        }
        i = i + 1;
    }
    false
}

fn symbol_of<'a>(graph: &'a Graph, id: SymbolId) -> (s: &'a Symbol)
    requires
        graph.is_symbol(id),
    ensures
        *s == graph.sym(id),
{
    graph.symbol_at(id.0 - 1)
}

fn is_test_or_example(s: &Symbol) -> (r: bool)
    ensures
        r == test_or_example(*s),
{
    is_test_path(s.location.file.as_str()) || has_prefix(&chars_of(s.name.as_str()), &chars_of("test_"))
}

fn build(graph: &Graph, project_root: &str, ms: &Vec<SymbolId>, ne: &Vec<SymbolId>, ie: usize, files: usize) -> (d: Diagnostic)
    requires
        ms@.len() >= 1,
        forall|q: int| 0 <= q < ms@.len() ==> #[trigger] graph.is_symbol(ms@[q]),
        forall|q: int| 0 <= q < ne@.len() ==> #[trigger] graph.is_symbol(ne@[q]),
        ne@ == kept_ids(*graph, ms@),
        ie == internal_count(*graph, ms@),
        files == file_count(*graph),
    ensures
        d@ == cluster_diag(*graph, project_root@, ms@),
{
    let mut names: Vec<Vec<char>> = Vec::new();
    let mut i: usize = 0;
    while i < ne.len()
        invariant
            i <= ne@.len(),
            forall|q: int| 0 <= q < ne@.len() ==> #[trigger] graph.is_symbol(ne@[q]),
            names@.map_values(|p: Vec<char>| p@) == names_of(*graph, ne@.take(i as int)),
        decreases ne@.len() - i,
    {
        let ghost before = names@.map_values(|p: Vec<char>| p@);
        let nm = chars_of(symbol_of(graph, ne[i]).name.as_str());
        names.push(nm);
        assert(names_of(*graph, ne@.take(i + 1)) =~= names_of(*graph, ne@.take(i as int)).push(nm@));
        assert(ne@.take(i + 1) =~= ne@.take(i as int).push(ne@[i as int]));
        assert(names@.map_values(|p: Vec<char>| p@) =~= names_of(*graph, ne@.take(i + 1)));
        i = i + 1;
    }
    assert(ne@.take(ne@.len() as int) =~= ne@);
    let location = symbol_location(symbol_of(graph, ms[0]), project_root);
    let mut entity = String::new();
    push_joined(&mut entity, &names, ", ");
    let mut message = String::new();
    push_str(&mut message, "Isolated cluster of ");
    push_usize(&mut message, ne.len());
    push_str(&mut message, " symbols with ");
    push_usize(&mut message, ie);
    push_str(&mut message, " internal references but 0 external callers");
    let mut obs1 = String::new();
    push_str(&mut obs1, "0 external callers across ");
    push_usize(&mut obs1, files);
    push_str(&mut obs1, " analyzed files");
    let mut obs2 = String::new();
    push_usize(&mut obs2, ie);
    push_str(&mut obs2, " internal references between ");
    push_usize(&mut obs2, ne.len());
    push_str(&mut obs2, " symbols");
    let mut context = String::new();
    push_str(&mut context, "symbols: ");
    push_joined(&mut context, &names, ", ");
    let mut suggestion = String::new();
    push_str(&mut suggestion, "Wire this cluster into the rest of the codebase by calling one of its entry points, or remove it if no longer needed.");
    let e1 = Evidence { observation: obs1, location: Some(location.clone()), context: None };
    let e2 = Evidence { observation: obs2, location: None, context: Some(context) };
    let d = Diagnostic {
        id: String::new(),
        pattern: DiagnosticPattern::IsolatedCluster,
        severity: Severity::Warning,
        confidence: Confidence::High,
        entity,
        message,
        evidence: vec![e1, e2],
        suggestion,
        location,
    };
    let ghost want = cluster_diag(*graph, project_root@, ms@);
    assert(d@.evidence =~= seq![e1@, e2@]);
    assert(d@.entity =~= want.entity);
    assert(d@.message =~= want.message);
    assert(d@.suggestion =~= want.suggestion);
    assert(e1@.observation =~= want.evidence[0].observation);
    assert(e2@.observation =~= want.evidence[1].observation);
    assert(e2@.context =~= want.evidence[1].context);
    d
}

fn check_component(graph: &Graph, project_root: &str, ms: &Vec<SymbolId>, files: usize, out: &mut Vec<Diagnostic>)
    requires
        forall|q: int| 0 <= q < ms@.len() ==> #[trigger] graph.is_symbol(ms@[q]),
        files == file_count(*graph),
    ensures
        diag_views(final(out)@) == diag_views(old(out)@) + if cluster_reported(*graph, ms@) {
            seq![cluster_diag(*graph, project_root@, ms@)]
        } else {
            Seq::<DiagnosticView>::empty()
        },
{
    let ghost base = diag_views(out@);
    if ms.len() < 2 {
        assert(base + Seq::<DiagnosticView>::empty() =~= base);
        return;
    }
    let mut ne: Vec<SymbolId> = Vec::new();
    let mut i: usize = 0;
    while i < ms.len()
        invariant
            i <= ms@.len(),
            forall|q: int| 0 <= q < ms@.len() ==> #[trigger] graph.is_symbol(ms@[q]),
            ne@ == kept_ids(*graph, ms@.take(i as int)),
        decreases ms@.len() - i,
    {
        let id = ms[i];
        let s = symbol_of(graph, id);
        assert(ms@.take(i + 1) =~= ms@.take(i as int).push(id));
        proof {
            ms@.take(i as int).lemma_filter_push(id, kept_pred(*graph));
        }
        if !is_test_or_example(s) && s.kind != SymbolKind::Module {
            ne.push(id);
        }
        i = i + 1;
    }
    assert(ms@.take(ms@.len() as int) =~= ms@);
    proof {
        assert forall|q: int| 0 <= q < ne@.len() implies #[trigger] graph.is_symbol(ne@[q]) by {
            assert(ne@.contains(ne@[q]));
            ms@.lemma_filter_contains_rev(kept_pred(*graph), ne@[q]);
        }
    }
    if ne.len() < 2 {
        assert(base + Seq::<DiagnosticView>::empty() =~= base);
        return;
    }
    let mut all_test = true;
    let mut i: usize = 0;
    while i < ms.len()
        invariant
            i <= ms@.len(),
            forall|q: int| 0 <= q < ms@.len() ==> #[trigger] graph.is_symbol(ms@[q]),
            all_test == forall|q: int| 0 <= q < i ==> test_path(#[trigger] graph.sym(ms@[q]).location.file@),
        decreases ms@.len() - i,
    {
        if !is_test_path(symbol_of(graph, ms[i]).location.file.as_str()) {
            all_test = false;
        }
        i = i + 1;
    }
    if all_test {
        assert(base + Seq::<DiagnosticView>::empty() =~= base);
        return;
    }
    let mut inbound = false;
    let mut count: usize = 0;
    let nrefs = graph.reference_count();
    let mut k: usize = 0;
    while k < nrefs
        invariant
            nrefs == graph.refs().len(),
            k <= nrefs,
            count == internal_count_upto(*graph, ms@, k as nat),
            count <= k,
            inbound == exists|q: int| 0 <= q < k && ms@.contains(#[trigger] graph.refs()[q].to) && !ms@.contains(graph.refs()[q].from),
        decreases nrefs - k,
    {
        let r = graph.reference_at(k);
        let has_from = has_id(ms, r.from);
        let has_to = has_id(ms, r.to);
        if has_to && !has_from {
            inbound = true;
        }
        if has_from && has_to {
            count = count + 1;
        }
        k = k + 1;
    }
    if inbound || count == 0 {
        assert(base + Seq::<DiagnosticView>::empty() =~= base);
        return;
    }
    let mut all_imp = true;
    let mut i: usize = 0;
    while i < ne.len()
        invariant
            i <= ne@.len(),
            forall|q: int| 0 <= q < ne@.len() ==> #[trigger] graph.is_symbol(ne@[q]),
            all_imp == forall|q: int| 0 <= q < i ==> has_annotation(#[trigger] graph.sym(ne@[q]), "import"@),
        decreases ne@.len() - i,
    {
        if !symbol_of(graph, ne[i]).has_annotation("import") {
            all_imp = false;
        }
        i = i + 1;
    }
    if all_imp {
        assert(base + Seq::<DiagnosticView>::empty() =~= base);
        return;
    }
    push_diag(out, build(graph, project_root, ms, &ne, count, files));
}

/// Detect isolated clusters: connected components (references taken as
/// undirected edges) of two or more non-test, non-module symbols, not all
/// in test files, with internal references and no reference from outside,
/// and not made only of imports. Severity: Warning. Confidence: High.
///
/// Locations in the findings are made relative to `project_root`, as the
/// other detectors that take a root make theirs.
pub fn detect(graph: &Graph, project_root: &str) -> (r: Vec<Diagnostic>)
    ensures
        diag_views(r@) == isolated_clusters(*graph, project_root@),
{
    let comps = graph.connected_components();
    let ghost cs = components(*graph);
    proof {
        lemma_components_valid(*graph, graph.syms().len());
    }
    let files = count_files(graph);
    let mut out: Vec<Diagnostic> = Vec::new();
    let mut c: usize = 0;
    while c < comps.len()
        invariant
            comps@.map_values(|v: Vec<SymbolId>| v@) == cs,
            cs == components(*graph),
            forall|a: int, q: int| 0 <= a < cs.len() && 0 <= q < cs[a].len() ==> #[trigger] graph.is_symbol(cs[a][q]),
            files == file_count(*graph),
            c <= comps@.len(),
            diag_views(out@) == clusters_upto(*graph, project_root@, cs, c as nat),
        decreases comps@.len() - c,
    {
        let ms = &comps[c];
        assert(ms@ == cs[c as int]);
        check_component(graph, project_root, ms, files, &mut out);
        proof {
            if cluster_reported(*graph, ms@) {
                assert(diag_views(out@) =~= clusters_upto(*graph, project_root@, cs, (c + 1) as nat));
            } else {
                assert(diag_views(out@) =~= clusters_upto(*graph, project_root@, cs, (c + 1) as nat));
            }
        }
        c = c + 1;
    }
    out
}

} // verus!
