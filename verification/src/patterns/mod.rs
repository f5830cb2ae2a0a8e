//! Pattern detectors — one module per diagnostic pattern — and the
//! registry that runs them, filters their findings and numbers them.

pub mod circular_dependency;
pub mod asymmetric_handling;
pub mod common;
pub mod contract_mismatch;
pub mod data_dead_end;
pub mod duplication;
pub mod exclusion;
pub mod incomplete_migration;
pub mod isolated_cluster;
pub mod layer_violation;
pub mod missing_reexport;
pub mod orphaned_implementation;
pub mod partial_wiring;
pub mod phantom_dependency;
pub mod stale_reference;

use vstd::prelude::*;

use crate::diagnostic::{
    confidence_rank, diag_views, severity_rank, Confidence, Diagnostic, DiagnosticPattern,
    DiagnosticView, Severity,
};
use crate::graph::Graph;
use crate::patterns::common::append_diags;
use crate::text::{dec, push_str, push_usize};

verus! {

/// Filter criteria for pattern detection.
///
/// All criteria are AND'd: a diagnostic must match every active filter.
/// `None` means no filter on that field.
#[derive(Debug, Clone)]
pub struct PatternFilter {
    /// Only include these patterns. `None` = all.
    pub patterns: Option<Vec<DiagnosticPattern>>,
    /// Minimum severity to include. `None` = all.
    pub min_severity: Option<Severity>,
    /// Minimum confidence to include. `None` = all.
    pub min_confidence: Option<Confidence>,
}

impl Default for PatternFilter {
    fn default() -> (r: Self)
        ensures
            r.patterns is None,
            r.min_severity is None,
            r.min_confidence is None,
    {
        PatternFilter { patterns: None, min_severity: None, min_confidence: None }
    }
}

/// `d` passes every active criterion of `f`.
pub open spec fn passes(f: PatternFilter, d: DiagnosticView) -> bool {
    &&& match f.patterns {
        Some(ps) => ps@.contains(d.pattern),
        None => true,
    }
    &&& match f.min_severity {
        Some(s) => severity_rank(d.severity) >= severity_rank(s),
        None => true,
    }
    &&& match f.min_confidence {
        Some(c) => confidence_rank(d.confidence) >= confidence_rank(c),
        None => true,
    }
}

/// The diagnostics among the first `k` of `ds` that pass `f`, in order.
pub open spec fn kept_upto(f: PatternFilter, ds: Seq<DiagnosticView>, k: nat) -> Seq<DiagnosticView>
    decreases k,
{
    if k == 0 || k > ds.len() {
        seq![]
    } else if passes(f, ds[k - 1]) {
        kept_upto(f, ds, (k - 1) as nat).push(ds[k - 1])
    } else {
        kept_upto(f, ds, (k - 1) as nat)
    }
}

/// The registry's id for the `n`-th finding: `D` and `n` in at least three
/// digits (`D001`, `D042`, `D1234`).
pub open spec fn diag_id(n: nat) -> Seq<char> {
    let digits = dec(n);
    "D"@ + if digits.len() == 1 {
        "00"@ + digits
    } else if digits.len() == 2 {
        "0"@ + digits
    } else {
        digits
    }
}

/// `d` with the id of the `n`-th finding.
pub open spec fn numbered(d: DiagnosticView, n: nat) -> DiagnosticView {
    DiagnosticView { id: diag_id(n), ..d }
}

/// `ds` numbered in order: the `i`-th gets id `diag_id(i + 1)`.
pub open spec fn with_ids(ds: Seq<DiagnosticView>) -> Seq<DiagnosticView> {
    Seq::new(ds.len(), |i: int| numbered(ds[i], (i + 1) as nat))
}

/// What the registry returns for the findings `ds`: those passing the
/// filter, numbered from `D001`.
pub open spec fn finalize(f: PatternFilter, ds: Seq<DiagnosticView>) -> Seq<DiagnosticView> {
    with_ids(kept_upto(f, ds, ds.len()))
}

/// The findings of every registered detector, in registry order.
pub open spec fn all_findings(g: Graph, root: Seq<char>) -> Seq<DiagnosticView> {
    isolated_cluster::isolated_clusters(g, root)
        + data_dead_end::dead_ends_upto(g, root, g.syms().len())
        + phantom_dependency::phantoms_upto(g, root, g.syms().len())
        + circular_dependency::circular_findings(g)
        + orphaned_implementation::orphans_upto(g, root, g.syms().len())
        + missing_reexport::missing_reexports(g, root)
        + layer_violation::violations_upto(g, root, g.syms().len())
        + stale_reference::stale_upto(g, root, g.syms().len())
        + contract_mismatch::contract_mismatches(g, root)
        + incomplete_migration::incomplete_migrations(g, root)
        + partial_wiring::partial_wirings(g, root)
}

/// What the registry returns for `g`: the findings of every registered
/// detector that pass the filter, numbered from `D001`.
pub open spec fn registry_result(g: Graph, f: PatternFilter, root: Seq<char>) -> Seq<DiagnosticView> {
    finalize(f, all_findings(g, root))
}

/// The filter that keeps everything.
pub open spec fn no_filter() -> PatternFilter {
    PatternFilter { patterns: None, min_severity: None, min_confidence: None }
}

/// The registry id for the `n`-th finding.
pub fn make_id(n: usize) -> (r: String)
    ensures
        r@ == diag_id(n as nat),
{
    let mut digits = String::new();
    push_usize(&mut digits, n);
    let mut s = String::new();
    push_str(&mut s, "D");
    let k = digits.as_str().unicode_len();
    if k == 1 {
        push_str(&mut s, "00");
    } else if k == 2 {
        push_str(&mut s, "0");
    }
    push_str(&mut s, digits.as_str());
    proof {
        reveal_strlit("D");
        reveal_strlit("00");
        reveal_strlit("0");
    }
    assert(s@ =~= diag_id(n as nat));
    s
}

fn passes_exec(filter: &PatternFilter, d: &Diagnostic) -> (r: bool)
    ensures
        r == passes(*filter, d@),
{
    match &filter.patterns {
        Some(ps) => {
            let mut found = false;
            let mut i: usize = 0;
            while i < ps.len()
                invariant
                    i <= ps@.len(),
                    found == exists|j: int| 0 <= j < i && ps@[j] == d.pattern,
                decreases ps@.len() - i,
            {
                if ps[i] == d.pattern {
                    found = true;
                }
                i = i + 1;
            }
            if !found {
                return false;
            }
        },
        None => {},
    }
    match filter.min_severity {
        Some(s) => {
            if d.severity.rank() < s.rank() {
                return false;
            }
        },
        None => {},
    }
    match filter.min_confidence {
        Some(c) => {
            if d.confidence.rank() < c.rank() {
                return false;
            }
        },
        None => {},
    }
    true
}

/// Run all implemented pattern detectors and return diagnostics with
/// sequential IDs. `project_root` relativizes diagnostic locations.
pub fn run_all_patterns(graph: &Graph, project_root: &str) -> (r: Vec<Diagnostic>)
    ensures
        diag_views(r@) == registry_result(*graph, no_filter(), project_root@),
{
    let f = PatternFilter::default();
    let r = run_patterns(graph, &f, project_root);
    assert(f == no_filter());
    r
}

fn gather(graph: &Graph, project_root: &str) -> (r: Vec<Diagnostic>)
    ensures
        diag_views(r@) == all_findings(*graph, project_root@),
{
    let mut all: Vec<Diagnostic> = Vec::new();
    append_diags(&mut all, isolated_cluster::detect(graph, project_root));
    append_diags(&mut all, data_dead_end::detect(graph, project_root));
    append_diags(&mut all, phantom_dependency::detect(graph, project_root));
    append_diags(&mut all, circular_dependency::detect(graph, project_root));
    append_diags(&mut all, orphaned_implementation::detect(graph, project_root));
    append_diags(&mut all, missing_reexport::detect(graph, project_root));
    append_diags(&mut all, layer_violation::detect(graph, project_root));
    append_diags(&mut all, stale_reference::detect(graph, project_root));
    append_diags(&mut all, contract_mismatch::detect(graph, project_root));
    append_diags(&mut all, incomplete_migration::detect(graph, project_root));
    append_diags(&mut all, partial_wiring::detect(graph, project_root));
    assert(diag_views(all@) =~= all_findings(*graph, project_root@));
    all
}

fn filter_and_number(filter: &PatternFilter, all: Vec<Diagnostic>) -> (r: Vec<Diagnostic>)
    ensures
        diag_views(r@) == finalize(*filter, diag_views(all@)),
{
    let ghost found = diag_views(all@);
    let mut all = all;
    let mut kept: Vec<Diagnostic> = Vec::new();
    let mut k: usize = 0;
    let total = all.len();
    while all.len() > 0
        invariant
            total == found.len(),
            k + all@.len() == total,
            diag_views(all@) == found.skip(k as int),
            diag_views(kept@) == kept_upto(*filter, found, k as nat),
        decreases all@.len(),
    {
        let ghost before = all@;
        let d = all.remove(0);
        assert(diag_views(before)[0] == before[0]@);
        assert(found.skip(k as int)[0] == found[k as int]);
        assert(d@ == found[k as int]);
        assert(diag_views(all@) =~= found.skip(k + 1)) by {
            assert(all@ =~= before.subrange(1, before.len() as int));
            assert forall|j: int| 0 <= j < all@.len() implies diag_views(all@)[j] == found.skip(k + 1)[j] by {
                assert(all@[j] == before[j + 1]);
                assert(diag_views(before)[j + 1] == before[j + 1]@);
            }
        }
        if passes_exec(filter, &d) {
            let ghost kb = diag_views(kept@);
            kept.push(d);
            assert(diag_views(kept@) =~= kb.push(found[k as int]));
        }
        k = k + 1;
    }
    assert(found.skip(total as int).len() == 0);
    let ghost kv = diag_views(kept@);
    let mut out: Vec<Diagnostic> = Vec::new();
    let mut i: usize = 0;
    let nk = kept.len();
    while kept.len() > 0
        invariant
            nk == kv.len(),
            i + kept@.len() == nk,
            diag_views(kept@) == kv.skip(i as int),
            diag_views(out@) == with_ids(kv.take(i as int)),
        decreases kept@.len(),
    {
        let ghost before = kept@;
        let mut d = kept.remove(0);
        assert(diag_views(before)[0] == before[0]@);
        assert(kv.skip(i as int)[0] == kv[i as int]);
        assert(d@ == kv[i as int]);
        assert(diag_views(kept@) =~= kv.skip(i + 1)) by {
            assert(kept@ =~= before.subrange(1, before.len() as int));
            assert forall|j: int| 0 <= j < kept@.len() implies diag_views(kept@)[j] == kv.skip(i + 1)[j] by {
                assert(kept@[j] == before[j + 1]);
                assert(diag_views(before)[j + 1] == before[j + 1]@);
            }
        }
        d.id = make_id(i + 1);
        assert(d@ == DiagnosticView { id: diag_id((i + 1) as nat), ..kv[i as int] });
        let ghost ob = diag_views(out@);
        out.push(d);
        assert(diag_views(out@) =~= ob.push(d@));
        assert(with_ids(kv.take(i + 1)) =~= with_ids(kv.take(i as int)).push(DiagnosticView { id: diag_id((i + 1) as nat), ..kv[i as int] }));
        assert(diag_views(out@) =~= with_ids(kv.take(i + 1)));
        i = i + 1;
    }
    assert(kv.take(nk as int) =~= kv);
    out
}

/// Run pattern detectors with filtering: findings of every detector in
/// registry order, those failing the filter dropped, the rest numbered
/// `D001`, `D002`, ... without gaps.
pub fn run_patterns(graph: &Graph, filter: &PatternFilter, project_root: &str) -> (r: Vec<Diagnostic>)
    ensures
        diag_views(r@) == registry_result(*graph, *filter, project_root@),
{
    let all = gather(graph, project_root);
    filter_and_number(filter, all)
}

proof fn lemma_kept_upto(f: PatternFilter, ds: Seq<DiagnosticView>, k: nat)
    requires
        k <= ds.len(),
    ensures
        kept_upto(f, ds, k).len() <= k,
        forall|i: int| 0 <= i < kept_upto(f, ds, k).len() ==> passes(f, #[trigger] kept_upto(f, ds, k)[i]),
        forall|i: int| 0 <= i < kept_upto(f, ds, k).len()
            ==> exists|j: int| 0 <= j < k && #[trigger] kept_upto(f, ds, k)[i] == ds[j],
        forall|j: int| 0 <= j < k && passes(f, #[trigger] ds[j]) ==> kept_upto(f, ds, k).contains(ds[j]),
    decreases k,
{
    if k > 0 {
        lemma_kept_upto(f, ds, (k - 1) as nat);
        let prev = kept_upto(f, ds, (k - 1) as nat);
        let cur = kept_upto(f, ds, k);
        assert forall|i: int| 0 <= i < cur.len() implies exists|j: int| 0 <= j < k && #[trigger] cur[i] == ds[j] by {
            if i < prev.len() {
                assert(cur[i] == prev[i]);
                let j = choose|j: int| 0 <= j < k - 1 && #[trigger] prev[i] == ds[j];
                assert(cur[i] == ds[j]);
            } else {
                assert(cur[i] == ds[k - 1]);
            }
        }
        assert forall|i: int| 0 <= i < cur.len() implies passes(f, #[trigger] cur[i]) by {
            if i < prev.len() {
                assert(cur[i] == prev[i]);
            }
        }
        assert forall|j: int| 0 <= j < k && passes(f, #[trigger] ds[j]) implies cur.contains(ds[j]) by {
            if j < k - 1 {
                assert(prev.contains(ds[j]));
                let q = choose|q: int| 0 <= q < prev.len() && prev[q] == ds[j];
                assert(cur[q] == ds[j]);
            } else {
                assert(cur[cur.len() - 1] == ds[j]);
            }
        }
    }
}

/// The registry numbers its findings `D001`, `D002`, ... in order, with
/// no gaps, whatever the filter.
pub proof fn law_sequential_ids(g: Graph, f: PatternFilter, root: Seq<char>)
    ensures
        forall|i: int| 0 <= i < registry_result(g, f, root).len()
            ==> (#[trigger] registry_result(g, f, root)[i]).id == diag_id((i + 1) as nat),
{
}

/// Every finding that the registry returns meets every active criterion
/// of the filter.
pub proof fn law_results_pass_filter(g: Graph, f: PatternFilter, root: Seq<char>)
    ensures
        forall|i: int| 0 <= i < registry_result(g, f, root).len() ==> passes(f, #[trigger] registry_result(g, f, root)[i]),
{
    let ds = all_findings(g, root);
    lemma_kept_upto(f, ds, ds.len());
    let kept = kept_upto(f, ds, ds.len());
    assert forall|i: int| 0 <= i < registry_result(g, f, root).len() implies passes(f, #[trigger] registry_result(g, f, root)[i]) by {
        assert(passes(f, kept[i]));
        assert(registry_result(g, f, root)[i] == numbered(kept[i], (i + 1) as nat));
    }
}

/// Filtering only drops findings: every finding returned under a filter
/// is, but for its id, a finding returned without one, and every finding
/// returned without a filter that meets the filter is returned under it.
pub proof fn law_filter_only_drops(g: Graph, f: PatternFilter, root: Seq<char>)
    ensures
        registry_result(g, f, root).len() <= registry_result(g, no_filter(), root).len(),
        forall|i: int| 0 <= i < registry_result(g, f, root).len() ==> exists|j: int|
            0 <= j < registry_result(g, no_filter(), root).len()
            && #[trigger] registry_result(g, f, root)[i] == numbered(registry_result(g, no_filter(), root)[j], (i + 1) as nat),
        forall|j: int| 0 <= j < registry_result(g, no_filter(), root).len() && passes(f, #[trigger] registry_result(g, no_filter(), root)[j])
            ==> exists|i: int| 0 <= i < registry_result(g, f, root).len()
            && registry_result(g, f, root)[i] == numbered(registry_result(g, no_filter(), root)[j], (i + 1) as nat),
{
    let ds = all_findings(g, root);
    let rf = registry_result(g, f, root);
    let rn = registry_result(g, no_filter(), root);
    lemma_kept_upto(f, ds, ds.len());
    lemma_kept_upto(no_filter(), ds, ds.len());
    let kf = kept_upto(f, ds, ds.len());
    let kn = kept_upto(no_filter(), ds, ds.len());
    assert(kn =~= ds) by {
        lemma_keep_all(ds, ds.len());
    }
    assert forall|i: int| 0 <= i < rf.len() implies exists|j: int| 0 <= j < rn.len()
        && #[trigger] rf[i] == numbered(rn[j], (i + 1) as nat) by {
        let j = choose|j: int| 0 <= j < ds.len() && #[trigger] kf[i] == ds[j];
        assert(rn[j] == numbered(ds[j], (j + 1) as nat));
        assert(rf[i] == numbered(kf[i], (i + 1) as nat));
        assert(rf[i] == numbered(rn[j], (i + 1) as nat));
    }
    assert forall|j: int| 0 <= j < rn.len() && passes(f, #[trigger] rn[j]) implies exists|i: int| 0 <= i < rf.len()
        && rf[i] == numbered(rn[j], (i + 1) as nat) by {
        assert(rn[j] == numbered(ds[j], (j + 1) as nat));
        assert(passes(f, ds[j]));
        assert(kf.contains(ds[j]));
        let i = choose|i: int| 0 <= i < kf.len() && kf[i] == ds[j];
        assert(rf[i] == numbered(kf[i], (i + 1) as nat));
    }
}

proof fn lemma_kept_fewer(f: PatternFilter, h: PatternFilter, ds: Seq<DiagnosticView>, k: nat)
    requires
        k <= ds.len(),
        forall|d: DiagnosticView| #[trigger] passes(h, d) ==> passes(f, d),
    ensures
        kept_upto(h, ds, k).len() <= kept_upto(f, ds, k).len(),
    decreases k,
{
    if k > 0 {
        lemma_kept_fewer(f, h, ds, (k - 1) as nat);
    }
}

proof fn lemma_finalize_stricter(f: PatternFilter, h: PatternFilter, ds: Seq<DiagnosticView>)
    requires
        forall|d: DiagnosticView| #[trigger] passes(h, d) ==> passes(f, d),
    ensures
        finalize(h, ds).len() <= finalize(f, ds).len(),
        forall|i: int| 0 <= i < finalize(h, ds).len() ==> exists|j: int|
            0 <= j < finalize(f, ds).len()
            && #[trigger] finalize(h, ds)[i] == numbered(finalize(f, ds)[j], (i + 1) as nat),
{
    let rf = finalize(f, ds);
    let rh = finalize(h, ds);
    lemma_kept_upto(f, ds, ds.len());
    lemma_kept_upto(h, ds, ds.len());
    lemma_kept_fewer(f, h, ds, ds.len());
    let kf = kept_upto(f, ds, ds.len());
    let kh = kept_upto(h, ds, ds.len());
    assert forall|i: int| 0 <= i < rh.len() implies exists|j: int| 0 <= j < rf.len()
        && #[trigger] rh[i] == numbered(rf[j], (i + 1) as nat) by {
        let j = choose|j: int| 0 <= j < ds.len() && #[trigger] kh[i] == ds[j];
        assert(passes(h, kh[i]));
        assert(passes(f, ds[j]));
        assert(kf.contains(ds[j]));
        let q = choose|q: int| 0 <= q < kf.len() && kf[q] == ds[j];
        assert(rf[q] == numbered(kf[q], (q + 1) as nat));
        assert(rh[i] == numbered(kh[i], (i + 1) as nat));
        assert(rh[i] == numbered(rf[q], (i + 1) as nat));
    }
}

/// `d` is, but for its id `diag_id(n)`, one of the findings of `r`.
pub open spec fn renumbered_from(r: Seq<DiagnosticView>, d: DiagnosticView, n: nat) -> bool {
    exists|j: int| 0 <= j < r.len() && d == numbered(#[trigger] r[j], n)
}

/// A stricter filter returns fewer findings: when every finding that meets
/// filter `h` also meets filter `f`, the registry returns no more findings
/// under `h` than under `f`, and each finding it returns under `h` is, but
/// for its id, one that it returns under `f`.
pub proof fn law_stricter_filter_returns_less(g: Graph, f: PatternFilter, h: PatternFilter, root: Seq<char>)
    requires
        forall|d: DiagnosticView| #[trigger] passes(h, d) ==> passes(f, d),
    ensures
        registry_result(g, h, root).len() <= registry_result(g, f, root).len(),
        forall|i: int| 0 <= i < registry_result(g, h, root).len() ==> renumbered_from(
            registry_result(g, f, root), #[trigger] registry_result(g, h, root)[i], (i + 1) as nat),
{
    let ds = all_findings(g, root);
    lemma_finalize_stricter(f, h, ds);
    let rf = registry_result(g, f, root);
    let rh = registry_result(g, h, root);
    assert(rf == finalize(f, ds));
    assert(rh == finalize(h, ds));
    assert forall|i: int| 0 <= i < rh.len() implies renumbered_from(rf, #[trigger] rh[i], (i + 1) as nat) by {
        assert(finalize(h, ds)[i] == rh[i]);
        let j = choose|j: int| 0 <= j < finalize(f, ds).len()
            && #[trigger] finalize(h, ds)[i] == numbered(finalize(f, ds)[j], (i + 1) as nat);
        assert(rf[j] == finalize(f, ds)[j]);
    }
}

proof fn lemma_min_severity_stricter(low: PatternFilter, high: PatternFilter)
    requires
        low.patterns == high.patterns,
        low.min_confidence == high.min_confidence,
        low.min_severity matches Some(l) && high.min_severity matches Some(h)
            && severity_rank(l) <= severity_rank(h),
    ensures
        forall|d: DiagnosticView| #[trigger] passes(high, d) ==> passes(low, d),
{
}

/// Raising the minimum severity never adds findings: for two filters that
/// differ only in their minimum severity, the findings returned at the
/// higher minimum are no more than, and but for their ids among, those
/// returned at the lower one.
pub proof fn law_min_severity_monotone(g: Graph, low: PatternFilter, high: PatternFilter, root: Seq<char>)
    requires
        low.patterns == high.patterns,
        low.min_confidence == high.min_confidence,
        low.min_severity matches Some(l) && high.min_severity matches Some(h)
            && severity_rank(l) <= severity_rank(h),
    ensures
        registry_result(g, high, root).len() <= registry_result(g, low, root).len(),
        forall|i: int| 0 <= i < registry_result(g, high, root).len() ==> renumbered_from(
            registry_result(g, low, root), #[trigger] registry_result(g, high, root)[i], (i + 1) as nat),
{
    lemma_min_severity_stricter(low, high);
    law_stricter_filter_returns_less(g, low, high, root);
}

/// The filter that keeps the findings of severity `s` or higher.
pub open spec fn severity_only(s: Severity) -> PatternFilter {
    PatternFilter { patterns: None, min_severity: Some(s), min_confidence: None }
}

/// `x` and `y` hold the same findings in the same order, ids aside.
pub open spec fn same_but_ids(x: Seq<DiagnosticView>, y: Seq<DiagnosticView>) -> bool {
    &&& x.len() == y.len()
    &&& forall|i: int| 0 <= i < x.len() ==> numbered(#[trigger] x[i], 0) == numbered(y[i], 0)
}

proof fn lemma_kept_ignores_ids(f: PatternFilter, ks: Seq<DiagnosticView>, k: nat)
    requires
        k <= ks.len(),
    ensures
        same_but_ids(kept_upto(f, with_ids(ks), k), kept_upto(f, ks, k)),
    decreases k,
{
    if k > 0 {
        lemma_kept_ignores_ids(f, ks, (k - 1) as nat);
        let w = with_ids(ks);
        assert(w[k - 1] == numbered(ks[k - 1], k as nat));
        assert(passes(f, w[k - 1]) == passes(f, ks[k - 1]));
        let a = kept_upto(f, w, k);
        let b = kept_upto(f, ks, k);
        let pa = kept_upto(f, w, (k - 1) as nat);
        let pb = kept_upto(f, ks, (k - 1) as nat);
        assert forall|i: int| 0 <= i < a.len() implies numbered(#[trigger] a[i], 0) == numbered(b[i], 0) by {
            if i < pa.len() {
                assert(a[i] == pa[i] && b[i] == pb[i]);
            }
        }
    }
}

proof fn lemma_with_ids_same(x: Seq<DiagnosticView>, y: Seq<DiagnosticView>)
    requires
        same_but_ids(x, y),
    ensures
        with_ids(x) == with_ids(y),
{
    assert forall|i: int| 0 <= i < x.len() implies #[trigger] with_ids(x)[i] == with_ids(y)[i] by {
        assert(numbered(x[i], 0) == numbered(y[i], 0));
    }
    assert(with_ids(x) =~= with_ids(y));
}

proof fn lemma_kept_prefix(f: PatternFilter, x: Seq<DiagnosticView>, y: Seq<DiagnosticView>, k: nat)
    requires
        k <= x.len(),
        k <= y.len(),
        x.take(k as int) == y.take(k as int),
    ensures
        kept_upto(f, x, k) == kept_upto(f, y, k),
    decreases k,
{
    if k > 0 {
        assert(x[k - 1] == x.take(k as int)[k - 1]);
        assert(y[k - 1] == y.take(k as int)[k - 1]);
        assert(x.take(k - 1) =~= x.take(k as int).take(k - 1));
        assert(y.take(k - 1) =~= y.take(k as int).take(k - 1));
        lemma_kept_prefix(f, x, y, (k - 1) as nat);
    }
}

proof fn lemma_kept_twice(low: PatternFilter, high: PatternFilter, h: Severity, ds: Seq<DiagnosticView>, k: nat)
    requires
        k <= ds.len(),
        forall|d: DiagnosticView| #[trigger] passes(high, d) == (passes(low, d) && passes(severity_only(h), d)),
    ensures
        ({
            let kl = kept_upto(low, ds, k);
            kept_upto(severity_only(h), kl, kl.len()) == kept_upto(high, ds, k)
        }),
    decreases k,
{
    if k > 0 {
        lemma_kept_twice(low, high, h, ds, (k - 1) as nat);
        lemma_kept_upto(low, ds, (k - 1) as nat);
        let prev = kept_upto(low, ds, (k - 1) as nat);
        let cur = kept_upto(low, ds, k);
        let x = ds[k - 1];
        if passes(low, x) {
            assert(cur == prev.push(x));
            assert(cur.take(prev.len() as int) =~= prev.take(prev.len() as int));
            lemma_kept_prefix(severity_only(h), cur, prev, prev.len());
            assert(cur[prev.len() as int] == x);
        }
    }
}

/// Raising the minimum severity filters the findings by severity: for two
/// filters alike but for their minimum severity, the lower one unset or
/// lower, the findings returned at the higher minimum `h` are exactly
/// those returned at the lower one that have severity `h` or more, in the
/// same order, numbered anew from `D001`.
pub proof fn law_min_severity_keeps_sub_list(g: Graph, low: PatternFilter, high: PatternFilter, h: Severity,
    root: Seq<char>)
    requires
        low.patterns == high.patterns,
        low.min_confidence == high.min_confidence,
        high.min_severity == Some(h),
        low.min_severity matches Some(l) ==> severity_rank(l) <= severity_rank(h),
    ensures
        registry_result(g, high, root) == finalize(severity_only(h), registry_result(g, low, root)),
{
    let ds = all_findings(g, root);
    assert forall|d: DiagnosticView| #[trigger] passes(high, d) == (passes(low, d) && passes(severity_only(h), d)) by {}
    lemma_kept_upto(low, ds, ds.len());
    let kl = kept_upto(low, ds, ds.len());
    lemma_kept_twice(low, high, h, ds, ds.len());
    lemma_kept_ignores_ids(severity_only(h), kl, kl.len());
    lemma_with_ids_same(kept_upto(severity_only(h), with_ids(kl), kl.len()), kept_upto(severity_only(h), kl, kl.len()));
    assert(registry_result(g, low, root) == with_ids(kl));
    assert(with_ids(kl).len() == kl.len());
}

proof fn lemma_keep_all(ds: Seq<DiagnosticView>, k: nat)
    requires
        k <= ds.len(),
    ensures
        kept_upto(no_filter(), ds, k) == ds.take(k as int),
    decreases k,
{
    if k > 0 {
        lemma_keep_all(ds, (k - 1) as nat);
        assert(ds.take(k as int) =~= ds.take(k - 1).push(ds[k - 1]));
    } else {
        assert(ds.take(0) =~= Seq::<DiagnosticView>::empty());
    }
}

/// The severity that a pattern's findings carry: Info for phantom
/// dependencies and missing re-exports, Critical (decorator contracts) or
/// Warning (property signatures, arity) for contract mismatches, Warning
/// for every other pattern.
pub open spec fn severity_fits(p: DiagnosticPattern, s: Severity) -> bool {
    match p {
        DiagnosticPattern::PhantomDependency | DiagnosticPattern::MissingReexport => s == Severity::Info,
        DiagnosticPattern::ContractMismatch => s == Severity::Critical || s == Severity::Warning,
        _ => s == Severity::Warning,
    }
}

/// A finding as a detector produces it: no id yet, since the registry
/// numbers findings, at least one piece of evidence, and the severity of
/// its pattern.
pub open spec fn as_detected(d: DiagnosticView) -> bool {
    &&& d.id == Seq::<char>::empty()
    &&& d.evidence.len() >= 1
    &&& severity_fits(d.pattern, d.severity)
}

/// Every finding of `ds` is as a detector produces it.
pub open spec fn fresh(ds: Seq<DiagnosticView>) -> bool {
    forall|i: int| 0 <= i < ds.len() ==> as_detected(#[trigger] ds[i])
}

proof fn lemma_fresh_push(ds: Seq<DiagnosticView>, d: DiagnosticView)
    requires
        fresh(ds),
        as_detected(d),
    ensures
        fresh(ds.push(d)),
{
    assert forall|i: int| 0 <= i < ds.push(d).len() implies as_detected(#[trigger] ds.push(d)[i]) by {
        if i < ds.len() {
            assert(ds.push(d)[i] == ds[i]);
        }
    }
}

proof fn lemma_fresh_add(a: Seq<DiagnosticView>, b: Seq<DiagnosticView>)
    requires
        fresh(a),
        fresh(b),
    ensures
        fresh(a + b),
{
    assert forall|i: int| 0 <= i < (a + b).len() implies as_detected(#[trigger] (a + b)[i]) by {
        if i < a.len() {
            assert((a + b)[i] == a[i]);
        } else {
            assert((a + b)[i] == b[i - a.len()]);
        }
    }
}

proof fn lemma_fresh_clusters(g: Graph, root: Seq<char>, comps: Seq<Seq<crate::ir::SymbolId>>, k: nat)
    ensures
        fresh(isolated_cluster::clusters_upto(g, root, comps, k)),
    decreases k,
{
    if k > 0 && k <= comps.len() {
        lemma_fresh_clusters(g, root, comps, (k - 1) as nat);
        if isolated_cluster::cluster_reported(g, comps[k - 1]) {
            lemma_fresh_push(isolated_cluster::clusters_upto(g, root, comps, (k - 1) as nat),
                isolated_cluster::cluster_diag(g, root, comps[k - 1]));
        }
    }
}

proof fn lemma_fresh_dead_ends(g: Graph, root: Seq<char>, n: nat)
    ensures
        fresh(data_dead_end::dead_ends_upto(g, root, n)),
    decreases n,
{
    if n > 0 {
        lemma_fresh_dead_ends(g, root, (n - 1) as nat);
        if data_dead_end::is_dead_end(g, n - 1) {
            lemma_fresh_push(data_dead_end::dead_ends_upto(g, root, (n - 1) as nat),
                data_dead_end::dead_end_diag(g.syms()[n - 1], root, common::file_count(g)));
        }
    }
}

proof fn lemma_fresh_phantoms(g: Graph, root: Seq<char>, n: nat)
    ensures
        fresh(phantom_dependency::phantoms_upto(g, root, n)),
    decreases n,
{
    if n > 0 {
        lemma_fresh_phantoms(g, root, (n - 1) as nat);
        if phantom_dependency::is_phantom(g, n - 1) {
            lemma_fresh_push(phantom_dependency::phantoms_upto(g, root, (n - 1) as nat),
                phantom_dependency::phantom_diag(g.syms()[n - 1], root, common::file_count(g)));
        }
    }
}

proof fn lemma_fresh_orphans(g: Graph, root: Seq<char>, n: nat)
    ensures
        fresh(orphaned_implementation::orphans_upto(g, root, n)),
    decreases n,
{
    if n > 0 {
        lemma_fresh_orphans(g, root, (n - 1) as nat);
        if orphaned_implementation::is_orphan(g, n - 1) {
            lemma_fresh_push(orphaned_implementation::orphans_upto(g, root, (n - 1) as nat),
                orphaned_implementation::orphan_diag(g.syms()[n - 1], root, common::file_count(g)));
        }
    }
}

proof fn lemma_fresh_reexport_symbols(g: Graph, root: Seq<char>, parent: Seq<char>, sibling: Seq<char>, n: nat)
    ensures
        fresh(missing_reexport::symbol_diags_upto(g, root, parent, sibling, n)),
    decreases n,
{
    if n > 0 {
        lemma_fresh_reexport_symbols(g, root, parent, sibling, (n - 1) as nat);
        let s = g.syms()[n - 1];
        if missing_reexport::first_candidate(g, sibling, n - 1) && !missing_reexport::imported_in(g, parent, s.name@) {
            lemma_fresh_push(missing_reexport::symbol_diags_upto(g, root, parent, sibling, (n - 1) as nat),
                missing_reexport::reexport_diag(s, sibling, parent, root));
        }
    }
}

proof fn lemma_fresh_reexport_siblings(g: Graph, root: Seq<char>, files: Seq<Seq<char>>, parent: Seq<char>, k: nat)
    ensures
        fresh(missing_reexport::sibling_diags_upto(g, root, files, parent, k)),
    decreases k,
{
    if k > 0 && k <= files.len() {
        lemma_fresh_reexport_siblings(g, root, files, parent, (k - 1) as nat);
        if missing_reexport::sibling_of(files[k - 1], parent) {
            lemma_fresh_reexport_symbols(g, root, parent, files[k - 1], g.syms().len());
            lemma_fresh_add(missing_reexport::sibling_diags_upto(g, root, files, parent, (k - 1) as nat),
                missing_reexport::symbol_diags_upto(g, root, parent, files[k - 1], g.syms().len()));
        }
    }
}

proof fn lemma_fresh_reexports(g: Graph, root: Seq<char>, files: Seq<Seq<char>>, k: nat)
    ensures
        fresh(missing_reexport::reexport_diags_upto(g, root, files, k)),
    decreases k,
{
    if k > 0 && k <= files.len() {
        lemma_fresh_reexports(g, root, files, (k - 1) as nat);
        if missing_reexport::parent_module(files[k - 1]) {
            lemma_fresh_reexport_siblings(g, root, files, files[k - 1], files.len());
            lemma_fresh_add(missing_reexport::reexport_diags_upto(g, root, files, (k - 1) as nat),
                missing_reexport::sibling_diags_upto(g, root, files, files[k - 1], files.len()));
        }
    }
}

proof fn lemma_fresh_violations_of(g: Graph, root: Seq<char>, i: int, m: nat)
    ensures
        fresh(layer_violation::violations_of_upto(g, root, i, m)),
    decreases m,
{
    if m > 0 {
        lemma_fresh_violations_of(g, root, i, (m - 1) as nat);
        let v = layer_violation::violation_at(g, root, i, m - 1);
        assert(fresh(v));
        lemma_fresh_add(layer_violation::violations_of_upto(g, root, i, (m - 1) as nat), v);
    }
}

proof fn lemma_fresh_violations(g: Graph, root: Seq<char>, n: nat)
    ensures
        fresh(layer_violation::violations_upto(g, root, n)),
    decreases n,
{
    if n > 0 {
        lemma_fresh_violations(g, root, (n - 1) as nat);
        let m = g.out_edges(crate::ir::SymbolId(n as usize)).len();
        lemma_fresh_violations_of(g, root, n - 1, m);
        lemma_fresh_add(layer_violation::violations_upto(g, root, (n - 1) as nat),
            layer_violation::violations_of_upto(g, root, n - 1, m));
    }
}

proof fn lemma_fresh_stale(g: Graph, root: Seq<char>, n: nat)
    ensures
        fresh(stale_reference::stale_upto(g, root, n)),
    decreases n,
{
    if n > 0 {
        lemma_fresh_stale(g, root, (n - 1) as nat);
        let v = stale_reference::stale_at(g, root, n - 1);
        assert(fresh(v));
        lemma_fresh_add(stale_reference::stale_upto(g, root, (n - 1) as nat), v);
    }
}

proof fn lemma_fresh_decorators(g: Graph, root: Seq<char>, n: nat)
    ensures
        fresh(contract_mismatch::decorator_diags_upto(g, root, n)),
    decreases n,
{
    if n > 0 {
        lemma_fresh_decorators(g, root, (n - 1) as nat);
        let s = g.syms()[n - 1];
        let v = contract_mismatch::decorator_diags(s, root);
        assert(fresh(v)) by {
            assert forall|i: int| 0 <= i < v.len() implies as_detected(#[trigger] v[i]) by {
            }
        }
        lemma_fresh_add(contract_mismatch::decorator_diags_upto(g, root, (n - 1) as nat), v);
    }
}

proof fn lemma_fresh_arity(g: Graph, root: Seq<char>, n: nat)
    ensures
        fresh(contract_mismatch::arity_diags_upto(g, root, n)),
    decreases n,
{
    if n > 0 {
        lemma_fresh_arity(g, root, (n - 1) as nat);
        if contract_mismatch::group_leader(g, n - 1) && contract_mismatch::group_reported(g, n - 1) {
            lemma_fresh_push(contract_mismatch::arity_diags_upto(g, root, (n - 1) as nat),
                contract_mismatch::arity_diag(g, root, n - 1));
        }
    }
}

proof fn lemma_fresh_naming(g: Graph, root: Seq<char>, ps: Seq<(usize, usize, bool)>, k: nat)
    ensures
        fresh(incomplete_migration::naming_fold(g, root, ps, k).0),
    decreases k,
{
    if k > 0 && k <= ps.len() {
        lemma_fresh_naming(g, root, ps, (k - 1) as nat);
        let st = incomplete_migration::naming_fold(g, root, ps, (k - 1) as nat);
        let p = ps[k - 1];
        let c = if p.2 { Confidence::High } else { Confidence::Moderate };
        lemma_fresh_consider(g, root, st.0, st.1, p.0, p.1, c, false);
    }
}

proof fn lemma_fresh_versions(g: Graph, root: Seq<char>, ps: Seq<(usize, usize, bool)>, k: nat)
    ensures
        fresh(incomplete_migration::version_fold(g, root, ps, k).0),
    decreases k,
{
    if k > 0 && k <= ps.len() {
        lemma_fresh_versions(g, root, ps, (k - 1) as nat);
        let st = incomplete_migration::version_fold(g, root, ps, (k - 1) as nat);
        let p = ps[k - 1];
        lemma_fresh_consider(g, root, st.0, st.1, p.0, p.1, Confidence::Moderate, true);
    }
}

proof fn lemma_fresh_consider(g: Graph, root: Seq<char>, ds: Seq<DiagnosticView>, em: Seq<(usize, usize)>,
    o: usize, n: usize, c: Confidence, version: bool)
    requires
        fresh(ds),
    ensures
        fresh(incomplete_migration::consider(g, root, ds, em, o, n, c, version).0),
{
    let key = if o < n { (o, n) } else { (n, o) };
    if !(o >= g.syms().len() || n >= g.syms().len() || o == n || em.contains(key)
        || !incomplete_migration::near(g.syms()[o as int].location.file@, g.syms()[n as int].location.file@)
        || incomplete_migration::prod_callers(g, o).len() == 0 || incomplete_migration::prod_callers(g, n).len() == 0) {
        lemma_fresh_push(ds, incomplete_migration::pair_diag(g, root, o, n, c, version));
    }
}

proof fn lemma_fresh_import_row(g: Graph, root: Seq<char>, file: Seq<char>, ims: Seq<(usize, Seq<char>)>, i: int, k: nat)
    ensures
        fresh(incomplete_migration::import_row(g, root, file, ims, i, k)),
    decreases k,
{
    if k > 0 && k <= ims.len() {
        lemma_fresh_import_row(g, root, file, ims, i, (k - 1) as nat);
        let j = k - 1;
        if i != j && incomplete_migration::migration_pair(ims[i].1, ims[j].1) {
            lemma_fresh_push(incomplete_migration::import_row(g, root, file, ims, i, (k - 1) as nat),
                incomplete_migration::import_diag(file, root, ims[i].1, ims[j].1, g.syms()[ims[i].0 as int].location.line));
        }
    }
}

proof fn lemma_fresh_import_rows(g: Graph, root: Seq<char>, file: Seq<char>, ims: Seq<(usize, Seq<char>)>, k: nat)
    ensures
        fresh(incomplete_migration::import_rows(g, root, file, ims, k)),
    decreases k,
{
    if k > 0 && k <= ims.len() {
        lemma_fresh_import_rows(g, root, file, ims, (k - 1) as nat);
        lemma_fresh_import_row(g, root, file, ims, k - 1, ims.len());
        lemma_fresh_add(incomplete_migration::import_rows(g, root, file, ims, (k - 1) as nat),
            incomplete_migration::import_row(g, root, file, ims, k - 1, ims.len()));
    }
}

proof fn lemma_fresh_imports(g: Graph, root: Seq<char>, fs: Seq<Seq<char>>, k: nat)
    ensures
        fresh(incomplete_migration::import_diags_upto(g, root, fs, k)),
    decreases k,
{
    if k > 0 && k <= fs.len() {
        lemma_fresh_imports(g, root, fs, (k - 1) as nat);
        let ims = incomplete_migration::file_imports(g, fs[k - 1], g.syms().len());
        lemma_fresh_import_rows(g, root, fs[k - 1], ims, ims.len());
        lemma_fresh_add(incomplete_migration::import_diags_upto(g, root, fs, (k - 1) as nat),
            incomplete_migration::import_rows(g, root, fs[k - 1], ims, ims.len()));
    }
}

proof fn lemma_fresh_wirings(g: Graph, root: Seq<char>, n: nat)
    ensures
        fresh(partial_wiring::wirings_upto(g, root, n)),
    decreases n,
{
    if n > 0 {
        lemma_fresh_wirings(g, root, (n - 1) as nat);
        if partial_wiring::partially_wired(g, n - 1) {
            lemma_fresh_push(partial_wiring::wirings_upto(g, root, (n - 1) as nat),
                partial_wiring::wiring_diag(g, root, n - 1));
        }
    }
}

proof fn lemma_fresh_cycles(g: Graph)
    ensures
        fresh(circular_dependency::circular_findings(g)),
{
    circular_dependency::law_circular_findings_are_cycles(g);
    let cf = circular_dependency::circular_findings(g);
    assert forall|i: int| 0 <= i < cf.len() implies as_detected(#[trigger] cf[i]) by {
        assert(circular_dependency::reported_cycle(g, cf[i]));
        let ms = choose|ms: Seq<Seq<char>>| #[trigger] circular_dependency::cycle_ok(g, ms) && cf[i] == circular_dependency::cycle_diag(g, ms);
    }
}

/// Every finding that a detector produces carries at least one piece of
/// evidence, no id (ids are the registry's to give) and the severity of
/// its pattern; every finding that the registry returns carries an id, at
/// least one piece of evidence and the severity of its pattern.
pub proof fn law_findings_well_formed(g: Graph, f: PatternFilter, root: Seq<char>)
    ensures
        fresh(all_findings(g, root)),
        forall|i: int| 0 <= i < registry_result(g, f, root).len() ==> {
            let d = #[trigger] registry_result(g, f, root)[i];
            d.id.len() >= 1 && d.evidence.len() >= 1 && severity_fits(d.pattern, d.severity)
        },
{
    let n = g.syms().len();
    let comps = crate::graph::components(g);
    lemma_fresh_clusters(g, root, comps, comps.len());
    lemma_fresh_dead_ends(g, root, n);
    lemma_fresh_phantoms(g, root, n);
    lemma_fresh_cycles(g);
    lemma_fresh_orphans(g, root, n);
    let files = common::distinct_files(g);
    lemma_fresh_reexports(g, root, files, files.len());
    lemma_fresh_violations(g, root, n);
    lemma_fresh_stale(g, root, n);
    lemma_fresh_decorators(g, root, n);
    lemma_fresh_arity(g, root, n);
    lemma_fresh_add(contract_mismatch::decorator_diags_upto(g, root, n), contract_mismatch::arity_diags_upto(g, root, n));
    let nps = incomplete_migration::naming_pairs(g);
    lemma_fresh_naming(g, root, nps, nps.len());
    let vps = incomplete_migration::version_pairs(g);
    lemma_fresh_versions(g, root, vps, vps.len());
    let ifs = incomplete_migration::import_files_upto(g, n);
    lemma_fresh_imports(g, root, ifs, ifs.len());
    let a = incomplete_migration::naming_diags(g, root);
    let b = incomplete_migration::version_diags(g, root);
    let c = incomplete_migration::import_diags(g, root);
    lemma_fresh_add(a, b);
    lemma_fresh_add(a + b, c);
    let p1 = isolated_cluster::isolated_clusters(g, root);
    let p2 = data_dead_end::dead_ends_upto(g, root, n);
    let p3 = phantom_dependency::phantoms_upto(g, root, n);
    let p4 = circular_dependency::circular_findings(g);
    let p5 = orphaned_implementation::orphans_upto(g, root, n);
    let p6 = missing_reexport::missing_reexports(g, root);
    let p7 = layer_violation::violations_upto(g, root, n);
    let p8 = stale_reference::stale_upto(g, root, n);
    let p9 = contract_mismatch::contract_mismatches(g, root);
    let p10 = incomplete_migration::incomplete_migrations(g, root);
    lemma_fresh_add(p1, p2);
    lemma_fresh_add(p1 + p2, p3);
    lemma_fresh_add(p1 + p2 + p3, p4);
    lemma_fresh_add(p1 + p2 + p3 + p4, p5);
    lemma_fresh_add(p1 + p2 + p3 + p4 + p5, p6);
    lemma_fresh_add(p1 + p2 + p3 + p4 + p5 + p6, p7);
    lemma_fresh_add(p1 + p2 + p3 + p4 + p5 + p6 + p7, p8);
    lemma_fresh_add(p1 + p2 + p3 + p4 + p5 + p6 + p7 + p8, p9);
    lemma_fresh_add(p1 + p2 + p3 + p4 + p5 + p6 + p7 + p8 + p9, p10);
    let p11 = partial_wiring::partial_wirings(g, root);
    lemma_fresh_wirings(g, root, n);
    lemma_fresh_add(p1 + p2 + p3 + p4 + p5 + p6 + p7 + p8 + p9 + p10, p11);
    let ds = all_findings(g, root);
    lemma_kept_upto(f, ds, ds.len());
    let kept = kept_upto(f, ds, ds.len());
    assert forall|i: int| 0 <= i < registry_result(g, f, root).len() implies {
        let d = #[trigger] registry_result(g, f, root)[i];
        d.id.len() >= 1 && d.evidence.len() >= 1 && severity_fits(d.pattern, d.severity)
    } by {
        let j = choose|j: int| 0 <= j < ds.len() && #[trigger] kept[i] == ds[j];
        assert(registry_result(g, f, root)[i] == numbered(kept[i], (i + 1) as nat));
        reveal_strlit("D");
    }
}

} // verus!
