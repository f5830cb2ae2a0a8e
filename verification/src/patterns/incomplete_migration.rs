//! Incomplete migration detection — old and new APIs coexisting with split
//! callers.
//!
//! Three signals: naming pairs (`deprecated_X`/`X`, `legacy_X`/`X`,
//! `old_X`/`new_X`, `X_old`/`X_new`, `sync_X`/`async_X`, ...), version
//! pairs (`X_v1`/`X_v2`), both in the same file or directory and both with
//! production callers; and files importing from both an old-named module
//! and its new counterpart. Explicit markers (`deprecated`, `legacy`) give
//! High confidence, the others Moderate.

use vstd::prelude::*;

use crate::diagnostic::{
    diag_views, Confidence, Diagnostic, DiagnosticPattern, DiagnosticView, Evidence, EvidenceView,
    Severity,
};
use crate::patterns::exclusion::{is_test_path, relative_path, relativize_path, test_path};
use crate::graph::{call_targets, Graph};
use crate::ir::{has_annotation, Symbol, SymbolId, SymbolKind};
use crate::patterns::common::{char_views, contains_chars, loc, push_diag, symbol_location};
use crate::text::{
    chars_eq, chars_of, dec, digit_char, ends_with, has_prefix, has_suffix, join, last_index_of,
    lemma_last_index_bounds, matches_at, occurs_at, push_chars, push_joined, push_str, push_u128, push_usize,
    rfind_char, slice_chars, starts_with, string_of,
};

verus! {

broadcast use vstd::seq_lib::group_seq_properties;

// ---------------------------------------------------------------------------
// Paths and callers
// ---------------------------------------------------------------------------

/// The directory of a path: everything before its last separator (`/`, or
/// also `\` when the path holds one), or the empty string.
pub open spec fn mig_dir(f: Seq<char>) -> Seq<char> {
    let i = if f.contains('\\') {
        if last_index_of(f, '/') > last_index_of(f, '\\') { last_index_of(f, '/') } else { last_index_of(f, '\\') }
    } else {
        last_index_of(f, '/')
    };
    if i < 0 { seq![] } else { f.take(i) }
}

/// Two files in the same file or directory.
pub open spec fn near(a: Seq<char>, b: Seq<char>) -> bool {
    a == b || mig_dir(a) == mig_dir(b)
}

/// The production callers among the first `k` of `cs`: stored symbols
/// outside test files.
pub open spec fn prod_upto(g: Graph, cs: Seq<SymbolId>, k: nat) -> Seq<SymbolId>
    decreases k,
{
    if k == 0 || k > cs.len() {
        seq![]
    } else if g.is_symbol(cs[k - 1]) && !test_path(g.sym(cs[k - 1]).location.file@) {
        prod_upto(g, cs, (k - 1) as nat).push(cs[k - 1])
    } else {
        prod_upto(g, cs, (k - 1) as nat)
    }
}

/// The production callers of symbol `id`, in reference order.
pub open spec fn production_callers(g: Graph, id: SymbolId) -> Seq<SymbolId> {
    let cs = call_targets(g.in_edges(id));
    prod_upto(g, cs, cs.len())
}

/// The production callers of symbol `i` (by index), in reference order.
pub open spec fn prod_callers(g: Graph, i: usize) -> Seq<SymbolId> {
    production_callers(g, SymbolId((i + 1) as usize))
}

/// Names of the first five of `cs` (all stored symbols).
pub open spec fn caller_names(g: Graph, cs: Seq<SymbolId>) -> Seq<Seq<char>> {
    let shown = if cs.len() <= 5 { cs } else { cs.take(5) };
    shown.map_values(|c: SymbolId| g.sym(c).name@)
}

fn dir_of(f: &Vec<char>) -> (r: Vec<char>)
    ensures
        r@ == mig_dir(f@),
{
    let flen = f.len();
    proof {
        lemma_last_index_bounds(f@, '/');
        lemma_last_index_bounds(f@, '\\');
    }
    let slash = rfind_char(f, '/');
    let back = rfind_char(f, '\\');
    let has_back = back.is_some();
    assert(has_back == f@.contains('\\')) by {
        if f@.contains('\\') {
            let k = choose|k: int| 0 <= k < f@.len() && f@[k] == '\\';
            lemma_last_index_bounds(f@, '\\');
        }
    }
    let i: Option<usize> = if has_back {
        match (slash, back) {
            (Some(a), Some(b)) => if a > b { Some(a) } else { Some(b) },
            (None, Some(b)) => Some(b),
            (Some(a), None) => Some(a),
            (None, None) => None,
        }
    } else {
        slash
    };
    match i {
        Some(k) => slice_chars(f, 0, k),
        None => Vec::new(),
    }
}

/// Whether two files lie in the same file or directory.
pub fn same_directory(a: &str, b: &str) -> (r: bool)
    ensures
        r == (mig_dir(a@) == mig_dir(b@)),
{
    chars_eq(&dir_of(&chars_of(a)), &dir_of(&chars_of(b)))
}

fn is_near(a: &str, b: &str) -> (r: bool)
    ensures
        r == near(a@, b@),
{
    chars_eq(&chars_of(a), &chars_of(b)) || same_directory(a, b)
}

/// Count non-test callers for a symbol: its callers that are stored
/// symbols outside test files, in reference order.
pub fn count_production_callers(graph: &Graph, id: SymbolId) -> (r: Vec<SymbolId>)
    ensures
        r@ == production_callers(*graph, id),
        forall|k: int| 0 <= k < r@.len() ==> #[trigger] graph.is_symbol(r@[k]),
{
    let cs = graph.callers(id);
    let mut out: Vec<SymbolId> = Vec::new();
    let mut k: usize = 0;
    while k < cs.len()
        invariant
            k <= cs@.len(),
            cs@ == call_targets(graph.in_edges(id)),
            out@ == prod_upto(*graph, cs@, k as nat),
            forall|q: int| 0 <= q < out@.len() ==> #[trigger] graph.is_symbol(out@[q]),
        decreases cs@.len() - k,
    {
        let c = cs[k];
        match graph.get_symbol(c) {
            Some(s) => {
                if !is_test_path(s.location.file.as_str()) {
                    out.push(c);
                }
            },
            None => {},
        }
        k = k + 1;
    }
    out
}

fn names_of_callers(graph: &Graph, cs: &Vec<SymbolId>) -> (r: Vec<Vec<char>>)
    requires
        forall|k: int| 0 <= k < cs@.len() ==> #[trigger] graph.is_symbol(cs@[k]),
    ensures
        r@.map_values(|p: Vec<char>| p@) == caller_names(*graph, cs@),
{
    let n: usize = if cs.len() <= 5 { cs.len() } else { 5 };
    let ghost shown = if cs@.len() <= 5 { cs@ } else { cs@.take(5) };
    assert(shown.len() == n);
    let mut out: Vec<Vec<char>> = Vec::new();
    let mut k: usize = 0;
    while k < n
        invariant
            k <= n,
            n <= cs@.len(),
            shown.len() == n,
            forall|q: int| 0 <= q < n ==> shown[q] == cs@[q],
            forall|q: int| 0 <= q < cs@.len() ==> #[trigger] graph.is_symbol(cs@[q]),
            out@.map_values(|p: Vec<char>| p@) == shown.take(k as int).map_values(|c: SymbolId| graph.sym(c).name@),
        decreases n - k,
    {
        assert(graph.is_symbol(cs@[k as int]));
        let nm = chars_of(graph.symbol_at(cs[k].0 - 1).name.as_str());
        let ghost before = out@.map_values(|p: Vec<char>| p@);
        out.push(nm);
        assert(shown.take(k + 1) =~= shown.take(k as int).push(shown[k as int]));
        assert(out@.map_values(|p: Vec<char>| p@) =~= before.push(nm@));
        k = k + 1;
    }
    assert(shown.take(n as int) =~= shown);
    out
}

// ---------------------------------------------------------------------------
// Diagnostics
// ---------------------------------------------------------------------------

/// Wording of a pair diagnostic: naming pairs speak of patterns and APIs,
/// version pairs of versions.
pub open spec fn pair_diag(g: Graph, root: Seq<char>, o: usize, n: usize, confidence: Confidence, version: bool) -> DiagnosticView {
    let os = g.syms()[o as int];
    let ns = g.syms()[n as int];
    let oc = prod_callers(g, o);
    let nc = prod_callers(g, n);
    let onames = join(caller_names(g, oc), ", "@);
    let nnames = join(caller_names(g, nc), ", "@);
    let oloc = loc(os.location.file@, root, os.location.line);
    let nloc = loc(ns.location.file@, root, ns.location.line);
    DiagnosticView {
        id: seq![],
        pattern: DiagnosticPattern::IncompleteMigration,
        severity: Severity::Warning,
        confidence,
        entity: os.name@ + ", "@ + ns.name@,
        message: "Incomplete migration: '"@ + os.name@ + "' and '"@ + ns.name@ + "' coexist with split callers ("@
            + dec(oc.len()) + " of "@ + dec(oc.len() + nc.len()) + " call sites still use old pattern)"@,
        evidence: seq![
            EvidenceView {
                observation: (if version { "Old version '"@ } else { "Old pattern '"@ }) + os.name@ + "' has "@
                    + dec(oc.len()) + " caller(s): ["@ + onames + "]"@,
                location: Some(oloc),
                context: Some(if version { "older version still in use"@ } else { "old API still in use"@ }),
            },
            EvidenceView {
                observation: (if version { "New version '"@ } else { "New pattern '"@ }) + ns.name@ + "' has "@
                    + dec(nc.len()) + " caller(s): ["@ + nnames + "]"@,
                location: Some(nloc),
                context: Some(if version { "newer version partially adopted"@ } else { "new API partially adopted"@ }),
            },
        ],
        suggestion: "Complete migration: update callers ["@ + onames + "] to use '"@ + ns.name@ + "' instead of '"@
            + os.name@ + "'"@,
        location: oloc,
    }
}

fn build_pair(graph: &Graph, project_root: &str, o: usize, n: usize, confidence: Confidence, version: bool,
    oc: &Vec<SymbolId>, nc: &Vec<SymbolId>) -> (d: Diagnostic)
    requires
        o < graph.syms().len(),
        n < graph.syms().len(),
        oc@ == prod_callers(*graph, o),
        nc@ == prod_callers(*graph, n),
        forall|k: int| 0 <= k < oc@.len() ==> #[trigger] graph.is_symbol(oc@[k]),
        forall|k: int| 0 <= k < nc@.len() ==> #[trigger] graph.is_symbol(nc@[k]),
    ensures
        d@ == pair_diag(*graph, project_root@, o, n, confidence, version),
{
    let os = graph.symbol_at(o);
    let ns = graph.symbol_at(n);
    let onames = names_of_callers(graph, oc);
    let nnames = names_of_callers(graph, nc);
    let oloc = symbol_location(os, project_root);
    let nloc = symbol_location(ns, project_root);
    let mut entity = String::new();
    push_str(&mut entity, os.name.as_str());
    push_str(&mut entity, ", ");
    push_str(&mut entity, ns.name.as_str());
    let mut message = String::new();
    push_str(&mut message, "Incomplete migration: '");
    push_str(&mut message, os.name.as_str());
    push_str(&mut message, "' and '");
    push_str(&mut message, ns.name.as_str());
    push_str(&mut message, "' coexist with split callers (");
    push_usize(&mut message, oc.len());
    push_str(&mut message, " of ");
    push_u128(&mut message, oc.len() as u128 + nc.len() as u128);
    push_str(&mut message, " call sites still use old pattern)");
    let mut obs1 = String::new();
    push_str(&mut obs1, if version { "Old version '" } else { "Old pattern '" });
    push_str(&mut obs1, os.name.as_str());
    push_str(&mut obs1, "' has ");
    push_usize(&mut obs1, oc.len());
    push_str(&mut obs1, " caller(s): [");
    push_joined(&mut obs1, &onames, ", ");
    push_str(&mut obs1, "]");
    let mut obs2 = String::new();
    push_str(&mut obs2, if version { "New version '" } else { "New pattern '" });
    push_str(&mut obs2, ns.name.as_str());
    push_str(&mut obs2, "' has ");
    push_usize(&mut obs2, nc.len());
    push_str(&mut obs2, " caller(s): [");
    push_joined(&mut obs2, &nnames, ", ");
    push_str(&mut obs2, "]");
    let mut ctx1 = String::new();
    push_str(&mut ctx1, if version { "older version still in use" } else { "old API still in use" });
    let mut ctx2 = String::new();
    push_str(&mut ctx2, if version { "newer version partially adopted" } else { "new API partially adopted" });
    let mut suggestion = String::new();
    push_str(&mut suggestion, "Complete migration: update callers [");
    push_joined(&mut suggestion, &onames, ", ");
    push_str(&mut suggestion, "] to use '");
    push_str(&mut suggestion, ns.name.as_str());
    push_str(&mut suggestion, "' instead of '");
    push_str(&mut suggestion, os.name.as_str());
    push_str(&mut suggestion, "'");
    let e1 = Evidence { observation: obs1, location: Some(oloc.clone()), context: Some(ctx1) };
    let e2 = Evidence { observation: obs2, location: Some(nloc), context: Some(ctx2) };
    let d = Diagnostic {
        id: String::new(),
        pattern: DiagnosticPattern::IncompleteMigration,
        severity: Severity::Warning,
        confidence,
        entity,
        message,
        evidence: vec![e1, e2],
        suggestion,
        location: oloc,
    };
    let ghost want = pair_diag(*graph, project_root@, o, n, confidence, version);
    assert(d@.evidence =~= seq![e1@, e2@]);
    assert(d@.entity =~= want.entity);
    assert(d@.message =~= want.message);
    assert(d@.suggestion =~= want.suggestion);
    assert(e1@.observation =~= want.evidence[0].observation);
    assert(e2@.observation =~= want.evidence[1].observation);
    assert(e1@.context =~= want.evidence[0].context);
    assert(e2@.context =~= want.evidence[1].context);
    d
}

/// Outcome of considering the pair (`o`, `n`) after `ds` and `em`: it is
/// reported unless it pairs a symbol with itself, was reported before, is
/// not in one file or directory, or one side has no production caller.
pub open spec fn consider(g: Graph, root: Seq<char>, ds: Seq<DiagnosticView>, em: Seq<(usize, usize)>,
    o: usize, n: usize, confidence: Confidence, version: bool) -> (Seq<DiagnosticView>, Seq<(usize, usize)>) {
    let key = if o < n { (o, n) } else { (n, o) };
    if o >= g.syms().len() || n >= g.syms().len() || o == n || em.contains(key) || !near(g.syms()[o as int].location.file@, g.syms()[n as int].location.file@)
        || prod_callers(g, o).len() == 0 || prod_callers(g, n).len() == 0 {
        (ds, em)
    } else {
        (ds.push(pair_diag(g, root, o, n, confidence, version)), em.push(key))
    }
}

fn has_pair(em: &Vec<(usize, usize)>, key: (usize, usize)) -> (r: bool)
    ensures
        r == em@.contains(key),
{
    let mut i: usize = 0;
    while i < em.len()
        invariant
            i <= em@.len(),
            forall|j: int| 0 <= j < i ==> em@[j] != key,
        decreases em@.len() - i,
    {
        if em[i].0 == key.0 && em[i].1 == key.1 {
            assert(em@[i as int] == key);
            return true;
        }
        i = i + 1;
    }
    false
}

fn consider_pair(graph: &Graph, project_root: &str, out: &mut Vec<Diagnostic>, em: &mut Vec<(usize, usize)>,
    o: usize, n: usize, confidence: Confidence, version: bool)
    ensures
        (diag_views(final(out)@), final(em)@) == consider(*graph, project_root@, diag_views(old(out)@), old(em)@, o, n, confidence, version),
{
    let key = if o < n { (o, n) } else { (n, o) };
    if o >= graph.symbol_count() || n >= graph.symbol_count() || o == n || has_pair(em, key) {
        return;
    }
    let os = graph.symbol_at(o);
    let ns = graph.symbol_at(n);
    if !is_near(os.location.file.as_str(), ns.location.file.as_str()) {
        return;
    }
    proof {
        graph.lemma_len_bounds();
    }
    let oc = count_production_callers(graph, SymbolId(o + 1));
    let nc = count_production_callers(graph, SymbolId(n + 1));
    if oc.len() == 0 || nc.len() == 0 {
        return;
    }
    push_diag(out, build_pair(graph, project_root, o, n, confidence, version, &oc, &nc));
    em.push(key);
}

// ---------------------------------------------------------------------------
// Signal 1: naming pairs
// ---------------------------------------------------------------------------

/// The naming markers in the order they are tried: the marker text,
/// whether it is a prefix (else a suffix), whether it marks the old side,
/// and whether it is explicit (`deprecated`, `legacy`).
pub open spec fn marker(i: int) -> (Seq<char>, bool, bool, bool) {
    if i == 0 { ("deprecated_"@, true, true, true) }
    else if i == 1 { ("legacy_"@, true, true, true) }
    else if i == 2 { ("old_"@, true, true, false) }
    else if i == 3 { ("new_"@, true, false, false) }
    else if i == 4 { ("_deprecated"@, false, true, true) }
    else if i == 5 { ("_legacy"@, false, true, true) }
    else if i == 6 { ("_old"@, false, true, false) }
    else if i == 7 { ("_new"@, false, false, false) }
    else if i == 8 { ("sync_"@, true, true, false) }
    else if i == 9 { ("_sync"@, false, true, false) }
    else if i == 10 { ("async_"@, true, false, false) }
    else { ("_async"@, false, false, false) }
}

fn marker_at(i: usize) -> (r: (&'static str, bool, bool, bool))
    requires
        i < 12,
    ensures
        (r.0@, r.1, r.2, r.3) == marker(i as int),
{
    if i == 0 { ("deprecated_", true, true, true) }
    else if i == 1 { ("legacy_", true, true, true) }
    else if i == 2 { ("old_", true, true, false) }
    else if i == 3 { ("new_", true, false, false) }
    else if i == 4 { ("_deprecated", false, true, true) }
    else if i == 5 { ("_legacy", false, true, true) }
    else if i == 6 { ("_old", false, true, false) }
    else if i == 7 { ("_new", false, false, false) }
    else if i == 8 { ("sync_", true, true, false) }
    else if i == 9 { ("_sync", false, true, false) }
    else if i == 10 { ("async_", true, false, false) }
    else { ("_async", false, false, false) }
}

/// `name` with the marker text removed from its start (prefix) or end
/// (suffix), when it is there.
pub open spec fn strip_marker(name: Seq<char>, text: Seq<char>, prefix: bool) -> Option<Seq<char>> {
    if prefix {
        if starts_with(name, text) { Some(name.skip(text.len() as int)) } else { None }
    } else {
        if ends_with(name, text) { Some(name.take(name.len() - text.len())) } else { None }
    }
}

fn strip_marker_exec(name: &Vec<char>, text: &str, prefix: bool) -> (r: Option<Vec<char>>)
    ensures
        r matches Some(b) ==> strip_marker(name@, text@, prefix) == Some(b@),
        r is None ==> strip_marker(name@, text@, prefix) is None,
{
    let t = chars_of(text);
    if prefix {
        if has_prefix(name, &t) {
            let b = slice_chars(name, t.len(), name.len());
            assert(b@ =~= name@.skip(t@.len() as int));
            Some(b)
        } else {
            None
        }
    } else {
        if has_suffix(name, &t) {
            let b = slice_chars(name, 0, name.len() - t.len());
            assert(b@ =~= name@.take(name@.len() - t@.len()));
            Some(b)
        } else {
            None
        }
    }
}

/// A naming candidate: a symbol (by index), the base name left after
/// removing a marker, its side, and whether the marker is explicit.
pub struct CandView {
    pub idx: usize,
    pub base: Seq<char>,
    pub old: bool,
    pub explicit: bool,
}

/// A naming candidate, as computed.
pub struct Candidate {
    pub idx: usize,
    pub base: Vec<char>,
    pub old: bool,
    pub explicit: bool,
}

impl View for Candidate {
    type V = CandView;

    open spec fn view(&self) -> CandView {
        CandView { idx: self.idx, base: self.base@, old: self.old, explicit: self.explicit }
    }
}

/// The views of a sequence of candidates.
pub open spec fn cand_views(v: Seq<Candidate>) -> Seq<CandView> {
    v.map_values(|c: Candidate| c@)
}

/// Symbol `i` takes part in the pair signals: a named function or method
/// outside test files.
pub open spec fn pair_eligible(g: Graph, i: int) -> bool {
    let s = g.syms()[i];
    &&& s.kind == SymbolKind::Function || s.kind == SymbolKind::Method
    &&& s.name@.len() > 0
    &&& !test_path(s.location.file@)
}

/// Candidates of symbol `i` from the first `k` markers.
pub open spec fn marker_cands(g: Graph, i: usize, k: nat) -> Seq<CandView>
    decreases k,
{
    if k == 0 {
        seq![]
    } else {
        let prev = marker_cands(g, i, (k - 1) as nat);
        let m = marker(k - 1);
        match strip_marker(g.syms()[i as int].name@, m.0, m.1) {
            Some(b) => if b.len() > 0 {
                prev.push(CandView { idx: i, base: b, old: m.2, explicit: m.3 })
            } else {
                prev
            },
            None => prev,
        }
    }
}

/// All candidates of symbol `i`: one per matching marker, then the bare
/// name on the new side.
pub open spec fn sym_cands(g: Graph, i: usize) -> Seq<CandView> {
    if pair_eligible(g, i as int) {
        marker_cands(g, i, 12).push(CandView { idx: i, base: g.syms()[i as int].name@, old: false, explicit: true })
    } else {
        seq![]
    }
}

/// Candidates of the first `n` symbols.
pub open spec fn cands_upto(g: Graph, n: nat) -> Seq<CandView>
    decreases n,
{
    if n == 0 {
        seq![]
    } else {
        cands_upto(g, (n - 1) as nat) + sym_cands(g, (n - 1) as usize)
    }
}

/// The distinct base names among the first `k` candidates, in order of
/// first appearance.
pub open spec fn bases_upto(cs: Seq<CandView>, k: nat) -> Seq<Seq<char>>
    decreases k,
{
    if k == 0 || k > cs.len() {
        seq![]
    } else {
        let prev = bases_upto(cs, (k - 1) as nat);
        if prev.contains(cs[k - 1].base) { prev } else { prev.push(cs[k - 1].base) }
    }
}

/// Old-side candidates with base `b` among the first `k`: (index, explicit).
pub open spec fn olds_upto(cs: Seq<CandView>, b: Seq<char>, k: nat) -> Seq<(usize, bool)>
    decreases k,
{
    if k == 0 || k > cs.len() {
        seq![]
    } else if cs[k - 1].base == b && cs[k - 1].old {
        olds_upto(cs, b, (k - 1) as nat).push((cs[k - 1].idx, cs[k - 1].explicit))
    } else {
        olds_upto(cs, b, (k - 1) as nat)
    }
}

/// New-side candidates with base `b` among the first `k`.
pub open spec fn news_upto(cs: Seq<CandView>, b: Seq<char>, k: nat) -> Seq<usize>
    decreases k,
{
    if k == 0 || k > cs.len() {
        seq![]
    } else if cs[k - 1].base == b && !cs[k - 1].old {
        news_upto(cs, b, (k - 1) as nat).push(cs[k - 1].idx)
    } else {
        news_upto(cs, b, (k - 1) as nat)
    }
}

/// Every (old, new) pair for the first `k` old candidates: (old, new,
/// explicit), old-major.
pub open spec fn pairs_for(os: Seq<(usize, bool)>, ns: Seq<usize>, k: nat) -> Seq<(usize, usize, bool)>
    decreases k,
{
    if k == 0 || k > os.len() {
        seq![]
    } else {
        pairs_for(os, ns, (k - 1) as nat) + ns.map_values(|n: usize| (os[k - 1].0, n, os[k - 1].1))
    }
}

/// The pairs of the first `k` base names, in order.
pub open spec fn all_pairs(cs: Seq<CandView>, bs: Seq<Seq<char>>, k: nat) -> Seq<(usize, usize, bool)>
    decreases k,
{
    if k == 0 || k > bs.len() {
        seq![]
    } else {
        let os = olds_upto(cs, bs[k - 1], cs.len());
        all_pairs(cs, bs, (k - 1) as nat) + pairs_for(os, news_upto(cs, bs[k - 1], cs.len()), os.len())
    }
}

/// Reported pairs and diagnostics after the first `k` of `ps`.
pub open spec fn naming_fold(g: Graph, root: Seq<char>, ps: Seq<(usize, usize, bool)>, k: nat) -> (Seq<DiagnosticView>, Seq<(usize, usize)>)
    decreases k,
{
    if k == 0 || k > ps.len() {
        (seq![], seq![])
    } else {
        let st = naming_fold(g, root, ps, (k - 1) as nat);
        let p = ps[k - 1];
        consider(g, root, st.0, st.1, p.0, p.1, if p.2 { Confidence::High } else { Confidence::Moderate }, false)
    }
}

/// The candidate pairs of the graph, in order.
pub open spec fn naming_pairs(g: Graph) -> Seq<(usize, usize, bool)> {
    let cs = cands_upto(g, g.syms().len());
    let bs = bases_upto(cs, cs.len());
    all_pairs(cs, bs, bs.len())
}

/// Naming-pair diagnostics.
pub open spec fn naming_diags(g: Graph, root: Seq<char>) -> Seq<DiagnosticView> {
    naming_fold(g, root, naming_pairs(g), naming_pairs(g).len()).0
}

/// The pair (`o`, `n`) is worth reporting: two different stored symbols in
/// one file or directory, each with a production caller.
pub open spec fn pair_qualifies(g: Graph, o: usize, n: usize) -> bool {
    &&& o < g.syms().len()
    &&& n < g.syms().len()
    &&& o != n
    &&& near(g.syms()[o as int].location.file@, g.syms()[n as int].location.file@)
    &&& prod_callers(g, o).len() > 0
    &&& prod_callers(g, n).len() > 0
}

/// The unordered pair {`o`, `n`}, smaller index first.
pub open spec fn pair_key(o: usize, n: usize) -> (usize, usize) {
    if o < n { (o, n) } else { (n, o) }
}

/// The confidence of a naming pair: High for an explicit old marker.
pub open spec fn naming_confidence(p: (usize, usize, bool)) -> Confidence {
    if p.2 { Confidence::High } else { Confidence::Moderate }
}

/// What holds of the reported diagnostics `ds` and keys `em` after the
/// first `k` pairs of `ps`.
pub open spec fn fold_ok(g: Graph, root: Seq<char>, ps: Seq<(usize, usize, bool)>, k: nat,
    ds: Seq<DiagnosticView>, em: Seq<(usize, usize)>, version: bool) -> bool {
    &&& ds.len() == em.len()
    &&& em.no_duplicates()
    &&& forall|t: int| #![trigger ds[t]] 0 <= t < ds.len() ==> exists|j: int| 0 <= j < k && {
            let p = #[trigger] ps[j];
            &&& pair_qualifies(g, p.0, p.1)
            &&& em[t] == pair_key(p.0, p.1)
            &&& ds[t] == pair_diag(g, root, p.0, p.1,
                    if version { Confidence::Moderate } else { naming_confidence(p) }, version)
        }
    &&& forall|j: int| 0 <= j < k && pair_qualifies(g, (#[trigger] ps[j]).0, ps[j].1)
            ==> em.contains(pair_key(ps[j].0, ps[j].1))
}

proof fn lemma_fold_step(g: Graph, root: Seq<char>, ps: Seq<(usize, usize, bool)>, k: nat,
    ds: Seq<DiagnosticView>, em: Seq<(usize, usize)>, version: bool)
    requires
        0 < k <= ps.len(),
        fold_ok(g, root, ps, (k - 1) as nat, ds, em, version),
    ensures
        ({
            let p = ps[k - 1];
            let c = if version { Confidence::Moderate } else { naming_confidence(p) };
            let r = consider(g, root, ds, em, p.0, p.1, c, version);
            fold_ok(g, root, ps, k, r.0, r.1, version)
        }),
{
    let p = ps[k - 1];
    let c = if version { Confidence::Moderate } else { naming_confidence(p) };
    let r = consider(g, root, ds, em, p.0, p.1, c, version);
    let key = pair_key(p.0, p.1);
    assert(key == (if p.0 < p.1 { (p.0, p.1) } else { (p.1, p.0) }));
    assert forall|t: int| #![trigger r.0[t]] 0 <= t < r.0.len() implies exists|j: int| 0 <= j < k && {
        let q = #[trigger] ps[j];
        &&& pair_qualifies(g, q.0, q.1)
        &&& r.1[t] == pair_key(q.0, q.1)
        &&& r.0[t] == pair_diag(g, root, q.0, q.1,
                if version { Confidence::Moderate } else { naming_confidence(q) }, version)
    } by {
        if t < ds.len() {
            let j = choose|j: int| 0 <= j < k - 1 && {
                let q = #[trigger] ps[j];
                &&& pair_qualifies(g, q.0, q.1)
                &&& em[t] == pair_key(q.0, q.1)
                &&& ds[t] == pair_diag(g, root, q.0, q.1,
                        if version { Confidence::Moderate } else { naming_confidence(q) }, version)
            };
            assert(r.0[t] == ds[t] && r.1[t] == em[t]);
            let _ = ps[j];
        } else {
            let _ = ps[k - 1];
        }
    }
    assert forall|j: int| 0 <= j < k && pair_qualifies(g, (#[trigger] ps[j]).0, ps[j].1)
        implies r.1.contains(pair_key(ps[j].0, ps[j].1)) by {
        if j < k - 1 {
            assert(em.contains(pair_key(ps[j].0, ps[j].1)));
            let q = choose|q: int| 0 <= q < em.len() && em[q] == pair_key(ps[j].0, ps[j].1);
            assert(r.1[q] == em[q]);
        } else if !em.contains(key) {
            assert(r.1[em.len() as int] == key);
        }
    }
    if r.1.len() > em.len() {
        assert forall|a: int, b: int| 0 <= a < r.1.len() && 0 <= b < r.1.len() && a != b
            implies r.1[a] != r.1[b] by {
            if a == em.len() as int {
                assert(r.1[b] == em[b]);
            } else if b == em.len() as int {
                assert(r.1[a] == em[a]);
            }
        }
    }
}

proof fn lemma_naming_fold(g: Graph, root: Seq<char>, ps: Seq<(usize, usize, bool)>, k: nat)
    requires
        k <= ps.len(),
    ensures
        fold_ok(g, root, ps, k, naming_fold(g, root, ps, k).0, naming_fold(g, root, ps, k).1, false),
    decreases k,
{
    if k > 0 {
        lemma_naming_fold(g, root, ps, (k - 1) as nat);
        let st = naming_fold(g, root, ps, (k - 1) as nat);
        lemma_fold_step(g, root, ps, k, st.0, st.1, false);
    }
}

/// Naming pairs are reported once per qualifying pair: every naming-pair
/// finding is the diagnostic of a candidate (old, new) pair of different
/// symbols in one file or directory, each with a production caller, with
/// High confidence when the old name's marker is explicit (`deprecated`,
/// `legacy`) and Moderate otherwise; no unordered pair of symbols is
/// reported twice; and every qualifying candidate pair is reported.
pub proof fn law_naming_pairs_reported_once(g: Graph, root: Seq<char>)
    ensures
        ({
            let ps = naming_pairs(g);
            let st = naming_fold(g, root, ps, ps.len());
            &&& st.0 == naming_diags(g, root)
            &&& fold_ok(g, root, ps, ps.len(), st.0, st.1, false)
        }),
{
    let ps = naming_pairs(g);
    lemma_naming_fold(g, root, ps, ps.len());
}

/// `c` is a naming candidate of the graph: a function or method with a
/// name, outside test files, whose name with one of the markers removed
/// leaves the non-empty base `c.base` (on the marker's side, explicit as
/// the marker is), or whose whole name is the base on the new side.
pub open spec fn naming_candidate(g: Graph, c: CandView) -> bool {
    &&& c.idx < g.syms().len()
    &&& pair_eligible(g, c.idx as int)
    &&& {
        ||| !c.old && c.explicit && c.base == g.syms()[c.idx as int].name@
        ||| exists|m: int| 0 <= m < 12 && {
                let mk = #[trigger] marker(m);
                &&& strip_marker(g.syms()[c.idx as int].name@, mk.0, mk.1) == Some(c.base)
                &&& c.base.len() > 0
                &&& c.old == mk.2
                &&& c.explicit == mk.3
            }
    }
}

proof fn lemma_marker_cands_ok(g: Graph, i: usize, k: nat)
    requires
        k <= 12,
    ensures
        forall|q: int| 0 <= q < marker_cands(g, i, k).len() ==> {
            let c = #[trigger] marker_cands(g, i, k)[q];
            &&& c.idx == i
            &&& exists|m: int| 0 <= m < k && {
                    let mk = #[trigger] marker(m);
                    &&& strip_marker(g.syms()[i as int].name@, mk.0, mk.1) == Some(c.base)
                    &&& c.base.len() > 0
                    &&& c.old == mk.2
                    &&& c.explicit == mk.3
                }
        },
    decreases k,
{
    if k > 0 {
        lemma_marker_cands_ok(g, i, (k - 1) as nat);
        let prev = marker_cands(g, i, (k - 1) as nat);
        let cur = marker_cands(g, i, k);
        assert forall|q: int| 0 <= q < cur.len() implies {
            let c = #[trigger] cur[q];
            &&& c.idx == i
            &&& exists|m: int| 0 <= m < k && {
                    let mk = #[trigger] marker(m);
                    &&& strip_marker(g.syms()[i as int].name@, mk.0, mk.1) == Some(c.base)
                    &&& c.base.len() > 0
                    &&& c.old == mk.2
                    &&& c.explicit == mk.3
                }
        } by {
            if q < prev.len() {
                assert(cur[q] == prev[q]);
                let c = prev[q];
                let m = choose|m: int| 0 <= m < k - 1 && {
                    let mk = #[trigger] marker(m);
                    &&& strip_marker(g.syms()[i as int].name@, mk.0, mk.1) == Some(c.base)
                    &&& c.base.len() > 0
                    &&& c.old == mk.2
                    &&& c.explicit == mk.3
                };
                let _ = marker(m);
            } else {
                let _ = marker(k - 1);
            }
        }
    }
}

proof fn lemma_cands_ok(g: Graph, n: nat)
    requires
        n <= g.syms().len(),
    ensures
        forall|q: int| 0 <= q < cands_upto(g, n).len() ==> naming_candidate(g, #[trigger] cands_upto(g, n)[q]),
    decreases n,
{
    if n > 0 {
        lemma_cands_ok(g, (n - 1) as nat);
        let i = (n - 1) as usize;
        let prev = cands_upto(g, (n - 1) as nat);
        let sc = sym_cands(g, i);
        let cur = cands_upto(g, n);
        lemma_marker_cands_ok(g, i, 12);
        let mc = marker_cands(g, i, 12);
        assert forall|q: int| 0 <= q < cur.len() implies naming_candidate(g, #[trigger] cur[q]) by {
            if q < prev.len() {
                assert(cur[q] == prev[q]);
            } else {
                let r = q - prev.len();
                assert(cur[q] == sc[r]);
                assert(pair_eligible(g, i as int));
                if r < mc.len() {
                    assert(sc[r] == mc[r]);
                    let c = mc[r];
                    let m = choose|m: int| 0 <= m < 12 && {
                        let mk = #[trigger] marker(m);
                        &&& strip_marker(g.syms()[i as int].name@, mk.0, mk.1) == Some(c.base)
                        &&& c.base.len() > 0
                        &&& c.old == mk.2
                        &&& c.explicit == mk.3
                    };
                    let _ = marker(m);
                }
            }
        }
    }
}

/// Some old-side candidate of `cs` has base `b`, index `x.0` and
/// explicitness `x.1`.
pub open spec fn old_cand_in(cs: Seq<CandView>, b: Seq<char>, x: (usize, bool)) -> bool {
    exists|r: int| 0 <= r < cs.len() && {
        let c = #[trigger] cs[r];
        c.base == b && c.old && c.idx == x.0 && c.explicit == x.1
    }
}

/// Some new-side candidate of `cs` has base `b` and index `n`.
pub open spec fn new_cand_in(cs: Seq<CandView>, b: Seq<char>, n: usize) -> bool {
    exists|r: int| 0 <= r < cs.len() && {
        let c = #[trigger] cs[r];
        c.base == b && !c.old && c.idx == n
    }
}

/// `p` pairs an old entry of `os` with an entry of `ns`.
pub open spec fn pair_of_parts(os: Seq<(usize, bool)>, ns: Seq<usize>, p: (usize, usize, bool)) -> bool {
    exists|a: int, e: int| #![trigger os[a], ns[e]] 0 <= a < os.len() && 0 <= e < ns.len() && p == (os[a].0, ns[e], os[a].1)
}

/// `p` joins an old-side and a new-side candidate of `cs` with one base.
pub open spec fn joins_cands(cs: Seq<CandView>, p: (usize, usize, bool)) -> bool {
    exists|r1: int, r2: int| #![trigger cs[r1], cs[r2]] 0 <= r1 < cs.len() && 0 <= r2 < cs.len() && {
        let (c1, c2) = (cs[r1], cs[r2]);
        &&& c1.old && !c2.old && c1.base == c2.base
        &&& p == (c1.idx, c2.idx, c1.explicit)
    }
}

proof fn lemma_olds_from(cs: Seq<CandView>, b: Seq<char>, k: nat)
    ensures
        forall|q: int| 0 <= q < olds_upto(cs, b, k).len() ==> old_cand_in(cs, b, #[trigger] olds_upto(cs, b, k)[q]),
        forall|q: int| 0 <= q < news_upto(cs, b, k).len() ==> new_cand_in(cs, b, #[trigger] news_upto(cs, b, k)[q]),
    decreases k,
{
    if k > 0 && k <= cs.len() {
        lemma_olds_from(cs, b, (k - 1) as nat);
        let po = olds_upto(cs, b, (k - 1) as nat);
        let pn = news_upto(cs, b, (k - 1) as nat);
        let co = olds_upto(cs, b, k);
        let cn = news_upto(cs, b, k);
        assert forall|q: int| 0 <= q < co.len() implies old_cand_in(cs, b, #[trigger] co[q]) by {
            if q < po.len() {
                assert(co[q] == po[q]);
            } else {
                let _ = cs[k - 1];
            }
        }
        assert forall|q: int| 0 <= q < cn.len() implies new_cand_in(cs, b, #[trigger] cn[q]) by {
            if q < pn.len() {
                assert(cn[q] == pn[q]);
            } else {
                let _ = cs[k - 1];
            }
        }
    }
}

proof fn lemma_pairs_for_from(os: Seq<(usize, bool)>, ns: Seq<usize>, k: nat)
    ensures
        forall|q: int| 0 <= q < pairs_for(os, ns, k).len() ==> pair_of_parts(os, ns, #[trigger] pairs_for(os, ns, k)[q]),
    decreases k,
{
    if k > 0 && k <= os.len() {
        lemma_pairs_for_from(os, ns, (k - 1) as nat);
        let prev = pairs_for(os, ns, (k - 1) as nat);
        let cur = pairs_for(os, ns, k);
        assert forall|q: int| 0 <= q < cur.len() implies pair_of_parts(os, ns, #[trigger] cur[q]) by {
            if q < prev.len() {
                assert(cur[q] == prev[q]);
            } else {
                let e = q - prev.len();
                assert(cur[q] == (os[k - 1].0, ns[e], os[k - 1].1));
                let _ = os[k - 1];
                let _ = ns[e];
            }
        }
    }
}

proof fn lemma_all_pairs_from(cs: Seq<CandView>, bs: Seq<Seq<char>>, k: nat)
    ensures
        forall|q: int| 0 <= q < all_pairs(cs, bs, k).len() ==> joins_cands(cs, #[trigger] all_pairs(cs, bs, k)[q]),
    decreases k,
{
    if k > 0 && k <= bs.len() {
        lemma_all_pairs_from(cs, bs, (k - 1) as nat);
        let b = bs[k - 1];
        let os = olds_upto(cs, b, cs.len());
        let ns = news_upto(cs, b, cs.len());
        lemma_olds_from(cs, b, cs.len());
        lemma_pairs_for_from(os, ns, os.len());
        let prev = all_pairs(cs, bs, (k - 1) as nat);
        let pf = pairs_for(os, ns, os.len());
        let cur = all_pairs(cs, bs, k);
        assert forall|q: int| 0 <= q < cur.len() implies joins_cands(cs, #[trigger] cur[q]) by {
            if q < prev.len() {
                assert(cur[q] == prev[q]);
            } else {
                let t = q - prev.len();
                assert(cur[q] == pf[t]);
                assert(pair_of_parts(os, ns, pf[t]));
                let (a, e) = choose|a: int, e: int| #![trigger os[a], ns[e]]
                    0 <= a < os.len() && 0 <= e < ns.len() && pf[t] == (os[a].0, ns[e], os[a].1);
                assert(old_cand_in(cs, b, os[a]));
                assert(new_cand_in(cs, b, ns[e]));
                let r1 = choose|r: int| 0 <= r < cs.len() && {
                    let c = #[trigger] cs[r];
                    c.base == b && c.old && c.idx == os[a].0 && c.explicit == os[a].1
                };
                let r2 = choose|r: int| 0 <= r < cs.len() && {
                    let c = #[trigger] cs[r];
                    c.base == b && !c.old && c.idx == ns[e]
                };
                assert(cur[q] == (cs[r1].idx, cs[r2].idx, cs[r1].explicit));
            }
        }
    }
}

/// `p` joins an old-side and a new-side naming candidate of the graph with
/// one base, `p.2` being the old side's explicitness.
pub open spec fn joins_naming_candidates(g: Graph, p: (usize, usize, bool)) -> bool {
    exists|c1: CandView, c2: CandView| #![trigger naming_candidate(g, c1), naming_candidate(g, c2)] {
        &&& naming_candidate(g, c1)
        &&& naming_candidate(g, c2)
        &&& c1.old && !c2.old && c1.base == c2.base
        &&& p == (c1.idx, c2.idx, c1.explicit)
    }
}

/// Every candidate naming pair (old, new, explicit) joins an old-side
/// candidate and a new-side candidate with the same base: the old symbol's
/// name with an old marker (`deprecated`, `legacy`, `old`, `sync`) removed,
/// and the new symbol's name with a new marker (`new`, `async`) removed or
/// its whole name; both are named functions or methods outside test files,
/// and `explicit` says whether the old marker is explicit.
pub proof fn law_naming_pairs_join_candidates(g: Graph)
    ensures
        forall|q: int| 0 <= q < naming_pairs(g).len() ==> joins_naming_candidates(g, #[trigger] naming_pairs(g)[q]),
{
    let cs = cands_upto(g, g.syms().len());
    let bs = bases_upto(cs, cs.len());
    lemma_cands_ok(g, g.syms().len());
    lemma_all_pairs_from(cs, bs, bs.len());
    let ps = naming_pairs(g);
    assert forall|q: int| 0 <= q < ps.len() implies joins_naming_candidates(g, #[trigger] ps[q]) by {
        assert(joins_cands(cs, ps[q]));
        let (r1, r2) = choose|r1: int, r2: int| #![trigger cs[r1], cs[r2]]
            0 <= r1 < cs.len() && 0 <= r2 < cs.len() && {
            let (c1, c2) = (cs[r1], cs[r2]);
            &&& c1.old && !c2.old && c1.base == c2.base
            &&& ps[q] == (c1.idx, c2.idx, c1.explicit)
        };
        assert(naming_candidate(g, cs[r1]));
        assert(naming_candidate(g, cs[r2]));
    }
}

fn is_pair_eligible(s: &Symbol) -> (r: bool)
    ensures
        r == ((s.kind == SymbolKind::Function || s.kind == SymbolKind::Method) && s.name@.len() > 0
            && !test_path(s.location.file@)),
{
    (s.kind == SymbolKind::Function || s.kind == SymbolKind::Method) && chars_of(s.name.as_str()).len() > 0
        && !is_test_path(s.location.file.as_str())
}

fn symbol_candidates(graph: &Graph, i: usize, out: &mut Vec<Candidate>)
    requires
        i < graph.syms().len(),
    ensures
        cand_views(final(out)@) == cand_views(old(out)@) + sym_cands(*graph, i),
{
    let ghost base = cand_views(out@);
    let s = graph.symbol_at(i);
    if !is_pair_eligible(s) {
        assert(base + sym_cands(*graph, i) =~= base);
        return;
    }
    let name = chars_of(s.name.as_str());
    let mut k: usize = 0;
    while k < 12
        invariant
            i < graph.syms().len(),
            name@ == graph.syms()[i as int].name@,
            k <= 12,
            cand_views(out@) == base + marker_cands(*graph, i, k as nat),
        decreases 12 - k,
    {
        let m = marker_at(k);
        match strip_marker_exec(&name, m.0, m.1) {
            Some(b) => {
                if b.len() > 0 {
                    let c = Candidate { idx: i, base: b, old: m.2, explicit: m.3 };
                    let ghost before = cand_views(out@);
                    out.push(c);
                    assert(cand_views(out@) =~= before.push(c@));
                }
            },
            None => {},
        }
        k = k + 1;
    }
    let c = Candidate { idx: i, base: name, old: false, explicit: true };
    let ghost before = cand_views(out@);
    out.push(c);
    assert(cand_views(out@) =~= before.push(c@));
}

fn collect_candidates(graph: &Graph) -> (r: Vec<Candidate>)
    ensures
        cand_views(r@) == cands_upto(*graph, graph.syms().len()),
        forall|k: int| 0 <= k < r@.len() ==> #[trigger] r@[k].idx < graph.syms().len(),
{
    let n = graph.symbol_count();
    let mut out: Vec<Candidate> = Vec::new();
    let mut i: usize = 0;
    while i < n
        invariant
            n == graph.syms().len(),
            i <= n,
            cand_views(out@) == cands_upto(*graph, i as nat),
            forall|k: int| 0 <= k < out@.len() ==> #[trigger] out@[k].idx < n,
        decreases n - i,
    {
        let ghost before = out@;
        symbol_candidates(graph, i, &mut out);
        proof {
            assert(cands_upto(*graph, (i + 1) as nat) == cands_upto(*graph, i as nat) + sym_cands(*graph, i));
            lemma_sym_cands_idx(*graph, i);
            assert(cand_views(out@).len() == out@.len());
            assert(cand_views(before).len() == before.len());
            assert forall|k: int| 0 <= k < out@.len() implies #[trigger] out@[k].idx < n by {
                assert(cand_views(out@)[k] == out@[k]@);
                if k >= before.len() {
                    assert(cand_views(out@)[k] == sym_cands(*graph, i)[k - before.len()]);
                } else {
                    assert(cand_views(out@)[k] == cand_views(before)[k]);
                    assert(cand_views(before)[k] == before[k]@);
                }
            }
        }
        i = i + 1;
    }
    out
}

proof fn lemma_marker_cands_idx(g: Graph, i: usize, k: nat)
    ensures
        forall|q: int| 0 <= q < marker_cands(g, i, k).len() ==> (#[trigger] marker_cands(g, i, k)[q]).idx == i,
    decreases k,
{
    if k > 0 {
        lemma_marker_cands_idx(g, i, (k - 1) as nat);
        let prev = marker_cands(g, i, (k - 1) as nat);
        let cur = marker_cands(g, i, k);
        assert forall|q: int| 0 <= q < cur.len() implies (#[trigger] cur[q]).idx == i by {
            if q < prev.len() {
                assert(cur[q] == prev[q]);
            }
        }
    }
}

proof fn lemma_sym_cands_idx(g: Graph, i: usize)
    ensures
        forall|q: int| 0 <= q < sym_cands(g, i).len() ==> (#[trigger] sym_cands(g, i)[q]).idx == i,
{
    lemma_marker_cands_idx(g, i, 12);
}

fn collect_bases(cs: &Vec<Candidate>) -> (r: Vec<Vec<char>>)
    ensures
        char_views(r@) == bases_upto(cand_views(cs@), cs@.len()),
{
    let mut out: Vec<Vec<char>> = Vec::new();
    let mut k: usize = 0;
    while k < cs.len()
        invariant
            k <= cs@.len(),
            char_views(out@) == bases_upto(cand_views(cs@), k as nat),
        decreases cs@.len() - k,
    {
        let b = &cs[k].base;
        if !contains_chars(&out, b) {
            let c = slice_chars(b, 0, b.len());
            assert(c@ =~= b@);
            let ghost before = char_views(out@);
            out.push(c);
            assert(char_views(out@) =~= before.push(c@));
        }
        k = k + 1;
    }
    out
}

fn sides(cs: &Vec<Candidate>, b: &Vec<char>) -> (r: (Vec<(usize, bool)>, Vec<usize>))
    ensures
        r.0@ == olds_upto(cand_views(cs@), b@, cs@.len()),
        r.1@ == news_upto(cand_views(cs@), b@, cs@.len()),
{
    let mut os: Vec<(usize, bool)> = Vec::new();
    let mut ns: Vec<usize> = Vec::new();
    let mut k: usize = 0;
    while k < cs.len()
        invariant
            k <= cs@.len(),
            os@ == olds_upto(cand_views(cs@), b@, k as nat),
            ns@ == news_upto(cand_views(cs@), b@, k as nat),
        decreases cs@.len() - k,
    {
        let c = &cs[k];
        if chars_eq(&c.base, b) {
            if c.old {
                os.push((c.idx, c.explicit));
            } else {
                ns.push(c.idx);
            }
        }
        k = k + 1;
    }
    (os, ns)
}

fn push_pairs(out: &mut Vec<(usize, usize, bool)>, os: &Vec<(usize, bool)>, ns: &Vec<usize>)
    ensures
        final(out)@ == old(out)@ + pairs_for(os@, ns@, os@.len()),
{
    let ghost base = out@;
    let mut k: usize = 0;
    while k < os.len()
        invariant
            k <= os@.len(),
            out@ == base + pairs_for(os@, ns@, k as nat),
        decreases os@.len() - k,
    {
        let o = os[k];
        let ghost mid = out@;
        let mut m: usize = 0;
        while m < ns.len()
            invariant
                m <= ns@.len(),
                k < os@.len(),
                o == os@[k as int],
                out@ == mid + ns@.take(m as int).map_values(|n: usize| (o.0, n, o.1)),
            decreases ns@.len() - m,
        {
            out.push((o.0, ns[m], o.1));
            assert(ns@.take(m + 1) =~= ns@.take(m as int).push(ns@[m as int]));
            assert(out@ =~= mid + ns@.take(m + 1).map_values(|n: usize| (o.0, n, o.1)));
            m = m + 1;
        }
        assert(ns@.take(ns@.len() as int) =~= ns@);
        assert(out@ =~= base + pairs_for(os@, ns@, (k + 1) as nat));
        k = k + 1;
    }
}

proof fn lemma_pairs_for_bounds(os: Seq<(usize, bool)>, ns: Seq<usize>, k: nat, n: usize)
    requires
        forall|q: int| 0 <= q < os.len() ==> (#[trigger] os[q]).0 < n,
        forall|q: int| 0 <= q < ns.len() ==> #[trigger] ns[q] < n,
    ensures
        forall|q: int| 0 <= q < pairs_for(os, ns, k).len() ==> (#[trigger] pairs_for(os, ns, k)[q]).0 < n && pairs_for(os, ns, k)[q].1 < n,
    decreases k,
{
    if k > 0 && k <= os.len() {
        lemma_pairs_for_bounds(os, ns, (k - 1) as nat, n);
        let prev = pairs_for(os, ns, (k - 1) as nat);
        let cur = pairs_for(os, ns, k);
        assert forall|q: int| 0 <= q < cur.len() implies (#[trigger] cur[q]).0 < n && cur[q].1 < n by {
            if q < prev.len() {
                assert(cur[q] == prev[q]);
            } else {
                assert(cur[q] == (os[k - 1].0, ns[q - prev.len()], os[k - 1].1));
            }
        }
    }
}

proof fn lemma_sides_bounds(cs: Seq<CandView>, b: Seq<char>, k: nat, n: usize)
    requires
        forall|q: int| 0 <= q < cs.len() ==> (#[trigger] cs[q]).idx < n,
    ensures
        forall|q: int| 0 <= q < olds_upto(cs, b, k).len() ==> (#[trigger] olds_upto(cs, b, k)[q]).0 < n,
        forall|q: int| 0 <= q < news_upto(cs, b, k).len() ==> #[trigger] news_upto(cs, b, k)[q] < n,
    decreases k,
{
    if k > 0 && k <= cs.len() {
        lemma_sides_bounds(cs, b, (k - 1) as nat, n);
        let po = olds_upto(cs, b, (k - 1) as nat);
        let pn = news_upto(cs, b, (k - 1) as nat);
        assert forall|q: int| 0 <= q < olds_upto(cs, b, k).len() implies (#[trigger] olds_upto(cs, b, k)[q]).0 < n by {
            if q < po.len() {
                assert(olds_upto(cs, b, k)[q] == po[q]);
            }
        }
        assert forall|q: int| 0 <= q < news_upto(cs, b, k).len() implies #[trigger] news_upto(cs, b, k)[q] < n by {
            if q < pn.len() {
                assert(news_upto(cs, b, k)[q] == pn[q]);
            }
        }
    }
}

fn collect_naming_pairs(graph: &Graph) -> (r: Vec<(usize, usize, bool)>)
    ensures
        r@ == naming_pairs(*graph),
        forall|q: int| 0 <= q < r@.len() ==> (#[trigger] r@[q]).0 < graph.syms().len() && r@[q].1 < graph.syms().len(),
{
    let cs = collect_candidates(graph);
    let bs = collect_bases(&cs);
    let ghost cv = cand_views(cs@);
    let ghost n = graph.syms().len() as usize;
    proof {
        graph.lemma_len_bounds();
        assert forall|q: int| 0 <= q < cv.len() implies (#[trigger] cv[q]).idx < n by {
            assert(cv[q] == cs@[q]@);
        }
    }
    let mut out: Vec<(usize, usize, bool)> = Vec::new();
    let mut k: usize = 0;
    while k < bs.len()
        invariant
            k <= bs@.len(),
            cv == cand_views(cs@),
            cv == cands_upto(*graph, graph.syms().len()),
            n == graph.syms().len(),
            forall|q: int| 0 <= q < cv.len() ==> (#[trigger] cv[q]).idx < n,
            char_views(bs@) == bases_upto(cv, cv.len()),
            out@ == all_pairs(cv, char_views(bs@), k as nat),
            forall|q: int| 0 <= q < out@.len() ==> (#[trigger] out@[q]).0 < n && out@[q].1 < n,
        decreases bs@.len() - k,
    {
        let (os, ns) = sides(&cs, &bs[k]);
        proof {
            assert(bs@[k as int]@ == char_views(bs@)[k as int]);
            lemma_sides_bounds(cv, bs@[k as int]@, cv.len(), n);
            lemma_pairs_for_bounds(os@, ns@, os@.len(), n);
        }
        let ghost before = out@;
        push_pairs(&mut out, &os, &ns);
        proof {
            assert forall|q: int| 0 <= q < out@.len() implies (#[trigger] out@[q]).0 < n && out@[q].1 < n by {
                if q >= before.len() {
                    assert(out@[q] == pairs_for(os@, ns@, os@.len())[q - before.len()]);
                } else {
                    assert(out@[q] == before[q]);
                }
            }
        }
        k = k + 1;
    }
    out
}

fn detect_naming_pairs(graph: &Graph, project_root: &str) -> (r: Vec<Diagnostic>)
    ensures
        diag_views(r@) == naming_diags(*graph, project_root@),
{
    let ps = collect_naming_pairs(graph);
    let mut out: Vec<Diagnostic> = Vec::new();
    let mut em: Vec<(usize, usize)> = Vec::new();
    let mut k: usize = 0;
    while k < ps.len()
        invariant
            k <= ps@.len(),
            ps@ == naming_pairs(*graph),
            forall|q: int| 0 <= q < ps@.len() ==> (#[trigger] ps@[q]).0 < graph.syms().len() && ps@[q].1 < graph.syms().len(),
            (diag_views(out@), em@) == naming_fold(*graph, project_root@, ps@, k as nat),
        decreases ps@.len() - k,
    {
        let p = ps[k];
        assert(p == ps@[k as int]);
        let conf = if p.2 { Confidence::High } else { Confidence::Moderate };
        consider_pair(graph, project_root, &mut out, &mut em, p.0, p.1, conf, false);
        k = k + 1;
    }
    out
}

// ---------------------------------------------------------------------------
// Signal 2: version pairs
// ---------------------------------------------------------------------------

/// The last position before `k` where `p` occurs in `s`, or -1.
pub open spec fn rfind_upto(s: Seq<char>, p: Seq<char>, k: nat) -> int
    decreases k,
{
    if k == 0 {
        -1
    } else if occurs_at(s, p, k - 1) {
        k - 1
    } else {
        rfind_upto(s, p, (k - 1) as nat)
    }
}

/// The last position where `p` occurs in `s`, or -1.
pub open spec fn last_occurrence(s: Seq<char>, p: Seq<char>) -> int {
    rfind_upto(s, p, s.len() + 1)
}

fn rfind_seq(s: &Vec<char>, p: &Vec<char>) -> (r: Option<usize>)
    ensures
        r matches Some(i) ==> i == last_occurrence(s@, p@) && i + p@.len() <= s@.len(),
        r is None ==> last_occurrence(s@, p@) == -1,
{
    let mut k: usize = s.len();
    loop
        invariant
            k <= s@.len(),
            last_occurrence(s@, p@) == rfind_upto(s@, p@, (k + 1) as nat),
        decreases k,
    {
        if matches_at(s, p, k) {
            return Some(k);
        }
        if k == 0 {
            assert(rfind_upto(s@, p@, 0) == -1);
            return None;
        }
        k = k - 1;
    }
}

/// The decimal value of a digit string.
pub open spec fn digits_value(d: Seq<char>) -> nat
    decreases d.len(),
{
    if d.len() == 0 {
        0
    } else {
        digits_value(d.drop_last()) * 10 + ((d.last() as int) - ('0' as int)) as nat
    }
}

/// Every character is an ASCII digit.
pub open spec fn all_digits(d: Seq<char>) -> bool {
    forall|i: int| 0 <= i < d.len() ==> '0' <= #[trigger] d[i] <= '9'
}

/// What `str::parse::<u32>` gives: an optional `+`, then one or more
/// digits whose value fits in a `u32`.
pub open spec fn parse_u32(t: Seq<char>) -> Option<nat> {
    let d = if t.len() > 0 && t[0] == '+' { t.drop_first() } else { t };
    if d.len() == 0 || !all_digits(d) || digits_value(d) > u32::MAX {
        None
    } else {
        Some(digits_value(d))
    }
}

fn parse_u32_exec(t: &Vec<char>) -> (r: Option<u32>)
    ensures
        r matches Some(v) ==> parse_u32(t@) == Some(v as nat),
        r is None ==> parse_u32(t@) is None,
{
    let start: usize = if t.len() > 0 && t[0] == '+' { 1 } else { 0 };
    let d = slice_chars(t, start, t.len());
    assert(d@ =~= if t@.len() > 0 && t@[0] == '+' { t@.drop_first() } else { t@ });
    if d.len() == 0 {
        return None;
    }
    let mut v: u64 = 0;
    let mut k: usize = 0;
    while k < d.len()
        invariant
            d@ == (if t@.len() > 0 && t@[0] == '+' { t@.drop_first() } else { t@ }),
            d@.len() > 0,
            k <= d@.len(),
            all_digits(d@.take(k as int)),
            v == digits_value(d@.take(k as int)),
            v <= u32::MAX,
        decreases d@.len() - k,
    {
        let c = d[k];
        assert(d@.take(k + 1).drop_last() =~= d@.take(k as int));
        if c < '0' || c > '9' {
            assert(!all_digits(d@)) by {
                assert(d@[k as int] == c);
            }
            return None;
        }
        let dv = (c as u64) - ('0' as u64);
        let nv = v * 10 + dv;
        assert(nv == digits_value(d@.take(k + 1)));
        if nv > 4294967295 {
            proof {
                lemma_value_prefix_bound(d@, (k + 1) as nat);
            }
            return None;
        }
        v = nv;
        k = k + 1;
    }
    assert(d@.take(d@.len() as int) =~= d@);
    Some(v as u32)
}

/// A prefix's value never exceeds the whole's.
proof fn lemma_value_prefix_bound(d: Seq<char>, k: nat)
    requires
        k <= d.len(),
    ensures
        all_digits(d) ==> digits_value(d.take(k as int)) <= digits_value(d),
    decreases d.len() - k,
{
    if k < d.len() {
        lemma_value_prefix_bound(d, k + 1);
        assert(d.take(k + 1 as int).drop_last() =~= d.take(k as int));
    } else {
        assert(d.take(k as int) =~= d);
    }
}

/// A versioned name split into its base and version: the text before the
/// last `_v` (or, failing any `_v`, the last `_V`) and the number after it.
pub open spec fn strip_version(name: Seq<char>) -> Option<(Seq<char>, nat)> {
    let i = if last_occurrence(name, "_v"@) >= 0 { last_occurrence(name, "_v"@) } else { last_occurrence(name, "_V"@) };
    if i < 0 {
        None
    } else {
        match parse_u32(name.skip(i + 2)) {
            Some(v) => Some((name.take(i), v)),
            None => None,
        }
    }
}

/// Try to strip a version suffix like `_v1` or `_V2`, giving the base name
/// and the version number.
pub fn strip_version_suffix(name: &str) -> (r: Option<(String, u32)>)
    ensures
        r matches Some(p) ==> strip_version(name@) == Some((p.0@, p.1 as nat)),
        r is None ==> strip_version(name@) is None,
{
    let n = chars_of(name);
    proof {
        reveal_strlit("_v");
        reveal_strlit("_V");
    }
    let lower = chars_of("_v");
    let upper = chars_of("_V");
    assert(lower@.len() == 2 && upper@.len() == 2);
    let found = match rfind_seq(&n, &lower) {
        Some(i) => Some(i),
        None => rfind_seq(&n, &upper),
    };
    assert(found matches Some(i) ==> i + 2 <= n@.len());
    let nlen = n.len();
    match found {
        Some(i) => {
            let after = slice_chars(&n, i + 2, n.len());
            assert(after@ =~= n@.skip(i + 2));
            match parse_u32_exec(&after) {
                Some(v) => {
                    let b = slice_chars(&n, 0, i);
                    assert(b@ =~= n@.take(i as int));
                    Some((string_of(&b), v))
                },
                None => None,
            }
        },
        None => None,
    }
}

proof fn lemma_dec_digits(n: nat)
    ensures
        dec(n).len() > 0,
        all_digits(dec(n)),
        digits_value(dec(n)) == n,
    decreases n,
{
    let d = n % 10;
    assert((digit_char(d) as int) - ('0' as int) == d && '0' <= digit_char(d) <= '9') by {
        assert(d < 10);
    }
    assert(n == (n / 10) * 10 + d) by (nonlinear_arith)
        requires
            d == n % 10,
    ;
    if n < 10 {
        assert(d == n) by (nonlinear_arith)
            requires
                n < 10,
                d == n % 10,
        ;
        assert(dec(n).drop_last() =~= Seq::<char>::empty());
        assert(digits_value(Seq::<char>::empty()) == 0);
        assert(dec(n).last() == digit_char(d));
        assert(digits_value(dec(n)) == digits_value(dec(n).drop_last()) * 10 + d);
    } else {
        lemma_dec_digits(n / 10);
        let s = dec(n);
        assert(s == dec(n / 10).push(digit_char(d)));
        assert(s.drop_last() =~= dec(n / 10));
        assert(s.last() == digit_char(d));
        assert(digits_value(s) == (n / 10) * 10 + d);
        assert forall|i: int| 0 <= i < s.len() implies '0' <= #[trigger] s[i] <= '9' by {
            if i < s.len() - 1 {
                assert(s[i] == dec(n / 10)[i]);
            }
        }
    }
}

proof fn lemma_rfind_found(s: Seq<char>, p: Seq<char>, m: int, k: nat)
    requires
        0 <= m < k,
        occurs_at(s, p, m),
        forall|j: int| m < j < k ==> !#[trigger] occurs_at(s, p, j),
    ensures
        rfind_upto(s, p, k) == m,
    decreases k,
{
    if k - 1 > m {
        lemma_rfind_found(s, p, m, (k - 1) as nat);
    }
}

proof fn lemma_rfind_absent(s: Seq<char>, p: Seq<char>, k: nat)
    requires
        forall|j: int| 0 <= j < k ==> !#[trigger] occurs_at(s, p, j),
    ensures
        rfind_upto(s, p, k) == -1,
    decreases k,
{
    if k > 0 {
        lemma_rfind_absent(s, p, (k - 1) as nat);
    }
}

/// Stripping a version suffix undoes writing one: for any base and any
/// version that fits in a `u32`, the name `base_v<version>` splits back into
/// that base and version; and a name in which neither `_v` nor `_V` occurs
/// has no version suffix.
pub proof fn law_version_suffix_round_trip(base: Seq<char>, version: nat, name: Seq<char>)
    requires
        version <= u32::MAX,
    ensures
        strip_version(base + "_v"@ + dec(version)) == Some((base, version)),
        (forall|k: int| !#[trigger] occurs_at(name, "_v"@, k))
            && (forall|k: int| !#[trigger] occurs_at(name, "_V"@, k)) ==> strip_version(name) is None,
{
    reveal_strlit("_v");
    reveal_strlit("_V");
    lemma_dec_digits(version);
    let d = dec(version);
    let s = base + "_v"@ + d;
    let m = base.len() as int;
    assert(s.subrange(m, m + 2) =~= "_v"@);
    assert(occurs_at(s, "_v"@, m));
    assert forall|j: int| m < j < s.len() + 1 implies !#[trigger] occurs_at(s, "_v"@, j) by {
        if occurs_at(s, "_v"@, j) {
            assert(s.subrange(j, j + 2)[0] == s[j]);
            assert(s[j] == '_');
            if j == m + 1 {
                assert(s[j] == 'v');
            } else {
                assert(s[j] == d[j - m - 2]);
                assert('0' <= d[j - m - 2] <= '9');
            }
        }
    }
    lemma_rfind_found(s, "_v"@, m, (s.len() + 1) as nat);
    assert(last_occurrence(s, "_v"@) == m);
    assert(s.skip(m + 2) =~= d);
    assert(s.take(m) =~= base);
    assert(d[0] != '+') by {
        assert('0' <= d[0] <= '9');
    }
    assert(parse_u32(d) == Some(version));
    if (forall|k: int| !#[trigger] occurs_at(name, "_v"@, k))
        && (forall|k: int| !#[trigger] occurs_at(name, "_V"@, k)) {
        lemma_rfind_absent(name, "_v"@, (name.len() + 1) as nat);
        lemma_rfind_absent(name, "_V"@, (name.len() + 1) as nat);
    }
}

/// A versioned symbol: index, base name and version.
pub open spec fn ventries_upto(g: Graph, n: nat) -> Seq<(usize, Seq<char>, nat)>
    decreases n,
{
    if n == 0 {
        seq![]
    } else {
        let prev = ventries_upto(g, (n - 1) as nat);
        let i = (n - 1) as usize;
        if pair_eligible(g, i as int) {
            match strip_version(g.syms()[i as int].name@) {
                Some(bv) => prev.push((i, bv.0, bv.1)),
                None => prev,
            }
        } else {
            prev
        }
    }
}

/// Distinct base names of the first `k` versioned symbols, first appearance.
pub open spec fn vbases_upto(es: Seq<(usize, Seq<char>, nat)>, k: nat) -> Seq<Seq<char>>
    decreases k,
{
    if k == 0 || k > es.len() {
        seq![]
    } else {
        let prev = vbases_upto(es, (k - 1) as nat);
        if prev.contains(es[k - 1].1) { prev } else { prev.push(es[k - 1].1) }
    }
}

/// The versioned symbols with base `b` among the first `k`: (index, version).
pub open spec fn vmembers_upto(es: Seq<(usize, Seq<char>, nat)>, b: Seq<char>, k: nat) -> Seq<(usize, nat)>
    decreases k,
{
    if k == 0 || k > es.len() {
        seq![]
    } else if es[k - 1].1 == b {
        vmembers_upto(es, b, (k - 1) as nat).push((es[k - 1].0, es[k - 1].2))
    } else {
        vmembers_upto(es, b, (k - 1) as nat)
    }
}

/// `e` inserted into `s` after every entry whose version is at most its own.
pub open spec fn insert_by_version(s: Seq<(usize, nat)>, e: (usize, nat)) -> Seq<(usize, nat)>
    decreases s.len(),
{
    if s.len() == 0 || s.last().1 <= e.1 {
        s.push(e)
    } else {
        insert_by_version(s.drop_last(), e).push(s.last())
    }
}

/// The first `k` entries sorted by version, stably.
pub open spec fn sort_by_version(s: Seq<(usize, nat)>, k: nat) -> Seq<(usize, nat)>
    decreases k,
{
    if k == 0 || k > s.len() {
        seq![]
    } else {
        insert_by_version(sort_by_version(s, (k - 1) as nat), s[k - 1])
    }
}

/// Every pair (earlier, later) of `s` whose earlier entry is among the
/// first `k`, earlier-major.
pub open spec fn later_pairs(s: Seq<(usize, nat)>, k: nat) -> Seq<(usize, usize, bool)>
    decreases k,
{
    if k == 0 || k > s.len() {
        seq![]
    } else {
        later_pairs(s, (k - 1) as nat) + s.skip(k as int).map_values(|x: (usize, nat)| (s[k - 1].0, x.0, false))
    }
}

/// The version pairs of the first `k` base names.
pub open spec fn vpairs_upto(es: Seq<(usize, Seq<char>, nat)>, bs: Seq<Seq<char>>, k: nat) -> Seq<(usize, usize, bool)>
    decreases k,
{
    if k == 0 || k > bs.len() {
        seq![]
    } else {
        let ms = vmembers_upto(es, bs[k - 1], es.len());
        let sorted = sort_by_version(ms, ms.len());
        vpairs_upto(es, bs, (k - 1) as nat) + later_pairs(sorted, sorted.len())
    }
}

/// The version pairs of the graph, in order.
pub open spec fn version_pairs(g: Graph) -> Seq<(usize, usize, bool)> {
    let es = ventries_upto(g, g.syms().len());
    let bs = vbases_upto(es, es.len());
    vpairs_upto(es, bs, bs.len())
}

/// Reported pairs and diagnostics after the first `k` version pairs.
pub open spec fn version_fold(g: Graph, root: Seq<char>, ps: Seq<(usize, usize, bool)>, k: nat) -> (Seq<DiagnosticView>, Seq<(usize, usize)>)
    decreases k,
{
    if k == 0 || k > ps.len() {
        (seq![], seq![])
    } else {
        let st = version_fold(g, root, ps, (k - 1) as nat);
        let p = ps[k - 1];
        consider(g, root, st.0, st.1, p.0, p.1, Confidence::Moderate, true)
    }
}

/// Version-pair diagnostics.
pub open spec fn version_diags(g: Graph, root: Seq<char>) -> Seq<DiagnosticView> {
    version_fold(g, root, version_pairs(g), version_pairs(g).len()).0
}

proof fn lemma_version_fold(g: Graph, root: Seq<char>, ps: Seq<(usize, usize, bool)>, k: nat)
    requires
        k <= ps.len(),
    ensures
        fold_ok(g, root, ps, k, version_fold(g, root, ps, k).0, version_fold(g, root, ps, k).1, true),
    decreases k,
{
    if k > 0 {
        lemma_version_fold(g, root, ps, (k - 1) as nat);
        let st = version_fold(g, root, ps, (k - 1) as nat);
        lemma_fold_step(g, root, ps, k, st.0, st.1, true);
    }
}

/// Version pairs are reported once per qualifying pair: every version-pair
/// finding is the Moderate diagnostic of an (older, newer) pair of
/// different symbols in one file or directory, each with a production
/// caller; no unordered pair of symbols is reported twice; and every
/// qualifying version pair is reported.
pub proof fn law_version_pairs_reported_once(g: Graph, root: Seq<char>)
    ensures
        ({
            let ps = version_pairs(g);
            let st = version_fold(g, root, ps, ps.len());
            &&& st.0 == version_diags(g, root)
            &&& fold_ok(g, root, ps, ps.len(), st.0, st.1, true)
        }),
{
    let ps = version_pairs(g);
    lemma_version_fold(g, root, ps, ps.len());
}

/// A versioned symbol, as computed.
pub struct VersionEntry {
    pub idx: usize,
    pub base: Vec<char>,
    pub version: u32,
}

/// The views of versioned symbols.
pub open spec fn ventry_views(v: Seq<VersionEntry>) -> Seq<(usize, Seq<char>, nat)> {
    v.map_values(|e: VersionEntry| (e.idx, e.base@, e.version as nat))
}

fn collect_versioned(graph: &Graph) -> (r: Vec<VersionEntry>)
    ensures
        ventry_views(r@) == ventries_upto(*graph, graph.syms().len()),
{
    let n = graph.symbol_count();
    let mut out: Vec<VersionEntry> = Vec::new();
    let mut i: usize = 0;
    while i < n
        invariant
            n == graph.syms().len(),
            i <= n,
            ventry_views(out@) == ventries_upto(*graph, i as nat),
        decreases n - i,
    {
        let s = graph.symbol_at(i);
        if is_pair_eligible(s) {
            match strip_version_suffix(s.name.as_str()) {
                Some(p) => {
                    let e = VersionEntry { idx: i, base: chars_of(p.0.as_str()), version: p.1 };
                    let ghost before = ventry_views(out@);
                    out.push(e);
                    assert(ventry_views(out@) =~= before.push((i, p.0@, p.1 as nat)));
                },
                None => {},
            }
        }
        i = i + 1;
    }
    out
}

fn insert_sorted(s: &mut Vec<(usize, u32)>, e: (usize, u32))
    ensures
        final(s)@.map_values(|x: (usize, u32)| (x.0, x.1 as nat)) == insert_by_version(
            old(s)@.map_values(|x: (usize, u32)| (x.0, x.1 as nat)), (e.0, e.1 as nat)),
    decreases old(s)@.len(),
{
    let ghost sv = s@.map_values(|x: (usize, u32)| (x.0, x.1 as nat));
    if s.len() == 0 || s[s.len() - 1].1 <= e.1 {
        s.push(e);
        assert(s@.map_values(|x: (usize, u32)| (x.0, x.1 as nat)) =~= sv.push((e.0, e.1 as nat)));
    } else {
        let last = s.pop().unwrap();
        assert(s@.map_values(|x: (usize, u32)| (x.0, x.1 as nat)) =~= sv.drop_last());
        insert_sorted(s, e);
        let ghost mid = s@.map_values(|x: (usize, u32)| (x.0, x.1 as nat));
        s.push(last);
        assert(s@.map_values(|x: (usize, u32)| (x.0, x.1 as nat)) =~= mid.push((last.0, last.1 as nat)));
    }
}

fn version_group_pairs(es: &Vec<VersionEntry>, b: &Vec<char>, out: &mut Vec<(usize, usize, bool)>)
    ensures
        final(out)@ == old(out)@ + ({
            let ms = vmembers_upto(ventry_views(es@), b@, es@.len());
            let sorted = sort_by_version(ms, ms.len());
            later_pairs(sorted, sorted.len())
        }),
{
    let ghost ev = ventry_views(es@);
    let mut ms: Vec<(usize, u32)> = Vec::new();
    let mut k: usize = 0;
    while k < es.len()
        invariant
            k <= es@.len(),
            ev == ventry_views(es@),
            ms@.map_values(|x: (usize, u32)| (x.0, x.1 as nat)) == vmembers_upto(ev, b@, k as nat),
        decreases es@.len() - k,
    {
        if chars_eq(&es[k].base, b) {
            let ghost before = ms@.map_values(|x: (usize, u32)| (x.0, x.1 as nat));
            ms.push((es[k].idx, es[k].version));
            assert(ms@.map_values(|x: (usize, u32)| (x.0, x.1 as nat)) =~= before.push((es@[k as int].idx, es@[k as int].version as nat)));
        }
        k = k + 1;
    }
    let ghost msv = ms@.map_values(|x: (usize, u32)| (x.0, x.1 as nat));
    let mut sorted: Vec<(usize, u32)> = Vec::new();
    let mut k: usize = 0;
    while k < ms.len()
        invariant
            k <= ms@.len(),
            msv == ms@.map_values(|x: (usize, u32)| (x.0, x.1 as nat)),
            sorted@.map_values(|x: (usize, u32)| (x.0, x.1 as nat)) == sort_by_version(msv, k as nat),
        decreases ms@.len() - k,
    {
        insert_sorted(&mut sorted, ms[k]);
        k = k + 1;
    }
    let ghost sv = sorted@.map_values(|x: (usize, u32)| (x.0, x.1 as nat));
    let ghost base = out@;
    let mut i: usize = 0;
    while i < sorted.len()
        invariant
            i <= sorted@.len(),
            sv == sorted@.map_values(|x: (usize, u32)| (x.0, x.1 as nat)),
            out@ == base + later_pairs(sv, i as nat),
        decreases sorted@.len() - i,
    {
        let o = sorted[i].0;
        let ghost mid = out@;
        let mut j: usize = i + 1;
        while j < sorted.len()
            invariant
                i < sorted@.len(),
                i + 1 <= j <= sorted@.len(),
                o == sv[i as int].0,
                sv == sorted@.map_values(|x: (usize, u32)| (x.0, x.1 as nat)),
                out@ == mid + sv.subrange(i + 1, j as int).map_values(|x: (usize, nat)| (o, x.0, false)),
            decreases sorted@.len() - j,
        {
            out.push((o, sorted[j].0, false));
            assert(sv.subrange(i + 1, j + 1) =~= sv.subrange(i + 1, j as int).push(sv[j as int]));
            assert(out@ =~= mid + sv.subrange(i + 1, j + 1).map_values(|x: (usize, nat)| (o, x.0, false)));
            j = j + 1;
        }
        assert(sv.subrange(i + 1, sv.len() as int) =~= sv.skip(i + 1));
        assert(out@ =~= base + later_pairs(sv, (i + 1) as nat));
        i = i + 1;
    }
}

fn detect_version_pairs(graph: &Graph, project_root: &str) -> (r: Vec<Diagnostic>)
    ensures
        diag_views(r@) == version_diags(*graph, project_root@),
{
    let es = collect_versioned(graph);
    let ghost ev = ventry_views(es@);
    let mut bs: Vec<Vec<char>> = Vec::new();
    let mut k: usize = 0;
    while k < es.len()
        invariant
            k <= es@.len(),
            ev == ventry_views(es@),
            char_views(bs@) == vbases_upto(ev, k as nat),
        decreases es@.len() - k,
    {
        let b = &es[k].base;
        if !contains_chars(&bs, b) {
            let c = slice_chars(b, 0, b.len());
            assert(c@ =~= b@);
            let ghost before = char_views(bs@);
            bs.push(c);
            assert(char_views(bs@) =~= before.push(c@));
        }
        k = k + 1;
    }
    let mut ps: Vec<(usize, usize, bool)> = Vec::new();
    let mut k: usize = 0;
    while k < bs.len()
        invariant
            k <= bs@.len(),
            ev == ventry_views(es@),
            ev == ventries_upto(*graph, graph.syms().len()),
            char_views(bs@) == vbases_upto(ev, ev.len()),
            ps@ == vpairs_upto(ev, char_views(bs@), k as nat),
        decreases bs@.len() - k,
    {
        assert(bs@[k as int]@ == char_views(bs@)[k as int]);
        version_group_pairs(&es, &bs[k], &mut ps);
        k = k + 1;
    }
    let mut out: Vec<Diagnostic> = Vec::new();
    let mut em: Vec<(usize, usize)> = Vec::new();
    let mut k: usize = 0;
    while k < ps.len()
        invariant
            k <= ps@.len(),
            ps@ == version_pairs(*graph),
            (diag_views(out@), em@) == version_fold(*graph, project_root@, ps@, k as nat),
        decreases ps@.len() - k,
    {
        let p = ps[k];
        consider_pair(graph, project_root, &mut out, &mut em, p.0, p.1, Confidence::Moderate, true);
        k = k + 1;
    }
    out
}

// ---------------------------------------------------------------------------
// Signal 3: import coexistence
// ---------------------------------------------------------------------------

/// The module named by the first `from:` annotation among the first `k`.
pub open spec fn from_upto(anns: Seq<Seq<char>>, k: nat) -> Option<Seq<char>>
    decreases k,
{
    if k == 0 || k > anns.len() {
        None
    } else {
        match from_upto(anns, (k - 1) as nat) {
            Some(m) => Some(m),
            None => if starts_with(anns[k - 1], "from:"@) { Some(anns[k - 1].skip(5)) } else { None },
        }
    }
}

/// The module an import symbol comes from, by its first `from:` annotation.
pub open spec fn from_module(s: Symbol) -> Option<Seq<char>> {
    from_upto(crate::ir::annotation_views(s), s.annotations@.len())
}

/// Symbol `i` is an import outside test files with a known source module.
pub open spec fn import_entry(g: Graph, i: int) -> bool {
    let s = g.syms()[i];
    has_annotation(s, "import"@) && !test_path(s.location.file@) && from_module(s) is Some
}

/// The imports of `file` among the first `n` symbols: (index, module).
pub open spec fn file_imports(g: Graph, file: Seq<char>, n: nat) -> Seq<(usize, Seq<char>)>
    decreases n,
{
    if n == 0 {
        seq![]
    } else if import_entry(g, n - 1) && g.syms()[n - 1].location.file@ == file {
        file_imports(g, file, (n - 1) as nat).push(((n - 1) as usize, from_module(g.syms()[n - 1])->0))
    } else {
        file_imports(g, file, (n - 1) as nat)
    }
}

/// Distinct files of the first `n` import entries, first appearance.
pub open spec fn import_files_upto(g: Graph, n: nat) -> Seq<Seq<char>>
    decreases n,
{
    if n == 0 {
        seq![]
    } else {
        let prev = import_files_upto(g, (n - 1) as nat);
        let f = g.syms()[n - 1].location.file@;
        if import_entry(g, n - 1) && !prev.contains(f) { prev.push(f) } else { prev }
    }
}

/// `old` names the module `new` with an old marker (`deprecated_`,
/// `legacy_`, `old_` before it, or `_deprecated`, `_legacy`, `_old` after).
pub open spec fn migration_pair(old: Seq<char>, new: Seq<char>) -> bool {
    ||| strip_marker(old, "deprecated_"@, true) == Some(new)
    ||| strip_marker(old, "legacy_"@, true) == Some(new)
    ||| strip_marker(old, "old_"@, true) == Some(new)
    ||| strip_marker(old, "_deprecated"@, false) == Some(new)
    ||| strip_marker(old, "_legacy"@, false) == Some(new)
    ||| strip_marker(old, "_old"@, false) == Some(new)
}

/// The diagnostic for `file` importing from both `old` and `new`, the old
/// import on `line`.
pub open spec fn import_diag(file: Seq<char>, root: Seq<char>, old: Seq<char>, new: Seq<char>, line: u32) -> DiagnosticView {
    let location = loc(file, root, line);
    DiagnosticView {
        id: seq![],
        pattern: DiagnosticPattern::IncompleteMigration,
        severity: Severity::Warning,
        confidence: Confidence::Moderate,
        entity: old + ", "@ + new,
        message: "Incomplete migration: file imports from both '"@ + old + "' and '"@ + new + "' modules"@,
        evidence: seq![EvidenceView {
            observation: "File '"@ + relative_path(file, root) + "' imports from both old module '"@ + old
                + "' and new module '"@ + new + "'"@,
            location: Some(location),
            context: Some("both old and new modules imported in the same file"@),
        }],
        suggestion: "Complete migration: update imports from '"@ + old + "' to use '"@ + new + "' instead"@,
        location,
    }
}

/// Diagnostics for import `i` of `ims` against the first `k` imports.
pub open spec fn import_row(g: Graph, root: Seq<char>, file: Seq<char>, ims: Seq<(usize, Seq<char>)>, i: int, k: nat) -> Seq<DiagnosticView>
    decreases k,
{
    if k == 0 || k > ims.len() {
        seq![]
    } else {
        let prev = import_row(g, root, file, ims, i, (k - 1) as nat);
        let j = k - 1;
        if i != j && migration_pair(ims[i].1, ims[j].1) {
            prev.push(import_diag(file, root, ims[i].1, ims[j].1, g.syms()[ims[i].0 as int].location.line))
        } else {
            prev
        }
    }
}

/// Diagnostics for the first `k` imports of `ims` against all of them.
pub open spec fn import_rows(g: Graph, root: Seq<char>, file: Seq<char>, ims: Seq<(usize, Seq<char>)>, k: nat) -> Seq<DiagnosticView>
    decreases k,
{
    if k == 0 || k > ims.len() {
        seq![]
    } else {
        import_rows(g, root, file, ims, (k - 1) as nat) + import_row(g, root, file, ims, k - 1, ims.len())
    }
}

/// Import-coexistence diagnostics for the first `k` files of `fs`.
pub open spec fn import_diags_upto(g: Graph, root: Seq<char>, fs: Seq<Seq<char>>, k: nat) -> Seq<DiagnosticView>
    decreases k,
{
    if k == 0 || k > fs.len() {
        seq![]
    } else {
        let ims = file_imports(g, fs[k - 1], g.syms().len());
        import_diags_upto(g, root, fs, (k - 1) as nat) + import_rows(g, root, fs[k - 1], ims, ims.len())
    }
}

/// Import-coexistence diagnostics, files in order of first import.
pub open spec fn import_diags(g: Graph, root: Seq<char>) -> Seq<DiagnosticView> {
    let fs = import_files_upto(g, g.syms().len());
    import_diags_upto(g, root, fs, fs.len())
}

fn module_of(s: &Symbol) -> (r: Option<Vec<char>>)
    ensures
        r matches Some(m) ==> from_module(*s) == Some(m@),
        r is None ==> from_module(*s) is None,
{
    let pre = chars_of("from:");
    proof {
        reveal_strlit("from:");
    }
    let mut k: usize = 0;
    while k < s.annotations.len()
        invariant
            k <= s.annotations@.len(),
            pre@ == "from:"@,
            pre@.len() == 5,
            from_upto(crate::ir::annotation_views(*s), k as nat) is None,
        decreases s.annotations@.len() - k,
    {
        let a = chars_of(s.annotations[k].as_str());
        assert(crate::ir::annotation_views(*s)[k as int] == a@);
        if has_prefix(&a, &pre) {
            let m = slice_chars(&a, 5, a.len());
            assert(m@ =~= a@.skip(5));
            proof {
                assert(from_upto(crate::ir::annotation_views(*s), (k + 1) as nat) == Some(m@));
                lemma_from_upto_stable(crate::ir::annotation_views(*s), (k + 1) as nat, s.annotations@.len());
            }
            return Some(m);
        }
        k = k + 1;
    }
    None
}

proof fn lemma_from_upto_stable(anns: Seq<Seq<char>>, k: nat, n: nat)
    requires
        k <= n <= anns.len(),
        from_upto(anns, k) is Some,
    ensures
        from_upto(anns, n) == from_upto(anns, k),
    decreases n - k,
{
    if k < n {
        lemma_from_upto_stable(anns, k, (n - 1) as nat);
    }
}

fn is_migration_pair(old: &Vec<char>, new: &Vec<char>) -> (r: bool)
    ensures
        r == migration_pair(old@, new@),
{
    let a = strip_marker_exec(old, "deprecated_", true);
    let b = strip_marker_exec(old, "legacy_", true);
    let c = strip_marker_exec(old, "old_", true);
    let d = strip_marker_exec(old, "_deprecated", false);
    let e = strip_marker_exec(old, "_legacy", false);
    let f = strip_marker_exec(old, "_old", false);
    matches_opt(&a, new) || matches_opt(&b, new) || matches_opt(&c, new) || matches_opt(&d, new)
        || matches_opt(&e, new) || matches_opt(&f, new)
}

fn matches_opt(x: &Option<Vec<char>>, new: &Vec<char>) -> (r: bool)
    ensures
        r == (x matches Some(v) && v@ == new@),
{
    match x {
        Some(v) => chars_eq(v, new),
        None => false,
    }
}

fn import_build(file: &Vec<char>, project_root: &str, old: &Vec<char>, new: &Vec<char>, line: u32) -> (d: Diagnostic)
    ensures
        d@ == import_diag(file@, project_root@, old@, new@, line),
{
    let rel = relativize_path(string_of(file).as_str(), project_root);
    let mut location = rel.clone();
    push_str(&mut location, ":");
    push_usize(&mut location, line as usize);
    let mut entity = String::new();
    push_chars(&mut entity, old);
    push_str(&mut entity, ", ");
    push_chars(&mut entity, new);
    let mut message = String::new();
    push_str(&mut message, "Incomplete migration: file imports from both '");
    push_chars(&mut message, old);
    push_str(&mut message, "' and '");
    push_chars(&mut message, new);
    push_str(&mut message, "' modules");
    let mut observation = String::new();
    push_str(&mut observation, "File '");
    push_str(&mut observation, rel.as_str());
    push_str(&mut observation, "' imports from both old module '");
    push_chars(&mut observation, old);
    push_str(&mut observation, "' and new module '");
    push_chars(&mut observation, new);
    push_str(&mut observation, "'");
    let mut context = String::new();
    push_str(&mut context, "both old and new modules imported in the same file");
    let mut suggestion = String::new();
    push_str(&mut suggestion, "Complete migration: update imports from '");
    push_chars(&mut suggestion, old);
    push_str(&mut suggestion, "' to use '");
    push_chars(&mut suggestion, new);
    push_str(&mut suggestion, "' instead");
    let ev = Evidence { observation, location: Some(location.clone()), context: Some(context) };
    let d = Diagnostic {
        id: String::new(),
        pattern: DiagnosticPattern::IncompleteMigration,
        severity: Severity::Warning,
        confidence: Confidence::Moderate,
        entity,
        message,
        evidence: vec![ev],
        suggestion,
        location,
    };
    let ghost want = import_diag(file@, project_root@, old@, new@, line);
    assert(d@.evidence =~= seq![ev@]);
    assert(d@.location =~= want.location);
    assert(d@.entity =~= want.entity);
    assert(d@.message =~= want.message);
    assert(d@.suggestion =~= want.suggestion);
    assert(ev@.observation =~= want.evidence[0].observation);
    assert(ev@.context =~= want.evidence[0].context);
    d
}

fn is_import_entry(s: &Symbol) -> (r: Option<Vec<char>>)
    ensures
        r is Some <==> (has_annotation(*s, "import"@) && !test_path(s.location.file@) && from_module(*s) is Some),
        r matches Some(m) ==> from_module(*s) == Some(m@),
{
    if !s.has_annotation("import") || is_test_path(s.location.file.as_str()) {
        return None;
    }
    module_of(s)
}

fn detect_import_coexistence(graph: &Graph, project_root: &str) -> (r: Vec<Diagnostic>)
    ensures
        diag_views(r@) == import_diags(*graph, project_root@),
{
    let n = graph.symbol_count();
    let mut files: Vec<Vec<char>> = Vec::new();
    let mut i: usize = 0;
    while i < n
        invariant
            n == graph.syms().len(),
            i <= n,
            char_views(files@) == import_files_upto(*graph, i as nat),
        decreases n - i,
    {
        let s = graph.symbol_at(i);
        if is_import_entry(s).is_some() {
            let f = chars_of(s.location.file.as_str());
            if !contains_chars(&files, &f) {
                let ghost before = char_views(files@);
                files.push(f);
                assert(char_views(files@) =~= before.push(f@));
            }
        }
        i = i + 1;
    }
    let ghost fs = char_views(files@);
    let mut out: Vec<Diagnostic> = Vec::new();
    let mut k: usize = 0;
    while k < files.len()
        invariant
            n == graph.syms().len(),
            k <= files@.len(),
            fs == char_views(files@),
            fs == import_files_upto(*graph, n as nat),
            diag_views(out@) == import_diags_upto(*graph, project_root@, fs, k as nat),
        decreases files@.len() - k,
    {
        let file = &files[k];
        assert(file@ == fs[k as int]);
        let mut ims: Vec<(usize, Vec<char>)> = Vec::new();
        let mut i: usize = 0;
        while i < n
            invariant
                n == graph.syms().len(),
                i <= n,
                ims@.map_values(|x: (usize, Vec<char>)| (x.0, x.1@)) == file_imports(*graph, file@, i as nat),
                forall|q: int| 0 <= q < ims@.len() ==> (#[trigger] ims@[q]).0 < n,
            decreases n - i,
        {
            let s = graph.symbol_at(i);
            match is_import_entry(s) {
                Some(m) => {
                    if chars_eq(&chars_of(s.location.file.as_str()), file) {
                        let ghost before = ims@.map_values(|x: (usize, Vec<char>)| (x.0, x.1@));
                        let ghost mv = m@;
                        ims.push((i, m));
                        assert(ims@.map_values(|x: (usize, Vec<char>)| (x.0, x.1@)) =~= before.push((i, mv)));
                    }
                },
                None => {},
            }
            i = i + 1;
        }
        let ghost iv = ims@.map_values(|x: (usize, Vec<char>)| (x.0, x.1@));
        let ghost base = diag_views(out@);
        let mut a: usize = 0;
        while a < ims.len()
            invariant
                n == graph.syms().len(),
                a <= ims@.len(),
                iv == ims@.map_values(|x: (usize, Vec<char>)| (x.0, x.1@)),
                forall|q: int| 0 <= q < ims@.len() ==> (#[trigger] ims@[q]).0 < n,
                diag_views(out@) == base + import_rows(*graph, project_root@, file@, iv, a as nat),
            decreases ims@.len() - a,
        {
            let ghost mid = diag_views(out@);
            let mut b: usize = 0;
            while b < ims.len()
                invariant
                    n == graph.syms().len(),
                    a < ims@.len(),
                    b <= ims@.len(),
                    iv == ims@.map_values(|x: (usize, Vec<char>)| (x.0, x.1@)),
                    forall|q: int| 0 <= q < ims@.len() ==> (#[trigger] ims@[q]).0 < n,
                    diag_views(out@) == mid + import_row(*graph, project_root@, file@, iv, a as int, b as nat),
                decreases ims@.len() - b,
            {
                if a != b && is_migration_pair(&ims[a].1, &ims[b].1) {
                    let line = graph.symbol_at(ims[a].0).location.line;
                    push_diag(&mut out, import_build(file, project_root, &ims[a].1, &ims[b].1, line));
                    assert(diag_views(out@) =~= mid + import_row(*graph, project_root@, file@, iv, a as int, (b + 1) as nat));
                }
                b = b + 1;
            }
            assert(diag_views(out@) =~= base + import_rows(*graph, project_root@, file@, iv, (a + 1) as nat));
            a = a + 1;
        }
        assert(diag_views(out@) =~= import_diags_upto(*graph, project_root@, fs, (k + 1) as nat));
        k = k + 1;
    }
    out
}

/// All incomplete migrations: naming pairs, then version pairs, then
/// import coexistence.
pub open spec fn incomplete_migrations(g: Graph, root: Seq<char>) -> Seq<DiagnosticView> {
    naming_diags(g, root) + version_diags(g, root) + import_diags(g, root)
}

/// Detect incomplete migrations: old/new naming pairs and version pairs in
/// one file or directory with production callers on both sides (Warning;
/// High confidence for `deprecated`/`legacy` markers, else Moderate), and
/// files importing from both an old-named module and its new counterpart
/// (Warning, Moderate).
pub fn detect(graph: &Graph, project_root: &str) -> (r: Vec<Diagnostic>)
    ensures
        diag_views(r@) == incomplete_migrations(*graph, project_root@),
{
    let mut out = detect_naming_pairs(graph, project_root);
    let v = detect_version_pairs(graph, project_root);
    crate::patterns::common::append_diags(&mut out, v);
    let m = detect_import_coexistence(graph, project_root);
    crate::patterns::common::append_diags(&mut out, m);
    out
}

} // verus!
