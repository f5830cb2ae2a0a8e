//! Duplication detection — structural similarity in the call graph.
//!
//! Two functions of one file are reported when they have the same arity
//! and their callee sets (self-calls left out) overlap with a Jaccard
//! similarity of at least 0.7 over a union of at least three callees.
//! The similarity is the binary64 quotient of the two counts, compared with
//! and printed as binary64 values are (see `crate::double`).
//! Confidence is always Moderate.

use vstd::prelude::*;

use crate::diagnostic::{
    diag_views, Confidence, Diagnostic, DiagnosticPattern, DiagnosticView, Evidence, EvidenceView,
    Severity,
};
use crate::patterns::exclusion::{excluded, is_excluded_symbol, is_test_path, test_path};
use crate::extraction::{seq_lt, str_less};
use crate::graph::{call_targets, Graph};
use crate::ir::{Symbol, SymbolId, SymbolKind};
use crate::double::{
    below, below_exec, count_double, count_double_exec, fixed_0, fixed_0_exec, fixed_2, fixed_2_exec,
    hundred_times, hundred_times_exec, point_seven_units, quotient, quotient_exec,
};
use crate::patterns::common::{char_views, contains_chars, loc, push_diag, symbol_location};
use crate::text::{
    chars_eq, chars_of, dec, index_from, join, lemma_index_from, push_joined, push_str, push_u128,
    push_usize, slice_chars, starts_with, trim, trim_chars,
};

verus! {

broadcast use vstd::seq_lib::group_seq_properties;

// ---------------------------------------------------------------------------
// Arity
// ---------------------------------------------------------------------------

/// Number of comma-separated pieces of `s[k..]` that are not blank.
pub open spec fn pieces_from(s: Seq<char>, k: int) -> nat
    decreases s.len() - k,
{
    if k < 0 || k > s.len() {
        0
    } else {
        let i = index_from(s, ',', k);
        proof {
            lemma_index_from(s, ',', k);
        }
        if i < 0 || i < k {
            if trim(s.skip(k)).len() > 0 { 1 } else { 0 }
        } else {
            (if trim(s.subrange(k, i)).len() > 0 { 1nat } else { 0nat }) + pieces_from(s, i + 1)
        }
    }
}

/// The arity of a signature: the non-blank comma-separated pieces between
/// a leading `(` and the first `)`; 0 when there is no signature or it
/// does not have that shape.
pub open spec fn arity_of(sig: Option<Seq<char>>) -> nat {
    match sig {
        None => 0,
        Some(s) => {
            let t = trim(s);
            let c = index_from(t, ')', 0);
            if !starts_with(t, "("@) || c < 1 {
                0
            } else {
                let inner = trim(t.subrange(1, c));
                if inner.len() == 0 { 0 } else { pieces_from(inner, 0) }
            }
        },
    }
}

fn find_from(s: &Vec<char>, c: char, k: usize) -> (r: Option<usize>)
    requires
        k <= s@.len(),
    ensures
        r matches Some(i) ==> i == index_from(s@, c, k as int) && k <= i < s@.len(),
        r is None ==> index_from(s@, c, k as int) == -1,
{
    let mut j: usize = k;
    while j < s.len()
        invariant
            k <= j <= s@.len(),
            index_from(s@, c, k as int) == index_from(s@, c, j as int),
        decreases s@.len() - j,
    {
        if s[j] == c {
            return Some(j);
        }
        j = j + 1;
    }
    None
}

fn count_pieces(s: &Vec<char>) -> (r: usize)
    ensures
        r == pieces_from(s@, 0),
{
    let mut count: usize = 0;
    let mut k: usize = 0;
    let slen = s.len();
    loop
        invariant
            slen == s@.len(),
            k <= s@.len(),
            count <= k,
            pieces_from(s@, 0) == count + pieces_from(s@, k as int),
        decreases s@.len() - k,
    {
        match find_from(s, ',', k) {
            Some(i) => {
                let piece = slice_chars(s, k, i);
                if trim_chars(&piece).len() > 0 {
                    count = count + 1;
                }
                k = i + 1;
            },
            None => {
                let rest = slice_chars(s, k, s.len());
                assert(rest@ =~= s@.skip(k as int));
                if trim_chars(&rest).len() > 0 {
                    count = count + 1;
                }
                return count;
            },
        }
    }
}

/// Extract the parameter arity of a signature like `(a: A, b: B) -> R`:
/// the number of non-blank comma-separated pieces inside the parentheses,
/// 0 for a missing, empty or unparsable signature.
pub fn extract_arity(signature: Option<&str>) -> (r: usize)
    ensures
        r == arity_of(match signature { Some(s) => Some(s@), None => None }),
{
    let sig = match signature {
        Some(s) => s,
        None => return 0,
    };
    let t = trim_chars(&chars_of(sig));
    if t.len() == 0 || t[0] != '(' {
        proof {
            reveal_strlit("(");
            if t@.len() > 0 {
                assert(t@.subrange(0, 1)[0] == t@[0]);
            }
        }
        return 0;
    }
    proof {
        reveal_strlit("(");
        assert(t@.subrange(0, 1) =~= "("@);
    }
    let close = match find_from(&t, ')', 0) {
        Some(c) => c,
        None => return 0,
    };
    if close < 1 {
        return 0;
    }
    let inner = trim_chars(&slice_chars(&t, 1, close));
    if inner.len() == 0 {
        return 0;
    }
    count_pieces(&inner)
}

// ---------------------------------------------------------------------------
// Callee sets
// ---------------------------------------------------------------------------

/// The distinct entries of the first `k` of `cs` other than `me`, in order
/// of first appearance.
pub open spec fn distinct_upto(cs: Seq<SymbolId>, me: SymbolId, k: nat) -> Seq<SymbolId>
    decreases k,
{
    if k == 0 || k > cs.len() {
        seq![]
    } else {
        let prev = distinct_upto(cs, me, (k - 1) as nat);
        if cs[k - 1] == me || prev.contains(cs[k - 1]) { prev } else { prev.push(cs[k - 1]) }
    }
}

/// The callee set of symbol `i` (by index): its distinct call targets,
/// itself excluded, in order of first call.
pub open spec fn callee_set(g: Graph, i: usize) -> Seq<SymbolId> {
    let id = SymbolId((i + 1) as usize);
    let cs = call_targets(g.out_edges(id));
    distinct_upto(cs, id, cs.len())
}

/// The entries among the first `k` of `a` that are also in `b`.
pub open spec fn shared_upto(a: Seq<SymbolId>, b: Seq<SymbolId>, k: nat) -> Seq<SymbolId>
    decreases k,
{
    if k == 0 || k > a.len() {
        seq![]
    } else if b.contains(a[k - 1]) {
        shared_upto(a, b, (k - 1) as nat).push(a[k - 1])
    } else {
        shared_upto(a, b, (k - 1) as nat)
    }
}

/// The entries of `a` that are also in `b`, in `a`'s order.
pub open spec fn shared(a: Seq<SymbolId>, b: Seq<SymbolId>) -> Seq<SymbolId> {
    shared_upto(a, b, a.len())
}

/// Names of the stored symbols among the first `k` of `ids`.
pub open spec fn stored_names(g: Graph, ids: Seq<SymbolId>, k: nat) -> Seq<Seq<char>>
    decreases k,
{
    if k == 0 || k > ids.len() {
        seq![]
    } else if g.is_symbol(ids[k - 1]) {
        stored_names(g, ids, (k - 1) as nat).push(g.sym(ids[k - 1]).name@)
    } else {
        stored_names(g, ids, (k - 1) as nat)
    }
}

/// Two decimal digits of `n < 100`.
pub open spec fn two_digits(n: nat) -> Seq<char> {
    if n < 10 { "0"@ + dec(n) } else { dec(n) }
}

// ---------------------------------------------------------------------------
// Pairs
// ---------------------------------------------------------------------------

/// Symbol `i` takes part in the comparison: a non-excluded function or
/// method outside test files.
pub open spec fn dup_candidate(g: Graph, i: int) -> bool {
    let s = g.syms()[i];
    !excluded(s) && (s.kind == SymbolKind::Function || s.kind == SymbolKind::Method) && !test_path(s.location.file@)
}

/// Distinct files of the first `n` candidates, first appearance.
pub open spec fn dup_files_upto(g: Graph, n: nat) -> Seq<Seq<char>>
    decreases n,
{
    if n == 0 {
        seq![]
    } else {
        let prev = dup_files_upto(g, (n - 1) as nat);
        let f = g.syms()[n - 1].location.file@;
        if dup_candidate(g, n - 1) && !prev.contains(f) { prev.push(f) } else { prev }
    }
}

/// Candidates of file `f` among the first `n` symbols.
pub open spec fn dup_members_upto(g: Graph, f: Seq<char>, n: nat) -> Seq<usize>
    decreases n,
{
    if n == 0 {
        seq![]
    } else if dup_candidate(g, n - 1) && g.syms()[n - 1].location.file@ == f {
        dup_members_upto(g, f, (n - 1) as nat).push((n - 1) as usize)
    } else {
        dup_members_upto(g, f, (n - 1) as nat)
    }
}

/// Every (earlier, later) pair of `ms` whose earlier entry is among the
/// first `k`, earlier-major.
pub open spec fn ordered_pairs(ms: Seq<usize>, k: nat) -> Seq<(usize, usize)>
    decreases k,
{
    if k == 0 || k > ms.len() {
        seq![]
    } else {
        ordered_pairs(ms, (k - 1) as nat) + ms.skip(k as int).map_values(|x: usize| (ms[k - 1], x))
    }
}

/// The pairs of the first `k` files of `fs`.
pub open spec fn dup_pairs_upto(g: Graph, fs: Seq<Seq<char>>, k: nat) -> Seq<(usize, usize)>
    decreases k,
{
    if k == 0 || k > fs.len() {
        seq![]
    } else {
        let ms = dup_members_upto(g, fs[k - 1], g.syms().len());
        dup_pairs_upto(g, fs, (k - 1) as nat) + ordered_pairs(ms, ms.len())
    }
}

/// All compared pairs of the graph, file by file.
pub open spec fn dup_pairs(g: Graph) -> Seq<(usize, usize)> {
    let fs = dup_files_upto(g, g.syms().len());
    dup_pairs_upto(g, fs, fs.len())
}

/// The signature of a symbol as characters.
pub open spec fn sig_of(s: Symbol) -> Option<Seq<char>> {
    match s.signature {
        Some(x) => Some(x@),
        None => None,
    }
}

/// The qualified-name key of a pair, smaller name first.
pub open spec fn pair_key(g: Graph, a: usize, b: usize) -> (Seq<char>, Seq<char>) {
    let qa = g.syms()[a as int].qualified_name@;
    let qb = g.syms()[b as int].qualified_name@;
    if !seq_lt(qb, qa) { (qa, qb) } else { (qb, qa) }
}

/// The Jaccard similarity of the pair (`a`, `b`) as binary64: the shared
/// callees over the callees of either, each count converted first.
pub open spec fn jaccard(g: Graph, a: usize, b: usize) -> (nat, nat) {
    let ca = callee_set(g, a);
    let cb = callee_set(g, b);
    let i = shared(ca, cb).len();
    let u = (ca.len() + cb.len() - i) as nat;
    quotient(count_double(i), count_double(u))
}

/// The pair (`a`, `b`) is structurally similar enough to report.
pub open spec fn similar(g: Graph, a: usize, b: usize) -> bool {
    let sa = g.syms()[a as int];
    let sb = g.syms()[b as int];
    let ca = callee_set(g, a);
    let cb = callee_set(g, b);
    let i = shared(ca, cb).len();
    let u = ca.len() + cb.len() - i;
    &&& !(sa.signature is None && sb.signature is None)
    &&& arity_of(sig_of(sa)) == arity_of(sig_of(sb))
    &&& !(ca.len() == 0 && cb.len() == 0)
    &&& u >= 3
    &&& !below(jaccard(g, a, b), point_seven_units())
}

/// The diagnostic for the similar pair (`a`, `b`).
pub open spec fn dup_diag(g: Graph, root: Seq<char>, a: usize, b: usize) -> DiagnosticView {
    let sa = g.syms()[a as int];
    let sb = g.syms()[b as int];
    let ca = callee_set(g, a);
    let cb = callee_set(g, b);
    let sh = shared(ca, cb);
    let i = sh.len();
    let u = (ca.len() + cb.len() - i) as nat;
    let pct = fixed_0(hundred_times(jaccard(g, a, b)));
    let hundredths = fixed_2(jaccard(g, a, b));
    let la = loc(sa.location.file@, root, sa.location.line);
    DiagnosticView {
        id: seq![],
        pattern: DiagnosticPattern::Duplication,
        severity: Severity::Warning,
        confidence: Confidence::Moderate,
        entity: sa.qualified_name@ + ", "@ + sb.qualified_name@,
        message: "Structural duplication: '"@ + sa.name@ + "' and '"@ + sb.name@ + "' share "@ + dec(pct)
            + "% of their callees ("@ + dec(i) + "/"@ + dec(u) + " shared)"@,
        evidence: seq![
            EvidenceView {
                observation: "Jaccard similarity: "@ + dec(hundredths / 100) + "."@ + two_digits(hundredths % 100) + " ("@
                    + dec(i) + "/"@ + dec(u) + " callees shared). Shared: ["@ + join(stored_names(g, sh, sh.len()), ", "@)
                    + "]"@,
                location: Some(la),
                context: Some("arity: "@ + dec(arity_of(sig_of(sa))) + " params each"@),
            },
            EvidenceView {
                observation: "'"@ + sa.name@ + "' at line "@ + dec(sa.location.line as nat) + ", '"@ + sb.name@
                    + "' at line "@ + dec(sb.location.line as nat),
                location: Some(loc(sb.location.file@, root, sb.location.line)),
                context: None,
            },
        ],
        suggestion: "Consider extracting shared logic from '"@ + sa.name@ + "' and '"@ + sb.name@
            + "' into a common function"@,
        location: la,
    }
}

/// Diagnostics and reported keys after the first `k` pairs of `ps`.
pub open spec fn dup_fold(g: Graph, root: Seq<char>, ps: Seq<(usize, usize)>, k: nat) -> (Seq<DiagnosticView>, Seq<(Seq<char>, Seq<char>)>)
    decreases k,
{
    if k == 0 || k > ps.len() {
        (seq![], seq![])
    } else {
        let st = dup_fold(g, root, ps, (k - 1) as nat);
        let (a, b) = ps[k - 1];
        if a < g.syms().len() && b < g.syms().len() && similar(g, a, b) && !st.1.contains(pair_key(g, a, b)) {
            (st.0.push(dup_diag(g, root, a, b)), st.1.push(pair_key(g, a, b)))
        } else {
            st
        }
    }
}

/// All duplication diagnostics.
pub open spec fn duplications(g: Graph, root: Seq<char>) -> Seq<DiagnosticView> {
    dup_fold(g, root, dup_pairs(g), dup_pairs(g).len()).0
}

/// What holds of the findings `ds` and reported name keys `em` after the
/// first `k` pairs of `ps`.
pub open spec fn dup_fold_ok(g: Graph, root: Seq<char>, ps: Seq<(usize, usize)>, k: nat,
    ds: Seq<DiagnosticView>, em: Seq<(Seq<char>, Seq<char>)>) -> bool {
    &&& ds.len() == em.len()
    &&& em.no_duplicates()
    &&& forall|t: int| #![trigger ds[t]] 0 <= t < ds.len() ==> exists|j: int| 0 <= j < k && {
            let p = #[trigger] ps[j];
            &&& p.0 < g.syms().len() && p.1 < g.syms().len()
            &&& similar(g, p.0, p.1)
            &&& em[t] == pair_key(g, p.0, p.1)
            &&& ds[t] == dup_diag(g, root, p.0, p.1)
        }
    &&& forall|j: int| 0 <= j < k && (#[trigger] ps[j]).0 < g.syms().len() && ps[j].1 < g.syms().len()
            && similar(g, ps[j].0, ps[j].1) ==> em.contains(pair_key(g, ps[j].0, ps[j].1))
}

proof fn lemma_dup_fold(g: Graph, root: Seq<char>, ps: Seq<(usize, usize)>, k: nat)
    requires
        k <= ps.len(),
    ensures
        dup_fold_ok(g, root, ps, k, dup_fold(g, root, ps, k).0, dup_fold(g, root, ps, k).1),
    decreases k,
{
    if k > 0 {
        lemma_dup_fold(g, root, ps, (k - 1) as nat);
        let st = dup_fold(g, root, ps, (k - 1) as nat);
        let (ds, em) = st;
        let r = dup_fold(g, root, ps, k);
        let (a, b) = ps[k - 1];
        let key = pair_key(g, a, b);
        assert forall|t: int| #![trigger r.0[t]] 0 <= t < r.0.len() implies exists|j: int| 0 <= j < k && {
            let p = #[trigger] ps[j];
            &&& p.0 < g.syms().len() && p.1 < g.syms().len()
            &&& similar(g, p.0, p.1)
            &&& r.1[t] == pair_key(g, p.0, p.1)
            &&& r.0[t] == dup_diag(g, root, p.0, p.1)
        } by {
            if t < ds.len() {
                let j = choose|j: int| 0 <= j < k - 1 && {
                    let p = #[trigger] ps[j];
                    &&& p.0 < g.syms().len() && p.1 < g.syms().len()
                    &&& similar(g, p.0, p.1)
                    &&& em[t] == pair_key(g, p.0, p.1)
                    &&& ds[t] == dup_diag(g, root, p.0, p.1)
                };
                assert(r.0[t] == ds[t] && r.1[t] == em[t]);
                let _ = ps[j];
            } else {
                let _ = ps[k - 1];
            }
        }
        assert forall|j: int| 0 <= j < k && (#[trigger] ps[j]).0 < g.syms().len() && ps[j].1 < g.syms().len()
            && similar(g, ps[j].0, ps[j].1) implies r.1.contains(pair_key(g, ps[j].0, ps[j].1)) by {
            if j < k - 1 {
                assert(em.contains(pair_key(g, ps[j].0, ps[j].1)));
                let q = choose|q: int| 0 <= q < em.len() && em[q] == pair_key(g, ps[j].0, ps[j].1);
                assert(r.1[q] == em[q]);
            } else if !em.contains(key) {
                assert(r.1[em.len() as int] == key);
            }
        }
        if r.1.len() > em.len() {
            assert forall|x: int, y: int| 0 <= x < r.1.len() && 0 <= y < r.1.len() && x != y
                implies r.1[x] != r.1[y] by {
                if x == em.len() as int {
                    assert(r.1[y] == em[y]);
                } else if y == em.len() as int {
                    assert(r.1[x] == em[x]);
                }
            }
        }
    }
}

/// Structural duplication is reported once per similar pair: every
/// finding is the diagnostic of a compared pair of symbols that share a
/// parameter count, are not both without a signature, call something, and
/// share at least 70% of the three or more callees they call between them;
/// no pair of qualified names is reported twice; and every similar
/// compared pair is reported (by it or by a pair with the same names).
pub proof fn law_duplications_reported_once(g: Graph, root: Seq<char>)
    ensures
        ({
            let ps = dup_pairs(g);
            let st = dup_fold(g, root, ps, ps.len());
            &&& st.0 == duplications(g, root)
            &&& dup_fold_ok(g, root, ps, ps.len(), st.0, st.1)
        }),
{
    let ps = dup_pairs(g);
    lemma_dup_fold(g, root, ps, ps.len());
}

/// `p` is an (earlier, later) pair of compared symbols of one file.
pub open spec fn same_file_pair(g: Graph, p: (usize, usize)) -> bool {
    &&& p.0 < p.1 < g.syms().len()
    &&& dup_candidate(g, p.0 as int)
    &&& dup_candidate(g, p.1 as int)
    &&& g.syms()[p.0 as int].location.file@ == g.syms()[p.1 as int].location.file@
}

proof fn lemma_dup_members(g: Graph, f: Seq<char>, n: nat)
    requires
        n <= g.syms().len(),
    ensures
        forall|q: int| 0 <= q < dup_members_upto(g, f, n).len() ==> {
            let x = #[trigger] dup_members_upto(g, f, n)[q];
            x < n && dup_candidate(g, x as int) && g.syms()[x as int].location.file@ == f
        },
        forall|q1: int, q2: int| 0 <= q1 < q2 < dup_members_upto(g, f, n).len()
            ==> #[trigger] dup_members_upto(g, f, n)[q1] < #[trigger] dup_members_upto(g, f, n)[q2],
    decreases n,
{
    if n > 0 {
        lemma_dup_members(g, f, (n - 1) as nat);
        g.lemma_len_bounds();
        let prev = dup_members_upto(g, f, (n - 1) as nat);
        let cur = dup_members_upto(g, f, n);
        if cur.len() > prev.len() {
            assert(cur[prev.len() as int] == (n - 1) as usize);
            assert(((n - 1) as usize) as int == n - 1);
        }
        assert forall|q: int| 0 <= q < cur.len() implies {
            let x = #[trigger] cur[q];
            x < n && dup_candidate(g, x as int) && g.syms()[x as int].location.file@ == f
        } by {
            if q < prev.len() {
                assert(cur[q] == prev[q]);
            }
        }
        assert forall|q1: int, q2: int| 0 <= q1 < q2 < cur.len() implies #[trigger] cur[q1] < #[trigger] cur[q2] by {
            if q2 < prev.len() {
                assert(cur[q1] == prev[q1] && cur[q2] == prev[q2]);
            } else {
                assert(cur[q1] == prev[q1]);
            }
        }
    }
}

proof fn lemma_ordered_pairs(g: Graph, f: Seq<char>, ms: Seq<usize>, k: nat)
    requires
        forall|q: int| 0 <= q < ms.len() ==> {
            let x = #[trigger] ms[q];
            x < g.syms().len() && dup_candidate(g, x as int) && g.syms()[x as int].location.file@ == f
        },
        forall|q1: int, q2: int| 0 <= q1 < q2 < ms.len() ==> #[trigger] ms[q1] < #[trigger] ms[q2],
    ensures
        forall|q: int| 0 <= q < ordered_pairs(ms, k).len() ==> same_file_pair(g, #[trigger] ordered_pairs(ms, k)[q]),
    decreases k,
{
    if k > 0 && k <= ms.len() {
        lemma_ordered_pairs(g, f, ms, (k - 1) as nat);
        let prev = ordered_pairs(ms, (k - 1) as nat);
        let tail = ms.skip(k as int).map_values(|x: usize| (ms[k - 1], x));
        let cur = ordered_pairs(ms, k);
        assert forall|q: int| 0 <= q < cur.len() implies same_file_pair(g, #[trigger] cur[q]) by {
            if q < prev.len() {
                assert(cur[q] == prev[q]);
            } else {
                let t = q - prev.len();
                assert(cur[q] == tail[t]);
                assert(tail[t] == (ms[k - 1], ms[k + t]));
                let _ = ms[k - 1];
                let _ = ms[k + t];
            }
        }
    }
}

proof fn lemma_dup_pairs_upto(g: Graph, fs: Seq<Seq<char>>, k: nat)
    ensures
        forall|q: int| 0 <= q < dup_pairs_upto(g, fs, k).len() ==> same_file_pair(g, #[trigger] dup_pairs_upto(g, fs, k)[q]),
    decreases k,
{
    if k > 0 && k <= fs.len() {
        lemma_dup_pairs_upto(g, fs, (k - 1) as nat);
        let ms = dup_members_upto(g, fs[k - 1], g.syms().len());
        lemma_dup_members(g, fs[k - 1], g.syms().len());
        lemma_ordered_pairs(g, fs[k - 1], ms, ms.len());
        let prev = dup_pairs_upto(g, fs, (k - 1) as nat);
        let op = ordered_pairs(ms, ms.len());
        let cur = dup_pairs_upto(g, fs, k);
        assert forall|q: int| 0 <= q < cur.len() implies same_file_pair(g, #[trigger] cur[q]) by {
            if q < prev.len() {
                assert(cur[q] == prev[q]);
            } else {
                assert(cur[q] == op[q - prev.len()]);
            }
        }
    }
}

/// The compared pairs are (earlier, later) pairs of different compared
/// symbols (non-excluded functions or methods outside test files) of one
/// file.
pub proof fn law_dup_pairs_same_file(g: Graph)
    ensures
        forall|q: int| 0 <= q < dup_pairs(g).len() ==> same_file_pair(g, #[trigger] dup_pairs(g)[q]),
{
    let fs = dup_files_upto(g, g.syms().len());
    lemma_dup_pairs_upto(g, fs, fs.len());
}

pub(crate) fn has_id(v: &Vec<SymbolId>, x: SymbolId) -> (r: bool)
    ensures
        r == v@.contains(x),
{
    let mut i: usize = 0;
    while i < v.len()
        invariant
            i <= v@.len(),
            forall|j: int| 0 <= j < i ==> v@[j] != x,
        decreases v@.len() - i,
    {
        if v[i].0 == x.0 {
            assert(v@[i as int] == x);
            return true;
        }
        i = i + 1;
    }
    false
}

fn callee_set_exec(graph: &Graph, i: usize) -> (r: Vec<SymbolId>)
    requires
        i < graph.syms().len(),
    ensures
        r@ == callee_set(*graph, i),
{
    proof {
        graph.lemma_len_bounds();
    }
    let me = SymbolId(i + 1);
    let cs = graph.callees(me);
    let mut out: Vec<SymbolId> = Vec::new();
    let mut k: usize = 0;
    while k < cs.len()
        invariant
            k <= cs@.len(),
            out@ == distinct_upto(cs@, me, k as nat),
        decreases cs@.len() - k,
    {
        let c = cs[k];
        if c.0 != me.0 && !has_id(&out, c) {
            out.push(c);
        }
        k = k + 1;
    }
    out
}

fn shared_exec(a: &Vec<SymbolId>, b: &Vec<SymbolId>) -> (r: Vec<SymbolId>)
    ensures
        r@ == shared(a@, b@),
{
    let mut out: Vec<SymbolId> = Vec::new();
    let mut k: usize = 0;
    while k < a.len()
        invariant
            k <= a@.len(),
            out@ == shared_upto(a@, b@, k as nat),
        decreases a@.len() - k,
    {
        if has_id(b, a[k]) {
            out.push(a[k]);
        }
        k = k + 1;
    }
    out
}

proof fn lemma_shared_len(a: Seq<SymbolId>, b: Seq<SymbolId>, k: nat)
    requires
        k <= a.len(),
    ensures
        shared_upto(a, b, k).len() <= k,
    decreases k,
{
    if k > 0 {
        lemma_shared_len(a, b, (k - 1) as nat);
    }
}

pub(crate) fn names_exec(graph: &Graph, ids: &Vec<SymbolId>) -> (r: Vec<Vec<char>>)
    ensures
        r@.map_values(|p: Vec<char>| p@) == stored_names(*graph, ids@, ids@.len()),
{
    let mut out: Vec<Vec<char>> = Vec::new();
    let mut k: usize = 0;
    while k < ids.len()
        invariant
            k <= ids@.len(),
            out@.map_values(|p: Vec<char>| p@) == stored_names(*graph, ids@, k as nat),
        decreases ids@.len() - k,
    {
        match graph.get_symbol(ids[k]) {
            Some(s) => {
                let ghost before = out@.map_values(|p: Vec<char>| p@);
                let nm = chars_of(s.name.as_str());
                out.push(nm);
                assert(out@.map_values(|p: Vec<char>| p@) =~= before.push(nm@));
            },
            None => {},
        }
        k = k + 1;
    }
    out
}

pub(crate) fn sig_str(s: &Symbol) -> (r: Option<&str>)
    ensures
        (match r { Some(x) => Some(x@), None => None }) == sig_of(*s),
{
    match &s.signature {
        Some(x) => Some(x.as_str()),
        None => None,
    }
}

proof fn lemma_distinct_no_dup(cs: Seq<SymbolId>, me: SymbolId, k: nat)
    ensures
        distinct_upto(cs, me, k).no_duplicates(),
    decreases k,
{
    if k > 0 && k <= cs.len() {
        lemma_distinct_no_dup(cs, me, (k - 1) as nat);
        let prev = distinct_upto(cs, me, (k - 1) as nat);
        if !(cs[k - 1] == me || prev.contains(cs[k - 1])) {
            let cur = prev.push(cs[k - 1]);
            assert forall|x: int, y: int| 0 <= x < cur.len() && 0 <= y < cur.len() && x != y
                implies cur[x] != cur[y] by {
                if x == prev.len() as int {
                    assert(cur[y] == prev[y]);
                } else if y == prev.len() as int {
                    assert(cur[x] == prev[x]);
                }
            }
        }
    }
}

proof fn lemma_shared_distinct(a: Seq<SymbolId>, b: Seq<SymbolId>, k: nat)
    requires
        a.no_duplicates(),
    ensures
        shared_upto(a, b, k).no_duplicates(),
        forall|x: SymbolId| #[trigger] shared_upto(a, b, k).contains(x) ==> b.contains(x) && a.take(k as int).contains(x),
    decreases k,
{
    if k > 0 && k <= a.len() {
        lemma_shared_distinct(a, b, (k - 1) as nat);
        let prev = shared_upto(a, b, (k - 1) as nat);
        let cur = shared_upto(a, b, k);
        let tp = a.take(k - 1);
        assert forall|x: SymbolId| #[trigger] prev.contains(x) implies a.take(k as int).contains(x) by {
            let j = choose|j: int| 0 <= j < tp.len() && #[trigger] tp[j] == x;
            assert(a.take(k as int)[j] == x);
        }
        assert(a.take(k as int)[k - 1] == a[k - 1]);
        if b.contains(a[k - 1]) {
            assert(!prev.contains(a[k - 1])) by {
                if prev.contains(a[k - 1]) {
                    let j = choose|j: int| 0 <= j < tp.len() && #[trigger] tp[j] == a[k - 1];
                    assert(a[j] == a[k - 1]);
                }
            }
            assert forall|x: int, y: int| 0 <= x < cur.len() && 0 <= y < cur.len() && x != y
                implies cur[x] != cur[y] by {
                if x == prev.len() as int {
                    assert(cur[y] == prev[y]);
                    assert(prev.contains(prev[y]));
                } else if y == prev.len() as int {
                    assert(cur[x] == prev[x]);
                    assert(prev.contains(prev[x]));
                }
            }
            assert forall|x: SymbolId| #[trigger] cur.contains(x) implies b.contains(x) && a.take(k as int).contains(x) by {
                let j = choose|j: int| 0 <= j < cur.len() && cur[j] == x;
                if j < prev.len() {
                    assert(prev[j] == x);
                    assert(prev.contains(x));
                }
            }
        }
    }
}

/// The shared callees are no more than the callees of either side.
proof fn lemma_shared_bound(g: Graph, a: usize, b: usize)
    ensures
        shared(callee_set(g, a), callee_set(g, b)).len() <= callee_set(g, b).len(),
        shared(callee_set(g, a), callee_set(g, b)).len() <= callee_set(g, a).len(),
{
    let ca = callee_set(g, a);
    let cb = callee_set(g, b);
    let ida = SymbolId((a + 1) as usize);
    let csa = call_targets(g.out_edges(ida));
    lemma_distinct_no_dup(csa, ida, csa.len());
    lemma_shared_distinct(ca, cb, ca.len());
    lemma_shared_len(ca, cb, ca.len());
    let sh = shared(ca, cb);
    sh.unique_seq_to_set();
    assert(sh.to_set().subset_of(cb.to_set()));
    vstd::set_lib::lemma_len_subset(sh.to_set(), cb.to_set());
    cb.lemma_cardinality_of_set();
}

/// The binary64 quotient of `i` over `u` counts, for `i <= u`.
fn jaccard_of(i: u128, u: u128) -> (r: (u128, u32))
    requires
        i <= u,
        0 < u < 0x40000000000000000,
    ensures
        (r.0 as nat, r.1 as nat) == quotient(count_double(i as nat), count_double(u as nat)),
        r.0 <= 0x20000000000000,
        50 <= r.1 <= 119,
{
    let x = count_double_exec(i);
    let y = count_double_exec(u);
    quotient_exec(x, y)
}

fn push_two_digits(s: &mut String, n: u128)
    requires
        n < 100,
    ensures
        final(s)@ == old(s)@ + two_digits(n as nat),
{
    if n < 10 {
        push_str(s, "0");
        proof {
            reveal_strlit("0");
        }
    }
    push_u128(s, n);
    proof {
        if n < 10 {
            assert(old(s)@ + two_digits(n as nat) =~= old(s)@ + "0"@ + dec(n as nat));
        }
    }
}

fn build_dup(graph: &Graph, project_root: &str, a: usize, b: usize, ca: &Vec<SymbolId>, cb: &Vec<SymbolId>,
    sh: &Vec<SymbolId>) -> (d: Diagnostic)
    requires
        a < graph.syms().len(),
        b < graph.syms().len(),
        ca@ == callee_set(*graph, a),
        cb@ == callee_set(*graph, b),
        sh@ == shared(ca@, cb@),
        similar(*graph, a, b),
    ensures
        d@ == dup_diag(*graph, project_root@, a, b),
{
    let sa = graph.symbol_at(a);
    let sb = graph.symbol_at(b);
    proof {
        lemma_shared_len(ca@, cb@, ca@.len());
    }
    proof {
        lemma_shared_bound(*graph, a, b);
    }
    let i = sh.len() as u128;
    let u = ca.len() as u128 + cb.len() as u128 - i;
    let jac = jaccard_of(i, u);
    let pct = fixed_0_exec(hundred_times_exec(jac));
    let hundredths = fixed_2_exec(jac);
    let la = symbol_location(sa, project_root);
    let lb = symbol_location(sb, project_root);
    let names = names_exec(graph, sh);
    let mut entity = String::new();
    push_str(&mut entity, sa.qualified_name.as_str());
    push_str(&mut entity, ", ");
    push_str(&mut entity, sb.qualified_name.as_str());
    let mut message = String::new();
    push_str(&mut message, "Structural duplication: '");
    push_str(&mut message, sa.name.as_str());
    push_str(&mut message, "' and '");
    push_str(&mut message, sb.name.as_str());
    push_str(&mut message, "' share ");
    push_u128(&mut message, pct);
    push_str(&mut message, "% of their callees (");
    push_u128(&mut message, i);
    push_str(&mut message, "/");
    push_u128(&mut message, u);
    push_str(&mut message, " shared)");
    let mut obs1 = String::new();
    push_str(&mut obs1, "Jaccard similarity: ");
    push_u128(&mut obs1, hundredths / 100);
    push_str(&mut obs1, ".");
    push_two_digits(&mut obs1, hundredths % 100);
    push_str(&mut obs1, " (");
    push_u128(&mut obs1, i);
    push_str(&mut obs1, "/");
    push_u128(&mut obs1, u);
    push_str(&mut obs1, " callees shared). Shared: [");
    push_joined(&mut obs1, &names, ", ");
    push_str(&mut obs1, "]");
    let mut ctx1 = String::new();
    push_str(&mut ctx1, "arity: ");
    push_usize(&mut ctx1, extract_arity(sig_str(sa)));
    push_str(&mut ctx1, " params each");
    let mut obs2 = String::new();
    push_str(&mut obs2, "'");
    push_str(&mut obs2, sa.name.as_str());
    push_str(&mut obs2, "' at line ");
    push_usize(&mut obs2, sa.location.line as usize);
    push_str(&mut obs2, ", '");
    push_str(&mut obs2, sb.name.as_str());
    push_str(&mut obs2, "' at line ");
    push_usize(&mut obs2, sb.location.line as usize);
    let mut suggestion = String::new();
    push_str(&mut suggestion, "Consider extracting shared logic from '");
    push_str(&mut suggestion, sa.name.as_str());
    push_str(&mut suggestion, "' and '");
    push_str(&mut suggestion, sb.name.as_str());
    push_str(&mut suggestion, "' into a common function");
    let e1 = Evidence { observation: obs1, location: Some(la.clone()), context: Some(ctx1) };
    let e2 = Evidence { observation: obs2, location: Some(lb), context: None };
    let d = Diagnostic {
        id: String::new(),
        pattern: DiagnosticPattern::Duplication,
        severity: Severity::Warning,
        confidence: Confidence::Moderate,
        entity,
        message,
        evidence: vec![e1, e2],
        suggestion,
        location: la,
    };
    let ghost want = dup_diag(*graph, project_root@, a, b);
    assert(d@.evidence =~= seq![e1@, e2@]);
    assert(d@.entity =~= want.entity);
    assert(d@.message =~= want.message);
    assert(d@.suggestion =~= want.suggestion);
    assert(e1@.observation =~= want.evidence[0].observation);
    assert(e1@.context =~= want.evidence[0].context);
    assert(e2@.observation =~= want.evidence[1].observation);
    d
}

fn has_key(seen: &Vec<(Vec<char>, Vec<char>)>, k0: &Vec<char>, k1: &Vec<char>) -> (r: bool)
    ensures
        r == seen@.map_values(|p: (Vec<char>, Vec<char>)| (p.0@, p.1@)).contains((k0@, k1@)),
{
    let ghost sv = seen@.map_values(|p: (Vec<char>, Vec<char>)| (p.0@, p.1@));
    let mut i: usize = 0;
    while i < seen.len()
        invariant
            i <= seen@.len(),
            sv == seen@.map_values(|p: (Vec<char>, Vec<char>)| (p.0@, p.1@)),
            forall|j: int| 0 <= j < i ==> sv[j] != (k0@, k1@),
        decreases seen@.len() - i,
    {
        if chars_eq(&seen[i].0, k0) && chars_eq(&seen[i].1, k1) {
            assert(sv[i as int] == (k0@, k1@));
            return true;
        }
        i = i + 1;
    }
    false
}

fn consider_dup(graph: &Graph, project_root: &str, a: usize, b: usize, out: &mut Vec<Diagnostic>,
    seen: &mut Vec<(Vec<char>, Vec<char>)>)
    ensures
        (diag_views(final(out)@), final(seen)@.map_values(|p: (Vec<char>, Vec<char>)| (p.0@, p.1@))) == ({
            let st = (diag_views(old(out)@), old(seen)@.map_values(|p: (Vec<char>, Vec<char>)| (p.0@, p.1@)));
            if a < graph.syms().len() && b < graph.syms().len() && similar(*graph, a, b) && !st.1.contains(pair_key(*graph, a, b)) {
                (st.0.push(dup_diag(*graph, project_root@, a, b)), st.1.push(pair_key(*graph, a, b)))
            } else {
                st
            }
        }),
{
    if a >= graph.symbol_count() || b >= graph.symbol_count() {
        return;
    }
    let sa = graph.symbol_at(a);
    let sb = graph.symbol_at(b);
    if sa.signature.is_none() && sb.signature.is_none() {
        return;
    }
    if extract_arity(sig_str(sa)) != extract_arity(sig_str(sb)) {
        return;
    }
    let ca = callee_set_exec(graph, a);
    let cb = callee_set_exec(graph, b);
    if ca.len() == 0 && cb.len() == 0 {
        return;
    }
    let sh = shared_exec(&ca, &cb);
    proof {
        lemma_shared_len(ca@, cb@, ca@.len());
    }
    proof {
        lemma_shared_bound(*graph, a, b);
    }
    let i = sh.len() as u128;
    let u = ca.len() as u128 + cb.len() as u128 - i;
    if u < 3 {
        return;
    }
    let jac = jaccard_of(i, u);
    if below_exec(jac, 6305039478318694) {
        return;
    }
    let qa = chars_of(sa.qualified_name.as_str());
    let qb = chars_of(sb.qualified_name.as_str());
    let (k0, k1) = if !str_less(&qb, &qa) { (qa, qb) } else { (qb, qa) };
    assert((k0@, k1@) == pair_key(*graph, a, b));
    if has_key(seen, &k0, &k1) {
        return;
    }
    push_diag(out, build_dup(graph, project_root, a, b, &ca, &cb, &sh));
    let ghost before = seen@.map_values(|p: (Vec<char>, Vec<char>)| (p.0@, p.1@));
    let ghost key = (k0@, k1@);
    seen.push((k0, k1));
    assert(seen@.map_values(|p: (Vec<char>, Vec<char>)| (p.0@, p.1@)) =~= before.push(key));
}

pub(crate) fn is_dup_candidate(s: &Symbol) -> (r: bool)
    ensures
        r == (!excluded(*s) && (s.kind == SymbolKind::Function || s.kind == SymbolKind::Method)
            && !test_path(s.location.file@)),
{
    !is_excluded_symbol(s) && (s.kind == SymbolKind::Function || s.kind == SymbolKind::Method)
        && !is_test_path(s.location.file.as_str())
}

fn collect_dup_pairs(graph: &Graph) -> (r: Vec<(usize, usize)>)
    ensures
        r@ == dup_pairs(*graph),
{
    let n = graph.symbol_count();
    let mut files: Vec<Vec<char>> = Vec::new();
    let mut i: usize = 0;
    while i < n
        invariant
            n == graph.syms().len(),
            i <= n,
            char_views(files@) == dup_files_upto(*graph, i as nat),
        decreases n - i,
    {
        let s = graph.symbol_at(i);
        if is_dup_candidate(s) {
            let f = chars_of(s.location.file.as_str());
            if !contains_chars(&files, &f) {
                let ghost before = char_views(files@);
                files.push(f);
                assert(char_views(files@) =~= before.push(f@));
            }
        }
        i = i + 1;
    }
    let ghost fs = char_views(files@);
    let mut out: Vec<(usize, usize)> = Vec::new();
    let mut k: usize = 0;
    while k < files.len()
        invariant
            n == graph.syms().len(),
            k <= files@.len(),
            fs == char_views(files@),
            fs == dup_files_upto(*graph, n as nat),
            out@ == dup_pairs_upto(*graph, fs, k as nat),
        decreases files@.len() - k,
    {
        let f = &files[k];
        assert(f@ == fs[k as int]);
        let mut ms: Vec<usize> = Vec::new();
        let mut j: usize = 0;
        while j < n
            invariant
                n == graph.syms().len(),
                j <= n,
                ms@ == dup_members_upto(*graph, f@, j as nat),
            decreases n - j,
        {
            let s = graph.symbol_at(j);
            if is_dup_candidate(s) && chars_eq(&chars_of(s.location.file.as_str()), f) {
                ms.push(j);
            }
            j = j + 1;
        }
        let ghost base = out@;
        let mut p: usize = 0;
        while p < ms.len()
            invariant
                p <= ms@.len(),
                out@ == base + ordered_pairs(ms@, p as nat),
            decreases ms@.len() - p,
        {
            let a = ms[p];
            let ghost mid = out@;
            let mut q: usize = p + 1;
            while q < ms.len()
                invariant
                    p < ms@.len(),
                    p + 1 <= q <= ms@.len(),
                    a == ms@[p as int],
                    out@ == mid + ms@.subrange(p + 1, q as int).map_values(|x: usize| (a, x)),
                decreases ms@.len() - q,
            {
                out.push((a, ms[q]));
                assert(ms@.subrange(p + 1, q + 1) =~= ms@.subrange(p + 1, q as int).push(ms@[q as int]));
                assert(out@ =~= mid + ms@.subrange(p + 1, q + 1).map_values(|x: usize| (a, x)));
                q = q + 1;
            }
            assert(ms@.subrange(p + 1, ms@.len() as int) =~= ms@.skip(p + 1));
            assert(out@ =~= base + ordered_pairs(ms@, (p + 1) as nat));
            p = p + 1;
        }
        assert(out@ =~= dup_pairs_upto(*graph, fs, (k + 1) as nat));
        k = k + 1;
    }
    out
}

/// Detect structural duplication: pairs of functions of one file, outside
/// test files, with equal arity (at least one signature known) whose
/// callee sets, self-calls left out, have a union of three or more and a
/// Jaccard similarity of at least 0.7. Each pair is reported once.
/// Severity: Warning. Confidence: Moderate.
pub fn detect(graph: &Graph, project_root: &str) -> (r: Vec<Diagnostic>)
    ensures
        diag_views(r@) == duplications(*graph, project_root@),
{
    let ps = collect_dup_pairs(graph);
    let mut out: Vec<Diagnostic> = Vec::new();
    let mut seen: Vec<(Vec<char>, Vec<char>)> = Vec::new();
    let mut k: usize = 0;
    while k < ps.len()
        invariant
            k <= ps@.len(),
            ps@ == dup_pairs(*graph),
            (diag_views(out@), seen@.map_values(|p: (Vec<char>, Vec<char>)| (p.0@, p.1@))) == dup_fold(*graph, project_root@, ps@, k as nat),
        decreases ps@.len() - k,
    {
        let (a, b) = ps[k];
        consider_dup(graph, project_root, a, b, &mut out, &mut seen);
        k = k + 1;
    }
    out
}

} // verus!
