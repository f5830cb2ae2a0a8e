//! Asymmetric handling detection — parallel code paths with inconsistent
//! treatment.
//!
//! Functions of one file and kind are grouped by similar arity (within
//! one of the group's first, after a stable sort by arity). In each group
//! of three or more, the callees that all but at most one member call are
//! the consensus; every member missing some of them is reported.
//! Confidence is always Moderate.

use vstd::prelude::*;

use crate::diagnostic::{
    diag_views, Confidence, Diagnostic, DiagnosticPattern, DiagnosticView, Evidence, EvidenceView,
    Severity,
};
use crate::graph::{call_targets, Graph};
use crate::ir::{SymbolId, SymbolKind};
use crate::patterns::common::{
    char_views, contains_chars, gathered, lemma_gathered_members, loc, push_diag, symbol_location,
};
use crate::patterns::duplication::{
    arity_of, dup_candidate, extract_arity, has_id, is_dup_candidate, names_exec, sig_of, sig_str,
    stored_names,
};
use crate::patterns::incomplete_migration::{insert_by_version, sort_by_version};
use crate::text::{chars_eq, chars_of, dec, join, push_joined, push_str, push_usize};

verus! {

broadcast use vstd::seq_lib::group_seq_properties;

/// Distinct (file, kind) keys of the first `n` candidates, first appearance.
pub open spec fn asym_keys_upto(g: Graph, n: nat) -> Seq<(Seq<char>, SymbolKind)>
    decreases n,
{
    if n == 0 {
        seq![]
    } else {
        let prev = asym_keys_upto(g, (n - 1) as nat);
        let s = g.syms()[n - 1];
        let key = (s.location.file@, s.kind);
        if dup_candidate(g, n - 1) && !prev.contains(key) { prev.push(key) } else { prev }
    }
}

/// Candidates with key `key` among the first `n` symbols: (index, arity).
pub open spec fn key_members_upto(g: Graph, key: (Seq<char>, SymbolKind), n: nat) -> Seq<(usize, nat)>
    decreases n,
{
    if n == 0 {
        seq![]
    } else {
        let prev = key_members_upto(g, key, (n - 1) as nat);
        let s = g.syms()[n - 1];
        if dup_candidate(g, n - 1) && (s.location.file@, s.kind) == key {
            prev.push(((n - 1) as usize, arity_of(sig_of(s))))
        } else {
            prev
        }
    }
}

/// Greedy grouping state after the first `k` entries of `s` (sorted by
/// arity): finished groups, the current group, and its anchor arity.
pub open spec fn group_fold(s: Seq<(usize, nat)>, k: nat) -> (Seq<Seq<(usize, nat)>>, Seq<(usize, nat)>, nat)
    decreases k,
{
    if k == 0 || k > s.len() {
        (seq![], seq![], 0)
    } else if k == 1 {
        (seq![], seq![s[0]], s[0].1)
    } else {
        let (gs, cur, anchor) = group_fold(s, (k - 1) as nat);
        let e = s[k - 1];
        if e.1 <= anchor + 1 && anchor <= e.1 + 1 {
            (gs, cur.push(e), anchor)
        } else {
            (if cur.len() >= 3 { gs.push(cur) } else { gs }, seq![e], e.1)
        }
    }
}

/// The arity groups of three or more of `s` (sorted by arity).
pub open spec fn arity_groups(s: Seq<(usize, nat)>) -> Seq<Seq<(usize, nat)>> {
    if s.len() == 0 {
        seq![]
    } else {
        let st = group_fold(s, s.len());
        if st.1.len() >= 3 { st.0.push(st.1) } else { st.0 }
    }
}

/// Arities `a` and `b` differ by at most one.
pub open spec fn within_one(a: nat, b: nat) -> bool {
    a <= b + 1 && b <= a + 1
}

/// Every member of `gr` is an entry of `s` and has an arity within one of
/// the first member's.
pub open spec fn tight_group(s: Seq<(usize, nat)>, gr: Seq<(usize, nat)>) -> bool {
    &&& gr.len() >= 1
    &&& forall|m: int| 0 <= m < gr.len() ==> within_one((#[trigger] gr[m]).1, gr[0].1) && s.contains(gr[m])
}

proof fn lemma_group_fold(s: Seq<(usize, nat)>, k: nat)
    requires
        1 <= k <= s.len(),
    ensures
        tight_group(s, group_fold(s, k).1),
        group_fold(s, k).1[0].1 == group_fold(s, k).2,
        forall|t: int| 0 <= t < group_fold(s, k).0.len()
            ==> (#[trigger] group_fold(s, k).0[t]).len() >= 3 && tight_group(s, group_fold(s, k).0[t]),
    decreases k,
{
    if k == 1 {
        assert(s.contains(s[0]));
    } else {
        lemma_group_fold(s, (k - 1) as nat);
        let (gs, cur, anchor) = group_fold(s, (k - 1) as nat);
        let e = s[k - 1];
        assert(s.contains(e));
        if e.1 <= anchor + 1 && anchor <= e.1 + 1 {
            let nc = cur.push(e);
            assert forall|m: int| 0 <= m < nc.len() implies within_one((#[trigger] nc[m]).1, nc[0].1) && s.contains(nc[m]) by {
                if m < cur.len() {
                    assert(nc[m] == cur[m]);
                }
            }
        } else {
            let ng = if cur.len() >= 3 { gs.push(cur) } else { gs };
            assert forall|t: int| 0 <= t < ng.len() implies (#[trigger] ng[t]).len() >= 3 && tight_group(s, ng[t]) by {
                if t < gs.len() {
                    assert(ng[t] == gs[t]);
                }
            }
            assert(seq![e][0] == e);
        }
    }
}

/// Arity grouping keeps groups tight: every group it forms has three or
/// more members, each an entry of the input whose arity is within one of
/// the group's first member's.
pub proof fn law_arity_groups_tight(s: Seq<(usize, nat)>)
    ensures
        forall|t: int| 0 <= t < arity_groups(s).len()
            ==> (#[trigger] arity_groups(s)[t]).len() >= 3 && tight_group(s, arity_groups(s)[t]),
{
    if s.len() > 0 {
        lemma_group_fold(s, s.len());
        let st = group_fold(s, s.len());
        let r = arity_groups(s);
        assert forall|t: int| 0 <= t < r.len() implies (#[trigger] r[t]).len() >= 3 && tight_group(s, r[t]) by {
            if t < st.0.len() {
                assert(r[t] == st.0[t]);
            }
        }
    }
}

/// The groups, one after another.
pub open spec fn flat(gs: Seq<Seq<(usize, nat)>>) -> Seq<(usize, nat)>
    decreases gs.len(),
{
    if gs.len() == 0 {
        seq![]
    } else {
        flat(gs.drop_last()) + gs.last()
    }
}

proof fn lemma_group_fold_parts(s: Seq<(usize, nat)>, k: nat)
    requires
        1 <= k <= s.len(),
    ensures
        1 <= group_fold(s, k).1.len() <= k,
        group_fold(s, k).1 == s.subrange(k - group_fold(s, k).1.len(), k as int),
        flat(group_fold(s, k).0).to_multiset().subset_of(s.take(k - group_fold(s, k).1.len()).to_multiset()),
        s.len() < 3 ==> group_fold(s, k).0.len() == 0,
    decreases k,
{
    broadcast use vstd::multiset::group_multiset_axioms;
    broadcast use vstd::seq_lib::lemma_multiset_commutative;
    if k == 1 {
        assert(group_fold(s, 1).1 =~= s.subrange(0, 1));
        assert(flat(Seq::<Seq<(usize, nat)>>::empty()) =~= Seq::<(usize, nat)>::empty());
        assert(Seq::<(usize, nat)>::empty().to_multiset() =~= vstd::multiset::Multiset::empty()) by {
            broadcast use vstd::seq_lib::group_to_multiset_ensures;
        }
    } else {
        lemma_group_fold_parts(s, (k - 1) as nat);
        let (gs, cur, anchor) = group_fold(s, (k - 1) as nat);
        let e = s[k - 1];
        let lo = k - 1 - cur.len();
        if e.1 <= anchor + 1 && anchor <= e.1 + 1 {
            assert(cur.push(e) =~= s.subrange(lo, k as int));
        } else {
            assert(seq![e] =~= s.subrange(k - 1, k as int));
            assert(s.take(k - 1) =~= s.take(lo) + cur);
            let before = flat(gs).to_multiset();
            let upto = s.take(lo).to_multiset();
            if cur.len() >= 3 {
                let ng = gs.push(cur);
                assert(ng.drop_last() =~= gs);
                assert(flat(ng) == flat(gs) + cur);
                assert forall|x: (usize, nat)| flat(ng).to_multiset().count(x) <= s.take(k - 1).to_multiset().count(x) by {
                    assert(before.count(x) <= upto.count(x));
                }
            } else {
                assert forall|x: (usize, nat)| before.count(x) <= s.take(k - 1).to_multiset().count(x) by {
                    assert(before.count(x) <= upto.count(x));
                }
            }
        }
    }
}

/// Any group, and any two distinct groups together, lie within the
/// concatenation of all groups.
proof fn lemma_flat_pair(gs: Seq<Seq<(usize, nat)>>, i: int, j: int)
    requires
        0 <= i < gs.len(),
        i <= j < gs.len(),
    ensures
        gs[i].to_multiset().subset_of(flat(gs).to_multiset()),
        i < j ==> gs[i].to_multiset().add(gs[j].to_multiset()).subset_of(flat(gs).to_multiset()),
    decreases gs.len(),
{
    broadcast use vstd::multiset::group_multiset_axioms;
    broadcast use vstd::seq_lib::lemma_multiset_commutative;
    let n = gs.len() - 1;
    let pre = gs.drop_last();
    assert(flat(gs) == flat(pre) + gs.last());
    let whole = flat(gs).to_multiset();
    let head = flat(pre).to_multiset();
    assert(whole =~= head.add(gs.last().to_multiset()));
    if j == n {
        if i < n {
            lemma_flat_pair(pre, i, i);
            assert(pre[i] == gs[i]);
            assert forall|x: (usize, nat)| gs[i].to_multiset().add(gs[j].to_multiset()).count(x) <= whole.count(x) by {
                assert(gs[i].to_multiset().count(x) <= head.count(x));
            }
        }
        if i == n {
            assert forall|x: (usize, nat)| gs[i].to_multiset().count(x) <= whole.count(x) by {}
        } else {
            assert forall|x: (usize, nat)| gs[i].to_multiset().count(x) <= whole.count(x) by {
                assert(gs[i].to_multiset().count(x) <= head.count(x));
            }
        }
    } else {
        lemma_flat_pair(pre, i, j);
        assert(pre[i] == gs[i] && pre[j] == gs[j]);
        assert forall|x: (usize, nat)| gs[i].to_multiset().count(x) <= whole.count(x) by {
            assert(gs[i].to_multiset().count(x) <= head.count(x));
        }
        if i < j {
            assert forall|x: (usize, nat)| gs[i].to_multiset().add(gs[j].to_multiset()).count(x) <= whole.count(x) by {
                assert(gs[i].to_multiset().add(gs[j].to_multiset()).count(x) <= head.count(x));
            }
        }
    }
}

/// Arity grouping draws its groups from the input without overlap: the
/// groups, taken together, hold each entry of the input at most as often
/// as the input does (so any two groups are disjoint, and each lies within
/// the input), and there are no groups when the input has fewer than three
/// entries.
pub proof fn law_arity_groups_from_members(s: Seq<(usize, nat)>)
    ensures
        flat(arity_groups(s)).to_multiset().subset_of(s.to_multiset()),
        forall|i: int, j: int| 0 <= i < j < arity_groups(s).len() ==>
            (#[trigger] arity_groups(s)[i]).to_multiset().add((#[trigger] arity_groups(s)[j]).to_multiset())
                .subset_of(s.to_multiset()),
        forall|i: int| 0 <= i < arity_groups(s).len() ==>
            (#[trigger] arity_groups(s)[i]).to_multiset().subset_of(s.to_multiset()),
        s.len() < 3 ==> arity_groups(s).len() == 0,
{
    lemma_arity_groups_flat(s);
    let gs = arity_groups(s);
    assert forall|i: int, j: int| 0 <= i < j < gs.len() implies
        (#[trigger] gs[i]).to_multiset().add((#[trigger] gs[j]).to_multiset()).subset_of(s.to_multiset()) by {
        lemma_flat_pair(gs, i, j);
    }
    assert forall|i: int| 0 <= i < gs.len() implies (#[trigger] gs[i]).to_multiset().subset_of(s.to_multiset()) by {
        lemma_flat_pair(gs, i, i);
    }
}

proof fn lemma_arity_groups_flat(s: Seq<(usize, nat)>)
    ensures
        flat(arity_groups(s)).to_multiset().subset_of(s.to_multiset()),
        s.len() < 3 ==> arity_groups(s).len() == 0,
{
    broadcast use vstd::multiset::group_multiset_axioms;
    broadcast use vstd::seq_lib::lemma_multiset_commutative;
    if s.len() == 0 {
        assert(flat(arity_groups(s)) =~= Seq::<(usize, nat)>::empty());
        assert(Seq::<(usize, nat)>::empty().to_multiset() =~= vstd::multiset::Multiset::empty()) by {
            broadcast use vstd::seq_lib::group_to_multiset_ensures;
        }
    } else {
        let n = s.len();
        lemma_group_fold_parts(s, n);
        let (gs, cur, anchor) = group_fold(s, n);
        let lo = n - cur.len();
        assert(s =~= s.take(lo) + cur);
        assert(s.take(n as int) =~= s);
        let before = flat(gs).to_multiset();
        let upto = s.take(lo).to_multiset();
        if cur.len() >= 3 {
            let ng = gs.push(cur);
            assert(ng.drop_last() =~= gs);
            assert(flat(ng) == flat(gs) + cur);
            assert forall|x: (usize, nat)| flat(ng).to_multiset().count(x) <= s.to_multiset().count(x) by {
                assert(before.count(x) <= upto.count(x));
            }
        } else {
            assert forall|x: (usize, nat)| before.count(x) <= s.to_multiset().count(x) by {
                assert(before.count(x) <= upto.count(x));
            }
        }
    }
}

/// The distinct entries of the first `k` of `cs`, in order.
pub open spec fn dedup_upto(cs: Seq<SymbolId>, k: nat) -> Seq<SymbolId>
    decreases k,
{
    if k == 0 || k > cs.len() {
        seq![]
    } else {
        let prev = dedup_upto(cs, (k - 1) as nat);
        if prev.contains(cs[k - 1]) { prev } else { prev.push(cs[k - 1]) }
    }
}

/// The distinct callees of symbol `i` (by index), in order of first call;
/// none for an index past the symbols.
pub open spec fn callees_of(g: Graph, i: usize) -> Seq<SymbolId> {
    if i < g.syms().len() {
        let cs = call_targets(g.out_edges(SymbolId((i + 1) as usize)));
        dedup_upto(cs, cs.len())
    } else {
        seq![]
    }
}

/// The callee sets of the members of group `gr`.
pub open spec fn member_sets(g: Graph, gr: Seq<(usize, nat)>) -> Seq<Seq<SymbolId>> {
    gr.map_values(|e: (usize, nat)| callees_of(g, e.0))
}

/// Not among `s`.
pub open spec fn not_in(s: Seq<SymbolId>) -> spec_fn(SymbolId) -> bool {
    |c: SymbolId| !s.contains(c)
}

/// Held by all of `sets` but at most one.
pub open spec fn held_by_most(sets: Seq<Seq<SymbolId>>) -> spec_fn(SymbolId) -> bool {
    |c: SymbolId| holders_upto(sets, c, sets.len()) + 1 >= sets.len()
}

/// Distinct callees over the first `k` sets, in order of first appearance.
pub open spec fn union_upto(sets: Seq<Seq<SymbolId>>, k: nat) -> Seq<SymbolId>
    decreases k,
{
    if k == 0 || k > sets.len() {
        seq![]
    } else {
        let prev = union_upto(sets, (k - 1) as nat);
        prev + sets[k - 1].filter(not_in(prev))
    }
}

/// Number of the first `k` sets that hold `c`.
pub open spec fn holders_upto(sets: Seq<Seq<SymbolId>>, c: SymbolId, k: nat) -> nat
    decreases k,
{
    if k == 0 || k > sets.len() {
        0
    } else {
        holders_upto(sets, c, (k - 1) as nat) + if sets[k - 1].contains(c) { 1nat } else { 0nat }
    }
}

/// The consensus callees of a group's sets: held by all but at most one.
pub open spec fn consensus(sets: Seq<Seq<SymbolId>>) -> Seq<SymbolId> {
    union_upto(sets, sets.len()).filter(held_by_most(sets))
}

/// The consensus callees that `set` lacks.
pub open spec fn missing_from(cons: Seq<SymbolId>, set: Seq<SymbolId>) -> Seq<SymbolId> {
    cons.filter(not_in(set))
}

/// The qualified name of symbol `i` (by index), empty when there is none.
pub open spec fn qname(g: Graph, i: usize) -> Seq<char> {
    if i < g.syms().len() { g.syms()[i as int].qualified_name@ } else { seq![] }
}

/// Qualified names of the first `k` members of the group other than the
/// `m`-th.
pub open spec fn sibs_upto(g: Graph, gr: Seq<(usize, nat)>, m: int, k: nat) -> Seq<Seq<char>>
    decreases k,
{
    if k == 0 || k > gr.len() {
        seq![]
    } else if k - 1 == m {
        sibs_upto(g, gr, m, (k - 1) as nat)
    } else {
        sibs_upto(g, gr, m, (k - 1) as nat).push(qname(g, gr[k - 1].0))
    }
}

/// Qualified names of the group's members other than the `m`-th.
pub open spec fn sibling_names(g: Graph, gr: Seq<(usize, nat)>, m: int) -> Seq<Seq<char>> {
    sibs_upto(g, gr, m, gr.len())
}

/// The diagnostic for member `m` of group `gr`, missing `miss`.
pub open spec fn asym_diag(g: Graph, root: Seq<char>, gr: Seq<(usize, nat)>, m: int, miss: Seq<SymbolId>) -> DiagnosticView {
    let s = g.syms()[gr[m].0 as int];
    let n = gr.len();
    let names = join(stored_names(g, miss, miss.len()), ", "@);
    let location = loc(s.location.file@, root, s.location.line);
    DiagnosticView {
        id: seq![],
        pattern: DiagnosticPattern::AsymmetricHandling,
        severity: Severity::Warning,
        confidence: Confidence::Moderate,
        entity: s.qualified_name@,
        message: "Asymmetric handling: '"@ + s.name@ + "' is missing ["@ + names + "] which "@ + dec((n - 1) as nat)
            + "/"@ + dec(n) + " sibling(s) call"@,
        evidence: seq![EvidenceView {
            observation: "Missing consensus callee(s): ["@ + names + "]. Present in "@ + dec((n - 1) as nat) + "/"@
                + dec(n) + " siblings."@,
            location: Some(location),
            context: Some("Siblings: ["@ + join(sibling_names(g, gr, m), ", "@) + "]"@),
        }],
        suggestion: "Verify that '"@ + s.name@ + "' intentionally omits ["@ + names + "] \u{2014} all "@
            + dec((n - 1) as nat) + " sibling function(s) call it"@,
        location,
    }
}

/// Diagnostics for the first `k` members of group `gr`.
pub open spec fn group_diags_upto(g: Graph, root: Seq<char>, gr: Seq<(usize, nat)>, k: nat) -> Seq<DiagnosticView>
    decreases k,
{
    if k == 0 || k > gr.len() {
        seq![]
    } else {
        let prev = group_diags_upto(g, root, gr, (k - 1) as nat);
        let sets = member_sets(g, gr);
        let miss = missing_from(consensus(sets), sets[k - 1]);
        if miss.len() > 0 && gr[k - 1].0 < g.syms().len() {
            prev.push(asym_diag(g, root, gr, k - 1, miss))
        } else {
            prev
        }
    }
}

/// Diagnostics for the first `k` groups of `grs`.
pub open spec fn groups_diags_upto(g: Graph, root: Seq<char>, grs: Seq<Seq<(usize, nat)>>, k: nat) -> Seq<DiagnosticView>
    decreases k,
{
    if k == 0 || k > grs.len() {
        seq![]
    } else {
        groups_diags_upto(g, root, grs, (k - 1) as nat) + group_diags_upto(g, root, grs[k - 1], grs[k - 1].len())
    }
}

/// The arity groups of key `key`.
pub open spec fn key_groups(g: Graph, key: (Seq<char>, SymbolKind)) -> Seq<Seq<(usize, nat)>> {
    let ms = key_members_upto(g, key, g.syms().len());
    arity_groups(sort_by_version(ms, ms.len()))
}

/// Diagnostics for the first `k` keys of `keys`.
pub open spec fn asym_upto(g: Graph, root: Seq<char>, keys: Seq<(Seq<char>, SymbolKind)>, k: nat) -> Seq<DiagnosticView>
    decreases k,
{
    if k == 0 || k > keys.len() {
        seq![]
    } else {
        let grs = key_groups(g, keys[k - 1]);
        asym_upto(g, root, keys, (k - 1) as nat) + groups_diags_upto(g, root, grs, grs.len())
    }
}

/// All asymmetric handling diagnostics, keys in order of first appearance.
pub open spec fn asymmetries(g: Graph, root: Seq<char>) -> Seq<DiagnosticView> {
    let keys = asym_keys_upto(g, g.syms().len());
    asym_upto(g, root, keys, keys.len())
}

/// `d` is the finding of member `m` of group `gr`: the member is a stored
/// symbol lacking some consensus callees of its group, and `d` reports
/// exactly those.
pub open spec fn member_finding(g: Graph, root: Seq<char>, gr: Seq<(usize, nat)>, m: int, d: DiagnosticView) -> bool {
    let sets = member_sets(g, gr);
    let miss = missing_from(consensus(sets), sets[m]);
    &&& miss.len() > 0
    &&& gr[m].0 < g.syms().len()
    &&& d == asym_diag(g, root, gr, m, miss)
}

/// The findings of member `m` of group `gr`.
pub open spec fn member_at(g: Graph, root: Seq<char>, gr: Seq<(usize, nat)>) -> spec_fn(int) -> Seq<DiagnosticView> {
    |m: int| {
        let sets = member_sets(g, gr);
        let miss = missing_from(consensus(sets), sets[m]);
        if miss.len() > 0 && gr[m].0 < g.syms().len() { seq![asym_diag(g, root, gr, m, miss)] } else { seq![] }
    }
}

proof fn lemma_group_gathered(g: Graph, root: Seq<char>, gr: Seq<(usize, nat)>, k: nat)
    requires
        k <= gr.len(),
    ensures
        group_diags_upto(g, root, gr, k) == gathered(k, member_at(g, root, gr)),
    decreases k,
{
    if k > 0 {
        lemma_group_gathered(g, root, gr, (k - 1) as nat);
        assert(group_diags_upto(g, root, gr, k) =~= gathered(k, member_at(g, root, gr)));
    }
}

/// The findings of the `i`-th group of `grs`.
pub open spec fn group_at(g: Graph, root: Seq<char>, grs: Seq<Seq<(usize, nat)>>) -> spec_fn(int) -> Seq<DiagnosticView> {
    |i: int| group_diags_upto(g, root, grs[i], grs[i].len())
}

proof fn lemma_groups_gathered(g: Graph, root: Seq<char>, grs: Seq<Seq<(usize, nat)>>, k: nat)
    requires
        k <= grs.len(),
    ensures
        groups_diags_upto(g, root, grs, k) == gathered(k, group_at(g, root, grs)),
    decreases k,
{
    if k > 0 {
        lemma_groups_gathered(g, root, grs, (k - 1) as nat);
    }
}

/// The findings of the groups of the `i`-th key of `keys`.
pub open spec fn key_at(g: Graph, root: Seq<char>, keys: Seq<(Seq<char>, SymbolKind)>) -> spec_fn(int) -> Seq<DiagnosticView> {
    |i: int| groups_diags_upto(g, root, key_groups(g, keys[i]), key_groups(g, keys[i]).len())
}

proof fn lemma_keys_gathered(g: Graph, root: Seq<char>, keys: Seq<(Seq<char>, SymbolKind)>, k: nat)
    requires
        k <= keys.len(),
    ensures
        asym_upto(g, root, keys, k) == gathered(k, key_at(g, root, keys)),
    decreases k,
{
    if k > 0 {
        lemma_keys_gathered(g, root, keys, (k - 1) as nat);
    }
}

proof fn lemma_member_at(g: Graph, root: Seq<char>, gr: Seq<(usize, nat)>, m: int, d: DiagnosticView)
    ensures
        member_at(g, root, gr)(m).contains(d) <==> member_finding(g, root, gr, m, d),
{
    let o = member_at(g, root, gr)(m);
    if o.contains(d) {
        let k = choose|k: int| 0 <= k < o.len() && #[trigger] o[k] == d;
        assert(o.len() == 1);
    }
    if member_finding(g, root, gr, m, d) {
        assert(o[0] == d);
    }
}

/// Asymmetric handling is reported for exactly the members that lack a
/// consensus callee: a finding belongs to some arity group of some (file,
/// kind) key and is the diagnostic of a stored member of that group that
/// misses callees held by all but at most one member, naming the missing
/// ones; every such member has its finding.
pub proof fn law_asymmetry_findings(g: Graph, root: Seq<char>)
    ensures
        forall|d: DiagnosticView| asymmetries(g, root).contains(d) <==> exists|kk: int, gi: int, m: int|
            0 <= kk < asym_keys_upto(g, g.syms().len()).len()
            && 0 <= gi < key_groups(g, asym_keys_upto(g, g.syms().len())[kk]).len()
            && 0 <= m < key_groups(g, asym_keys_upto(g, g.syms().len())[kk])[gi].len()
            && #[trigger] member_finding(g, root, key_groups(g, asym_keys_upto(g, g.syms().len())[kk])[gi], m, d),
{
    let keys = asym_keys_upto(g, g.syms().len());
    lemma_keys_gathered(g, root, keys, keys.len());
    lemma_gathered_members(keys.len(), key_at(g, root, keys));
    assert forall|d: DiagnosticView| asymmetries(g, root).contains(d) <==> exists|kk: int, gi: int, m: int|
        0 <= kk < keys.len()
        && 0 <= gi < key_groups(g, keys[kk]).len()
        && 0 <= m < key_groups(g, keys[kk])[gi].len()
        && #[trigger] member_finding(g, root, key_groups(g, keys[kk])[gi], m, d) by {
        if asymmetries(g, root).contains(d) {
            let kk = choose|kk: int| 0 <= kk < keys.len() && (#[trigger] key_at(g, root, keys)(kk)).contains(d);
            let grs = key_groups(g, keys[kk]);
            lemma_groups_gathered(g, root, grs, grs.len());
            lemma_gathered_members(grs.len(), group_at(g, root, grs));
            let gi = choose|gi: int| 0 <= gi < grs.len() && (#[trigger] group_at(g, root, grs)(gi)).contains(d);
            let gr = grs[gi];
            lemma_group_gathered(g, root, gr, gr.len());
            lemma_gathered_members(gr.len(), member_at(g, root, gr));
            let m = choose|m: int| 0 <= m < gr.len() && (#[trigger] member_at(g, root, gr)(m)).contains(d);
            lemma_member_at(g, root, gr, m, d);
        }
        if exists|kk: int, gi: int, m: int|
            0 <= kk < keys.len()
            && 0 <= gi < key_groups(g, keys[kk]).len()
            && 0 <= m < key_groups(g, keys[kk])[gi].len()
            && #[trigger] member_finding(g, root, key_groups(g, keys[kk])[gi], m, d) {
            let (kk, gi, m) = choose|kk: int, gi: int, m: int|
                0 <= kk < keys.len()
                && 0 <= gi < key_groups(g, keys[kk]).len()
                && 0 <= m < key_groups(g, keys[kk])[gi].len()
                && #[trigger] member_finding(g, root, key_groups(g, keys[kk])[gi], m, d);
            let grs = key_groups(g, keys[kk]);
            let gr = grs[gi];
            lemma_member_at(g, root, gr, m, d);
            lemma_group_gathered(g, root, gr, gr.len());
            lemma_gathered_members(gr.len(), member_at(g, root, gr));
            assert(group_at(g, root, grs)(gi).contains(d));
            lemma_groups_gathered(g, root, grs, grs.len());
            lemma_gathered_members(grs.len(), group_at(g, root, grs));
            assert(key_at(g, root, keys)(kk).contains(d));
        }
    }
}

fn key_index(keys: &Vec<(Vec<char>, SymbolKind)>, f: &Vec<char>, k: SymbolKind) -> (r: bool)
    ensures
        r == keys@.map_values(|x: (Vec<char>, SymbolKind)| (x.0@, x.1)).contains((f@, k)),
{
    let ghost kv = keys@.map_values(|x: (Vec<char>, SymbolKind)| (x.0@, x.1));
    let mut i: usize = 0;
    while i < keys.len()
        invariant
            i <= keys@.len(),
            kv == keys@.map_values(|x: (Vec<char>, SymbolKind)| (x.0@, x.1)),
            forall|j: int| 0 <= j < i ==> kv[j] != (f@, k),
        decreases keys@.len() - i,
    {
        if chars_eq(&keys[i].0, f) && keys[i].1 == k {
            assert(kv[i as int] == (f@, k));
            return true;
        }
        i = i + 1;
    }
    false
}

/// The views of (index, arity) entries.
pub open spec fn entry_views(v: Seq<(usize, usize)>) -> Seq<(usize, nat)> {
    v.map_values(|e: (usize, usize)| (e.0, e.1 as nat))
}

fn insert_by_arity(s: &mut Vec<(usize, usize)>, e: (usize, usize))
    ensures
        entry_views(final(s)@) == insert_by_version(entry_views(old(s)@), (e.0, e.1 as nat)),
    decreases old(s)@.len(),
{
    let ghost sv = entry_views(s@);
    if s.len() == 0 || s[s.len() - 1].1 <= e.1 {
        s.push(e);
        assert(entry_views(s@) =~= sv.push((e.0, e.1 as nat)));
    } else {
        let last = s.pop().unwrap();
        assert(entry_views(s@) =~= sv.drop_last());
        insert_by_arity(s, e);
        let ghost mid = entry_views(s@);
        s.push(last);
        assert(entry_views(s@) =~= mid.push((last.0, last.1 as nat)));
    }
}

fn group_sorted(sorted: &Vec<(usize, usize)>) -> (r: Vec<Vec<(usize, usize)>>)
    ensures
        r@.map_values(|v: Vec<(usize, usize)>| entry_views(v@)) == arity_groups(entry_views(sorted@)),
{
    let ghost sv = entry_views(sorted@);
    let mut groups: Vec<Vec<(usize, usize)>> = Vec::new();
    if sorted.len() == 0 {
        return groups;
    }
    let mut cur: Vec<(usize, usize)> = Vec::new();
    cur.push(sorted[0]);
    let mut anchor: usize = sorted[0].1;
    assert(entry_views(cur@) =~= seq![sv[0]]);
    let mut k: usize = 1;
    while k < sorted.len()
        invariant
            1 <= k <= sorted@.len(),
            sv == entry_views(sorted@),
            group_fold(sv, k as nat) == (groups@.map_values(|v: Vec<(usize, usize)>| entry_views(v@)), entry_views(cur@), anchor as nat),
        decreases sorted@.len() - k,
    {
        let e = sorted[k];
        assert(sv[k as int] == (e.0, e.1 as nat));
        let ghost gv = groups@.map_values(|v: Vec<(usize, usize)>| entry_views(v@));
        let ghost cv = entry_views(cur@);
        if (anchor >= e.1 && anchor - e.1 <= 1) || (e.1 >= anchor && e.1 - anchor <= 1) {
            cur.push(e);
            assert(entry_views(cur@) =~= cv.push(sv[k as int]));
        } else {
            if cur.len() >= 3 {
                let mut done: Vec<(usize, usize)> = Vec::new();
                std::mem::swap(&mut done, &mut cur);
                groups.push(done);
                assert(groups@.map_values(|v: Vec<(usize, usize)>| entry_views(v@)) =~= gv.push(cv));
            } else {
                cur = Vec::new();
            }
            cur.push(e);
            anchor = e.1;
            assert(entry_views(cur@) =~= seq![sv[k as int]]);
        }
        k = k + 1;
    }
    if cur.len() >= 3 {
        let ghost gv = groups@.map_values(|v: Vec<(usize, usize)>| entry_views(v@));
        let ghost cv = entry_views(cur@);
        groups.push(cur);
        assert(groups@.map_values(|v: Vec<(usize, usize)>| entry_views(v@)) =~= gv.push(cv));
    }
    groups
}

fn callees_exec(graph: &Graph, i: usize) -> (r: Vec<SymbolId>)
    ensures
        r@ == callees_of(*graph, i),
{
    if i >= graph.symbol_count() {
        return Vec::new();
    }
    proof {
        graph.lemma_len_bounds();
    }
    let cs = graph.callees(SymbolId(i + 1));
    let mut out: Vec<SymbolId> = Vec::new();
    let mut k: usize = 0;
    while k < cs.len()
        invariant
            k <= cs@.len(),
            out@ == dedup_upto(cs@, k as nat),
        decreases cs@.len() - k,
    {
        if !has_id(&out, cs[k]) {
            out.push(cs[k]);
        }
        k = k + 1;
    }
    out
}

fn filter_absent(v: &Vec<SymbolId>, s: &Vec<SymbolId>) -> (r: Vec<SymbolId>)
    ensures
        r@ == v@.filter(not_in(s@)),
{
    let mut out: Vec<SymbolId> = Vec::new();
    let mut k: usize = 0;
    while k < v.len()
        invariant
            k <= v@.len(),
            out@ == v@.take(k as int).filter(not_in(s@)),
        decreases v@.len() - k,
    {
        assert(v@.take(k + 1) =~= v@.take(k as int).push(v@[k as int]));
        proof {
            v@.take(k as int).lemma_filter_push(v@[k as int], not_in(s@));
        }
        if !has_id(s, v[k]) {
            out.push(v[k]);
        }
        k = k + 1;
    }
    assert(v@.take(v@.len() as int) =~= v@);
    out
}

fn consensus_exec(sets: &Vec<Vec<SymbolId>>) -> (r: Vec<SymbolId>)
    ensures
        r@ == consensus(sets@.map_values(|v: Vec<SymbolId>| v@)),
{
    let ghost sv = sets@.map_values(|v: Vec<SymbolId>| v@);
    let mut uni: Vec<SymbolId> = Vec::new();
    let mut k: usize = 0;
    while k < sets.len()
        invariant
            k <= sets@.len(),
            sv == sets@.map_values(|v: Vec<SymbolId>| v@),
            uni@ == union_upto(sv, k as nat),
        decreases sets@.len() - k,
    {
        let extra = filter_absent(&sets[k], &uni);
        let mut j: usize = 0;
        let ghost before = uni@;
        while j < extra.len()
            invariant
                j <= extra@.len(),
                uni@ == before + extra@.take(j as int),
            decreases extra@.len() - j,
        {
            uni.push(extra[j]);
            assert(extra@.take(j + 1) =~= extra@.take(j as int).push(extra@[j as int]));
            assert(uni@ =~= before + extra@.take(j + 1));
            j = j + 1;
        }
        assert(extra@.take(extra@.len() as int) =~= extra@);
        k = k + 1;
    }
    let n = sets.len();
    let mut out: Vec<SymbolId> = Vec::new();
    let mut q: usize = 0;
    while q < uni.len()
        invariant
            q <= uni@.len(),
            n == sv.len(),
            sv == sets@.map_values(|v: Vec<SymbolId>| v@),
            uni@ == union_upto(sv, sv.len()),
            out@ == uni@.take(q as int).filter(held_by_most(sv)),
        decreases uni@.len() - q,
    {
        let c = uni[q];
        let mut holders: usize = 0;
        let mut m: usize = 0;
        while m < sets.len()
            invariant
                m <= sets@.len(),
                holders <= m,
                sv == sets@.map_values(|v: Vec<SymbolId>| v@),
                holders == holders_upto(sv, c, m as nat),
            decreases sets@.len() - m,
        {
            if has_id(&sets[m], c) {
                holders = holders + 1;
            }
            m = m + 1;
        }
        assert(uni@.take(q + 1) =~= uni@.take(q as int).push(c));
        proof {
            uni@.take(q as int).lemma_filter_push(c, held_by_most(sv));
        }
        if n == 0 || holders >= n - 1 {
            out.push(c);
        }
        q = q + 1;
    }
    assert(uni@.take(uni@.len() as int) =~= uni@);
    out
}

fn build_asym(graph: &Graph, project_root: &str, gr: &Vec<(usize, usize)>, m: usize, miss: &Vec<SymbolId>) -> (d: Diagnostic)
    requires
        m < gr@.len(),
        gr@[m as int].0 < graph.syms().len(),
    ensures
        d@ == asym_diag(*graph, project_root@, entry_views(gr@), m as int, miss@),
{
    let ghost gv = entry_views(gr@);
    let s = graph.symbol_at(gr[m].0);
    let n = gr.len();
    let names = names_exec(graph, miss);
    let mut sibs: Vec<Vec<char>> = Vec::new();
    let mut j: usize = 0;
    while j < n
        invariant
            n == gr@.len(),
            m < n,
            j <= n,
            gv == entry_views(gr@),
            sibs@.map_values(|p: Vec<char>| p@) == sibs_upto(*graph, gv, m as int, j as nat),
        decreases n - j,
    {
        if j != m {
            let ghost before = sibs@.map_values(|p: Vec<char>| p@);
            let q = if gr[j].0 < graph.symbol_count() {
                chars_of(graph.symbol_at(gr[j].0).qualified_name.as_str())
            } else {
                Vec::new()
            };
            sibs.push(q);
            assert(sibs@.map_values(|p: Vec<char>| p@) =~= before.push(q@));
        }
        j = j + 1;
    }
    let location = symbol_location(s, project_root);
    let mut message = String::new();
    push_str(&mut message, "Asymmetric handling: '");
    push_str(&mut message, s.name.as_str());
    push_str(&mut message, "' is missing [");
    push_joined(&mut message, &names, ", ");
    push_str(&mut message, "] which ");
    push_usize(&mut message, n - 1);
    push_str(&mut message, "/");
    push_usize(&mut message, n);
    push_str(&mut message, " sibling(s) call");
    let mut obs = String::new();
    push_str(&mut obs, "Missing consensus callee(s): [");
    push_joined(&mut obs, &names, ", ");
    push_str(&mut obs, "]. Present in ");
    push_usize(&mut obs, n - 1);
    push_str(&mut obs, "/");
    push_usize(&mut obs, n);
    push_str(&mut obs, " siblings.");
    let mut ctx = String::new();
    push_str(&mut ctx, "Siblings: [");
    push_joined(&mut ctx, &sibs, ", ");
    push_str(&mut ctx, "]");
    let mut suggestion = String::new();
    push_str(&mut suggestion, "Verify that '");
    push_str(&mut suggestion, s.name.as_str());
    push_str(&mut suggestion, "' intentionally omits [");
    push_joined(&mut suggestion, &names, ", ");
    push_str(&mut suggestion, "] \u{2014} all ");
    push_usize(&mut suggestion, n - 1);
    push_str(&mut suggestion, " sibling function(s) call it");
    let ev = Evidence { observation: obs, location: Some(location.clone()), context: Some(ctx) };
    let d = Diagnostic {
        id: String::new(),
        pattern: DiagnosticPattern::AsymmetricHandling,
        severity: Severity::Warning,
        confidence: Confidence::Moderate,
        entity: s.qualified_name.clone(),
        message,
        evidence: vec![ev],
        suggestion,
        location,
    };
    let ghost want = asym_diag(*graph, project_root@, gv, m as int, miss@);
    assert(d@.evidence =~= seq![ev@]);
    assert(d@.message =~= want.message);
    assert(d@.suggestion =~= want.suggestion);
    assert(ev@.observation =~= want.evidence[0].observation);
    assert(ev@.context =~= want.evidence[0].context);
    d
}

/// Groups the members of one (file, kind) key by similar arity: sorted by
/// arity (stably), each run whose arities lie within one of its first
/// member's forms a group; groups of three or more are kept.
fn build_arity_groups(members: &Vec<(usize, usize)>) -> (r: Vec<Vec<(usize, usize)>>)
    ensures
        r@.map_values(|v: Vec<(usize, usize)>| entry_views(v@))
            == arity_groups(sort_by_version(entry_views(members@), members@.len())),
{
    let ghost mv = entry_views(members@);
    let mut sorted: Vec<(usize, usize)> = Vec::new();
    let mut q: usize = 0;
    while q < members.len()
        invariant
            q <= members@.len(),
            mv == entry_views(members@),
            entry_views(sorted@) == sort_by_version(mv, q as nat),
        decreases members@.len() - q,
    {
        assert(mv[q as int] == (members@[q as int].0, members@[q as int].1 as nat));
        insert_by_arity(&mut sorted, members[q]);
        q = q + 1;
    }
    group_sorted(&sorted)
}

fn group_diags(graph: &Graph, project_root: &str, gr: &Vec<(usize, usize)>, out: &mut Vec<Diagnostic>)
    ensures
        diag_views(final(out)@) == diag_views(old(out)@) + group_diags_upto(*graph, project_root@, entry_views(gr@), gr@.len()),
{
    let ghost gv = entry_views(gr@);
    let ghost base = diag_views(out@);
    let mut sets: Vec<Vec<SymbolId>> = Vec::new();
    let mut k: usize = 0;
    while k < gr.len()
        invariant
            k <= gr@.len(),
            gv == entry_views(gr@),
            sets@.map_values(|v: Vec<SymbolId>| v@) == member_sets(*graph, gv).take(k as int),
        decreases gr@.len() - k,
    {
        let ghost before = sets@.map_values(|v: Vec<SymbolId>| v@);
        let c = callees_exec(graph, gr[k].0);
        sets.push(c);
        assert(member_sets(*graph, gv).take(k + 1) =~= member_sets(*graph, gv).take(k as int).push(c@));
        assert(sets@.map_values(|v: Vec<SymbolId>| v@) =~= before.push(c@));
        k = k + 1;
    }
    assert(member_sets(*graph, gv).take(gr@.len() as int) =~= member_sets(*graph, gv));
    let cons = consensus_exec(&sets);
    let mut m: usize = 0;
    while m < gr.len()
        invariant
            m <= gr@.len(),
            gv == entry_views(gr@),
            sets@.len() == gr@.len(),
            sets@.map_values(|v: Vec<SymbolId>| v@) == member_sets(*graph, gv),
            cons@ == consensus(member_sets(*graph, gv)),
            diag_views(out@) == base + group_diags_upto(*graph, project_root@, gv, m as nat),
        decreases gr@.len() - m,
    {
        let miss = filter_absent(&cons, &sets[m]);
        assert(sets@[m as int]@ == member_sets(*graph, gv)[m as int]);
        if miss.len() > 0 && gr[m].0 < graph.symbol_count() {
            let d = build_asym(graph, project_root, gr, m, &miss);
            let ghost before = diag_views(out@);
            out.push(d);
            assert(diag_views(out@) =~= before.push(d@));
        }
        m = m + 1;
    }
}

/// Detect asymmetric handling: functions and methods outside test files are
/// grouped by file and kind (keys in order of first appearance), then by
/// similar arity; in each group of three or more, a member that lacks some
/// of the callees that all but at most one member call is reported.
/// Severity: Warning. Confidence: Moderate.
pub fn detect(graph: &Graph, project_root: &str) -> (r: Vec<Diagnostic>)
    ensures
        diag_views(r@) == asymmetries(*graph, project_root@),
{
    let n = graph.symbol_count();
    let mut keys: Vec<(Vec<char>, SymbolKind)> = Vec::new();
    let mut i: usize = 0;
    while i < n
        invariant
            n == graph.syms().len(),
            i <= n,
            keys@.map_values(|x: (Vec<char>, SymbolKind)| (x.0@, x.1)) == asym_keys_upto(*graph, i as nat),
        decreases n - i,
    {
        let s = graph.symbol_at(i);
        if is_dup_candidate(s) {
            let f = chars_of(s.location.file.as_str());
            if !key_index(&keys, &f, s.kind) {
                let ghost before = keys@.map_values(|x: (Vec<char>, SymbolKind)| (x.0@, x.1));
                let ghost key = (f@, s.kind);
                keys.push((f, s.kind));
                assert(keys@.map_values(|x: (Vec<char>, SymbolKind)| (x.0@, x.1)) =~= before.push(key));
            }
        }
        i = i + 1;
    }
    let ghost kv = keys@.map_values(|x: (Vec<char>, SymbolKind)| (x.0@, x.1));
    let mut out: Vec<Diagnostic> = Vec::new();
    let mut k: usize = 0;
    while k < keys.len()
        invariant
            n == graph.syms().len(),
            k <= keys@.len(),
            kv == keys@.map_values(|x: (Vec<char>, SymbolKind)| (x.0@, x.1)),
            kv == asym_keys_upto(*graph, n as nat),
            diag_views(out@) == asym_upto(*graph, project_root@, kv, k as nat),
        decreases keys@.len() - k,
    {
        let f = &keys[k].0;
        let kind = keys[k].1;
        let ghost key = (f@, kind);
        assert(kv[k as int] == key);
        let mut ms: Vec<(usize, usize)> = Vec::new();
        let mut j: usize = 0;
        while j < n
            invariant
                n == graph.syms().len(),
                j <= n,
                key == (f@, kind),
                entry_views(ms@) == key_members_upto(*graph, key, j as nat),
            decreases n - j,
        {
            let s = graph.symbol_at(j);
            let fc = chars_of(s.location.file.as_str());
            let c1 = is_dup_candidate(s);
            let c2 = s.kind == kind;
            let c3 = chars_eq(&fc, f);
            let hit = c1 && c2 && c3;
            assert(hit == (dup_candidate(*graph, j as int) && (s.location.file@, s.kind) == key));
            if hit {
                let ghost before = entry_views(ms@);
                let a = extract_arity(sig_str(s));
                ms.push((j, a));
                assert(entry_views(ms@) =~= before.push((j, a as nat)));
            }
            j = j + 1;
        }
        let groups = build_arity_groups(&ms);
        let ghost grs = groups@.map_values(|v: Vec<(usize, usize)>| entry_views(v@));
        assert(grs == key_groups(*graph, key));
        let ghost base = diag_views(out@);
        let mut p: usize = 0;
        while p < groups.len()
            invariant
                p <= groups@.len(),
                grs == groups@.map_values(|v: Vec<(usize, usize)>| entry_views(v@)),
                diag_views(out@) == base + groups_diags_upto(*graph, project_root@, grs, p as nat),
            decreases groups@.len() - p,
        {
            assert(grs[p as int] == entry_views(groups@[p as int]@));
            group_diags(graph, project_root, &groups[p], &mut out);
            assert(diag_views(out@) =~= base + groups_diags_upto(*graph, project_root@, grs, (p + 1) as nat));
            p = p + 1;
        }
        assert(diag_views(out@) =~= asym_upto(*graph, project_root@, kv, (k + 1) as nat));
        k = k + 1;
    }
    out
}

} // verus!
