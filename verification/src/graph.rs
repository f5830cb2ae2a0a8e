//! The analysis graph: a symbol table plus the references between symbols.
//!
//! Symbols are numbered from 1 in insertion order (`SymbolId(i + 1)` is the
//! `i`-th symbol); references likewise. Edges are derived from references:
//! a reference `from -> to` of kind `k` gives `from` an outgoing edge to `to`
//! and `to` an incoming edge from `from`, of kind `edge_kind_of(k)`.

use vstd::prelude::*;

use crate::ir::{edge_kind_of, EdgeKind, Reference, ReferenceId, ReferenceKind, Symbol, SymbolId};

verus! {

/// An edge of the graph seen from one endpoint.
///
/// For outgoing edges `target` is the symbol referred to; for incoming
/// edges it is the referring symbol.
#[derive(Clone, Copy, Debug, PartialEq, Eq)]
pub struct Edge {
    pub target: SymbolId,
    pub kind: EdgeKind,
    pub reference_id: Option<ReferenceId>,
}

/// The analysis graph.
pub struct Graph {
    symbols: Vec<Symbol>,
    references: Vec<Reference>,
}

/// `s` with its id replaced by `id`.
pub open spec fn with_symbol_id(s: Symbol, id: SymbolId) -> Symbol {
    Symbol { id, ..s }
}

/// `r` with its id replaced by `id`.
pub open spec fn with_reference_id(r: Reference, id: ReferenceId) -> Reference {
    Reference { id, ..r }
}

/// `id` names the `i`-th of `n` stored items for some `i < n`.
pub open spec fn valid_id(id: usize, n: nat) -> bool {
    1 <= id && id <= n
}

/// Outgoing edges of `id` contributed by the first `n` references, in order.
pub open spec fn out_edges_upto(refs: Seq<Reference>, id: SymbolId, n: nat) -> Seq<Edge>
    decreases n,
{
    if n == 0 {
        seq![]
    } else {
        let prev = out_edges_upto(refs, id, (n - 1) as nat);
        let r = refs[n - 1];
        if r.from == id {
            prev.push(Edge { target: r.to, kind: edge_kind_of(r.kind), reference_id: Some(ReferenceId(n as usize)) })
        } else {
            prev
        }
    }
}

/// Incoming edges of `id` contributed by the first `n` references, in order.
pub open spec fn in_edges_upto(refs: Seq<Reference>, id: SymbolId, n: nat) -> Seq<Edge>
    decreases n,
{
    if n == 0 {
        seq![]
    } else {
        let prev = in_edges_upto(refs, id, (n - 1) as nat);
        let r = refs[n - 1];
        if r.to == id {
            prev.push(Edge { target: r.from, kind: edge_kind_of(r.kind), reference_id: Some(ReferenceId(n as usize)) })
        } else {
            prev
        }
    }
}

/// The targets of the call edges among `edges`, in order.
pub open spec fn call_targets(edges: Seq<Edge>) -> Seq<SymbolId>
    decreases edges.len(),
{
    if edges.len() == 0 {
        seq![]
    } else {
        let prev = call_targets(edges.drop_last());
        if edges.last().kind == EdgeKind::Calls {
            prev.push(edges.last().target)
        } else {
            prev
        }
    }
}

impl Graph {
    /// The stored symbols; the `i`-th has id `SymbolId(i + 1)`.
    pub closed spec fn syms(&self) -> Seq<Symbol> {
        self.symbols@
    }

    /// The stored references; the `i`-th has id `ReferenceId(i + 1)`.
    pub closed spec fn refs(&self) -> Seq<Reference> {
        self.references@
    }

    /// Outgoing edges of `id`, in reference order.
    pub open spec fn out_edges(&self, id: SymbolId) -> Seq<Edge> {
        out_edges_upto(self.refs(), id, self.refs().len())
    }

    /// Incoming edges of `id`, in reference order.
    pub open spec fn in_edges(&self, id: SymbolId) -> Seq<Edge> {
        in_edges_upto(self.refs(), id, self.refs().len())
    }

    /// `id` names a stored symbol.
    pub open spec fn is_symbol(&self, id: SymbolId) -> bool {
        valid_id(id.0, self.syms().len())
    }

    /// The symbol named by a valid `id`.
    pub open spec fn sym(&self, id: SymbolId) -> Symbol {
        self.syms()[id.0 - 1]
    }

    /// The symbol and reference tables are vectors, so their lengths fit
    /// in a `usize`.
    pub proof fn lemma_len_bounds(&self)
        ensures
            self.syms().len() <= usize::MAX,
            self.refs().len() <= usize::MAX,
    {
        broadcast use vstd::std_specs::vec::axiom_spec_len;
        assert(self.symbols@.len() == self.symbols.len());
        assert(self.references@.len() == self.references.len());
    }

    /// An empty graph.
    pub fn new() -> (g: Self)
        ensures
            g.syms() == Seq::<Symbol>::empty(),
            g.refs() == Seq::<Reference>::empty(),
    {
        Graph { symbols: Vec::new(), references: Vec::new() }
    }

    /// Stores a symbol and returns its new id.
    pub fn add_symbol(&mut self, symbol: Symbol) -> (id: SymbolId)
        requires
            old(self).syms().len() < usize::MAX,
        ensures
            id == SymbolId((old(self).syms().len() + 1) as usize),
            final(self).syms() == old(self).syms().push(with_symbol_id(symbol, id)),
            final(self).refs() == old(self).refs(),
    {
        let id = SymbolId(self.symbols.len() + 1);
        let mut s = symbol;
        s.id = id;
        self.symbols.push(s);
        id
    }

    /// Stores a reference and returns its new id.
    pub fn add_reference(&mut self, reference: Reference) -> (id: ReferenceId)
        requires
            old(self).refs().len() < usize::MAX,
        ensures
            id == ReferenceId((old(self).refs().len() + 1) as usize),
            final(self).refs() == old(self).refs().push(with_reference_id(reference, id)),
            final(self).syms() == old(self).syms(),
    {
        let id = ReferenceId(self.references.len() + 1);
        let mut r = reference;
        r.id = id;
        self.references.push(r);
        id
    }

    /// Number of stored symbols.
    pub fn symbol_count(&self) -> (n: usize)
        ensures
            n == self.syms().len(),
    {
        self.symbols.len()
    }

    /// Number of stored references.
    pub fn reference_count(&self) -> (n: usize)
        ensures
            n == self.refs().len(),
    {
        self.references.len()
    }

    /// The `i`-th stored symbol (id `SymbolId(i + 1)`).
    pub fn symbol_at(&self, i: usize) -> (s: &Symbol)
        requires
            i < self.syms().len(),
        ensures
            *s == self.syms()[i as int],
    {
        &self.symbols[i]
    }

    /// The `i`-th stored reference.
    pub fn reference_at(&self, i: usize) -> (r: &Reference)
        requires
            i < self.refs().len(),
        ensures
            *r == self.refs()[i as int],
    {
        &self.references[i]
    }

    /// The symbol named by `id`, if any.
    pub fn get_symbol(&self, id: SymbolId) -> (r: Option<&Symbol>)
        ensures
            r is Some <==> self.is_symbol(id),
            r matches Some(s) ==> *s == self.sym(id),
    {
        if id.0 >= 1 && id.0 <= self.symbols.len() {
            Some(&self.symbols[id.0 - 1])
        } else {
            None
        }
    }

    /// The reference named by `id`, if any.
    pub fn get_reference(&self, id: ReferenceId) -> (r: Option<&Reference>)
        ensures
            r is Some <==> valid_id(id.0, self.refs().len()),
            r matches Some(x) ==> *x == self.refs()[id.0 - 1],
    {
        if id.0 >= 1 && id.0 <= self.references.len() {
            Some(&self.references[id.0 - 1])
        } else {
            None
        }
    }

    /// Outgoing edges of `id`, one per reference from `id`, in reference order.
    pub fn edges_from(&self, id: SymbolId) -> (edges: Vec<Edge>)
        ensures
            edges@ == self.out_edges(id),
    {
        let mut edges: Vec<Edge> = Vec::new();
        let mut k: usize = 0;
        while k < self.references.len()
            invariant
                k <= self.refs().len(),
                edges@ == out_edges_upto(self.refs(), id, k as nat),
            decreases self.refs().len() - k,
        {
            let r = &self.references[k];
            if r.from == id {
                edges.push(Edge { target: r.to, kind: edge_kind(r.kind), reference_id: Some(ReferenceId(k + 1)) });
            }
            k = k + 1;
        }
        edges
    }

    /// Incoming edges of `id`, one per reference to `id`, in reference order.
    pub fn edges_to(&self, id: SymbolId) -> (edges: Vec<Edge>)
        ensures
            edges@ == self.in_edges(id),
    {
        let mut edges: Vec<Edge> = Vec::new();
        let mut k: usize = 0;
        while k < self.references.len()
            invariant
                k <= self.refs().len(),
                edges@ == in_edges_upto(self.refs(), id, k as nat),
            decreases self.refs().len() - k,
        {
            let r = &self.references[k];
            if r.to == id {
                edges.push(Edge { target: r.from, kind: edge_kind(r.kind), reference_id: Some(ReferenceId(k + 1)) });
            }
            k = k + 1;
        }
        edges
    }

    /// Targets of the call edges leaving `id`, in reference order.
    pub fn callees(&self, id: SymbolId) -> (r: Vec<SymbolId>)
        ensures
            r@ == call_targets(self.out_edges(id)),
    {
        let edges = self.edges_from(id);
        call_targets_of(&edges)
    }

    /// Sources of the call edges arriving at `id`, in reference order.
    pub fn callers(&self, id: SymbolId) -> (r: Vec<SymbolId>)
        ensures
            r@ == call_targets(self.in_edges(id)),
    {
        let edges = self.edges_to(id);
        call_targets_of(&edges)
    }
}

/// The edge kind that a reference kind produces.
pub fn edge_kind(k: ReferenceKind) -> (e: EdgeKind)
    ensures
        e == edge_kind_of(k),
{
    match k {
        ReferenceKind::Call => EdgeKind::Calls,
        _ => EdgeKind::References,
    }
}

/// Targets of the call edges among `edges`, in order.
pub fn call_targets_of(edges: &Vec<Edge>) -> (r: Vec<SymbolId>)
    ensures
        r@ == call_targets(edges@),
{
    let mut out: Vec<SymbolId> = Vec::new();
    let mut i: usize = 0;
    while i < edges.len()
        invariant
            i <= edges.len(),
            out@ == call_targets(edges@.take(i as int)),
        decreases edges.len() - i,
    {
        assert(edges@.take(i + 1).drop_last() =~= edges@.take(i as int));
        if edges[i].kind == EdgeKind::Calls {
            out.push(edges[i].target);
        }
        i = i + 1;
    }
    assert(edges@.take(edges.len() as int) =~= edges@);
    out
}

/// Reference `k` joins symbols `a` and `b` (by index), in either direction.
pub open spec fn linked(g: Graph, k: int, a: int, b: int) -> bool {
    let r = g.refs()[k];
    (r.from.0 == a + 1 && r.to.0 == b + 1) || (r.to.0 == a + 1 && r.from.0 == b + 1)
}

/// Symbols `a` and `b` (by index) are joined by some reference.
pub open spec fn adjacent(g: Graph, a: int, b: int) -> bool {
    exists|k: int| 0 <= k < g.refs().len() && #[trigger] linked(g, k, a, b)
}

/// Consecutive entries `i` and `i + 1` of `p` are adjacent symbols.
pub open spec fn step_ok(g: Graph, p: Seq<int>, i: int) -> bool {
    adjacent(g, p[i], p[i + 1])
}

/// `p` is a walk through symbols (by index) along references taken in
/// either direction.
pub open spec fn walk(g: Graph, p: Seq<int>) -> bool {
    &&& p.len() >= 1
    &&& forall|i: int| 0 <= i < p.len() ==> 0 <= #[trigger] p[i] < g.syms().len()
    &&& forall|i: int| 0 <= i < p.len() - 1 ==> #[trigger] step_ok(g, p, i)
}

/// Symbols `s` and `t` (by index) lie in one connected component of the
/// graph with references taken as undirected edges.
pub open spec fn connected(g: Graph, s: int, t: int) -> bool {
    exists|p: Seq<int>| #[trigger] walk(g, p) && p[0] == s && p.last() == t
}

/// Symbol `i` is the first of its connected component.
pub open spec fn leader(g: Graph, i: int) -> bool {
    &&& 0 <= i < g.syms().len()
    &&& forall|j: int| 0 <= j < i ==> !#[trigger] connected(g, j, i)
}

/// Ids of the first `k` symbols connected to symbol `l`, in id order.
pub open spec fn members_upto(g: Graph, l: int, k: nat) -> Seq<SymbolId>
    decreases k,
{
    if k == 0 {
        seq![]
    } else if connected(g, l, k - 1) {
        members_upto(g, l, (k - 1) as nat).push(SymbolId(k as usize))
    } else {
        members_upto(g, l, (k - 1) as nat)
    }
}

/// The connected components led by the first `k` symbols, each listed in
/// id order, in order of their first symbol.
pub open spec fn components_upto(g: Graph, k: nat) -> Seq<Seq<SymbolId>>
    decreases k,
{
    if k == 0 {
        seq![]
    } else if leader(g, k - 1) {
        components_upto(g, (k - 1) as nat).push(members_upto(g, k - 1, g.syms().len()))
    } else {
        components_upto(g, (k - 1) as nat)
    }
}

/// The connected components of the graph, references taken as undirected
/// edges, each listed in id order, in order of their first symbol.
pub open spec fn components(g: Graph) -> Seq<Seq<SymbolId>> {
    components_upto(g, g.syms().len())
}

/// Number of `false` entries.
pub open spec fn count_false(v: Seq<bool>) -> nat
    decreases v.len(),
{
    if v.len() == 0 {
        0
    } else {
        count_false(v.drop_last()) + if v.last() { 0nat } else { 1nat }
    }
}

proof fn lemma_count_false_set(v: Seq<bool>, i: int)
    requires
        0 <= i < v.len(),
        !v[i],
    ensures
        count_false(v.update(i, true)) + 1 == count_false(v),
    decreases v.len(),
{
    let w = v.update(i, true);
    if i < v.len() - 1 {
        assert(w.drop_last() =~= v.drop_last().update(i, true));
        lemma_count_false_set(v.drop_last(), i);
    } else {
        assert(w.drop_last() =~= v.drop_last());
    }
}

proof fn lemma_count_false_bound(v: Seq<bool>)
    ensures
        count_false(v) <= v.len(),
    decreases v.len(),
{
    if v.len() > 0 {
        lemma_count_false_bound(v.drop_last());
    }
}

/// A walk extended by an adjacent symbol is a walk.
proof fn lemma_walk_push(g: Graph, p: Seq<int>, v: int)
    requires
        walk(g, p),
        0 <= v < g.syms().len(),
        adjacent(g, p.last(), v),
    ensures
        walk(g, p.push(v)),
{
    let q = p.push(v);
    assert forall|i: int| 0 <= i < q.len() - 1 implies #[trigger] step_ok(g, q, i) by {
        if i < p.len() - 1 {
            assert(step_ok(g, p, i));
        }
    }
}

/// The symbol on a walk of length 1 is connected to itself.
proof fn lemma_connected_self(g: Graph, s: int)
    requires
        0 <= s < g.syms().len(),
    ensures
        connected(g, s, s),
{
    let p = seq![s];
    assert(walk(g, p));
}

/// Connected symbols stay connected across one more step.
proof fn lemma_connected_step(g: Graph, s: int, u: int, v: int)
    requires
        connected(g, s, u),
        0 <= v < g.syms().len(),
        adjacent(g, u, v),
    ensures
        connected(g, s, v),
{
    let p = choose|p: Seq<int>| #[trigger] walk(g, p) && p[0] == s && p.last() == u;
    lemma_walk_push(g, p, v);
    assert(p.push(v)[0] == s);
}

/// Whatever a walk from a connected symbol reaches is connected.
proof fn lemma_connected_walk(g: Graph, l: int, q: Seq<int>)
    requires
        walk(g, q),
        connected(g, l, q[0]),
    ensures
        connected(g, l, q.last()),
    decreases q.len(),
{
    if q.len() > 1 {
        let r = q.drop_last();
        assert forall|i: int| 0 <= i < r.len() - 1 implies #[trigger] step_ok(g, r, i) by {
            assert(step_ok(g, q, i));
        }
        assert(walk(g, r));
        lemma_connected_walk(g, l, r);
        assert(step_ok(g, q, q.len() - 2));
        lemma_connected_step(g, l, r.last(), q.last());
    }
}

/// A set containing the start of a walk and closed under adjacency holds
/// the end of the walk.
proof fn lemma_closed_holds_walk(g: Graph, c: Seq<bool>, p: Seq<int>)
    requires
        c.len() == g.syms().len(),
        walk(g, p),
        c[p[0]],
        forall|a: int, b: int| 0 <= a < c.len() && 0 <= b < c.len() && c[a] && #[trigger] adjacent(g, a, b) ==> c[b],
    ensures
        c[p.last()],
    decreases p.len(),
{
    if p.len() > 1 {
        let r = p.drop_last();
        assert forall|i: int| 0 <= i < r.len() - 1 implies #[trigger] step_ok(g, r, i) by {
            assert(step_ok(g, p, i));
        }
        lemma_closed_holds_walk(g, c, r);
        assert(step_ok(g, p, p.len() - 2));
        assert(0 <= p[p.len() - 2] < c.len());
        assert(0 <= p[p.len() - 1] < c.len());
    }
}

impl Graph {
    /// Marks the symbols connected to symbol `s` (by index).
    fn component_of(&self, s: usize) -> (c: Vec<bool>)
        requires
            s < self.syms().len(),
        ensures
            c@.len() == self.syms().len(),
            forall|t: int| 0 <= t < self.syms().len() ==> (c@[t] <==> connected(*self, s as int, t)),
    {
        let n = self.symbols.len();
        let ghost g = *self;
        let mut c: Vec<bool> = Vec::new();
        while c.len() < n
            invariant
                c@.len() <= n,
                forall|t: int| 0 <= t < c@.len() ==> !c@[t],
                count_false(c@) == c@.len(),
            decreases n - c@.len(),
        {
            let ghost before = c@;
            c.push(false);
            assert(c@.drop_last() =~= before);
        }
        proof {
            lemma_count_false_set(c@, s as int);
            lemma_connected_self(g, s as int);
        }
        c.set(s, true);
        let mut queue: Vec<usize> = Vec::new();
        queue.push(s);
        proof {
            assert forall|t: int| 0 <= t < n && c@[t] implies exists|j: int| 0 <= j < queue@.len() && #[trigger] queue@[j] == t by {
                assert(t == s);
                assert(queue@[0] == t);
            }
        }
        let mut head: usize = 0;
        while head < queue.len()
            invariant
                g == *self,
                n == g.syms().len(),
                s < n,
                c@.len() == n,
                head <= queue@.len(),
                queue@.len() + count_false(c@) == n,
                c@[s as int],
                forall|j: int| 0 <= j < queue@.len() ==> #[trigger] queue@[j] < n && c@[queue@[j] as int],
                forall|t: int| 0 <= t < n && c@[t] ==> exists|j: int| 0 <= j < queue@.len() && #[trigger] queue@[j] == t,
                forall|j: int, m: int| 0 <= j < head && 0 <= m < n && #[trigger] adjacent(g, queue@[j] as int, m) ==> c@[m],
                forall|t: int| 0 <= t < n && c@[t] ==> connected(g, s as int, t),
            decreases n - head,
        {
            proof {
                lemma_count_false_bound(c@);
            }
            let u = queue[head];
            let mut k: usize = 0;
            while k < self.references.len()
                invariant
                    g == *self,
                    n == g.syms().len(),
                    s < n,
                    c@.len() == n,
                    head < queue@.len(),
                    u == queue@[head as int],
                    u < n,
                    k <= g.refs().len(),
                    queue@.len() + count_false(c@) == n,
                    c@[s as int],
                    forall|j: int| 0 <= j < queue@.len() ==> #[trigger] queue@[j] < n && c@[queue@[j] as int],
                    forall|t: int| 0 <= t < n && c@[t] ==> exists|j: int| 0 <= j < queue@.len() && #[trigger] queue@[j] == t,
                    forall|j: int, m: int| 0 <= j < head && 0 <= m < n && #[trigger] adjacent(g, queue@[j] as int, m) ==> c@[m],
                    forall|t: int| 0 <= t < n && c@[t] ==> connected(g, s as int, t),
                    forall|q: int, m: int| 0 <= q < k && 0 <= m < n && #[trigger] linked(g, q, u as int, m) ==> c@[m],
                decreases g.refs().len() - k,
            {
                let r = &self.references[k];
                let other: usize = if r.from.0 == u + 1 {
                    r.to.0
                } else if r.to.0 == u + 1 {
                    r.from.0
                } else {
                    0
                };
                if other >= 1 && other <= n && !c[other - 1] {
                    let v = other - 1;
                    proof {
                        assert(linked(g, k as int, u as int, v as int));
                        assert(adjacent(g, u as int, v as int));
                        lemma_connected_step(g, s as int, u as int, v as int);
                        lemma_count_false_set(c@, v as int);
                        lemma_count_false_bound(c@.update(v as int, true));
                    }
                    let ghost oldq = queue@;
                    let ghost oldc = c@;
                    c.set(v, true);
                    queue.push(v);
                    proof {
                        assert(queue@[queue@.len() - 1] == v);
                        assert forall|t: int| 0 <= t < n && c@[t] implies exists|j: int| 0 <= j < queue@.len() && #[trigger] queue@[j] == t by {
                            if t == v {
                                assert(queue@[queue@.len() - 1] == t);
                            } else {
                                assert(oldc[t]);
                                let j = choose|j: int| 0 <= j < oldq.len() && #[trigger] oldq[j] == t;
                                assert(queue@[j] == t);
                            }
                        }
                    }
                }
                proof {
                    assert forall|q: int, m: int| 0 <= q < k + 1 && 0 <= m < n && #[trigger] linked(g, q, u as int, m) implies c@[m] by {
                        if q == k {
                            assert(m + 1 == other);
                        }
                    }
                }
                k = k + 1;
            }
            proof {
                assert forall|j: int, m: int| 0 <= j < head + 1 && 0 <= m < n && #[trigger] adjacent(g, queue@[j] as int, m) implies c@[m] by {
                    if j == head {
                        let q = choose|q: int| 0 <= q < g.refs().len() && #[trigger] linked(g, q, u as int, m);
                    }
                }
            }
            head = head + 1;
        }
        proof {
            assert forall|a: int, b: int| 0 <= a < n && 0 <= b < n && c@[a] && #[trigger] adjacent(g, a, b) implies c@[b] by {
                let j = choose|j: int| 0 <= j < queue@.len() && #[trigger] queue@[j] == a;
            }
            assert forall|t: int| 0 <= t < n && connected(g, s as int, t) implies c@[t] by {
                let p = choose|p: Seq<int>| #[trigger] walk(g, p) && p[0] == s && p.last() == t;
                lemma_closed_holds_walk(g, c@, p);
            }
        }
        c
    }

    /// The connected components of the graph, with references taken as
    /// undirected edges: each lists its symbol ids in increasing order, and
    /// the components come in order of their smallest id.
    pub fn connected_components(&self) -> (r: Vec<Vec<SymbolId>>)
        ensures
            r@.map_values(|v: Vec<SymbolId>| v@) == components(*self),
    {
        let n = self.symbols.len();
        let ghost g = *self;
        let mut assigned: Vec<bool> = Vec::new();
        while assigned.len() < n
            invariant
                assigned@.len() <= n,
                forall|t: int| 0 <= t < assigned@.len() ==> !assigned@[t],
            decreases n - assigned@.len(),
        {
            assigned.push(false);
        }
        let mut out: Vec<Vec<SymbolId>> = Vec::new();
        let mut i: usize = 0;
        while i < n
            invariant
                g == *self,
                n == g.syms().len(),
                i <= n,
                assigned@.len() == n,
                forall|t: int| 0 <= t < n ==> (assigned@[t] <==> exists|l: int| 0 <= l < i && leader(g, l) && #[trigger] connected(g, l, t)),
                forall|t: int| 0 <= t < i ==> assigned@[t],
                out@.map_values(|v: Vec<SymbolId>| v@) == components_upto(g, i as nat),
            decreases n - i,
        {
            proof {
                lemma_connected_self(g, i as int);
            }
            if !assigned[i] {
                proof {
                    assert forall|j: int| 0 <= j < i implies !#[trigger] connected(g, j, i as int) by {
                        if connected(g, j, i as int) {
                            assert(assigned@[j]);
                            let l = choose|l: int| 0 <= l < i && leader(g, l) && #[trigger] connected(g, l, j);
                            let p = choose|p: Seq<int>| #[trigger] walk(g, p) && p[0] == j && p.last() == i;
                            lemma_connected_walk(g, l, p);
                        }
                    }
                    assert(leader(g, i as int));
                }
                let c = self.component_of(i);
                let mut members: Vec<SymbolId> = Vec::new();
                let mut t: usize = 0;
                while t < n
                    invariant
                        g == *self,
                        n == g.syms().len(),
                        i < n,
                        t <= n,
                        c@.len() == n,
                        assigned@.len() == n,
                        forall|x: int| 0 <= x < n ==> (c@[x] <==> connected(g, i as int, x)),
                        members@ == members_upto(g, i as int, t as nat),
                        forall|x: int| 0 <= x < n ==> (assigned@[x] <==> ((exists|l: int| 0 <= l < i && leader(g, l) && #[trigger] connected(g, l, x)) || (x < t && connected(g, i as int, x)))),
                        forall|x: int| 0 <= x < i ==> assigned@[x],
                    decreases n - t,
                {
                    if c[t] {
                        members.push(SymbolId(t + 1));
                        assigned.set(t, true);
                    }
                    t = t + 1;
                }
                let ghost before = out@.map_values(|v: Vec<SymbolId>| v@);
                out.push(members);
                proof {
                    assert(out@.map_values(|v: Vec<SymbolId>| v@) =~= before.push(members_upto(g, i as int, n as nat)));
                    assert forall|x: int| 0 <= x < n implies (assigned@[x] <==> exists|l: int| 0 <= l < i + 1 && leader(g, l) && #[trigger] connected(g, l, x)) by {
                        if connected(g, i as int, x) {
                            assert(0 <= i < i + 1 && leader(g, i as int));
                        }
                    }
                }
            } else {
                proof {
                    let l = choose|l: int| 0 <= l < i && leader(g, l) && #[trigger] connected(g, l, i as int);
                    assert(!leader(g, i as int));
                    assert forall|x: int| 0 <= x < n implies (assigned@[x] <==> exists|l: int| 0 <= l < i + 1 && leader(g, l) && #[trigger] connected(g, l, x)) by {
                        if exists|l: int| 0 <= l < i + 1 && leader(g, l) && #[trigger] connected(g, l, x) {
                            let l2 = choose|l: int| 0 <= l < i + 1 && leader(g, l) && #[trigger] connected(g, l, x);
                            assert(l2 != i);
                        }
                    }
                }
            }
            i = i + 1;
        }
        out
    }
}

/// Reference `k` of `refs` is a call from `a` to `b`.
pub open spec fn call_ref(refs: Seq<Reference>, k: int, a: SymbolId, b: SymbolId) -> bool {
    refs[k].from == a && refs[k].to == b && refs[k].kind == ReferenceKind::Call
}

proof fn lemma_out_calls(refs: Seq<Reference>, a: SymbolId, b: SymbolId, n: nat)
    requires
        n <= refs.len(),
    ensures
        call_targets(out_edges_upto(refs, a, n)).contains(b)
            <==> exists|k: int| 0 <= k < n && #[trigger] call_ref(refs, k, a, b),
    decreases n,
{
    if n > 0 {
        lemma_out_calls(refs, a, b, (n - 1) as nat);
        let prev = out_edges_upto(refs, a, (n - 1) as nat);
        let cur = out_edges_upto(refs, a, n);
        let r = refs[n - 1];
        if r.from == a {
            assert(cur.drop_last() =~= prev);
        }
        let ct = call_targets(cur);
        let cp = call_targets(prev);
        if call_ref(refs, n - 1, a, b) {
            assert(ct.last() == b);
            assert(ct.contains(b));
        }
        if ct.contains(b) && !cp.contains(b) {
            let q = choose|q: int| 0 <= q < ct.len() && ct[q] == b;
            if r.from == a && edge_kind_of(r.kind) == EdgeKind::Calls {
                assert(ct == cp.push(r.to));
                if q < cp.len() {
                    assert(cp[q] == b);
                }
                assert(call_ref(refs, n - 1, a, b));
            } else {
                assert(ct == cp);
            }
        }
        if cp.contains(b) {
            let q = choose|q: int| 0 <= q < cp.len() && cp[q] == b;
            if r.from == a && edge_kind_of(r.kind) == EdgeKind::Calls {
                assert(ct == cp.push(r.to));
                assert(ct[q] == b);
            } else {
                assert(ct == cp);
            }
        }
    }
}

proof fn lemma_in_calls(refs: Seq<Reference>, a: SymbolId, b: SymbolId, n: nat)
    requires
        n <= refs.len(),
    ensures
        call_targets(in_edges_upto(refs, b, n)).contains(a)
            <==> exists|k: int| 0 <= k < n && #[trigger] call_ref(refs, k, a, b),
    decreases n,
{
    if n > 0 {
        lemma_in_calls(refs, a, b, (n - 1) as nat);
        let prev = in_edges_upto(refs, b, (n - 1) as nat);
        let cur = in_edges_upto(refs, b, n);
        let r = refs[n - 1];
        if r.to == b {
            assert(cur.drop_last() =~= prev);
        }
        let ct = call_targets(cur);
        let cp = call_targets(prev);
        if call_ref(refs, n - 1, a, b) {
            assert(ct.last() == a);
            assert(ct.contains(a));
        }
        if ct.contains(a) && !cp.contains(a) {
            let q = choose|q: int| 0 <= q < ct.len() && ct[q] == a;
            if r.to == b && edge_kind_of(r.kind) == EdgeKind::Calls {
                assert(ct == cp.push(r.from));
                if q < cp.len() {
                    assert(cp[q] == a);
                }
                assert(call_ref(refs, n - 1, a, b));
            } else {
                assert(ct == cp);
            }
        }
        if cp.contains(a) {
            let q = choose|q: int| 0 <= q < cp.len() && cp[q] == a;
            if r.to == b && edge_kind_of(r.kind) == EdgeKind::Calls {
                assert(ct == cp.push(r.from));
                assert(ct[q] == a);
            } else {
                assert(ct == cp);
            }
        }
    }
}

/// Callees and callers mirror each other: `b` is among the callees of `a`
/// exactly when `a` is among the callers of `b`.
pub proof fn law_calls_inverse(g: Graph, a: SymbolId, b: SymbolId)
    ensures
        call_targets(g.out_edges(a)).contains(b) <==> call_targets(g.in_edges(b)).contains(a),
{
    lemma_out_calls(g.refs(), a, b, g.refs().len());
    lemma_in_calls(g.refs(), a, b, g.refs().len());
}

} // verus!
