//! Flow tracing engine — DFS-based path tracing through the call graph.
//!
//! Traces paths from a symbol through outgoing call edges, recording each
//! step, detecting cycles with a per-path visited stack, and truncating
//! paths at a maximum depth. Tracing is a pure query on the graph.

use vstd::prelude::*;

use crate::graph::{call_targets, Graph};
use crate::ir::{EdgeKind, SymbolId, SymbolKind};
use crate::text::{chars_eq, chars_of};

verus! {

/// Maximum flow path depth before traversal stops.
pub const MAX_FLOW_DEPTH: usize = 64;

/// A single step in a traced flow path.
#[derive(Debug, Clone, Copy, PartialEq, Eq)]
pub struct FlowStep {
    /// The symbol at this step.
    pub symbol: SymbolId,
    /// The edge kind that led to this step.
    pub edge_kind: EdgeKind,
}

/// A complete traced flow path from an entry point.
#[derive(Debug, Clone)]
pub struct FlowPath {
    /// The symbol where this path begins.
    pub entry: SymbolId,
    /// The steps in the path (excluding the entry itself).
    pub steps: Vec<FlowStep>,
    /// Whether the path ends by returning to a symbol already on it.
    pub is_cyclic: bool,
}

/// The content of a [`FlowPath`].
pub struct FlowPathView {
    pub entry: SymbolId,
    pub steps: Seq<FlowStep>,
    pub is_cyclic: bool,
}

impl View for FlowPath {
    type V = FlowPathView;

    open spec fn view(&self) -> FlowPathView {
        FlowPathView { entry: self.entry, steps: self.steps@, is_cyclic: self.is_cyclic }
    }
}

/// The views of a sequence of flow paths.
pub open spec fn path_views(v: Seq<FlowPath>) -> Seq<FlowPathView> {
    v.map_values(|p: FlowPath| p@)
}

/// A call step to `s`.
pub open spec fn call_step(s: SymbolId) -> FlowStep {
    FlowStep { symbol: s, edge_kind: EdgeKind::Calls }
}

/// The resolved call targets of `ids` (those other than `SymbolId(0)`), in order.
pub open spec fn resolved(ids: Seq<SymbolId>) -> Seq<SymbolId>
    decreases ids.len(),
{
    if ids.len() == 0 {
        seq![]
    } else if ids.last() == SymbolId(0) {
        resolved(ids.drop_last())
    } else {
        resolved(ids.drop_last()).push(ids.last())
    }
}

/// The resolved call targets of symbol `id`.
pub open spec fn next_calls(g: Graph, id: SymbolId) -> Seq<SymbolId> {
    resolved(call_targets(g.out_edges(id)))
}

/// Depth measure for the trace recursion.
pub open spec fn depth_left(depth: nat) -> nat {
    if depth < MAX_FLOW_DEPTH { (MAX_FLOW_DEPTH - depth) as nat } else { 0 }
}

/// The paths recorded by exploring `current` with the given visited
/// stack, steps so far and depth.
pub open spec fn trace_paths(
    g: Graph,
    current: SymbolId,
    entry: SymbolId,
    visited: Seq<SymbolId>,
    steps: Seq<FlowStep>,
    depth: nat,
) -> Seq<FlowPathView>
    decreases depth_left(depth), 0nat,
{
    if depth >= MAX_FLOW_DEPTH {
        seq![FlowPathView { entry, steps, is_cyclic: false }]
    } else if visited.contains(current) {
        seq![FlowPathView { entry, steps: steps.push(call_step(current)), is_cyclic: true }]
    } else if next_calls(g, current).len() == 0 {
        seq![FlowPathView { entry, steps: steps.push(call_step(current)), is_cyclic: false }]
    } else {
        trace_each(g, next_calls(g, current), entry, visited.push(current), steps.push(call_step(current)), depth + 1)
    }
}

/// The paths recorded by exploring each of `targets` in turn.
pub open spec fn trace_each(
    g: Graph,
    targets: Seq<SymbolId>,
    entry: SymbolId,
    visited: Seq<SymbolId>,
    steps: Seq<FlowStep>,
    depth: nat,
) -> Seq<FlowPathView>
    decreases depth_left(depth), targets.len(),
{
    if targets.len() == 0 {
        seq![]
    } else {
        trace_each(g, targets.drop_last(), entry, visited, steps, depth)
            + trace_paths(g, targets.last(), entry, visited, steps, depth)
    }
}

/// The paths traced from `start`.
pub open spec fn flows_from(g: Graph, start: SymbolId) -> Seq<FlowPathView> {
    trace_each(g, next_calls(g, start), start, seq![start], seq![], 0)
}

fn resolved_call_targets(graph: &Graph, id: SymbolId) -> (r: Vec<SymbolId>)
    ensures
        r@ == next_calls(*graph, id),
{
    let all = graph.callees(id);
    let mut out: Vec<SymbolId> = Vec::new();
    let mut i: usize = 0;
    while i < all.len()
        invariant
            i <= all@.len(),
            all@ == call_targets(graph.out_edges(id)),
            out@ == resolved(all@.take(i as int)),
        decreases all@.len() - i,
    {
        assert(all@.take(i + 1).drop_last() =~= all@.take(i as int));
        if all[i] != SymbolId(0) {
            out.push(all[i]);
        }
        i = i + 1;
    }
    assert(all@.take(all@.len() as int) =~= all@);
    out
}

fn copy_steps(v: &Vec<FlowStep>) -> (r: Vec<FlowStep>)
    ensures
        r@ == v@,
{
    let mut out: Vec<FlowStep> = Vec::new();
    let mut i: usize = 0;
    while i < v.len()
        invariant
            i <= v@.len(),
            out@ =~= v@.take(i as int),
        decreases v@.len() - i,
    {
        out.push(v[i]);
        i = i + 1;
    }
    assert(v@.take(v@.len() as int) =~= v@);
    out
}

fn contains_id(v: &Vec<SymbolId>, id: SymbolId) -> (r: bool)
    ensures
        r == v@.contains(id),
{
    let mut i: usize = 0;
    while i < v.len()
        invariant
            i <= v@.len(),
            forall|j: int| 0 <= j < i ==> v@[j] != id,
        decreases v@.len() - i,
    {
        if v[i] == id {
            assert(v@[i as int] == id);
            return true;
        }
        i = i + 1;
    }
    false
}

fn push_path(paths: &mut Vec<FlowPath>, entry: SymbolId, steps: &Vec<FlowStep>, is_cyclic: bool)
    ensures
        path_views(final(paths)@) == path_views(old(paths)@).push(
            FlowPathView { entry, steps: steps@, is_cyclic },
        ),
{
    let p = FlowPath { entry, steps: copy_steps(steps), is_cyclic };
    paths.push(p);
    assert(path_views(paths@) =~= path_views(old(paths)@).push(
        FlowPathView { entry, steps: steps@, is_cyclic },
    ));
}

/// Traces data flow paths from the given symbol through the call graph.
///
/// Each resolved outgoing call edge of `start_symbol` starts a depth-first
/// exploration; a path is recorded at every terminal symbol, at every
/// return to a symbol already on the path (marked cyclic), and when the
/// depth limit is reached. Returns an empty `Vec` if the start symbol has
/// no outgoing call edges.
pub fn trace_flows_from(graph: &Graph, start_symbol: SymbolId) -> (r: Vec<FlowPath>)
    ensures
        path_views(r@) == flows_from(*graph, start_symbol),
{
    let mut paths: Vec<FlowPath> = Vec::new();
    let call_targets = resolved_call_targets(graph, start_symbol);
    let ghost visited0 = seq![start_symbol];
    let ghost steps0 = Seq::<FlowStep>::empty();
    let mut i: usize = 0;
    while i < call_targets.len()
        invariant
            i <= call_targets@.len(),
            call_targets@ == next_calls(*graph, start_symbol),
            visited0 == seq![start_symbol],
            steps0 == Seq::<FlowStep>::empty(),
            path_views(paths@) == trace_each(
                *graph,
                call_targets@.take(i as int),
                start_symbol,
                visited0,
                steps0,
                0,
            ),
        decreases call_targets@.len() - i,
    {
        let mut visited: Vec<SymbolId> = Vec::new();
        visited.push(start_symbol);
        let mut current_steps: Vec<FlowStep> = Vec::new();
        assert(visited@ =~= visited0);
        assert(current_steps@ =~= steps0);
        dfs_trace(graph, call_targets[i], start_symbol, &mut visited, &mut current_steps, &mut paths, 0);
        assert(call_targets@.take(i + 1).drop_last() =~= call_targets@.take(i as int));
        i = i + 1;
    }
    assert(call_targets@.take(call_targets@.len() as int) =~= call_targets@);
    paths
}

/// The paths traced from every entry point (a non-module symbol named
/// `main` or `__main__`) among the first `n` symbols.
pub open spec fn all_flows_upto(g: Graph, n: nat) -> Seq<FlowPathView>
    decreases n,
{
    if n == 0 {
        seq![]
    } else {
        let prev = all_flows_upto(g, (n - 1) as nat);
        let s = g.syms()[n - 1];
        if (s.name@ == "main"@ || s.name@ == "__main__"@) && s.kind != SymbolKind::Module {
            prev + flows_from(g, SymbolId(n as usize))
        } else {
            prev
        }
    }
}

/// Whether the `k`-th symbol is an entry point: not a module, and named
/// `main` or `__main__`.
pub open spec fn entry_point_at(g: Graph) -> spec_fn(int) -> bool {
    |k: int| (g.syms()[k].name@ == "main"@ || g.syms()[k].name@ == "__main__"@)
        && g.syms()[k].kind != SymbolKind::Module
}

/// The indices of the entry points among the first `n` symbols, in order.
pub open spec fn entry_indices(g: Graph, n: nat) -> Seq<int> {
    Seq::new(n, |k: int| k).filter(entry_point_at(g))
}

/// What tracing from the `k`-th symbol gives.
pub open spec fn flows_at(g: Graph) -> spec_fn(int) -> Seq<FlowPathView> {
    |k: int| flows_from(g, SymbolId((k + 1) as usize))
}

proof fn lemma_all_flows_concat(g: Graph, n: nat)
    ensures
        all_flows_upto(g, n) == entry_indices(g, n).map_values(flows_at(g)).flatten(),
    decreases n,
{
    broadcast use Seq::lemma_filter_push, Seq::lemma_flatten_push;
    let ids = |k: int| k;
    if n == 0 {
        let e = Seq::new(0, ids);
        assert(e.filter(entry_point_at(g)) =~= Seq::<int>::empty()) by {
            reveal(Seq::filter);
        }
        assert(entry_indices(g, 0).map_values(flows_at(g)) =~= Seq::<Seq<FlowPathView>>::empty());
    } else {
        lemma_all_flows_concat(g, (n - 1) as nat);
        let m = (n - 1) as int;
        assert(Seq::new(n, ids) =~= Seq::new((n - 1) as nat, ids).push(m));
        let prev = entry_indices(g, (n - 1) as nat);
        if entry_point_at(g)(m) {
            assert(entry_indices(g, n) == prev.push(m));
            assert(prev.push(m).map_values(flows_at(g)) =~= prev.map_values(flows_at(g)).push(flows_at(g)(m)));
        } else {
            assert(entry_indices(g, n) == prev);
        }
    }
}

/// Tracing from every entry point gives, for each non-module symbol named
/// `main` or `__main__` in symbol order, exactly the paths that tracing from
/// that symbol alone gives, one entry point's paths after another's: every
/// entry point contributes all of its paths, and nothing else is added.
pub proof fn law_all_flows_concatenate_entry_flows(g: Graph)
    ensures
        all_flows_upto(g, g.syms().len()) == entry_indices(g, g.syms().len()).map_values(flows_at(g)).flatten(),
{
    lemma_all_flows_concat(g, g.syms().len());
}

/// Traces flows from all entry points in the graph: symbols named `main`
/// or `__main__` that are not modules.
pub fn trace_all_flows(graph: &Graph) -> (r: Vec<FlowPath>)
    ensures
        path_views(r@) == all_flows_upto(*graph, graph.syms().len()),
{
    let mut all_paths: Vec<FlowPath> = Vec::new();
    let main_c = chars_of("main");
    let dmain_c = chars_of("__main__");
    let n = graph.symbol_count();
    let mut i: usize = 0;
    while i < n
        invariant
            n == graph.syms().len(),
            i <= n,
            main_c@ == "main"@,
            dmain_c@ == "__main__"@,
            path_views(all_paths@) == all_flows_upto(*graph, i as nat),
        decreases n - i,
    {
        let s = graph.symbol_at(i);
        let name = chars_of(s.name.as_str());
        let is_entry = (chars_eq(&name, &main_c) || chars_eq(&name, &dmain_c)) && s.kind != SymbolKind::Module;
        if is_entry {
            let paths = trace_flows_from(graph, SymbolId(i + 1));
            let ghost before = all_paths@;
            let mut k: usize = 0;
            while k < paths.len()
                invariant
                    k <= paths@.len(),
                    path_views(all_paths@) == path_views(before) + path_views(paths@.take(k as int)),
                decreases paths@.len() - k,
            {
                let p = FlowPath { entry: paths[k].entry, steps: copy_steps(&paths[k].steps), is_cyclic: paths[k].is_cyclic };
                let ghost prev = all_paths@;
                all_paths.push(p);
                assert(p@ == paths@[k as int]@);
                assert(path_views(all_paths@) =~= path_views(prev).push(p@));
                assert(path_views(paths@.take(k + 1)) =~= path_views(paths@.take(k as int)).push(paths@[k as int]@));
                assert(path_views(all_paths@) =~= path_views(before) + path_views(paths@.take(k + 1)));
                k = k + 1;
            }
            assert(paths@.take(paths@.len() as int) =~= paths@);
        }
        i = i + 1;
    }
    all_paths
}

/// DFS helper for flow tracing: explores from `current`, appending the
/// recorded paths to `paths` and leaving `visited` and `current_steps`
/// as they were.
pub fn dfs_trace(
    graph: &Graph,
    current: SymbolId,
    entry: SymbolId,
    visited: &mut Vec<SymbolId>,
    current_steps: &mut Vec<FlowStep>,
    paths: &mut Vec<FlowPath>,
    depth: usize,
)
    ensures
        final(visited)@ == old(visited)@,
        final(current_steps)@ == old(current_steps)@,
        path_views(final(paths)@) == path_views(old(paths)@) + trace_paths(
            *graph,
            current,
            entry,
            old(visited)@,
            old(current_steps)@,
            depth as nat,
        ),
    decreases MAX_FLOW_DEPTH - depth,
{
    let ghost vis0 = visited@;
    let ghost steps0 = current_steps@;
    let ghost paths0 = path_views(paths@);
    if depth >= MAX_FLOW_DEPTH {
        push_path(paths, entry, current_steps, false);
        assert(path_views(paths@) =~= paths0 + trace_paths(*graph, current, entry, vis0, steps0, depth as nat));
        return;
    }
    if contains_id(visited, current) {
        current_steps.push(FlowStep { symbol: current, edge_kind: EdgeKind::Calls });
        push_path(paths, entry, current_steps, true);
        current_steps.pop();
        assert(current_steps@ =~= steps0);
        assert(path_views(paths@) =~= paths0 + trace_paths(*graph, current, entry, vis0, steps0, depth as nat));
        return;
    }
    visited.push(current);
    current_steps.push(FlowStep { symbol: current, edge_kind: EdgeKind::Calls });
    let ghost vis1 = visited@;
    let ghost steps1 = current_steps@;
    let call_targets = resolved_call_targets(graph, current);
    if call_targets.len() == 0 {
        push_path(paths, entry, current_steps, false);
        assert(path_views(paths@) =~= paths0 + trace_paths(*graph, current, entry, vis0, steps0, depth as nat));
    } else {
        let mut i: usize = 0;
        while i < call_targets.len()
            invariant
                depth < MAX_FLOW_DEPTH,
                i <= call_targets@.len(),
                call_targets@ == next_calls(*graph, current),
                visited@ == vis1,
                current_steps@ == steps1,
                vis1 == vis0.push(current),
                steps1 == steps0.push(call_step(current)),
                path_views(paths@) == paths0 + trace_each(
                    *graph,
                    call_targets@.take(i as int),
                    entry,
                    vis1,
                    steps1,
                    (depth + 1) as nat,
                ),
            decreases call_targets@.len() - i,
        {
            dfs_trace(graph, call_targets[i], entry, visited, current_steps, paths, depth + 1);
            assert(call_targets@.take(i + 1).drop_last() =~= call_targets@.take(i as int));
            assert(path_views(paths@) =~= paths0 + trace_each(
                *graph,
                call_targets@.take(i + 1),
                entry,
                vis1,
                steps1,
                (depth + 1) as nat,
            ));
            i = i + 1;
        }
        assert(call_targets@.take(call_targets@.len() as int) =~= call_targets@);
    }
    visited.pop();
    current_steps.pop();
    assert(visited@ =~= vis0);
    assert(current_steps@ =~= steps0);
}

/// The symbol that step `i` of a path from `entry` leaves from.
pub open spec fn step_source(entry: SymbolId, steps: Seq<FlowStep>, i: int) -> SymbolId {
    if i == 0 { entry } else { steps[i - 1].symbol }
}

/// Each step of `steps` is a resolved call from the symbol before it,
/// starting at `entry`.
pub open spec fn follows_calls(g: Graph, entry: SymbolId, steps: Seq<FlowStep>) -> bool {
    forall|i: int| 0 <= i < steps.len() ==> (#[trigger] steps[i]).edge_kind == EdgeKind::Calls
        && next_calls(g, step_source(entry, steps, i)).contains(steps[i].symbol)
}

/// The symbols of a path: its entry, then the symbol of each step.
pub open spec fn path_symbols(entry: SymbolId, steps: Seq<FlowStep>) -> Seq<SymbolId> {
    seq![entry] + steps.map_values(|st: FlowStep| st.symbol)
}

/// A well-formed traced path: it follows call edges from its entry, has at
/// most `MAX_FLOW_DEPTH` steps, and visits no symbol twice, except that a
/// cyclic path ends on a symbol already on it.
pub open spec fn flow_ok(g: Graph, p: FlowPathView) -> bool {
    &&& follows_calls(g, p.entry, p.steps)
    &&& p.steps.len() <= MAX_FLOW_DEPTH
    &&& if p.is_cyclic {
        &&& p.steps.len() >= 1
        &&& path_symbols(p.entry, p.steps.drop_last()).no_duplicates()
        &&& path_symbols(p.entry, p.steps.drop_last()).contains(p.steps.last().symbol)
    } else {
        path_symbols(p.entry, p.steps).no_duplicates()
    }
}

/// What holds at every point of the exploration: the visited stack is the
/// path so far, without repeats, along call edges, within the depth limit.
pub open spec fn trace_state_ok(g: Graph, entry: SymbolId, visited: Seq<SymbolId>, steps: Seq<FlowStep>, depth: nat) -> bool {
    &&& visited == path_symbols(entry, steps)
    &&& visited.no_duplicates()
    &&& follows_calls(g, entry, steps)
    &&& steps.len() == depth
    &&& depth <= MAX_FLOW_DEPTH
}

proof fn lemma_path_symbols_push(entry: SymbolId, steps: Seq<FlowStep>, st: FlowStep)
    ensures
        path_symbols(entry, steps.push(st)) == path_symbols(entry, steps).push(st.symbol),
        path_symbols(entry, steps).last() == step_source(entry, steps.push(st), steps.len() as int),
{
    assert(path_symbols(entry, steps.push(st)) =~= path_symbols(entry, steps).push(st.symbol));
}

proof fn lemma_push_distinct(v: Seq<SymbolId>, x: SymbolId)
    requires
        v.no_duplicates(),
        !v.contains(x),
    ensures
        v.push(x).no_duplicates(),
{
    let v2 = v.push(x);
    assert forall|a: int, b: int| 0 <= a < v2.len() && 0 <= b < v2.len() && a != b implies v2[a] != v2[b] by {
        if a < v.len() && b < v.len() {
            assert(v2[a] == v[a] && v2[b] == v[b]);
        } else if a < v.len() {
            assert(v2[a] == v[a]);
        } else if b < v.len() {
            assert(v2[b] == v[b]);
        }
    }
}

proof fn lemma_follows_push(g: Graph, entry: SymbolId, steps: Seq<FlowStep>, current: SymbolId)
    requires
        follows_calls(g, entry, steps),
        next_calls(g, path_symbols(entry, steps).last()).contains(current),
    ensures
        follows_calls(g, entry, steps.push(call_step(current))),
        path_symbols(entry, steps.push(call_step(current))) == path_symbols(entry, steps).push(current),
        steps.push(call_step(current)).drop_last() == steps,
{
    let steps2 = steps.push(call_step(current));
    lemma_path_symbols_push(entry, steps, call_step(current));
    assert forall|i: int| 0 <= i < steps2.len() implies (#[trigger] steps2[i]).edge_kind == EdgeKind::Calls
        && next_calls(g, step_source(entry, steps2, i)).contains(steps2[i].symbol) by {
        if i < steps.len() {
            assert(steps2[i] == steps[i]);
            assert(step_source(entry, steps2, i) == step_source(entry, steps, i));
        }
    }
    assert(steps2.drop_last() =~= steps);
}

/// A well-formed path with at least one step is marked cyclic exactly when
/// its last step returns to its entry or to a symbol of an earlier step.
pub open spec fn cyclic_marked_right(p: FlowPathView) -> bool {
    p.is_cyclic <==> path_symbols(p.entry, p.steps.drop_last()).contains(p.steps.last().symbol)
}

proof fn lemma_cyclic_marked_right(g: Graph, p: FlowPathView)
    requires
        flow_ok(g, p),
        p.steps.len() >= 1,
    ensures
        cyclic_marked_right(p),
{
    if !p.is_cyclic {
        let a = path_symbols(p.entry, p.steps.drop_last());
        let last = p.steps.last();
        lemma_path_symbols_push(p.entry, p.steps.drop_last(), last);
        assert(p.steps.drop_last().push(last) =~= p.steps);
        let b = path_symbols(p.entry, p.steps);
        assert(b == a.push(last.symbol));
        if a.contains(last.symbol) {
            let k = choose|k: int| 0 <= k < a.len() && a[k] == last.symbol;
            assert(b[k] == b[a.len() as int]);
        }
    }
}

/// A path recorded by an exploration that started from `steps`: well
/// formed, from `entry`, with at least one step, and extending `steps`.
pub open spec fn explored_ok(g: Graph, entry: SymbolId, steps: Seq<FlowStep>, p: FlowPathView) -> bool {
    &&& p.entry == entry
    &&& flow_ok(g, p)
    &&& p.steps.len() >= 1
    &&& steps.len() <= p.steps.len()
    &&& p.steps.take(steps.len() as int) == steps
}

/// Exploring `current` from any state reached along call edges (the path
/// so far is `steps`, the visited stack is the entry followed by the
/// symbols of `steps`, within the depth limit) records at least one path,
/// and every path it records begins at `entry`, extends `steps`, has at
/// least one and at most `MAX_FLOW_DEPTH` steps, follows call edges, and
/// is marked cyclic exactly when its last step returns to a symbol already
/// on it.
pub proof fn law_exploration_paths_are_walks(g: Graph, current: SymbolId, entry: SymbolId, visited: Seq<SymbolId>,
    steps: Seq<FlowStep>, depth: nat)
    requires
        trace_state_ok(g, entry, visited, steps, depth),
        next_calls(g, visited.last()).contains(current),
    ensures
        trace_paths(g, current, entry, visited, steps, depth).len() >= 1,
        forall|i: int| 0 <= i < trace_paths(g, current, entry, visited, steps, depth).len()
            ==> explored_ok(g, entry, steps, #[trigger] trace_paths(g, current, entry, visited, steps, depth)[i]),
        forall|i: int| 0 <= i < trace_paths(g, current, entry, visited, steps, depth).len()
            ==> cyclic_marked_right(#[trigger] trace_paths(g, current, entry, visited, steps, depth)[i]),
{
    lemma_exploration(g, current, entry, visited, steps, depth);
    let r = trace_paths(g, current, entry, visited, steps, depth);
    assert forall|i: int| 0 <= i < r.len() implies cyclic_marked_right(#[trigger] r[i]) by {
        lemma_cyclic_marked_right(g, r[i]);
    }
}

proof fn lemma_exploration(g: Graph, current: SymbolId, entry: SymbolId, visited: Seq<SymbolId>,
    steps: Seq<FlowStep>, depth: nat)
    requires
        trace_state_ok(g, entry, visited, steps, depth),
        next_calls(g, visited.last()).contains(current),
    ensures
        trace_paths(g, current, entry, visited, steps, depth).len() >= 1,
        forall|i: int| 0 <= i < trace_paths(g, current, entry, visited, steps, depth).len()
            ==> explored_ok(g, entry, steps, #[trigger] trace_paths(g, current, entry, visited, steps, depth)[i]),
    decreases depth_left(depth), 0nat,
{
    lemma_follows_push(g, entry, steps, current);
    let steps2 = steps.push(call_step(current));
    assert(steps2.take(steps.len() as int) =~= steps);
    if depth >= MAX_FLOW_DEPTH {
        let p = FlowPathView { entry, steps, is_cyclic: false };
        assert(flow_ok(g, p));
        assert(steps.take(steps.len() as int) =~= steps);
        assert(trace_paths(g, current, entry, visited, steps, depth) == seq![p]);
    } else if visited.contains(current) {
        let p = FlowPathView { entry, steps: steps2, is_cyclic: true };
        assert(flow_ok(g, p));
        assert(trace_paths(g, current, entry, visited, steps, depth) == seq![p]);
    } else if next_calls(g, current).len() == 0 {
        lemma_push_distinct(visited, current);
        let p = FlowPathView { entry, steps: steps2, is_cyclic: false };
        assert(flow_ok(g, p));
        assert(trace_paths(g, current, entry, visited, steps, depth) == seq![p]);
    } else {
        let v2 = visited.push(current);
        lemma_push_distinct(visited, current);
        assert(trace_state_ok(g, entry, v2, steps2, depth + 1));
        let ts = next_calls(g, current);
        assert forall|k: int| 0 <= k < ts.len() implies next_calls(g, v2.last()).contains(#[trigger] ts[k]) by {}
        lemma_trace_each(g, ts, entry, v2, steps2, depth + 1);
        let r = trace_each(g, ts, entry, v2, steps2, depth + 1);
        assert(trace_paths(g, current, entry, visited, steps, depth) == r);
        assert forall|i: int| 0 <= i < r.len() implies explored_ok(g, entry, steps, #[trigger] r[i]) by {
            let q = r[i];
            assert(explored_ok(g, entry, steps2, q));
            assert(q.steps.take(steps.len() as int) =~= q.steps.take(steps2.len() as int).take(steps.len() as int));
        }
    }
}

proof fn lemma_trace_each(g: Graph, targets: Seq<SymbolId>, entry: SymbolId, visited: Seq<SymbolId>, steps: Seq<FlowStep>, depth: nat)
    requires
        trace_state_ok(g, entry, visited, steps, depth),
        forall|k: int| 0 <= k < targets.len() ==> next_calls(g, visited.last()).contains(#[trigger] targets[k]),
    ensures
        trace_each(g, targets, entry, visited, steps, depth).len() >= targets.len(),
        forall|i: int| 0 <= i < trace_each(g, targets, entry, visited, steps, depth).len()
            ==> explored_ok(g, entry, steps, #[trigger] trace_each(g, targets, entry, visited, steps, depth)[i]),
    decreases depth_left(depth), targets.len(),
{
    if targets.len() > 0 {
        let init = targets.drop_last();
        assert forall|k: int| 0 <= k < init.len() implies next_calls(g, visited.last()).contains(#[trigger] init[k]) by {
            assert(init[k] == targets[k]);
        }
        lemma_trace_each(g, init, entry, visited, steps, depth);
        assert(targets[targets.len() - 1] == targets.last());
        lemma_exploration(g, targets.last(), entry, visited, steps, depth);
        let a = trace_each(g, init, entry, visited, steps, depth);
        let b = trace_paths(g, targets.last(), entry, visited, steps, depth);
        assert forall|i: int| 0 <= i < (a + b).len() implies explored_ok(g, entry, steps, #[trigger] (a + b)[i]) by {
            if i < a.len() {
                assert((a + b)[i] == a[i]);
            } else {
                assert((a + b)[i] == b[i - a.len()]);
            }
        }
    }
}

proof fn lemma_resolved(ids: Seq<SymbolId>)
    ensures
        forall|k: int| 0 <= k < resolved(ids).len() ==> #[trigger] resolved(ids)[k] != SymbolId(0),
        resolved(ids).len() == 0 <==> forall|k: int| 0 <= k < ids.len() ==> #[trigger] ids[k] == SymbolId(0),
    decreases ids.len(),
{
    if ids.len() > 0 {
        lemma_resolved(ids.drop_last());
        let r0 = resolved(ids.drop_last());
        let r = resolved(ids);
        assert forall|k: int| 0 <= k < r.len() implies #[trigger] r[k] != SymbolId(0) by {
            if k < r0.len() {
                assert(r[k] == r0[k]);
            }
        }
        if r.len() == 0 {
            assert forall|k: int| 0 <= k < ids.len() implies #[trigger] ids[k] == SymbolId(0) by {
                if k < ids.len() - 1 {
                    assert(ids.drop_last()[k] == ids[k]);
                }
            }
        }
        if forall|k: int| 0 <= k < ids.len() ==> #[trigger] ids[k] == SymbolId(0) {
            assert forall|k: int| 0 <= k < ids.drop_last().len() implies #[trigger] ids.drop_last()[k] == SymbolId(0) by {
                assert(ids[k] == ids.drop_last()[k]);
            }
            assert(ids[ids.len() - 1] == SymbolId(0));
        }
    }
}

/// Every path traced from `start` begins at `start`, has at least one and
/// at most `MAX_FLOW_DEPTH` steps, none of them an unresolved id, follows
/// resolved call edges, and visits no symbol twice, except that a path
/// marked cyclic ends on a symbol already on it; the result is empty
/// exactly when `start` has no resolved call target.
pub proof fn law_traced_paths_are_walks(g: Graph, start: SymbolId)
    ensures
        forall|i: int| 0 <= i < flows_from(g, start).len() ==> {
            let p = #[trigger] flows_from(g, start)[i];
            p.entry == start && flow_ok(g, p) && p.steps.len() >= 1 && cyclic_marked_right(p)
        },
        forall|i: int, k: int| 0 <= i < flows_from(g, start).len() && 0 <= k < flows_from(g, start)[i].steps.len()
            ==> (#[trigger] flows_from(g, start)[i].steps[k]).symbol != SymbolId(0),
        flows_from(g, start).len() == 0 <==> next_calls(g, start).len() == 0,
{
    let steps0 = Seq::<FlowStep>::empty();
    assert(path_symbols(start, steps0) =~= seq![start]);
    assert(trace_state_ok(g, start, seq![start], steps0, 0));
    lemma_trace_each(g, next_calls(g, start), start, seq![start], steps0, 0);
    let fs = flows_from(g, start);
    assert forall|i: int| 0 <= i < fs.len() implies {
        let p = #[trigger] fs[i];
        p.entry == start && flow_ok(g, p) && p.steps.len() >= 1 && cyclic_marked_right(p)
    } by {
        assert(explored_ok(g, start, steps0, fs[i]));
        lemma_cyclic_marked_right(g, fs[i]);
    }
    assert forall|i: int, k: int| 0 <= i < fs.len() && 0 <= k < fs[i].steps.len()
        implies (#[trigger] fs[i].steps[k]).symbol != SymbolId(0) by {
        let p = fs[i];
        assert(explored_ok(g, start, steps0, p));
        assert(follows_calls(g, p.entry, p.steps));
        let src = step_source(p.entry, p.steps, k);
        lemma_resolved(call_targets(g.out_edges(src)));
        let nc = next_calls(g, src);
        assert(nc.contains(p.steps[k].symbol));
        let q = choose|q: int| 0 <= q < nc.len() && nc[q] == p.steps[k].symbol;
    }
}

} // verus!
