use flowspec::flow::{trace_all_flows, trace_flows_from, MAX_FLOW_DEPTH};
use flowspec::graph::Graph;
use flowspec::ir::{
    Location, Reference, ReferenceId, ReferenceKind, ResolutionStatus, ScopeId, Symbol, SymbolId,
    SymbolKind, Visibility,
};

fn make_symbol(name: &str, kind: SymbolKind, file: &str, line: u32) -> Symbol {
    Symbol {
        id: SymbolId::default(),
        kind,
        name: name.to_string(),
        qualified_name: format!("{}::{}", file, name),
        visibility: Visibility::Public,
        signature: None,
        location: Location { file: file.to_string(), line, column: 1, end_line: line, end_column: 1 },
        resolution: ResolutionStatus::Resolved,
        scope: ScopeId::default(),
        annotations: vec![],
    }
}

fn add_call(graph: &mut Graph, from: SymbolId, to: SymbolId, file: &str) {
    graph.add_reference(Reference {
        id: ReferenceId::default(),
        from,
        to,
        kind: ReferenceKind::Call,
        location: Location { file: file.to_string(), line: 1, column: 1, end_line: 1, end_column: 1 },
        resolution: ResolutionStatus::Resolved,
    });
}

// T15: Linear path A→B→C
#[test]
fn test_flow_trace_linear_path() {
    let mut g = Graph::new();
    let a = g.add_symbol(make_symbol("func_a", SymbolKind::Function, "main.py", 1));
    let b = g.add_symbol(make_symbol("func_b", SymbolKind::Function, "main.py", 5));
    let c = g.add_symbol(make_symbol("func_c", SymbolKind::Function, "main.py", 10));
    add_call(&mut g, a, b, "main.py");
    add_call(&mut g, b, c, "main.py");

    let paths = trace_flows_from(&g, a);

    assert_eq!(paths.len(), 1, "Linear chain produces one path");
    assert_eq!(paths[0].steps.len(), 2, "Two steps: B, C");
    assert!(!paths[0].is_cyclic, "Linear path is not cyclic");
    assert_eq!(paths[0].entry, a, "Path starts at A");
}

// T16: Branching A→B, A→C
#[test]
fn test_flow_trace_branching_path() {
    let mut g = Graph::new();
    let a = g.add_symbol(make_symbol("main", SymbolKind::Function, "app.py", 1));
    let b = g.add_symbol(make_symbol("handler_b", SymbolKind::Function, "app.py", 5));
    let c = g.add_symbol(make_symbol("handler_c", SymbolKind::Function, "app.py", 10));
    add_call(&mut g, a, b, "app.py");
    add_call(&mut g, a, c, "app.py");

    let paths = trace_flows_from(&g, a);

    let all_symbols: Vec<SymbolId> = paths
        .iter()
        .flat_map(|p| p.steps.iter().map(|s| s.symbol))
        .collect();
    assert!(all_symbols.contains(&b), "Branch to B must be traced");
    assert!(all_symbols.contains(&c), "Branch to C must be traced");
}

// T17: Cycle detection A→B→A
#[test]
fn test_flow_trace_cycle_detection() {
    let mut g = Graph::new();
    let a = g.add_symbol(make_symbol("ping", SymbolKind::Function, "cycle.py", 1));
    let b = g.add_symbol(make_symbol("pong", SymbolKind::Function, "cycle.py", 5));
    add_call(&mut g, a, b, "cycle.py");
    add_call(&mut g, b, a, "cycle.py");

    let paths = trace_flows_from(&g, a);

    assert!(
        !paths.is_empty(),
        "Cyclic graph must produce at least one path"
    );
    assert!(
        paths.iter().any(|p| p.is_cyclic),
        "Path through cycle MUST be marked is_cyclic: true"
    );
}

// T18: Cross-file flow
#[test]
fn test_flow_trace_cross_file() {
    let mut g = Graph::new();
    let main_fn = g.add_symbol(make_symbol("main", SymbolKind::Function, "a.py", 1));
    let helper = g.add_symbol(make_symbol("helper", SymbolKind::Function, "b.py", 1));
    add_call(&mut g, main_fn, helper, "a.py");

    let paths = trace_flows_from(&g, main_fn);

    assert_eq!(paths.len(), 1);
    let step_symbols: Vec<SymbolId> = paths[0].steps.iter().map(|s| s.symbol).collect();
    assert!(
        step_symbols.contains(&helper),
        "Flow must trace across file boundaries"
    );
}

// T19: Terminal node
#[test]
fn test_flow_trace_terminal_node() {
    let mut g = Graph::new();
    let a = g.add_symbol(make_symbol("entry", SymbolKind::Function, "main.py", 1));
    let b = g.add_symbol(make_symbol("terminal", SymbolKind::Function, "main.py", 5));
    add_call(&mut g, a, b, "main.py");

    let paths = trace_flows_from(&g, a);

    assert_eq!(paths.len(), 1);
    assert!(!paths[0].is_cyclic);
}

// T20: Deep call chain (15 functions)
#[test]
fn test_flow_trace_deep_call_chain() {
    let mut g = Graph::new();
    let mut ids = Vec::new();
    for i in 0..15 {
        let id = g.add_symbol(make_symbol(
            &format!("f{}", i),
            SymbolKind::Function,
            "deep.py",
            i as u32 + 1,
        ));
        ids.push(id);
    }
    for i in 0..14 {
        add_call(&mut g, ids[i], ids[i + 1], "deep.py");
    }

    let paths = trace_flows_from(&g, ids[0]);

    assert_eq!(paths.len(), 1);
    assert_eq!(paths[0].steps.len(), 14);
}

// T21: Empty graph
#[test]
fn test_flow_trace_empty_graph() {
    let g = Graph::new();
    let paths = trace_all_flows(&g);
    assert!(paths.is_empty(), "Empty graph must produce no flows");
}

// T22: Single-symbol graph
#[test]
fn test_flow_trace_single_symbol() {
    let mut g = Graph::new();
    let solo = g.add_symbol(make_symbol("main", SymbolKind::Function, "solo.py", 1));

    let paths = trace_flows_from(&g, solo);

    // Terminal entry point with no outgoing calls — no flow paths
    assert!(paths.is_empty());
}

// T23: Star import flow (same as cross-file — just call edges)
#[test]
fn test_flow_trace_through_star_import() {
    let mut g = Graph::new();
    let main_fn = g.add_symbol(make_symbol("main", SymbolKind::Function, "a.py", 1));
    let helper = g.add_symbol(make_symbol("helper", SymbolKind::Function, "b.py", 1));
    add_call(&mut g, main_fn, helper, "a.py");

    let paths = trace_flows_from(&g, main_fn);

    assert_eq!(paths.len(), 1);
    let step_symbols: Vec<SymbolId> = paths[0].steps.iter().map(|s| s.symbol).collect();
    assert!(step_symbols.contains(&helper));
}

// T24: Idempotent
#[test]
fn test_flow_trace_idempotent() {
    let mut g = Graph::new();
    let a = g.add_symbol(make_symbol("func_a", SymbolKind::Function, "main.py", 1));
    let b = g.add_symbol(make_symbol("func_b", SymbolKind::Function, "main.py", 5));
    let c = g.add_symbol(make_symbol("func_c", SymbolKind::Function, "main.py", 10));
    add_call(&mut g, a, b, "main.py");
    add_call(&mut g, b, c, "main.py");

    let paths1 = trace_flows_from(&g, a);
    let paths2 = trace_flows_from(&g, a);

    assert_eq!(paths1.len(), paths2.len(), "Trace must be idempotent");
    for (p1, p2) in paths1.iter().zip(paths2.iter()) {
        assert_eq!(p1.entry, p2.entry);
        assert_eq!(p1.steps.len(), p2.steps.len());
        assert_eq!(p1.is_cyclic, p2.is_cyclic);
    }
}

// T25: Unresolved target
#[test]
fn test_flow_trace_unresolved_target_stops_path() {
    let mut g = Graph::new();
    let a = g.add_symbol(make_symbol("caller", SymbolKind::Function, "main.py", 1));
    // Add an edge to SymbolId::default() (unresolved)
    g.add_reference(Reference {
        id: ReferenceId::default(),
        from: a,
        to: SymbolId::default(),
        kind: ReferenceKind::Call,
        location: Location {
            file: "main.py".to_string(),
            line: 1,
            column: 1,
            end_line: 1,
            end_column: 1,
        },
        resolution: ResolutionStatus::Unresolved,
    });

    let paths = trace_flows_from(&g, a);

    // Unresolved targets are filtered — no valid call targets, so no paths
    for path in &paths {
        for step in &path.steps {
            assert_ne!(
                step.symbol,
                SymbolId::default(),
                "Unresolved targets must not appear as flow steps"
            );
        }
    }
}

// T26: Max depth enforcement
#[test]
fn test_flow_trace_max_depth_enforcement() {
    let mut g = Graph::new();
    let mut ids = Vec::new();
    for i in 0..100 {
        let id = g.add_symbol(make_symbol(
            &format!("f{}", i),
            SymbolKind::Function,
            "huge.py",
            i as u32 + 1,
        ));
        ids.push(id);
    }
    for i in 0..99 {
        add_call(&mut g, ids[i], ids[i + 1], "huge.py");
    }

    let paths = trace_flows_from(&g, ids[0]);

    assert!(!paths.is_empty());
    for path in &paths {
        assert!(
            path.steps.len() <= MAX_FLOW_DEPTH,
            "Flow path must not exceed max depth ({}). Got: {}",
            MAX_FLOW_DEPTH,
            path.steps.len()
        );
    }
}

// T27: Diamond pattern
#[test]
fn test_flow_trace_diamond_pattern() {
    let mut g = Graph::new();
    let a = g.add_symbol(make_symbol("entry", SymbolKind::Function, "diamond.py", 1));
    let b = g.add_symbol(make_symbol("path_b", SymbolKind::Function, "diamond.py", 5));
    let c = g.add_symbol(make_symbol(
        "path_c",
        SymbolKind::Function,
        "diamond.py",
        10,
    ));
    let d = g.add_symbol(make_symbol("sink", SymbolKind::Function, "diamond.py", 15));
    add_call(&mut g, a, b, "diamond.py");
    add_call(&mut g, a, c, "diamond.py");
    add_call(&mut g, b, d, "diamond.py");
    add_call(&mut g, c, d, "diamond.py");

    let paths = trace_flows_from(&g, a);

    assert!(
        paths.len() >= 2,
        "Diamond pattern must produce at least 2 paths (via B and via C). Got: {}",
        paths.len()
    );
}

// T28: trace_all_flows uses entry point detection
#[test]
fn test_trace_all_flows_finds_entry_points() {
    let mut g = Graph::new();
    let main_fn = g.add_symbol(make_symbol("main", SymbolKind::Function, "__main__.py", 1));
    let helper = g.add_symbol(make_symbol("helper", SymbolKind::Function, "utils.py", 1));
    add_call(&mut g, main_fn, helper, "__main__.py");

    let paths = trace_all_flows(&g);

    assert!(!paths.is_empty(), "trace_all_flows must find entry points");
    assert!(
        paths.iter().any(|p| p.entry == main_fn),
        "main() must be detected as entry point"
    );
}

#[test]
fn linear_path_steps_are_the_callees_in_order() {
    let mut g = Graph::new();
    let a = g.add_symbol(make_symbol("a", SymbolKind::Function, "m.py", 1));
    let b = g.add_symbol(make_symbol("b", SymbolKind::Function, "m.py", 2));
    let c = g.add_symbol(make_symbol("c", SymbolKind::Function, "m.py", 3));
    add_call(&mut g, a, b, "m.py");
    add_call(&mut g, b, c, "m.py");
    let paths = trace_flows_from(&g, a);
    assert_eq!(paths.len(), 1);
    let steps: Vec<SymbolId> = paths[0].steps.iter().map(|s| s.symbol).collect();
    assert_eq!(steps, vec![b, c]);
}
