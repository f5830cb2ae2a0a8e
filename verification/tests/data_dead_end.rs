use flowspec::diagnostic::{Confidence, DiagnosticPattern, Severity};
use flowspec::graph::Graph;
use flowspec::ir::{
    Location, Reference, ReferenceId, ReferenceKind, ResolutionStatus, ScopeId, Symbol, SymbolId,
    SymbolKind, Visibility,
};
use flowspec::patterns::data_dead_end::detect;

fn make_symbol(name: &str, kind: SymbolKind, visibility: Visibility, file: &str, line: u32) -> Symbol {
    Symbol {
        id: SymbolId::default(),
        kind,
        name: name.to_string(),
        qualified_name: format!("{}::{}", file, name),
        visibility,
        signature: None,
        location: Location { file: file.to_string(), line, column: 1, end_line: line, end_column: 1 },
        resolution: ResolutionStatus::Resolved,
        scope: ScopeId::default(),
        annotations: vec![],
    }
}

#[allow(dead_code)]
fn make_import(name: &str, file: &str, line: u32) -> Symbol {
    let mut s = make_symbol(name, SymbolKind::Variable, Visibility::Private, file, line);
    s.annotations.push("import".to_string());
    s
}

#[allow(dead_code)]
fn make_entry_point(name: &str, kind: SymbolKind, visibility: Visibility, file: &str, line: u32) -> Symbol {
    let mut s = make_symbol(name, kind, visibility, file, line);
    s.annotations.push("entry_point".to_string());
    s
}

#[allow(dead_code)]
fn add_ref(graph: &mut Graph, from: SymbolId, to: SymbolId, kind: ReferenceKind, file: &str) {
    graph.add_reference(Reference {
        id: ReferenceId::default(),
        from,
        to,
        kind,
        location: Location { file: file.to_string(), line: 1, column: 1, end_line: 1, end_column: 1 },
        resolution: ResolutionStatus::Resolved,
    });
}


// =========================================================================
// QA-2 C13 Section 3: Cross-pattern domain overlap — CJS import exclusion
// =========================================================================

// =========================================================================
// QA-2 C14 Section 3: Cross-Pattern Regression — data_dead_end
// =========================================================================

// T18: Import-annotated symbols still excluded after type reference fix

#[test]
fn test_c14_data_dead_end_excludes_import_symbols_after_type_reference_fix() {
    let mut graph = Graph::new();

    let import_id = graph.add_symbol({
        let mut sym = make_import("Config", "lib.rs", 1);
        sym.annotations.push("from:crate::config".to_string());
        sym
    });

    let func_id = graph.add_symbol(make_symbol(
        "load",
        SymbolKind::Function,
        Visibility::Public,
        "lib.rs",
        10,
    ));

    // Type reference edge from Worker 1's fix
    add_ref(
        &mut graph,
        func_id,
        import_id,
        ReferenceKind::Read,
        "lib.rs",
    );

    let diagnostics = detect(&graph, "");
    assert!(
        !diagnostics.iter().any(|d| d.entity.contains("Config")),
        "Import symbol 'Config' must be excluded from data_dead_end via \
         is_excluded_symbol() annotation check, regardless of edge count"
    );
}

#[test]
fn test_data_dead_end_does_not_fire_on_cjs_import_symbol() {
    let mut graph = Graph::new();

    graph.add_symbol({
        let mut sym = make_import("parse", "app.js", 1);
        sym.annotations.push("from:./utils".to_string());
        sym.annotations.push("cjs".to_string());
        sym
    });

    let diagnostics = detect(&graph, "");
    assert!(
        !diagnostics.iter().any(|d| d.entity.contains("parse")),
        "CJS import symbol must be excluded from data_dead_end via is_excluded_symbol()"
    );
}
