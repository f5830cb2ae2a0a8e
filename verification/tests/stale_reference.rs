use flowspec::diagnostic::{Confidence, DiagnosticPattern, Severity};
use flowspec::graph::Graph;
use flowspec::ir::{
    Location, Reference, ReferenceId, ReferenceKind, ResolutionStatus, ScopeId, Symbol, SymbolId,
    SymbolKind, Visibility,
};
use flowspec::patterns::stale_reference::detect;

fn make_symbol(name: &str, kind: SymbolKind, visibility: Visibility, file: &str, line: u32) -> Symbol {
    Symbol {
        id: SymbolId::default(),
        kind,
        name: name.to_string(),
        qualified_name: format!("{}::{}", file, name),
        visibility,
        signature: None,
        location: Location { file: file.to_string(), line, column: 1, end_line: line, end_column: 1 },
        resolution: ResolutionStatus::Resolved,
        scope: ScopeId::default(),
        annotations: vec![],
    }
}

#[allow(dead_code)]
fn make_import(name: &str, file: &str, line: u32) -> Symbol {
    let mut s = make_symbol(name, SymbolKind::Variable, Visibility::Private, file, line);
    s.annotations.push("import".to_string());
    s
}

#[allow(dead_code)]
fn make_entry_point(name: &str, kind: SymbolKind, visibility: Visibility, file: &str, line: u32) -> Symbol {
    let mut s = make_symbol(name, kind, visibility, file, line);
    s.annotations.push("entry_point".to_string());
    s
}

#[allow(dead_code)]
fn add_ref(graph: &mut Graph, from: SymbolId, to: SymbolId, kind: ReferenceKind, file: &str) {
    graph.add_reference(Reference {
        id: ReferenceId::default(),
        from,
        to,
        kind,
        location: Location { file: file.to_string(), line: 1, column: 1, end_line: 1, end_column: 1 },
        resolution: ResolutionStatus::Resolved,
    });
}

#[allow(dead_code)]
fn call_from_top_level(graph: &mut Graph, to: SymbolId, file: &str) {
    graph.add_reference(Reference {
        id: ReferenceId::default(),
        from: SymbolId::default(),
        to,
        kind: ReferenceKind::Call,
        location: Location { file: file.to_string(), line: 1, column: 1, end_line: 1, end_column: 1 },
        resolution: ResolutionStatus::Unresolved,
    });
}

#[allow(dead_code)]
fn add_dead_code(g: &mut Graph) {
    let f = "dead_code.py";
    let main_handler = g.add_symbol(make_symbol("main_handler", SymbolKind::Function, Visibility::Public, f, 1));
    let active = g.add_symbol(make_symbol("active_function", SymbolKind::Function, Visibility::Public, f, 5));
    g.add_symbol(make_symbol("unused_helper", SymbolKind::Function, Visibility::Private, f, 10));
    g.add_symbol(make_symbol("_private_util", SymbolKind::Function, Visibility::Private, f, 15));
    add_ref(g, main_handler, active, ReferenceKind::Call, f);
}

#[allow(dead_code)]
fn build_dead_code_graph() -> Graph {
    let mut g = Graph::new();
    add_dead_code(&mut g);
    g
}

#[allow(dead_code)]
fn add_unused_imports(g: &mut Graph) {
    let f = "main.py";
    g.add_symbol(make_import("os", f, 1));
    g.add_symbol(make_import("OrderedDict", f, 2));
    let sys = g.add_symbol(make_import("sys", f, 3));
    let optional = g.add_symbol(make_import("Optional", f, 4));
    let path = g.add_symbol(make_import("Path", f, 5));
    let run = g.add_symbol(make_symbol("run_app", SymbolKind::Function, Visibility::Public, f, 10));
    add_ref(g, run, sys, ReferenceKind::Read, f);
    add_ref(g, run, optional, ReferenceKind::Read, f);
    add_ref(g, run, path, ReferenceKind::Call, f);
    call_from_top_level(g, run, f);
}

#[allow(dead_code)]
fn build_unused_import_graph() -> Graph {
    let mut g = Graph::new();
    add_unused_imports(&mut g);
    g
}

#[allow(dead_code)]
fn add_isolated_module(g: &mut Graph) {
    let f = "feature/unwired.py";
    let run = g.add_symbol(make_symbol("run", SymbolKind::Function, Visibility::Public, f, 1));
    let process = g.add_symbol(make_symbol("process", SymbolKind::Function, Visibility::Public, f, 10));
    let validate = g.add_symbol(make_symbol("validate", SymbolKind::Function, Visibility::Public, f, 20));
    add_ref(g, run, process, ReferenceKind::Call, f);
    add_ref(g, process, validate, ReferenceKind::Call, f);
}

#[allow(dead_code)]
fn build_isolated_module_graph() -> Graph {
    let mut g = Graph::new();
    g.add_symbol(make_entry_point("main", SymbolKind::Function, Visibility::Public, "app.py", 1));
    add_isolated_module(&mut g);
    g
}

#[allow(dead_code)]
fn build_clean_code_graph() -> Graph {
    let mut g = Graph::new();
    let main = g.add_symbol(make_entry_point("main", SymbolKind::Function, Visibility::Public, "app.py", 1));
    let process = g.add_symbol(make_symbol("process_data", SymbolKind::Function, Visibility::Public, "utils.py", 1));
    let format = g.add_symbol(make_symbol("format_output", SymbolKind::Function, Visibility::Public, "utils.py", 10));
    add_ref(&mut g, main, process, ReferenceKind::Call, "app.py");
    add_ref(&mut g, process, format, ReferenceKind::Call, "utils.py");
    call_from_top_level(&mut g, main, "app.py");
    g
}

#[allow(dead_code)]
fn build_public_api_graph() -> Graph {
    let mut g = Graph::new();
    g.add_symbol(make_symbol("format_timestamp", SymbolKind::Function, Visibility::Public, "lib.py", 1));
    g.add_symbol(make_symbol("parse_duration", SymbolKind::Function, Visibility::Public, "lib.py", 10));
    g.add_symbol(make_symbol("_internal_helper", SymbolKind::Function, Visibility::Private, "lib.py", 20));
    g
}

#[allow(dead_code)]
fn build_test_module_graph() -> Graph {
    let mut g = Graph::new();
    let f = "tests/test_module.py";
    let a = g.add_symbol(make_symbol("test_active_function", SymbolKind::Function, Visibility::Public, f, 1));
    let b = g.add_symbol(make_symbol("test_main_handler", SymbolKind::Function, Visibility::Public, f, 10));
    let setup = g.add_symbol(make_symbol("setup_fixture", SymbolKind::Function, Visibility::Private, f, 20));
    add_ref(&mut g, a, setup, ReferenceKind::Call, f);
    add_ref(&mut g, b, setup, ReferenceKind::Call, f);
    g
}

#[allow(dead_code)]
fn build_single_orphan_graph() -> Graph {
    let mut g = Graph::new();
    g.add_symbol(make_symbol("lonely_function", SymbolKind::Function, Visibility::Private, "orphan.py", 1));
    g
}

#[allow(dead_code)]
fn build_reexport_only_module_graph() -> Graph {
    let mut g = Graph::new();
    let f = "pkg/__init__.py";
    let pkg = g.add_symbol(make_symbol("pkg", SymbolKind::Module, Visibility::Public, f, 1));
    let a = g.add_symbol(make_import("helper_a", f, 1));
    let b = g.add_symbol(make_import("helper_b", f, 2));
    add_ref(&mut g, pkg, a, ReferenceKind::Export, f);
    add_ref(&mut g, pkg, b, ReferenceKind::Export, f);
    g
}

#[allow(dead_code)]
fn build_isolated_cluster_with_dead_end_graph() -> Graph {
    let mut g = Graph::new();
    let f = "island.py";
    let entry = g.add_symbol(make_symbol("entry_fn", SymbolKind::Function, Visibility::Private, f, 1));
    let a = g.add_symbol(make_symbol("worker_a", SymbolKind::Function, Visibility::Private, f, 10));
    let b = g.add_symbol(make_symbol("worker_b", SymbolKind::Function, Visibility::Private, f, 20));
    add_ref(&mut g, entry, a, ReferenceKind::Call, f);
    add_ref(&mut g, a, b, ReferenceKind::Call, f);
    g
}

#[allow(dead_code)]
fn build_reexport_init_graph() -> Graph {
    let mut g = Graph::new();
    let f = "pkg/__init__.py";
    let pkg = g.add_symbol(make_symbol("pkg", SymbolKind::Module, Visibility::Public, f, 1));
    let helper = g.add_symbol(make_import("helper", f, 2));
    g.add_symbol(make_import("internal_only", f, 3));
    add_ref(&mut g, pkg, helper, ReferenceKind::Export, f);
    g
}

#[allow(dead_code)]
fn build_side_effect_import_graph() -> Graph {
    let mut g = Graph::new();
    let f = "app.py";
    let logging = g.add_symbol(make_import("logging", f, 1));
    g.add_symbol(make_import("json", f, 2));
    let setup = g.add_symbol(make_symbol("setup", SymbolKind::Function, Visibility::Public, f, 5));
    add_ref(&mut g, setup, logging, ReferenceKind::Call, f);
    g
}

#[allow(dead_code)]
fn build_circular_dep_graph() -> Graph {
    let mut g = Graph::new();
    let a = g.add_symbol(make_symbol("func_a", SymbolKind::Function, Visibility::Public, "mod_a.py", 1));
    let b = g.add_symbol(make_symbol("func_b", SymbolKind::Function, Visibility::Public, "mod_b.py", 1));
    let c = g.add_symbol(make_symbol("func_c", SymbolKind::Function, Visibility::Public, "mod_c.py", 1));
    add_ref(&mut g, a, b, ReferenceKind::Call, "mod_a.py");
    add_ref(&mut g, b, c, ReferenceKind::Call, "mod_b.py");
    add_ref(&mut g, c, a, ReferenceKind::Call, "mod_c.py");
    g
}

#[allow(dead_code)]
fn build_linear_dep_graph() -> Graph {
    let mut g = Graph::new();
    let a = g.add_symbol(make_symbol("func_a", SymbolKind::Function, Visibility::Public, "mod_a.py", 1));
    let b = g.add_symbol(make_symbol("func_b", SymbolKind::Function, Visibility::Public, "mod_b.py", 1));
    let c = g.add_symbol(make_symbol("func_c", SymbolKind::Function, Visibility::Public, "mod_c.py", 1));
    add_ref(&mut g, a, b, ReferenceKind::Call, "mod_a.py");
    add_ref(&mut g, b, c, ReferenceKind::Call, "mod_b.py");
    g
}

#[allow(dead_code)]
fn build_orphaned_method_graph() -> Graph {
    let mut g = Graph::new();
    let f = "user_service.py";
    g.add_symbol(make_symbol("UserService", SymbolKind::Class, Visibility::Public, f, 1));
    let process = g.add_symbol(make_symbol("process_user", SymbolKind::Method, Visibility::Public, f, 3));
    let validate = g.add_symbol(make_symbol("validate", SymbolKind::Method, Visibility::Public, f, 10));
    add_ref(&mut g, process, validate, ReferenceKind::Call, f);
    g
}

#[allow(dead_code)]
fn build_missing_reexport_graph() -> Graph {
    let mut g = Graph::new();
    g.add_symbol(make_symbol("pkg", SymbolKind::Module, Visibility::Public, "pkg/__init__.py", 1));
    g.add_symbol(make_import("helper_a", "pkg/__init__.py", 2));
    g.add_symbol(make_symbol("helpers", SymbolKind::Module, Visibility::Public, "pkg/helpers.py", 1));
    g.add_symbol(make_symbol("helper_a", SymbolKind::Function, Visibility::Public, "pkg/helpers.py", 3));
    g.add_symbol(make_symbol("helper_b", SymbolKind::Function, Visibility::Public, "pkg/helpers.py", 10));
    g.add_symbol(make_symbol("_private_fn", SymbolKind::Function, Visibility::Private, "pkg/helpers.py", 20));
    g
}

#[allow(dead_code)]
fn build_all_fixtures_graph() -> Graph {
    let mut g = Graph::new();
    add_dead_code(&mut g);
    add_unused_imports(&mut g);
    add_isolated_module(&mut g);
    g
}



// =========================================================================
// T1: True Positive — Renamed Function Import
// =========================================================================








#[test]
fn test_stale_reference_fires_on_cross_file_removed_symbol() {
    let mut graph = Graph::new();
    let file_a = "file_a.py";
    let file_b = "file_b.py";

    // file_b has `transform` but NOT `process`
    graph.add_symbol(make_symbol(
        "transform",
        SymbolKind::Function,
        Visibility::Public,
        file_b,
        1,
    ));

    // file_a imports `process` from file_b — but process doesn't exist
    let mut import_sym = make_import("process", file_a, 1);
    import_sym.annotations.push("from:file_b".to_string());
    import_sym.resolution =
        ResolutionStatus::Partial("module resolved, symbol not found".to_string());
    graph.add_symbol(import_sym);

    let diagnostics = detect(&graph, "");
    assert!(
        diagnostics.iter().any(|d| d.entity.contains("process")),
        "Cross-file stale reference to removed symbol 'process' must be detected"
    );
}

#[test]
fn test_stale_reference_confidence_high_for_module_resolved_symbol_missing() {
    let mut graph = Graph::new();
    let mut import_sym = make_import("old_fn", "consumer.py", 1);
    import_sym.annotations.push("from:provider".to_string());
    import_sym.resolution =
        ResolutionStatus::Partial("module resolved, symbol not found".to_string());
    graph.add_symbol(import_sym);

    graph.add_symbol(make_symbol(
        "new_fn",
        SymbolKind::Function,
        Visibility::Public,
        "provider.py",
        1,
    ));

    let diagnostics = detect(&graph, "");
    assert!(!diagnostics.is_empty(), "Must detect stale reference");

    let diag = &diagnostics[0];
    assert_eq!(
        diag.confidence,
        Confidence::High,
        "Signal 1 (module resolved, symbol not found) must be HIGH confidence, \
         not {:?}. This is evidence-based, not heuristic.",
        diag.confidence
    );
}

#[test]
fn test_stale_reference_confidence_moderate_for_heuristic_detection() {
    let mut graph = Graph::new();
    // Unresolved import to a local-looking module
    let mut import_sym = make_import("some_fn", "consumer.py", 1);
    import_sym.annotations.push("from:local_utils".to_string());
    import_sym.resolution = ResolutionStatus::Unresolved;
    graph.add_symbol(import_sym);

    // Add a symbol in local_utils.py so the module looks local
    graph.add_symbol(make_symbol(
        "other_fn",
        SymbolKind::Function,
        Visibility::Public,
        "local_utils.py",
        1,
    ));

    let diagnostics = detect(&graph, "");

    for diag in &diagnostics {
        assert_ne!(
            diag.confidence,
            Confidence::High,
            "Heuristic-based detection (unresolved local import) must NOT use HIGH \
             confidence. Got HIGH for entity: {}",
            diag.entity
        );
    }
}

#[test]
fn test_stale_reference_evidence_includes_location_and_target() {
    let mut graph = Graph::new();
    let mut import_sym = make_import("defunct_function", "app.py", 7);
    import_sym.annotations.push("from:lib".to_string());
    import_sym.resolution =
        ResolutionStatus::Partial("module resolved, symbol not found".to_string());
    graph.add_symbol(import_sym);

    graph.add_symbol(make_symbol(
        "other_fn",
        SymbolKind::Function,
        Visibility::Public,
        "lib.py",
        1,
    ));

    let diagnostics = detect(&graph, "");
    assert!(!diagnostics.is_empty(), "Must detect stale reference");

    let diag = &diagnostics[0];

    // Evidence is non-empty
    assert!(
        !diag.evidence.is_empty(),
        "stale_reference diagnostic must include evidence"
    );

    // Location references the source file
    assert!(
        diag.location.contains("app.py"),
        "Location must reference the importing file. Got: {}",
        diag.location
    );

    // Entity or evidence mentions the missing symbol
    let mentions_target = diag.entity.contains("defunct_function")
        || diag
            .evidence
            .iter()
            .any(|e| e.observation.contains("defunct_function"));
    assert!(
        mentions_target,
        "Evidence or entity must mention the specific missing symbol 'defunct_function'"
    );
}

#[test]
fn test_stale_reference_detects_all_stale_imports_in_one_file() {
    let mut graph = Graph::new();
    let consumer = "consumer.py";
    let provider = "provider.py";

    // Provider has active_helper only
    graph.add_symbol(make_symbol(
        "active_helper",
        SymbolKind::Function,
        Visibility::Public,
        provider,
        1,
    ));

    // Consumer imports 3 things, 2 are stale
    for (name, resolution) in [
        (
            "removed_helper",
            ResolutionStatus::Partial("module resolved, symbol not found".to_string()),
        ),
        (
            "another_removed",
            ResolutionStatus::Partial("module resolved, symbol not found".to_string()),
        ),
        ("active_helper", ResolutionStatus::Resolved),
    ] {
        let mut import_sym = make_import(name, consumer, 1);
        import_sym.annotations.push("from:provider".to_string());
        import_sym.resolution = resolution;
        graph.add_symbol(import_sym);
    }

    let diagnostics = detect(&graph, "");

    let stale_entities: Vec<&str> = diagnostics.iter().map(|d| d.entity.as_str()).collect();
    assert!(
        stale_entities.iter().any(|e| e.contains("removed_helper")),
        "removed_helper must be detected. Got: {:?}",
        stale_entities
    );
    assert!(
        stale_entities.iter().any(|e| e.contains("another_removed")),
        "another_removed must be detected. Got: {:?}",
        stale_entities
    );
    assert!(
        diagnostics.len() >= 2,
        "At least 2 stale references must be reported, got {}",
        diagnostics.len()
    );
}

#[test]
fn test_stale_reference_reports_findings_in_test_files() {
    let mut graph = Graph::new();
    let test_file = "test_integration.py";
    let provider = "module.py";

    graph.add_symbol(make_symbol(
        "current_fn",
        SymbolKind::Function,
        Visibility::Public,
        provider,
        1,
    ));

    let mut import_sym = make_import("old_api", test_file, 3);
    import_sym.annotations.push("from:module".to_string());
    import_sym.resolution =
        ResolutionStatus::Partial("module resolved, symbol not found".to_string());
    graph.add_symbol(import_sym);

    let diagnostics = detect(&graph, "");

    assert!(
        diagnostics.iter().any(|d| d.entity.contains("old_api")),
        "Stale reference in test file must still be reported. \
         The detector must NOT use is_excluded_symbol() as a pre-filter \
         because it skips all import-annotated symbols."
    );
}

#[test]
fn test_stale_reference_does_not_fire_on_star_import() {
    let mut graph = Graph::new();
    let mut import_sym = make_import("*:utils", "main.py", 1);
    import_sym.annotations.push("from:utils".to_string());
    import_sym.resolution =
        ResolutionStatus::Partial("star import - module resolved".to_string());
    graph.add_symbol(import_sym);

    let diagnostics = detect(&graph, "");
    assert!(
        diagnostics.is_empty(),
        "Star imports must NOT be flagged as stale references. Got: {:?}",
        diagnostics.iter().map(|d| &d.entity).collect::<Vec<_>>()
    );
}

#[test]
fn test_stale_reference_does_not_fire_on_unresolved_third_party() {
    let mut graph = Graph::new();
    let mut import_sym = make_import("get", "app.py", 1);
    import_sym.annotations.push("from:requests".to_string());
    import_sym.resolution = ResolutionStatus::Unresolved;
    graph.add_symbol(import_sym);
    // Note: NO symbols in "requests.py" — it's a third-party module

    let diagnostics = detect(&graph, "");

    // Either no diagnostic fires, or if it does, confidence must not be High
    for diag in &diagnostics {
        if diag.entity.contains("get") {
            assert_ne!(
                diag.confidence,
                Confidence::High,
                "Third-party unresolved import must NOT be HIGH confidence"
            );
        }
    }
}

#[test]
fn test_stale_reference_empty_graph_no_panic() {
    let graph = Graph::new();
    let diagnostics = detect(&graph, "");
    assert!(
        diagnostics.is_empty(),
        "Empty graph must produce zero diagnostics"
    );
}

#[test]
fn test_stale_reference_handles_import_without_from_annotation() {
    let mut graph = Graph::new();
    // Import with no "from:" annotation — bare import
    let mut import_sym = make_import("os", "script.py", 1);
    // Note: only has "import" annotation, no "from:" annotation
    import_sym.resolution = ResolutionStatus::Unresolved;
    graph.add_symbol(import_sym);

    let diagnostics = detect(&graph, "");
    // Should not panic and should not flag bare imports without "from:"
    let os_diags: Vec<_> = diagnostics.iter().filter(|d| d.entity == "os").collect();
    assert!(
        os_diags.is_empty(),
        "Bare imports without 'from:' annotation should be skipped, not flagged"
    );
}

#[test]
fn test_stale_reference_severity_is_warning() {
    let mut graph = Graph::new();
    let mut import_sym = make_import("old_fn", "main.py", 1);
    import_sym.annotations.push("from:utils".to_string());
    import_sym.resolution =
        ResolutionStatus::Partial("module resolved, symbol not found".to_string());
    graph.add_symbol(import_sym);

    graph.add_symbol(make_symbol(
        "new_fn",
        SymbolKind::Function,
        Visibility::Public,
        "utils.py",
        1,
    ));

    let diagnostics = detect(&graph, "");
    assert!(!diagnostics.is_empty());
    assert_eq!(
        diagnostics[0].severity,
        Severity::Warning,
        "stale_reference severity must be Warning per spec. Got: {:?}",
        diagnostics[0].severity
    );
}

#[test]
fn test_stale_reference_does_not_fire_on_resolved_cjs_destructured_import() {
    let mut graph = Graph::new();

    graph.add_symbol(make_symbol(
        "parse",
        SymbolKind::Function,
        Visibility::Public,
        "utils.js",
        1,
    ));

    let mut import_sym = make_import("parse", "app.js", 1);
    import_sym.annotations.push("from:./utils".to_string());
    import_sym.annotations.push("cjs".to_string());
    import_sym.resolution = ResolutionStatus::Resolved;
    graph.add_symbol(import_sym);

    let diagnostics = detect(&graph, "");
    assert!(
        !diagnostics.iter().any(|d| d.entity == "parse"),
        "Resolved CJS destructured import must NOT be flagged as stale"
    );
}

#[test]
fn test_stale_reference_silent_on_resolved_aliased_cjs_import() {
    let mut graph = Graph::new();

    graph.add_symbol(make_symbol(
        "formatDate",
        SymbolKind::Function,
        Visibility::Public,
        "utils.js",
        1,
    ));

    let mut import_sym = make_import("fmt", "app.js", 1);
    import_sym.annotations.push("from:./utils".to_string());
    import_sym.annotations.push("cjs".to_string());
    import_sym
        .annotations
        .push("original_name:formatDate".to_string());
    import_sym.resolution = ResolutionStatus::Resolved;
    graph.add_symbol(import_sym);

    let diagnostics = detect(&graph, "");
    assert!(
        !diagnostics.iter().any(|d| d.entity == "fmt"),
        "Resolved aliased CJS import must NOT be flagged as stale"
    );
}

#[test]
fn test_stale_reference_fires_on_unresolved_cjs_destructured_import() {
    let mut graph = Graph::new();

    graph.add_symbol(make_symbol(
        "existingFn",
        SymbolKind::Function,
        Visibility::Public,
        "utils.js",
        1,
    ));

    let mut import_sym = make_import("removedFn", "app.js", 1);
    import_sym.annotations.push("from:./utils".to_string());
    import_sym.annotations.push("cjs".to_string());
    import_sym.resolution =
        ResolutionStatus::Partial("module resolved, symbol not found".to_string());
    graph.add_symbol(import_sym);

    let diagnostics = detect(&graph, "");
    assert!(
        diagnostics.iter().any(|d| d.entity == "removedFn"),
        "CJS import to removed symbol MUST be flagged as stale reference"
    );
    let diag = diagnostics
        .iter()
        .find(|d| d.entity == "removedFn")
        .unwrap();
    assert_eq!(
        diag.confidence,
        Confidence::High,
        "Module-resolved-symbol-not-found must be HIGH confidence"
    );
}

#[test]
fn test_c14_stale_reference_fires_on_rust_path_segment_import() {
    let mut graph = Graph::new();

    // Target file commands.rs has function symbols but NO symbol named "commands"
    graph.add_symbol(make_symbol(
        "deduplicate_flows",
        SymbolKind::Function,
        Visibility::Public,
        "commands.rs",
        383,
    ));
    graph.add_symbol(make_symbol(
        "find_matching_symbol",
        SymbolKind::Function,
        Visibility::Public,
        "commands.rs",
        100,
    ));

    // Path-segment import: entity="commands", from:"crate::commands"
    // Resolution is Partial because the file has no symbol named "commands"
    let mut import_sym = make_import("commands", "test.rs", 7);
    import_sym
        .annotations
        .push("from:crate::commands".to_string());
    import_sym.resolution =
        ResolutionStatus::Partial("module resolved, symbol not found".to_string());
    graph.add_symbol(import_sym);

    let diagnostics = detect(&graph, "");
    assert!(
        diagnostics.iter().any(|d| d.entity == "commands"),
        "stale_reference MUST fire on path-segment import 'commands' with \
         Partial resolution. This confirms the FP mechanism documented in \
         investigation-2.md. Got entities: {:?}",
        diagnostics.iter().map(|d| &d.entity).collect::<Vec<_>>()
    );
    let diag = diagnostics.iter().find(|d| d.entity == "commands").unwrap();
    assert_eq!(diag.confidence, Confidence::High);
}

#[test]
fn test_c14_stale_reference_silent_on_resolved_leaf_import_from_same_use_list() {
    let mut graph = Graph::new();

    graph.add_symbol(make_symbol(
        "deduplicate_flows",
        SymbolKind::Function,
        Visibility::Public,
        "commands.rs",
        383,
    ));

    // Resolved leaf import (the actual function)
    let mut leaf_import = make_import("deduplicate_flows", "test.rs", 7);
    leaf_import
        .annotations
        .push("from:crate::commands".to_string());
    leaf_import.resolution = ResolutionStatus::Resolved;
    graph.add_symbol(leaf_import);

    // Unresolved path-segment import (the module name)
    let mut path_import = make_import("commands", "test.rs", 7);
    path_import
        .annotations
        .push("from:crate::commands".to_string());
    path_import.resolution =
        ResolutionStatus::Partial("module resolved, symbol not found".to_string());
    graph.add_symbol(path_import);

    let diagnostics = detect(&graph, "");

    // Leaf import must NOT fire
    assert!(
        !diagnostics.iter().any(|d| d.entity == "deduplicate_flows"),
        "Resolved leaf import must NOT fire stale_reference"
    );
    // Path-segment import DOES fire
    assert!(
        diagnostics.iter().any(|d| d.entity == "commands"),
        "Path-segment import must fire stale_reference"
    );
}

#[test]
fn test_c14_stale_reference_fires_on_all_intermediate_path_segments() {
    let mut graph = Graph::new();

    // Deeply nested: use crate::analyzer::patterns::phantom_dependency::detect
    for (name, from) in [
        ("analyzer", "crate::analyzer"),
        ("patterns", "crate::analyzer::patterns"),
        (
            "phantom_dependency",
            "crate::analyzer::patterns::phantom_dependency",
        ),
    ] {
        let mut import = make_import(name, "test.rs", 1);
        import.annotations.push(format!("from:{}", from));
        import.resolution =
            ResolutionStatus::Partial("module resolved, symbol not found".to_string());
        graph.add_symbol(import);
    }

    // Resolved leaf
    let mut leaf = make_import("detect", "test.rs", 1);
    leaf.annotations
        .push("from:crate::analyzer::patterns::phantom_dependency".to_string());
    leaf.resolution = ResolutionStatus::Resolved;
    graph.add_symbol(leaf);

    let diagnostics = detect(&graph, "");

    // All 3 path segments fire
    for name in ["analyzer", "patterns", "phantom_dependency"] {
        assert!(
            diagnostics.iter().any(|d| d.entity == name),
            "Intermediate path segment '{}' must fire stale_reference. Got: {:?}",
            name,
            diagnostics.iter().map(|d| &d.entity).collect::<Vec<_>>()
        );
    }
    // Leaf does NOT fire
    assert!(
        !diagnostics.iter().any(|d| d.entity == "detect"),
        "Resolved leaf 'detect' must NOT fire stale_reference"
    );
}

#[test]
fn test_c14_stale_reference_fires_on_function_body_use_path_segment() {
    let mut graph = Graph::new();

    // Path-segment import from inside a function body (like C13 surface_tests line 686)
    let mut import = make_import("flow", "test_file.rs", 686);
    import
        .annotations
        .push("from:crate::analyzer::flow".to_string());
    import.resolution =
        ResolutionStatus::Partial("module resolved, symbol not found".to_string());
    graph.add_symbol(import);

    let diagnostics = detect(&graph, "");
    assert!(
        diagnostics.iter().any(|d| d.entity == "flow"),
        "Function-body use path-segment must fire stale_reference identically \
         to module-level uses. Got: {:?}",
        diagnostics.iter().map(|d| &d.entity).collect::<Vec<_>>()
    );
    let diag = diagnostics.iter().find(|d| d.entity == "flow").unwrap();
    assert_eq!(
        diag.confidence,
        Confidence::High,
        "Function-body path-segment must have same HIGH confidence as module-level"
    );
}

#[test]
fn test_c14_stale_reference_path_segment_matching_function_name_resolves() {
    let mut graph = Graph::new();

    // Target file has a symbol named "test_utils" (same as module name)
    graph.add_symbol(make_symbol(
        "test_utils",
        SymbolKind::Function,
        Visibility::Public,
        "test_utils.rs",
        1,
    ));

    // Import resolves because the entity name matches a symbol in the target file
    let mut import = make_import("test_utils", "lib.rs", 10);
    import
        .annotations
        .push("from:crate::test_utils".to_string());
    import.resolution = ResolutionStatus::Resolved;
    graph.add_symbol(import);

    let diagnostics = detect(&graph, "");
    assert!(
        !diagnostics.iter().any(|d| d.entity == "test_utils"),
        "Resolved path-segment import must NOT fire stale_reference"
    );
}

#[test]
fn test_c14_stale_reference_skips_rust_star_import() {
    let mut graph = Graph::new();

    let mut import = make_import("*:collections", "lib.rs", 1);
    import.annotations.push("from:std::collections".to_string());
    import.resolution = ResolutionStatus::Partial("star import - module resolved".to_string());
    graph.add_symbol(import);

    let diagnostics = detect(&graph, "");
    assert!(
        diagnostics.is_empty(),
        "Rust star imports must be skipped by stale_reference. Got: {:?}",
        diagnostics.iter().map(|d| &d.entity).collect::<Vec<_>>()
    );
}

#[test]
fn test_c14_stale_reference_silent_on_third_party_crate_path_segment() {
    let mut graph = Graph::new();

    let mut import = make_import("serde", "lib.rs", 1);
    import.annotations.push("from:serde".to_string());
    import.resolution = ResolutionStatus::Unresolved;
    graph.add_symbol(import);
    // No symbols from any file named "serde.rs" in the graph

    let diagnostics = detect(&graph, "");
    assert!(
        !diagnostics.iter().any(|d| d.entity == "serde"),
        "Third-party crate path must NOT trigger stale_reference. \
         No local module 'serde' exists. Got: {:?}",
        diagnostics.iter().map(|d| &d.entity).collect::<Vec<_>>()
    );
}

#[test]
fn test_c14_stale_reference_count_unchanged_by_type_reference_edges() {
    let mut graph = Graph::new();

    // 5 path-segment imports all with Partial resolution
    let path_segments = [
        ("graph", "crate::graph"),
        ("ir", "crate::parser::ir"),
        ("commands", "crate::commands"),
        ("types", "crate::manifest::types"),
        ("flow", "crate::analyzer::flow"),
    ];
    let mut import_ids = Vec::new();
    for (name, from) in &path_segments {
        let mut import = make_import(name, "test.rs", 1);
        import.annotations.push(format!("from:{}", from));
        import.resolution =
            ResolutionStatus::Partial("module resolved, symbol not found".to_string());
        import_ids.push(graph.add_symbol(import));
    }

    // Add functions that reference these imports via References edges
    let func_id = graph.add_symbol(make_symbol(
        "analyze",
        SymbolKind::Function,
        Visibility::Public,
        "test.rs",
        10,
    ));
    for &import_id in &import_ids {
        add_ref(
            &mut graph,
            func_id,
            import_id,
            ReferenceKind::Read,
            "test.rs",
        );
    }

    let diagnostics = detect(&graph, "");
    assert_eq!(
        diagnostics.len(),
        5,
        "All 5 path-segment imports must STILL fire stale_reference even with \
         References edges. stale_reference checks resolution status, not edges. \
         Got {} findings: {:?}",
        diagnostics.len(),
        diagnostics.iter().map(|d| &d.entity).collect::<Vec<_>>()
    );
}

#[test]
fn test_c14_stale_reference_high_confidence_on_path_segment_import() {
    let mut graph = Graph::new();

    let mut import = make_import("ir", "test.rs", 14);
    import
        .annotations
        .push("from:crate::parser::ir".to_string());
    import.resolution =
        ResolutionStatus::Partial("module resolved, symbol not found".to_string());
    graph.add_symbol(import);

    let diagnostics = detect(&graph, "");
    assert!(!diagnostics.is_empty());
    assert_eq!(
        diagnostics[0].confidence,
        Confidence::High,
        "Path-segment imports fire via Signal 1 — must be HIGH confidence. \
         The fix should be at the parser level, not the confidence level."
    );
}

#[test]
fn test_c14_stale_reference_high_confidence_zero_fp_on_truly_stale() {
    let mut graph = Graph::new();

    // Target module has symbols but NOT "deleted_fn" — genuinely removed
    graph.add_symbol(make_symbol(
        "other_fn",
        SymbolKind::Function,
        Visibility::Public,
        "utils.rs",
        1,
    ));

    let mut import = make_import("deleted_fn", "consumer.rs", 5);
    import.annotations.push("from:utils".to_string());
    import.resolution =
        ResolutionStatus::Partial("module resolved, symbol not found".to_string());
    graph.add_symbol(import);

    let diagnostics = detect(&graph, "");
    let diag = diagnostics
        .iter()
        .find(|d| d.entity == "deleted_fn")
        .expect("Must detect truly stale import 'deleted_fn'");

    assert_eq!(
        diag.confidence,
        Confidence::High,
        "Truly stale import must have HIGH confidence"
    );
    assert!(
        diag.evidence
            .iter()
            .any(|e| e.observation.contains("deleted_fn")),
        "Evidence must mention the specific missing symbol 'deleted_fn'"
    );
}

#[test]
fn test_c14_stale_reference_moderate_confidence_preserved_for_heuristic_signal() {
    let mut graph = Graph::new();

    // Unresolved import to a local-looking module
    let mut import = make_import("some_fn", "consumer.py", 1);
    import.annotations.push("from:.local_utils".to_string());
    import.resolution = ResolutionStatus::Unresolved;
    graph.add_symbol(import);

    // A symbol in local_utils.py makes the module look local
    graph.add_symbol(make_symbol(
        "other",
        SymbolKind::Function,
        Visibility::Public,
        "local_utils.py",
        1,
    ));

    let diagnostics = detect(&graph, "");
    let diag = diagnostics
        .iter()
        .find(|d| d.entity == "some_fn")
        .expect("Heuristic stale_reference must fire on local-looking unresolved import");

    assert_eq!(
        diag.confidence,
        Confidence::Moderate,
        "Signal 2 heuristic must remain MODERATE confidence. Got: {:?}",
        diag.confidence
    );
}

#[test]
fn test_stale_reference_confidence_high_for_cjs_module_resolved_symbol_missing() {
    let mut graph = Graph::new();

    graph.add_symbol(make_symbol(
        "existing",
        SymbolKind::Function,
        Visibility::Public,
        "utils.js",
        1,
    ));

    let mut import_sym = make_import("deleted", "app.js", 1);
    import_sym.annotations.push("from:utils".to_string());
    import_sym.annotations.push("cjs".to_string());
    import_sym.resolution =
        ResolutionStatus::Partial("module resolved, symbol not found".to_string());
    graph.add_symbol(import_sym);

    let diagnostics = detect(&graph, "");
    let diag = diagnostics
        .iter()
        .find(|d| d.entity == "deleted")
        .expect("Must detect stale CJS import");
    assert_eq!(
        diag.confidence,
        Confidence::High,
        "CJS annotation must not downgrade confidence from HIGH for Signal 1"
    );
}
