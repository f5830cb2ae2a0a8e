use flowspec::diagnostic::{Confidence, DiagnosticPattern, Severity};
use flowspec::graph::Graph;
use flowspec::ir::{
    Location, Reference, ReferenceId, ReferenceKind, ResolutionStatus, ScopeId, Symbol, SymbolId,
    SymbolKind, Visibility,
};
use flowspec::patterns::incomplete_migration::detect;
use flowspec::patterns::{run_all_patterns, run_patterns, PatternFilter};

fn make_symbol(name: &str, kind: SymbolKind, visibility: Visibility, file: &str, line: u32) -> Symbol {
    Symbol {
        id: SymbolId::default(),
        kind,
        name: name.to_string(),
        qualified_name: format!("{}::{}", file, name),
        visibility,
        signature: None,
        location: Location { file: file.to_string(), line, column: 1, end_line: line, end_column: 1 },
        resolution: ResolutionStatus::Resolved,
        scope: ScopeId::default(),
        annotations: vec![],
    }
}

#[allow(dead_code)]
fn make_import(name: &str, file: &str, line: u32) -> Symbol {
    let mut s = make_symbol(name, SymbolKind::Variable, Visibility::Private, file, line);
    s.annotations.push("import".to_string());
    s
}

#[allow(dead_code)]
fn make_entry_point(name: &str, kind: SymbolKind, visibility: Visibility, file: &str, line: u32) -> Symbol {
    let mut s = make_symbol(name, kind, visibility, file, line);
    s.annotations.push("entry_point".to_string());
    s
}

#[allow(dead_code)]
fn add_ref(graph: &mut Graph, from: SymbolId, to: SymbolId, kind: ReferenceKind, file: &str) {
    graph.add_reference(Reference {
        id: ReferenceId::default(),
        from,
        to,
        kind,
        location: Location { file: file.to_string(), line: 1, column: 1, end_line: 1, end_column: 1 },
        resolution: ResolutionStatus::Resolved,
    });
}


// =========================================================================
// T1: Python deprecated prefix pair — HIGH confidence
// =========================================================================


#[test]
fn detect_deprecated_prefix_pair_python() {
    let mut g = Graph::new();
    let f = "api.py";
    let h = "handlers.py";

    let old_fn = g.add_symbol(make_symbol(
        "deprecated_fetch_data",
        SymbolKind::Function,
        Visibility::Private,
        f,
        5,
    ));
    let new_fn = g.add_symbol(make_symbol(
        "fetch_data",
        SymbolKind::Function,
        Visibility::Private,
        f,
        15,
    ));

    // 3 callers of old function
    for i in 0..3 {
        let caller = g.add_symbol(make_symbol(
            &format!("handler_{}", i),
            SymbolKind::Function,
            Visibility::Private,
            h,
            10 + i * 10,
        ));
        add_ref(&mut g, caller, old_fn, ReferenceKind::Call, h);
    }
    // 5 callers of new function
    for i in 3..8 {
        let caller = g.add_symbol(make_symbol(
            &format!("handler_{}", i),
            SymbolKind::Function,
            Visibility::Private,
            h,
            10 + i * 10,
        ));
        add_ref(&mut g, caller, new_fn, ReferenceKind::Call, h);
    }

    let diagnostics = detect(&g, "");
    assert_eq!(
        diagnostics.len(),
        1,
        "Should detect exactly one incomplete migration"
    );

    let d = &diagnostics[0];
    assert_eq!(d.pattern, DiagnosticPattern::IncompleteMigration);
    assert_eq!(d.severity, Severity::Warning);
    assert_eq!(
        d.confidence,
        Confidence::High,
        "deprecated_ prefix = HIGH confidence"
    );
    assert!(
        d.entity.contains("deprecated_fetch_data"),
        "Entity must name the old function"
    );
    assert!(
        d.entity.contains("fetch_data"),
        "Entity must name the new function"
    );
    assert!(!d.evidence.is_empty(), "Must include evidence");
    assert!(!d.suggestion.is_empty(), "Must include suggestion");
}

#[test]
fn detect_legacy_prefix_pair_js() {
    let mut g = Graph::new();
    let f = "src/ui.js";

    let old_fn = g.add_symbol(make_symbol(
        "legacy_render",
        SymbolKind::Function,
        Visibility::Public,
        f,
        10,
    ));
    let new_fn = g.add_symbol(make_symbol(
        "render",
        SymbolKind::Function,
        Visibility::Public,
        f,
        30,
    ));

    let c1 = g.add_symbol(make_symbol(
        "page_a",
        SymbolKind::Function,
        Visibility::Private,
        "src/pages/a.js",
        1,
    ));
    let c2 = g.add_symbol(make_symbol(
        "page_b",
        SymbolKind::Function,
        Visibility::Private,
        "src/pages/b.js",
        1,
    ));
    let c3 = g.add_symbol(make_symbol(
        "page_c",
        SymbolKind::Function,
        Visibility::Private,
        "src/pages/c.js",
        1,
    ));
    let c4 = g.add_symbol(make_symbol(
        "page_d",
        SymbolKind::Function,
        Visibility::Private,
        "src/pages/d.js",
        1,
    ));

    add_ref(&mut g, c1, old_fn, ReferenceKind::Call, "src/pages/a.js");
    add_ref(&mut g, c2, old_fn, ReferenceKind::Call, "src/pages/b.js");
    add_ref(&mut g, c3, new_fn, ReferenceKind::Call, "src/pages/c.js");
    add_ref(&mut g, c4, new_fn, ReferenceKind::Call, "src/pages/d.js");

    let diagnostics = detect(&g, "");
    assert!(
        !diagnostics.is_empty(),
        "Should detect legacy_ prefix migration"
    );

    let d = diagnostics
        .iter()
        .find(|d| d.entity.contains("legacy_render"))
        .expect("Should find legacy_render pair");
    assert_eq!(
        d.confidence,
        Confidence::High,
        "legacy_ prefix = HIGH confidence"
    );
}

#[test]
fn detect_old_new_prefix_pair_rust() {
    let mut g = Graph::new();
    let f = "src/engine.rs";

    let old_fn = g.add_symbol(make_symbol(
        "old_process",
        SymbolKind::Function,
        Visibility::Public,
        f,
        5,
    ));
    let new_fn = g.add_symbol(make_symbol(
        "new_process",
        SymbolKind::Function,
        Visibility::Public,
        f,
        25,
    ));

    let c1 = g.add_symbol(make_symbol(
        "caller_a",
        SymbolKind::Function,
        Visibility::Private,
        f,
        40,
    ));
    let c2 = g.add_symbol(make_symbol(
        "caller_b",
        SymbolKind::Function,
        Visibility::Private,
        f,
        50,
    ));
    let c3 = g.add_symbol(make_symbol(
        "caller_c",
        SymbolKind::Function,
        Visibility::Private,
        f,
        60,
    ));

    add_ref(&mut g, c1, old_fn, ReferenceKind::Call, f);
    add_ref(&mut g, c2, old_fn, ReferenceKind::Call, f);
    add_ref(&mut g, c3, new_fn, ReferenceKind::Call, f);

    let diagnostics = detect(&g, "");
    let d = diagnostics
        .iter()
        .find(|d| d.entity.contains("old_process"))
        .expect("Should detect old_/new_ pair");
    assert_eq!(
        d.confidence,
        Confidence::Moderate,
        "old_/new_ prefix = MODERATE confidence"
    );
}

#[test]
fn detect_version_suffix_pair() {
    let mut g = Graph::new();
    let f = "api.py";
    let h = "routes.py";

    let v1 = g.add_symbol(make_symbol(
        "handle_request_v1",
        SymbolKind::Function,
        Visibility::Public,
        f,
        5,
    ));
    let v2 = g.add_symbol(make_symbol(
        "handle_request_v2",
        SymbolKind::Function,
        Visibility::Public,
        f,
        20,
    ));

    for i in 0..4 {
        let c = g.add_symbol(make_symbol(
            &format!("route_old_{}", i),
            SymbolKind::Function,
            Visibility::Private,
            h,
            10 + i * 10,
        ));
        add_ref(&mut g, c, v1, ReferenceKind::Call, h);
    }
    for i in 0..6 {
        let c = g.add_symbol(make_symbol(
            &format!("route_new_{}", i),
            SymbolKind::Function,
            Visibility::Private,
            h,
            100 + i * 10,
        ));
        add_ref(&mut g, c, v2, ReferenceKind::Call, h);
    }

    let diagnostics = detect(&g, "");
    assert!(!diagnostics.is_empty(), "Should detect v1/v2 pair");
    let d = diagnostics
        .iter()
        .find(|d| {
            d.entity.contains("handle_request_v1") || d.entity.contains("handle_request_v2")
        })
        .unwrap();
    assert_eq!(
        d.confidence,
        Confidence::Moderate,
        "v1/v2 suffix = MODERATE confidence"
    );
}

#[test]
fn no_finding_when_migration_complete() {
    let mut g = Graph::new();
    let f = "api.py";

    let new_fn = g.add_symbol(make_symbol(
        "fetch_data",
        SymbolKind::Function,
        Visibility::Public,
        f,
        5,
    ));

    for i in 0..5 {
        let c = g.add_symbol(make_symbol(
            &format!("caller_{}", i),
            SymbolKind::Function,
            Visibility::Private,
            f,
            20 + i * 5,
        ));
        add_ref(&mut g, c, new_fn, ReferenceKind::Call, f);
    }

    let diagnostics = detect(&g, "");
    assert!(
        diagnostics.is_empty(),
        "Migration-complete codebase should produce zero findings"
    );
}

#[test]
fn no_high_confidence_on_intentional_dual_api() {
    let mut g = Graph::new();
    let f = "lib/http.py";

    let sync_fn = g.add_symbol(make_symbol(
        "sync_fetch",
        SymbolKind::Function,
        Visibility::Public,
        f,
        5,
    ));
    let async_fn = g.add_symbol(make_symbol(
        "async_fetch",
        SymbolKind::Function,
        Visibility::Public,
        f,
        20,
    ));

    let c1 = g.add_symbol(make_symbol(
        "sync_handler",
        SymbolKind::Function,
        Visibility::Private,
        "app.py",
        5,
    ));
    let c2 = g.add_symbol(make_symbol(
        "async_handler",
        SymbolKind::Function,
        Visibility::Private,
        "app.py",
        15,
    ));
    add_ref(&mut g, c1, sync_fn, ReferenceKind::Call, "app.py");
    add_ref(&mut g, c2, async_fn, ReferenceKind::Call, "app.py");

    let diagnostics = detect(&g, "");
    // Spec says never suppress — may flag at MODERATE. But must NOT be HIGH.
    for d in &diagnostics {
        if d.entity.contains("sync_fetch") || d.entity.contains("async_fetch") {
            assert_ne!(
                d.confidence,
                Confidence::High,
                "Dual sync/async API should not be HIGH confidence"
            );
        }
    }
}

#[test]
fn no_finding_when_old_prefix_has_no_new_counterpart() {
    let mut g = Graph::new();
    let f = "service.py";

    let fn1 = g.add_symbol(make_symbol(
        "old_handler",
        SymbolKind::Function,
        Visibility::Private,
        f,
        5,
    ));
    let fn2 = g.add_symbol(make_symbol(
        "unrelated_thing",
        SymbolKind::Function,
        Visibility::Private,
        f,
        20,
    ));

    let c = g.add_symbol(make_symbol(
        "main",
        SymbolKind::Function,
        Visibility::Public,
        f,
        40,
    ));
    add_ref(&mut g, c, fn1, ReferenceKind::Call, f);
    add_ref(&mut g, c, fn2, ReferenceKind::Call, f);

    let diagnostics = detect(&g, "");
    assert!(
        diagnostics.is_empty(),
        "old_ prefix without new counterpart should not fire"
    );
}

#[test]
fn adversarial_unrelated_old_new_names_different_dirs() {
    let mut g = Graph::new();

    let old_fn = g.add_symbol(make_symbol(
        "old_function",
        SymbolKind::Function,
        Visibility::Private,
        "auth/login.py",
        5,
    ));
    let new_fn = g.add_symbol(make_symbol(
        "new_function",
        SymbolKind::Function,
        Visibility::Private,
        "billing/invoice.py",
        5,
    ));

    for i in 0..3 {
        let c = g.add_symbol(make_symbol(
            &format!("auth_caller_{}", i),
            SymbolKind::Function,
            Visibility::Private,
            "auth/login.py",
            20 + i * 10,
        ));
        add_ref(&mut g, c, old_fn, ReferenceKind::Call, "auth/login.py");
    }
    for i in 0..2 {
        let c = g.add_symbol(make_symbol(
            &format!("billing_caller_{}", i),
            SymbolKind::Function,
            Visibility::Private,
            "billing/invoice.py",
            20 + i * 10,
        ));
        add_ref(&mut g, c, new_fn, ReferenceKind::Call, "billing/invoice.py");
    }

    let diagnostics = detect(&g, "");
    for d in &diagnostics {
        assert_ne!(
            d.confidence,
            Confidence::High,
            "Cross-directory unrelated functions should not be HIGH confidence"
        );
    }
}

#[test]
fn adversarial_test_file_old_api_excluded() {
    let mut g = Graph::new();
    let src = "src/parser.py";
    let test = "tests/test_parser.py";

    let old_fn = g.add_symbol(make_symbol(
        "deprecated_parser",
        SymbolKind::Function,
        Visibility::Private,
        src,
        5,
    ));
    let new_fn = g.add_symbol(make_symbol(
        "parser",
        SymbolKind::Function,
        Visibility::Private,
        src,
        20,
    ));

    // Only test callers for old function
    let t1 = g.add_symbol(make_symbol(
        "test_deprecated_parser",
        SymbolKind::Function,
        Visibility::Private,
        test,
        10,
    ));
    add_ref(&mut g, t1, old_fn, ReferenceKind::Call, test);

    // 5 production callers for new function
    for i in 0..5 {
        let c = g.add_symbol(make_symbol(
            &format!("use_parser_{}", i),
            SymbolKind::Function,
            Visibility::Private,
            "src/app.py",
            10 + i * 10,
        ));
        add_ref(&mut g, c, new_fn, ReferenceKind::Call, "src/app.py");
    }
    // Test caller for new function
    let t2 = g.add_symbol(make_symbol(
        "test_parser",
        SymbolKind::Function,
        Visibility::Private,
        test,
        20,
    ));
    add_ref(&mut g, t2, new_fn, ReferenceKind::Call, test);

    let diagnostics = detect(&g, "");
    // With test callers excluded, deprecated_parser has 0 production callers → should NOT fire
    if !diagnostics.is_empty() {
        for d in &diagnostics {
            for e in &d.evidence {
                assert!(
                    !e.observation.contains("test_parser.py"),
                    "Test file callers must not appear in evidence"
                );
            }
        }
    }
}

#[test]
fn adversarial_nested_prefix_no_self_pair() {
    let mut g = Graph::new();
    let f = "service.py";

    let fn1 = g.add_symbol(make_symbol(
        "old_new_handler",
        SymbolKind::Function,
        Visibility::Private,
        f,
        5,
    ));
    let c1 = g.add_symbol(make_symbol(
        "main",
        SymbolKind::Function,
        Visibility::Public,
        f,
        20,
    ));
    let c2 = g.add_symbol(make_symbol(
        "helper",
        SymbolKind::Function,
        Visibility::Private,
        f,
        30,
    ));
    add_ref(&mut g, c1, fn1, ReferenceKind::Call, f);
    add_ref(&mut g, c2, fn1, ReferenceKind::Call, f);

    let diagnostics = detect(&g, "");
    assert!(
        diagnostics.is_empty(),
        "Single function with nested prefixes must not self-pair"
    );
}

#[test]
fn adversarial_pair_with_zero_callers_both_sides() {
    let mut g = Graph::new();
    let f = "auth.py";

    let _old_fn = g.add_symbol(make_symbol(
        "deprecated_auth",
        SymbolKind::Function,
        Visibility::Private,
        f,
        5,
    ));
    let _new_fn = g.add_symbol(make_symbol(
        "auth",
        SymbolKind::Function,
        Visibility::Private,
        f,
        20,
    ));

    let diagnostics = detect(&g, "");
    assert!(
        diagnostics.is_empty(),
        "Pair with zero callers on both sides should not fire"
    );
}

#[test]
fn adversarial_version_trio_v1_v2_v3() {
    let mut g = Graph::new();
    let f = "api.py";

    let v1 = g.add_symbol(make_symbol(
        "handle_v1",
        SymbolKind::Function,
        Visibility::Public,
        f,
        5,
    ));
    let v2 = g.add_symbol(make_symbol(
        "handle_v2",
        SymbolKind::Function,
        Visibility::Public,
        f,
        15,
    ));
    let v3 = g.add_symbol(make_symbol(
        "handle_v3",
        SymbolKind::Function,
        Visibility::Public,
        f,
        25,
    ));

    for i in 0..2 {
        let c = g.add_symbol(make_symbol(
            &format!("old_route_{}", i),
            SymbolKind::Function,
            Visibility::Private,
            f,
            50 + i * 5,
        ));
        add_ref(&mut g, c, v1, ReferenceKind::Call, f);
    }
    for i in 0..3 {
        let c = g.add_symbol(make_symbol(
            &format!("mid_route_{}", i),
            SymbolKind::Function,
            Visibility::Private,
            f,
            70 + i * 5,
        ));
        add_ref(&mut g, c, v2, ReferenceKind::Call, f);
    }
    for i in 0..5 {
        let c = g.add_symbol(make_symbol(
            &format!("new_route_{}", i),
            SymbolKind::Function,
            Visibility::Private,
            f,
            100 + i * 5,
        ));
        add_ref(&mut g, c, v3, ReferenceKind::Call, f);
    }

    let diagnostics = detect(&g, "");
    assert!(
        !diagnostics.is_empty(),
        "Version trio (v1/v2/v3) must produce at least one finding"
    );
}

#[test]
fn adversarial_performance_100_functions() {
    let mut g = Graph::new();
    let f = "big_module.py";

    // 10 planted deprecated/new pairs
    let mut pair_old_names = Vec::new();
    for i in 0..10u32 {
        let old_name = format!("deprecated_action_{}", i);
        let new_name = format!("action_{}", i);
        pair_old_names.push(old_name.clone());

        let old_fn = g.add_symbol(make_symbol(
            &old_name,
            SymbolKind::Function,
            Visibility::Private,
            f,
            i * 20 + 1,
        ));
        let new_fn = g.add_symbol(make_symbol(
            &new_name,
            SymbolKind::Function,
            Visibility::Private,
            f,
            i * 20 + 10,
        ));

        let c1 = g.add_symbol(make_symbol(
            &format!("old_caller_{}", i),
            SymbolKind::Function,
            Visibility::Private,
            f,
            300 + i * 10,
        ));
        let c2 = g.add_symbol(make_symbol(
            &format!("new_caller_{}", i),
            SymbolKind::Function,
            Visibility::Private,
            f,
            500 + i * 10,
        ));
        add_ref(&mut g, c1, old_fn, ReferenceKind::Call, f);
        add_ref(&mut g, c2, new_fn, ReferenceKind::Call, f);
    }

    // 40 normal functions (no migration prefixes)
    for i in 0..40u32 {
        let normal = g.add_symbol(make_symbol(
            &format!("normal_func_{}", i),
            SymbolKind::Function,
            Visibility::Private,
            f,
            800 + i * 5,
        ));
        let c = g.add_symbol(make_symbol(
            &format!("normal_caller_{}", i),
            SymbolKind::Function,
            Visibility::Private,
            f,
            1200 + i * 5,
        ));
        add_ref(&mut g, c, normal, ReferenceKind::Call, f);
    }

    // 20 orphaned old_ prefixes (no new counterpart)
    for i in 0..20u32 {
        let orphaned = g.add_symbol(make_symbol(
            &format!("old_orphan_{}", i),
            SymbolKind::Function,
            Visibility::Private,
            f,
            1500 + i * 5,
        ));
        let c = g.add_symbol(make_symbol(
            &format!("orphan_caller_{}", i),
            SymbolKind::Function,
            Visibility::Private,
            f,
            1700 + i * 5,
        ));
        add_ref(&mut g, c, orphaned, ReferenceKind::Call, f);
    }

    let diagnostics = detect(&g, "");
    assert!(
        diagnostics.len() >= 10,
        "Should detect at least 10 planted pairs, got {}",
        diagnostics.len()
    );

    // Verify no false positives from normal functions
    for d in &diagnostics {
        assert!(
            !d.entity.contains("normal_func_"),
            "Normal functions must not trigger migration findings"
        );
    }
}

#[test]
fn empty_graph_returns_empty() {
    let g = Graph::new();
    let diagnostics = detect(&g, "");
    assert!(diagnostics.is_empty());
}

#[test]
fn symbol_with_empty_name_no_crash() {
    let mut g = Graph::new();
    let _s = g.add_symbol(make_symbol(
        "",
        SymbolKind::Function,
        Visibility::Private,
        "empty.py",
        1,
    ));
    let diagnostics = detect(&g, "");
    assert!(diagnostics.is_empty());
}

#[test]
fn only_old_side_has_callers() {
    let mut g = Graph::new();
    let f = "auth.py";

    let old_fn = g.add_symbol(make_symbol(
        "legacy_auth",
        SymbolKind::Function,
        Visibility::Private,
        f,
        5,
    ));
    let _new_fn = g.add_symbol(make_symbol(
        "auth",
        SymbolKind::Function,
        Visibility::Private,
        f,
        20,
    ));

    for i in 0..3 {
        let c = g.add_symbol(make_symbol(
            &format!("caller_{}", i),
            SymbolKind::Function,
            Visibility::Private,
            f,
            30 + i * 10,
        ));
        add_ref(&mut g, c, old_fn, ReferenceKind::Call, f);
    }

    let diagnostics = detect(&g, "");
    assert!(
        diagnostics.is_empty(),
        "Pair where new side has 0 callers should not fire"
    );
}

#[test]
fn detect_method_pair_migration() {
    let mut g = Graph::new();
    let f = "service.py";

    let old_method = g.add_symbol(make_symbol(
        "deprecated_validate",
        SymbolKind::Method,
        Visibility::Public,
        f,
        10,
    ));
    let new_method = g.add_symbol(make_symbol(
        "validate",
        SymbolKind::Method,
        Visibility::Public,
        f,
        25,
    ));

    let c1 = g.add_symbol(make_symbol(
        "handler_a",
        SymbolKind::Function,
        Visibility::Private,
        f,
        40,
    ));
    let c2 = g.add_symbol(make_symbol(
        "handler_b",
        SymbolKind::Function,
        Visibility::Private,
        f,
        50,
    ));
    add_ref(&mut g, c1, old_method, ReferenceKind::Call, f);
    add_ref(&mut g, c2, old_method, ReferenceKind::Call, f);

    for i in 0..4 {
        let c = g.add_symbol(make_symbol(
            &format!("new_handler_{}", i),
            SymbolKind::Function,
            Visibility::Private,
            f,
            60 + i * 10,
        ));
        add_ref(&mut g, c, new_method, ReferenceKind::Call, f);
    }

    let diagnostics = detect(&g, "");
    assert!(
        !diagnostics.is_empty(),
        "Should detect deprecated_ Method pairs, not just Functions"
    );
}

#[test]
fn detect_suffix_pair_old_new() {
    let mut g = Graph::new();
    let f = "data.py";

    let old_fn = g.add_symbol(make_symbol(
        "fetch_data_old",
        SymbolKind::Function,
        Visibility::Private,
        f,
        5,
    ));
    let new_fn = g.add_symbol(make_symbol(
        "fetch_data_new",
        SymbolKind::Function,
        Visibility::Private,
        f,
        20,
    ));

    let c1 = g.add_symbol(make_symbol(
        "consumer_a",
        SymbolKind::Function,
        Visibility::Private,
        f,
        40,
    ));
    let c2 = g.add_symbol(make_symbol(
        "consumer_b",
        SymbolKind::Function,
        Visibility::Private,
        f,
        50,
    ));
    add_ref(&mut g, c1, old_fn, ReferenceKind::Call, f);
    add_ref(&mut g, c2, old_fn, ReferenceKind::Call, f);

    for i in 0..5 {
        let c = g.add_symbol(make_symbol(
            &format!("new_consumer_{}", i),
            SymbolKind::Function,
            Visibility::Private,
            f,
            60 + i * 10,
        ));
        add_ref(&mut g, c, new_fn, ReferenceKind::Call, f);
    }

    let diagnostics = detect(&g, "");
    assert!(
        !diagnostics.is_empty(),
        "Should detect _old/_new suffix pairs"
    );
}

#[test]
fn incomplete_migration_registered_in_run_patterns() {

    let mut g = Graph::new();
    let f = "api.py";
    let h = "handlers.py";

    let old_fn = g.add_symbol(make_symbol(
        "deprecated_fetch",
        SymbolKind::Function,
        Visibility::Private,
        f,
        5,
    ));
    let new_fn = g.add_symbol(make_symbol(
        "fetch",
        SymbolKind::Function,
        Visibility::Private,
        f,
        15,
    ));

    let c1 = g.add_symbol(make_symbol(
        "handler_a",
        SymbolKind::Function,
        Visibility::Private,
        h,
        10,
    ));
    let c2 = g.add_symbol(make_symbol(
        "handler_b",
        SymbolKind::Function,
        Visibility::Private,
        h,
        20,
    ));
    add_ref(&mut g, c1, old_fn, ReferenceKind::Call, h);
    add_ref(&mut g, c2, new_fn, ReferenceKind::Call, h);

    let diagnostics = run_all_patterns(&g, "");
    let migration_findings: Vec<_> = diagnostics
        .iter()
        .filter(|d| d.pattern == DiagnosticPattern::IncompleteMigration)
        .collect();

    assert!(
        !migration_findings.is_empty(),
        "IncompleteMigration must be registered in run_all_patterns"
    );
    assert!(
        migration_findings[0].id.starts_with('D'),
        "Must have sequential ID assigned"
    );
}

#[test]
fn pattern_filter_selects_incomplete_migration() {

    let mut g = Graph::new();
    let f = "api.py";

    let old_fn = g.add_symbol(make_symbol(
        "deprecated_action",
        SymbolKind::Function,
        Visibility::Private,
        f,
        5,
    ));
    let new_fn = g.add_symbol(make_symbol(
        "action",
        SymbolKind::Function,
        Visibility::Private,
        f,
        15,
    ));

    let c1 = g.add_symbol(make_symbol(
        "caller_1",
        SymbolKind::Function,
        Visibility::Private,
        f,
        30,
    ));
    let c2 = g.add_symbol(make_symbol(
        "caller_2",
        SymbolKind::Function,
        Visibility::Private,
        f,
        40,
    ));
    add_ref(&mut g, c1, old_fn, ReferenceKind::Call, f);
    add_ref(&mut g, c2, new_fn, ReferenceKind::Call, f);

    // Also add an isolated cluster (different pattern type)
    let _iso = g.add_symbol(make_symbol(
        "isolated_fn",
        SymbolKind::Function,
        Visibility::Private,
        "lonely.py",
        1,
    ));

    let filter = PatternFilter {
        patterns: Some(vec![DiagnosticPattern::IncompleteMigration]),
        min_severity: None,
        min_confidence: None,
    };
    let diagnostics = run_patterns(&g, &filter, "");

    for d in &diagnostics {
        assert_eq!(
            d.pattern,
            DiagnosticPattern::IncompleteMigration,
            "Filter should only return IncompleteMigration findings"
        );
    }
}

#[test]
fn severity_filter_warning_survives_but_critical_excludes() {

    let mut g = Graph::new();
    let f = "api.py";

    let old_fn = g.add_symbol(make_symbol(
        "deprecated_process",
        SymbolKind::Function,
        Visibility::Private,
        f,
        5,
    ));
    let new_fn = g.add_symbol(make_symbol(
        "process",
        SymbolKind::Function,
        Visibility::Private,
        f,
        15,
    ));

    let c1 = g.add_symbol(make_symbol(
        "a",
        SymbolKind::Function,
        Visibility::Private,
        f,
        30,
    ));
    let c2 = g.add_symbol(make_symbol(
        "b",
        SymbolKind::Function,
        Visibility::Private,
        f,
        40,
    ));
    add_ref(&mut g, c1, old_fn, ReferenceKind::Call, f);
    add_ref(&mut g, c2, new_fn, ReferenceKind::Call, f);

    // WARNING filter: should survive
    let filter_warn = PatternFilter {
        patterns: None,
        min_severity: Some(Severity::Warning),
        min_confidence: None,
    };
    let diags_warn = run_patterns(&g, &filter_warn, "");
    let has_migration = diags_warn
        .iter()
        .any(|d| d.pattern == DiagnosticPattern::IncompleteMigration);
    assert!(
        has_migration,
        "IncompleteMigration (WARNING) should survive min_severity: Warning"
    );

    // CRITICAL filter: should be excluded
    let filter_crit = PatternFilter {
        patterns: None,
        min_severity: Some(Severity::Critical),
        min_confidence: None,
    };
    let diags_crit = run_patterns(&g, &filter_crit, "");
    let has_migration_crit = diags_crit
        .iter()
        .any(|d| d.pattern == DiagnosticPattern::IncompleteMigration);
    assert!(
        !has_migration_crit,
        "IncompleteMigration (WARNING) should NOT survive min_severity: Critical"
    );
}

#[test]
fn evidence_contains_required_fields() {
    let mut g = Graph::new();
    let f = "api.py";

    let old_fn = g.add_symbol(make_symbol(
        "deprecated_fetch_data",
        SymbolKind::Function,
        Visibility::Private,
        f,
        5,
    ));
    let new_fn = g.add_symbol(make_symbol(
        "fetch_data",
        SymbolKind::Function,
        Visibility::Private,
        f,
        15,
    ));

    for i in 0..3 {
        let c = g.add_symbol(make_symbol(
            &format!("old_caller_{}", i),
            SymbolKind::Function,
            Visibility::Private,
            f,
            30 + i * 10,
        ));
        add_ref(&mut g, c, old_fn, ReferenceKind::Call, f);
    }
    for i in 0..5 {
        let c = g.add_symbol(make_symbol(
            &format!("new_caller_{}", i),
            SymbolKind::Function,
            Visibility::Private,
            f,
            70 + i * 10,
        ));
        add_ref(&mut g, c, new_fn, ReferenceKind::Call, f);
    }

    let diagnostics = detect(&g, "");
    assert!(!diagnostics.is_empty());

    let d = &diagnostics[0];
    assert!(!d.evidence.is_empty(), "Evidence must not be empty");
    assert!(!d.suggestion.is_empty(), "Suggestion must not be empty");
    assert!(!d.location.is_empty(), "Location must not be empty");
    assert!(
        d.message.to_lowercase().contains("migration")
            || d.message.to_lowercase().contains("incomplete"),
        "Message should reference migration: got '{}'",
        d.message
    );
}

#[test]
fn regression_class_symbols_not_paired() {
    let mut g = Graph::new();
    let f = "engine.py";

    let old_class = g.add_symbol(make_symbol(
        "OldProcessor",
        SymbolKind::Class,
        Visibility::Public,
        f,
        5,
    ));
    let new_class = g.add_symbol(make_symbol(
        "Processor",
        SymbolKind::Class,
        Visibility::Public,
        f,
        30,
    ));

    let c1 = g.add_symbol(make_symbol(
        "use_old",
        SymbolKind::Function,
        Visibility::Private,
        f,
        50,
    ));
    let c2 = g.add_symbol(make_symbol(
        "use_new",
        SymbolKind::Function,
        Visibility::Private,
        f,
        60,
    ));
    add_ref(&mut g, c1, old_class, ReferenceKind::Call, f);
    add_ref(&mut g, c2, new_class, ReferenceKind::Call, f);

    let diagnostics = detect(&g, "");
    // Class symbols should not trigger — only Function/Method per investigation §4.1
    assert!(
        diagnostics.is_empty(),
        "Class symbols should not trigger incomplete_migration"
    );
}

#[test]
fn regression_import_symbols_not_paired() {
    let mut g = Graph::new();
    let f = "app.py";

    let _i1 = g.add_symbol(make_import("old_utils", f, 1));
    let _i2 = g.add_symbol(make_import("utils", f, 2));

    let diagnostics = detect(&g, "");
    assert!(
        diagnostics.is_empty(),
        "Import symbols should not trigger migration pairs"
    );
}
