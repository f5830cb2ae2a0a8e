use flowspec::diagnostic::{Confidence, DiagnosticPattern, Severity};
use flowspec::graph::Graph;
use flowspec::ir::{
    Location, Reference, ReferenceId, ReferenceKind, ResolutionStatus, ScopeId, Symbol, SymbolId,
    SymbolKind, Visibility,
};
use flowspec::patterns::contract_mismatch::{count_params, detect, is_variadic, language_from_path, parse_params};

fn make_symbol(name: &str, kind: SymbolKind, visibility: Visibility, file: &str, line: u32) -> Symbol {
    Symbol {
        id: SymbolId::default(),
        kind,
        name: name.to_string(),
        qualified_name: format!("{}::{}", file, name),
        visibility,
        signature: None,
        location: Location { file: file.to_string(), line, column: 1, end_line: line, end_column: 1 },
        resolution: ResolutionStatus::Resolved,
        scope: ScopeId::default(),
        annotations: vec![],
    }
}

#[allow(dead_code)]
fn make_import(name: &str, file: &str, line: u32) -> Symbol {
    let mut s = make_symbol(name, SymbolKind::Variable, Visibility::Private, file, line);
    s.annotations.push("import".to_string());
    s
}

#[allow(dead_code)]
fn make_entry_point(name: &str, kind: SymbolKind, visibility: Visibility, file: &str, line: u32) -> Symbol {
    let mut s = make_symbol(name, kind, visibility, file, line);
    s.annotations.push("entry_point".to_string());
    s
}

#[allow(dead_code)]
fn add_ref(graph: &mut Graph, from: SymbolId, to: SymbolId, kind: ReferenceKind, file: &str) {
    graph.add_reference(Reference {
        id: ReferenceId::default(),
        from,
        to,
        kind,
        location: Location { file: file.to_string(), line: 1, column: 1, end_line: 1, end_column: 1 },
        resolution: ResolutionStatus::Resolved,
    });
}


// =========================================================================
// Graph builders for contract_mismatch tests
// =========================================================================

/// Contract mismatch fixture: decorator violations and cross-file arity mismatches.
fn build_contract_mismatch_graph() -> Graph {
    let mut g = Graph::new();
    let f = "service.py";

    // Phase 1: Decorator contract violations (Python)

    // BAD: @staticmethod with self as first param
    let mut bad_static =
        make_symbol("bad_static", SymbolKind::Method, Visibility::Public, f, 5);
    bad_static.annotations.push("staticmethod".to_string());
    bad_static.signature = Some("(self, x)".to_string());
    g.add_symbol(bad_static);

    // BAD: @classmethod with self instead of cls
    let mut bad_classmethod = make_symbol(
        "bad_classmethod",
        SymbolKind::Method,
        Visibility::Public,
        f,
        10,
    );
    bad_classmethod.annotations.push("classmethod".to_string());
    bad_classmethod.signature = Some("(self, x)".to_string());
    g.add_symbol(bad_classmethod);

    // BAD: @property with extra params beyond self
    let mut bad_property = make_symbol(
        "bad_property",
        SymbolKind::Method,
        Visibility::Public,
        f,
        15,
    );
    bad_property.annotations.push("property".to_string());
    bad_property.signature = Some("(self, extra)".to_string());
    g.add_symbol(bad_property);

    // Phase 2: Cross-file same-name functions with different arity
    let mut process_a = make_symbol(
        "process_data",
        SymbolKind::Function,
        Visibility::Public,
        "module_a.py",
        1,
    );
    process_a.signature = Some("(data, config)".to_string());
    g.add_symbol(process_a);

    let mut process_b = make_symbol(
        "process_data",
        SymbolKind::Function,
        Visibility::Public,
        "module_b.py",
        1,
    );
    process_b.signature = Some("(data)".to_string());
    g.add_symbol(process_b);

    g
}

/// Clean code — no contract violations.
fn build_clean_contract_graph() -> Graph {
    let mut g = Graph::new();
    let f = "clean_service.py";

    // GOOD: @staticmethod without self
    let mut good_static =
        make_symbol("good_static", SymbolKind::Method, Visibility::Public, f, 5);
    good_static.annotations.push("staticmethod".to_string());
    good_static.signature = Some("(x, y)".to_string());
    g.add_symbol(good_static);

    // GOOD: @classmethod with cls
    let mut good_classmethod = make_symbol(
        "good_classmethod",
        SymbolKind::Method,
        Visibility::Public,
        f,
        10,
    );
    good_classmethod.annotations.push("classmethod".to_string());
    good_classmethod.signature = Some("(cls, x)".to_string());
    g.add_symbol(good_classmethod);

    // GOOD: @property with only self
    let mut good_property = make_symbol(
        "good_property",
        SymbolKind::Method,
        Visibility::Public,
        f,
        15,
    );
    good_property.annotations.push("property".to_string());
    good_property.signature = Some("(self)".to_string());
    g.add_symbol(good_property);

    // Two same-name functions with SAME arity — not a violation
    let mut fn_a = make_symbol(
        "helper",
        SymbolKind::Function,
        Visibility::Public,
        "mod_a.py",
        1,
    );
    fn_a.signature = Some("(x, y)".to_string());
    g.add_symbol(fn_a);

    let mut fn_b = make_symbol(
        "helper",
        SymbolKind::Function,
        Visibility::Public,
        "mod_b.py",
        1,
    );
    fn_b.signature = Some("(a, b)".to_string());
    g.add_symbol(fn_b);

    g
}

// =========================================================================
// T1: True Positive — @staticmethod with self parameter
// =========================================================================


#[test]
fn test_contract_mismatch_fires_on_staticmethod_with_self() {
    let graph = build_contract_mismatch_graph();
    let diagnostics = detect(&graph, "");

    let static_diag = diagnostics.iter().find(|d| d.entity.contains("bad_static"));
    assert!(
        static_diag.is_some(),
        "contract_mismatch must fire on @staticmethod with self param. Got entities: {:?}",
        diagnostics.iter().map(|d| &d.entity).collect::<Vec<_>>()
    );

    let diag = static_diag.unwrap();
    assert_eq!(diag.pattern, DiagnosticPattern::ContractMismatch);
    assert_eq!(
        diag.severity,
        Severity::Critical,
        "contract_mismatch spec severity is CRITICAL, got {:?}",
        diag.severity
    );
    assert_eq!(
        diag.confidence,
        Confidence::High,
        "Decorator contract violation is a Python language rule — must be HIGH confidence"
    );
    assert!(!diag.evidence.is_empty(), "Must include evidence");
    assert!(
        !diag.suggestion.is_empty(),
        "Must include actionable suggestion"
    );
}

#[test]
fn test_contract_mismatch_fires_on_classmethod_without_cls() {
    let graph = build_contract_mismatch_graph();
    let diagnostics = detect(&graph, "");

    let cls_diag = diagnostics
        .iter()
        .find(|d| d.entity.contains("bad_classmethod"));
    assert!(
        cls_diag.is_some(),
        "contract_mismatch must fire on @classmethod with self instead of cls"
    );

    let diag = cls_diag.unwrap();
    assert_eq!(diag.pattern, DiagnosticPattern::ContractMismatch);
    assert_eq!(diag.severity, Severity::Critical);
    assert_eq!(diag.confidence, Confidence::High);
}

#[test]
fn test_contract_mismatch_fires_on_property_with_extra_params() {
    let graph = build_contract_mismatch_graph();
    let diagnostics = detect(&graph, "");

    let prop_diag = diagnostics
        .iter()
        .find(|d| d.entity.contains("bad_property"));
    assert!(
        prop_diag.is_some(),
        "contract_mismatch must fire on @property with params beyond self"
    );

    let diag = prop_diag.unwrap();
    assert_eq!(diag.pattern, DiagnosticPattern::ContractMismatch);
    assert_eq!(
        diag.confidence,
        Confidence::High,
        "@property contract is a Python language rule"
    );
}

#[test]
fn test_contract_mismatch_fires_on_cross_file_arity_mismatch() {
    let graph = build_contract_mismatch_graph();
    let diagnostics = detect(&graph, "");

    let arity_diag = diagnostics
        .iter()
        .find(|d| d.entity.contains("process_data") && d.confidence == Confidence::Moderate);
    assert!(
        arity_diag.is_some(),
        "contract_mismatch must detect cross-file same-name functions with different arity. \
         Got entities: {:?}",
        diagnostics
            .iter()
            .filter(|d| d.entity.contains("process_data"))
            .map(|d| (&d.entity, &d.confidence))
            .collect::<Vec<_>>()
    );
}

#[test]
fn test_contract_mismatch_clean_code_no_findings() {
    let graph = build_clean_contract_graph();
    let diagnostics = detect(&graph, "");

    assert!(
        diagnostics.is_empty(),
        "contract_mismatch must NOT fire on clean code. Got {} findings: {:?}",
        diagnostics.len(),
        diagnostics.iter().map(|d| &d.entity).collect::<Vec<_>>()
    );
}

#[test]
fn test_contract_mismatch_confidence_calibration() {
    let graph = build_contract_mismatch_graph();
    let diagnostics = detect(&graph, "");

    // Decorator violations must be HIGH
    for name in &["bad_static", "bad_classmethod", "bad_property"] {
        let diag = diagnostics.iter().find(|d| d.entity.contains(name));
        if let Some(d) = diag {
            assert_eq!(
                d.confidence,
                Confidence::High,
                "Decorator contract violation for {} must be HIGH confidence, got {:?}",
                name,
                d.confidence
            );
        }
    }

    // Cross-file arity mismatch must be MODERATE
    let arity_diags: Vec<_> = diagnostics
        .iter()
        .filter(|d| d.entity.contains("process_data"))
        .collect();
    for d in &arity_diags {
        assert_eq!(
            d.confidence,
            Confidence::Moderate,
            "Cross-file arity mismatch must be MODERATE confidence, got {:?}",
            d.confidence
        );
    }
}

#[test]
fn test_contract_mismatch_runs_through_run_all_patterns() {
    let graph = build_contract_mismatch_graph();
    let diagnostics = flowspec::patterns::run_all_patterns(&graph, "");

    let contract_findings: Vec<_> = diagnostics
        .iter()
        .filter(|d| d.pattern == DiagnosticPattern::ContractMismatch)
        .collect();

    assert!(
        !contract_findings.is_empty(),
        "contract_mismatch must be registered in run_all_patterns(). \
         If this fails, add contract_mismatch::detect() to the pattern_results vec \
         in patterns/mod.rs."
    );
}

#[test]
fn test_contract_mismatch_staticmethod_without_self_is_clean() {
    let mut graph = Graph::new();
    let mut method = make_symbol(
        "compute",
        SymbolKind::Method,
        Visibility::Public,
        "math.py",
        1,
    );
    method.annotations.push("staticmethod".to_string());
    method.signature = Some("(x, y)".to_string());
    graph.add_symbol(method);

    let diagnostics = detect(&graph, "");
    assert!(
        diagnostics.is_empty(),
        "@staticmethod without self must not trigger contract_mismatch"
    );
}

#[test]
fn test_contract_mismatch_classmethod_accepts_cls_variants() {
    let mut graph = Graph::new();

    for (name, param) in [("method_a", "(cls, x)"), ("method_b", "(klass, x)")] {
        let mut method = make_symbol(name, SymbolKind::Method, Visibility::Public, "svc.py", 1);
        method.annotations.push("classmethod".to_string());
        method.signature = Some(param.to_string());
        graph.add_symbol(method);
    }

    let diagnostics = detect(&graph, "");
    assert!(
        diagnostics.is_empty(),
        "cls/klass variants must not trigger contract_mismatch. Got: {:?}",
        diagnostics.iter().map(|d| &d.entity).collect::<Vec<_>>()
    );
}

#[test]
fn test_contract_mismatch_handles_complex_type_signatures() {
    let mut graph = Graph::new();

    let mut fn_a = make_symbol(
        "transform",
        SymbolKind::Function,
        Visibility::Public,
        "a.py",
        1,
    );
    fn_a.signature = Some("(data: Dict[str, int], config: Optional[Config])".to_string());
    graph.add_symbol(fn_a);

    let mut fn_b = make_symbol(
        "transform",
        SymbolKind::Function,
        Visibility::Public,
        "b.py",
        1,
    );
    fn_b.signature = Some("(data: Dict[str, int])".to_string());
    graph.add_symbol(fn_b);

    let diagnostics = detect(&graph, "");

    // Should detect the arity difference (2 params vs 1 param)
    let mismatch = diagnostics.iter().find(|d| d.entity.contains("transform"));
    assert!(
        mismatch.is_some(),
        "Must detect cross-file arity mismatch even with complex type annotations. \
         The signature parser must handle commas inside brackets correctly."
    );
}

#[test]
fn test_contract_mismatch_empty_graph_no_panic() {
    let graph = Graph::new();
    let diagnostics = detect(&graph, "");
    assert!(
        diagnostics.is_empty(),
        "Empty graph must produce zero findings"
    );
}

#[test]
fn test_contract_mismatch_none_signature_skipped() {
    let mut graph = Graph::new();
    let mut method = make_symbol("no_sig", SymbolKind::Method, Visibility::Public, "x.py", 1);
    method.annotations.push("staticmethod".to_string());
    method.signature = None;
    graph.add_symbol(method);

    let diagnostics = detect(&graph, "");
    assert!(
        diagnostics.is_empty(),
        "Symbol with None signature must not trigger contract_mismatch"
    );
}

#[test]
fn test_contract_mismatch_args_kwargs_not_false_positive() {
    let mut graph = Graph::new();

    let mut fn_a = make_symbol(
        "handler",
        SymbolKind::Function,
        Visibility::Public,
        "a.py",
        1,
    );
    fn_a.signature = Some("(data)".to_string());
    graph.add_symbol(fn_a);

    let mut fn_b = make_symbol(
        "handler",
        SymbolKind::Function,
        Visibility::Public,
        "b.py",
        1,
    );
    fn_b.signature = Some("(*args, **kwargs)".to_string());
    graph.add_symbol(fn_b);

    let diagnostics = detect(&graph, "");
    let handler_diags: Vec<_> = diagnostics
        .iter()
        .filter(|d| d.entity.contains("handler"))
        .collect();
    assert!(
        handler_diags.is_empty(),
        "*args/**kwargs functions must not trigger cross-file arity mismatch. \
         Got: {:?}",
        handler_diags.iter().map(|d| &d.entity).collect::<Vec<_>>()
    );
}

#[test]
fn test_contract_mismatch_excludes_dunders_and_test_functions() {
    let mut graph = Graph::new();

    // Two __init__ methods with different arity — normal, not a violation
    let mut init_a = make_symbol(
        "__init__",
        SymbolKind::Method,
        Visibility::Public,
        "a.py",
        1,
    );
    init_a.signature = Some("(self, x)".to_string());
    graph.add_symbol(init_a);

    let mut init_b = make_symbol(
        "__init__",
        SymbolKind::Method,
        Visibility::Public,
        "b.py",
        1,
    );
    init_b.signature = Some("(self, x, y, z)".to_string());
    graph.add_symbol(init_b);

    // Two test_ functions with different arity — normal
    let mut test_a = make_symbol(
        "test_process",
        SymbolKind::Function,
        Visibility::Private,
        "test_a.py",
        1,
    );
    test_a.signature = Some("()".to_string());
    graph.add_symbol(test_a);

    let mut test_b = make_symbol(
        "test_process",
        SymbolKind::Function,
        Visibility::Private,
        "test_b.py",
        1,
    );
    test_b.signature = Some("(fixture)".to_string());
    graph.add_symbol(test_b);

    let diagnostics = detect(&graph, "");
    assert!(
        diagnostics.is_empty(),
        "Dunders and test functions must be excluded from Phase 2 arity checks. \
         Got: {:?}",
        diagnostics.iter().map(|d| &d.entity).collect::<Vec<_>>()
    );
}

#[test]
fn test_pattern_count_at_least_nine() {
    let contract_graph = build_contract_mismatch_graph();
    let filter = flowspec::patterns::PatternFilter {
        patterns: Some(vec![DiagnosticPattern::ContractMismatch]),
        ..Default::default()
    };
    let diagnostics =
        flowspec::patterns::run_patterns(&contract_graph, &filter, "");
    assert!(
        !diagnostics.is_empty(),
        "ContractMismatch must be registered and produce findings when filtered explicitly"
    );
}

#[test]
fn test_contract_mismatch_decorator_violations_detected_in_test_files() {
    let mut graph = Graph::new();
    let mut method = make_symbol(
        "bad_static",
        SymbolKind::Method,
        Visibility::Public,
        "test_service.py",
        5,
    );
    method.annotations.push("staticmethod".to_string());
    method.signature = Some("(self, x)".to_string());
    graph.add_symbol(method);

    let diagnostics = detect(&graph, "");
    assert!(
        !diagnostics.is_empty(),
        "Decorator contract violations must be detected even in test files. \
         Phase 1 must NOT use is_excluded_symbol() as blanket pre-filter."
    );
}

#[test]
fn test_parse_params_simple() {
    assert_eq!(parse_params("(x, y, z)"), vec!["x", "y", "z"]);
}

#[test]
fn test_parse_params_with_self() {
    assert_eq!(parse_params("(self, x)"), vec!["self", "x"]);
}

#[test]
fn test_parse_params_empty() {
    let result: Vec<String> = Vec::new();
    assert_eq!(parse_params("()"), result);
}

#[test]
fn test_parse_params_type_annotations() {
    assert_eq!(
        parse_params("(data: Dict[str, int], config: Optional[Config])"),
        vec!["data", "config"]
    );
}

#[test]
fn test_parse_params_with_return_type() {
    assert_eq!(parse_params("(self, x) -> int"), vec!["self", "x"]);
}

#[test]
fn test_parse_params_variadic() {
    assert_eq!(parse_params("(*args, **kwargs)"), vec!["*args", "**kwargs"]);
}

#[test]
fn test_parse_params_nested_brackets() {
    assert_eq!(
        parse_params("(fn: Callable[[int], str], x: int)"),
        vec!["fn", "x"]
    );
}

#[test]
fn test_count_params_simple() {
    assert_eq!(count_params("(a, b, c)"), 3);
}

#[test]
fn test_count_params_complex_types() {
    assert_eq!(
        count_params("(data: Dict[str, int], config: Optional[Config])"),
        2
    );
}

#[test]
fn test_is_variadic_true() {
    assert!(is_variadic("(*args, **kwargs)"));
    assert!(is_variadic("(x, *args)"));
}

#[test]
fn test_is_variadic_false() {
    assert!(!is_variadic("(x, y)"));
    assert!(!is_variadic("(self)"));
}

#[test]
fn test_contract_mismatch_no_fp_rust_cross_module_same_name() {
    let mut graph = Graph::new();

    let mut make_sym_py = make_symbol(
        "make_symbol",
        SymbolKind::Function,
        Visibility::Public,
        "parser/python.rs",
        134,
    );
    make_sym_py.signature = Some("(name: &str, kind: SymbolKind, node: &Node)".to_string());
    graph.add_symbol(make_sym_py);

    let mut make_sym_rs = make_symbol(
        "make_symbol",
        SymbolKind::Function,
        Visibility::Public,
        "parser/rust.rs",
        148,
    );
    make_sym_rs.signature = Some("(name: &str, kind: SymbolKind)".to_string());
    graph.add_symbol(make_sym_rs);

    let diagnostics = detect(&graph, "");

    let phase2_findings: Vec<_> = diagnostics
        .iter()
        .filter(|d| d.confidence == Confidence::Moderate)
        .filter(|d| d.entity.contains("make_symbol"))
        .collect();

    assert!(
        phase2_findings.is_empty(),
        "Phase 2 must NOT fire on same-name functions in different Rust modules. \
         make_symbol in parser/python.rs and parser/rust.rs are different module \
         implementations, not contract mismatches. Got {} findings: {:?}",
        phase2_findings.len(),
        phase2_findings
            .iter()
            .map(|d| &d.entity)
            .collect::<Vec<_>>()
    );
}

#[test]
fn test_contract_mismatch_no_fp_rust_extract_visibility_cross_module() {
    let mut graph = Graph::new();

    let mut vis_py = make_symbol(
        "extract_visibility",
        SymbolKind::Function,
        Visibility::Public,
        "parser/python.rs",
        50,
    );
    vis_py.signature = Some("(node: &Node, source: &str)".to_string());
    graph.add_symbol(vis_py);

    let mut vis_rs = make_symbol(
        "extract_visibility",
        SymbolKind::Function,
        Visibility::Public,
        "parser/rust.rs",
        60,
    );
    vis_rs.signature = Some("(node: &Node, source: &str, parent: Option<&Node>)".to_string());
    graph.add_symbol(vis_rs);

    let diagnostics = detect(&graph, "");
    let phase2_findings: Vec<_> = diagnostics
        .iter()
        .filter(|d| d.confidence == Confidence::Moderate)
        .collect();

    assert!(
        phase2_findings.is_empty(),
        "extract_visibility in parser/python.rs (2 params) and parser/rust.rs (3 params) \
         are different language adapters — Phase 2 must not fire. Got: {:?}",
        phase2_findings
            .iter()
            .map(|d| &d.entity)
            .collect::<Vec<_>>()
    );
}

#[test]
fn test_contract_mismatch_no_fp_cross_language_python_rust() {
    let mut graph = Graph::new();

    let mut py_fn = make_symbol(
        "transform",
        SymbolKind::Function,
        Visibility::Public,
        "utils.py",
        10,
    );
    py_fn.signature = Some("(data)".to_string());
    graph.add_symbol(py_fn);

    let mut rs_fn = make_symbol(
        "transform",
        SymbolKind::Function,
        Visibility::Public,
        "utils.rs",
        10,
    );
    rs_fn.signature = Some("(data: &str, config: &Config)".to_string());
    graph.add_symbol(rs_fn);

    let diagnostics = detect(&graph, "");
    let phase2_findings: Vec<_> = diagnostics
        .iter()
        .filter(|d| d.confidence == Confidence::Moderate)
        .collect();

    assert!(
        phase2_findings.is_empty(),
        "Cross-language comparison (Python vs Rust) must be excluded from Phase 2. \
         Different languages naturally have different function signatures. Got: {:?}",
        phase2_findings
            .iter()
            .map(|d| &d.entity)
            .collect::<Vec<_>>()
    );
}

#[test]
fn test_contract_mismatch_no_fp_cross_language_python_js() {
    let mut graph = Graph::new();

    let mut py_fn = make_symbol(
        "validate",
        SymbolKind::Function,
        Visibility::Public,
        "validator.py",
        1,
    );
    py_fn.signature = Some("(self, data, schema)".to_string());
    graph.add_symbol(py_fn);

    let mut js_fn = make_symbol(
        "validate",
        SymbolKind::Function,
        Visibility::Public,
        "validator.js",
        1,
    );
    js_fn.signature = Some("(data)".to_string());
    graph.add_symbol(js_fn);

    let diagnostics = detect(&graph, "");
    let phase2_findings: Vec<_> = diagnostics
        .iter()
        .filter(|d| d.confidence == Confidence::Moderate)
        .collect();

    assert!(
        phase2_findings.is_empty(),
        "Python vs JavaScript same-name functions must not trigger Phase 2. Got: {:?}",
        phase2_findings
            .iter()
            .map(|d| &d.entity)
            .collect::<Vec<_>>()
    );
}

#[test]
fn test_contract_mismatch_python_cross_file_still_fires() {
    let mut graph = Graph::new();

    let mut fn_a = make_symbol(
        "process",
        SymbolKind::Function,
        Visibility::Public,
        "handler_a.py",
        1,
    );
    fn_a.signature = Some("(data)".to_string());
    graph.add_symbol(fn_a);

    let mut fn_b = make_symbol(
        "process",
        SymbolKind::Function,
        Visibility::Public,
        "handler_b.py",
        1,
    );
    fn_b.signature = Some("(data, extra)".to_string());
    graph.add_symbol(fn_b);

    let diagnostics = detect(&graph, "");
    let phase2_findings: Vec<_> = diagnostics
        .iter()
        .filter(|d| d.entity.contains("process") && d.confidence == Confidence::Moderate)
        .collect();

    assert!(
        !phase2_findings.is_empty(),
        "Phase 2 MUST still fire for Python cross-file arity mismatch. \
         process(data) in handler_a.py vs process(data, extra) in handler_b.py \
         is a genuine contract mismatch that Phase 2 was designed to catch."
    );
}

#[test]
fn test_contract_mismatch_phase1_unaffected_by_phase2_fix() {
    let graph = build_contract_mismatch_graph();
    let diagnostics = detect(&graph, "");

    let phase1_findings: Vec<_> = diagnostics
        .iter()
        .filter(|d| d.confidence == Confidence::High)
        .collect();

    assert!(
        phase1_findings.len() >= 3,
        "Phase 1 must still detect all 3 decorator violations (staticmethod with self, \
         classmethod without cls, property with extra params). Got {} HIGH-confidence findings: {:?}",
        phase1_findings.len(),
        phase1_findings
            .iter()
            .map(|d| &d.entity)
            .collect::<Vec<_>>()
    );

    let entities: Vec<&str> = phase1_findings.iter().map(|d| d.entity.as_str()).collect();
    assert!(entities.iter().any(|e| e.contains("bad_static")));
    assert!(entities.iter().any(|e| e.contains("bad_classmethod")));
    assert!(entities.iter().any(|e| e.contains("bad_property")));
}

#[test]
fn test_contract_mismatch_three_languages_same_name_no_crash() {
    let mut graph = Graph::new();

    let mut py_fn = make_symbol(
        "helper",
        SymbolKind::Function,
        Visibility::Public,
        "utils.py",
        1,
    );
    py_fn.signature = Some("(x)".to_string());
    graph.add_symbol(py_fn);

    let mut rs_fn = make_symbol(
        "helper",
        SymbolKind::Function,
        Visibility::Public,
        "utils.rs",
        1,
    );
    rs_fn.signature = Some("(x: i32, y: i32)".to_string());
    graph.add_symbol(rs_fn);

    let mut js_fn = make_symbol(
        "helper",
        SymbolKind::Function,
        Visibility::Public,
        "utils.js",
        1,
    );
    js_fn.signature = Some("()".to_string());
    graph.add_symbol(js_fn);

    let diagnostics = detect(&graph, "");
    let phase2_findings: Vec<_> = diagnostics
        .iter()
        .filter(|d| d.entity.contains("helper") && d.confidence == Confidence::Moderate)
        .collect();

    assert!(
        phase2_findings.is_empty(),
        "Same-name function in 3 different languages (py/rs/js) must not crash \
         and must produce zero Phase 2 FPs. Each language is isolated. Got: {:?}",
        phase2_findings
            .iter()
            .map(|d| &d.entity)
            .collect::<Vec<_>>()
    );
}

#[test]
fn test_contract_mismatch_typescript_extensions_isolated() {
    let mut graph = Graph::new();

    let mut ts_fn = make_symbol(
        "render",
        SymbolKind::Function,
        Visibility::Public,
        "component.tsx",
        1,
    );
    ts_fn.signature = Some("(props: Props)".to_string());
    graph.add_symbol(ts_fn);

    let mut py_fn = make_symbol(
        "render",
        SymbolKind::Function,
        Visibility::Public,
        "template.py",
        1,
    );
    py_fn.signature = Some("(context, template_name, extra)".to_string());
    graph.add_symbol(py_fn);

    let diagnostics = detect(&graph, "");
    let phase2_findings: Vec<_> = diagnostics
        .iter()
        .filter(|d| d.entity.contains("render") && d.confidence == Confidence::Moderate)
        .collect();

    assert!(
        phase2_findings.is_empty(),
        ".tsx extension must be recognized as JavaScript/TypeScript family \
         and isolated from Python comparisons. Got: {:?}",
        phase2_findings
            .iter()
            .map(|d| &d.entity)
            .collect::<Vec<_>>()
    );
}

#[test]
fn test_contract_mismatch_unknown_extension_no_crash() {
    let mut graph = Graph::new();

    let mut fn_a = make_symbol(
        "compute",
        SymbolKind::Function,
        Visibility::Public,
        "module.xyz",
        1,
    );
    fn_a.signature = Some("(a)".to_string());
    graph.add_symbol(fn_a);

    let mut fn_b = make_symbol(
        "compute",
        SymbolKind::Function,
        Visibility::Public,
        "other.xyz",
        1,
    );
    fn_b.signature = Some("(a, b, c)".to_string());
    graph.add_symbol(fn_b);

    // Should not panic. Unknown extensions are excluded from Phase 2.
    let _diagnostics = detect(&graph, "");
}

#[test]
fn test_contract_mismatch_no_extension_no_crash() {
    let mut graph = Graph::new();

    let mut fn_a = make_symbol(
        "build",
        SymbolKind::Function,
        Visibility::Public,
        "Makefile",
        1,
    );
    fn_a.signature = Some("(target)".to_string());
    graph.add_symbol(fn_a);

    let mut fn_b = make_symbol(
        "build",
        SymbolKind::Function,
        Visibility::Public,
        "Dockerfile",
        1,
    );
    fn_b.signature = Some("(target, args, context)".to_string());
    graph.add_symbol(fn_b);

    // Must not panic on files without extensions
    let _diagnostics = detect(&graph, "");
}

#[test]
fn test_contract_mismatch_js_cross_file_arity_fires() {
    let mut graph = Graph::new();

    let mut fn_a = make_symbol(
        "fetchData",
        SymbolKind::Function,
        Visibility::Public,
        "api_client.js",
        1,
    );
    fn_a.signature = Some("(url)".to_string());
    graph.add_symbol(fn_a);

    let mut fn_b = make_symbol(
        "fetchData",
        SymbolKind::Function,
        Visibility::Public,
        "api_helper.js",
        1,
    );
    fn_b.signature = Some("(url, options, callback)".to_string());
    graph.add_symbol(fn_b);

    let diagnostics = detect(&graph, "");
    let phase2_findings: Vec<_> = diagnostics
        .iter()
        .filter(|d| d.entity.contains("fetchData") && d.confidence == Confidence::Moderate)
        .collect();

    assert!(
        !phase2_findings.is_empty(),
        "Phase 2 must fire for same-language JS cross-file arity mismatch. \
         fetchData(url) vs fetchData(url, options, callback) is a genuine contract concern."
    );
}

#[test]
fn test_contract_mismatch_existing_t4_fixture_still_fires() {
    let graph = build_contract_mismatch_graph();
    let diagnostics = detect(&graph, "");

    let arity_diag = diagnostics
        .iter()
        .find(|d| d.entity.contains("process_data") && d.confidence == Confidence::Moderate);

    assert!(
        arity_diag.is_some(),
        "The existing T4 true positive (process_data in module_a.py vs module_b.py) \
         must survive the FP fix. If this fails, the fix is too aggressive. Got: {:?}",
        diagnostics
            .iter()
            .map(|d| (&d.entity, &d.confidence))
            .collect::<Vec<_>>()
    );
}

#[test]
fn test_contract_mismatch_rust_same_file_same_name_different_arity() {
    let mut graph = Graph::new();

    let mut fn_a = make_symbol(
        "process",
        SymbolKind::Function,
        Visibility::Public,
        "handler.rs",
        10,
    );
    fn_a.signature = Some("(data: &str)".to_string());
    graph.add_symbol(fn_a);

    let mut fn_b = make_symbol(
        "process",
        SymbolKind::Function,
        Visibility::Public,
        "handler.rs",
        50,
    );
    fn_b.signature = Some("(data: &str, config: &Config)".to_string());
    graph.add_symbol(fn_b);

    // Same-file Rust functions with different arity — should not crash.
    // The Rust exclusion only skips cross-file groups, so same-file still compares.
    let _diagnostics = detect(&graph, "");
}

#[test]
fn test_contract_mismatch_phase2_severity_not_overcalibrated() {
    let mut graph = Graph::new();

    let mut fn_a = make_symbol(
        "handle_request",
        SymbolKind::Function,
        Visibility::Public,
        "server_a.py",
        1,
    );
    fn_a.signature = Some("(req)".to_string());
    graph.add_symbol(fn_a);

    let mut fn_b = make_symbol(
        "handle_request",
        SymbolKind::Function,
        Visibility::Public,
        "server_b.py",
        1,
    );
    fn_b.signature = Some("(req, res)".to_string());
    graph.add_symbol(fn_b);

    let diagnostics = detect(&graph, "");
    let phase2_findings: Vec<_> = diagnostics
        .iter()
        .filter(|d| d.entity.contains("handle_request") && d.confidence == Confidence::Moderate)
        .collect();

    assert!(
        !phase2_findings.is_empty(),
        "Setup: Phase 2 must fire for this scenario"
    );

    for finding in &phase2_findings {
        assert_eq!(
            finding.confidence,
            Confidence::Moderate,
            "Phase 2 findings must be MODERATE confidence (heuristic, may be intentional). Got: {:?}",
            finding.confidence
        );
    }
}

#[test]
fn test_contract_mismatch_empty_signature_string_skipped() {
    let mut graph = Graph::new();

    let mut fn_a = make_symbol(
        "process",
        SymbolKind::Function,
        Visibility::Public,
        "a.py",
        1,
    );
    fn_a.signature = Some(String::new());
    graph.add_symbol(fn_a);

    let mut fn_b = make_symbol(
        "process",
        SymbolKind::Function,
        Visibility::Public,
        "b.py",
        1,
    );
    fn_b.signature = Some("(x, y)".to_string());
    graph.add_symbol(fn_b);

    let diagnostics = detect(&graph, "");
    let phase2_findings: Vec<_> = diagnostics
        .iter()
        .filter(|d| d.entity.contains("process") && d.confidence == Confidence::Moderate)
        .collect();

    assert!(
        phase2_findings.is_empty(),
        "Symbol with empty signature string must be silently excluded from Phase 2 grouping"
    );
}

#[test]
fn test_contract_mismatch_no_parens_signature() {
    let mut graph = Graph::new();

    let mut fn_a = make_symbol(
        "getter",
        SymbolKind::Function,
        Visibility::Public,
        "a.py",
        1,
    );
    fn_a.signature = Some("property_name".to_string());
    graph.add_symbol(fn_a);

    let mut fn_b = make_symbol(
        "getter",
        SymbolKind::Function,
        Visibility::Public,
        "b.py",
        1,
    );
    fn_b.signature = Some("(self, key)".to_string());
    graph.add_symbol(fn_b);

    // Should not panic
    let _diagnostics = detect(&graph, "");
}

#[test]
fn test_contract_mismatch_whitespace_only_signature() {
    let mut graph = Graph::new();

    let mut fn_a = make_symbol("noop", SymbolKind::Function, Visibility::Public, "a.py", 1);
    fn_a.signature = Some("   ".to_string());
    graph.add_symbol(fn_a);

    let diagnostics = detect(&graph, "");
    assert!(
        diagnostics
            .iter()
            .all(|d| d.entity != "noop" || d.confidence != Confidence::Moderate),
        "Whitespace-only signature should not produce Phase 2 findings by itself"
    );
}

#[test]
fn test_contract_mismatch_import_symbols_excluded() {
    let mut graph = Graph::new();

    let mut import_a = make_symbol(
        "process",
        SymbolKind::Function,
        Visibility::Public,
        "a.py",
        1,
    );
    import_a.signature = Some("(data)".to_string());
    import_a.annotations.push("import".to_string());
    graph.add_symbol(import_a);

    let mut real_fn = make_symbol(
        "process",
        SymbolKind::Function,
        Visibility::Public,
        "b.py",
        1,
    );
    real_fn.signature = Some("(data, config, extra)".to_string());
    graph.add_symbol(real_fn);

    let diagnostics = detect(&graph, "");
    let phase2_findings: Vec<_> = diagnostics
        .iter()
        .filter(|d| d.entity.contains("process") && d.confidence == Confidence::Moderate)
        .collect();

    assert!(
        phase2_findings.is_empty(),
        "Import-annotated symbols must be excluded from Phase 2 grouping. \
         Only one non-import 'process' exists → group size < 2 → no finding."
    );
}

#[test]
fn test_language_from_path_python() {
    assert_eq!(language_from_path("module.py"), "python");
}

#[test]
fn test_language_from_path_rust() {
    assert_eq!(language_from_path("module.rs"), "rust");
}

#[test]
fn test_language_from_path_javascript_variants() {
    assert_eq!(language_from_path("app.js"), "javascript");
    assert_eq!(language_from_path("app.jsx"), "javascript");
    assert_eq!(language_from_path("app.ts"), "javascript");
    assert_eq!(language_from_path("app.tsx"), "javascript");
    assert_eq!(language_from_path("app.mjs"), "javascript");
    assert_eq!(language_from_path("app.cjs"), "javascript");
}

#[test]
fn test_language_from_path_unknown() {
    assert_eq!(language_from_path("file.xyz"), "unknown");
    assert_eq!(language_from_path("Makefile"), "unknown");
    assert_eq!(language_from_path(""), "unknown");
}
