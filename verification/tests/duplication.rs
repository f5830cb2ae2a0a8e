use flowspec::diagnostic::{Confidence, DiagnosticPattern, Severity};
use flowspec::graph::Graph;
use flowspec::ir::{
    Location, Reference, ReferenceId, ReferenceKind, ResolutionStatus, ScopeId, Symbol, SymbolId,
    SymbolKind, Visibility,
};
use flowspec::patterns::duplication::{detect, extract_arity};

fn make_symbol(name: &str, kind: SymbolKind, visibility: Visibility, file: &str, line: u32) -> Symbol {
    Symbol {
        id: SymbolId::default(),
        kind,
        name: name.to_string(),
        qualified_name: format!("{}::{}", file, name),
        visibility,
        signature: None,
        location: Location { file: file.to_string(), line, column: 1, end_line: line, end_column: 1 },
        resolution: ResolutionStatus::Resolved,
        scope: ScopeId::default(),
        annotations: vec![],
    }
}

#[allow(dead_code)]
fn make_import(name: &str, file: &str, line: u32) -> Symbol {
    let mut s = make_symbol(name, SymbolKind::Variable, Visibility::Private, file, line);
    s.annotations.push("import".to_string());
    s
}

#[allow(dead_code)]
fn make_entry_point(name: &str, kind: SymbolKind, visibility: Visibility, file: &str, line: u32) -> Symbol {
    let mut s = make_symbol(name, kind, visibility, file, line);
    s.annotations.push("entry_point".to_string());
    s
}

#[allow(dead_code)]
fn add_ref(graph: &mut Graph, from: SymbolId, to: SymbolId, kind: ReferenceKind, file: &str) {
    graph.add_reference(Reference {
        id: ReferenceId::default(),
        from,
        to,
        kind,
        location: Location { file: file.to_string(), line: 1, column: 1, end_line: 1, end_column: 1 },
        resolution: ResolutionStatus::Resolved,
    });
}

#[test]
fn test_duplication_true_positive_identical_callees() {
    let mut g = Graph::new();
    let f = "handlers.py";
    let validate = g.add_symbol(make_symbol(
        "validate",
        SymbolKind::Function,
        Visibility::Private,
        f,
        5,
    ));
    let save = g.add_symbol(make_symbol(
        "save",
        SymbolKind::Function,
        Visibility::Private,
        f,
        10,
    ));
    let notify = g.add_symbol(make_symbol(
        "notify",
        SymbolKind::Function,
        Visibility::Private,
        f,
        15,
    ));

    let mut process_order = make_symbol(
        "process_order",
        SymbolKind::Function,
        Visibility::Public,
        f,
        20,
    );
    process_order.signature = Some("(order: Order, ctx: Context) -> Result".to_string());
    let po_id = g.add_symbol(process_order);

    let mut process_refund = make_symbol(
        "process_refund",
        SymbolKind::Function,
        Visibility::Public,
        f,
        30,
    );
    process_refund.signature = Some("(refund: Refund, ctx: Context) -> Result".to_string());
    let pr_id = g.add_symbol(process_refund);

    for caller in [po_id, pr_id] {
        add_ref(&mut g, caller, validate, ReferenceKind::Call, f);
        add_ref(&mut g, caller, save, ReferenceKind::Call, f);
        add_ref(&mut g, caller, notify, ReferenceKind::Call, f);
    }

    let root = "/project".to_string();
    let results = detect(&g, &root);
    assert!(
        results
            .iter()
            .any(|d| d.pattern == DiagnosticPattern::Duplication),
        "Expected duplication finding for identical callees, got: {:?}",
        results
    );
    let diag = results
        .iter()
        .find(|d| d.pattern == DiagnosticPattern::Duplication)
        .unwrap();
    assert_eq!(diag.severity, Severity::Warning);
    assert_eq!(diag.confidence, Confidence::Moderate);
    assert!(!diag.evidence.is_empty());
}

#[test]
fn test_duplication_true_negative_different_callees() {
    let mut g = Graph::new();
    let f = "parsers.py";
    let json_decode = g.add_symbol(make_symbol(
        "json_decode",
        SymbolKind::Function,
        Visibility::Private,
        f,
        5,
    ));
    let validate_schema = g.add_symbol(make_symbol(
        "validate_schema",
        SymbolKind::Function,
        Visibility::Private,
        f,
        10,
    ));
    let xml_decode = g.add_symbol(make_symbol(
        "xml_decode",
        SymbolKind::Function,
        Visibility::Private,
        f,
        15,
    ));
    let transform_tree = g.add_symbol(make_symbol(
        "transform_tree",
        SymbolKind::Function,
        Visibility::Private,
        f,
        20,
    ));
    let normalize = g.add_symbol(make_symbol(
        "normalize",
        SymbolKind::Function,
        Visibility::Private,
        f,
        25,
    ));

    let mut parse_json = make_symbol(
        "parse_json",
        SymbolKind::Function,
        Visibility::Public,
        f,
        30,
    );
    parse_json.signature = Some("(data) -> dict".to_string());
    let pj_id = g.add_symbol(parse_json);

    let mut parse_xml =
        make_symbol("parse_xml", SymbolKind::Function, Visibility::Public, f, 40);
    parse_xml.signature = Some("(data) -> dict".to_string());
    let px_id = g.add_symbol(parse_xml);

    add_ref(&mut g, pj_id, json_decode, ReferenceKind::Call, f);
    add_ref(&mut g, pj_id, validate_schema, ReferenceKind::Call, f);

    add_ref(&mut g, px_id, xml_decode, ReferenceKind::Call, f);
    add_ref(&mut g, px_id, transform_tree, ReferenceKind::Call, f);
    add_ref(&mut g, px_id, normalize, ReferenceKind::Call, f);

    let root = "/project".to_string();
    let results = detect(&g, &root);
    assert!(
        !results
            .iter()
            .any(|d| d.pattern == DiagnosticPattern::Duplication),
        "Should NOT trigger duplication for completely different callees"
    );
}

#[test]
fn test_duplication_adversarial_threshold_boundary() {
    let mut g = Graph::new();
    let f = "handlers.py";

    // Shared callees
    let log = g.add_symbol(make_symbol(
        "log",
        SymbolKind::Function,
        Visibility::Private,
        f,
        1,
    ));
    let validate = g.add_symbol(make_symbol(
        "validate",
        SymbolKind::Function,
        Visibility::Private,
        f,
        2,
    ));
    let save = g.add_symbol(make_symbol(
        "save",
        SymbolKind::Function,
        Visibility::Private,
        f,
        3,
    ));
    let notify = g.add_symbol(make_symbol(
        "notify",
        SymbolKind::Function,
        Visibility::Private,
        f,
        4,
    ));
    let audit = g.add_symbol(make_symbol(
        "audit",
        SymbolKind::Function,
        Visibility::Private,
        f,
        5,
    ));
    let check = g.add_symbol(make_symbol(
        "check",
        SymbolKind::Function,
        Visibility::Private,
        f,
        6,
    ));

    // Unique callees
    let format_a = g.add_symbol(make_symbol(
        "format_a",
        SymbolKind::Function,
        Visibility::Private,
        f,
        7,
    ));
    let format_b = g.add_symbol(make_symbol(
        "format_b",
        SymbolKind::Function,
        Visibility::Private,
        f,
        8,
    ));

    let mut handler_a =
        make_symbol("handler_a", SymbolKind::Function, Visibility::Public, f, 20);
    handler_a.signature = Some("(req: Request, ctx: Context) -> Response".to_string());
    let ha_id = g.add_symbol(handler_a);

    let mut handler_b =
        make_symbol("handler_b", SymbolKind::Function, Visibility::Public, f, 30);
    handler_b.signature = Some("(req: Request, ctx: Context) -> Response".to_string());
    let hb_id = g.add_symbol(handler_b);

    // handler_a calls: log, validate, save, notify, format_a, audit, check (7 total)
    for callee in [log, validate, save, notify, format_a, audit, check] {
        add_ref(&mut g, ha_id, callee, ReferenceKind::Call, f);
    }

    // handler_b calls: log, validate, save, notify, format_b, audit, check (7 total)
    for callee in [log, validate, save, notify, format_b, audit, check] {
        add_ref(&mut g, hb_id, callee, ReferenceKind::Call, f);
    }

    // Jaccard = 6/8 = 0.75 — above threshold
    let root = "/project".to_string();
    let results = detect(&g, &root);
    assert!(
        results
            .iter()
            .any(|d| d.pattern == DiagnosticPattern::Duplication),
        "Jaccard 0.75 should trigger duplication (threshold 0.7)"
    );
}

#[test]
fn test_duplication_adversarial_below_threshold() {
    let mut g = Graph::new();
    let f = "handlers.py";

    let log = g.add_symbol(make_symbol(
        "log",
        SymbolKind::Function,
        Visibility::Private,
        f,
        1,
    ));
    let validate = g.add_symbol(make_symbol(
        "validate",
        SymbolKind::Function,
        Visibility::Private,
        f,
        2,
    ));
    let save = g.add_symbol(make_symbol(
        "save",
        SymbolKind::Function,
        Visibility::Private,
        f,
        3,
    ));
    let format_c = g.add_symbol(make_symbol(
        "format_c",
        SymbolKind::Function,
        Visibility::Private,
        f,
        4,
    ));
    let cache = g.add_symbol(make_symbol(
        "cache",
        SymbolKind::Function,
        Visibility::Private,
        f,
        5,
    ));
    let transform = g.add_symbol(make_symbol(
        "transform",
        SymbolKind::Function,
        Visibility::Private,
        f,
        6,
    ));
    let render = g.add_symbol(make_symbol(
        "render",
        SymbolKind::Function,
        Visibility::Private,
        f,
        7,
    ));
    let send = g.add_symbol(make_symbol(
        "send",
        SymbolKind::Function,
        Visibility::Private,
        f,
        8,
    ));

    let mut handler_c =
        make_symbol("handler_c", SymbolKind::Function, Visibility::Public, f, 20);
    handler_c.signature = Some("(req: Request, ctx: Context) -> Response".to_string());
    let hc_id = g.add_symbol(handler_c);

    let mut handler_d =
        make_symbol("handler_d", SymbolKind::Function, Visibility::Public, f, 30);
    handler_d.signature = Some("(req: Request, ctx: Context) -> Response".to_string());
    let hd_id = g.add_symbol(handler_d);

    // handler_c calls: log, validate, save, format_c, cache
    for callee in [log, validate, save, format_c, cache] {
        add_ref(&mut g, hc_id, callee, ReferenceKind::Call, f);
    }

    // handler_d calls: log, validate, transform, render, send
    for callee in [log, validate, transform, render, send] {
        add_ref(&mut g, hd_id, callee, ReferenceKind::Call, f);
    }

    // Jaccard = 2/8 = 0.25 — well below threshold
    let root = "/project".to_string();
    let results = detect(&g, &root);
    assert!(
        !results
            .iter()
            .any(|d| d.pattern == DiagnosticPattern::Duplication),
        "Jaccard 0.25 should NOT trigger duplication"
    );
}

#[test]
fn test_duplication_adversarial_zero_callees() {
    let mut g = Graph::new();
    let f = "getters.py";

    let mut get_name = make_symbol("get_name", SymbolKind::Function, Visibility::Public, f, 5);
    get_name.signature = Some("() -> str".to_string());
    g.add_symbol(get_name);

    let mut get_version = make_symbol(
        "get_version",
        SymbolKind::Function,
        Visibility::Public,
        f,
        10,
    );
    get_version.signature = Some("() -> str".to_string());
    g.add_symbol(get_version);

    let root = "/project".to_string();
    let results = detect(&g, &root);
    assert!(
        !results
            .iter()
            .any(|d| d.pattern == DiagnosticPattern::Duplication),
        "Zero-callees functions should NOT trigger duplication"
    );
}

#[test]
fn test_duplication_adversarial_different_arity() {
    let mut g = Graph::new();
    let f = "handlers.py";

    let validate = g.add_symbol(make_symbol(
        "validate",
        SymbolKind::Function,
        Visibility::Private,
        f,
        1,
    ));
    let save = g.add_symbol(make_symbol(
        "save",
        SymbolKind::Function,
        Visibility::Private,
        f,
        2,
    ));
    let notify = g.add_symbol(make_symbol(
        "notify",
        SymbolKind::Function,
        Visibility::Private,
        f,
        3,
    ));

    let mut setup_user = make_symbol(
        "setup_user",
        SymbolKind::Function,
        Visibility::Public,
        f,
        10,
    );
    setup_user.signature = Some("(config, db, logger, flags) -> None".to_string());
    let su_id = g.add_symbol(setup_user);

    let mut handle_event = make_symbol(
        "handle_event",
        SymbolKind::Function,
        Visibility::Public,
        f,
        20,
    );
    handle_event.signature = Some("(event) -> None".to_string());
    let he_id = g.add_symbol(handle_event);

    for callee in [validate, save, notify] {
        add_ref(&mut g, su_id, callee, ReferenceKind::Call, f);
        add_ref(&mut g, he_id, callee, ReferenceKind::Call, f);
    }

    let root = "/project".to_string();
    let results = detect(&g, &root);
    assert!(
        !results
            .iter()
            .any(|d| d.pattern == DiagnosticPattern::Duplication),
        "Different arity (4 vs 1) should NOT trigger duplication"
    );
}

#[test]
fn test_duplication_adversarial_test_file_excluded() {
    let mut g = Graph::new();
    let f = "test_handlers.py";

    let validate = g.add_symbol(make_symbol(
        "validate",
        SymbolKind::Function,
        Visibility::Private,
        f,
        1,
    ));
    let save = g.add_symbol(make_symbol(
        "save",
        SymbolKind::Function,
        Visibility::Private,
        f,
        2,
    ));
    let notify = g.add_symbol(make_symbol(
        "notify",
        SymbolKind::Function,
        Visibility::Private,
        f,
        3,
    ));

    let mut test_a = make_symbol("helper_a", SymbolKind::Function, Visibility::Public, f, 10);
    test_a.signature = Some("(data: dict, ctx: Context) -> None".to_string());
    let ta_id = g.add_symbol(test_a);

    let mut test_b = make_symbol("helper_b", SymbolKind::Function, Visibility::Public, f, 20);
    test_b.signature = Some("(data: dict, ctx: Context) -> None".to_string());
    let tb_id = g.add_symbol(test_b);

    for callee in [validate, save, notify] {
        add_ref(&mut g, ta_id, callee, ReferenceKind::Call, f);
        add_ref(&mut g, tb_id, callee, ReferenceKind::Call, f);
    }

    let root = "/project".to_string();
    let results = detect(&g, &root);
    assert!(
        !results
            .iter()
            .any(|d| d.pattern == DiagnosticPattern::Duplication),
        "Test files should be excluded from duplication detection"
    );
}

#[test]
fn test_duplication_adversarial_self_recursive() {
    let mut g = Graph::new();
    let f = "handlers.py";

    let process = g.add_symbol(make_symbol(
        "process",
        SymbolKind::Function,
        Visibility::Private,
        f,
        1,
    ));
    let validate = g.add_symbol(make_symbol(
        "validate",
        SymbolKind::Function,
        Visibility::Private,
        f,
        2,
    ));
    let emit = g.add_symbol(make_symbol(
        "emit",
        SymbolKind::Function,
        Visibility::Private,
        f,
        3,
    ));

    let mut traverse = make_symbol("traverse", SymbolKind::Function, Visibility::Public, f, 10);
    traverse.signature = Some("(node) -> None".to_string());
    let tr_id = g.add_symbol(traverse);

    let mut handle = make_symbol("handle", SymbolKind::Function, Visibility::Public, f, 20);
    handle.signature = Some("(item) -> None".to_string());
    let ha_id = g.add_symbol(handle);

    // traverse calls itself + process + validate + emit
    add_ref(&mut g, tr_id, tr_id, ReferenceKind::Call, f);
    add_ref(&mut g, tr_id, process, ReferenceKind::Call, f);
    add_ref(&mut g, tr_id, validate, ReferenceKind::Call, f);
    add_ref(&mut g, tr_id, emit, ReferenceKind::Call, f);

    // handle calls process + validate + emit
    add_ref(&mut g, ha_id, process, ReferenceKind::Call, f);
    add_ref(&mut g, ha_id, validate, ReferenceKind::Call, f);
    add_ref(&mut g, ha_id, emit, ReferenceKind::Call, f);

    // With self-call excluded: traverse callees = {process, validate, emit}, handle callees = {process, validate, emit}
    // Jaccard = 1.0, union = 3 (meets min threshold) — should trigger
    let root = "/project".to_string();
    let results = detect(&g, &root);
    assert!(
        results
            .iter()
            .any(|d| d.pattern == DiagnosticPattern::Duplication),
        "Self-recursive calls should be excluded; remaining callees are identical"
    );
}

#[test]
fn test_duplication_true_positive_shared_callees_match() {
    let mut g = Graph::new();
    let f = "serializers.py";

    let to_json = g.add_symbol(make_symbol(
        "to_json",
        SymbolKind::Function,
        Visibility::Private,
        f,
        1,
    ));
    let validate = g.add_symbol(make_symbol(
        "validate",
        SymbolKind::Function,
        Visibility::Private,
        f,
        2,
    ));
    let format_output = g.add_symbol(make_symbol(
        "format_output",
        SymbolKind::Function,
        Visibility::Private,
        f,
        3,
    ));

    let mut serialize_user = make_symbol(
        "serialize_user",
        SymbolKind::Function,
        Visibility::Public,
        f,
        10,
    );
    serialize_user.signature = Some("(user) -> str".to_string());
    let su_id = g.add_symbol(serialize_user);

    let mut serialize_order = make_symbol(
        "serialize_order",
        SymbolKind::Function,
        Visibility::Public,
        f,
        20,
    );
    serialize_order.signature = Some("(order) -> str".to_string());
    let so_id = g.add_symbol(serialize_order);

    for callee in [to_json, validate, format_output] {
        add_ref(&mut g, su_id, callee, ReferenceKind::Call, f);
        add_ref(&mut g, so_id, callee, ReferenceKind::Call, f);
    }

    let root = "/project".to_string();
    let results = detect(&g, &root);
    assert!(
        results
            .iter()
            .any(|d| d.pattern == DiagnosticPattern::Duplication),
        "Shared callees (>=3) with matching arity should trigger"
    );
}

#[test]
fn test_extract_arity_basic() {
    assert_eq!(extract_arity(Some("(a: int, b: str) -> bool")), 2);
    assert_eq!(extract_arity(Some("(x) -> None")), 1);
    assert_eq!(extract_arity(Some("() -> str")), 0);
    assert_eq!(extract_arity(None), 0);
    assert_eq!(extract_arity(Some("")), 0);
    assert_eq!(extract_arity(Some("(a, b, c, d) -> None")), 4);
}
