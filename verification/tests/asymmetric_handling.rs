use flowspec::diagnostic::{Confidence, DiagnosticPattern, Severity};
use flowspec::graph::Graph;
use flowspec::ir::{
    Location, Reference, ReferenceId, ReferenceKind, ResolutionStatus, ScopeId, Symbol, SymbolId,
    SymbolKind, Visibility,
};
use flowspec::patterns::asymmetric_handling::{detect};

fn make_symbol(name: &str, kind: SymbolKind, visibility: Visibility, file: &str, line: u32) -> Symbol {
    Symbol {
        id: SymbolId::default(),
        kind,
        name: name.to_string(),
        qualified_name: format!("{}::{}", file, name),
        visibility,
        signature: None,
        location: Location { file: file.to_string(), line, column: 1, end_line: line, end_column: 1 },
        resolution: ResolutionStatus::Resolved,
        scope: ScopeId::default(),
        annotations: vec![],
    }
}

#[allow(dead_code)]
fn make_import(name: &str, file: &str, line: u32) -> Symbol {
    let mut s = make_symbol(name, SymbolKind::Variable, Visibility::Private, file, line);
    s.annotations.push("import".to_string());
    s
}

#[allow(dead_code)]
fn make_entry_point(name: &str, kind: SymbolKind, visibility: Visibility, file: &str, line: u32) -> Symbol {
    let mut s = make_symbol(name, kind, visibility, file, line);
    s.annotations.push("entry_point".to_string());
    s
}

#[allow(dead_code)]
fn add_ref(graph: &mut Graph, from: SymbolId, to: SymbolId, kind: ReferenceKind, file: &str) {
    graph.add_reference(Reference {
        id: ReferenceId::default(),
        from,
        to,
        kind,
        location: Location { file: file.to_string(), line: 1, column: 1, end_line: 1, end_column: 1 },
        resolution: ResolutionStatus::Resolved,
    });
}

#[test]
fn test_asymmetric_true_positive_missing_validate() {
    let mut g = Graph::new();
    let f = "api/handlers.py";

    let validate = g.add_symbol(make_symbol(
        "validate",
        SymbolKind::Function,
        Visibility::Private,
        f,
        5,
    ));
    let authorize = g.add_symbol(make_symbol(
        "authorize",
        SymbolKind::Function,
        Visibility::Private,
        f,
        10,
    ));
    let save = g.add_symbol(make_symbol(
        "save",
        SymbolKind::Function,
        Visibility::Private,
        f,
        15,
    ));
    let update = g.add_symbol(make_symbol(
        "update",
        SymbolKind::Function,
        Visibility::Private,
        f,
        20,
    ));
    let delete = g.add_symbol(make_symbol(
        "delete",
        SymbolKind::Function,
        Visibility::Private,
        f,
        25,
    ));
    let fetch = g.add_symbol(make_symbol(
        "fetch",
        SymbolKind::Function,
        Visibility::Private,
        f,
        30,
    ));
    let respond = g.add_symbol(make_symbol(
        "respond",
        SymbolKind::Function,
        Visibility::Private,
        f,
        35,
    ));

    let mut hc = make_symbol(
        "handle_create",
        SymbolKind::Function,
        Visibility::Public,
        f,
        40,
    );
    hc.signature = Some("(req: Request, ctx: Context) -> Response".to_string());
    let hc_id = g.add_symbol(hc);

    let mut hu = make_symbol(
        "handle_update",
        SymbolKind::Function,
        Visibility::Public,
        f,
        50,
    );
    hu.signature = Some("(req: Request, ctx: Context) -> Response".to_string());
    let hu_id = g.add_symbol(hu);

    let mut hd = make_symbol(
        "handle_delete",
        SymbolKind::Function,
        Visibility::Public,
        f,
        60,
    );
    hd.signature = Some("(req: Request, ctx: Context) -> Response".to_string());
    let hd_id = g.add_symbol(hd);

    let mut hr = make_symbol(
        "handle_read",
        SymbolKind::Function,
        Visibility::Public,
        f,
        70,
    );
    hr.signature = Some("(req: Request, ctx: Context) -> Response".to_string());
    let hr_id = g.add_symbol(hr);

    // Wire calls
    add_ref(&mut g, hc_id, validate, ReferenceKind::Call, f);
    add_ref(&mut g, hc_id, authorize, ReferenceKind::Call, f);
    add_ref(&mut g, hc_id, save, ReferenceKind::Call, f);
    add_ref(&mut g, hc_id, respond, ReferenceKind::Call, f);

    add_ref(&mut g, hu_id, validate, ReferenceKind::Call, f);
    add_ref(&mut g, hu_id, authorize, ReferenceKind::Call, f);
    add_ref(&mut g, hu_id, update, ReferenceKind::Call, f);
    add_ref(&mut g, hu_id, respond, ReferenceKind::Call, f);

    // handle_delete — MISSING validate
    add_ref(&mut g, hd_id, authorize, ReferenceKind::Call, f);
    add_ref(&mut g, hd_id, delete, ReferenceKind::Call, f);
    add_ref(&mut g, hd_id, respond, ReferenceKind::Call, f);

    add_ref(&mut g, hr_id, validate, ReferenceKind::Call, f);
    add_ref(&mut g, hr_id, authorize, ReferenceKind::Call, f);
    add_ref(&mut g, hr_id, fetch, ReferenceKind::Call, f);
    add_ref(&mut g, hr_id, respond, ReferenceKind::Call, f);

    let root = "/project".to_string();
    let results = detect(&g, &root);

    assert!(
        results.iter().any(|d| {
            d.pattern == DiagnosticPattern::AsymmetricHandling
                && d.entity.contains("handle_delete")
        }),
        "Expected asymmetric handling finding for handle_delete missing validate, got: {:?}",
        results
    );

    let diag = results
        .iter()
        .find(|d| {
            d.pattern == DiagnosticPattern::AsymmetricHandling
                && d.entity.contains("handle_delete")
        })
        .unwrap();
    assert_eq!(diag.severity, Severity::Warning);
    assert_eq!(diag.confidence, Confidence::Moderate);
    assert!(!diag.evidence.is_empty());
}

#[test]
fn test_asymmetric_true_negative_different_roles() {
    let mut g = Graph::new();
    let f = "app.py";

    let connect = g.add_symbol(make_symbol(
        "connect",
        SymbolKind::Function,
        Visibility::Private,
        f,
        1,
    ));
    let migrate = g.add_symbol(make_symbol(
        "migrate",
        SymbolKind::Function,
        Visibility::Private,
        f,
        2,
    ));
    let seed = g.add_symbol(make_symbol(
        "seed",
        SymbolKind::Function,
        Visibility::Private,
        f,
        3,
    ));
    let validate = g.add_symbol(make_symbol(
        "validate",
        SymbolKind::Function,
        Visibility::Private,
        f,
        4,
    ));
    let process = g.add_symbol(make_symbol(
        "process",
        SymbolKind::Function,
        Visibility::Private,
        f,
        5,
    ));
    let respond = g.add_symbol(make_symbol(
        "respond",
        SymbolKind::Function,
        Visibility::Private,
        f,
        6,
    ));
    let close = g.add_symbol(make_symbol(
        "close",
        SymbolKind::Function,
        Visibility::Private,
        f,
        7,
    ));
    let flush = g.add_symbol(make_symbol(
        "flush",
        SymbolKind::Function,
        Visibility::Private,
        f,
        8,
    ));
    let deallocate = g.add_symbol(make_symbol(
        "deallocate",
        SymbolKind::Function,
        Visibility::Private,
        f,
        9,
    ));

    let mut setup_db = make_symbol("setup_db", SymbolKind::Function, Visibility::Public, f, 10);
    setup_db.signature = Some("(config) -> None".to_string());
    let sd_id = g.add_symbol(setup_db);

    let mut handle_request = make_symbol(
        "handle_request",
        SymbolKind::Function,
        Visibility::Public,
        f,
        20,
    );
    handle_request.signature = Some("(req: Request, ctx: Context) -> Response".to_string());
    let hr_id = g.add_symbol(handle_request);

    let mut cleanup = make_symbol("cleanup", SymbolKind::Function, Visibility::Public, f, 30);
    cleanup.signature = Some("(resources) -> None".to_string());
    let cl_id = g.add_symbol(cleanup);

    add_ref(&mut g, sd_id, connect, ReferenceKind::Call, f);
    add_ref(&mut g, sd_id, migrate, ReferenceKind::Call, f);
    add_ref(&mut g, sd_id, seed, ReferenceKind::Call, f);

    add_ref(&mut g, hr_id, validate, ReferenceKind::Call, f);
    add_ref(&mut g, hr_id, process, ReferenceKind::Call, f);
    add_ref(&mut g, hr_id, respond, ReferenceKind::Call, f);

    add_ref(&mut g, cl_id, close, ReferenceKind::Call, f);
    add_ref(&mut g, cl_id, flush, ReferenceKind::Call, f);
    add_ref(&mut g, cl_id, deallocate, ReferenceKind::Call, f);

    let root = "/project".to_string();
    let results = detect(&g, &root);
    assert!(
        !results
            .iter()
            .any(|d| d.pattern == DiagnosticPattern::AsymmetricHandling),
        "Different-role functions should NOT trigger asymmetric handling"
    );
}

#[test]
fn test_asymmetric_adversarial_group_too_small() {
    let mut g = Graph::new();
    let f = "handlers.py";

    let validate = g.add_symbol(make_symbol(
        "validate",
        SymbolKind::Function,
        Visibility::Private,
        f,
        1,
    ));
    let transform = g.add_symbol(make_symbol(
        "transform",
        SymbolKind::Function,
        Visibility::Private,
        f,
        2,
    ));
    let save = g.add_symbol(make_symbol(
        "save",
        SymbolKind::Function,
        Visibility::Private,
        f,
        3,
    ));

    let mut process_a =
        make_symbol("process_a", SymbolKind::Function, Visibility::Public, f, 10);
    process_a.signature = Some("(data: dict, config: Config) -> Result".to_string());
    let pa_id = g.add_symbol(process_a);

    let mut process_b =
        make_symbol("process_b", SymbolKind::Function, Visibility::Public, f, 20);
    process_b.signature = Some("(data: dict, config: Config) -> Result".to_string());
    let pb_id = g.add_symbol(process_b);

    add_ref(&mut g, pa_id, validate, ReferenceKind::Call, f);
    add_ref(&mut g, pa_id, transform, ReferenceKind::Call, f);
    add_ref(&mut g, pa_id, save, ReferenceKind::Call, f);

    add_ref(&mut g, pb_id, transform, ReferenceKind::Call, f);
    add_ref(&mut g, pb_id, save, ReferenceKind::Call, f);

    let root = "/project".to_string();
    let results = detect(&g, &root);
    assert!(
        !results
            .iter()
            .any(|d| d.pattern == DiagnosticPattern::AsymmetricHandling),
        "Group of 2 should NOT trigger asymmetric handling (min group size 3)"
    );
}

#[test]
fn test_asymmetric_adversarial_cross_module_no_grouping() {
    let mut g = Graph::new();

    let validate = g.add_symbol(make_symbol(
        "validate",
        SymbolKind::Function,
        Visibility::Private,
        "auth/handlers.py",
        1,
    ));
    let authenticate = g.add_symbol(make_symbol(
        "authenticate",
        SymbolKind::Function,
        Visibility::Private,
        "auth/handlers.py",
        2,
    ));
    let respond = g.add_symbol(make_symbol(
        "respond",
        SymbolKind::Function,
        Visibility::Private,
        "auth/handlers.py",
        3,
    ));
    let create = g.add_symbol(make_symbol(
        "create",
        SymbolKind::Function,
        Visibility::Private,
        "user/handlers.py",
        1,
    ));
    let respond2 = g.add_symbol(make_symbol(
        "respond",
        SymbolKind::Function,
        Visibility::Private,
        "user/handlers.py",
        2,
    ));
    let validate2 = g.add_symbol(make_symbol(
        "validate",
        SymbolKind::Function,
        Visibility::Private,
        "user/handlers.py",
        3,
    ));
    let create2 = g.add_symbol(make_symbol(
        "create",
        SymbolKind::Function,
        Visibility::Private,
        "payment/handlers.py",
        1,
    ));
    let respond3 = g.add_symbol(make_symbol(
        "respond",
        SymbolKind::Function,
        Visibility::Private,
        "payment/handlers.py",
        2,
    ));

    let mut h1 = make_symbol(
        "handle_login",
        SymbolKind::Function,
        Visibility::Public,
        "auth/handlers.py",
        10,
    );
    h1.signature = Some("(req: Request, ctx: Context) -> Response".to_string());
    let h1_id = g.add_symbol(h1);

    let mut h2 = make_symbol(
        "handle_register",
        SymbolKind::Function,
        Visibility::Public,
        "user/handlers.py",
        10,
    );
    h2.signature = Some("(req: Request, ctx: Context) -> Response".to_string());
    let h2_id = g.add_symbol(h2);

    let mut h3 = make_symbol(
        "handle_charge",
        SymbolKind::Function,
        Visibility::Public,
        "payment/handlers.py",
        10,
    );
    h3.signature = Some("(req: Request, ctx: Context) -> Response".to_string());
    let h3_id = g.add_symbol(h3);

    add_ref(
        &mut g,
        h1_id,
        validate,
        ReferenceKind::Call,
        "auth/handlers.py",
    );
    add_ref(
        &mut g,
        h1_id,
        authenticate,
        ReferenceKind::Call,
        "auth/handlers.py",
    );
    add_ref(
        &mut g,
        h1_id,
        respond,
        ReferenceKind::Call,
        "auth/handlers.py",
    );

    add_ref(
        &mut g,
        h2_id,
        validate2,
        ReferenceKind::Call,
        "user/handlers.py",
    );
    add_ref(
        &mut g,
        h2_id,
        create,
        ReferenceKind::Call,
        "user/handlers.py",
    );
    add_ref(
        &mut g,
        h2_id,
        respond2,
        ReferenceKind::Call,
        "user/handlers.py",
    );

    add_ref(
        &mut g,
        h3_id,
        create2,
        ReferenceKind::Call,
        "payment/handlers.py",
    );
    add_ref(
        &mut g,
        h3_id,
        respond3,
        ReferenceKind::Call,
        "payment/handlers.py",
    );

    let root = "/project".to_string();
    let results = detect(&g, &root);
    assert!(
        !results
            .iter()
            .any(|d| d.pattern == DiagnosticPattern::AsymmetricHandling),
        "Cross-module functions should NOT be grouped (same-file restriction)"
    );
}

#[test]
fn test_asymmetric_adversarial_all_identical_no_finding() {
    let mut g = Graph::new();
    let f = "handlers.py";

    let validate = g.add_symbol(make_symbol(
        "validate",
        SymbolKind::Function,
        Visibility::Private,
        f,
        1,
    ));
    let process = g.add_symbol(make_symbol(
        "process",
        SymbolKind::Function,
        Visibility::Private,
        f,
        2,
    ));
    let respond = g.add_symbol(make_symbol(
        "respond",
        SymbolKind::Function,
        Visibility::Private,
        f,
        3,
    ));

    let handlers: Vec<&str> = vec!["handler_a", "handler_b", "handler_c", "handler_d"];
    for (i, name) in handlers.iter().enumerate() {
        let mut h = make_symbol(
            name,
            SymbolKind::Function,
            Visibility::Public,
            f,
            (10 + i * 10) as u32,
        );
        h.signature = Some("(req: Request, ctx: Context) -> Response".to_string());
        let h_id = g.add_symbol(h);
        add_ref(&mut g, h_id, validate, ReferenceKind::Call, f);
        add_ref(&mut g, h_id, process, ReferenceKind::Call, f);
        add_ref(&mut g, h_id, respond, ReferenceKind::Call, f);
    }

    let root = "/project".to_string();
    let results = detect(&g, &root);
    assert!(
        !results
            .iter()
            .any(|d| d.pattern == DiagnosticPattern::AsymmetricHandling),
        "All-identical siblings should NOT trigger asymmetric handling"
    );
}

#[test]
fn test_asymmetric_adversarial_mixed_kind_no_grouping() {
    let mut g = Graph::new();
    let f = "service.py";

    let validate = g.add_symbol(make_symbol(
        "validate",
        SymbolKind::Function,
        Visibility::Private,
        f,
        1,
    ));
    let save = g.add_symbol(make_symbol(
        "save",
        SymbolKind::Function,
        Visibility::Private,
        f,
        2,
    ));
    let respond = g.add_symbol(make_symbol(
        "respond",
        SymbolKind::Function,
        Visibility::Private,
        f,
        3,
    ));

    let mut process_fn =
        make_symbol("process", SymbolKind::Function, Visibility::Public, f, 10);
    process_fn.signature = Some("(data: dict, ctx: Context) -> Result".to_string());
    let pf_id = g.add_symbol(process_fn);

    let mut handle_fn = make_symbol("handle", SymbolKind::Function, Visibility::Public, f, 20);
    handle_fn.signature = Some("(data: dict, ctx: Context) -> Result".to_string());
    let hf_id = g.add_symbol(handle_fn);

    // run is a Method, not a Function
    let mut run_method = make_symbol("run", SymbolKind::Method, Visibility::Public, f, 30);
    run_method.signature = Some("(data: dict, ctx: Context) -> Result".to_string());
    let rm_id = g.add_symbol(run_method);

    add_ref(&mut g, pf_id, validate, ReferenceKind::Call, f);
    add_ref(&mut g, pf_id, save, ReferenceKind::Call, f);

    add_ref(&mut g, hf_id, validate, ReferenceKind::Call, f);
    add_ref(&mut g, hf_id, respond, ReferenceKind::Call, f);

    add_ref(&mut g, rm_id, respond, ReferenceKind::Call, f);

    let root = "/project".to_string();
    let results = detect(&g, &root);
    assert!(
        !results
            .iter()
            .any(|d| d.pattern == DiagnosticPattern::AsymmetricHandling),
        "Mixed kinds (Function + Method) with only 2 of each should NOT form a valid group"
    );
}

#[test]
fn test_asymmetric_true_positive_two_missing_callees() {
    let mut g = Graph::new();
    let f = "api/handlers.py";

    let auth = g.add_symbol(make_symbol(
        "auth",
        SymbolKind::Function,
        Visibility::Private,
        f,
        1,
    ));
    let validate = g.add_symbol(make_symbol(
        "validate",
        SymbolKind::Function,
        Visibility::Private,
        f,
        2,
    ));
    let log = g.add_symbol(make_symbol(
        "log",
        SymbolKind::Function,
        Visibility::Private,
        f,
        3,
    ));
    let process = g.add_symbol(make_symbol(
        "process",
        SymbolKind::Function,
        Visibility::Private,
        f,
        4,
    ));
    let respond = g.add_symbol(make_symbol(
        "respond",
        SymbolKind::Function,
        Visibility::Private,
        f,
        5,
    ));
    let transform = g.add_symbol(make_symbol(
        "transform",
        SymbolKind::Function,
        Visibility::Private,
        f,
        6,
    ));
    let fetch = g.add_symbol(make_symbol(
        "fetch",
        SymbolKind::Function,
        Visibility::Private,
        f,
        7,
    ));
    let delete_fn = g.add_symbol(make_symbol(
        "delete_fn",
        SymbolKind::Function,
        Visibility::Private,
        f,
        8,
    ));
    let create = g.add_symbol(make_symbol(
        "create",
        SymbolKind::Function,
        Visibility::Private,
        f,
        9,
    ));

    let names = ["h1", "h2", "h3", "h4", "h5"];
    let mut ids = Vec::new();
    for (i, name) in names.iter().enumerate() {
        let mut h = make_symbol(
            name,
            SymbolKind::Function,
            Visibility::Public,
            f,
            (40 + i * 10) as u32,
        );
        h.signature = Some("(req: Request, ctx: Context) -> Response".to_string());
        ids.push(g.add_symbol(h));
    }

    // h1: auth, validate, log, process, respond
    for callee in [auth, validate, log, process, respond] {
        add_ref(&mut g, ids[0], callee, ReferenceKind::Call, f);
    }
    // h2: auth, validate, log, transform, respond
    for callee in [auth, validate, log, transform, respond] {
        add_ref(&mut g, ids[1], callee, ReferenceKind::Call, f);
    }
    // h3: auth, validate, log, fetch, respond
    for callee in [auth, validate, log, fetch, respond] {
        add_ref(&mut g, ids[2], callee, ReferenceKind::Call, f);
    }
    // h4: auth, log, delete_fn, respond — MISSING validate
    for callee in [auth, log, delete_fn, respond] {
        add_ref(&mut g, ids[3], callee, ReferenceKind::Call, f);
    }
    // h5: auth, validate, log, create, respond
    for callee in [auth, validate, log, create, respond] {
        add_ref(&mut g, ids[4], callee, ReferenceKind::Call, f);
    }

    // Consensus (≥4 of 5): auth, validate, log, respond
    // h4 is missing validate

    let root = "/project".to_string();
    let results = detect(&g, &root);
    assert!(
        results.iter().any(|d| {
            d.pattern == DiagnosticPattern::AsymmetricHandling && d.entity.contains("h4")
        }),
        "h4 missing 'validate' (consensus callee) should trigger, got: {:?}",
        results
    );
}
