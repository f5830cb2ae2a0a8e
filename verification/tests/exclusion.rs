use flowspec::patterns::exclusion::{is_excluded_symbol, is_test_path, relativize_path};
use flowspec::ir::{
    Location, Reference, ReferenceId, ReferenceKind, ResolutionStatus, ScopeId, Symbol, SymbolId,
    SymbolKind, Visibility,
};


fn make_sym(name: &str) -> Symbol {
    Symbol {
        id: SymbolId::default(),
        kind: SymbolKind::Function,
        name: name.to_string(),
        qualified_name: name.to_string(),
        visibility: Visibility::Public,
        signature: None,
        location: Location {
            file: "module.py".to_string(),
            line: 1,
            column: 1,
            end_line: 2,
            end_column: 1,
        },
        resolution: ResolutionStatus::Resolved,
        scope: ScopeId::default(),
        annotations: vec![],
    }
}

fn make_sym_in_file(name: &str, file: &str) -> Symbol {
    let mut s = make_sym(name);
    s.location.file = file.to_string();
    s
}

fn make_sym_with_annotation(name: &str, annotation: &str) -> Symbol {
    let mut s = make_sym(name);
    s.annotations.push(annotation.to_string());
    s
}

// -- is_test_path tests --


#[test]
fn test_is_test_path_prefix() {
    assert!(is_test_path("test_module.py"));
}

#[test]
fn test_is_test_path_tests_dir() {
    assert!(is_test_path("src/tests/unit.py"));
}

#[test]
fn test_is_test_path_test_dir() {
    assert!(is_test_path("src/test/integration.py"));
}

#[test]
fn test_is_test_path_suffix_py() {
    assert!(is_test_path("utils_test.py"));
}

#[test]
fn test_is_test_path_suffix_rs() {
    assert!(is_test_path("handler_test.rs"));
}

#[test]
fn test_is_test_path_windows() {
    assert!(is_test_path("src\\tests\\unit.py"));
}

#[test]
fn test_is_test_path_normal_file() {
    assert!(!is_test_path("src/utils.py"));
}

#[test]
fn test_is_test_path_main() {
    assert!(!is_test_path("main.py"));
}

#[test]
fn test_is_test_path_latest_version() {
    // "latest_version" contains "test_" as substring ("atest_v")
    // This is a known false positive of the contains("test_") heuristic
    assert!(is_test_path("latest_version.py"));
}

#[test]
fn test_is_test_path_contest() {
    // "contest_results.py" contains "test_" as substring via contains()
    // This is a known limitation — contest_ triggers the test_ check
    assert!(is_test_path("contest_results.py"));
}

#[test]
fn test_excluded_entry_point_annotation() {
    assert!(is_excluded_symbol(&make_sym_with_annotation(
        "func",
        "entry_point"
    )));
}

#[test]
fn test_excluded_import_annotation() {
    assert!(is_excluded_symbol(&make_sym_with_annotation(
        "os", "import"
    )));
}

#[test]
fn test_excluded_dunder_init() {
    assert!(is_excluded_symbol(&make_sym("__init__")));
}

#[test]
fn test_excluded_dunder_str() {
    assert!(is_excluded_symbol(&make_sym("__str__")));
}

#[test]
fn test_excluded_test_function() {
    assert!(is_excluded_symbol(&make_sym("test_login")));
}

#[test]
fn test_excluded_main() {
    assert!(is_excluded_symbol(&make_sym("main")));
}

#[test]
fn test_excluded_main_handler() {
    assert!(is_excluded_symbol(&make_sym("main_handler")));
}

#[test]
fn test_excluded_setup_main() {
    assert!(is_excluded_symbol(&make_sym("setup_main")));
}

#[test]
fn test_excluded_test_file_path() {
    assert!(is_excluded_symbol(&make_sym_in_file(
        "func",
        "src/tests/mod.py"
    )));
}

#[test]
fn test_not_excluded_normal_function() {
    assert!(!is_excluded_symbol(&make_sym("process_data")));
}

#[test]
fn test_not_excluded_private_helper() {
    assert!(!is_excluded_symbol(&make_sym("_private_helper")));
}

#[test]
fn test_not_excluded_maintain() {
    // "maintain" contains "main" but isn't "main" — starts_with doesn't trigger
    // because we check exact match or starts_with("main_") / ends_with("_main")
    assert!(!is_excluded_symbol(&make_sym("maintain")));
}

#[test]
fn test_excluded_double_underscore() {
    // "__" starts with "__" and ends with "__" → matches dunder heuristic
    assert!(is_excluded_symbol(&make_sym("__")));
}

#[test]
fn test_excluded_test_underscore_only() {
    // "test_" starts_with("test_") → excluded
    assert!(is_excluded_symbol(&make_sym("test_")));
}

#[test]
fn test_relativize_path_directory() {
    let path = "/home/user/project/src/module.py";
    let root = "/home/user/project";
    assert_eq!(relativize_path(path, root), "src/module.py");
}

#[test]
fn test_relativize_path_single_file() {
    let path = "/home/user/dead_code.py";
    let root = "/home/user/dead_code.py";
    assert_eq!(relativize_path(path, root), "dead_code.py");
}

#[test]
fn test_relativize_path_mismatched_root() {
    let path = "/home/bob/other/file.py";
    let root = "/home/alice/project";
    // strip_prefix fails → returns original absolute path
    assert_eq!(relativize_path(path, root), "/home/bob/other/file.py");
}

#[test]
fn test_relativize_path_at_root() {
    let path = "/repo/script.py";
    let root = "/repo";
    assert_eq!(relativize_path(path, root), "script.py");
}

#[test]
fn test_relativize_path_deeply_nested() {
    let path = "/repo/src/packages/core/internal/utils/helpers/deep.py";
    let root = "/repo";
    assert_eq!(
        relativize_path(path, root),
        "src/packages/core/internal/utils/helpers/deep.py"
    );
}

#[test]
fn test_relativize_path_empty_root() {
    let path = "module.py";
    let root = "";
    // strip_prefix("") on "module.py" → "module.py"
    assert_eq!(relativize_path(path, root), "module.py");
}
