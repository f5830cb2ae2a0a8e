//! Shared exclusion logic for diagnostic pattern detectors: test-file
//! recognition, symbols that no detector reports, and path relativization.

use vstd::prelude::*;

use crate::ir::{has_annotation, Symbol};
use crate::path::{last_component, last_component_exec, strip_root, strip_root_exec};
use crate::text::{
    chars_eq, chars_of, contains_seq, ends_with, has_infix, has_prefix, has_suffix,
    last_index_of, normalize_slashes, normalized, starts_with, string_of,
};

verus! {

/// A file path that indicates a test file: after turning backslashes into
/// slashes it contains `test_`, `/tests/` or `/test/`, or ends with
/// `_test.py` or `_test.rs`.
pub open spec fn test_path(path: Seq<char>) -> bool {
    let n = normalize_slashes(path);
    contains_seq(n, "test_"@) || contains_seq(n, "/tests/"@) || contains_seq(n, "/test/"@)
        || ends_with(n, "_test.py"@) || ends_with(n, "_test.rs"@)
}

/// A name that marks an entry point: `main`, `__main__`, `if_name_main`,
/// `main_*` or `*_main`.
pub open spec fn entry_point_name(name: Seq<char>) -> bool {
    name == "main"@ || name == "__main__"@ || name == "if_name_main"@
        || starts_with(name, "main_"@) || ends_with(name, "_main"@)
}

/// A symbol that no detector reports: entry points, imports, dunders,
/// test functions, symbols in test files, and entry point names.
pub open spec fn excluded(s: Symbol) -> bool {
    has_annotation(s, "entry_point"@) || has_annotation(s, "import"@)
        || (starts_with(s.name@, "__"@) && ends_with(s.name@, "__"@))
        || starts_with(s.name@, "test_"@)
        || test_path(s.location.file@)
        || entry_point_name(s.name@)
}

/// Check if a file path indicates a test file.
pub fn is_test_path(path: &str) -> (r: bool)
    ensures
        r == test_path(path@),
{
    let p = chars_of(path);
    let n = normalized(&p);
    has_infix(&n, &chars_of("test_")) || has_infix(&n, &chars_of("/tests/"))
        || has_infix(&n, &chars_of("/test/")) || has_suffix(&n, &chars_of("_test.py"))
        || has_suffix(&n, &chars_of("_test.rs"))
}

/// Check if a symbol should be excluded from diagnostic detection.
pub fn is_excluded_symbol(symbol: &Symbol) -> (r: bool)
    ensures
        r == excluded(*symbol),
{
    if symbol.has_annotation("entry_point") {
        return true;
    }
    if symbol.has_annotation("import") {
        return true;
    }
    let name = chars_of(symbol.name.as_str());
    let dunder = chars_of("__");
    if has_prefix(&name, &dunder) && has_suffix(&name, &dunder) {
        return true;
    }
    if has_prefix(&name, &chars_of("test_")) {
        return true;
    }
    if is_test_path(symbol.location.file.as_str()) {
        return true;
    }
    chars_eq(&name, &chars_of("main")) || chars_eq(&name, &chars_of("__main__"))
        || chars_eq(&name, &chars_of("if_name_main")) || has_prefix(&name, &chars_of("main_"))
        || has_suffix(&name, &chars_of("_main"))
}

/// The last component of a path (everything after the last `/`), for a
/// path written without a trailing separator.
pub open spec fn file_name(file: Seq<char>) -> Seq<char> {
    file.skip(last_index_of(file, '/') + 1)
}

/// The relative form of `file` with respect to `root`: what remains once
/// `root`'s components are removed from its front; its last component
/// (or `file` itself when that is not a name) when nothing remains; `file`
/// itself when `root`'s components do not begin it.
pub open spec fn relative_path(file: Seq<char>, root: Seq<char>) -> Seq<char> {
    match strip_root(file, root) {
        Some(rest) => if rest.len() == 0 {
            match last_component(file) {
                Some(name) => name,
                None => file,
            }
        } else {
            rest
        },
        None => file,
    }
}

/// Produce a relative path string from a file path and a project root.
pub fn relativize_path(file: &str, project_root: &str) -> (r: String)
    ensures
        r@ == relative_path(file@, project_root@),
{
    let f = chars_of(file);
    let root = chars_of(project_root);
    match strip_root_exec(&f, &root) {
        Some(rest) => {
            if rest.len() == 0 {
                match last_component_exec(&f) {
                    Some(name) => string_of(&name),
                    None => string_of(&f),
                }
            } else {
                string_of(&rest)
            }
        },
        None => string_of(&f),
    }
}

} // verus!
