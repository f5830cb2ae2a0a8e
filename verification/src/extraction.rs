//! Entity data extraction from the analysis graph: calls, callers,
//! visibility labels, module roles and the module dependency graph.

use vstd::prelude::*;

use crate::patterns::exclusion::file_name;
use crate::graph::{call_targets, law_calls_inverse, Graph};
use crate::ir::{has_annotation, Symbol, SymbolId, SymbolKind, Visibility};
use crate::text::{chars_eq, chars_of, contains_seq, ends_with, has_prefix, owned, starts_with};

verus! {

/// The views of a sequence of strings.
pub open spec fn string_views(v: Seq<String>) -> Seq<Seq<char>> {
    v.map_values(|s: String| s@)
}

/// Qualified names of the symbols among `ids` that name stored symbols, in order.
pub open spec fn qualified_names(g: Graph, ids: Seq<SymbolId>) -> Seq<Seq<char>>
    decreases ids.len(),
{
    if ids.len() == 0 {
        seq![]
    } else {
        let prev = qualified_names(g, ids.drop_last());
        if g.is_symbol(ids.last()) {
            prev.push(g.sym(ids.last()).qualified_name@)
        } else {
            prev
        }
    }
}

fn names_of_ids(graph: &Graph, ids: &Vec<SymbolId>) -> (r: Vec<String>)
    ensures
        string_views(r@) == qualified_names(*graph, ids@),
{
    let mut out: Vec<String> = Vec::new();
    let mut i: usize = 0;
    while i < ids.len()
        invariant
            i <= ids@.len(),
            string_views(out@) == qualified_names(*graph, ids@.take(i as int)),
        decreases ids@.len() - i,
    {
        assert(ids@.take(i + 1).drop_last() =~= ids@.take(i as int));
        let id = ids[i];
        if id != SymbolId(0) {
            if let Some(s) = graph.get_symbol(id) {
                out.push(s.qualified_name.clone());
                assert(string_views(out@) =~= string_views(out@.drop_last()).push(s.qualified_name@));
            }
        }
        i = i + 1;
    }
    assert(ids@.take(ids@.len() as int) =~= ids@);
    out
}

/// Extracts the qualified names of all symbols called by the given symbol.
pub fn extract_calls(graph: &Graph, symbol_id: SymbolId) -> (r: Vec<String>)
    ensures
        string_views(r@) == qualified_names(*graph, call_targets(graph.out_edges(symbol_id))),
{
    let callees = graph.callees(symbol_id);
    names_of_ids(graph, &callees)
}

/// Extracts the qualified names of all symbols that call the given symbol.
pub fn extract_called_by(graph: &Graph, symbol_id: SymbolId) -> (r: Vec<String>)
    ensures
        string_views(r@) == qualified_names(*graph, call_targets(graph.in_edges(symbol_id))),
{
    let callers = graph.callers(symbol_id);
    names_of_ids(graph, &callers)
}

/// The qualified names of `ids` hold `name` exactly when one of `ids`
/// names a stored symbol with that qualified name.
proof fn lemma_qualified_names_contain(g: Graph, ids: Seq<SymbolId>, name: Seq<char>)
    ensures
        qualified_names(g, ids).contains(name) <==> exists|k: int|
            0 <= k < ids.len() && g.is_symbol(#[trigger] ids[k]) && g.sym(ids[k]).qualified_name@ == name,
    decreases ids.len(),
{
    if ids.len() > 0 {
        let init = ids.drop_last();
        lemma_qualified_names_contain(g, init, name);
        let prev = qualified_names(g, init);
        let cur = qualified_names(g, ids);
        if cur.contains(name) {
            let j = choose|j: int| 0 <= j < cur.len() && cur[j] == name;
            if j < prev.len() {
                assert(cur[j] == prev[j]);
                assert(prev.contains(name));
                let k = choose|k: int|
                    0 <= k < init.len() && g.is_symbol(#[trigger] init[k]) && g.sym(init[k]).qualified_name@ == name;
                assert(ids[k] == init[k]);
            } else {
                assert(ids[ids.len() - 1] == ids.last());
            }
        }
        if exists|k: int| 0 <= k < ids.len() && g.is_symbol(#[trigger] ids[k]) && g.sym(ids[k]).qualified_name@ == name {
            let k = choose|k: int| 0 <= k < ids.len() && g.is_symbol(#[trigger] ids[k]) && g.sym(ids[k]).qualified_name@ == name;
            if k < ids.len() - 1 {
                assert(init[k] == ids[k]);
                assert(prev.contains(name));
                let j = choose|j: int| 0 <= j < prev.len() && prev[j] == name;
                assert(cur[j] == name);
            } else {
                assert(cur[cur.len() - 1] == name);
            }
        }
    }
}

/// Each stored symbol has its own qualified name.
pub open spec fn names_unique(g: Graph) -> bool {
    forall|x: SymbolId, y: SymbolId|
        g.is_symbol(x) && g.is_symbol(y) && #[trigger] g.sym(x).qualified_name@ == #[trigger] g.sym(y).qualified_name@
            ==> x == y
}

/// Calls and callers mirror each other by qualified name: when stored
/// symbols have distinct qualified names, the calls of `a` name `b` exactly
/// when the callers of `b` name `a`.
pub proof fn law_calls_and_callers_mirror_by_name(g: Graph, a: SymbolId, b: SymbolId)
    requires
        g.is_symbol(a),
        g.is_symbol(b),
        names_unique(g),
    ensures
        qualified_names(g, call_targets(g.out_edges(a))).contains(g.sym(b).qualified_name@)
            <==> qualified_names(g, call_targets(g.in_edges(b))).contains(g.sym(a).qualified_name@),
{
    let outs = call_targets(g.out_edges(a));
    let ins = call_targets(g.in_edges(b));
    law_calls_inverse(g, a, b);
    lemma_qualified_names_contain(g, outs, g.sym(b).qualified_name@);
    lemma_qualified_names_contain(g, ins, g.sym(a).qualified_name@);
    if qualified_names(g, outs).contains(g.sym(b).qualified_name@) {
        let k = choose|k: int|
            0 <= k < outs.len() && g.is_symbol(#[trigger] outs[k]) && g.sym(outs[k]).qualified_name@ == g.sym(b).qualified_name@;
        assert(outs[k] == b);
        assert(outs.contains(b));
        assert(ins.contains(a));
        let j = choose|j: int| 0 <= j < ins.len() && ins[j] == a;
        assert(g.is_symbol(ins[j]));
    }
    if qualified_names(g, ins).contains(g.sym(a).qualified_name@) {
        let k = choose|k: int|
            0 <= k < ins.len() && g.is_symbol(#[trigger] ins[k]) && g.sym(ins[k]).qualified_name@ == g.sym(a).qualified_name@;
        assert(ins[k] == a);
        assert(ins.contains(a));
        assert(outs.contains(b));
        let j = choose|j: int| 0 <= j < outs.len() && outs[j] == b;
        assert(g.is_symbol(outs[j]));
    }
}

/// Manifest label of a visibility.
pub open spec fn visibility_label(v: Visibility) -> Seq<char> {
    match v {
        Visibility::Public => "pub"@,
        Visibility::Private => "priv"@,
        Visibility::Crate => "crate"@,
        Visibility::Protected => "protected"@,
    }
}

/// Extracts a manifest-ready visibility string from a Symbol.
pub fn extract_visibility(symbol: &Symbol) -> (r: String)
    ensures
        r@ == visibility_label(symbol.visibility),
{
    match symbol.visibility {
        Visibility::Public => owned("pub"),
        Visibility::Private => owned("priv"),
        Visibility::Crate => owned("crate"),
        Visibility::Protected => owned("protected"),
    }
}

/// The symbol counts that module role inference is based on.
pub enum RoleCount {
    /// Symbols in the file.
    InFile,
    /// Symbols named `main`/`__main__` or annotated `entry_point`.
    Main,
    /// Functions or methods named `test_*`.
    TestFn,
    /// Symbols that are neither modules nor methods.
    NonModule,
    /// Classes, structs and enums among those.
    Class,
    /// Functions among those.
    Func,
    /// Imports among those.
    Import,
}

/// Whether symbol `s` in a file named `f` is counted under `c`.
pub open spec fn role_counted(c: RoleCount, f: Seq<char>, s: Symbol) -> bool {
    s.location.file@ == f && match c {
        RoleCount::InFile => true,
        RoleCount::Main => s.name@ == "main"@ || s.name@ == "__main__"@ || has_annotation(s, "entry_point"@),
        RoleCount::TestFn => starts_with(s.name@, "test_"@)
            && (s.kind == SymbolKind::Function || s.kind == SymbolKind::Method),
        RoleCount::NonModule => s.kind != SymbolKind::Module && s.kind != SymbolKind::Method,
        RoleCount::Class => s.kind != SymbolKind::Module && s.kind != SymbolKind::Method
            && (s.kind == SymbolKind::Class || s.kind == SymbolKind::Struct || s.kind == SymbolKind::Enum),
        RoleCount::Func => s.kind == SymbolKind::Function,
        RoleCount::Import => s.kind != SymbolKind::Module && s.kind != SymbolKind::Method
            && has_annotation(s, "import"@),
    }
}

/// Number of symbols among `syms` counted under `c` for file `f`.
pub open spec fn role_count(syms: Seq<Symbol>, f: Seq<char>, c: RoleCount) -> nat
    decreases syms.len(),
{
    if syms.len() == 0 {
        0
    } else {
        role_count(syms.drop_last(), f, c) + if role_counted(c, f, syms.last()) { 1nat } else { 0nat }
    }
}

/// The role description of file `f` in graph `g`.
pub open spec fn module_role(g: Graph, f: Seq<char>) -> Seq<char> {
    let syms = g.syms();
    let total = role_count(syms, f, RoleCount::NonModule);
    let classes = role_count(syms, f, RoleCount::Class);
    let imports = role_count(syms, f, RoleCount::Import);
    let funcs = role_count(syms, f, RoleCount::Func);
    if role_count(syms, f, RoleCount::InFile) == 0 {
        "Empty module"@
    } else if role_count(syms, f, RoleCount::Main) > 0 {
        "Entry point module"@
    } else if test_file_name(file_name(f)) || role_count(syms, f, RoleCount::TestFn) > 0 {
        "Test module"@
    } else if total == 0 {
        "Empty module"@
    } else if classes > 0 && classes * 2 >= total {
        "Data model module"@
    } else if imports > 0 && imports * 2 >= total {
        "API boundary module"@
    } else if funcs > 0 && funcs * 2 >= total {
        "Utility module"@
    } else {
        "Service module"@
    }
}

/// Number of the symbols among `syms` of file `f` that satisfy `p`.
pub open spec fn count_filter(syms: Seq<Symbol>, f: Seq<char>, p: spec_fn(Symbol) -> bool) -> nat {
    syms.filter(|s: Symbol| s.location.file@ == f && p(s)).len()
}

/// Number of the symbols of file `f` that satisfy `p`.
pub open spec fn count_in_file(g: Graph, f: Seq<char>, p: spec_fn(Symbol) -> bool) -> nat {
    count_filter(g.syms(), f, p)
}

proof fn lemma_role_count_filter(syms: Seq<Symbol>, f: Seq<char>, c: RoleCount, p: spec_fn(Symbol) -> bool)
    requires
        forall|s: Symbol| (s.location.file@ == f && #[trigger] p(s)) == role_counted(c, f, s),
    ensures
        role_count(syms, f, c) == count_filter(syms, f, p),
    decreases syms.len(),
{
    reveal(Seq::filter);
    if syms.len() > 0 {
        lemma_role_count_filter(syms.drop_last(), f, c, p);
        assert(p(syms.last()) == p(syms.last()));
    }
}

/// How the role of a module follows from what its file holds. Counting the
/// symbols of file `f`, with modules and methods left out of `total` and of
/// the class, import and function counts:
/// - a file with no symbols is an empty module;
/// - a file with a symbol named `main` or `__main__`, or annotated
///   `entry_point`, is an entry point module;
/// - otherwise a file named like a test file, or holding a function or
///   method named `test_*`, is a test module;
/// - otherwise, with nothing counted in `total`, it is an empty module;
///   with classes, structs or enums making up at least half of `total`, a
///   data model module; else with imports at least half, an API boundary
///   module; else with functions at least half, a utility module; and else
///   a service module.
pub proof fn law_module_role_by_counts(g: Graph, f: Seq<char>)
    ensures ({
        let role = module_role(g, f);
        let in_file = count_in_file(g, f, |s: Symbol| true);
        let entries = count_in_file(g, f, |s: Symbol|
            s.name@ == "main"@ || s.name@ == "__main__"@ || has_annotation(s, "entry_point"@));
        let tests = count_in_file(g, f, |s: Symbol|
            starts_with(s.name@, "test_"@) && (s.kind == SymbolKind::Function || s.kind == SymbolKind::Method));
        let name = file_name(f);
        let test_name = starts_with(name, "test_"@) || ends_with(name, "_test.py"@) || ends_with(name, "_test.rs"@)
            || name == "conftest.py"@ || contains_seq(name, ".test."@) || contains_seq(name, ".spec."@);
        let total = count_in_file(g, f, |s: Symbol| s.kind != SymbolKind::Module && s.kind != SymbolKind::Method);
        let classes = count_in_file(g, f, |s: Symbol|
            s.kind == SymbolKind::Class || s.kind == SymbolKind::Struct || s.kind == SymbolKind::Enum);
        let imports = count_in_file(g, f, |s: Symbol|
            s.kind != SymbolKind::Module && s.kind != SymbolKind::Method && has_annotation(s, "import"@));
        let funcs = count_in_file(g, f, |s: Symbol| s.kind == SymbolKind::Function);
        let plain = in_file > 0 && entries == 0 && !test_name && tests == 0;
        let data = classes > 0 && classes * 2 >= total;
        let api = imports > 0 && imports * 2 >= total;
        let utility = funcs > 0 && funcs * 2 >= total;
        &&& in_file == 0 ==> role == "Empty module"@
        &&& in_file > 0 && entries > 0 ==> role == "Entry point module"@
        &&& in_file > 0 && entries == 0 && (test_name || tests > 0) ==> role == "Test module"@
        &&& plain && total == 0 ==> role == "Empty module"@
        &&& plain && total > 0 && data ==> role == "Data model module"@
        &&& plain && total > 0 && !data && api ==> role == "API boundary module"@
        &&& plain && total > 0 && !data && !api && utility ==> role == "Utility module"@
        &&& plain && total > 0 && !data && !api && !utility ==> role == "Service module"@
    }),
{
    let syms = g.syms();
    lemma_role_count_filter(syms, f, RoleCount::InFile, |s: Symbol| true);
    lemma_role_count_filter(syms, f, RoleCount::Main, |s: Symbol|
        s.name@ == "main"@ || s.name@ == "__main__"@ || has_annotation(s, "entry_point"@));
    lemma_role_count_filter(syms, f, RoleCount::TestFn, |s: Symbol|
        starts_with(s.name@, "test_"@) && (s.kind == SymbolKind::Function || s.kind == SymbolKind::Method));
    lemma_role_count_filter(syms, f, RoleCount::NonModule, |s: Symbol|
        s.kind != SymbolKind::Module && s.kind != SymbolKind::Method);
    lemma_role_count_filter(syms, f, RoleCount::Class, |s: Symbol|
        s.kind == SymbolKind::Class || s.kind == SymbolKind::Struct || s.kind == SymbolKind::Enum);
    lemma_role_count_filter(syms, f, RoleCount::Import, |s: Symbol|
        s.kind != SymbolKind::Module && s.kind != SymbolKind::Method && has_annotation(s, "import"@));
    lemma_role_count_filter(syms, f, RoleCount::Func, |s: Symbol| s.kind == SymbolKind::Function);
}

/// A file name that marks a test file: `test_*`, `*_test.py`,
/// `*_test.rs`, `conftest.py`, or a JavaScript `*.test.*` / `*.spec.*`.
/// Directories play no part, so fixtures under `tests/` keep their role.
pub open spec fn test_file_name(name: Seq<char>) -> bool {
    starts_with(name, "test_"@) || ends_with(name, "_test.py"@) || ends_with(name, "_test.rs"@)
        || name == "conftest.py"@ || contains_seq(name, ".test."@) || contains_seq(name, ".spec."@)
}

/// Whether the last component of `path` names a test file.
fn is_test_file_name(path: &str) -> (r: bool)
    ensures
        r == test_file_name(file_name(path@)),
{
    let p = chars_of(path);
    let plen = p.len();
    proof {
        crate::text::lemma_last_index_bounds(p@, '/');
    }
    let start: usize = match crate::text::rfind_char(&p, '/') {
        Some(i) => i + 1,
        None => 0,
    };
    let name = crate::text::slice_chars(&p, start, p.len());
    assert(name@ =~= file_name(p@));
    has_prefix(&name, &chars_of("test_")) || crate::text::has_suffix(&name, &chars_of("_test.py"))
        || crate::text::has_suffix(&name, &chars_of("_test.rs")) || chars_eq(&name, &chars_of("conftest.py"))
        || crate::text::has_infix(&name, &chars_of(".test.")) || crate::text::has_infix(&name, &chars_of(".spec."))
}

/// Infers a role description for a module based on its symbols.
///
/// Heuristics (checked in priority order): entry point, test module,
/// mostly classes (data model), mostly imports (API boundary), mostly
/// functions (utility), otherwise service; "Empty module" when nothing
/// countable is in the file.
pub fn infer_module_role(graph: &Graph, file_path: &str) -> (r: String)
    ensures
        r@ == module_role(*graph, file_path@),
{
    let fc = chars_of(file_path);
    let main_c = chars_of("main");
    let dmain_c = chars_of("__main__");
    let test_c = chars_of("test_");
    let ghost f = file_path@;
    let mut in_file: usize = 0;
    let mut mains: usize = 0;
    let mut test_fns: usize = 0;
    let mut total: usize = 0;
    let mut classes: usize = 0;
    let mut funcs: usize = 0;
    let mut imports: usize = 0;
    let n = graph.symbol_count();
    let mut i: usize = 0;
    while i < n
        invariant
            n == graph.syms().len(),
            i <= n,
            fc@ == f,
            main_c@ == "main"@,
            dmain_c@ == "__main__"@,
            test_c@ == "test_"@,
            in_file == role_count(graph.syms().take(i as int), f, RoleCount::InFile),
            mains == role_count(graph.syms().take(i as int), f, RoleCount::Main),
            test_fns == role_count(graph.syms().take(i as int), f, RoleCount::TestFn),
            total == role_count(graph.syms().take(i as int), f, RoleCount::NonModule),
            classes == role_count(graph.syms().take(i as int), f, RoleCount::Class),
            funcs == role_count(graph.syms().take(i as int), f, RoleCount::Func),
            imports == role_count(graph.syms().take(i as int), f, RoleCount::Import),
            in_file <= i && mains <= i && test_fns <= i && total <= i,
            classes <= total && funcs <= total && imports <= total,
        decreases n - i,
    {
        let s = graph.symbol_at(i);
        assert(graph.syms().take(i + 1).drop_last() =~= graph.syms().take(i as int));
        assert(graph.syms().take(i + 1).last() == *s);
        let sf = chars_of(s.location.file.as_str());
        if chars_eq(&sf, &fc) {
            in_file = in_file + 1;
            let name = chars_of(s.name.as_str());
            if chars_eq(&name, &main_c) || chars_eq(&name, &dmain_c) || s.has_annotation("entry_point") {
                mains = mains + 1;
            }
            if has_prefix(&name, &test_c) && (s.kind == SymbolKind::Function || s.kind == SymbolKind::Method) {
                test_fns = test_fns + 1;
            }
            if s.kind != SymbolKind::Module && s.kind != SymbolKind::Method {
                total = total + 1;
                if s.kind == SymbolKind::Class || s.kind == SymbolKind::Struct || s.kind == SymbolKind::Enum {
                    classes = classes + 1;
                }
                if s.kind == SymbolKind::Function {
                    funcs = funcs + 1;
                }
                if s.has_annotation("import") {
                    imports = imports + 1;
                }
            }
        }
        i = i + 1;
    }
    assert(graph.syms().take(n as int) =~= graph.syms());
    if in_file == 0 {
        return owned("Empty module");
    }
    if mains > 0 {
        return owned("Entry point module");
    }
    if is_test_file_name(file_path) || test_fns > 0 {
        return owned("Test module");
    }
    if total == 0 {
        return owned("Empty module");
    }
    if classes > 0 && classes >= total - classes {
        return owned("Data model module");
    }
    if imports > 0 && imports >= total - imports {
        return owned("API boundary module");
    }
    if funcs > 0 && funcs >= total - funcs {
        return owned("Utility module");
    }
    owned("Service module")
}

/// Direction of a module-level dependency edge.
#[derive(Debug, Clone, Copy, PartialEq, Eq, Structural)]
pub enum DependencyDirection {
    /// Only one module references the other.
    Unidirectional,
    /// Both modules reference each other.
    Bidirectional,
}

/// A module-level dependency edge for the manifest's dependency graph.
#[derive(Debug, Clone)]
pub struct ModuleDependency {
    /// The lexicographically smaller module path of the pair.
    pub from: String,
    /// The other module path.
    pub to: String,
    /// Number of cross-file references between the two, both ways.
    pub weight: usize,
    /// Whether both modules reference each other.
    pub direction: DependencyDirection,
    /// Related diagnostic IDs.
    pub issues: Vec<String>,
}

/// The content of a [`ModuleDependency`].
pub struct ModuleDependencyView {
    pub from: Seq<char>,
    pub to: Seq<char>,
    pub weight: nat,
    pub direction: DependencyDirection,
    pub issues: Seq<Seq<char>>,
}

impl View for ModuleDependency {
    type V = ModuleDependencyView;

    open spec fn view(&self) -> ModuleDependencyView {
        ModuleDependencyView {
            from: self.from@,
            to: self.to@,
            weight: self.weight as nat,
            direction: self.direction,
            issues: string_views(self.issues@),
        }
    }
}

/// `a` sorts strictly before `b`: lexicographic order by character.
pub open spec fn seq_lt(a: Seq<char>, b: Seq<char>) -> bool
    decreases a.len(),
{
    if a.len() == 0 {
        b.len() > 0
    } else if b.len() == 0 {
        false
    } else if a[0] != b[0] {
        (a[0] as u32) < (b[0] as u32)
    } else {
        seq_lt(a.drop_first(), b.drop_first())
    }
}

/// Whether `a` sorts strictly before `b`, by character.
pub fn str_less(a: &Vec<char>, b: &Vec<char>) -> (r: bool)
    ensures
        r == seq_lt(a@, b@),
{
    let mut i: usize = 0;
    assert(a@.skip(0) =~= a@);
    assert(b@.skip(0) =~= b@);
    while i < a.len() && i < b.len() && a[i] == b[i]
        invariant
            i <= a@.len(),
            i <= b@.len(),
            seq_lt(a@, b@) == seq_lt(a@.skip(i as int), b@.skip(i as int)),
        decreases a@.len() - i,
    {
        assert(a@.skip(i as int).drop_first() =~= a@.skip(i + 1));
        assert(b@.skip(i as int).drop_first() =~= b@.skip(i + 1));
        i = i + 1;
    }
    if i == a.len() {
        i < b.len()
    } else if i == b.len() {
        false
    } else {
        (a[i] as u32) < (b[i] as u32)
    }
}

/// `(a1, b1)` sorts strictly before `(a2, b2)`: by first path, then second.
pub open spec fn pair_lt(x: (Seq<char>, Seq<char>), y: (Seq<char>, Seq<char>)) -> bool {
    seq_lt(x.0, y.0) || (x.0 == y.0 && seq_lt(x.1, y.1))
}

/// Reference `k` joins two stored symbols of different files.
pub open spec fn cross_ref(g: Graph, k: int) -> bool {
    let r = g.refs()[k];
    g.is_symbol(r.from) && g.is_symbol(r.to) && g.sym(r.from).location.file@ != g.sym(r.to).location.file@
}

/// The (source file, target file) of reference `k`.
pub open spec fn ref_files(g: Graph, k: int) -> (Seq<char>, Seq<char>) {
    (g.sym(g.refs()[k].from).location.file@, g.sym(g.refs()[k].to).location.file@)
}

/// The file pair of reference `k`, smaller path first.
pub open spec fn canon_pair(g: Graph, k: int) -> (Seq<char>, Seq<char>) {
    let (a, b) = ref_files(g, k);
    if !seq_lt(b, a) { (a, b) } else { (b, a) }
}

/// The distinct file pairs of the first `k` cross-file references, in order
/// of first appearance.
pub open spec fn pairs_upto(g: Graph, k: nat) -> Seq<(Seq<char>, Seq<char>)>
    decreases k,
{
    if k == 0 {
        seq![]
    } else {
        let prev = pairs_upto(g, (k - 1) as nat);
        if cross_ref(g, k - 1) && !prev.contains(canon_pair(g, k - 1)) {
            prev.push(canon_pair(g, k - 1))
        } else {
            prev
        }
    }
}

/// `x` placed into `s` before the first entry it sorts before.
pub open spec fn insert_pair(s: Seq<(Seq<char>, Seq<char>)>, x: (Seq<char>, Seq<char>)) -> Seq<(Seq<char>, Seq<char>)>
    decreases s.len(),
{
    if s.len() == 0 {
        seq![x]
    } else if pair_lt(x, s[0]) {
        seq![x] + s
    } else {
        seq![s[0]] + insert_pair(s.drop_first(), x)
    }
}

/// The first `k` pairs of `s`, sorted by insertion.
pub open spec fn sort_pairs(s: Seq<(Seq<char>, Seq<char>)>, k: nat) -> Seq<(Seq<char>, Seq<char>)>
    decreases k,
{
    if k == 0 || k > s.len() {
        seq![]
    } else {
        insert_pair(sort_pairs(s, (k - 1) as nat), s[k - 1])
    }
}

/// Number of cross-file references among the first `k` whose file pair
/// is `p` in either direction.
pub open spec fn pair_weight(g: Graph, p: (Seq<char>, Seq<char>), k: nat) -> nat
    decreases k,
{
    if k == 0 {
        0
    } else {
        pair_weight(g, p, (k - 1) as nat) + if cross_ref(g, k - 1) && canon_pair(g, k - 1) == p { 1nat } else { 0nat }
    }
}

/// Some cross-file reference goes from file `a` to file `b`.
pub open spec fn refers(g: Graph, a: Seq<char>, b: Seq<char>) -> bool {
    exists|k: int| 0 <= k < g.refs().len() && cross_ref(g, k) && #[trigger] ref_files(g, k) == (a, b)
}

/// The dependency entry for file pair `p`.
pub open spec fn dependency_of(g: Graph, p: (Seq<char>, Seq<char>)) -> ModuleDependencyView {
    ModuleDependencyView {
        from: p.0,
        to: p.1,
        weight: pair_weight(g, p, g.refs().len()),
        direction: if refers(g, p.0, p.1) && refers(g, p.1, p.0) {
            DependencyDirection::Bidirectional
        } else {
            DependencyDirection::Unidirectional
        },
        issues: seq![],
    }
}

/// The module dependency graph: one entry per pair of files joined by a
/// cross-file reference, sorted by (from, to).
pub open spec fn dependency_graph(g: Graph) -> Seq<ModuleDependencyView> {
    let ps = pairs_upto(g, g.refs().len());
    sort_pairs(ps, ps.len()).map_values(|p: (Seq<char>, Seq<char>)| dependency_of(g, p))
}

/// The views of a sequence of file pairs.
pub open spec fn pair_views(v: Seq<(Vec<char>, Vec<char>)>) -> Seq<(Seq<char>, Seq<char>)> {
    v.map_values(|p: (Vec<char>, Vec<char>)| (p.0@, p.1@))
}

fn cross_files(graph: &Graph, k: usize) -> (r: Option<(Vec<char>, Vec<char>)>)
    requires
        k < graph.refs().len(),
    ensures
        r is Some <==> cross_ref(*graph, k as int),
        r matches Some(p) ==> (p.0@, p.1@) == ref_files(*graph, k as int),
{
    let r = graph.reference_at(k);
    match (graph.get_symbol(r.from), graph.get_symbol(r.to)) {
        (Some(a), Some(b)) => {
            let fa = chars_of(a.location.file.as_str());
            let fb = chars_of(b.location.file.as_str());
            if chars_eq(&fa, &fb) {
                None
            } else {
                Some((fa, fb))
            }
        },
        _ => None,
    }
}

fn has_pair(ps: &Vec<(Vec<char>, Vec<char>)>, a: &Vec<char>, b: &Vec<char>) -> (r: bool)
    ensures
        r == pair_views(ps@).contains((a@, b@)),
{
    let mut i: usize = 0;
    while i < ps.len()
        invariant
            i <= ps@.len(),
            forall|j: int| 0 <= j < i ==> pair_views(ps@)[j] != (a@, b@),
        decreases ps@.len() - i,
    {
        if chars_eq(&ps[i].0, a) && chars_eq(&ps[i].1, b) {
            assert(pair_views(ps@)[i as int] == (a@, b@));
            return true;
        }
        i = i + 1;
    }
    false
}

fn pair_before(x: &(Vec<char>, Vec<char>), y: &(Vec<char>, Vec<char>)) -> (r: bool)
    ensures
        r == pair_lt((x.0@, x.1@), (y.0@, y.1@)),
{
    str_less(&x.0, &y.0) || (chars_eq(&x.0, &y.0) && str_less(&x.1, &y.1))
}

fn insert_pair_exec(s: &mut Vec<(Vec<char>, Vec<char>)>, x: (Vec<char>, Vec<char>))
    ensures
        pair_views(final(s)@) == insert_pair(pair_views(old(s)@), (x.0@, x.1@)),
{
    let ghost sv = pair_views(s@);
    let ghost xv = (x.0@, x.1@);
    let mut pos: usize = 0;
    assert(sv.skip(0) =~= sv);
    assert(sv.take(0) + insert_pair(sv.skip(0), xv) =~= insert_pair(sv, xv));
    let slen = s.len();
    let mut go: bool = slen > 0 && !pair_before(&x, &s[0]);
    while go
        invariant
            slen == s@.len(),
            pos <= s@.len(),
            sv == pair_views(s@),
            xv == (x.0@, x.1@),
            insert_pair(sv, xv) == sv.take(pos as int) + insert_pair(sv.skip(pos as int), xv),
            go ==> pos < s@.len() && !pair_lt(xv, sv[pos as int]),
            !go ==> pos == s@.len() || pair_lt(xv, sv[pos as int]),
        decreases s@.len() - pos,
    {
        assert(sv.skip(pos as int)[0] == sv[pos as int]);
        assert(sv.skip(pos as int).drop_first() =~= sv.skip(pos + 1));
        assert(insert_pair(sv.skip(pos as int), xv) == seq![sv[pos as int]] + insert_pair(sv.skip(pos + 1), xv));
        assert(sv.take(pos + 1) =~= sv.take(pos as int).push(sv[pos as int]));
        assert(sv.take(pos as int) + (seq![sv[pos as int]] + insert_pair(sv.skip(pos + 1), xv))
            =~= sv.take(pos + 1) + insert_pair(sv.skip(pos + 1), xv));
        pos = pos + 1;
        go = pos < s.len() && !pair_before(&x, &s[pos]);
    }
    proof {
        if pos < sv.len() {
            assert(sv.skip(pos as int)[0] == sv[pos as int]);
            assert(insert_pair(sv.skip(pos as int), xv) == seq![xv] + sv.skip(pos as int));
        } else {
            assert(sv.skip(pos as int) =~= Seq::<(Seq<char>, Seq<char>)>::empty());
        }
    }
    s.insert(pos, x);
    assert(pair_views(s@) =~= sv.take(pos as int) + (seq![xv] + sv.skip(pos as int)));
}

/// Extracts module-level dependency edges from cross-file references:
/// one entry per pair of files (smaller path as `from`), weighted by the
/// number of references between them in either direction, bidirectional
/// when each file refers to the other, sorted by (`from`, `to`).
pub fn extract_dependency_graph(graph: &Graph) -> (r: Vec<ModuleDependency>)
    ensures
        r@.map_values(|d: ModuleDependency| d@) == dependency_graph(*graph),
{
    let m = graph.reference_count();
    let mut ps: Vec<(Vec<char>, Vec<char>)> = Vec::new();
    let mut k: usize = 0;
    while k < m
        invariant
            m == graph.refs().len(),
            k <= m,
            pair_views(ps@) == pairs_upto(*graph, k as nat),
        decreases m - k,
    {
        match cross_files(graph, k) {
            Some(p) => {
                let (a, b) = p;
                let c = if !str_less(&b, &a) { (a, b) } else { (b, a) };
                assert((c.0@, c.1@) == canon_pair(*graph, k as int));
                if !has_pair(&ps, &c.0, &c.1) {
                    let ghost before = pair_views(ps@);
                    let ghost cv = (c.0@, c.1@);
                    ps.push(c);
                    assert(pair_views(ps@) =~= before.push(cv));
                }
            },
            None => {},
        }
        k = k + 1;
    }
    let ghost pv = pair_views(ps@);
    let mut sorted: Vec<(Vec<char>, Vec<char>)> = Vec::new();
    let mut ps = ps;
    let mut i: usize = 0;
    let total = ps.len();
    while ps.len() > 0
        invariant
            total == pv.len(),
            i + ps@.len() == total,
            pair_views(ps@) == pv.skip(i as int),
            pair_views(sorted@) == sort_pairs(pv, i as nat),
        decreases ps@.len(),
    {
        let ghost before = ps@;
        let x = ps.remove(0);
        assert(pair_views(before)[0] == (before[0].0@, before[0].1@));
        assert(pv.skip(i as int)[0] == pv[i as int]);
        assert(pair_views(ps@) =~= pv.skip(i + 1)) by {
            assert forall|j: int| 0 <= j < ps@.len() implies pair_views(ps@)[j] == pv.skip(i + 1)[j] by {
                assert(ps@[j] == before[j + 1]);
                assert(pair_views(before)[j + 1] == (before[j + 1].0@, before[j + 1].1@));
            }
        }
        insert_pair_exec(&mut sorted, x);
        i = i + 1;
    }
    let ghost sv = pair_views(sorted@);
    let mut out: Vec<ModuleDependency> = Vec::new();
    let mut j: usize = 0;
    while j < sorted.len()
        invariant
            m == graph.refs().len(),
            j <= sorted@.len(),
            sv == pair_views(sorted@),
            sv == sort_pairs(pv, pv.len()),
            pv == pairs_upto(*graph, m as nat),
            out@.map_values(|d: ModuleDependency| d@) == sv.take(j as int).map_values(
                |p: (Seq<char>, Seq<char>)| dependency_of(*graph, p)),
        decreases sorted@.len() - j,
    {
        let a = &sorted[j].0;
        let b = &sorted[j].1;
        let ghost p = (a@, b@);
        assert(sv[j as int] == p);
        let mut weight: usize = 0;
        let mut fwd = false;
        let mut bwd = false;
        let mut k: usize = 0;
        while k < m
            invariant
                m == graph.refs().len(),
                k <= m,
                weight <= k,
                weight == pair_weight(*graph, p, k as nat),
                p == (a@, b@),
                fwd == exists|q: int| 0 <= q < k && cross_ref(*graph, q) && #[trigger] ref_files(*graph, q) == (a@, b@),
                bwd == exists|q: int| 0 <= q < k && cross_ref(*graph, q) && #[trigger] ref_files(*graph, q) == (b@, a@),
            decreases m - k,
        {
            match cross_files(graph, k) {
                Some(f) => {
                    let c0 = if !str_less(&f.1, &f.0) { &f.0 } else { &f.1 };
                    let c1 = if !str_less(&f.1, &f.0) { &f.1 } else { &f.0 };
                    assert((c0@, c1@) == canon_pair(*graph, k as int));
                    if chars_eq(c0, a) && chars_eq(c1, b) {
                        weight = weight + 1;
                    }
                    if chars_eq(&f.0, a) && chars_eq(&f.1, b) {
                        fwd = true;
                    }
                    if chars_eq(&f.0, b) && chars_eq(&f.1, a) {
                        bwd = true;
                    }
                },
                None => {},
            }
            k = k + 1;
        }
        let direction = if fwd && bwd { DependencyDirection::Bidirectional } else { DependencyDirection::Unidirectional };
        let d = ModuleDependency {
            from: crate::text::string_of(a),
            to: crate::text::string_of(b),
            weight,
            direction,
            issues: Vec::new(),
        };
        let ghost before = out@.map_values(|d: ModuleDependency| d@);
        out.push(d);
        assert(string_views(d.issues@) =~= Seq::<Seq<char>>::empty());
        assert(d@ == dependency_of(*graph, p));
        assert(sv.take(j + 1) =~= sv.take(j as int).push(p));
        assert(out@.map_values(|d: ModuleDependency| d@) =~= before.push(d@));
        j = j + 1;
    }
    assert(sv.take(sorted@.len() as int) =~= sv);
    out
}

proof fn lemma_insert_pair_contents(s: Seq<(Seq<char>, Seq<char>)>, x: (Seq<char>, Seq<char>))
    ensures
        insert_pair(s, x).len() == s.len() + 1,
        forall|y: (Seq<char>, Seq<char>)| #[trigger] insert_pair(s, x).contains(y) <==> (s.contains(y) || y == x),
        s.no_duplicates() && !s.contains(x) ==> insert_pair(s, x).no_duplicates(),
    decreases s.len(),
{
    let r = insert_pair(s, x);
    if s.len() == 0 {
        assert(r =~= seq![x]);
        assert forall|y: (Seq<char>, Seq<char>)| #[trigger] r.contains(y) <==> (s.contains(y) || y == x) by {
            if r.contains(y) {
                let j = choose|j: int| 0 <= j < r.len() && r[j] == y;
            }
            if y == x {
                assert(r[0] == y);
            }
        }
    } else if pair_lt(x, s[0]) {
        assert(r =~= seq![x] + s);
        assert forall|y: (Seq<char>, Seq<char>)| #[trigger] r.contains(y) <==> (s.contains(y) || y == x) by {
            if r.contains(y) {
                let j = choose|j: int| 0 <= j < r.len() && r[j] == y;
                if j > 0 {
                    assert(s[j - 1] == y);
                }
            }
            if s.contains(y) {
                let j = choose|j: int| 0 <= j < s.len() && s[j] == y;
                assert(r[j + 1] == y);
            }
            if y == x {
                assert(r[0] == y);
            }
        }
        if s.no_duplicates() && !s.contains(x) {
            assert forall|a: int, b: int| 0 <= a < r.len() && 0 <= b < r.len() && a != b implies r[a] != r[b] by {
                if a > 0 && b > 0 {
                    assert(r[a] == s[a - 1] && r[b] == s[b - 1]);
                } else if a > 0 {
                    assert(r[a] == s[a - 1]);
                } else {
                    assert(r[b] == s[b - 1]);
                }
            }
        }
    } else {
        let t = s.drop_first();
        lemma_insert_pair_contents(t, x);
        let rt = insert_pair(t, x);
        assert(r == seq![s[0]] + rt);
        assert forall|y: (Seq<char>, Seq<char>)| #[trigger] r.contains(y) <==> (s.contains(y) || y == x) by {
            if r.contains(y) {
                let j = choose|j: int| 0 <= j < r.len() && r[j] == y;
                if j > 0 {
                    assert(rt[j - 1] == y);
                    assert(rt.contains(y));
                    if t.contains(y) {
                        let q = choose|q: int| 0 <= q < t.len() && t[q] == y;
                        assert(s[q + 1] == y);
                    }
                } else {
                    assert(s[0] == y);
                }
            }
            if s.contains(y) {
                let j = choose|j: int| 0 <= j < s.len() && s[j] == y;
                if j > 0 {
                    assert(t[j - 1] == y);
                    assert(t.contains(y));
                    assert(rt.contains(y));
                    let q = choose|q: int| 0 <= q < rt.len() && rt[q] == y;
                    assert(r[q + 1] == y);
                } else {
                    assert(r[0] == y);
                }
            }
            if y == x {
                assert(rt.contains(y));
                let q = choose|q: int| 0 <= q < rt.len() && rt[q] == y;
                assert(r[q + 1] == y);
            }
        }
        if s.no_duplicates() && !s.contains(x) {
            assert(t.no_duplicates()) by {
                assert forall|a: int, b: int| 0 <= a < t.len() && 0 <= b < t.len() && a != b implies t[a] != t[b] by {
                    assert(t[a] == s[a + 1] && t[b] == s[b + 1]);
                }
            }
            assert(!t.contains(x)) by {
                if t.contains(x) {
                    let q = choose|q: int| 0 <= q < t.len() && t[q] == x;
                    assert(s[q + 1] == x);
                }
            }
            assert(!rt.contains(s[0])) by {
                if rt.contains(s[0]) {
                    if t.contains(s[0]) {
                        let q = choose|q: int| 0 <= q < t.len() && t[q] == s[0];
                        assert(s[q + 1] == s[0]);
                    }
                }
            }
            assert forall|a: int, b: int| 0 <= a < r.len() && 0 <= b < r.len() && a != b implies r[a] != r[b] by {
                if a == 0 && b > 0 {
                    assert(r[b] == rt[b - 1]);
                } else if b == 0 && a > 0 {
                    assert(r[a] == rt[a - 1]);
                } else if a > 0 && b > 0 {
                    assert(r[a] == rt[a - 1] && r[b] == rt[b - 1]);
                }
            }
        }
    }
}

proof fn lemma_sort_pairs_contents(s: Seq<(Seq<char>, Seq<char>)>, k: nat)
    requires
        k <= s.len(),
    ensures
        sort_pairs(s, k).len() == k,
        forall|y: (Seq<char>, Seq<char>)| #[trigger] sort_pairs(s, k).contains(y) <==> s.take(k as int).contains(y),
        s.no_duplicates() ==> sort_pairs(s, k).no_duplicates(),
    decreases k,
{
    if k > 0 {
        lemma_sort_pairs_contents(s, (k - 1) as nat);
        let prev = sort_pairs(s, (k - 1) as nat);
        lemma_insert_pair_contents(prev, s[k - 1]);
        let a = s.take(k - 1);
        let b = s.take(k as int);
        assert(sort_pairs(s, k) == insert_pair(prev, s[k - 1]));
        assert(b =~= a.push(s[k - 1]));
        assert forall|y: (Seq<char>, Seq<char>)| #[trigger] sort_pairs(s, k).contains(y) <==> b.contains(y) by {
            assert(prev.contains(y) == a.contains(y));
            assert(insert_pair(prev, s[k - 1]).contains(y) == (prev.contains(y) || y == s[k - 1]));
            if y == s[k - 1] {
                assert(b[k - 1] == y);
            }
            if a.contains(y) {
                let j = choose|j: int| 0 <= j < a.len() && a[j] == y;
                assert(b[j] == y);
            }
            if b.contains(y) {
                let j = choose|j: int| 0 <= j < b.len() && b[j] == y;
                if j < k - 1 {
                    assert(a[j] == y);
                }
            }
        }
        if s.no_duplicates() {
            assert(!prev.contains(s[k - 1])) by {
                if a.contains(s[k - 1]) {
                    let j = choose|j: int| 0 <= j < a.len() && a[j] == s[k - 1];
                    assert(s[j] == s[k - 1]);
                }
            }
        }
    } else {
        assert(s.take(0) =~= Seq::<(Seq<char>, Seq<char>)>::empty());
    }
}

proof fn lemma_pairs_upto(g: Graph, k: nat)
    requires
        k <= g.refs().len(),
    ensures
        pairs_upto(g, k).no_duplicates(),
        forall|p: (Seq<char>, Seq<char>)| #[trigger] pairs_upto(g, k).contains(p)
            <==> exists|j: int| 0 <= j < k && cross_ref(g, j) && #[trigger] canon_pair(g, j) == p,
    decreases k,
{
    if k > 0 {
        lemma_pairs_upto(g, (k - 1) as nat);
        let prev = pairs_upto(g, (k - 1) as nat);
        let cur = pairs_upto(g, k);
        assert forall|p: (Seq<char>, Seq<char>)| #[trigger] cur.contains(p)
            <==> exists|j: int| 0 <= j < k && cross_ref(g, j) && #[trigger] canon_pair(g, j) == p by {
            if cur.contains(p) && !prev.contains(p) {
                let q = choose|q: int| 0 <= q < cur.len() && cur[q] == p;
                assert(cross_ref(g, k - 1) && canon_pair(g, k - 1) == p);
            }
            if exists|j: int| 0 <= j < k && cross_ref(g, j) && #[trigger] canon_pair(g, j) == p {
                let j = choose|j: int| 0 <= j < k && cross_ref(g, j) && #[trigger] canon_pair(g, j) == p;
                if j < k - 1 {
                    assert(prev.contains(p));
                    let q = choose|q: int| 0 <= q < prev.len() && prev[q] == p;
                    assert(cur[q] == p);
                } else if !prev.contains(p) {
                    assert(cur[prev.len() as int] == p);
                }
            }
            if prev.contains(p) {
                let q = choose|q: int| 0 <= q < prev.len() && prev[q] == p;
                assert(cur[q] == p);
            }
        }
        if cross_ref(g, k - 1) && !prev.contains(canon_pair(g, k - 1)) {
            assert forall|a: int, b: int| 0 <= a < cur.len() && 0 <= b < cur.len() && a != b implies cur[a] != cur[b] by {
                if a < prev.len() && b < prev.len() {
                    assert(cur[a] == prev[a] && cur[b] == prev[b]);
                } else if a < prev.len() {
                    assert(cur[a] == prev[a]);
                } else if b < prev.len() {
                    assert(cur[b] == prev[b]);
                }
            }
        }
    }
}

pub proof fn lemma_seq_lt_asym(a: Seq<char>, b: Seq<char>)
    ensures
        seq_lt(a, b) ==> !seq_lt(b, a),
    decreases a.len(),
{
    if a.len() > 0 && b.len() > 0 && a[0] == b[0] {
        lemma_seq_lt_asym(a.drop_first(), b.drop_first());
    }
}

proof fn lemma_pair_weight_pos(g: Graph, p: (Seq<char>, Seq<char>), k: nat, j: int)
    requires
        0 <= j < k,
        cross_ref(g, j),
        canon_pair(g, j) == p,
    ensures
        pair_weight(g, p, k) >= 1,
    decreases k,
{
    if j < k - 1 {
        lemma_pair_weight_pos(g, p, (k - 1) as nat, j);
    }
}

/// The module dependency graph holds every pair of files joined by a
/// cross-file reference exactly once, the smaller path first, each with a
/// weight of at least one.
pub proof fn law_dependency_pairs(g: Graph)
    ensures
        forall|i: int| 0 <= i < dependency_graph(g).len() ==> {
            let d = #[trigger] dependency_graph(g)[i];
            d.from != d.to && !seq_lt(d.to, d.from) && d.weight >= 1
        },
        forall|i: int, j: int| 0 <= i < dependency_graph(g).len() && 0 <= j < dependency_graph(g).len() && i != j
            ==> (#[trigger] dependency_graph(g)[i]).from != (#[trigger] dependency_graph(g)[j]).from
                || dependency_graph(g)[i].to != dependency_graph(g)[j].to,
        forall|k: int| 0 <= k < g.refs().len() && #[trigger] cross_ref(g, k) ==> exists|i: int|
            0 <= i < dependency_graph(g).len() && dependency_graph(g)[i].from == canon_pair(g, k).0
                && dependency_graph(g)[i].to == canon_pair(g, k).1,
{
    let m = g.refs().len();
    let ps = pairs_upto(g, m);
    let sp = sort_pairs(ps, ps.len());
    let deps = dependency_graph(g);
    lemma_pairs_upto(g, m);
    lemma_sort_pairs_contents(ps, ps.len());
    assert(ps.take(ps.len() as int) =~= ps);
    assert forall|i: int| 0 <= i < deps.len() implies {
        let d = #[trigger] deps[i];
        d.from != d.to && !seq_lt(d.to, d.from) && d.weight >= 1
    } by {
        assert(sp.contains(sp[i]));
        let j = choose|j: int| 0 <= j < m && cross_ref(g, j) && #[trigger] canon_pair(g, j) == sp[i];
        lemma_pair_weight_pos(g, sp[i], m, j);
        let (a, b) = ref_files(g, j);
        lemma_seq_lt_asym(b, a);
        assert(deps[i] == dependency_of(g, sp[i]));
    }
    assert forall|i: int, j: int| 0 <= i < deps.len() && 0 <= j < deps.len() && i != j
        implies (#[trigger] deps[i]).from != (#[trigger] deps[j]).from || deps[i].to != deps[j].to by {
        assert(deps[i] == dependency_of(g, sp[i]));
        assert(deps[j] == dependency_of(g, sp[j]));
        assert(sp[i] != sp[j]);
    }
    assert forall|k: int| 0 <= k < m && #[trigger] cross_ref(g, k) implies exists|i: int|
        0 <= i < deps.len() && deps[i].from == canon_pair(g, k).0 && deps[i].to == canon_pair(g, k).1 by {
        assert(ps.contains(canon_pair(g, k)));
        assert(sp.contains(canon_pair(g, k)));
        let i = choose|i: int| 0 <= i < sp.len() && sp[i] == canon_pair(g, k);
        assert(deps[i] == dependency_of(g, sp[i]));
    }
}

pub proof fn lemma_seq_lt_total(a: Seq<char>, b: Seq<char>)
    ensures
        a != b ==> seq_lt(a, b) || seq_lt(b, a),
    decreases a.len(),
{
    if a.len() > 0 && b.len() > 0 && a[0] == b[0] {
        lemma_seq_lt_total(a.drop_first(), b.drop_first());
        if a != b {
            assert(a.drop_first() != b.drop_first()) by {
                if a.drop_first() == b.drop_first() {
                    assert(a =~= seq![a[0]] + a.drop_first());
                    assert(b =~= seq![b[0]] + b.drop_first());
                }
            }
        }
    } else if a.len() == 0 && b.len() == 0 {
        assert(a =~= b);
    } else if a.len() > 0 && b.len() > 0 {
        vstd::utf8::char_u32_cast(a[0], a[0] as u32);
        vstd::utf8::char_u32_cast(b[0], b[0] as u32);
    }
}

pub proof fn lemma_seq_lt_transitive(a: Seq<char>, b: Seq<char>, c: Seq<char>)
    requires
        seq_lt(a, b),
        seq_lt(b, c),
    ensures
        seq_lt(a, c),
    decreases a.len(),
{
    if a.len() > 0 && b.len() > 0 && c.len() > 0 && a[0] == b[0] && b[0] == c[0] {
        lemma_seq_lt_transitive(a.drop_first(), b.drop_first(), c.drop_first());
    }
}

proof fn lemma_pair_lt_order(x: (Seq<char>, Seq<char>), y: (Seq<char>, Seq<char>), z: (Seq<char>, Seq<char>))
    ensures
        pair_lt(x, y) && pair_lt(y, z) ==> pair_lt(x, z),
        x != y ==> pair_lt(x, y) || pair_lt(y, x),
        pair_lt(x, y) ==> !pair_lt(y, x),
{
    lemma_seq_lt_total(x.0, y.0);
    lemma_seq_lt_total(x.1, y.1);
    lemma_seq_lt_asym(x.0, y.0);
    lemma_seq_lt_asym(x.1, y.1);
    if pair_lt(x, y) && pair_lt(y, z) {
        if seq_lt(x.0, y.0) && seq_lt(y.0, z.0) {
            lemma_seq_lt_transitive(x.0, y.0, z.0);
        }
        if x.0 == y.0 && y.0 == z.0 {
            lemma_seq_lt_transitive(x.1, y.1, z.1);
        }
    }
}

/// `s` is strictly ascending in (from, to) order.
pub open spec fn pairs_ascending(s: Seq<(Seq<char>, Seq<char>)>) -> bool {
    forall|i: int, j: int| 0 <= i < j < s.len() ==> pair_lt(#[trigger] s[i], #[trigger] s[j])
}

proof fn lemma_insert_pair_ascending(s: Seq<(Seq<char>, Seq<char>)>, x: (Seq<char>, Seq<char>))
    requires
        pairs_ascending(s),
        !s.contains(x),
    ensures
        pairs_ascending(insert_pair(s, x)),
    decreases s.len(),
{
    let r = insert_pair(s, x);
    if s.len() == 0 {
        assert(r =~= seq![x]);
    } else if pair_lt(x, s[0]) {
        assert(r =~= seq![x] + s);
        assert forall|i: int, j: int| 0 <= i < j < r.len() implies pair_lt(#[trigger] r[i], #[trigger] r[j]) by {
            if i == 0 {
                if j > 1 {
                    lemma_pair_lt_order(x, s[0], s[j - 1]);
                }
            } else {
                assert(r[i] == s[i - 1] && r[j] == s[j - 1]);
            }
        }
    } else {
        let t = s.drop_first();
        assert(!t.contains(x)) by {
            if t.contains(x) {
                let k = choose|k: int| 0 <= k < t.len() && t[k] == x;
                assert(s[k + 1] == x);
            }
        }
        assert(pairs_ascending(t)) by {
            assert forall|i: int, j: int| 0 <= i < j < t.len() implies pair_lt(#[trigger] t[i], #[trigger] t[j]) by {
                assert(t[i] == s[i + 1] && t[j] == s[j + 1]);
            }
        }
        lemma_insert_pair_ascending(t, x);
        lemma_insert_pair_contents(t, x);
        let q = insert_pair(t, x);
        assert(r =~= seq![s[0]] + q);
        assert(x != s[0]);
        lemma_pair_lt_order(s[0], x, x);
        assert forall|i: int, j: int| 0 <= i < j < r.len() implies pair_lt(#[trigger] r[i], #[trigger] r[j]) by {
            if i == 0 {
                assert(r[j] == q[j - 1]);
                assert(q.contains(q[j - 1]));
                if q[j - 1] != x {
                    assert(t.contains(q[j - 1]));
                    let k = choose|k: int| 0 <= k < t.len() && t[k] == q[j - 1];
                    assert(s[k + 1] == t[k]);
                }
            } else {
                assert(r[i] == q[i - 1] && r[j] == q[j - 1]);
            }
        }
    }
}

proof fn lemma_sort_pairs_ascending(s: Seq<(Seq<char>, Seq<char>)>, k: nat)
    requires
        k <= s.len(),
        s.no_duplicates(),
    ensures
        pairs_ascending(sort_pairs(s, k)),
    decreases k,
{
    if k > 0 {
        lemma_sort_pairs_ascending(s, (k - 1) as nat);
        lemma_sort_pairs_contents(s, (k - 1) as nat);
        let prev = sort_pairs(s, (k - 1) as nat);
        assert(!prev.contains(s[k - 1])) by {
            if prev.contains(s[k - 1]) {
                let t = s.take(k - 1);
                assert(t.contains(s[k - 1]));
                let q = choose|q: int| 0 <= q < t.len() && #[trigger] t[q] == s[k - 1];
                assert(s[q] == s[k - 1]);
            }
        }
        lemma_insert_pair_ascending(prev, s[k - 1]);
    }
}

/// The module dependency graph is sorted: its entries come in strictly
/// ascending (from, to) order. Each entry's weight counts the cross-file
/// references joining its two files in either direction; it is
/// Bidirectional exactly when each file references the other; and every
/// entry comes from some cross-file reference.
pub proof fn law_dependency_order_and_weights(g: Graph)
    ensures
        forall|i: int, j: int| 0 <= i < j < dependency_graph(g).len() ==> pair_lt(
            ((#[trigger] dependency_graph(g)[i]).from, dependency_graph(g)[i].to),
            ((#[trigger] dependency_graph(g)[j]).from, dependency_graph(g)[j].to),
        ),
        forall|i: int| 0 <= i < dependency_graph(g).len() ==> {
            let d = #[trigger] dependency_graph(g)[i];
            &&& d.weight == pair_weight(g, (d.from, d.to), g.refs().len())
            &&& (d.direction == DependencyDirection::Bidirectional <==> refers(g, d.from, d.to) && refers(g, d.to, d.from))
            &&& exists|k: int| 0 <= k < g.refs().len() && cross_ref(g, k) && #[trigger] canon_pair(g, k) == (d.from, d.to)
        },
{
    let m = g.refs().len();
    let ps = pairs_upto(g, m);
    let sp = sort_pairs(ps, ps.len());
    let deps = dependency_graph(g);
    lemma_pairs_upto(g, m);
    lemma_sort_pairs_contents(ps, ps.len());
    lemma_sort_pairs_ascending(ps, ps.len());
    assert(ps.take(ps.len() as int) =~= ps);
    assert forall|i: int, j: int| 0 <= i < j < deps.len() implies pair_lt(
        ((#[trigger] deps[i]).from, deps[i].to),
        ((#[trigger] deps[j]).from, deps[j].to),
    ) by {
        assert(deps[i] == dependency_of(g, sp[i]));
        assert(deps[j] == dependency_of(g, sp[j]));
        assert(pair_lt(sp[i], sp[j]));
    }
    assert forall|i: int| 0 <= i < deps.len() implies {
        let d = #[trigger] deps[i];
        &&& d.weight == pair_weight(g, (d.from, d.to), m)
        &&& (d.direction == DependencyDirection::Bidirectional <==> refers(g, d.from, d.to) && refers(g, d.to, d.from))
        &&& exists|k: int| 0 <= k < m && cross_ref(g, k) && #[trigger] canon_pair(g, k) == (d.from, d.to)
    } by {
        assert(deps[i] == dependency_of(g, sp[i]));
        assert((deps[i].from, deps[i].to) == sp[i]);
        assert(sp.contains(sp[i]));
        assert(ps.contains(sp[i]));
    }
}

} // verus!
