//! Building blocks shared by the pattern detectors: file counting,
//! `file:line` locations, labels for symbol kinds and visibilities, and
//! diagnostic assembly.

use vstd::prelude::*;

use crate::diagnostic::{diag_views, Diagnostic, DiagnosticView};
use crate::patterns::exclusion::{relative_path, relativize_path};
use crate::graph::Graph;
use crate::ir::{Symbol, SymbolKind, Visibility};
use crate::text::{chars_eq, chars_of, dec, push_str, push_usize};

verus! {

broadcast use vstd::seq_lib::group_seq_properties;

/// The file of every symbol, in symbol order.
pub open spec fn files_of(syms: Seq<Symbol>) -> Seq<Seq<char>> {
    syms.map_values(|s: Symbol| s.location.file@)
}

/// Number of distinct files among the graph's symbols.
pub open spec fn file_count(g: Graph) -> nat {
    files_of(g.syms()).to_set().len()
}

/// The views of a sequence of character vectors.
pub open spec fn char_views(v: Seq<Vec<char>>) -> Seq<Seq<char>> {
    v.map_values(|x: Vec<char>| x@)
}

/// Whether `x` is among `seen`.
pub fn contains_chars(seen: &Vec<Vec<char>>, x: &Vec<char>) -> (r: bool)
    ensures
        r == char_views(seen@).contains(x@),
{
    let mut j: usize = 0;
    while j < seen.len()
        invariant
            j <= seen@.len(),
            forall|k: int| 0 <= k < j ==> seen@[k]@ != x@,
        decreases seen@.len() - j,
    {
        if chars_eq(&seen[j], x) {
            assert(char_views(seen@)[j as int] == x@);
            return true;
        }
        j = j + 1;
    }
    assert(!char_views(seen@).contains(x@)) by {
        if char_views(seen@).contains(x@) {
            let k = choose|k: int| 0 <= k < char_views(seen@).len() && char_views(seen@)[k] == x@;
            assert(seen@[k]@ == x@);
        }
    }
    false
}

/// Counts the distinct files among the graph's symbols.
pub fn count_files(graph: &Graph) -> (r: usize)
    ensures
        r == file_count(*graph),
{
    let mut seen: Vec<Vec<char>> = Vec::new();
    let n = graph.symbol_count();
    let mut i: usize = 0;
    while i < n
        invariant
            n == graph.syms().len(),
            i <= n,
            seen@.len() <= i,
            char_views(seen@).no_duplicates(),
            char_views(seen@).to_set() == files_of(graph.syms().take(i as int)).to_set(),
        decreases n - i,
    {
        let f = chars_of(graph.symbol_at(i).location.file.as_str());
        let ghost prev = char_views(seen@);
        assert(files_of(graph.syms().take(i + 1)) =~= files_of(graph.syms().take(i as int)).push(f@));
        proof {
            files_of(graph.syms().take(i as int)).lemma_push_to_set_commute(f@);
        }
        if !contains_chars(&seen, &f) {
            seen.push(f);
            assert(char_views(seen@) =~= prev.push(f@));
            proof {
                prev.lemma_push_to_set_commute(f@);
            }
        } else {
            assert(prev.to_set().insert(f@) =~= prev.to_set());
        }
        i = i + 1;
    }
    assert(graph.syms().take(n as int) =~= graph.syms());
    proof {
        char_views(seen@).unique_seq_to_set();
    }
    seen.len()
}

/// `file:line` with the file made relative to `root`.
pub open spec fn loc(file: Seq<char>, root: Seq<char>, line: u32) -> Seq<char> {
    relative_path(file, root) + ":"@ + dec(line as nat)
}

/// Location string of a symbol: relative file, colon, line.
pub fn symbol_location(symbol: &Symbol, project_root: &str) -> (r: String)
    ensures
        r@ == loc(symbol.location.file@, project_root@, symbol.location.line),
{
    let mut s = relativize_path(symbol.location.file.as_str(), project_root);
    push_str(&mut s, ":");
    push_usize(&mut s, symbol.location.line as usize);
    s
}

/// Human-readable label for a symbol kind.
pub open spec fn kind_label(kind: SymbolKind) -> Seq<char> {
    match kind {
        SymbolKind::Function => "function"@,
        SymbolKind::Method => "method"@,
        SymbolKind::Class => "class"@,
        SymbolKind::Struct => "struct"@,
        SymbolKind::Variable => "variable"@,
        SymbolKind::Constant => "constant"@,
        SymbolKind::Module => "module"@,
        SymbolKind::Trait => "trait"@,
        SymbolKind::Interface => "interface"@,
        SymbolKind::Macro => "macro"@,
        SymbolKind::Enum => "enum"@,
    }
}

/// Human-readable label for a symbol kind.
pub fn kind_label_str(kind: SymbolKind) -> (r: &'static str)
    ensures
        r@ == kind_label(kind),
{
    match kind {
        SymbolKind::Function => "function",
        SymbolKind::Method => "method",
        SymbolKind::Class => "class",
        SymbolKind::Struct => "struct",
        SymbolKind::Variable => "variable",
        SymbolKind::Constant => "constant",
        SymbolKind::Module => "module",
        SymbolKind::Trait => "trait",
        SymbolKind::Interface => "interface",
        SymbolKind::Macro => "macro",
        SymbolKind::Enum => "enum",
    }
}

/// Variant name of a symbol kind.
pub open spec fn kind_name(kind: SymbolKind) -> Seq<char> {
    match kind {
        SymbolKind::Function => "Function"@,
        SymbolKind::Method => "Method"@,
        SymbolKind::Class => "Class"@,
        SymbolKind::Struct => "Struct"@,
        SymbolKind::Variable => "Variable"@,
        SymbolKind::Constant => "Constant"@,
        SymbolKind::Module => "Module"@,
        SymbolKind::Trait => "Trait"@,
        SymbolKind::Interface => "Interface"@,
        SymbolKind::Macro => "Macro"@,
        SymbolKind::Enum => "Enum"@,
    }
}

/// Variant name of a symbol kind.
pub fn kind_name_str(kind: SymbolKind) -> (r: &'static str)
    ensures
        r@ == kind_name(kind),
{
    match kind {
        SymbolKind::Function => "Function",
        SymbolKind::Method => "Method",
        SymbolKind::Class => "Class",
        SymbolKind::Struct => "Struct",
        SymbolKind::Variable => "Variable",
        SymbolKind::Constant => "Constant",
        SymbolKind::Module => "Module",
        SymbolKind::Trait => "Trait",
        SymbolKind::Interface => "Interface",
        SymbolKind::Macro => "Macro",
        SymbolKind::Enum => "Enum",
    }
}

/// Variant name of a visibility.
pub open spec fn visibility_name(v: Visibility) -> Seq<char> {
    match v {
        Visibility::Public => "Public"@,
        Visibility::Private => "Private"@,
        Visibility::Crate => "Crate"@,
        Visibility::Protected => "Protected"@,
    }
}

/// Variant name of a visibility.
pub fn visibility_name_str(v: Visibility) -> (r: &'static str)
    ensures
        r@ == visibility_name(v),
{
    match v {
        Visibility::Public => "Public",
        Visibility::Private => "Private",
        Visibility::Crate => "Crate",
        Visibility::Protected => "Protected",
    }
}

/// The outputs of `at(0)`, ..., `at(n - 1)`, one after another.
pub open spec fn gathered(n: nat, at: spec_fn(int) -> Seq<DiagnosticView>) -> Seq<DiagnosticView>
    decreases n,
{
    if n == 0 {
        seq![]
    } else {
        gathered((n - 1) as nat, at) + at(n - 1)
    }
}

/// A diagnostic is among the gathered ones exactly when one of the first
/// `n` outputs holds it.
pub proof fn lemma_gathered_members(n: nat, at: spec_fn(int) -> Seq<DiagnosticView>)
    ensures
        forall|d: DiagnosticView|
            gathered(n, at).contains(d) <==> exists|i: int| 0 <= i < n && (#[trigger] at(i)).contains(d),
    decreases n,
{
    if n > 0 {
        lemma_gathered_members((n - 1) as nat, at);
        let a = gathered((n - 1) as nat, at);
        let b = at(n - 1);
        assert(gathered(n, at) == a + b);
        assert forall|d: DiagnosticView|
            gathered(n, at).contains(d) <==> exists|i: int| 0 <= i < n && (#[trigger] at(i)).contains(d) by {
            if (a + b).contains(d) {
                let k = choose|k: int| 0 <= k < (a + b).len() && (a + b)[k] == d;
                if k < a.len() {
                    assert(a[k] == d);
                    assert(a.contains(d));
                } else {
                    assert(b[k - a.len()] == d);
                    assert(b.contains(d));
                }
            }
            if exists|i: int| 0 <= i < n && (#[trigger] at(i)).contains(d) {
                let i = choose|i: int| 0 <= i < n && (#[trigger] at(i)).contains(d);
                if i < n - 1 {
                    assert(a.contains(d));
                    let k = choose|k: int| 0 <= k < a.len() && a[k] == d;
                    assert((a + b)[k] == d);
                } else {
                    let k = choose|k: int| 0 <= k < b.len() && b[k] == d;
                    assert((a + b)[a.len() + k] == d);
                }
            }
        }
    }
}

/// The one-diagnostic output `make(i)` where `keep(i)` holds, none elsewhere.
pub open spec fn kept(keep: spec_fn(int) -> bool, make: spec_fn(int) -> DiagnosticView) -> spec_fn(int) -> Seq<DiagnosticView> {
    |i: int| if keep(i) { seq![make(i)] } else { seq![] }
}

/// A diagnostic is among the kept ones exactly when it is `make(i)` for a
/// kept `i` below `n`.
pub proof fn lemma_kept_members(n: nat, keep: spec_fn(int) -> bool, make: spec_fn(int) -> DiagnosticView)
    ensures
        forall|d: DiagnosticView|
            gathered(n, kept(keep, make)).contains(d)
                <==> exists|i: int| 0 <= i < n && #[trigger] keep(i) && d == make(i),
{
    lemma_gathered_members(n, kept(keep, make));
    assert forall|d: DiagnosticView|
        gathered(n, kept(keep, make)).contains(d)
            <==> exists|i: int| 0 <= i < n && #[trigger] keep(i) && d == make(i) by {
        if gathered(n, kept(keep, make)).contains(d) {
            let i = choose|i: int| 0 <= i < n && (#[trigger] kept(keep, make)(i)).contains(d);
            assert(keep(i));
            let o = kept(keep, make)(i);
            assert(o == seq![make(i)]);
            let k = choose|k: int| 0 <= k < o.len() && #[trigger] o[k] == d;
            assert(d == make(i));
        }
        if exists|i: int| 0 <= i < n && #[trigger] keep(i) && d == make(i) {
            let i = choose|i: int| 0 <= i < n && #[trigger] keep(i) && d == make(i);
            assert(kept(keep, make)(i)[0] == d);
            assert(kept(keep, make)(i).contains(d));
        }
    }
}

/// An element of `a + b` is an element of `a` or of `b`.
pub proof fn lemma_concat_contains<A>(a: Seq<A>, b: Seq<A>, x: A)
    ensures
        (a + b).contains(x) <==> a.contains(x) || b.contains(x),
{
    if (a + b).contains(x) {
        let k = choose|k: int| 0 <= k < (a + b).len() && (a + b)[k] == x;
        if k < a.len() {
            assert(a[k] == x);
        } else {
            assert(b[k - a.len()] == x);
        }
    }
    if a.contains(x) {
        let k = choose|k: int| 0 <= k < a.len() && a[k] == x;
        assert((a + b)[k] == x);
    }
    if b.contains(x) {
        let k = choose|k: int| 0 <= k < b.len() && b[k] == x;
        assert((a + b)[a.len() + k] == x);
    }
}

/// Appends one diagnostic.
pub fn push_diag(out: &mut Vec<Diagnostic>, d: Diagnostic)
    ensures
        diag_views(final(out)@) == diag_views(old(out)@).push(d@),
{
    let ghost v = d@;
    out.push(d);
    assert(diag_views(out@) =~= diag_views(old(out)@).push(v));
}

/// Appends all diagnostics of `more`.
pub fn append_diags(out: &mut Vec<Diagnostic>, more: Vec<Diagnostic>)
    ensures
        diag_views(final(out)@) == diag_views(old(out)@) + diag_views(more@),
{
    let mut m = more;
    out.append(&mut m);
    assert(diag_views(out@) =~= diag_views(old(out)@) + diag_views(more@));
}

/// The distinct non-empty files of the first `n` symbols, in order of
/// first appearance.
pub open spec fn distinct_files_upto(syms: Seq<Symbol>, n: nat) -> Seq<Seq<char>>
    decreases n,
{
    if n == 0 {
        seq![]
    } else {
        let prev = distinct_files_upto(syms, (n - 1) as nat);
        let f = syms[n - 1].location.file@;
        if f.len() == 0 || prev.contains(f) {
            prev
        } else {
            prev.push(f)
        }
    }
}

/// The distinct non-empty files of the graph's symbols, in order of first
/// appearance.
pub open spec fn distinct_files(g: Graph) -> Seq<Seq<char>> {
    distinct_files_upto(g.syms(), g.syms().len())
}

/// Collects the distinct non-empty files of the graph's symbols, in order of
/// first appearance.
pub fn collect_files(graph: &Graph) -> (r: Vec<Vec<char>>)
    ensures
        char_views(r@) == distinct_files(*graph),
{
    let mut seen: Vec<Vec<char>> = Vec::new();
    let n = graph.symbol_count();
    let mut i: usize = 0;
    while i < n
        invariant
            n == graph.syms().len(),
            i <= n,
            char_views(seen@) == distinct_files_upto(graph.syms(), i as nat),
        decreases n - i,
    {
        let f = chars_of(graph.symbol_at(i).location.file.as_str());
        if f.len() > 0 && !contains_chars(&seen, &f) {
            let ghost prev = char_views(seen@);
            seen.push(f);
            assert(char_views(seen@) =~= prev.push(graph.syms()[i as int].location.file@));
        }
        i = i + 1;
    }
    seen
}

} // verus!
