//! Contract mismatch detection — interface says one thing, implementation
//! says another.
//!
//! Phase 1 (High confidence) checks Python decorator rules: a
//! `@staticmethod` must not take `self`, a `@classmethod` takes `cls` (or
//! `klass`, `class_`, `mcls`) first, a `@property` takes only `self`.
//! Phase 2 (Moderate confidence) reports same-name functions of one
//! language whose definitions have different parameter counts; dunders,
//! tests, imports, variadic signatures and unknown languages are skipped,
//! and Rust definitions count only within a single file.

use vstd::prelude::*;

use crate::diagnostic::{
    diag_views, Confidence, Diagnostic, DiagnosticPattern, DiagnosticView, Evidence, EvidenceView,
    Severity,
};
use crate::path::{path_name, path_name_exec};
use crate::extraction::string_views;
use crate::graph::Graph;
use crate::ir::{has_annotation, Symbol, SymbolKind};
use crate::patterns::common::{
    char_views, gathered, kept, lemma_concat_contains, lemma_gathered_members, lemma_kept_members, loc,
    push_diag, symbol_location,
};
use crate::text::{
    chars_eq, chars_of, dec, ends_with, find_char, first_index_of, has_prefix, has_suffix,
    index_from, join, last_index_of, lemma_index_from, lemma_last_index_bounds, push_chars,
    push_joined, push_str, push_usize, rfind_char, slice_chars, starts_with, string_of, trim,
    trim_chars,
};

verus! {

broadcast use vstd::seq_lib::group_seq_properties;

/// The position of the bracket closing the group opened before `k`, at
/// nesting `depth`: `(` and `[` open, `)` and `]` close.
pub open spec fn close_from(s: Seq<char>, k: int, depth: int) -> Option<int>
    decreases s.len() - k,
{
    if k < 0 || k >= s.len() {
        None
    } else {
        let c = s[k];
        if c == '(' || c == '[' {
            close_from(s, k + 1, depth + 1)
        } else if c == ')' || c == ']' {
            if depth - 1 == 0 {
                Some(k)
            } else {
                close_from(s, k + 1, depth - 1)
            }
        } else {
            close_from(s, k + 1, depth)
        }
    }
}

/// The name part of one parameter: the text before `:` (type annotation)
/// or else before `=` (default value), trimmed.
pub open spec fn param_name(param: Seq<char>) -> Seq<char> {
    let t = trim(param);
    if t.len() == 0 {
        seq![]
    } else if first_index_of(t, ':') >= 0 {
        trim(t.take(first_index_of(t, ':')))
    } else if first_index_of(t, '=') >= 0 {
        trim(t.take(first_index_of(t, '=')))
    } else {
        trim(t)
    }
}

/// `ps` with the name of `piece` appended when that name is not empty.
pub open spec fn add_param(ps: Seq<Seq<char>>, piece: Seq<char>) -> Seq<Seq<char>> {
    if param_name(trim(piece)).len() > 0 {
        ps.push(param_name(trim(piece)))
    } else {
        ps
    }
}

/// State after reading the first `k` characters of a parameter list: the
/// names of the completed parameters, the text of the current one, and
/// the bracket depth. Commas split only at depth 0.
pub open spec fn split_upto(sec: Seq<char>, k: nat) -> (Seq<Seq<char>>, Seq<char>, int)
    decreases k,
{
    if k == 0 || k > sec.len() {
        (seq![], seq![], 0)
    } else {
        let (ps, cur, d) = split_upto(sec, (k - 1) as nat);
        let c = sec[k - 1];
        if c == '[' || c == '(' {
            (ps, cur.push(c), d + 1)
        } else if c == ']' || c == ')' {
            (ps, cur.push(c), d - 1)
        } else if c == ',' && d == 0 {
            (add_param(ps, cur), seq![], d)
        } else {
            (ps, cur.push(c), d)
        }
    }
}

/// The parameter names of a signature: the text between the first `(` and
/// its matching close bracket (nothing when none matches), split at
/// top-level commas, each reduced to its name; empty names are dropped.
pub open spec fn params_of(sig: Seq<char>) -> Seq<Seq<char>> {
    let o = first_index_of(sig, '(');
    if o < 0 {
        seq![]
    } else {
        let start = o + 1;
        let end = match close_from(sig, start, 1) {
            Some(e) => e,
            None => start,
        };
        let sec = sig.subrange(start, end);
        if trim(sec).len() == 0 {
            seq![]
        } else {
            let st = split_upto(sec, sec.len());
            add_param(st.0, st.1)
        }
    }
}

/// A signature with a `*args` or `**kwargs` parameter.
pub open spec fn variadic(sig: Seq<char>) -> bool {
    exists|i: int| 0 <= i < params_of(sig).len() && starts_with(#[trigger] params_of(sig)[i], "*"@)
}

/// The extension of a path's file name: the text after its last `.`, when
/// that `.` is not the name's first character.
pub open spec fn extension(path: Seq<char>) -> Option<Seq<char>> {
    let name = path_name(path);
    let i = last_index_of(name, '.');
    if i <= 0 {
        None
    } else {
        Some(name.skip(i + 1))
    }
}

/// The language family of a path, by extension.
pub open spec fn language(path: Seq<char>) -> Seq<char> {
    match extension(path) {
        Some(e) => if e == "py"@ {
            "python"@
        } else if e == "rs"@ {
            "rust"@
        } else if e == "js"@ || e == "jsx"@ || e == "ts"@ || e == "tsx"@ || e == "mjs"@ || e == "cjs"@ {
            "javascript"@
        } else {
            "unknown"@
        },
        None => "unknown"@,
    }
}

/// Trims a parameter and reduces it to its name.
pub fn extract_param_name(param: &Vec<char>) -> (r: Vec<char>)
    ensures
        r@ == param_name(param@),
{
    let t = trim_chars(param);
    if t.len() == 0 {
        return Vec::new();
    }
    match find_char(&t, ':') {
        Some(i) => trim_chars(&slice_chars(&t, 0, i)),
        None => match find_char(&t, '=') {
            Some(i) => trim_chars(&slice_chars(&t, 0, i)),
            None => trim_chars(&t),
        },
    }
}

fn add_piece(ps: &mut Vec<Vec<char>>, cur: &Vec<char>)
    ensures
        char_views(final(ps)@) == add_param(char_views(old(ps)@), cur@),
{
    let p = extract_param_name(&trim_chars(cur));
    if p.len() > 0 {
        let ghost before = char_views(ps@);
        ps.push(p);
        assert(char_views(ps@) =~= before.push(p@));
    }
}

fn close_index(sig: &Vec<char>, start: usize) -> (r: Option<usize>)
    requires
        1 <= start <= sig@.len(),
    ensures
        r matches Some(e) ==> close_from(sig@, start as int, 1) == Some(e as int) && start <= e < sig@.len(),
        r is None ==> close_from(sig@, start as int, 1) is None,
{
    let mut depth: usize = 1;
    let mut k: usize = start;
    while k < sig.len()
        invariant
            1 <= start <= k <= sig@.len(),
            1 <= depth <= k - start + 1,
            close_from(sig@, start as int, 1) == close_from(sig@, k as int, depth as int),
        decreases sig@.len() - k,
    {
        let c = sig[k];
        if c == '(' || c == '[' {
            depth = depth + 1;
        } else if c == ')' || c == ']' {
            if depth == 1 {
                return Some(k);
            }
            depth = depth - 1;
        }
        k = k + 1;
    }
    None
}

/// Parses the parameter names of a signature string: type annotations and
/// default values are dropped, commas inside brackets do not separate, `*`
/// prefixes are kept, and the return type is ignored.
pub fn parse_params(signature: &str) -> (r: Vec<String>)
    ensures
        string_views(r@) == params_of(signature@),
{
    let sig = chars_of(signature);
    let slen = sig.len();
    let o = match find_char(&sig, '(') {
        Some(i) => i,
        None => return Vec::new(),
    };
    let start = o + 1;
    let end = match close_index(&sig, start) {
        Some(e) => e,
        None => start,
    };
    let sec = slice_chars(&sig, start, end);
    if trim_chars(&sec).len() == 0 {
        return Vec::new();
    }
    let mut ps: Vec<Vec<char>> = Vec::new();
    let mut cur: Vec<char> = Vec::new();
    let mut opens: usize = 0;
    let mut closes: usize = 0;
    let mut k: usize = 0;
    while k < sec.len()
        invariant
            k <= sec@.len(),
            opens <= k,
            closes <= k,
            split_upto(sec@, k as nat) == (char_views(ps@), cur@, opens - closes),
        decreases sec@.len() - k,
    {
        let c = sec[k];
        if c == '[' || c == '(' {
            cur.push(c);
            opens = opens + 1;
        } else if c == ']' || c == ')' {
            cur.push(c);
            closes = closes + 1;
        } else if c == ',' && opens == closes {
            add_piece(&mut ps, &cur);
            cur = Vec::new();
        } else {
            cur.push(c);
        }
        k = k + 1;
    }
    add_piece(&mut ps, &cur);
    let mut out: Vec<String> = Vec::new();
    let mut i: usize = 0;
    while i < ps.len()
        invariant
            i <= ps@.len(),
            string_views(out@) == char_views(ps@).take(i as int),
        decreases ps@.len() - i,
    {
        let one = string_of(&ps[i]);
        let ghost before = string_views(out@);
        out.push(one);
        assert(string_views(out@) =~= before.push(one@));
        assert(char_views(ps@).take(i + 1) =~= char_views(ps@).take(i as int).push(ps@[i as int]@));
        i = i + 1;
    }
    assert(char_views(ps@).take(ps@.len() as int) =~= char_views(ps@));
    out
}

/// Number of parameters of a signature (`self` counts).
pub fn count_params(signature: &str) -> (r: usize)
    ensures
        r == params_of(signature@).len(),
{
    parse_params(signature).len()
}

/// Whether a signature has a `*args` or `**kwargs` parameter.
pub fn is_variadic(signature: &str) -> (r: bool)
    ensures
        r == variadic(signature@),
{
    let ps = parse_params(signature);
    let star = chars_of("*");
    let mut i: usize = 0;
    while i < ps.len()
        invariant
            i <= ps@.len(),
            star@ == "*"@,
            string_views(ps@) == params_of(signature@),
            forall|j: int| 0 <= j < i ==> !starts_with(#[trigger] params_of(signature@)[j], "*"@),
        decreases ps@.len() - i,
    {
        assert(ps@[i as int]@ == params_of(signature@)[i as int]);
        if has_prefix(&chars_of(ps[i].as_str()), &star) {
            return true;
        }
        i = i + 1;
    }
    false
}

/// Determine the language family of a file path from its extension:
/// `python`, `rust`, `javascript` (`.js`, `.jsx`, `.ts`, `.tsx`, `.mjs`,
/// `.cjs`) or `unknown`.
pub fn language_from_path(path: &str) -> (r: &'static str)
    ensures
        r@ == language(path@),
{
    let p = chars_of(path);
    let name = path_name_exec(&p);
    let nlen = name.len();
    proof {
        lemma_last_index_bounds(name@, '.');
    }
    let dot = match rfind_char(&name, '.') {
        Some(i) => i,
        None => 0,
    };
    if dot == 0 {
        return "unknown";
    }
    let e = slice_chars(&name, dot + 1, name.len());
    assert(e@ =~= name@.skip(dot + 1));
    if chars_eq(&e, &chars_of("py")) {
        "python"
    } else if chars_eq(&e, &chars_of("rs")) {
        "rust"
    } else if chars_eq(&e, &chars_of("js")) || chars_eq(&e, &chars_of("jsx"))
        || chars_eq(&e, &chars_of("ts")) || chars_eq(&e, &chars_of("tsx"))
        || chars_eq(&e, &chars_of("mjs")) || chars_eq(&e, &chars_of("cjs")) {
        "javascript"
    } else {
        "unknown"
    }
}

/// A function or method.
pub open spec fn callable_kind(k: SymbolKind) -> bool {
    k == SymbolKind::Function || k == SymbolKind::Method
}

/// The symbol's signature when it is present and not empty.
pub open spec fn nonempty_sig(s: Symbol) -> Option<Seq<char>> {
    match s.signature {
        Some(sig) => if sig@.len() > 0 { Some(sig@) } else { None },
        None => None,
    }
}

/// A first parameter acceptable for a class method.
pub open spec fn cls_like(p: Seq<char>) -> bool {
    p == "cls"@ || p == "klass"@ || p == "class_"@ || p == "mcls"@
}

/// The parameters other than `self`.
pub open spec fn non_self(ps: Seq<Seq<char>>) -> Seq<Seq<char>> {
    ps.filter(|p: Seq<char>| p != "self"@)
}

/// Diagnostic for a `@staticmethod` taking `self`.
pub open spec fn static_diag(s: Symbol, sig: Seq<char>, location: Seq<char>) -> DiagnosticView {
    DiagnosticView {
        id: seq![],
        pattern: DiagnosticPattern::ContractMismatch,
        severity: Severity::Critical,
        confidence: Confidence::High,
        entity: s.name@,
        message: "Contract mismatch: @staticmethod '"@ + s.name@ + "' has 'self' as first parameter"@,
        evidence: seq![EvidenceView {
            observation: "@staticmethod '"@ + s.name@ + "' has signature '"@ + sig
                + "' with 'self' as first parameter. Static methods must not receive an instance reference."@,
            location: Some(location),
            context: Some("Python language rule: @staticmethod removes the implicit instance binding"@),
        }],
        suggestion: "Remove 'self' from the parameter list of '"@ + s.name@
            + "', or remove the @staticmethod decorator if this method needs instance access."@,
        location,
    }
}

/// Diagnostic for a `@classmethod` whose first parameter is `first`.
pub open spec fn class_diag(s: Symbol, sig: Seq<char>, first: Seq<char>, location: Seq<char>) -> DiagnosticView {
    DiagnosticView {
        id: seq![],
        pattern: DiagnosticPattern::ContractMismatch,
        severity: Severity::Critical,
        confidence: Confidence::High,
        entity: s.name@,
        message: "Contract mismatch: @classmethod '"@ + s.name@ + "' has '"@ + first
            + "' instead of 'cls' as first parameter"@,
        evidence: seq![EvidenceView {
            observation: "@classmethod '"@ + s.name@ + "' has signature '"@ + sig + "'. First parameter is '"@
                + first + "', expected 'cls' or equivalent."@,
            location: Some(location),
            context: Some("Python convention: @classmethod's first parameter should be 'cls' (or 'klass', 'class_', 'mcls')"@),
        }],
        suggestion: "Rename the first parameter of '"@ + s.name@ + "' from '"@ + first
            + "' to 'cls', or remove the @classmethod decorator."@,
        location,
    }
}

/// Diagnostic for a `@property` with the extra parameters `extra`.
pub open spec fn property_diag(s: Symbol, sig: Seq<char>, extra: Seq<Seq<char>>, location: Seq<char>) -> DiagnosticView {
    DiagnosticView {
        id: seq![],
        pattern: DiagnosticPattern::ContractMismatch,
        severity: Severity::Warning,
        confidence: Confidence::High,
        entity: s.name@,
        message: "Contract mismatch: @property '"@ + s.name@ + "' has parameters beyond 'self'"@,
        evidence: seq![EvidenceView {
            observation: "@property '"@ + s.name@ + "' has signature '"@ + sig
                + "'. Property getters must take only 'self', but found extra parameters: "@
                + join(extra, ", "@),
            location: Some(location),
            context: Some("Python descriptor protocol: @property getter takes only 'self'"@),
        }],
        suggestion: "Remove extra parameters from property getter '"@ + s.name@
            + "'. If additional arguments are needed, use a regular method instead."@,
        location,
    }
}

/// The decorator violations of one symbol: static, class, then property.
pub open spec fn decorator_diags(s: Symbol, root: Seq<char>) -> Seq<DiagnosticView> {
    match nonempty_sig(s) {
        Some(sig) => if !callable_kind(s.kind) {
            seq![]
        } else {
            let ps = params_of(sig);
            let location = loc(s.location.file@, root, s.location.line);
            let a = if has_annotation(s, "staticmethod"@) && ps.len() > 0 && ps[0] == "self"@ {
                seq![static_diag(s, sig, location)]
            } else {
                seq![]
            };
            let b = if has_annotation(s, "classmethod"@) && ps.len() > 0 && !cls_like(ps[0]) {
                seq![class_diag(s, sig, ps[0], location)]
            } else {
                seq![]
            };
            let c = if has_annotation(s, "property"@) && non_self(ps).len() > 0 {
                seq![property_diag(s, sig, non_self(ps), location)]
            } else {
                seq![]
            };
            a + b + c
        },
        None => seq![],
    }
}

/// Decorator violations of the first `n` symbols, in order.
pub open spec fn decorator_diags_upto(g: Graph, root: Seq<char>, n: nat) -> Seq<DiagnosticView>
    decreases n,
{
    if n == 0 {
        seq![]
    } else {
        decorator_diags_upto(g, root, (n - 1) as nat) + decorator_diags(g.syms()[n - 1], root)
    }
}

/// A `@staticmethod` whose first parameter is `self`.
pub open spec fn static_violation(s: Symbol) -> bool {
    &&& callable_kind(s.kind)
    &&& nonempty_sig(s) is Some
    &&& has_annotation(s, "staticmethod"@)
    &&& params_of(nonempty_sig(s)->0).len() > 0
    &&& params_of(nonempty_sig(s)->0)[0] == "self"@
}

/// A `@classmethod` whose first parameter is not a class parameter.
pub open spec fn class_violation(s: Symbol) -> bool {
    &&& callable_kind(s.kind)
    &&& nonempty_sig(s) is Some
    &&& has_annotation(s, "classmethod"@)
    &&& params_of(nonempty_sig(s)->0).len() > 0
    &&& !cls_like(params_of(nonempty_sig(s)->0)[0])
}

/// A `@property` with a parameter other than `self`.
pub open spec fn property_violation(s: Symbol) -> bool {
    &&& callable_kind(s.kind)
    &&& nonempty_sig(s) is Some
    &&& has_annotation(s, "property"@)
    &&& non_self(params_of(nonempty_sig(s)->0)).len() > 0
}

/// `d` is the finding of one of the decorator rules that `s` breaks.
pub open spec fn decorator_finding(s: Symbol, root: Seq<char>, d: DiagnosticView) -> bool {
    let sig = nonempty_sig(s)->0;
    let location = loc(s.location.file@, root, s.location.line);
    ||| static_violation(s) && d == static_diag(s, sig, location)
    ||| class_violation(s) && d == class_diag(s, sig, params_of(sig)[0], location)
    ||| property_violation(s) && d == property_diag(s, sig, non_self(params_of(sig)), location)
}

proof fn lemma_decorator_members(s: Symbol, root: Seq<char>, d: DiagnosticView)
    ensures
        decorator_diags(s, root).contains(d) <==> decorator_finding(s, root, d),
{
    if let Some(sig) = nonempty_sig(s) {
        if callable_kind(s.kind) {
            let ps = params_of(sig);
            let location = loc(s.location.file@, root, s.location.line);
            let a = if has_annotation(s, "staticmethod"@) && ps.len() > 0 && ps[0] == "self"@ {
                seq![static_diag(s, sig, location)]
            } else {
                seq![]
            };
            let b = if has_annotation(s, "classmethod"@) && ps.len() > 0 && !cls_like(ps[0]) {
                seq![class_diag(s, sig, ps[0], location)]
            } else {
                seq![]
            };
            let c = if has_annotation(s, "property"@) && non_self(ps).len() > 0 {
                seq![property_diag(s, sig, non_self(ps), location)]
            } else {
                seq![]
            };
            assert(decorator_diags(s, root) == a + b + c);
            lemma_concat_contains(a + b, c, d);
            lemma_concat_contains(a, b, d);
            assert(a.contains(d) <==> static_violation(s) && d == static_diag(s, sig, location)) by {
                if a.len() > 0 { assert(a[0] == static_diag(s, sig, location)); }
            }
            assert(b.contains(d) <==> class_violation(s) && d == class_diag(s, sig, ps[0], location)) by {
                if b.len() > 0 { assert(b[0] == class_diag(s, sig, ps[0], location)); }
            }
            assert(c.contains(d) <==> property_violation(s) && d == property_diag(s, sig, non_self(ps), location)) by {
                if c.len() > 0 { assert(c[0] == property_diag(s, sig, non_self(ps), location)); }
            }
        }
    }
}

/// The decorator outputs per symbol index.
pub open spec fn decorator_at(g: Graph, root: Seq<char>) -> spec_fn(int) -> Seq<DiagnosticView> {
    |i: int| decorator_diags(g.syms()[i], root)
}

proof fn lemma_decorators_gathered(g: Graph, root: Seq<char>, n: nat)
    ensures
        decorator_diags_upto(g, root, n) == gathered(n, decorator_at(g, root)),
    decreases n,
{
    if n > 0 {
        lemma_decorators_gathered(g, root, (n - 1) as nat);
    }
}

/// Decorator violations are reported for exactly the broken decorator
/// rules: a function or method with a non-empty signature gets a Critical
/// finding when it is a `@staticmethod` whose first parameter is `self`, a
/// Critical finding when it is a `@classmethod` whose first parameter is not
/// `cls`, `klass`, `class_` or `mcls`, and a Warning when it is a
/// `@property` with a parameter other than `self` (test files included);
/// nothing else is reported by these rules.
pub proof fn law_decorator_findings(g: Graph, root: Seq<char>)
    ensures
        forall|d: DiagnosticView|
            decorator_diags_upto(g, root, g.syms().len()).contains(d) <==> exists|i: int|
                0 <= i < g.syms().len() && decorator_finding(#[trigger] g.syms()[i], root, d),
{
    let n = g.syms().len();
    lemma_decorators_gathered(g, root, n);
    lemma_gathered_members(n, decorator_at(g, root));
    assert forall|d: DiagnosticView|
        decorator_diags_upto(g, root, n).contains(d) <==> exists|i: int|
            0 <= i < n && decorator_finding(#[trigger] g.syms()[i], root, d) by {
        if decorator_diags_upto(g, root, n).contains(d) {
            let i = choose|i: int| 0 <= i < n && (#[trigger] decorator_at(g, root)(i)).contains(d);
            lemma_decorator_members(g.syms()[i], root, d);
        }
        if exists|i: int| 0 <= i < n && decorator_finding(#[trigger] g.syms()[i], root, d) {
            let i = choose|i: int| 0 <= i < n && decorator_finding(#[trigger] g.syms()[i], root, d);
            lemma_decorator_members(g.syms()[i], root, d);
            assert(decorator_at(g, root)(i).contains(d));
        }
    }
}

/// The `i`-th symbol takes part in the cross-file arity comparison.
pub open spec fn arity_candidate(g: Graph, i: int) -> bool {
    let s = g.syms()[i];
    &&& callable_kind(s.kind)
    &&& !(starts_with(s.name@, "__"@) && ends_with(s.name@, "__"@))
    &&& !starts_with(s.name@, "test_"@)
    &&& !has_annotation(s, "import"@)
    &&& nonempty_sig(s) is Some
    &&& !variadic(nonempty_sig(s)->0)
    &&& language(s.location.file@) != "unknown"@
}

/// Candidates `i` and `j` fall in the same (language, name) group.
pub open spec fn same_group(g: Graph, i: int, j: int) -> bool {
    &&& language(g.syms()[i].location.file@) == language(g.syms()[j].location.file@)
    &&& g.syms()[i].name@ == g.syms()[j].name@
}

/// Candidate `i` is the first of its group.
pub open spec fn group_leader(g: Graph, i: int) -> bool {
    &&& arity_candidate(g, i)
    &&& forall|j: int| 0 <= j < i && #[trigger] arity_candidate(g, j) ==> !same_group(g, i, j)
}

/// Indices of the first `n` symbols in the group of candidate `i`, in order.
pub open spec fn members_upto(g: Graph, i: int, n: nat) -> Seq<int>
    decreases n,
{
    if n == 0 {
        seq![]
    } else if arity_candidate(g, n - 1) && same_group(g, i, n - 1) {
        members_upto(g, i, (n - 1) as nat).push(n - 1)
    } else {
        members_upto(g, i, (n - 1) as nat)
    }
}

/// Parameter count of symbol `j` (a candidate, so it has a signature).
pub open spec fn arity(g: Graph, j: int) -> nat {
    params_of(nonempty_sig(g.syms()[j])->0).len()
}

/// `count params at file:line` for each member.
pub open spec fn arity_details(g: Graph, root: Seq<char>, ms: Seq<int>) -> Seq<Seq<char>> {
    ms.map_values(|j: int| dec(arity(g, j)) + " params at "@
        + loc(g.syms()[j].location.file@, root, g.syms()[j].location.line))
}

/// The group of leader `i` is reported: two or more members, all in one
/// file for Rust, and some count differing from the first.
pub open spec fn group_reported(g: Graph, i: int) -> bool {
    let ms = members_upto(g, i, g.syms().len());
    &&& ms.len() >= 2
    &&& (language(g.syms()[i].location.file@) == "rust"@ ==> forall|k: int|
        0 <= k < ms.len() ==> g.syms()[#[trigger] ms[k]].location.file@ == g.syms()[ms[0]].location.file@)
    &&& exists|k: int| 0 <= k < ms.len() && arity(g, #[trigger] ms[k]) != arity(g, ms[0])
}

/// Diagnostic for the group of leader `i`.
pub open spec fn arity_diag(g: Graph, root: Seq<char>, i: int) -> DiagnosticView {
    let ms = members_upto(g, i, g.syms().len());
    let name = g.syms()[i].name@;
    let primary = loc(g.syms()[ms[0]].location.file@, root, g.syms()[ms[0]].location.line);
    DiagnosticView {
        id: seq![],
        pattern: DiagnosticPattern::ContractMismatch,
        severity: Severity::Warning,
        confidence: Confidence::Moderate,
        entity: name,
        message: "Contract mismatch: function '"@ + name + "' defined with different parameter counts across files"@,
        evidence: seq![EvidenceView {
            observation: "Function '"@ + name + "' has inconsistent signatures: "@
                + join(arity_details(g, root, ms), ", "@),
            location: Some(primary),
            context: Some("Same-name functions with different parameter counts across files create contract ambiguity"@),
        }],
        suggestion: "Verify that all definitions of '"@ + name
            + "' should have different parameter counts. If they serve different purposes, consider distinct names. If one is outdated, update its signature."@,
        location: primary,
    }
}

/// Which symbols lead a reported arity group, as a predicate on indices.
pub open spec fn arity_keep(g: Graph) -> spec_fn(int) -> bool {
    |i: int| group_leader(g, i) && group_reported(g, i)
}

/// The arity finding of the group led by the `i`-th symbol.
pub open spec fn arity_make(g: Graph, root: Seq<char>) -> spec_fn(int) -> DiagnosticView {
    |i: int| arity_diag(g, root, i)
}

proof fn lemma_arity_kept(g: Graph, root: Seq<char>, n: nat)
    ensures
        arity_diags_upto(g, root, n) == gathered(n, kept(arity_keep(g), arity_make(g, root))),
    decreases n,
{
    if n > 0 {
        lemma_arity_kept(g, root, (n - 1) as nat);
        assert(arity_diags_upto(g, root, n) =~= gathered(n, kept(arity_keep(g), arity_make(g, root))));
    }
}

proof fn lemma_same_members(g: Graph, i: int, j: int, n: nat)
    requires
        same_group(g, i, j),
    ensures
        members_upto(g, i, n) == members_upto(g, j, n),
    decreases n,
{
    if n > 0 {
        lemma_same_members(g, i, j, (n - 1) as nat);
    }
}

proof fn lemma_leader_exists(g: Graph, j: int)
    requires
        0 <= j < g.syms().len(),
        arity_candidate(g, j),
    ensures
        exists|i: int| 0 <= i <= j && #[trigger] group_leader(g, i) && same_group(g, i, j),
    decreases j,
{
    if group_leader(g, j) {
        assert(same_group(g, j, j));
    } else {
        let k = choose|k: int| 0 <= k < j && #[trigger] arity_candidate(g, k) && same_group(g, j, k);
        lemma_leader_exists(g, k);
        let i = choose|i: int| 0 <= i <= k && #[trigger] group_leader(g, i) && same_group(g, i, k);
        assert(same_group(g, i, j));
    }
}

/// Arity mismatches are reported once per (language, name) group of
/// compared callables (functions and methods that are not dunder, `test_`
/// or import symbols, with a non-empty, non-variadic signature in a file of
/// a known language): every finding belongs to a group whose first member
/// leads it and which has two or more members, all in one file for Rust,
/// with some parameter count differing; every such group has exactly one
/// finding, a Warning with Moderate confidence naming the function. Every
/// compared callable belongs to the group of a unique leader with the same
/// members.
pub proof fn law_arity_findings(g: Graph, root: Seq<char>)
    ensures
        forall|d: DiagnosticView|
            arity_diags_upto(g, root, g.syms().len()).contains(d) <==> exists|i: int|
                0 <= i < g.syms().len() && #[trigger] group_leader(g, i) && group_reported(g, i)
                    && d == arity_diag(g, root, i),
        forall|i: int, j: int|
            0 <= i < g.syms().len() && 0 <= j < g.syms().len() && #[trigger] group_leader(g, i)
                && #[trigger] group_leader(g, j) && same_group(g, i, j) ==> i == j,
        forall|j: int|
            0 <= j < g.syms().len() && #[trigger] arity_candidate(g, j) ==> exists|i: int|
                0 <= i <= j && #[trigger] group_leader(g, i) && same_group(g, i, j)
                    && members_upto(g, i, g.syms().len()) == members_upto(g, j, g.syms().len())
                    && group_reported(g, i) == group_reported(g, j),
        forall|i: int|
            0 <= i < g.syms().len() && #[trigger] group_leader(g, i) ==> {
                &&& arity_diag(g, root, i).severity == Severity::Warning
                &&& arity_diag(g, root, i).confidence == Confidence::Moderate
                &&& arity_diag(g, root, i).entity == g.syms()[i].name@
            },
{
    let n = g.syms().len();
    lemma_arity_kept(g, root, n);
    lemma_kept_members(n, arity_keep(g), arity_make(g, root));
    assert forall|d: DiagnosticView|
        arity_diags_upto(g, root, n).contains(d) <==> exists|i: int|
            0 <= i < n && #[trigger] group_leader(g, i) && group_reported(g, i)
                && d == arity_diag(g, root, i) by {
        if arity_diags_upto(g, root, n).contains(d) {
            let i = choose|i: int| 0 <= i < n && #[trigger] arity_keep(g)(i) && d == arity_make(g, root)(i);
            assert(group_leader(g, i) && group_reported(g, i));
        }
        if exists|i: int| 0 <= i < n && #[trigger] group_leader(g, i) && group_reported(g, i)
            && d == arity_diag(g, root, i) {
            let i = choose|i: int| 0 <= i < n && #[trigger] group_leader(g, i) && group_reported(g, i)
                && d == arity_diag(g, root, i);
            assert(arity_keep(g)(i) && d == arity_make(g, root)(i));
        }
    }
    assert forall|i: int, j: int|
        0 <= i < n && 0 <= j < n && #[trigger] group_leader(g, i)
            && #[trigger] group_leader(g, j) && same_group(g, i, j) implies i == j by {
        if i < j {
            assert(arity_candidate(g, i));
            assert(!same_group(g, j, i));
        } else if j < i {
            assert(arity_candidate(g, j));
            assert(!same_group(g, i, j));
        }
    }
    assert forall|j: int|
        0 <= j < n && #[trigger] arity_candidate(g, j) implies exists|i: int|
            0 <= i <= j && #[trigger] group_leader(g, i) && same_group(g, i, j)
                && members_upto(g, i, n) == members_upto(g, j, n)
                && group_reported(g, i) == group_reported(g, j) by {
        lemma_leader_exists(g, j);
        let i = choose|i: int| 0 <= i <= j && #[trigger] group_leader(g, i) && same_group(g, i, j);
        lemma_same_members(g, i, j, n);
    }
}

/// Arity-mismatch diagnostics of the groups led by the first `n` symbols.
pub open spec fn arity_diags_upto(g: Graph, root: Seq<char>, n: nat) -> Seq<DiagnosticView>
    decreases n,
{
    if n == 0 {
        seq![]
    } else if group_leader(g, n - 1) && group_reported(g, n - 1) {
        arity_diags_upto(g, root, (n - 1) as nat).push(arity_diag(g, root, n - 1))
    } else {
        arity_diags_upto(g, root, (n - 1) as nat)
    }
}

/// All contract mismatches: decorator violations, then arity mismatches.
pub open spec fn contract_mismatches(g: Graph, root: Seq<char>) -> Seq<DiagnosticView> {
    decorator_diags_upto(g, root, g.syms().len()) + arity_diags_upto(g, root, g.syms().len())
}

fn signature_of(symbol: &Symbol) -> (r: Option<&String>)
    ensures
        r matches Some(sig) ==> nonempty_sig(*symbol) == Some(sig@),
        r is None ==> nonempty_sig(*symbol) is None,
{
    match &symbol.signature {
        Some(sig) => if chars_of(sig.as_str()).len() > 0 { Some(sig) } else { None },
        None => None,
    }
}

fn is_cls_like(p: &str) -> (r: bool)
    ensures
        r == cls_like(p@),
{
    let c = chars_of(p);
    chars_eq(&c, &chars_of("cls")) || chars_eq(&c, &chars_of("klass"))
        || chars_eq(&c, &chars_of("class_")) || chars_eq(&c, &chars_of("mcls"))
}

fn extra_params(ps: &Vec<String>) -> (r: Vec<Vec<char>>)
    ensures
        char_views(r@) == non_self(string_views(ps@)),
{
    let selfc = chars_of("self");
    let mut out: Vec<Vec<char>> = Vec::new();
    let mut i: usize = 0;
    while i < ps.len()
        invariant
            i <= ps@.len(),
            selfc@ == "self"@,
            char_views(out@) == non_self(string_views(ps@).take(i as int)),
        decreases ps@.len() - i,
    {
        let p = chars_of(ps[i].as_str());
        let ghost before = char_views(out@);
        assert(string_views(ps@).take(i + 1) =~= string_views(ps@).take(i as int).push(p@));
        proof {
            string_views(ps@).take(i as int).lemma_filter_push(p@, |q: Seq<char>| q != "self"@);
        }
        if !chars_eq(&p, &selfc) {
            out.push(p);
            assert(char_views(out@) =~= before.push(p@));
        }
        i = i + 1;
    }
    assert(string_views(ps@).take(ps@.len() as int) =~= string_views(ps@));
    out
}

fn static_build(symbol: &Symbol, sig: &String, location: &String) -> (d: Diagnostic)
    ensures
        d@ == static_diag(*symbol, sig@, location@),
{
    let name = symbol.name.as_str();
    let mut message = String::new();
    push_str(&mut message, "Contract mismatch: @staticmethod '");
    push_str(&mut message, name);
    push_str(&mut message, "' has 'self' as first parameter");
    let mut observation = String::new();
    push_str(&mut observation, "@staticmethod '");
    push_str(&mut observation, name);
    push_str(&mut observation, "' has signature '");
    push_str(&mut observation, sig.as_str());
    push_str(&mut observation, "' with 'self' as first parameter. Static methods must not receive an instance reference.");
    let mut suggestion = String::new();
    push_str(&mut suggestion, "Remove 'self' from the parameter list of '");
    push_str(&mut suggestion, name);
    push_str(&mut suggestion, "', or remove the @staticmethod decorator if this method needs instance access.");
    let mut context = String::new();
    push_str(&mut context, "Python language rule: @staticmethod removes the implicit instance binding");
    let ev = Evidence { observation, location: Some(location.clone()), context: Some(context) };
    let d = Diagnostic {
        id: String::new(),
        pattern: DiagnosticPattern::ContractMismatch,
        severity: Severity::Critical,
        confidence: Confidence::High,
        entity: symbol.name.clone(),
        message,
        evidence: vec![ev],
        suggestion,
        location: location.clone(),
    };
    let ghost want = static_diag(*symbol, sig@, location@);
    assert(d@.evidence =~= seq![ev@]);
    assert(d@.message =~= want.message);
    assert(d@.suggestion =~= want.suggestion);
    assert(ev@.observation =~= want.evidence[0].observation);
    assert(ev@.context =~= want.evidence[0].context);
    d
}

fn class_build(symbol: &Symbol, sig: &String, first: &String, location: &String) -> (d: Diagnostic)
    ensures
        d@ == class_diag(*symbol, sig@, first@, location@),
{
    let name = symbol.name.as_str();
    let mut message = String::new();
    push_str(&mut message, "Contract mismatch: @classmethod '");
    push_str(&mut message, name);
    push_str(&mut message, "' has '");
    push_str(&mut message, first.as_str());
    push_str(&mut message, "' instead of 'cls' as first parameter");
    let mut observation = String::new();
    push_str(&mut observation, "@classmethod '");
    push_str(&mut observation, name);
    push_str(&mut observation, "' has signature '");
    push_str(&mut observation, sig.as_str());
    push_str(&mut observation, "'. First parameter is '");
    push_str(&mut observation, first.as_str());
    push_str(&mut observation, "', expected 'cls' or equivalent.");
    let mut suggestion = String::new();
    push_str(&mut suggestion, "Rename the first parameter of '");
    push_str(&mut suggestion, name);
    push_str(&mut suggestion, "' from '");
    push_str(&mut suggestion, first.as_str());
    push_str(&mut suggestion, "' to 'cls', or remove the @classmethod decorator.");
    let mut context = String::new();
    push_str(&mut context, "Python convention: @classmethod's first parameter should be 'cls' (or 'klass', 'class_', 'mcls')");
    let ev = Evidence { observation, location: Some(location.clone()), context: Some(context) };
    let d = Diagnostic {
        id: String::new(),
        pattern: DiagnosticPattern::ContractMismatch,
        severity: Severity::Critical,
        confidence: Confidence::High,
        entity: symbol.name.clone(),
        message,
        evidence: vec![ev],
        suggestion,
        location: location.clone(),
    };
    let ghost want = class_diag(*symbol, sig@, first@, location@);
    assert(d@.evidence =~= seq![ev@]);
    assert(d@.message =~= want.message);
    assert(d@.suggestion =~= want.suggestion);
    assert(ev@.observation =~= want.evidence[0].observation);
    assert(ev@.context =~= want.evidence[0].context);
    d
}

fn property_build(symbol: &Symbol, sig: &String, extra: &Vec<Vec<char>>, location: &String) -> (d: Diagnostic)
    ensures
        d@ == property_diag(*symbol, sig@, char_views(extra@), location@),
{
    let name = symbol.name.as_str();
    let mut message = String::new();
    push_str(&mut message, "Contract mismatch: @property '");
    push_str(&mut message, name);
    push_str(&mut message, "' has parameters beyond 'self'");
    let mut observation = String::new();
    push_str(&mut observation, "@property '");
    push_str(&mut observation, name);
    push_str(&mut observation, "' has signature '");
    push_str(&mut observation, sig.as_str());
    push_str(&mut observation, "'. Property getters must take only 'self', but found extra parameters: ");
    push_joined(&mut observation, extra, ", ");
    let mut suggestion = String::new();
    push_str(&mut suggestion, "Remove extra parameters from property getter '");
    push_str(&mut suggestion, name);
    push_str(&mut suggestion, "'. If additional arguments are needed, use a regular method instead.");
    let mut context = String::new();
    push_str(&mut context, "Python descriptor protocol: @property getter takes only 'self'");
    let ev = Evidence { observation, location: Some(location.clone()), context: Some(context) };
    let d = Diagnostic {
        id: String::new(),
        pattern: DiagnosticPattern::ContractMismatch,
        severity: Severity::Warning,
        confidence: Confidence::High,
        entity: symbol.name.clone(),
        message,
        evidence: vec![ev],
        suggestion,
        location: location.clone(),
    };
    let ghost want = property_diag(*symbol, sig@, char_views(extra@), location@);
    assert(char_views(extra@) =~= extra@.map_values(|p: Vec<char>| p@));
    assert(d@.evidence =~= seq![ev@]);
    assert(d@.message =~= want.message);
    assert(d@.suggestion =~= want.suggestion);
    assert(ev@.observation =~= want.evidence[0].observation);
    assert(ev@.context =~= want.evidence[0].context);
    d
}

fn detect_decorator_violations(symbol: &Symbol, project_root: &str, out: &mut Vec<Diagnostic>)
    ensures
        diag_views(final(out)@) == diag_views(old(out)@) + decorator_diags(*symbol, project_root@),
{
    let ghost base = diag_views(out@);
    if symbol.kind != SymbolKind::Method && symbol.kind != SymbolKind::Function {
        assert(base + decorator_diags(*symbol, project_root@) =~= base);
        return;
    }
    let sig = match signature_of(symbol) {
        Some(s) => s,
        None => {
            assert(base + decorator_diags(*symbol, project_root@) =~= base);
            return;
        },
    };
    let params = parse_params(sig.as_str());
    let ghost ps = params_of(sig@);
    let location = symbol_location(symbol, project_root);
    let ghost a: Seq<DiagnosticView> = seq![];
    if symbol.has_annotation("staticmethod") && params.len() > 0
        && chars_eq(&chars_of(params[0].as_str()), &chars_of("self")) {
        assert(params@[0]@ == ps[0]);
        push_diag(out, static_build(symbol, sig, &location));
        proof {
            a = seq![static_diag(*symbol, sig@, location@)];
        }
    } else {
        assert(params.len() > 0 ==> params@[0]@ == ps[0]);
    }
    assert(diag_views(out@) =~= base + a);
    let ghost b: Seq<DiagnosticView> = seq![];
    if symbol.has_annotation("classmethod") && params.len() > 0 && !is_cls_like(params[0].as_str()) {
        assert(params@[0]@ == ps[0]);
        push_diag(out, class_build(symbol, sig, &params[0], &location));
        proof {
            b = seq![class_diag(*symbol, sig@, ps[0], location@)];
        }
    } else {
        assert(params.len() > 0 ==> params@[0]@ == ps[0]);
    }
    assert(diag_views(out@) =~= base + a + b);
    let ghost c: Seq<DiagnosticView> = seq![];
    if symbol.has_annotation("property") {
        let extra = extra_params(&params);
        if extra.len() > 0 {
            push_diag(out, property_build(symbol, sig, &extra, &location));
            proof {
                c = seq![property_diag(*symbol, sig@, non_self(ps), location@)];
            }
        }
    }
    assert(diag_views(out@) =~= base + (a + b + c));
}

fn is_arity_candidate(graph: &Graph, i: usize) -> (r: bool)
    requires
        i < graph.syms().len(),
    ensures
        r == arity_candidate(*graph, i as int),
{
    let s = graph.symbol_at(i);
    if s.kind != SymbolKind::Function && s.kind != SymbolKind::Method {
        return false;
    }
    let name = chars_of(s.name.as_str());
    let dunder = chars_of("__");
    if has_prefix(&name, &dunder) && has_suffix(&name, &dunder) {
        return false;
    }
    if has_prefix(&name, &chars_of("test_")) {
        return false;
    }
    if s.has_annotation("import") {
        return false;
    }
    let sig = match signature_of(s) {
        Some(sig) => sig,
        None => return false,
    };
    if is_variadic(sig.as_str()) {
        return false;
    }
    let lang = language_from_path(s.location.file.as_str());
    !chars_eq(&chars_of(lang), &chars_of("unknown"))
}

fn is_same_group(graph: &Graph, i: usize, j: usize) -> (r: bool)
    requires
        i < graph.syms().len(),
        j < graph.syms().len(),
    ensures
        r == same_group(*graph, i as int, j as int),
{
    let a = graph.symbol_at(i);
    let b = graph.symbol_at(j);
    chars_eq(&chars_of(language_from_path(a.location.file.as_str())), &chars_of(language_from_path(b.location.file.as_str())))
        && chars_eq(&chars_of(a.name.as_str()), &chars_of(b.name.as_str()))
}

fn is_group_leader(graph: &Graph, i: usize) -> (r: bool)
    requires
        i < graph.syms().len(),
    ensures
        r == group_leader(*graph, i as int),
{
    if !is_arity_candidate(graph, i) {
        return false;
    }
    let mut j: usize = 0;
    while j < i
        invariant
            i < graph.syms().len(),
            j <= i,
            forall|k: int| 0 <= k < j && #[trigger] arity_candidate(*graph, k) ==> !same_group(*graph, i as int, k),
        decreases i - j,
    {
        if is_arity_candidate(graph, j) && is_same_group(graph, i, j) {
            return false;
        }
        j = j + 1;
    }
    true
}

fn group_members(graph: &Graph, i: usize) -> (r: Vec<usize>)
    requires
        i < graph.syms().len(),
    ensures
        r@.map_values(|j: usize| j as int) == members_upto(*graph, i as int, graph.syms().len()),
        forall|k: int| 0 <= k < r@.len() ==> r@[k] < graph.syms().len() && arity_candidate(*graph, #[trigger] r@[k] as int),
{
    let n = graph.symbol_count();
    let mut out: Vec<usize> = Vec::new();
    let mut j: usize = 0;
    while j < n
        invariant
            n == graph.syms().len(),
            i < n,
            j <= n,
            out@.map_values(|x: usize| x as int) == members_upto(*graph, i as int, j as nat),
            forall|k: int| 0 <= k < out@.len() ==> out@[k] < n && arity_candidate(*graph, #[trigger] out@[k] as int),
        decreases n - j,
    {
        if is_arity_candidate(graph, j) && is_same_group(graph, i, j) {
            let ghost before = out@;
            out.push(j);
            assert(out@.map_values(|x: usize| x as int) =~= before.map_values(|x: usize| x as int).push(j as int));
        }
        j = j + 1;
    }
    out
}

fn arity_of(graph: &Graph, j: usize) -> (r: usize)
    requires
        j < graph.syms().len(),
        arity_candidate(*graph, j as int),
    ensures
        r == arity(*graph, j as int),
{
    match signature_of(graph.symbol_at(j)) {
        Some(sig) => count_params(sig.as_str()),
        None => 0,
    }
}

fn arity_build(graph: &Graph, project_root: &str, i: usize, ms: &Vec<usize>) -> (d: Diagnostic)
    requires
        i < graph.syms().len(),
        ms@.len() >= 1,
        ms@.map_values(|j: usize| j as int) == members_upto(*graph, i as int, graph.syms().len()),
        forall|k: int| 0 <= k < ms@.len() ==> ms@[k] < graph.syms().len() && arity_candidate(*graph, #[trigger] ms@[k] as int),
    ensures
        d@ == arity_diag(*graph, project_root@, i as int),
{
    let ghost msi = members_upto(*graph, i as int, graph.syms().len());
    let mut details: Vec<Vec<char>> = Vec::new();
    let mut k: usize = 0;
    while k < ms.len()
        invariant
            k <= ms@.len(),
            msi == ms@.map_values(|j: usize| j as int),
            forall|q: int| 0 <= q < ms@.len() ==> ms@[q] < graph.syms().len() && arity_candidate(*graph, #[trigger] ms@[q] as int),
            details@.map_values(|p: Vec<char>| p@) == arity_details(*graph, project_root@, msi.take(k as int)),
        decreases ms@.len() - k,
    {
        let j = ms[k];
        let mut s = String::new();
        push_usize(&mut s, arity_of(graph, j));
        push_str(&mut s, " params at ");
        let l = symbol_location(graph.symbol_at(j), project_root);
        push_str(&mut s, l.as_str());
        let ghost before = details@.map_values(|p: Vec<char>| p@);
        let piece = chars_of(s.as_str());
        details.push(piece);
        assert(msi[k as int] == j as int);
        assert(msi.take(k + 1) =~= msi.take(k as int).push(j as int));
        assert(piece@ == dec(arity(*graph, j as int)) + " params at "@
            + loc(graph.syms()[j as int].location.file@, project_root@, graph.syms()[j as int].location.line));
        assert(arity_details(*graph, project_root@, msi.take(k + 1)) =~= arity_details(*graph, project_root@, msi.take(k as int)).push(piece@));
        assert(details@.map_values(|p: Vec<char>| p@) =~= before.push(piece@));
        assert(details@.map_values(|p: Vec<char>| p@) =~= arity_details(*graph, project_root@, msi.take(k + 1)));
        k = k + 1;
    }
    assert(msi.take(ms@.len() as int) =~= msi);
    let primary = symbol_location(graph.symbol_at(ms[0]), project_root);
    let name = graph.symbol_at(i).name.as_str();
    let mut message = String::new();
    push_str(&mut message, "Contract mismatch: function '");
    push_str(&mut message, name);
    push_str(&mut message, "' defined with different parameter counts across files");
    let mut observation = String::new();
    push_str(&mut observation, "Function '");
    push_str(&mut observation, name);
    push_str(&mut observation, "' has inconsistent signatures: ");
    push_joined(&mut observation, &details, ", ");
    let mut suggestion = String::new();
    push_str(&mut suggestion, "Verify that all definitions of '");
    push_str(&mut suggestion, name);
    push_str(&mut suggestion, "' should have different parameter counts. If they serve different purposes, consider distinct names. If one is outdated, update its signature.");
    let mut context = String::new();
    push_str(&mut context, "Same-name functions with different parameter counts across files create contract ambiguity");
    let ev = Evidence { observation, location: Some(primary.clone()), context: Some(context) };
    let d = Diagnostic {
        id: String::new(),
        pattern: DiagnosticPattern::ContractMismatch,
        severity: Severity::Warning,
        confidence: Confidence::Moderate,
        entity: graph.symbol_at(i).name.clone(),
        message,
        evidence: vec![ev],
        suggestion,
        location: primary,
    };
    let ghost want = arity_diag(*graph, project_root@, i as int);
    assert(msi[0] == ms@[0] as int);
    assert(d@.evidence =~= seq![ev@]);
    assert(d@.message =~= want.message);
    assert(d@.suggestion =~= want.suggestion);
    assert(ev@.observation =~= want.evidence[0].observation);
    assert(ev@.context =~= want.evidence[0].context);
    d
}

fn is_reported(graph: &Graph, i: usize, ms: &Vec<usize>) -> (r: bool)
    requires
        i < graph.syms().len(),
        ms@.map_values(|j: usize| j as int) == members_upto(*graph, i as int, graph.syms().len()),
        forall|k: int| 0 <= k < ms@.len() ==> ms@[k] < graph.syms().len() && arity_candidate(*graph, #[trigger] ms@[k] as int),
    ensures
        r == group_reported(*graph, i as int),
{
    let ghost msi = members_upto(*graph, i as int, graph.syms().len());
    assert(msi.len() == ms@.len());
    if ms.len() < 2 {
        return false;
    }
    assert(msi[0] == ms@[0] as int);
    let lang = language_from_path(graph.symbol_at(i).location.file.as_str());
    if chars_eq(&chars_of(lang), &chars_of("rust")) {
        let f0 = chars_of(graph.symbol_at(ms[0]).location.file.as_str());
        let mut k: usize = 0;
        while k < ms.len()
            invariant
                k <= ms@.len(),
                i < graph.syms().len(),
                ms@.len() >= 2,
                msi == members_upto(*graph, i as int, graph.syms().len()),
                language(graph.syms()[i as int].location.file@) == "rust"@,
                msi == ms@.map_values(|j: usize| j as int),
                forall|q: int| 0 <= q < ms@.len() ==> ms@[q] < graph.syms().len(),
                f0@ == graph.syms()[msi[0]].location.file@,
                forall|q: int| 0 <= q < k ==> graph.syms()[#[trigger] msi[q]].location.file@ == graph.syms()[msi[0]].location.file@,
            decreases ms@.len() - k,
        {
            assert(msi[k as int] == ms@[k as int] as int);
            if !chars_eq(&chars_of(graph.symbol_at(ms[k]).location.file.as_str()), &f0) {
                assert(graph.syms()[msi[k as int]].location.file@ != graph.syms()[msi[0]].location.file@);
                return false;
            }
            k = k + 1;
        }
    }
    let a0 = arity_of(graph, ms[0]);
    let mut k: usize = 0;
    while k < ms.len()
        invariant
            k <= ms@.len(),
            i < graph.syms().len(),
            ms@.len() >= 2,
            msi == members_upto(*graph, i as int, graph.syms().len()),
            language(graph.syms()[i as int].location.file@) == "rust"@ ==> forall|q: int|
                0 <= q < msi.len() ==> graph.syms()[#[trigger] msi[q]].location.file@ == graph.syms()[msi[0]].location.file@,
            msi == ms@.map_values(|j: usize| j as int),
            forall|q: int| 0 <= q < ms@.len() ==> ms@[q] < graph.syms().len() && arity_candidate(*graph, #[trigger] ms@[q] as int),
            a0 == arity(*graph, msi[0]),
            forall|q: int| 0 <= q < k ==> arity(*graph, #[trigger] msi[q]) == arity(*graph, msi[0]),
        decreases ms@.len() - k,
    {
        assert(msi[k as int] == ms@[k as int] as int);
        if arity_of(graph, ms[k]) != a0 {
            assert(arity(*graph, msi[k as int]) != arity(*graph, msi[0]));
            return true;
        }
        k = k + 1;
    }
    false
}

fn detect_cross_file_arity_mismatch(graph: &Graph, project_root: &str, out: &mut Vec<Diagnostic>)
    ensures
        diag_views(final(out)@) == diag_views(old(out)@) + arity_diags_upto(*graph, project_root@, graph.syms().len()),
{
    let ghost base = diag_views(out@);
    let n = graph.symbol_count();
    let mut i: usize = 0;
    while i < n
        invariant
            n == graph.syms().len(),
            i <= n,
            diag_views(out@) == base + arity_diags_upto(*graph, project_root@, i as nat),
        decreases n - i,
    {
        if is_group_leader(graph, i) {
            let ms = group_members(graph, i);
            if is_reported(graph, i, &ms) {
                push_diag(out, arity_build(graph, project_root, i, &ms));
                assert(diag_views(out@) =~= base + arity_diags_upto(*graph, project_root@, (i + 1) as nat));
            }
        }
        i = i + 1;
    }
}

/// Detect contract mismatches: decorator contract violations (High
/// confidence) for every function and method, then same-name arity
/// mismatches (Moderate confidence), one per (language, name) group in
/// order of the group's first definition.
pub fn detect(graph: &Graph, project_root: &str) -> (r: Vec<Diagnostic>)
    ensures
        diag_views(r@) == contract_mismatches(*graph, project_root@),
{
    let mut out: Vec<Diagnostic> = Vec::new();
    let n = graph.symbol_count();
    let mut i: usize = 0;
    while i < n
        invariant
            n == graph.syms().len(),
            i <= n,
            diag_views(out@) == decorator_diags_upto(*graph, project_root@, i as nat),
        decreases n - i,
    {
        detect_decorator_violations(graph.symbol_at(i), project_root, &mut out);
        i = i + 1;
    }
    detect_cross_file_arity_mismatch(graph, project_root, &mut out);
    out
}

} // verus!
