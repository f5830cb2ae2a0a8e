//! Circular dependency detection — cycles in the module dependency graph.
//!
//! Modules are the files that hold symbols. A reference from a symbol of
//! one file to a symbol of another makes the first module depend on the
//! second. A depth-first search with white/gray/black colouring finds the
//! cycles; each is rotated to start at its smallest path, duplicates are
//! dropped, and every step of a cycle is backed by the first cross-module
//! reference that realises it.

use vstd::prelude::*;

use crate::diagnostic::{
    diag_views, Confidence, Diagnostic, DiagnosticPattern, DiagnosticView, Evidence, EvidenceView,
    Severity,
};
use crate::extraction::{lemma_seq_lt_asym, lemma_seq_lt_total, lemma_seq_lt_transitive, seq_lt, str_less};
use crate::graph::Graph;
use crate::path::{component, components, lemma_parts_bounds, part_views, parts, parts_exec, Part};
use crate::patterns::common::{char_views, collect_files, push_diag};
use crate::text::{chars_eq, chars_of, dec, join, push_chars, push_joined, push_str, push_usize, slice_chars};

verus! {

broadcast use vstd::seq_lib::group_seq_properties;

/// A cross-module reference: source file, target file, source symbol
/// name, target symbol name, source line.
pub type XRefView = (Seq<char>, Seq<char>, Seq<char>, Seq<char>, u32);

/// Cross-module references from symbol `i` among the first `k` references.
pub open spec fn sym_xrefs(g: Graph, i: int, k: nat) -> Seq<XRefView>
    decreases k,
{
    if k == 0 || k > g.refs().len() {
        seq![]
    } else {
        let prev = sym_xrefs(g, i, (k - 1) as nat);
        let r = g.refs()[k - 1];
        let s = g.syms()[i];
        if r.from.0 == i + 1 && g.is_symbol(r.to) && s.location.file@.len() > 0
            && g.sym(r.to).location.file@.len() > 0 && s.location.file@ != g.sym(r.to).location.file@ {
            prev.push((s.location.file@, g.sym(r.to).location.file@, s.name@, g.sym(r.to).name@, s.location.line))
        } else {
            prev
        }
    }
}

/// Cross-module references of the first `n` symbols, symbol-major, then
/// in reference order.
pub open spec fn xrefs_upto(g: Graph, n: nat) -> Seq<XRefView>
    decreases n,
{
    if n == 0 {
        seq![]
    } else {
        xrefs_upto(g, (n - 1) as nat) + sym_xrefs(g, n - 1, g.refs().len())
    }
}

/// All cross-module references of the graph.
pub open spec fn xrefs(g: Graph) -> Seq<XRefView> {
    xrefs_upto(g, g.syms().len())
}

/// Module `a` depends on module `b`.
pub open spec fn module_edge(g: Graph, a: Seq<char>, b: Seq<char>) -> bool {
    exists|k: int| 0 <= k < xrefs(g).len() && (#[trigger] xrefs(g)[k]).0 == a && xrefs(g)[k].1 == b
}

/// `ms` is a dependency cycle of two or more distinct modules, each
/// depending on the next and the last on the first.
pub open spec fn cycle_ok(g: Graph, ms: Seq<Seq<char>>) -> bool {
    &&& ms.len() >= 2
    &&& ms.no_duplicates()
    &&& forall|i: int| 0 <= i < ms.len() ==> #[trigger] module_edge(g, ms[i], ms[(i + 1) % (ms.len() as int)])
}

/// The first cross-module reference from `a` to `b` at or after position
/// `j` of `xs`.
pub open spec fn find_from(xs: Seq<XRefView>, a: Seq<char>, b: Seq<char>, j: int) -> Option<XRefView>
    decreases xs.len() - j,
{
    if j < 0 || j >= xs.len() {
        None
    } else if xs[j].0 == a && xs[j].1 == b {
        Some(xs[j])
    } else {
        find_from(xs, a, b, j + 1)
    }
}

/// The first cross-module reference from `a` to `b` in `xs`.
pub open spec fn find_xref(xs: Seq<XRefView>, a: Seq<char>, b: Seq<char>) -> Option<XRefView> {
    find_from(xs, a, b, 0)
}

/// Evidence for the step from module `a` to module `b`.
pub open spec fn step_evidence(g: Graph, a: Seq<char>, b: Seq<char>) -> EvidenceView {
    match find_xref(xrefs(g), a, b) {
        Some(r) => EvidenceView {
            observation: a + " references "@ + b + " ('"@ + r.2 + "' depends on '"@ + r.3 + "')"@,
            location: Some(r.0 + ":"@ + dec(r.4 as nat)),
            context: None,
        },
        None => EvidenceView { observation: a + " depends on "@ + b, location: None, context: None },
    }
}

/// The diagnostic for cycle `ms`.
pub open spec fn cycle_diag(g: Graph, ms: Seq<Seq<char>>) -> DiagnosticView {
    DiagnosticView {
        id: seq![],
        pattern: DiagnosticPattern::CircularDependency,
        severity: Severity::Warning,
        confidence: Confidence::High,
        entity: join(ms, ", "@),
        message: "Circular dependency: "@ + dec(ms.len()) + " modules form a dependency cycle ("@
            + join(ms, " -> "@) + ")"@,
        evidence: Seq::new(ms.len(), |i: int| step_evidence(g, ms[i], ms[(i + 1) % (ms.len() as int)])),
        suggestion: "Extract shared types into a common module that both can depend on, or restructure to eliminate the cycle."@,
        location: ms[0] + ":1"@,
    }
}

/// `d` reports a module dependency cycle.
pub open spec fn reported_cycle(g: Graph, d: DiagnosticView) -> bool {
    exists|ms: Seq<Seq<char>>| #[trigger] cycle_ok(g, ms) && d == cycle_diag(g, ms)
}

/// A cross-module reference, as computed.
pub struct XRef {
    pub from_file: Vec<char>,
    pub to_file: Vec<char>,
    pub from_name: Vec<char>,
    pub to_name: Vec<char>,
    pub line: u32,
}

impl View for XRef {
    type V = XRefView;

    open spec fn view(&self) -> XRefView {
        (self.from_file@, self.to_file@, self.from_name@, self.to_name@, self.line)
    }
}

/// The views of cross-module references.
pub open spec fn xref_views(v: Seq<XRef>) -> Seq<XRefView> {
    v.map_values(|x: XRef| x@)
}

fn copy_chars(v: &Vec<char>) -> (r: Vec<char>)
    ensures
        r@ == v@,
{
    let mut out: Vec<char> = Vec::new();
    let mut i: usize = 0;
    while i < v.len()
        invariant
            i <= v@.len(),
            out@ == v@.take(i as int),
        decreases v@.len() - i,
    {
        out.push(v[i]);
        assert(v@.take(i + 1) =~= v@.take(i as int).push(v@[i as int]));
        i = i + 1;
    }
    assert(v@.take(v@.len() as int) =~= v@);
    out
}

fn collect_xrefs(graph: &Graph) -> (r: Vec<XRef>)
    ensures
        xref_views(r@) == xrefs(*graph),
{
    let n = graph.symbol_count();
    let m = graph.reference_count();
    let mut out: Vec<XRef> = Vec::new();
    let mut i: usize = 0;
    while i < n
        invariant
            n == graph.syms().len(),
            m == graph.refs().len(),
            i <= n,
            xref_views(out@) == xrefs_upto(*graph, i as nat),
        decreases n - i,
    {
        let s = graph.symbol_at(i);
        let sf = chars_of(s.location.file.as_str());
        let ghost base = xref_views(out@);
        let mut k: usize = 0;
        while k < m
            invariant
                n == graph.syms().len(),
                m == graph.refs().len(),
                i < n,
                k <= m,
                *s == graph.syms()[i as int],
                sf@ == s.location.file@,
                xref_views(out@) == base + sym_xrefs(*graph, i as int, k as nat),
            decreases m - k,
        {
            let r = graph.reference_at(k);
            if r.from.0 == i + 1 {
                match graph.get_symbol(r.to) {
                    Some(t) => {
                        let tf = chars_of(t.location.file.as_str());
                        if sf.len() > 0 && tf.len() > 0 && !chars_eq(&sf, &tf) {
                            let x = XRef {
                                from_file: copy_chars(&sf),
                                to_file: tf,
                                from_name: chars_of(s.name.as_str()),
                                to_name: chars_of(t.name.as_str()),
                                line: s.location.line,
                            };
                            let ghost before = xref_views(out@);
                            out.push(x);
                            assert(xref_views(out@) =~= before.push(x@));
                        }
                    },
                    None => {},
                }
            }
            k = k + 1;
        }
        i = i + 1;
    }
    out
}

/// Rank of a path character: `/` below every other character, the rest
/// by code point.
pub open spec fn path_char_rank(c: char) -> int {
    if c == '/' { 0 } else { c as u32 + 1 }
}

/// `a` is spelled before `b`: character by character with `/` lowest, a
/// proper prefix first.
pub open spec fn spelling_lt(a: Seq<char>, b: Seq<char>) -> bool
    decreases a.len(),
{
    if a.len() == 0 {
        b.len() > 0
    } else if b.len() == 0 {
        false
    } else if a[0] != b[0] {
        path_char_rank(a[0]) < path_char_rank(b[0])
    } else {
        spelling_lt(a.drop_first(), b.drop_first())
    }
}

/// Component `x` sorts before component `y`: the root, then the current
/// directory, then the parent, then normal components by their text.
pub open spec fn comp_lt(x: (u8, Seq<char>), y: (u8, Seq<char>)) -> bool {
    x.0 < y.0 || (x.0 == y.0 && seq_lt(x.1, y.1))
}

/// Component sequence `a` sorts strictly before `b`: lexicographically,
/// a proper prefix first.
pub open spec fn comps_lt(a: Seq<(u8, Seq<char>)>, b: Seq<(u8, Seq<char>)>) -> bool
    decreases a.len(),
{
    if a.len() == 0 {
        b.len() > 0
    } else if b.len() == 0 {
        false
    } else if a[0] != b[0] {
        comp_lt(a[0], b[0])
    } else {
        comps_lt(a.drop_first(), b.drop_first())
    }
}

/// `a` sorts strictly before `b` as a path: by their components; two
/// spellings of the same components by their characters.
pub open spec fn path_lt(a: Seq<char>, b: Seq<char>) -> bool {
    ||| comps_lt(components(a), components(b))
    ||| components(a) == components(b) && spelling_lt(a, b)
}

/// The distinct non-empty files of the first `n` symbols, in order of
/// first appearance.
pub open spec fn module_files_upto(g: Graph, n: nat) -> Seq<Seq<char>>
    decreases n,
{
    if n == 0 {
        seq![]
    } else {
        let prev = module_files_upto(g, (n - 1) as nat);
        let f = g.syms()[n - 1].location.file@;
        if f.len() > 0 && !prev.contains(f) { prev.push(f) } else { prev }
    }
}

/// `x` placed into `s` before the first entry that it sorts before.
pub open spec fn insert_module(s: Seq<Seq<char>>, x: Seq<char>) -> Seq<Seq<char>>
    decreases s.len(),
{
    if s.len() == 0 {
        seq![x]
    } else if path_lt(x, s[0]) {
        seq![x] + s
    } else {
        seq![s[0]] + insert_module(s.drop_first(), x)
    }
}

/// The first `k` entries of `s`, sorted by insertion.
pub open spec fn sort_modules(s: Seq<Seq<char>>, k: nat) -> Seq<Seq<char>>
    decreases k,
{
    if k == 0 || k > s.len() {
        seq![]
    } else {
        insert_module(sort_modules(s, (k - 1) as nat), s[k - 1])
    }
}

/// The modules of the graph: the non-empty files of its symbols, in path
/// order. A module's index in this list is its number below.
pub open spec fn modules(g: Graph) -> Seq<Seq<char>> {
    let fs = module_files_upto(g, g.syms().len());
    sort_modules(fs, fs.len())
}

/// Whether `a` is spelled before `b`.
fn spelling_less(a: &Vec<char>, b: &Vec<char>) -> (r: bool)
    ensures
        r == spelling_lt(a@, b@),
{
    let mut i: usize = 0;
    assert(a@.skip(0) =~= a@);
    assert(b@.skip(0) =~= b@);
    while i < a.len() && i < b.len() && a[i] == b[i]
        invariant
            i <= a@.len(),
            i <= b@.len(),
            spelling_lt(a@, b@) == spelling_lt(a@.skip(i as int), b@.skip(i as int)),
        decreases a@.len() - i,
    {
        assert(a@.skip(i as int).drop_first() =~= a@.skip(i + 1));
        assert(b@.skip(i as int).drop_first() =~= b@.skip(i + 1));
        i = i + 1;
    }
    if i == a.len() {
        i < b.len()
    } else if i == b.len() {
        false
    } else {
        let x = a[i];
        let y = b[i];
        if x == '/' {
            true
        } else if y == '/' {
            false
        } else {
            (x as u32) < (y as u32)
        }
    }
}

/// Whether component `x` of `p` sorts before component `y` of `q`.
fn comp_less(p: &Vec<char>, x: Part, q: &Vec<char>, y: Part) -> (r: bool)
    requires
        x.1 <= x.2 <= p@.len(),
        y.1 <= y.2 <= q@.len(),
    ensures
        r == comp_lt(component(p@, (x.0, x.1 as int, x.2 as int, x.3 as int)),
            component(q@, (y.0, y.1 as int, y.2 as int, y.3 as int))),
{
    if x.0 != y.0 {
        return x.0 < y.0;
    }
    if x.0 != 3 {
        proof {
            lemma_seq_lt_asym(Seq::<char>::empty(), Seq::<char>::empty());
        }
        return false;
    }
    let a = slice_chars(p, x.1, x.2);
    let b = slice_chars(q, y.1, y.2);
    str_less(&a, &b)
}

/// Whether components `x` of `p` and `y` of `q` are the same.
fn comp_same(p: &Vec<char>, x: Part, q: &Vec<char>, y: Part) -> (r: bool)
    requires
        x.1 <= x.2 <= p@.len(),
        y.1 <= y.2 <= q@.len(),
    ensures
        r == (component(p@, (x.0, x.1 as int, x.2 as int, x.3 as int))
            == component(q@, (y.0, y.1 as int, y.2 as int, y.3 as int))),
{
    if x.0 != y.0 {
        return false;
    }
    if x.0 != 3 {
        return true;
    }
    let a = slice_chars(p, x.1, x.2);
    let b = slice_chars(q, y.1, y.2);
    chars_eq(&a, &b)
}

/// Whether `a` sorts strictly before `b` as a path.
fn path_less(a: &Vec<char>, b: &Vec<char>) -> (r: bool)
    ensures
        r == path_lt(a@, b@),
{
    let pa = parts_exec(a);
    let pb = parts_exec(b);
    proof {
        lemma_parts_bounds(a@);
        lemma_parts_bounds(b@);
    }
    let ghost ca = components(a@);
    let ghost cb = components(b@);
    let mut j: usize = 0;
    assert(ca.skip(0) =~= ca);
    assert(cb.skip(0) =~= cb);
    while j < pa.len() && j < pb.len()
        invariant
            part_views(pa@) == parts(a@),
            part_views(pb@) == parts(b@),
            ca == components(a@),
            cb == components(b@),
            j <= pa@.len(),
            j <= pb@.len(),
            comps_lt(ca, cb) == comps_lt(ca.skip(j as int), cb.skip(j as int)),
            ca.take(j as int) == cb.take(j as int),
            forall|q: int| 0 <= q < parts(a@).len() ==> {
                let x = #[trigger] parts(a@)[q];
                0 <= x.1 <= x.2 <= x.3 <= a@.len()
            },
            forall|q: int| 0 <= q < parts(b@).len() ==> {
                let x = #[trigger] parts(b@)[q];
                0 <= x.1 <= x.2 <= x.3 <= b@.len()
            },
        decreases pa@.len() - j,
    {
        let x = pa[j];
        let y = pb[j];
        assert(parts(a@)[j as int] == (x.0, x.1 as int, x.2 as int, x.3 as int));
        assert(parts(b@)[j as int] == (y.0, y.1 as int, y.2 as int, y.3 as int));
        assert(ca.skip(j as int)[0] == ca[j as int]);
        assert(cb.skip(j as int)[0] == cb[j as int]);
        if !comp_same(a, x, b, y) {
            let less = comp_less(a, x, b, y);
            assert(ca != cb) by {
                assert(ca[j as int] != cb[j as int]);
            }
            return less;
        }
        assert(ca.skip(j as int).drop_first() =~= ca.skip(j + 1));
        assert(cb.skip(j as int).drop_first() =~= cb.skip(j + 1));
        assert(ca.take(j + 1) =~= ca.take(j as int).push(ca[j as int]));
        assert(cb.take(j + 1) =~= cb.take(j as int).push(cb[j as int]));
        j = j + 1;
    }
    if pa.len() != pb.len() {
        assert(ca != cb);
        proof {
            if j == pa.len() {
                assert(ca.skip(j as int).len() == 0);
            } else {
                assert(cb.skip(j as int).len() == 0);
            }
        }
        return pa.len() < pb.len();
    }
    assert(ca =~= ca.take(j as int));
    assert(cb =~= cb.take(j as int));
    proof {
        lemma_comps_lt_order(ca, ca);
    }
    spelling_less(a, b)
}

proof fn lemma_insert_module_at(s: Seq<Seq<char>>, x: Seq<char>, pos: int)
    requires
        0 <= pos <= s.len(),
        forall|j: int| 0 <= j < pos ==> !path_lt(x, #[trigger] s[j]),
        pos < s.len() ==> path_lt(x, s[pos]),
    ensures
        insert_module(s, x) == s.take(pos) + seq![x] + s.skip(pos),
    decreases pos,
{
    if pos == 0 {
        if s.len() > 0 {
            assert(s.skip(0) =~= s);
        }
        assert(s.take(0) + seq![x] + s.skip(0) =~= seq![x] + s);
    } else {
        let t = s.drop_first();
        assert forall|j: int| 0 <= j < pos - 1 implies !path_lt(x, #[trigger] t[j]) by {
            assert(t[j] == s[j + 1]);
        }
        lemma_insert_module_at(t, x, pos - 1);
        assert(!path_lt(x, s[0]));
        assert(seq![s[0]] + (t.take(pos - 1) + seq![x] + t.skip(pos - 1)) =~= s.take(pos) + seq![x] + s.skip(pos));
    }
}

proof fn lemma_insert_module_contents(s: Seq<Seq<char>>, x: Seq<char>)
    ensures
        insert_module(s, x).len() == s.len() + 1,
        forall|y: Seq<char>| #[trigger] insert_module(s, x).contains(y) <==> (s.contains(y) || y == x),
        s.no_duplicates() && !s.contains(x) ==> insert_module(s, x).no_duplicates(),
    decreases s.len(),
{
    let r = insert_module(s, x);
    if s.len() == 0 {
        assert(r =~= seq![x]);
    } else if path_lt(x, s[0]) {
        assert forall|y: Seq<char>| r.contains(y) <==> (s.contains(y) || y == x) by {
            if r.contains(y) {
                let j = choose|j: int| 0 <= j < r.len() && r[j] == y;
                if j > 0 {
                    assert(s[j - 1] == y);
                }
            }
            if s.contains(y) {
                let j = choose|j: int| 0 <= j < s.len() && s[j] == y;
                assert(r[j + 1] == y);
            }
            if y == x {
                assert(r[0] == y);
            }
        }
    } else {
        let t = s.drop_first();
        lemma_insert_module_contents(t, x);
        let rt = insert_module(t, x);
        assert(r == seq![s[0]] + rt);
        assert forall|y: Seq<char>| r.contains(y) <==> (s.contains(y) || y == x) by {
            if r.contains(y) {
                let j = choose|j: int| 0 <= j < r.len() && r[j] == y;
                if j > 0 {
                    assert(rt[j - 1] == y);
                    if t.contains(y) {
                        let q = choose|q: int| 0 <= q < t.len() && t[q] == y;
                        assert(s[q + 1] == y);
                    }
                } else {
                    assert(s[0] == y);
                }
            }
            if s.contains(y) {
                let j = choose|j: int| 0 <= j < s.len() && s[j] == y;
                if j > 0 {
                    assert(t[j - 1] == y);
                    assert(t.contains(y));
                    assert(rt.contains(y));
                    let q = choose|q: int| 0 <= q < rt.len() && rt[q] == y;
                    assert(r[q + 1] == y);
                } else {
                    assert(r[0] == y);
                }
            }
            if y == x {
                assert(rt.contains(y));
                let q = choose|q: int| 0 <= q < rt.len() && rt[q] == y;
                assert(r[q + 1] == y);
            }
        }
        if s.no_duplicates() && !s.contains(x) {
            assert(t.no_duplicates()) by {
                assert forall|a: int, b: int| 0 <= a < t.len() && 0 <= b < t.len() && a != b implies t[a] != t[b] by {
                    assert(t[a] == s[a + 1] && t[b] == s[b + 1]);
                }
            }
            assert(!t.contains(x)) by {
                if t.contains(x) {
                    let q = choose|q: int| 0 <= q < t.len() && t[q] == x;
                    assert(s[q + 1] == x);
                }
            }
            assert(!rt.contains(s[0])) by {
                if rt.contains(s[0]) {
                    if t.contains(s[0]) {
                        let q = choose|q: int| 0 <= q < t.len() && t[q] == s[0];
                        assert(s[q + 1] == s[0]);
                    } else {
                        assert(s[0] == x);
                    }
                }
            }
            assert forall|a: int, b: int| 0 <= a < r.len() && 0 <= b < r.len() && a != b implies r[a] != r[b] by {
                if a == 0 && b > 0 {
                    assert(r[b] == rt[b - 1]);
                } else if b == 0 && a > 0 {
                    assert(r[a] == rt[a - 1]);
                } else if a > 0 && b > 0 {
                    assert(r[a] == rt[a - 1] && r[b] == rt[b - 1]);
                }
            }
        }
    }
}

proof fn lemma_sort_modules_contents(s: Seq<Seq<char>>, k: nat)
    requires
        k <= s.len(),
    ensures
        sort_modules(s, k).len() == k,
        forall|y: Seq<char>| #[trigger] sort_modules(s, k).contains(y) <==> s.take(k as int).contains(y),
        s.no_duplicates() ==> sort_modules(s, k).no_duplicates(),
    decreases k,
{
    if k > 0 {
        lemma_sort_modules_contents(s, (k - 1) as nat);
        let prev = sort_modules(s, (k - 1) as nat);
        lemma_insert_module_contents(prev, s[k - 1]);
        let a = s.take(k - 1);
        let b = s.take(k as int);
        assert(sort_modules(s, k) == insert_module(prev, s[k - 1]));
        assert(b =~= a.push(s[k - 1]));
        assert forall|y: Seq<char>| sort_modules(s, k).contains(y) <==> b.contains(y) by {
            if a.contains(y) {
                let j = choose|j: int| 0 <= j < a.len() && a[j] == y;
                assert(b[j] == y);
            }
            if b.contains(y) {
                let j = choose|j: int| 0 <= j < b.len() && b[j] == y;
                if j < k - 1 {
                    assert(a[j] == y);
                }
            }
        }
        if s.no_duplicates() {
            assert(!prev.contains(s[k - 1])) by {
                if a.contains(s[k - 1]) {
                    let j = choose|j: int| 0 <= j < a.len() && a[j] == s[k - 1];
                    assert(s[j] == s[k - 1]);
                }
            }
        }
    } else {
        assert(s.take(0) =~= Seq::<Seq<char>>::empty());
    }
}

proof fn lemma_module_files(g: Graph, n: nat)
    requires
        n <= g.syms().len(),
    ensures
        module_files_upto(g, n).no_duplicates(),
        forall|f: Seq<char>| module_files_upto(g, n).contains(f)
            <==> exists|i: int| 0 <= i < n && f.len() > 0 && #[trigger] g.syms()[i].location.file@ == f,
    decreases n,
{
    if n > 0 {
        lemma_module_files(g, (n - 1) as nat);
        let prev = module_files_upto(g, (n - 1) as nat);
        let f0 = g.syms()[n - 1].location.file@;
        assert forall|f: Seq<char>| module_files_upto(g, n).contains(f)
            <==> exists|i: int| 0 <= i < n && f.len() > 0 && #[trigger] g.syms()[i].location.file@ == f by {
            if module_files_upto(g, n).contains(f) && !prev.contains(f) {
                assert(g.syms()[n - 1].location.file@ == f);
            }
            if exists|i: int| 0 <= i < n && f.len() > 0 && #[trigger] g.syms()[i].location.file@ == f {
                let i = choose|i: int| 0 <= i < n && f.len() > 0 && #[trigger] g.syms()[i].location.file@ == f;
                if i < n - 1 {
                    assert(prev.contains(f));
                } else if !prev.contains(f) {
                    assert(module_files_upto(g, n) == prev.push(f0));
                    assert(module_files_upto(g, n)[prev.len() as int] == f);
                }
            }
        }
    }
}

/// The modules are distinct, and they are exactly the non-empty files of
/// the symbols.
pub proof fn lemma_modules(g: Graph)
    ensures
        modules(g).no_duplicates(),
        forall|f: Seq<char>| modules(g).contains(f)
            <==> exists|i: int| 0 <= i < g.syms().len() && f.len() > 0 && #[trigger] g.syms()[i].location.file@ == f,
{
    let fs = module_files_upto(g, g.syms().len());
    lemma_module_files(g, g.syms().len());
    lemma_sort_modules_contents(fs, fs.len());
    assert(fs.take(fs.len() as int) =~= fs);
}

proof fn lemma_spelling_lt_irreflexive(a: Seq<char>)
    ensures
        !spelling_lt(a, a),
    decreases a.len(),
{
    if a.len() > 0 {
        lemma_spelling_lt_irreflexive(a.drop_first());
    }
}

proof fn lemma_spelling_lt_total(a: Seq<char>, b: Seq<char>)
    ensures
        a != b ==> spelling_lt(a, b) || spelling_lt(b, a),
        spelling_lt(a, b) ==> !spelling_lt(b, a),
    decreases a.len(),
{
    if a.len() > 0 && b.len() > 0 {
        if a[0] == b[0] {
            lemma_spelling_lt_total(a.drop_first(), b.drop_first());
            if a != b {
                assert(a.drop_first() != b.drop_first()) by {
                    if a.drop_first() == b.drop_first() {
                        assert(a =~= seq![a[0]] + a.drop_first());
                        assert(b =~= seq![b[0]] + b.drop_first());
                    }
                }
            }
        } else {
            vstd::utf8::char_u32_cast(a[0], a[0] as u32);
            vstd::utf8::char_u32_cast(b[0], b[0] as u32);
        }
    } else if a.len() == 0 && b.len() == 0 {
        assert(a =~= b);
    }
}

proof fn lemma_spelling_lt_transitive(a: Seq<char>, b: Seq<char>, c: Seq<char>)
    requires
        spelling_lt(a, b),
        spelling_lt(b, c),
    ensures
        spelling_lt(a, c),
    decreases a.len(),
{
    if a.len() > 0 && b.len() > 0 && c.len() > 0 {
        if a[0] == b[0] && b[0] == c[0] {
            lemma_spelling_lt_transitive(a.drop_first(), b.drop_first(), c.drop_first());
        }
    }
}

proof fn lemma_comp_lt(x: (u8, Seq<char>), y: (u8, Seq<char>), z: (u8, Seq<char>))
    ensures
        !comp_lt(x, x),
        x != y ==> comp_lt(x, y) || comp_lt(y, x),
        comp_lt(x, y) ==> !comp_lt(y, x),
        comp_lt(x, y) && comp_lt(y, z) ==> comp_lt(x, z),
{
    lemma_seq_lt_asym(x.1, x.1);
    lemma_seq_lt_total(x.1, y.1);
    lemma_seq_lt_asym(x.1, y.1);
    if seq_lt(x.1, y.1) && seq_lt(y.1, z.1) {
        lemma_seq_lt_transitive(x.1, y.1, z.1);
    }
}

proof fn lemma_comps_lt_order(a: Seq<(u8, Seq<char>)>, b: Seq<(u8, Seq<char>)>)
    ensures
        !comps_lt(a, a),
        a != b ==> comps_lt(a, b) || comps_lt(b, a),
        comps_lt(a, b) ==> !comps_lt(b, a),
    decreases a.len(),
{
    if a.len() > 0 {
        lemma_comp_lt(a[0], a[0], a[0]);
        lemma_comps_lt_order(a.drop_first(), a.drop_first());
    }
    if a.len() > 0 && b.len() > 0 {
        lemma_comp_lt(a[0], b[0], b[0]);
        if a[0] == b[0] {
            lemma_comps_lt_order(a.drop_first(), b.drop_first());
            if a != b {
                assert(a.drop_first() != b.drop_first()) by {
                    if a.drop_first() == b.drop_first() {
                        assert(a =~= seq![a[0]] + a.drop_first());
                        assert(b =~= seq![b[0]] + b.drop_first());
                    }
                }
            }
        }
    } else if a.len() == 0 && b.len() == 0 {
        assert(a =~= b);
    }
}

proof fn lemma_comps_lt_transitive(a: Seq<(u8, Seq<char>)>, b: Seq<(u8, Seq<char>)>, c: Seq<(u8, Seq<char>)>)
    requires
        comps_lt(a, b),
        comps_lt(b, c),
    ensures
        comps_lt(a, c),
    decreases a.len(),
{
    if a.len() > 0 && b.len() > 0 && c.len() > 0 {
        lemma_comp_lt(a[0], b[0], c[0]);
        lemma_comp_lt(a[0], c[0], b[0]);
        lemma_comp_lt(b[0], a[0], c[0]);
        lemma_comp_lt(b[0], c[0], a[0]);
        if a[0] == b[0] && b[0] == c[0] {
            lemma_comps_lt_transitive(a.drop_first(), b.drop_first(), c.drop_first());
        }
    }
}

proof fn lemma_path_lt_irreflexive(a: Seq<char>)
    ensures
        !path_lt(a, a),
{
    lemma_comps_lt_order(components(a), components(a));
    lemma_spelling_lt_irreflexive(a);
}

proof fn lemma_path_lt_total(a: Seq<char>, b: Seq<char>)
    ensures
        a != b ==> path_lt(a, b) || path_lt(b, a),
        path_lt(a, b) ==> !path_lt(b, a),
{
    lemma_comps_lt_order(components(a), components(b));
    lemma_comps_lt_order(components(a), components(a));
    lemma_comps_lt_order(components(b), components(b));
    lemma_spelling_lt_total(a, b);
}

proof fn lemma_path_lt_transitive(a: Seq<char>, b: Seq<char>, c: Seq<char>)
    requires
        path_lt(a, b),
        path_lt(b, c),
    ensures
        path_lt(a, c),
{
    let (ca, cb, cc) = (components(a), components(b), components(c));
    if comps_lt(ca, cb) && comps_lt(cb, cc) {
        lemma_comps_lt_transitive(ca, cb, cc);
    } else if comps_lt(ca, cb) {
        assert(cb == cc);
    } else if comps_lt(cb, cc) {
        assert(ca == cb);
    } else {
        lemma_spelling_lt_transitive(a, b, c);
    }
}

/// Strictly ascending in path order.
pub open spec fn path_sorted(s: Seq<Seq<char>>) -> bool {
    forall|i: int, j: int| 0 <= i < j < s.len() ==> path_lt(#[trigger] s[i], #[trigger] s[j])
}

proof fn lemma_insert_module_sorted(s: Seq<Seq<char>>, x: Seq<char>)
    requires
        path_sorted(s),
        !s.contains(x),
    ensures
        path_sorted(insert_module(s, x)),
    decreases s.len(),
{
    let r = insert_module(s, x);
    lemma_insert_module_contents(s, x);
    if s.len() == 0 {
    } else if path_lt(x, s[0]) {
        assert(r == seq![x] + s);
        assert forall|i: int, j: int| 0 <= i < j < r.len() implies path_lt(#[trigger] r[i], #[trigger] r[j]) by {
            if i == 0 {
                assert(r[j] == s[j - 1]);
                if j - 1 > 0 {
                    assert(path_lt(s[0], s[j - 1]));
                    lemma_path_lt_transitive(x, s[0], s[j - 1]);
                }
            } else {
                assert(r[i] == s[i - 1] && r[j] == s[j - 1]);
            }
        }
    } else {
        let t = s.drop_first();
        assert(path_sorted(t)) by {
            assert forall|i: int, j: int| 0 <= i < j < t.len() implies path_lt(#[trigger] t[i], #[trigger] t[j]) by {
                assert(t[i] == s[i + 1] && t[j] == s[j + 1]);
            }
        }
        assert(!t.contains(x)) by {
            if t.contains(x) {
                let q = choose|q: int| 0 <= q < t.len() && t[q] == x;
                assert(s[q + 1] == x);
            }
        }
        lemma_insert_module_sorted(t, x);
        lemma_insert_module_contents(t, x);
        let rt = insert_module(t, x);
        assert(r == seq![s[0]] + rt);
        assert(x != s[0]);
        lemma_path_lt_total(x, s[0]);
        assert forall|i: int, j: int| 0 <= i < j < r.len() implies path_lt(#[trigger] r[i], #[trigger] r[j]) by {
            if i == 0 {
                assert(r[j] == rt[j - 1]);
                assert(rt.contains(rt[j - 1]));
                if t.contains(rt[j - 1]) {
                    let q = choose|q: int| 0 <= q < t.len() && t[q] == rt[j - 1];
                    assert(s[q + 1] == rt[j - 1]);
                    assert(path_lt(s[0], s[q + 1]));
                } else {
                    assert(rt[j - 1] == x);
                }
            } else {
                assert(r[i] == rt[i - 1] && r[j] == rt[j - 1]);
            }
        }
    }
}

proof fn lemma_sort_modules_sorted(s: Seq<Seq<char>>, k: nat)
    requires
        k <= s.len(),
        s.no_duplicates(),
    ensures
        path_sorted(sort_modules(s, k)),
    decreases k,
{
    if k > 0 {
        lemma_sort_modules_sorted(s, (k - 1) as nat);
        lemma_sort_modules_contents(s, (k - 1) as nat);
        let prev = sort_modules(s, (k - 1) as nat);
        assert(!prev.contains(s[k - 1])) by {
            let a = s.take(k - 1);
            if a.contains(s[k - 1]) {
                let j = choose|j: int| 0 <= j < a.len() && a[j] == s[k - 1];
                assert(s[j] == s[k - 1]);
            }
        }
        lemma_insert_module_sorted(prev, s[k - 1]);
    }
}

/// The modules come in strictly ascending path order (character by
/// character, `/` lowest), so a module's number orders it among the others
/// as its path does.
pub proof fn law_modules_in_path_order(g: Graph)
    ensures
        path_sorted(modules(g)),
{
    let fs = module_files_upto(g, g.syms().len());
    lemma_module_files(g, g.syms().len());
    lemma_sort_modules_sorted(fs, fs.len());
}

fn insert_module_exec(sorted: &mut Vec<Vec<char>>, f: Vec<char>)
    ensures
        char_views(final(sorted)@) == insert_module(char_views(old(sorted)@), f@),
{
    let ghost sv = char_views(sorted@);
    let mut pos: usize = 0;
    while pos < sorted.len() && !path_less(&f, &sorted[pos])
        invariant
            pos <= sorted@.len(),
            sv == char_views(sorted@),
            forall|j: int| 0 <= j < pos ==> !path_lt(f@, #[trigger] sv[j]),
        decreases sorted@.len() - pos,
    {
        pos = pos + 1;
    }
    proof {
        lemma_insert_module_at(sv, f@, pos as int);
    }
    let ghost fv = f@;
    sorted.insert(pos, f);
    assert(char_views(sorted@) =~= sv.take(pos as int) + seq![fv] + sv.skip(pos as int));
}

/// The modules in path order, without repeats.
fn sorted_modules(graph: &Graph) -> (r: Vec<Vec<char>>)
    ensures
        char_views(r@) == modules(*graph),
{
    let n = graph.symbol_count();
    let mut files: Vec<Vec<char>> = Vec::new();
    let mut i: usize = 0;
    while i < n
        invariant
            n == graph.syms().len(),
            i <= n,
            char_views(files@) == module_files_upto(*graph, i as nat),
        decreases n - i,
    {
        let f = chars_of(graph.symbol_at(i).location.file.as_str());
        if f.len() > 0 && !crate::patterns::common::contains_chars(&files, &f) {
            let ghost before = char_views(files@);
            files.push(f);
            assert(char_views(files@) =~= before.push(f@));
        }
        i = i + 1;
    }
    let ghost fv = char_views(files@);
    let mut sorted: Vec<Vec<char>> = Vec::new();
    let mut k: usize = 0;
    while k < files.len()
        invariant
            k <= files@.len(),
            fv == char_views(files@),
            char_views(sorted@) == sort_modules(fv, k as nat),
        decreases files@.len() - k,
    {
        let f = copy_chars(&files[k]);
        assert(f@ == fv[k as int]);
        insert_module_exec(&mut sorted, f);
        k = k + 1;
    }
    sorted
}

fn copy_usizes(v: &Vec<usize>) -> (r: Vec<usize>)
    ensures
        r@ == v@,
{
    let mut out: Vec<usize> = Vec::new();
    let mut i: usize = 0;
    while i < v.len()
        invariant
            i <= v@.len(),
            out@ == v@.take(i as int),
        decreases v@.len() - i,
    {
        out.push(v[i]);
        assert(v@.take(i + 1) =~= v@.take(i as int).push(v@[i as int]));
        i = i + 1;
    }
    assert(v@.take(v@.len() as int) =~= v@);
    out
}

fn module_index(mods: &Vec<Vec<char>>, f: &Vec<char>) -> (r: Option<usize>)
    ensures
        r matches Some(u) ==> u < mods@.len() && mods@[u as int]@ == f@,
        r is None ==> !char_views(mods@).contains(f@),
{
    let mut u: usize = 0;
    while u < mods.len()
        invariant
            u <= mods@.len(),
            forall|j: int| 0 <= j < u ==> mods@[j]@ != f@,
        decreases mods@.len() - u,
    {
        if chars_eq(&mods[u], f) {
            return Some(u);
        }
        u = u + 1;
    }
    proof {
        if char_views(mods@).contains(f@) {
            let j = choose|j: int| 0 <= j < mods@.len() && char_views(mods@)[j] == f@;
            assert(mods@[j]@ == f@);
        }
    }
    None
}

/// `v` is a neighbour of `u` in the adjacency lists.
pub open spec fn adj_edge(adj: Seq<Seq<usize>>, u: int, v: usize) -> bool {
    0 <= u < adj.len() && adj[u].contains(v)
}

/// Every adjacency entry is a module dependency.
pub open spec fn adj_sound(g: Graph, mods: Seq<Seq<char>>, adj: Seq<Seq<usize>>) -> bool {
    &&& adj.len() == mods.len()
    &&& forall|u: int, k: int| 0 <= u < adj.len() && 0 <= k < adj[u].len() ==> (#[trigger] adj[u][k]) < mods.len()
        && module_edge(g, mods[u], mods[adj[u][k] as int])
}

/// The adjacency lists as sequences.
pub open spec fn adj_views(adj: Seq<Vec<usize>>) -> Seq<Seq<usize>> {
    adj.map_values(|v: Vec<usize>| v@)
}

/// The modules that module `u` of `ms` depends on.
pub open spec fn depends_on(g: Graph, ms: Seq<Seq<char>>, u: int) -> spec_fn(usize) -> bool {
    |v: usize| module_edge(g, ms[u], ms[v as int])
}

/// The numbers below `n`, ascending.
pub open spec fn below(n: nat) -> Seq<usize> {
    Seq::new(n, |v: int| v as usize)
}

/// The module dependency graph: for each module, in module order, the
/// modules it depends on, in module order.
pub open spec fn module_adj(g: Graph) -> Seq<Seq<usize>> {
    let ms = modules(g);
    Seq::new(ms.len(), |u: int| below(ms.len()).filter(depends_on(g, ms, u)))
}

/// Strictly ascending.
pub open spec fn ascending(a: Seq<usize>) -> bool {
    forall|i: int, j: int| 0 <= i < j < a.len() ==> a[i] < a[j]
}

proof fn lemma_ascending_is_filter(a: Seq<usize>, n: nat, p: spec_fn(usize) -> bool)
    requires
        n <= usize::MAX + 1,
        ascending(a),
        forall|v: usize| #[trigger] a.contains(v) <==> (v < n && p(v)),
    ensures
        a == below(n).filter(p),
    decreases n,
{
    if n == 0 {
        if a.len() > 0 {
            assert(a.contains(a[0]));
        }
        assert(a =~= below(0).filter(p)) by {
            assert(below(0) =~= Seq::<usize>::empty());
        }
    } else {
        let m = (n - 1) as usize;
        assert(below(n) =~= below((n - 1) as nat).push(m));
        below((n - 1) as nat).lemma_filter_push(m, p);
        if p(m) {
            assert(a.contains(m));
            let j = choose|j: int| 0 <= j < a.len() && a[j] == m;
            assert(a.contains(a[a.len() - 1]));
            assert(j == a.len() - 1);
            let b = a.drop_last();
            assert forall|v: usize| #[trigger] b.contains(v) <==> (v < n - 1 && p(v)) by {
                if b.contains(v) {
                    let q = choose|q: int| 0 <= q < b.len() && b[q] == v;
                    assert(a[q] == v);
                    assert(a.contains(v));
                    assert(a[q] < a[j]);
                }
                if v < n - 1 && p(v) {
                    assert(a.contains(v));
                    let q = choose|q: int| 0 <= q < a.len() && a[q] == v;
                    assert(q != j);
                    assert(b[q] == v);
                }
            }
            lemma_ascending_is_filter(b, (n - 1) as nat, p);
            assert(a =~= b.push(m));
        } else {
            assert forall|v: usize| #[trigger] a.contains(v) <==> (v < n - 1 && p(v)) by {
                if a.contains(v) {
                    assert(v != m);
                }
            }
            lemma_ascending_is_filter(a, (n - 1) as nat, p);
        }
    }
}

/// Every entry of the module dependency graph is a module dependency.
pub proof fn lemma_module_adj_sound(g: Graph)
    ensures
        adj_sound(g, modules(g), module_adj(g)),
{
    let ms = modules(g);
    let ma = module_adj(g);
    assert forall|u: int, k: int| 0 <= u < ma.len() && 0 <= k < ma[u].len() implies (#[trigger] ma[u][k]) < ms.len()
        && module_edge(g, ms[u], ms[ma[u][k] as int]) by {
        let p = depends_on(g, ms, u);
        let b = below(ms.len());
        assert(ma[u] == b.filter(p));
        assert(b.filter(p).contains(ma[u][k]));
        b.filter_lemma(p);
        b.lemma_filter_contains_rev(p, ma[u][k]);
        let j = choose|j: int| 0 <= j < b.len() && b[j] == ma[u][k];
    }
}

/// Some among the first `k` of `xs` leads from module `u` to module `v`
/// of `ms`.
pub open spec fn xref_between(xs: Seq<XRefView>, ms: Seq<Seq<char>>, k: int, u: int, v: int) -> bool {
    exists|q: int| 0 <= q < k && (#[trigger] xs[q]).0 == ms[u] && xs[q].1 == ms[v]
}

#[verifier::spinoff_prover]
#[verifier::rlimit(30)]
proof fn lemma_insert_ascending(before: Seq<usize>, v: usize, pos: int)
    requires
        ascending(before),
        0 <= pos <= before.len(),
        forall|j: int| 0 <= j < pos ==> before[j] < v,
        pos < before.len() ==> before[pos] > v,
    ensures
        ascending(before.insert(pos, v)),
        forall|x: usize| #[trigger] before.insert(pos, v).contains(x) <==> (before.contains(x) || x == v),
{
    let l = before.insert(pos, v);
    assert forall|i: int, j: int| 0 <= i < j < l.len() implies l[i] < l[j] by {
        if j < pos {
            assert(l[i] == before[i] && l[j] == before[j]);
        } else if j == pos {
            assert(l[i] == before[i]);
        } else if i < pos {
            assert(l[i] == before[i] && l[j] == before[j - 1]);
            assert(before[pos] <= before[j - 1]);
        } else if i == pos {
            assert(l[j] == before[j - 1]);
            assert(before[pos] <= before[j - 1]);
        } else {
            assert(l[i] == before[i - 1] && l[j] == before[j - 1]);
        }
    }
    assert forall|x: usize| #[trigger] l.contains(x) <==> (before.contains(x) || x == v) by {
        if l.contains(x) {
            let k = choose|k: int| 0 <= k < l.len() && l[k] == x;
            if k < pos {
                assert(before[k] == x);
            } else if k > pos {
                assert(before[k - 1] == x);
            }
        }
        if before.contains(x) {
            let k = choose|k: int| 0 <= k < before.len() && before[k] == x;
            if k < pos {
                assert(l[k] == x);
            } else {
                assert(l[k + 1] == x);
            }
        }
        if x == v {
            assert(l[pos] == x);
        }
    }
}

fn insert_neighbor(list: &mut Vec<usize>, v: usize)
    requires
        ascending(old(list)@),
    ensures
        ascending(final(list)@),
        forall|x: usize| #[trigger] final(list)@.contains(x) <==> (old(list)@.contains(x) || x == v),
{
    let ghost before = list@;
    let mut pos: usize = 0;
    while pos < list.len() && list[pos] < v
        invariant
            pos <= list@.len(),
            list@ == before,
            forall|j: int| 0 <= j < pos ==> list@[j] < v,
        decreases list@.len() - pos,
    {
        pos = pos + 1;
    }
    if pos < list.len() && list[pos] == v {
        assert(before.contains(v)) by {
            assert(before[pos as int] == v);
        }
        return;
    }
    proof {
        lemma_insert_ascending(before, v, pos as int);
    }
    list.insert(pos, v);
}

fn build_module_adjacency(graph: &Graph, mods: &Vec<Vec<char>>, xs: &Vec<XRef>) -> (adj: Vec<Vec<usize>>)
    requires
        xref_views(xs@) == xrefs(*graph),
        char_views(mods@) == modules(*graph),
    ensures
        adj_views(adj@) == module_adj(*graph),
{
    let ghost mv = char_views(mods@);
    let ghost xv = xref_views(xs@);
    let n = mods.len();
    proof {
        lemma_modules(*graph);
    }
    let mut adj: Vec<Vec<usize>> = Vec::new();
    while adj.len() < n
        invariant
            n == mods@.len(),
            adj@.len() <= n,
            forall|u: int| 0 <= u < adj@.len() ==> adj@[u]@.len() == 0,
        decreases n - adj@.len(),
    {
        adj.push(Vec::new());
    }
    let mut k: usize = 0;
    while k < xs.len()
        invariant
            k <= xs@.len(),
            n == mods@.len(),
            mv == char_views(mods@),
            mv.no_duplicates(),
            xv == xref_views(xs@),
            adj@.len() == n,
            forall|u: int| 0 <= u < n ==> ascending(#[trigger] adj@[u]@),
            forall|u: int, v: usize| 0 <= u < n ==> (#[trigger] adj@[u]@.contains(v) <==> (v < n && xref_between(xv, mv, k as int, u, v as int))),
        decreases xs@.len() - k,
    {
        let x = &xs[k];
        assert(xv[k as int] == x@);
        let ghost a0 = adj@;
        match (module_index(mods, &x.from_file), module_index(mods, &x.to_file)) {
            (Some(u), Some(v)) => {
                let mut list = copy_usizes(&adj[u]);
                insert_neighbor(&mut list, v);
                adj.set(u, list);
                proof {
                    assert forall|a: int, w: usize| 0 <= a < n implies (#[trigger] adj@[a]@.contains(w) <==> (w < n && xref_between(xv, mv, k + 1, a, w as int))) by {
                        let hit = xv[k as int].0 == mv[a] && xv[k as int].1 == mv[w as int];
                        if w < n && hit {
                            assert(mv[a] == mv[u as int]);
                            assert(a == u);
                            assert(mv[w as int] == mv[v as int]);
                            assert(w == v);
                        }
                        if xref_between(xv, mv, k + 1, a, w as int) && !hit {
                            let q = choose|q: int| 0 <= q < k + 1 && (#[trigger] xv[q]).0 == mv[a] && xv[q].1 == mv[w as int];
                            assert(q < k);
                            assert(xref_between(xv, mv, k as int, a, w as int));
                        }
                        if xref_between(xv, mv, k as int, a, w as int) {
                            let q = choose|q: int| 0 <= q < k && (#[trigger] xv[q]).0 == mv[a] && xv[q].1 == mv[w as int];
                            assert(xref_between(xv, mv, k + 1, a, w as int));
                        }
                        if hit && w < n {
                            assert(xref_between(xv, mv, k + 1, a, w as int));
                        }
                        if a != u {
                            assert(adj@[a] == a0[a]);
                        }
                    }
                    assert forall|a: int| 0 <= a < n implies ascending(#[trigger] adj@[a]@) by {
                        if a != u {
                            assert(adj@[a] == a0[a]);
                        }
                    }
                }
            },
            (fu, fv) => {
                proof {
                    assert(fu is None || fv is None);
                    assert forall|a: int, w: usize| 0 <= a < n implies (#[trigger] adj@[a]@.contains(w) <==> (w < n && xref_between(xv, mv, k + 1, a, w as int))) by {
                        if w < n && xref_between(xv, mv, k + 1, a, w as int) {
                            let q = choose|q: int| 0 <= q < k + 1 && (#[trigger] xv[q]).0 == mv[a] && xv[q].1 == mv[w as int];
                            if q == k {
                                assert(mv[a] == x.from_file@);
                                assert(mv[w as int] == x.to_file@);
                                assert(mv.contains(x.from_file@));
                                assert(mv.contains(x.to_file@));
                                assert(false);
                            }
                            assert(xref_between(xv, mv, k as int, a, w as int));
                        }
                        if xref_between(xv, mv, k as int, a, w as int) {
                            let q = choose|q: int| 0 <= q < k && (#[trigger] xv[q]).0 == mv[a] && xv[q].1 == mv[w as int];
                            assert(xref_between(xv, mv, k + 1, a, w as int));
                        }
                    }
                }
            },
        }
        k = k + 1;
    }
    proof {
        let ma = module_adj(*graph);
        assert(adj_views(adj@) =~= ma) by {
            assert forall|u: int| 0 <= u < n implies #[trigger] adj_views(adj@)[u] == ma[u] by {
                let p = depends_on(*graph, mv, u);
                assert forall|v: usize| #[trigger] adj@[u]@.contains(v) <==> (v < n && p(v)) by {
                    if adj@[u]@.contains(v) {
                        let q = choose|q: int| 0 <= q < xv.len() && (#[trigger] xv[q]).0 == mv[u] && xv[q].1 == mv[v as int];
                        assert(module_edge(*graph, mv[u], mv[v as int]));
                    }
                    if v < n && p(v) {
                        let q = choose|q: int| 0 <= q < xrefs(*graph).len() && (#[trigger] xrefs(*graph)[q]).0 == mv[u] && xrefs(*graph)[q].1 == mv[v as int];
                        assert(xref_between(xv, mv, xv.len() as int, u, v as int));
                    }
                }
                lemma_ascending_is_filter(adj@[u]@, n as nat, p);
            }
        }
    }
    adj
}

/// `c` is a cycle of two or more distinct module indices along adjacency
/// entries, closing from the last back to the first.
pub open spec fn idx_cycle(adj: Seq<Seq<usize>>, c: Seq<usize>) -> bool {
    &&& c.len() >= 2
    &&& c.no_duplicates()
    &&& forall|i: int| 0 <= i < c.len() ==> (#[trigger] c[i]) < adj.len()
    &&& forall|i: int| 0 <= i < c.len() ==> #[trigger] adj_edge(adj, c[i] as int, c[(i + 1) % (c.len() as int)])
}

/// Work left at node `u`: a white node still has all its neighbours and
/// its own visit ahead, a gray one its unexplored neighbours and its exit.
pub open spec fn node_pot(adj: Seq<Seq<usize>>, c: Seq<u8>, nx: Seq<usize>, u: int) -> int {
    if c[u] == 0 {
        adj[u].len() + 2int
    } else if c[u] == 1 {
        adj[u].len() - nx[u] + 1
    } else {
        0
    }
}

/// Work left at the first `k` nodes.
pub open spec fn pot(adj: Seq<Seq<usize>>, c: Seq<u8>, nx: Seq<usize>, k: nat) -> int
    decreases k,
{
    if k == 0 {
        0
    } else {
        pot(adj, c, nx, (k - 1) as nat) + node_pot(adj, c, nx, k - 1)
    }
}

proof fn lemma_pot_nonneg(adj: Seq<Seq<usize>>, c: Seq<u8>, nx: Seq<usize>, k: nat)
    requires
        k <= c.len(),
        k <= nx.len(),
        k <= adj.len(),
        forall|u: int| 0 <= u < k && c[u] == 1 ==> nx[u] <= adj[u].len(),
    ensures
        pot(adj, c, nx, k) >= 0,
    decreases k,
{
    if k > 0 {
        lemma_pot_nonneg(adj, c, nx, (k - 1) as nat);
    }
}

proof fn lemma_pot_update(adj: Seq<Seq<usize>>, c1: Seq<u8>, n1: Seq<usize>, c2: Seq<u8>, n2: Seq<usize>, i: int, k: nat)
    requires
        0 <= i,
        forall|u: int| 0 <= u < k && u != i ==> c1[u] == c2[u] && n1[u] == n2[u],
    ensures
        i < k ==> pot(adj, c2, n2, k) == pot(adj, c1, n1, k) - node_pot(adj, c1, n1, i) + node_pot(adj, c2, n2, i),
        i >= k ==> pot(adj, c2, n2, k) == pot(adj, c1, n1, k),
    decreases k,
{
    if k > 0 {
        lemma_pot_update(adj, c1, n1, c2, n2, i, (k - 1) as nat);
    }
}

/// Every adjacency entry names a module, and every length fits a `usize`.
pub open spec fn adj_ok(adj: Seq<Seq<usize>>) -> bool {
    &&& adj.len() <= usize::MAX
    &&& forall|u: int| 0 <= u < adj.len() ==> (#[trigger] adj[u]).len() <= usize::MAX
    &&& forall|u: int, k: int| 0 <= u < adj.len() && 0 <= k < adj[u].len() ==> (#[trigger] adj[u][k]) < adj.len()
}

/// The state of the depth-first search over the module graph: a colour
/// per module (0 white: not reached, 1 gray: on the current path,
/// 2 black: done), the position of the next neighbour to try per module,
/// the current path, and the cycles found so far.
pub struct Search {
    pub color: Seq<u8>,
    pub next: Seq<usize>,
    pub path: Seq<usize>,
    pub cycles: Seq<Seq<usize>>,
}

/// Work left in search state `st`.
pub open spec fn search_pot(adj: Seq<Seq<usize>>, st: Search) -> int {
    pot(adj, st.color, st.next, adj.len())
}

/// The invariant of the search: colours and positions in range, the
/// gray modules exactly those on the path, the path a walk of distinct
/// modules along the adjacency, and every cycle found a real cycle.
pub open spec fn search_ok(adj: Seq<Seq<usize>>, st: Search) -> bool {
    let n = adj.len();
    &&& adj_ok(adj)
    &&& st.color.len() == n
    &&& st.next.len() == n
    &&& forall|u: int| 0 <= u < n ==> #[trigger] st.color[u] <= 2
    &&& forall|u: int| 0 <= u < n && #[trigger] st.color[u] == 0 ==> st.next[u] == 0
    &&& forall|u: int| 0 <= u < n && #[trigger] st.color[u] == 1 ==> st.next[u] <= adj[u].len()
    &&& forall|i: int| 0 <= i < st.path.len() ==> (#[trigger] st.path[i]) < n
    &&& st.path.no_duplicates()
    &&& forall|u: int| 0 <= u < n ==> (#[trigger] st.color[u] == 1) == st.path.contains(u as usize)
    &&& forall|i: int| 0 <= i < st.path.len() - 1 ==> #[trigger] adj_edge(adj, st.path[i] as int, st.path[i + 1])
    &&& forall|i: int| 0 <= i < st.cycles.len() ==> idx_cycle(adj, #[trigger] st.cycles[i])
}

/// One step of the search from the module at the end of the path: when
/// its neighbours are exhausted it turns black and leaves the path;
/// otherwise its next neighbour is tried: a gray one closes the cycle from
/// its place on the path to the end (kept when of two or more modules), a
/// white one turns gray and extends the path, a black one is passed over.
pub open spec fn search_step(adj: Seq<Seq<usize>>, st: Search) -> Search {
    let u = st.path.last() as int;
    if st.next[u] >= adj[u].len() {
        Search { color: st.color.update(u, 2u8), path: st.path.drop_last(), ..st }
    } else {
        let v = adj[u][st.next[u] as int];
        let next = st.next.update(u, (st.next[u] + 1) as usize);
        if st.color[v as int] == 1 {
            let cycles = match st.path.index_of_first(v) {
                Some(p) => {
                    let c = st.path.subrange(p, st.path.len() as int);
                    if c.len() >= 2 { st.cycles.push(c) } else { st.cycles }
                },
                None => st.cycles,
            };
            Search { next, cycles, ..st }
        } else if st.color[v as int] == 0 {
            Search { color: st.color.update(v as int, 1u8), next, path: st.path.push(v), ..st }
        } else {
            Search { next, ..st }
        }
    }
}

/// At most `fuel` steps of the search, stopping when the path is empty.
pub open spec fn search_run(adj: Seq<Seq<usize>>, st: Search, fuel: nat) -> Search
    decreases fuel,
{
    if fuel == 0 || st.path.len() == 0 {
        st
    } else {
        search_run(adj, search_step(adj, st), (fuel - 1) as nat)
    }
}

/// `st` with a search started at module `s`.
pub open spec fn search_start(st: Search, s: int) -> Search {
    Search { color: st.color.update(s, 1u8), path: seq![s as usize], ..st }
}

/// The initial state: every module white, nothing found.
pub open spec fn search_init(n: nat) -> Search {
    Search { color: Seq::new(n, |i: int| 0u8), next: Seq::new(n, |i: int| 0usize), path: seq![], cycles: seq![] }
}

/// The state after searching from each of the first `k` modules that was
/// still white when its turn came, each search run to its end.
pub open spec fn search_upto(adj: Seq<Seq<usize>>, k: nat) -> Search
    decreases k,
{
    if k == 0 {
        search_init(adj.len())
    } else {
        let st = search_upto(adj, (k - 1) as nat);
        if st.color[k - 1] == 0 {
            let s0 = search_start(st, k - 1);
            search_run(adj, s0, search_pot(adj, s0) as nat)
        } else {
            st
        }
    }
}

/// The cycles the search finds, in order of discovery.
pub open spec fn found_cycles(adj: Seq<Seq<usize>>) -> Seq<Seq<usize>> {
    search_upto(adj, adj.len()).cycles
}

proof fn lemma_step(adj: Seq<Seq<usize>>, st: Search)
    requires
        search_ok(adj, st),
        st.path.len() > 0,
    ensures
        search_ok(adj, search_step(adj, st)),
        0 <= search_pot(adj, search_step(adj, st)) < search_pot(adj, st),
{
    let n = adj.len();
    let nx = search_step(adj, st);
    let path = st.path;
    let u = path.last();
    assert(path[path.len() - 1] == u);
    assert(path.contains(u));
    assert(u < n);
    assert(st.color[u as int] == 1);
    if st.next[u as int] >= adj[u as int].len() {
        lemma_pot_update(adj, st.color, st.next, nx.color, nx.next, u as int, n);
        assert(node_pot(adj, st.color, st.next, u as int) == 1);
        assert(node_pot(adj, nx.color, nx.next, u as int) == 0);
        assert(nx.path =~= path.drop_last());
        assert forall|x: int| 0 <= x < n implies (#[trigger] nx.color[x] == 1) == nx.path.contains(x as usize) by {
            if x == u {
                if nx.path.contains(u) {
                    let j = choose|j: int| 0 <= j < nx.path.len() && nx.path[j] == u;
                    assert(path[j] == path[path.len() - 1]);
                }
            } else {
                if path.contains(x as usize) {
                    let j = choose|j: int| 0 <= j < path.len() && path[j] == x as usize;
                    assert(j != path.len() - 1);
                    assert(nx.path[j] == x as usize);
                }
                if nx.path.contains(x as usize) {
                    let j = choose|j: int| 0 <= j < nx.path.len() && nx.path[j] == x as usize;
                    assert(path[j] == x as usize);
                }
            }
        }
        assert forall|i: int| 0 <= i < nx.path.len() - 1 implies #[trigger] adj_edge(adj, nx.path[i] as int, nx.path[i + 1]) by {
            assert(adj_edge(adj, path[i] as int, path[i + 1]));
        }
        assert forall|i: int| 0 <= i < nx.path.len() implies (#[trigger] nx.path[i]) < n by {
            assert(nx.path[i] == path[i]);
        }
    } else {
        let k = st.next[u as int];
        let v = adj[u as int][k as int];
        assert(v < n);
        assert(adj_edge(adj, u as int, v)) by {
            assert(adj[u as int][k as int] == v);
        }
        let next1 = st.next.update(u as int, (k + 1) as usize);
        lemma_pot_update(adj, st.color, st.next, st.color, next1, u as int, n);
        assert(node_pot(adj, st.color, next1, u as int) == node_pot(adj, st.color, st.next, u as int) - 1);
        if st.color[v as int] == 1 {
            assert(path.contains(v));
            path.index_of_first_ensures(v);
            let p = path.index_of_first(v).unwrap();
            let c = path.subrange(p, path.len() as int);
            if c.len() >= 2 {
                let len = c.len() as int;
                assert(c.no_duplicates()) by {
                    assert forall|a: int, b: int| 0 <= a < len && 0 <= b < len && a != b implies c[a] != c[b] by {
                        assert(c[a] == path[p + a]);
                        assert(c[b] == path[p + b]);
                    }
                }
                assert forall|i: int| 0 <= i < len implies #[trigger] adj_edge(adj, c[i] as int, c[(i + 1) % len]) by {
                    if i < len - 1 {
                        assert((i + 1) % len == i + 1) by (nonlinear_arith)
                            requires 0 <= i + 1 < len;
                        assert(c[i] == path[p + i]);
                        assert(c[i + 1] == path[p + i + 1]);
                        assert(adj_edge(adj, path[p + i] as int, path[p + i + 1]));
                    } else {
                        assert((i + 1) % len == 0) by (nonlinear_arith)
                            requires i + 1 == len, len > 0;
                        assert(c[i] == u);
                        assert(c[0] == v);
                    }
                }
                assert forall|i: int| 0 <= i < len implies (#[trigger] c[i]) < adj.len() by {
                    assert(c[i] == path[p + i]);
                }
                assert(idx_cycle(adj, c));
                assert(nx.cycles == st.cycles.push(c));
                assert forall|i: int| 0 <= i < nx.cycles.len() implies idx_cycle(adj, #[trigger] nx.cycles[i]) by {
                    if i < st.cycles.len() {
                        assert(nx.cycles[i] == st.cycles[i]);
                    }
                }
            }
        } else if st.color[v as int] == 0 {
            assert(v != u);
            lemma_pot_update(adj, st.color, next1, nx.color, nx.next, v as int, n);
            assert(next1[v as int] == 0);
            assert(node_pot(adj, nx.color, nx.next, v as int) == node_pot(adj, st.color, next1, v as int) - 1);
            assert(!path.contains(v));
            assert(nx.path == path.push(v));
            assert(nx.path.no_duplicates()) by {
                assert forall|a: int, b: int| 0 <= a < nx.path.len() && 0 <= b < nx.path.len() && a != b implies nx.path[a] != nx.path[b] by {
                    if a < path.len() && b < path.len() {
                        assert(nx.path[a] == path[a] && nx.path[b] == path[b]);
                    } else if a < path.len() {
                        assert(nx.path[a] == path[a]);
                    } else if b < path.len() {
                        assert(nx.path[b] == path[b]);
                    }
                }
            }
            assert forall|x: int| 0 <= x < n implies (#[trigger] nx.color[x] == 1) == nx.path.contains(x as usize) by {
                if x == v {
                    assert(nx.path[path.len() as int] == v);
                } else if path.contains(x as usize) {
                    let j = choose|j: int| 0 <= j < path.len() && path[j] == x as usize;
                    assert(nx.path[j] == x as usize);
                } else if nx.path.contains(x as usize) {
                    let j = choose|j: int| 0 <= j < nx.path.len() && nx.path[j] == x as usize;
                    assert(j < path.len());
                    assert(path[j] == x as usize);
                }
            }
            assert forall|i: int| 0 <= i < nx.path.len() - 1 implies #[trigger] adj_edge(adj, nx.path[i] as int, nx.path[i + 1]) by {
                if i < path.len() - 1 {
                    assert(adj_edge(adj, path[i] as int, path[i + 1]));
                } else {
                    assert(nx.path[i] == u);
                    assert(nx.path[i + 1] == v);
                }
            }
            assert forall|i: int| 0 <= i < nx.path.len() implies (#[trigger] nx.path[i]) < n by {
                if i < path.len() {
                    assert(nx.path[i] == path[i]);
                }
            }
        }
    }
    lemma_pot_nonneg(adj, nx.color, nx.next, n);
}

proof fn lemma_run(adj: Seq<Seq<usize>>, st: Search, f: nat)
    requires
        search_ok(adj, st),
        f >= search_pot(adj, st),
    ensures
        search_run(adj, st, f) == search_run(adj, st, search_pot(adj, st) as nat),
        search_ok(adj, search_run(adj, st, f)),
        search_run(adj, st, f).path.len() == 0,
    decreases f,
{
    if st.path.len() > 0 {
        lemma_step(adj, st);
        let nx = search_step(adj, st);
        let p = search_pot(adj, st);
        assert(p >= 1);
        lemma_run(adj, nx, (f - 1) as nat);
        lemma_run(adj, nx, (p - 1) as nat);
    }
}

proof fn lemma_upto(adj: Seq<Seq<usize>>, k: nat)
    requires
        adj_ok(adj),
        k <= adj.len(),
    ensures
        search_ok(adj, search_upto(adj, k)),
        search_upto(adj, k).path.len() == 0,
    decreases k,
{
    let n = adj.len();
    if k == 0 {
        let st = search_init(n);
        assert forall|u: int| 0 <= u < n implies (#[trigger] st.color[u] == 1) == st.path.contains(u as usize) by {}
    } else {
        lemma_upto(adj, (k - 1) as nat);
        let st = search_upto(adj, (k - 1) as nat);
        if st.color[k - 1] == 0 {
            let s0 = search_start(st, k - 1);
            assert(s0.path[0] == (k - 1) as usize);
            assert forall|u: int| 0 <= u < n implies (#[trigger] s0.color[u] == 1) == s0.path.contains(u as usize) by {
                if u == k - 1 {
                    assert(s0.path[0] == u as usize);
                } else if s0.path.contains(u as usize) {
                    assert(s0.path[0] == u as usize);
                }
            }
            assert(search_ok(adj, s0));
            lemma_pot_nonneg(adj, s0.color, s0.next, n);
            lemma_run(adj, s0, search_pot(adj, s0) as nat);
        }
    }
}

/// Every neighbour already tried from a module on the path is the module
/// itself, done, or the module right after it on the path (the last one
/// tried).
pub open spec fn tried_done(adj: Seq<Seq<usize>>, st: Search) -> bool {
    forall|i: int, k: int| #![trigger st.path[i], adj[st.path[i] as int][k]]
        0 <= i < st.path.len() && 0 <= k < st.next[st.path[i] as int] ==> {
            let u = st.path[i] as int;
            let v = adj[u][k];
            ||| v as int == u
            ||| st.color[v as int] == 2
            ||| k == st.next[u] - 1 && i + 1 < st.path.len() && st.path[i + 1] == v
        }
}

/// No module of a cycle is done.
pub open spec fn cycles_undone(adj: Seq<Seq<usize>>, st: Search) -> bool {
    forall|c: Seq<usize>, j: int| #![trigger idx_cycle(adj, c), c[j]]
        idx_cycle(adj, c) && 0 <= j < c.len() ==> st.color[c[j] as int] != 2
}

/// What the search keeps while it has found no cycle.
pub open spec fn complete_inv(adj: Seq<Seq<usize>>, st: Search) -> bool {
    st.cycles.len() == 0 ==> tried_done(adj, st) && cycles_undone(adj, st)
}

proof fn lemma_step_complete(adj: Seq<Seq<usize>>, st: Search)
    requires
        search_ok(adj, st),
        st.path.len() > 0,
        complete_inv(adj, st),
    ensures
        complete_inv(adj, search_step(adj, st)),
        search_step(adj, st).cycles.len() >= st.cycles.len(),
        forall|x: int| 0 <= x < adj.len() && st.color[x] == 2 ==> #[trigger] search_step(adj, st).color[x] == 2,
        forall|x: int| 0 <= x < adj.len() && st.color[x] != 0 ==> #[trigger] search_step(adj, st).color[x] != 0,
{
    let n = adj.len();
    let nx = search_step(adj, st);
    let path = st.path;
    let last = path.len() - 1;
    let u = path.last();
    assert(path[last] == u);
    assert(path.contains(u));
    assert(st.color[u as int] == 1);
    if st.next[u as int] >= adj[u as int].len() {
        assert(nx.path =~= path.drop_last());
        if nx.cycles.len() == 0 {
            assert forall|i: int, k: int| #![trigger nx.path[i], adj[nx.path[i] as int][k]]
                0 <= i < nx.path.len() && 0 <= k < nx.next[nx.path[i] as int] implies {
                    let w = nx.path[i] as int;
                    let v = adj[w][k];
                    ||| v as int == w
                    ||| nx.color[v as int] == 2
                    ||| k == nx.next[w] - 1 && i + 1 < nx.path.len() && nx.path[i + 1] == v
                } by {
                assert(nx.path[i] == path[i]);
                let w = path[i] as int;
                let x = adj[w][k];
                assert(nx.next[w] == st.next[w]);
                assert(x as int == w || st.color[x as int] == 2
                    || (k == st.next[w] - 1 && i + 1 < path.len() && path[i + 1] == x));
                if st.color[x as int] == 2 {
                    assert(path.contains(path[i]));
                    assert(st.color[w] == 1);
                    assert(0 <= w < n && 0 <= k < adj[w].len());
                    assert(x < n);
                    assert(nx.color == st.color.update(u as int, 2u8));
                    assert(nx.color[x as int] == 2);
                } else if x as int != w {
                    if i + 1 == last {
                        assert(path[i + 1] == u);
                        assert(nx.color[u as int] == 2);
                    } else {
                        assert(nx.path[i + 1] == path[i + 1]);
                    }
                }
            }
            assert forall|c: Seq<usize>, j: int| #![trigger idx_cycle(adj, c), c[j]]
                idx_cycle(adj, c) && 0 <= j < c.len() implies nx.color[c[j] as int] != 2 by {
                if c[j] == u {
                    let len = c.len() as int;
                    lemma_mod_below_twice(j + 1, len);
                    let j2 = (j + 1) % len;
                    let v = c[j2];
                    assert(v != u);
                    assert(adj_edge(adj, c[j] as int, c[(j + 1) % len]));
                    assert(adj[u as int].contains(v));
                    let k = choose|k: int| 0 <= k < adj[u as int].len() && adj[u as int][k] == v;
                    let _ = path[last];
                    let _ = adj[path[last] as int][k];
                    assert(st.color[v as int] != 2);
                }
            }
        }
    } else {
        let k0 = st.next[u as int];
        let v = adj[u as int][k0 as int];
        assert(v < n);
        if st.color[v as int] == 1 {
            assert(path.contains(v));
            path.index_of_first_ensures(v);
            let p = path.index_of_first(v).unwrap();
            let c = path.subrange(p, path.len() as int);
            if v != u {
                assert(p != last);
                assert(c.len() >= 2);
                assert(nx.cycles.len() == st.cycles.len() + 1);
            } else {
                assert(p == last) by {
                    if p != last {
                        assert(path[p] == path[last]);
                    }
                }
                assert(nx.cycles == st.cycles);
                if nx.cycles.len() == 0 {
                    assert forall|i: int, k: int| #![trigger nx.path[i], adj[nx.path[i] as int][k]]
                        0 <= i < nx.path.len() && 0 <= k < nx.next[nx.path[i] as int] implies {
                            let w = nx.path[i] as int;
                            let x = adj[w][k];
                            ||| x as int == w
                            ||| nx.color[x as int] == 2
                            ||| k == nx.next[w] - 1 && i + 1 < nx.path.len() && nx.path[i + 1] == x
                        } by {
                        if path[i] != u {
                            let _ = adj[path[i] as int][k];
                        } else if k < k0 {
                            let _ = adj[path[i] as int][k];
                        }
                    }
                }
            }
        } else if st.color[v as int] == 0 {
            assert(v != u);
            assert(nx.path == path.push(v));
            assert(!path.contains(v));
            if nx.cycles.len() == 0 {
                assert forall|i: int, k: int| #![trigger nx.path[i], adj[nx.path[i] as int][k]]
                    0 <= i < nx.path.len() && 0 <= k < nx.next[nx.path[i] as int] implies {
                        let w = nx.path[i] as int;
                        let x = adj[w][k];
                        ||| x as int == w
                        ||| nx.color[x as int] == 2
                        ||| k == nx.next[w] - 1 && i + 1 < nx.path.len() && nx.path[i + 1] == x
                    } by {
                    if i < path.len() {
                        assert(nx.path[i] == path[i]);
                        if path[i] != u {
                            let w = path[i] as int;
                            let x = adj[w][k];
                            assert(nx.next[w] == st.next[w]);
                            assert(x as int == w || st.color[x as int] == 2
                                || (k == st.next[w] - 1 && i + 1 < path.len() && path[i + 1] == x));
                            if st.color[x as int] == 2 {
                                assert(path.contains(path[i]));
                                assert(st.color[w] == 1);
                                assert(0 <= w < n && 0 <= k < adj[w].len());
                                assert(x < n);
                                assert(x != v);
                                assert(nx.color == st.color.update(v as int, 1u8));
                                assert(nx.color[x as int] == 2);
                            }
                            if i + 1 < path.len() {
                                assert(nx.path[i + 1] == path[i + 1]);
                            }
                        } else {
                            assert(i == last) by {
                                if i != last {
                                    assert(path[i] == path[last]);
                                }
                            }
                            if k < k0 {
                                let x = adj[u as int][k];
                                assert(x as int == u as int || st.color[x as int] == 2
                                    || (k == st.next[u as int] - 1 && i + 1 < path.len() && path[i + 1] == x));
                                if st.color[x as int] == 2 {
                                    assert(x != v);
                                    assert(nx.color[x as int] == 2);
                                }
                            } else {
                                assert(k == k0);
                                assert(nx.path[i + 1] == v);
                            }
                        }
                    } else {
                        assert(nx.path[i] == v);
                        assert(st.next[v as int] == 0);
                    }
                }
            }
        } else {
            if nx.cycles.len() == 0 {
                assert forall|i: int, k: int| #![trigger nx.path[i], adj[nx.path[i] as int][k]]
                    0 <= i < nx.path.len() && 0 <= k < nx.next[nx.path[i] as int] implies {
                        let w = nx.path[i] as int;
                        let x = adj[w][k];
                        ||| x as int == w
                        ||| nx.color[x as int] == 2
                        ||| k == nx.next[w] - 1 && i + 1 < nx.path.len() && nx.path[i + 1] == x
                    } by {
                    if path[i] != u {
                        let _ = adj[path[i] as int][k];
                    } else if k < k0 {
                        let _ = adj[path[i] as int][k];
                    }
                }
            }
        }
    }
}

proof fn lemma_run_complete(adj: Seq<Seq<usize>>, st: Search, f: nat)
    requires
        search_ok(adj, st),
        complete_inv(adj, st),
    ensures
        complete_inv(adj, search_run(adj, st, f)),
        search_run(adj, st, f).cycles.len() >= st.cycles.len(),
        forall|x: int| 0 <= x < adj.len() && st.color[x] == 2 ==> #[trigger] search_run(adj, st, f).color[x] == 2,
        forall|x: int| 0 <= x < adj.len() && st.color[x] != 0 ==> #[trigger] search_run(adj, st, f).color[x] != 0,
    decreases f,
{
    if f > 0 && st.path.len() > 0 {
        lemma_step(adj, st);
        lemma_step_complete(adj, st);
        let nx = search_step(adj, st);
        lemma_run_complete(adj, nx, (f - 1) as nat);
        assert forall|x: int| 0 <= x < adj.len() && st.color[x] == 2 implies #[trigger] search_run(adj, st, f).color[x] == 2 by {
            assert(nx.color[x] == 2);
        }
        assert forall|x: int| 0 <= x < adj.len() && st.color[x] != 0 implies #[trigger] search_run(adj, st, f).color[x] != 0 by {
            assert(nx.color[x] != 0);
        }
    }
}

proof fn lemma_upto_complete(adj: Seq<Seq<usize>>, k: nat)
    requires
        adj_ok(adj),
        k <= adj.len(),
    ensures
        complete_inv(adj, search_upto(adj, k)),
        forall|x: int| 0 <= x < k ==> #[trigger] search_upto(adj, k).color[x] == 2,
    decreases k,
{
    let n = adj.len();
    lemma_upto(adj, k);
    if k > 0 {
        lemma_upto_complete(adj, (k - 1) as nat);
        lemma_upto(adj, (k - 1) as nat);
        let st = search_upto(adj, (k - 1) as nat);
        let fin = search_upto(adj, k);
        if st.color[k - 1] == 0 {
            let s0 = search_start(st, k - 1);
            assert(s0.path[0] == (k - 1) as usize);
            assert forall|u: int| 0 <= u < n implies (#[trigger] s0.color[u] == 1) == s0.path.contains(u as usize) by {
                if u == k - 1 {
                    assert(s0.path[0] == u as usize);
                } else if s0.path.contains(u as usize) {
                    assert(s0.path[0] == u as usize);
                }
            }
            assert(search_ok(adj, s0));
            assert(complete_inv(adj, s0)) by {
                if s0.cycles.len() == 0 {
                    assert forall|c: Seq<usize>, j: int| #![trigger idx_cycle(adj, c), c[j]]
                        idx_cycle(adj, c) && 0 <= j < c.len() implies s0.color[c[j] as int] != 2 by {
                        assert(st.color[c[j] as int] != 2);
                    }
                }
            }
            lemma_run_complete(adj, s0, search_pot(adj, s0) as nat);
            assert forall|x: int| 0 <= x < k implies #[trigger] fin.color[x] == 2 by {
                if x < k - 1 {
                    assert(s0.color[x] == 2);
                } else {
                    assert(s0.color[x] != 0);
                    assert(fin.color[x] != 1) by {
                        if fin.color[x] == 1 {
                            assert(fin.path.contains(x as usize));
                        }
                    }
                }
            }
        } else {
            assert(fin == st);
            assert(st.color[k - 1] != 1) by {
                if st.color[k - 1] == 1 {
                    assert(st.path.contains((k - 1) as usize));
                }
            }
        }
    }
}

proof fn lemma_unique_cycles_nonempty(cs: Seq<Seq<usize>>, k: nat)
    requires
        1 <= k <= cs.len(),
    ensures
        unique_cycles(cs, k).len() >= 1,
    decreases k,
{
    if k > 1 {
        lemma_unique_cycles_nonempty(cs, (k - 1) as nat);
    }
}

/// The cycle search is complete: circular dependency findings are
/// reported exactly when the module graph has a cycle of two or more
/// distinct modules.
pub proof fn law_cycle_search_complete(g: Graph)
    ensures
        circular_findings(g).len() > 0 <==> exists|c: Seq<usize>| #[trigger] idx_cycle(module_adj(g), c),
{
    let av = module_adj(g);
    let cs = found_cycles(av);
    lemma_module_adj_ok(g);
    lemma_upto(av, av.len());
    lemma_upto_complete(av, av.len());
    lemma_unique_cycles(cs, cs.len());
    if circular_findings(g).len() > 0 {
        let us = reported_cycles(g);
        assert(us.len() > 0);
        let q = choose|q: int| 0 <= q < cs.len() && #[trigger] us[0] == canonical(cs[q]);
        assert(idx_cycle(av, cs[q]));
    }
    if exists|c: Seq<usize>| #[trigger] idx_cycle(av, c) {
        let c = choose|c: Seq<usize>| #[trigger] idx_cycle(av, c);
        if cs.len() == 0 {
            let fin = search_upto(av, av.len());
            assert(fin.color[c[0] as int] == 2);
            assert(fin.color[c[0] as int] != 2);
        }
        lemma_unique_cycles_nonempty(cs, cs.len());
    }
}

/// The cycles as sequences.
pub open spec fn cycle_views(v: Seq<Vec<usize>>) -> Seq<Seq<usize>> {
    v.map_values(|c: Vec<usize>| c@)
}

/// The search state held in the vectors.
pub open spec fn search_of(color: Seq<u8>, next: Seq<usize>, path: Seq<usize>, cycles: Seq<Vec<usize>>) -> Search {
    Search { color, next, path, cycles: cycle_views(cycles) }
}

fn search_step_exec(adj: &Vec<Vec<usize>>, color: &mut Vec<u8>, next: &mut Vec<usize>, path: &mut Vec<usize>,
    cycles: &mut Vec<Vec<usize>>)
    requires
        search_ok(adj_views(adj@), search_of(old(color)@, old(next)@, old(path)@, old(cycles)@)),
        old(path)@.len() > 0,
    ensures
        search_of(final(color)@, final(next)@, final(path)@, final(cycles)@)
            == search_step(adj_views(adj@), search_of(old(color)@, old(next)@, old(path)@, old(cycles)@)),
{
    let ghost av = adj_views(adj@);
    let ghost st = search_of(color@, next@, path@, cycles@);
    let u = path[path.len() - 1];
    assert(path@[path@.len() - 1] == u);
    assert(u < adj@.len());
    assert(av[u as int] == adj@[u as int]@);
    let d = adj[u].len();
    if next[u] >= d {
        color.set(u, 2);
        path.pop();
        assert(search_of(color@, next@, path@, cycles@) =~= search_step(av, st));
    } else {
        let k = next[u];
        let v = adj[u][k];
        next.set(u, k + 1);
        assert(v < adj@.len());
        if color[v] == 1 {
            let mut p: usize = 0;
            while p < path.len() && path[p] != v
                invariant
                    p <= path@.len(),
                    forall|j: int| 0 <= j < p ==> path@[j] != v,
                decreases path@.len() - p,
            {
                p = p + 1;
            }
            proof {
                path@.index_of_first_ensures(v);
            }
            if p < path.len() {
                assert(path@.index_of_first(v) == Some(p as int)) by {
                    assert(path@.contains(v)) by {
                        assert(path@[p as int] == v);
                    }
                    let q = path@.index_of_first(v).unwrap();
                    if q < p {
                        assert(path@[q] == v);
                    } else if q > p {
                        assert(path@[p as int] == v);
                    }
                }
                let mut cyc: Vec<usize> = Vec::new();
                let mut j: usize = p;
                while j < path.len()
                    invariant
                        p <= j <= path@.len(),
                        cyc@ == path@.subrange(p as int, j as int),
                    decreases path@.len() - j,
                {
                    cyc.push(path[j]);
                    assert(path@.subrange(p as int, j + 1) =~= path@.subrange(p as int, j as int).push(path@[j as int]));
                    j = j + 1;
                }
                if cyc.len() >= 2 {
                    let ghost before = cycles@;
                    cycles.push(cyc);
                    assert(cycle_views(cycles@) =~= cycle_views(before).push(path@.subrange(p as int, path@.len() as int)));
                }
            } else {
                assert(!path@.contains(v)) by {
                    if path@.contains(v) {
                        let q = choose|q: int| 0 <= q < path@.len() && path@[q] == v;
                    }
                }
            }
            assert(search_of(color@, next@, path@, cycles@) =~= search_step(av, st));
        } else if color[v] == 0 {
            color.set(v, 1);
            path.push(v);
            assert(search_of(color@, next@, path@, cycles@) =~= search_step(av, st));
        } else {
            assert(search_of(color@, next@, path@, cycles@) =~= search_step(av, st));
        }
    }
}

fn find_cycles(adj: &Vec<Vec<usize>>) -> (cycles: Vec<Vec<usize>>)
    requires
        adj_ok(adj_views(adj@)),
    ensures
        cycle_views(cycles@) == found_cycles(adj_views(adj@)),
{
    let n = adj.len();
    let ghost av = adj_views(adj@);
    let mut color: Vec<u8> = Vec::new();
    let mut next: Vec<usize> = Vec::new();
    while color.len() < n
        invariant
            color@.len() == next@.len(),
            color@.len() <= n,
            forall|u: int| 0 <= u < color@.len() ==> color@[u] == 0 && next@[u] == 0,
        decreases n - color@.len(),
    {
        color.push(0);
        next.push(0);
    }
    let mut path: Vec<usize> = Vec::new();
    let mut cycles: Vec<Vec<usize>> = Vec::new();
    assert(color@ =~= Seq::new(n as nat, |i: int| 0u8));
    assert(next@ =~= Seq::new(n as nat, |i: int| 0usize));
    assert(path@ =~= Seq::<usize>::empty());
    assert(cycle_views(cycles@) =~= Seq::<Seq<usize>>::empty());
    assert(search_of(color@, next@, path@, cycles@) == search_upto(av, 0));
    let mut s: usize = 0;
    while s < n
        invariant
            n == adj@.len(),
            av == adj_views(adj@),
            av.len() == n,
            adj_ok(av),
            s <= n,
            search_of(color@, next@, path@, cycles@) == search_upto(av, s as nat),
        decreases n - s,
    {
        proof {
            lemma_upto(av, s as nat);
        }
        let ghost st = search_upto(av, s as nat);
        if color[s] == 0 {
            color.set(s, 1);
            path.push(s);
            let ghost s0 = search_of(color@, next@, path@, cycles@);
            assert(s0 =~= search_start(st, s as int));
            proof {
                assert forall|u: int| 0 <= u < n implies (#[trigger] s0.color[u] == 1) == s0.path.contains(u as usize) by {
                    if u == s {
                        assert(s0.path[0] == u as usize);
                    } else if s0.path.contains(u as usize) {
                        assert(s0.path[0] == u as usize);
                    }
                }
                assert(search_ok(av, s0));
                lemma_pot_nonneg(av, s0.color, s0.next, n as nat);
            }
            while path.len() > 0
                invariant
                    n == adj@.len(),
                    av == adj_views(adj@),
                    av.len() == n,
                    adj_ok(av),
                    search_ok(av, search_of(color@, next@, path@, cycles@)),
                    search_run(av, search_of(color@, next@, path@, cycles@), search_pot(av, search_of(color@, next@, path@, cycles@)) as nat)
                        == search_run(av, s0, search_pot(av, s0) as nat),
                decreases search_pot(av, search_of(color@, next@, path@, cycles@)),
            {
                let ghost c0 = search_of(color@, next@, path@, cycles@);
                proof {
                    lemma_step(av, c0);
                }
                search_step_exec(adj, &mut color, &mut next, &mut path, &mut cycles);
                proof {
                    let c1 = search_step(av, c0);
                    let p0 = search_pot(av, c0);
                    assert(search_run(av, c0, p0 as nat) == search_run(av, c1, (p0 - 1) as nat));
                    lemma_run(av, c1, (p0 - 1) as nat);
                }
            }
            assert(search_run(av, search_of(color@, next@, path@, cycles@), search_pot(av, search_of(color@, next@, path@, cycles@)) as nat)
                == search_of(color@, next@, path@, cycles@));
        }
        s = s + 1;
    }
    cycles
}

/// `r` is `c` rotated to start at position `m`.
pub open spec fn rotation_of(r: Seq<usize>, c: Seq<usize>, m: int) -> bool {
    &&& r.len() == c.len()
    &&& 0 <= m < c.len()
    &&& forall|i: int| 0 <= i < r.len() ==> #[trigger] r[i] == c[(m + i) % (c.len() as int)]
}

proof fn lemma_mod_below_twice(x: int, len: int)
    requires
        0 < len,
        0 <= x < 2 * len,
    ensures
        x % len == if x < len { x } else { x - len },
{
    if x < len {
        vstd::arithmetic::div_mod::lemma_small_mod(x as nat, len as nat);
    } else {
        vstd::arithmetic::div_mod::lemma_mod_sub_multiples_vanish(x, len);
        vstd::arithmetic::div_mod::lemma_small_mod((x - len) as nat, len as nat);
    }
}

proof fn lemma_rotation_cycle(adj: Seq<Seq<usize>>, r: Seq<usize>, c: Seq<usize>, m: int)
    requires
        idx_cycle(adj, c),
        rotation_of(r, c, m),
    ensures
        idx_cycle(adj, r),
{
    let len = c.len() as int;
    assert forall|i: int| 0 <= i < len implies 0 <= #[trigger] ((m + i) % len) < len by {
        lemma_mod_below_twice(m + i, len);
    }
    assert forall|i: int| 0 <= i < len implies (#[trigger] r[i]) < adj.len() by {
        assert(0 <= (m + i) % len < len);
    }
    assert(r.no_duplicates()) by {
        assert forall|a: int, b: int| 0 <= a < len && 0 <= b < len && a != b implies r[a] != r[b] by {
            lemma_mod_below_twice(m + a, len);
            lemma_mod_below_twice(m + b, len);
        }
    }
    assert forall|i: int| 0 <= i < len implies #[trigger] adj_edge(adj, r[i] as int, r[(i + 1) % len]) by {
        let j = (m + i) % len;
        lemma_mod_below_twice(m + i, len);
        assert(adj_edge(adj, c[j] as int, c[(j + 1) % len]));
        lemma_mod_below_twice(i + 1, len);
        lemma_mod_below_twice(j + 1, len);
        lemma_mod_below_twice(m + (i + 1) % len, len);
        assert(r[(i + 1) % len] == c[(m + (i + 1) % len) % len]);
    }
}

/// Rotates a cycle to start at its module with the smallest path.
/// Position of the smallest entry among the first `k` of `c`, the first
/// one on ties.
pub open spec fn min_pos(c: Seq<usize>, k: nat) -> int
    decreases k,
{
    if k <= 1 {
        0
    } else {
        let m = min_pos(c, (k - 1) as nat);
        if c[k - 1] < c[m] { k - 1 } else { m }
    }
}

/// `c` rotated to start at position `m`.
pub open spec fn rotate(c: Seq<usize>, m: int) -> Seq<usize> {
    Seq::new(c.len(), |i: int| c[(m + i) % (c.len() as int)])
}

/// A cycle rotated to start at its first module in module order, which is
/// the module with the smallest path.
pub open spec fn canonical(c: Seq<usize>) -> Seq<usize> {
    rotate(c, min_pos(c, c.len()))
}

proof fn lemma_min_pos(c: Seq<usize>, k: nat)
    requires
        1 <= k <= c.len(),
    ensures
        0 <= min_pos(c, k) < k,
        forall|x: int| 0 <= x < k ==> c[min_pos(c, k)] <= #[trigger] c[x],
    decreases k,
{
    if k > 1 {
        lemma_min_pos(c, (k - 1) as nat);
    }
}

/// Rotates a cycle to start at its first module in module order.
fn canonicalize_cycle(c: &Vec<usize>) -> (r: Vec<usize>)
    ensures
        r@ == canonical(c@),
        c@.len() >= 1 ==> rotation_of(r@, c@, min_pos(c@, c@.len())),
{
    let len = c.len();
    if len == 0 {
        assert(canonical(c@) =~= Seq::<usize>::empty());
        return Vec::new();
    }
    let mut m: usize = 0;
    let mut i: usize = 1;
    while i < len
        invariant
            len == c@.len(),
            1 <= i <= len,
            m == min_pos(c@, i as nat),
            m < i,
        decreases len - i,
    {
        if c[i] < c[m] {
            m = i;
        }
        i = i + 1;
    }
    let mut out: Vec<usize> = Vec::new();
    let mut k: usize = 0;
    while k < len
        invariant
            len == c@.len(),
            m < len,
            k <= len,
            out@.len() == k,
            forall|q: int| 0 <= q < k ==> #[trigger] out@[q] == c@[(m + q) % (len as int)],
        decreases len - k,
    {
        let j = if m < len - k { m + k } else { m - (len - k) };
        proof {
            lemma_mod_below_twice(m + k, len as int);
        }
        out.push(c[j]);
        k = k + 1;
    }
    assert(out@ =~= canonical(c@));
    assert(rotation_of(out@, c@, m as int));
    out
}

/// The distinct canonical forms of the first `k` cycles of `cs`, in order
/// of first appearance.
pub open spec fn unique_cycles(cs: Seq<Seq<usize>>, k: nat) -> Seq<Seq<usize>>
    decreases k,
{
    if k == 0 || k > cs.len() {
        seq![]
    } else {
        let prev = unique_cycles(cs, (k - 1) as nat);
        let c = canonical(cs[k - 1]);
        if prev.contains(c) { prev } else { prev.push(c) }
    }
}

/// The diagnostic for a cycle of module numbers.
pub open spec fn numbered_cycle_diag(g: Graph, c: Seq<usize>) -> DiagnosticView {
    cycle_diag(g, cycle_names(modules(g), c))
}

/// The cycles reported, as module numbers: those that the search finds,
/// in order of discovery, rotated to start at their smallest path,
/// repeats dropped.
pub open spec fn reported_cycles(g: Graph) -> Seq<Seq<usize>> {
    let cs = found_cycles(module_adj(g));
    unique_cycles(cs, cs.len())
}

/// All circular dependency findings, one per reported cycle.
pub open spec fn circular_findings(g: Graph) -> Seq<DiagnosticView> {
    reported_cycles(g).map_values(|c: Seq<usize>| numbered_cycle_diag(g, c))
}

fn same_cycle(a: &Vec<usize>, b: &Vec<usize>) -> (r: bool)
    ensures
        r == (a@ == b@),
{
    if a.len() != b.len() {
        return false;
    }
    let mut i: usize = 0;
    while i < a.len()
        invariant
            a@.len() == b@.len(),
            i <= a@.len(),
            forall|j: int| 0 <= j < i ==> a@[j] == b@[j],
        decreases a@.len() - i,
    {
        if a[i] != b[i] {
            return false;
        }
        i = i + 1;
    }
    assert(a@ =~= b@);
    true
}

/// The module names along a cycle of module indices.
pub open spec fn cycle_names(mods: Seq<Seq<char>>, c: Seq<usize>) -> Seq<Seq<char>> {
    c.map_values(|u: usize| mods[u as int])
}

proof fn lemma_names_cycle(g: Graph, mods: Seq<Seq<char>>, adj: Seq<Seq<usize>>, c: Seq<usize>)
    requires
        adj_sound(g, mods, adj),
        mods.no_duplicates(),
        idx_cycle(adj, c),
    ensures
        cycle_ok(g, cycle_names(mods, c)),
{
    let ms = cycle_names(mods, c);
    let len = c.len() as int;
    assert(ms.no_duplicates()) by {
        assert forall|a: int, b: int| 0 <= a < len && 0 <= b < len && a != b implies ms[a] != ms[b] by {
            assert(c[a] != c[b]);
            assert(c[a] < adj.len() && c[b] < adj.len());
        }
    }
    assert forall|i: int| 0 <= i < len implies #[trigger] module_edge(g, ms[i], ms[(i + 1) % len]) by {
        assert(adj_edge(adj, c[i] as int, c[(i + 1) % len]));
        vstd::arithmetic::div_mod::lemma_mod_bound(i + 1, len);
        let u = c[i] as int;
        assert(c[i] < adj.len());
        let k = choose|k: int| 0 <= k < adj[u].len() && adj[u][k] == c[(i + 1) % len];
        assert(module_edge(g, mods[u], mods[adj[u][k] as int]));
    }
}

fn find_xref_exec(xs: &Vec<XRef>, a: &Vec<char>, b: &Vec<char>) -> (r: Option<usize>)
    ensures
        r matches Some(j) ==> j < xs@.len() && find_xref(xref_views(xs@), a@, b@) == Some(xs@[j as int]@),
        r is None ==> find_xref(xref_views(xs@), a@, b@) is None,
{
    let ghost xv = xref_views(xs@);
    let mut j: usize = 0;
    while j < xs.len()
        invariant
            j <= xs@.len(),
            xv == xref_views(xs@),
            find_xref(xv, a@, b@) == find_from(xv, a@, b@, j as int),
        decreases xs@.len() - j,
    {
        assert(xv[j as int] == xs@[j as int]@);
        if chars_eq(&xs[j].from_file, a) && chars_eq(&xs[j].to_file, b) {
            return Some(j);
        }
        j = j + 1;
    }
    None
}

fn build_step(xs: &Vec<XRef>, a: &Vec<char>, b: &Vec<char>, g: Ghost<Graph>) -> (e: Evidence)
    requires
        xref_views(xs@) == xrefs(g@),
    ensures
        e@ == step_evidence(g@, a@, b@),
{
    match find_xref_exec(xs, a, b) {
        Some(j) => {
            let x = &xs[j];
            let mut obs = String::new();
            push_chars(&mut obs, a);
            push_str(&mut obs, " references ");
            push_chars(&mut obs, b);
            push_str(&mut obs, " ('");
            push_chars(&mut obs, &x.from_name);
            push_str(&mut obs, "' depends on '");
            push_chars(&mut obs, &x.to_name);
            push_str(&mut obs, "')");
            let mut l = String::new();
            push_chars(&mut l, &x.from_file);
            push_str(&mut l, ":");
            push_usize(&mut l, x.line as usize);
            let e = Evidence { observation: obs, location: Some(l), context: None };
            let ghost want = step_evidence(g@, a@, b@);
            assert(e@.observation =~= want.observation);
            assert(e@.location =~= want.location);
            e
        },
        None => {
            let mut obs = String::new();
            push_chars(&mut obs, a);
            push_str(&mut obs, " depends on ");
            push_chars(&mut obs, b);
            let e = Evidence { observation: obs, location: None, context: None };
            let ghost want = step_evidence(g@, a@, b@);
            assert(e@.observation =~= want.observation);
            e
        },
    }
}

fn build_diagnostic(graph: &Graph, xs: &Vec<XRef>, mods: &Vec<Vec<char>>, c: &Vec<usize>) -> (d: Diagnostic)
    requires
        xref_views(xs@) == xrefs(*graph),
        c@.len() >= 1,
        forall|i: int| 0 <= i < c@.len() ==> (#[trigger] c@[i]) < mods@.len(),
    ensures
        d@ == cycle_diag(*graph, cycle_names(char_views(mods@), c@)),
{
    let ghost ms = cycle_names(char_views(mods@), c@);
    let len = c.len();
    let mut names: Vec<Vec<char>> = Vec::new();
    let mut evidence: Vec<Evidence> = Vec::new();
    let mut i: usize = 0;
    while i < len
        invariant
            len == c@.len(),
            len >= 1,
            i <= len,
            ms == cycle_names(char_views(mods@), c@),
            forall|q: int| 0 <= q < c@.len() ==> (#[trigger] c@[q]) < mods@.len(),
            xref_views(xs@) == xrefs(*graph),
            names@.map_values(|p: Vec<char>| p@) == ms.take(i as int),
            evidence@.len() == i,
            forall|q: int| 0 <= q < i ==> (#[trigger] evidence@[q])@ == step_evidence(*graph, ms[q], ms[(q + 1) % (len as int)]),
        decreases len - i,
    {
        let a = &mods[c[i]];
        let nxt = if i + 1 < len { i + 1 } else { 0 };
        assert(nxt == (i + 1) % (len as int)) by {
            if i + 1 < len {
                vstd::arithmetic::div_mod::lemma_small_mod((i + 1) as nat, len as nat);
            } else {
                vstd::arithmetic::div_mod::lemma_mod_self_0(len as int);
            }
        }
        let b = &mods[c[nxt]];
        assert(a@ == ms[i as int]);
        assert(b@ == ms[nxt as int]);
        let e = build_step(xs, a, b, Ghost(*graph));
        evidence.push(e);
        let ghost before = names@.map_values(|p: Vec<char>| p@);
        names.push(copy_chars(a));
        assert(ms.take(i + 1) =~= ms.take(i as int).push(ms[i as int]));
        assert(names@.map_values(|p: Vec<char>| p@) =~= before.push(a@));
        i = i + 1;
    }
    assert(ms.take(len as int) =~= ms);
    let mut entity = String::new();
    push_joined(&mut entity, &names, ", ");
    let mut message = String::new();
    push_str(&mut message, "Circular dependency: ");
    push_usize(&mut message, len);
    push_str(&mut message, " modules form a dependency cycle (");
    push_joined(&mut message, &names, " -> ");
    push_str(&mut message, ")");
    let mut suggestion = String::new();
    push_str(&mut suggestion, "Extract shared types into a common module that both can depend on, or restructure to eliminate the cycle.");
    let mut location = String::new();
    push_chars(&mut location, &mods[c[0]]);
    push_str(&mut location, ":1");
    let d = Diagnostic {
        id: String::new(),
        pattern: DiagnosticPattern::CircularDependency,
        severity: Severity::Warning,
        confidence: Confidence::High,
        entity,
        message,
        evidence,
        suggestion,
        location,
    };
    let ghost want = cycle_diag(*graph, ms);
    assert(d@.evidence =~= want.evidence);
    assert(d@.entity =~= want.entity);
    assert(d@.message =~= want.message);
    assert(d@.suggestion =~= want.suggestion);
    assert(d@.location =~= want.location);
    d
}

proof fn lemma_rotate(c: Seq<usize>, m: int)
    requires
        0 <= m < c.len(),
    ensures
        rotation_of(rotate(c, m), c, m),
{
}

proof fn lemma_unique_cycles(cs: Seq<Seq<usize>>, k: nat)
    requires
        k <= cs.len(),
    ensures
        forall|j: int| 0 <= j < unique_cycles(cs, k).len()
            ==> exists|q: int| 0 <= q < k && #[trigger] unique_cycles(cs, k)[j] == canonical(cs[q]),
    decreases k,
{
    if k > 0 {
        lemma_unique_cycles(cs, (k - 1) as nat);
        let prev = unique_cycles(cs, (k - 1) as nat);
        assert forall|j: int| 0 <= j < unique_cycles(cs, k).len()
            implies exists|q: int| 0 <= q < k && #[trigger] unique_cycles(cs, k)[j] == canonical(cs[q]) by {
            if j < prev.len() {
                assert(unique_cycles(cs, k)[j] == prev[j]);
                let q = choose|q: int| 0 <= q < k - 1 && #[trigger] prev[j] == canonical(cs[q]);
                assert(unique_cycles(cs, k)[j] == canonical(cs[q]));
            } else {
                assert(unique_cycles(cs, k)[j] == canonical(cs[k - 1]));
            }
        }
    }
}

proof fn lemma_module_files_len(g: Graph, n: nat)
    requires
        n <= g.syms().len(),
    ensures
        module_files_upto(g, n).len() <= n,
    decreases n,
{
    if n > 0 {
        lemma_module_files_len(g, (n - 1) as nat);
    }
}

/// The module dependency graph is well formed: every entry names a module
/// and every length fits a `usize`.
pub proof fn lemma_module_adj_ok(g: Graph)
    ensures
        adj_ok(module_adj(g)),
{
    let ms = modules(g);
    let ma = module_adj(g);
    let fs = module_files_upto(g, g.syms().len());
    g.lemma_len_bounds();
    lemma_module_files_len(g, g.syms().len());
    lemma_sort_modules_contents(fs, fs.len());
    lemma_module_adj_sound(g);
    assert forall|u: int| 0 <= u < ma.len() implies (#[trigger] ma[u]).len() <= usize::MAX by {
        below(ms.len()).filter_lemma(depends_on(g, ms, u));
    }
}

/// Every circular dependency finding reports a real dependency cycle: two
/// or more distinct modules, each depending on the next and the last on
/// the first.
pub proof fn law_circular_findings_are_cycles(g: Graph)
    ensures
        forall|i: int| 0 <= i < circular_findings(g).len() ==> reported_cycle(g, #[trigger] circular_findings(g)[i]),
{
    let ms = modules(g);
    let av = module_adj(g);
    let cs = found_cycles(av);
    let us = unique_cycles(cs, cs.len());
    lemma_modules(g);
    lemma_module_adj_ok(g);
    lemma_module_adj_sound(g);
    lemma_upto(av, av.len());
    lemma_unique_cycles(cs, cs.len());
    assert forall|i: int| 0 <= i < circular_findings(g).len() implies reported_cycle(g, #[trigger] circular_findings(g)[i]) by {
        let q = choose|q: int| 0 <= q < cs.len() && #[trigger] us[i] == canonical(cs[q]);
        assert(idx_cycle(av, cs[q]));
        let m = min_pos(cs[q], cs[q].len());
        lemma_min_pos(cs[q], cs[q].len());
        lemma_rotate(cs[q], m);
        lemma_rotation_cycle(av, us[i], cs[q], m);
        lemma_names_cycle(g, ms, av, us[i]);
        assert(circular_findings(g)[i] == cycle_diag(g, cycle_names(ms, us[i])));
    }
}

proof fn lemma_find_from_some(xs: Seq<XRefView>, a: Seq<char>, b: Seq<char>, j: int, k: int)
    requires
        0 <= j <= k < xs.len(),
        xs[k].0 == a,
        xs[k].1 == b,
    ensures
        find_from(xs, a, b, j) is Some,
    decreases xs.len() - j,
{
    if !(xs[j].0 == a && xs[j].1 == b) {
        lemma_find_from_some(xs, a, b, j + 1, k);
    }
}

/// Every step of a reported cycle is backed by a concrete cross-module
/// reference: each evidence entry of a finding gives the location of the
/// reference from one module of the cycle to the next.
pub proof fn law_cycle_steps_are_located(g: Graph)
    ensures
        forall|i: int, k: int| 0 <= i < circular_findings(g).len() && 0 <= k < circular_findings(g)[i].evidence.len()
            ==> (#[trigger] circular_findings(g)[i].evidence[k]).location is Some,
{
    law_circular_findings_are_cycles(g);
    let cf = circular_findings(g);
    assert forall|i: int, k: int| 0 <= i < cf.len() && 0 <= k < cf[i].evidence.len()
        implies (#[trigger] cf[i].evidence[k]).location is Some by {
        assert(reported_cycle(g, cf[i]));
        let ms = choose|ms: Seq<Seq<char>>| #[trigger] cycle_ok(g, ms) && cf[i] == cycle_diag(g, ms);
        let len = ms.len() as int;
        assert(module_edge(g, ms[k], ms[(k + 1) % len]));
        let xs = xrefs(g);
        let q = choose|q: int| 0 <= q < xs.len() && (#[trigger] xs[q]).0 == ms[k] && xs[q].1 == ms[(k + 1) % len];
        lemma_find_from_some(xs, ms[k], ms[(k + 1) % len], 0, q);
        assert(cf[i].evidence[k] == step_evidence(g, ms[k], ms[(k + 1) % len]));
    }
}

/// Every reported cycle starts at its module with the smallest path.
pub proof fn law_cycles_start_at_smallest_path(g: Graph)
    ensures
        forall|j: int, k: int| 0 <= j < reported_cycles(g).len() && 0 < k < reported_cycles(g)[j].len()
            ==> path_lt(modules(g)[reported_cycles(g)[j][0] as int], modules(g)[#[trigger] reported_cycles(g)[j][k] as int]),
{
    let ms = modules(g);
    let av = module_adj(g);
    let cs = found_cycles(av);
    let us = reported_cycles(g);
    lemma_modules(g);
    lemma_module_adj_ok(g);
    lemma_upto(av, av.len());
    lemma_unique_cycles(cs, cs.len());
    law_modules_in_path_order(g);
    assert forall|j: int, k: int| 0 <= j < us.len() && 0 < k < us[j].len()
        implies path_lt(ms[us[j][0] as int], ms[#[trigger] us[j][k] as int]) by {
        let q = choose|q: int| 0 <= q < cs.len() && #[trigger] us[j] == canonical(cs[q]);
        let c = cs[q];
        assert(idx_cycle(av, c));
        let len = c.len() as int;
        let m = min_pos(c, c.len());
        lemma_min_pos(c, c.len());
        lemma_mod_below_twice(m + k, len);
        lemma_mod_below_twice(m, len);
        let x = (m + k) % len;
        assert(us[j][0] == c[m]);
        assert(us[j][k] == c[x]);
        assert(x != m);
        assert(c[m] <= c[x]);
        assert(c[m] != c[x]);
        assert(c[m] < ms.len() && c[x] < ms.len());
        assert(path_lt(ms[c[m] as int], ms[c[x] as int]));
    }
}

proof fn lemma_rotate_distinct(c: Seq<usize>, k: int)
    requires
        c.no_duplicates(),
        0 <= k < c.len(),
    ensures
        rotate(c, k).no_duplicates(),
{
    let n = c.len() as int;
    let d = rotate(c, k);
    assert forall|a: int, b: int| 0 <= a < n && 0 <= b < n && a != b implies d[a] != d[b] by {
        lemma_mod_below_twice(k + a, n);
        lemma_mod_below_twice(k + b, n);
    }
}

/// Rotating a cycle of distinct modules does not change its canonical
/// form: a cycle is deduplicated up to rotation.
pub proof fn law_canonical_rotation_invariant(c: Seq<usize>, k: int)
    requires
        c.no_duplicates(),
        0 <= k < c.len(),
    ensures
        canonical(rotate(c, k)) == canonical(c),
{
    let n = c.len() as int;
    let d = rotate(c, k);
    lemma_rotate_distinct(c, k);
    let m = min_pos(c, c.len());
    let m2 = min_pos(d, d.len());
    lemma_min_pos(c, c.len());
    lemma_min_pos(d, d.len());
    let p = if m >= k { m - k } else { m - k + n };
    lemma_mod_below_twice(k + p, n);
    assert(d[p] == c[m]);
    lemma_mod_below_twice(k + m2, n);
    let j = (k + m2) % n;
    assert(d[m2] == c[j]);
    assert(c[m] <= c[j]);
    assert(d[m2] <= d[p]);
    assert(j == m);
    assert forall|i: int| 0 <= i < n implies #[trigger] canonical(d)[i] == canonical(c)[i] by {
        lemma_mod_below_twice(m2 + i, n);
        let t = (m2 + i) % n;
        lemma_mod_below_twice(k + t, n);
        lemma_mod_below_twice(m + i, n);
        vstd::arithmetic::div_mod::lemma_add_mod_noop_right(k, m2 + i, n);
        vstd::arithmetic::div_mod::lemma_add_mod_noop(k + m2, i, n);
        lemma_mod_below_twice(i, n);
        assert(canonical(d)[i] == d[t]);
        assert(d[t] == c[(k + t) % n]);
        assert((k + t) % n == (k + m2 + i) % n);
        assert((k + m2 + i) % n == (j + i % n) % n);
        assert(canonical(c)[i] == c[(m + i) % n]);
    }
    assert(canonical(d) =~= canonical(c));
}

/// Canonicalizing a cycle of distinct modules twice changes nothing.
pub proof fn law_canonical_idempotent(c: Seq<usize>)
    requires
        c.no_duplicates(),
    ensures
        canonical(canonical(c)) == canonical(c),
{
    if c.len() == 0 {
        assert(canonical(c) =~= c);
    } else {
        lemma_min_pos(c, c.len());
        law_canonical_rotation_invariant(c, min_pos(c, c.len()));
    }
}

proof fn lemma_unique_cycles_distinct(cs: Seq<Seq<usize>>, k: nat)
    ensures
        unique_cycles(cs, k).no_duplicates(),
    decreases k,
{
    if k > 0 && k <= cs.len() {
        lemma_unique_cycles_distinct(cs, (k - 1) as nat);
        let prev = unique_cycles(cs, (k - 1) as nat);
        let c = canonical(cs[k - 1]);
        if !prev.contains(c) {
            let cur = prev.push(c);
            assert forall|a: int, b: int| 0 <= a < cur.len() && 0 <= b < cur.len() && a != b
                implies cur[a] != cur[b] by {
                if a == prev.len() as int {
                    assert(cur[b] == prev[b]);
                } else if b == prev.len() as int {
                    assert(cur[a] == prev[a]);
                }
            }
        }
    }
}

/// Each cycle is reported once: the reported cycles are distinct and none
/// is a rotation of another, and each circular dependency finding carries
/// one evidence entry per step of its cycle of two or more modules, with
/// High confidence.
pub proof fn law_cycles_reported_once(g: Graph)
    ensures
        reported_cycles(g).no_duplicates(),
        forall|i: int, j: int, k: int|
            #![trigger rotate(reported_cycles(g)[j], k), reported_cycles(g)[i]]
            0 <= i < reported_cycles(g).len() && 0 <= j < reported_cycles(g).len() && i != j
                && 0 <= k < reported_cycles(g)[j].len()
                ==> rotate(reported_cycles(g)[j], k) != reported_cycles(g)[i],
        circular_findings(g).len() == reported_cycles(g).len(),
        forall|i: int| 0 <= i < reported_cycles(g).len() ==> {
            &&& reported_cycles(g)[i].len() >= 2
            &&& (#[trigger] circular_findings(g)[i]).evidence.len() == reported_cycles(g)[i].len()
            &&& circular_findings(g)[i].confidence == Confidence::High
        },
{
    let av = module_adj(g);
    let cs = found_cycles(av);
    let us = reported_cycles(g);
    lemma_module_adj_ok(g);
    lemma_upto(av, av.len());
    lemma_unique_cycles(cs, cs.len());
    lemma_unique_cycles_distinct(cs, cs.len());
    assert forall|i: int| 0 <= i < us.len() implies {
        &&& us[i].len() >= 2
        &&& us[i].no_duplicates()
        &&& canonical(us[i]) == us[i]
    } by {
        let q = choose|q: int| 0 <= q < cs.len() && #[trigger] us[i] == canonical(cs[q]);
        assert(idx_cycle(av, cs[q]));
        lemma_min_pos(cs[q], cs[q].len());
        lemma_rotate_distinct(cs[q], min_pos(cs[q], cs[q].len()));
        law_canonical_idempotent(cs[q]);
    }
    assert forall|i: int, j: int, k: int|
        #![trigger rotate(us[j], k), us[i]]
        0 <= i < us.len() && 0 <= j < us.len() && i != j && 0 <= k < us[j].len()
            implies rotate(us[j], k) != us[i] by {
        law_canonical_rotation_invariant(us[j], k);
        if rotate(us[j], k) == us[i] {
            assert(us[i] == us[j]);
        }
    }
    assert forall|i: int| 0 <= i < us.len() implies {
        &&& us[i].len() >= 2
        &&& (#[trigger] circular_findings(g)[i]).evidence.len() == us[i].len()
        &&& circular_findings(g)[i].confidence == Confidence::High
    } by {
        assert(circular_findings(g)[i] == numbered_cycle_diag(g, us[i]));
    }
}

fn deduplicate_cycles(raw: &Vec<Vec<usize>>) -> (unique: Vec<Vec<usize>>)
    ensures
        cycle_views(unique@) == unique_cycles(cycle_views(raw@), raw@.len()),
{
    let ghost rv = cycle_views(raw@);
    let mut seen: Vec<Vec<usize>> = Vec::new();
    let mut i: usize = 0;
    while i < raw.len()
        invariant
            i <= raw@.len(),
            rv == cycle_views(raw@),
            cycle_views(seen@) == unique_cycles(rv, i as nat),
        decreases raw@.len() - i,
    {
        assert(rv[i as int] == raw@[i as int]@);
        let canon = canonicalize_cycle(&raw[i]);
        let ghost prev = unique_cycles(rv, i as nat);
        let mut dup = false;
        let mut k: usize = 0;
        while k < seen.len()
            invariant
                k <= seen@.len(),
                dup == exists|q: int| 0 <= q < k && seen@[q]@ == canon@,
            decreases seen@.len() - k,
        {
            if same_cycle(&seen[k], &canon) {
                dup = true;
            }
            k = k + 1;
        }
        assert(dup == prev.contains(canon@)) by {
            if dup {
                let q = choose|q: int| 0 <= q < seen@.len() && seen@[q]@ == canon@;
                assert(cycle_views(seen@)[q] == canon@);
            }
            if prev.contains(canon@) {
                let q = choose|q: int| 0 <= q < prev.len() && prev[q] == canon@;
                assert(cycle_views(seen@)[q] == seen@[q]@);
            }
        }
        if !dup {
            let ghost sb = cycle_views(seen@);
            seen.push(canon);
            assert(cycle_views(seen@) =~= sb.push(canonical(rv[i as int])));
        }
        i = i + 1;
    }
    seen
}

/// Detect circular dependencies between modules: a depth-first search
/// over the module graph (modules and their neighbours in path order)
/// finds the cycles; each is rotated to start at its smallest path,
/// repeats are dropped, and each is reported with one evidence entry per
/// step. Severity: Warning. Confidence: High.
///
/// The project root is not used: modules, evidence and locations name the
/// files as the graph holds them.
pub fn detect(graph: &Graph, _project_root: &str) -> (r: Vec<Diagnostic>)
    ensures
        diag_views(r@) == circular_findings(*graph),
{
    let xs = collect_xrefs(graph);
    let mods = sorted_modules(graph);
    let adj = build_module_adjacency(graph, &mods, &xs);
    let ghost mv = char_views(mods@);
    let ghost av = adj_views(adj@);
    let na = adj.len();
    proof {
        broadcast use vstd::std_specs::vec::axiom_spec_len;
        lemma_modules(*graph);
        lemma_module_adj_sound(*graph);
        assert forall|u: int| 0 <= u < av.len() implies (#[trigger] av[u]).len() <= usize::MAX by {
            assert(av[u] == adj@[u]@);
            assert(adj@[u]@.len() == adj@[u].len());
        }
        assert forall|u: int, k: int| 0 <= u < av.len() && 0 <= k < av[u].len() implies (#[trigger] av[u][k]) < av.len() by {
            assert(av[u][k] < mv.len());
        }
        assert(adj_ok(av));
        lemma_upto(av, av.len());
    }
    let raw = find_cycles(&adj);
    let ghost rv = cycle_views(raw@);
    let unique = deduplicate_cycles(&raw);
    let ghost uv = cycle_views(unique@);
    proof {
        lemma_unique_cycles(rv, rv.len());
    }
    let mut out: Vec<Diagnostic> = Vec::new();
    let mut i: usize = 0;
    while i < unique.len()
        invariant
            i <= unique@.len(),
            mv == char_views(mods@),
            mv == modules(*graph),
            mv.no_duplicates(),
            av == module_adj(*graph),
            adj_sound(*graph, mv, av),
            rv == found_cycles(av),
            uv == cycle_views(unique@),
            uv == unique_cycles(rv, rv.len()),
            forall|q: int| 0 <= q < rv.len() ==> idx_cycle(av, #[trigger] rv[q]),
            forall|j: int| 0 <= j < uv.len() ==> exists|q: int| 0 <= q < rv.len() && #[trigger] uv[j] == canonical(rv[q]),
            xref_views(xs@) == xrefs(*graph),
            diag_views(out@) == uv.take(i as int).map_values(|c: Seq<usize>| numbered_cycle_diag(*graph, c)),
        decreases unique@.len() - i,
    {
        let c = &unique[i];
        assert(uv[i as int] == c@);
        proof {
            let q = choose|q: int| 0 <= q < rv.len() && #[trigger] uv[i as int] == canonical(rv[q]);
            let m = min_pos(rv[q], rv[q].len());
            lemma_min_pos(rv[q], rv[q].len());
            lemma_rotate(rv[q], m);
            lemma_rotation_cycle(av, c@, rv[q], m);
            assert forall|k: int| 0 <= k < c@.len() implies (#[trigger] c@[k]) < mods@.len() by {
                assert(c@[k] < av.len());
            }
        }
        let d = build_diagnostic(graph, &xs, &mods, c);
        let ghost before = diag_views(out@);
        out.push(d);
        assert(uv.take(i + 1) =~= uv.take(i as int).push(c@));
        assert(diag_views(out@) =~= before.push(numbered_cycle_diag(*graph, c@)));
        i = i + 1;
    }
    assert(uv.take(uv.len() as int) =~= uv);
    out
}

} // verus!
