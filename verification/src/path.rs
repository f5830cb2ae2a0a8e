//! Paths as sequences of components, with `/` as separator: a leading `/`
//! is the root, a leading `.` piece the current directory, `..` the parent,
//! and every other non-empty piece but `.` a normal component; empty and
//! other `.` pieces are skipped. Stripping a root and naming the last
//! component follow these components, as `Path` does.

use vstd::prelude::*;

use crate::text::{chars_eq, slice_chars};

verus! {

/// Kinds of component.
pub open spec fn root_kind() -> u8 { 0 }
pub open spec fn cur_kind() -> u8 { 1 }
pub open spec fn parent_kind() -> u8 { 2 }
pub open spec fn normal_kind() -> u8 { 3 }

/// The component of the piece `p[s..e]` that ends at `after` (just past its
/// separator, if any): none for an empty or `.` piece.
pub open spec fn piece_entry(p: Seq<char>, s: int, e: int, after: int) -> Seq<(u8, int, int, int)> {
    let piece = p.subrange(s, e);
    if piece.len() == 0 || piece == seq!['.'] {
        seq![]
    } else if piece == seq!['.', '.'] {
        seq![(2u8, s, e, after)]
    } else {
        seq![(3u8, s, e, after)]
    }
}

/// The body components of `p` from the piece that starts at `start`,
/// scanning from `i`: each as (kind, start, end, position after it).
pub open spec fn parts_from(p: Seq<char>, start: int, i: int) -> Seq<(u8, int, int, int)>
    decreases p.len() - i,
{
    if i >= p.len() {
        piece_entry(p, start, p.len() as int, p.len() as int)
    } else if p[i] == '/' {
        piece_entry(p, start, i, i + 1) + parts_from(p, i + 1, i + 1)
    } else {
        parts_from(p, start, i + 1)
    }
}

/// `p` begins with its root.
pub open spec fn has_root(p: Seq<char>) -> bool {
    p.len() > 0 && p[0] == '/'
}

/// `p` begins with a current-directory piece.
pub open spec fn has_cur(p: Seq<char>) -> bool {
    !has_root(p) && p.len() > 0 && p[0] == '.' && (p.len() == 1 || p[1] == '/')
}

/// The components of `p`, each as (kind, start, end, position after it).
pub open spec fn parts(p: Seq<char>) -> Seq<(u8, int, int, int)> {
    if has_root(p) {
        seq![(0u8, 0int, 0int, 1int)] + parts_from(p, 1, 1)
    } else if has_cur(p) {
        seq![(1u8, 0int, 0int, 1int)] + parts_from(p, 1, 1)
    } else {
        parts_from(p, 0, 0)
    }
}

/// A component as its kind and, for a normal one, its text.
pub open spec fn component(p: Seq<char>, x: (u8, int, int, int)) -> (u8, Seq<char>) {
    (x.0, if x.0 == 3 { p.subrange(x.1, x.2) } else { seq![] })
}

/// The components of `p`.
pub open spec fn components(p: Seq<char>) -> Seq<(u8, Seq<char>)> {
    parts(p).map_values(|x: (u8, int, int, int)| component(p, x))
}

/// `r` without its leading empty and `.` pieces.
pub open spec fn trim_left(r: Seq<char>) -> Seq<char>
    decreases r.len(),
{
    if r.len() == 0 {
        r
    } else if r[0] == '/' {
        trim_left(r.drop_first())
    } else if r == seq!['.'] {
        seq![]
    } else if r.len() >= 2 && r[0] == '.' && r[1] == '/' {
        trim_left(r.skip(2))
    } else {
        r
    }
}

/// The position of the last `/` of `r` at or after `keep`, or `keep - 1`.
pub open spec fn last_sep_from(r: Seq<char>, keep: int, i: int) -> int
    decreases i + 1 - keep,
{
    if i < keep {
        keep - 1
    } else if r[i] == '/' {
        i
    } else {
        last_sep_from(r, keep, i - 1)
    }
}

/// `r` without its trailing empty and `.` pieces, its first `keep`
/// characters (a root or current-directory piece) left alone.
pub open spec fn trim_right(r: Seq<char>, keep: int) -> Seq<char>
    decreases r.len(),
{
    if r.len() <= keep {
        r
    } else {
        let ls = last_sep_from(r, keep, r.len() - 1);
        let piece = r.subrange(ls + 1, r.len() as int);
        if piece.len() == 0 || piece == seq!['.'] {
            let cut: int = piece.len() + if ls >= keep { 1int } else { 0int };
            if 1 <= cut <= r.len() {
                trim_right(r.take(r.len() - cut), keep)
            } else {
                r
            }
        } else {
            r
        }
    }
}

/// `root`'s components begin `file`'s.
pub open spec fn comps_prefix(file: Seq<char>, root: Seq<char>) -> bool {
    let fc = components(file);
    let rc = components(root);
    rc.len() <= fc.len() && fc.take(rc.len() as int) == rc
}

/// What remains of `file` once `root`'s components are removed from its
/// front, as the text left over with its leading and trailing empty and
/// `.` pieces dropped; none when `root`'s components do not begin
/// `file`'s.
pub open spec fn strip_root(file: Seq<char>, root: Seq<char>) -> Option<Seq<char>> {
    if !comps_prefix(file, root) {
        None
    } else if parts(root).len() == 0 {
        Some(trim_right(file, if has_root(file) || has_cur(file) { 1 } else { 0 }))
    } else {
        let after = parts(file)[parts(root).len() - 1].3;
        Some(trim_right(trim_left(file.skip(after)), 0))
    }
}

/// The last component of `p` when it is a normal one.
pub open spec fn last_component(p: Seq<char>) -> Option<Seq<char>> {
    let ps = parts(p);
    if ps.len() > 0 && ps.last().0 == 3 {
        Some(p.subrange(ps.last().1, ps.last().2))
    } else {
        None
    }
}

/// The file name of `p`: its last component when that is a normal one,
/// else empty.
pub open spec fn path_name(p: Seq<char>) -> Seq<char> {
    match last_component(p) {
        Some(n) => n,
        None => seq![],
    }
}

/// The components of `p`'s parent: all of `p`'s but the last, when `p` has
/// components and the last is not the root.
pub open spec fn parent_components(p: Seq<char>) -> Option<Seq<(u8, Seq<char>)>> {
    let c = components(p);
    if c.len() > 0 && c.last().0 != 0 {
        Some(c.drop_last())
    } else {
        None
    }
}

/// A component of `p` as computed: kind, start, end, position after.
pub type Part = (u8, usize, usize, usize);

/// The views of computed components.
pub open spec fn part_views(v: Seq<Part>) -> Seq<(u8, int, int, int)> {
    v.map_values(|x: Part| (x.0, x.1 as int, x.2 as int, x.3 as int))
}

fn push_piece(p: &Vec<char>, out: &mut Vec<Part>, s: usize, e: usize, after: usize)
    requires
        s <= e <= p@.len(),
    ensures
        part_views(final(out)@) == part_views(old(out)@) + piece_entry(p@, s as int, e as int, after as int),
{
    let ghost piece = p@.subrange(s as int, e as int);
    let ghost before = part_views(out@);
    if e == s {
        assert(piece.len() == 0);
        assert(before + piece_entry(p@, s as int, e as int, after as int) =~= before);
        return;
    }
    if e - s == 1 && p[s] == '.' {
        assert(piece =~= seq!['.']);
        assert(before + piece_entry(p@, s as int, e as int, after as int) =~= before);
        return;
    }
    let kind: u8 = if e - s == 2 && p[s] == '.' && p[s + 1] == '.' { 2 } else { 3 };
    proof {
        let dot1: Seq<char> = seq!['.'];
        let dot2: Seq<char> = seq!['.', '.'];
        assert(dot1.len() == 1 && dot1[0] == '.');
        assert(dot2.len() == 2 && dot2[0] == '.' && dot2[1] == '.');
        assert(piece.len() == e - s);
        if piece == dot1 {
            assert(piece[0] == p@[s as int]);
            assert(false);
        }
        if e - s == 2 && p@[s as int] == '.' && p@[s + 1] == '.' {
            assert(piece =~= dot2);
        } else if piece == dot2 {
            assert(piece[0] == p@[s as int] && piece[1] == p@[s + 1]);
            assert(false);
        }
    }
    out.push((kind, s, e, after));
    assert(part_views(out@) =~= before + piece_entry(p@, s as int, e as int, after as int));
}

/// The components of `p`.
pub fn parts_exec(p: &Vec<char>) -> (r: Vec<Part>)
    ensures
        part_views(r@) == parts(p@),
{
    let n = p.len();
    let mut out: Vec<Part> = Vec::new();
    let mut start: usize = 0;
    if n > 0 && p[0] == '/' {
        out.push((0, 0, 0, 1));
        start = 1;
    } else if n > 0 && p[0] == '.' && (n == 1 || p[1] == '/') {
        out.push((1, 0, 0, 1));
        start = 1;
    }
    let ghost head = part_views(out@);
    let mut i: usize = start;
    assert(head + parts_from(p@, start as int, start as int) == parts(p@));
    while i < n
        invariant
            n == p@.len(),
            start <= i <= n,
            part_views(out@) + parts_from(p@, start as int, i as int) == parts(p@),
        decreases n - i,
    {
        if p[i] == '/' {
            let ghost before = part_views(out@);
            push_piece(p, &mut out, start, i, i + 1);
            assert(before + parts_from(p@, start as int, i as int)
                == before + piece_entry(p@, start as int, i as int, i + 1) + parts_from(p@, i + 1, i + 1));
            start = i + 1;
        }
        i = i + 1;
    }
    let ghost before = part_views(out@);
    push_piece(p, &mut out, start, n, n);
    assert(before + parts_from(p@, start as int, n as int) == before + piece_entry(p@, start as int, n as int, n as int));
    out
}

/// Whether computed components `x` of `p` and `y` of `q` are the same component.
fn same_component(p: &Vec<char>, x: Part, q: &Vec<char>, y: Part) -> (r: bool)
    requires
        x.1 <= x.2 <= p@.len(),
        y.1 <= y.2 <= q@.len(),
    ensures
        r == (component(p@, (x.0, x.1 as int, x.2 as int, x.3 as int))
            == component(q@, (y.0, y.1 as int, y.2 as int, y.3 as int))),
{
    if x.0 != y.0 {
        return false;
    }
    if x.0 != 3 {
        return true;
    }
    let a = slice_chars(p, x.1, x.2);
    let b = slice_chars(q, y.1, y.2);
    chars_eq(&a, &b)
}

proof fn lemma_piece_entry(p: Seq<char>, s: int, e: int, after: int)
    ensures
        forall|j: int| 0 <= j < piece_entry(p, s, e, after).len() ==> {
            let x = #[trigger] piece_entry(p, s, e, after)[j];
            x.1 == s && x.2 == e && x.3 == after && (x.0 == 2 || x.0 == 3)
        },
        piece_entry(p, s, e, after).len() <= 1,
{
}

proof fn lemma_parts_from_bounds(p: Seq<char>, start: int, i: int)
    requires
        0 <= start <= i,
        start <= p.len(),
    ensures
        forall|j: int| 0 <= j < parts_from(p, start, i).len() ==> {
            let x = #[trigger] parts_from(p, start, i)[j];
            &&& start <= x.1 <= x.2 <= x.3 <= p.len()
            &&& (x.0 == 2 || x.0 == 3)
        },
    decreases p.len() - i,
{
    if i >= p.len() {
        lemma_piece_entry(p, start, p.len() as int, p.len() as int);
    } else if p[i] == '/' {
        lemma_parts_from_bounds(p, i + 1, i + 1);
        lemma_piece_entry(p, start, i, i + 1);
        let a = piece_entry(p, start, i, i + 1);
        let b = parts_from(p, i + 1, i + 1);
        assert(parts_from(p, start, i) == a + b);
        assert forall|j: int| 0 <= j < (a + b).len() implies {
            let x = #[trigger] (a + b)[j];
            &&& start <= x.1 <= x.2 <= x.3 <= p.len()
            &&& (x.0 == 2 || x.0 == 3)
        } by {
            if j >= a.len() {
                assert((a + b)[j] == b[j - a.len()]);
            }
        }
    } else {
        lemma_parts_from_bounds(p, start, i + 1);
        assert(parts_from(p, start, i) == parts_from(p, start, i + 1));
    }
}

pub proof fn lemma_parts_bounds(p: Seq<char>)
    ensures
        forall|j: int| 0 <= j < parts(p).len() ==> {
            let x = #[trigger] parts(p)[j];
            0 <= x.1 <= x.2 <= x.3 <= p.len()
        },
        forall|j: int| 0 < j < parts(p).len() ==> (#[trigger] parts(p)[j]).0 == 2 || parts(p)[j].0 == 3,
        parts(p).len() > 0 && (parts(p)[0].0 == 0 || parts(p)[0].0 == 1) ==> has_root(p) || has_cur(p),
{
    if has_root(p) || has_cur(p) {
        lemma_parts_from_bounds(p, 1, 1);
        let b = parts_from(p, 1, 1);
        let all = parts(p);
        assert forall|j: int| 0 <= j < all.len() implies {
            let x = #[trigger] all[j];
            0 <= x.1 <= x.2 <= x.3 <= p.len()
        } by {
            if j > 0 {
                assert(all[j] == b[j - 1]);
            }
        }
        assert forall|j: int| 0 < j < all.len() implies (#[trigger] all[j]).0 == 2 || all[j].0 == 3 by {
            assert(all[j] == b[j - 1]);
        }
    } else {
        lemma_parts_from_bounds(p, 0, 0);
    }
}

/// `r` without its leading empty and `.` pieces.
fn trim_left_exec(r: &Vec<char>) -> (t: Vec<char>)
    ensures
        t@ == trim_left(r@),
{
    let n = r.len();
    let mut k: usize = 0;
    let mut done = false;
    assert(r@.skip(0) =~= r@);
    while !done && k < n
        invariant
            n == r@.len(),
            k <= n,
            trim_left(r@.skip(k as int)) == trim_left(r@),
            done ==> trim_left(r@.skip(k as int)) == r@.skip(k as int),
        decreases 2 * (n - k) + if done { 0int } else { 1int },
    {
        let ghost rest = r@.skip(k as int);
        assert(rest[0] == r@[k as int]);
        if r[k] == '/' {
            assert(rest.drop_first() =~= r@.skip(k + 1));
            k = k + 1;
        } else if k + 1 == n && r[k] == '.' {
            assert(rest =~= seq!['.']);
            assert(r@.skip(n as int) =~= Seq::<char>::empty());
            k = n;
        } else if k + 1 < n && r[k] == '.' && r[k + 1] == '/' {
            assert(rest[1] == r@[k + 1]);
            assert(rest.skip(2) =~= r@.skip(k + 2));
            assert(rest != seq!['.']) by {
                if rest == seq!['.'] {
                    assert(rest.len() == 1);
                }
            }
            k = k + 2;
        } else {
            assert(rest != seq!['.']) by {
                if rest == seq!['.'] {
                    assert(rest.len() == 1);
                    assert(rest[0] == '.');
                }
            }
            proof {
                if k + 1 < n {
                    assert(rest[1] == r@[k + 1]);
                }
            }
            done = true;
        }
    }
    if !done {
        assert(r@.skip(k as int) =~= Seq::<char>::empty());
    }
    let t = slice_chars(r, k, n);
    assert(t@ =~= r@.skip(k as int));
    t
}

/// The last `/` of `t` at or after `keep` and before `len`, if any.
fn last_sep_exec(t: &Vec<char>, keep: usize, len: usize) -> (r: Option<usize>)
    requires
        keep < len <= t@.len(),
    ensures
        match r {
            Some(j) => j as int == last_sep_from(t@.take(len as int), keep as int, len - 1) && keep <= j < len,
            None => last_sep_from(t@.take(len as int), keep as int, len - 1) == keep - 1,
        },
{
    let ghost tl = t@.take(len as int);
    let mut j: usize = len;
    while j > keep
        invariant
            keep <= j <= len <= t@.len(),
            tl == t@.take(len as int),
            last_sep_from(tl, keep as int, len - 1) == last_sep_from(tl, keep as int, j - 1),
        decreases j,
    {
        assert(tl[j - 1] == t@[j - 1]);
        if t[j - 1] == '/' {
            return Some(j - 1);
        }
        j = j - 1;
    }
    None
}

/// `r` without its trailing empty and `.` pieces, its first `keep`
/// characters left alone.
fn trim_right_exec(r: &Vec<char>, keep: usize) -> (t: Vec<char>)
    ensures
        t@ == trim_right(r@, keep as int),
{
    let mut len: usize = r.len();
    let mut done = false;
    assert(r@.take(len as int) =~= r@);
    while !done && len > keep
        invariant
            len <= r@.len(),
            trim_right(r@.take(len as int), keep as int) == trim_right(r@, keep as int),
            done ==> trim_right(r@.take(len as int), keep as int) == r@.take(len as int),
        decreases 2 * len + if done { 0int } else { 1int },
    {
        let ghost tl = r@.take(len as int);
        let ls = last_sep_exec(r, keep, len);
        let (plen, has_sep): (usize, bool) = match ls {
            Some(j) => (len - j - 1, true),
            None => (len - keep, false),
        };
        let pstart = len - plen;
        let ghost lsv: int = match ls { Some(j) => j as int, None => keep - 1 };
        assert(lsv == last_sep_from(tl, keep as int, tl.len() - 1));
        let ghost piece = tl.subrange(lsv + 1, tl.len() as int);
        assert(piece.len() == plen);
        let is_dot = plen == 1 && r[pstart] == '.';
        proof {
            if plen == 1 {
                assert(piece[0] == r@[pstart as int]);
                if is_dot {
                    assert(piece =~= seq!['.']);
                } else {
                    assert(piece != seq!['.']) by {
                        if piece == seq!['.'] {
                            assert(piece[0] == '.');
                        }
                    }
                }
            } else {
                assert(piece != seq!['.']) by {
                    if piece == seq!['.'] {
                        assert(piece.len() == 1);
                    }
                }
            }
        }
        if plen == 0 || is_dot {
            let cut: usize = if has_sep { plen + 1 } else { plen };
            assert(tl.take(len - cut) =~= r@.take(len - cut));
            len = len - cut;
        } else {
            done = true;
        }
    }
    let t = slice_chars(r, 0, len);
    assert(t@ =~= r@.take(len as int));
    t
}

/// What remains of `file` once `root`'s components are removed from its front.
pub fn strip_root_exec(file: &Vec<char>, root: &Vec<char>) -> (r: Option<Vec<char>>)
    ensures
        match r {
            Some(v) => strip_root(file@, root@) == Some(v@),
            None => strip_root(file@, root@) is None,
        },
{
    let fc = parts_exec(file);
    let rc = parts_exec(root);
    proof {
        lemma_parts_bounds(file@);
        lemma_parts_bounds(root@);
    }
    let ghost fcs = components(file@);
    let ghost rcs = components(root@);
    if rc.len() > fc.len() {
        return None;
    }
    let mut j: usize = 0;
    while j < rc.len()
        invariant
            rc.len() <= fc.len(),
            j <= rc.len(),
            part_views(fc@) == parts(file@),
            part_views(rc@) == parts(root@),
            fcs == components(file@),
            rcs == components(root@),
            forall|q: int| 0 <= q < j ==> fcs[q] == rcs[q],
            forall|q: int| 0 <= q < parts(file@).len() ==> {
                let x = #[trigger] parts(file@)[q];
                0 <= x.1 <= x.2 <= x.3 <= file@.len()
            },
            forall|q: int| 0 <= q < parts(root@).len() ==> {
                let x = #[trigger] parts(root@)[q];
                0 <= x.1 <= x.2 <= x.3 <= root@.len()
            },
        decreases rc.len() - j,
    {
        let x = fc[j];
        let y = rc[j];
        assert(parts(file@)[j as int] == (x.0, x.1 as int, x.2 as int, x.3 as int));
        assert(parts(root@)[j as int] == (y.0, y.1 as int, y.2 as int, y.3 as int));
        if !same_component(file, x, root, y) {
            assert(fcs.take(rcs.len() as int)[j as int] != rcs[j as int]);
            return None;
        }
        j = j + 1;
    }
    assert(fcs.take(rcs.len() as int) =~= rcs);
    assert(comps_prefix(file@, root@));
    if rc.len() == 0 {
        let n = file.len();
        let keep: usize = if (n > 0 && file[0] == '/') || (n > 0 && file[0] == '.' && (n == 1 || file[1] == '/')) { 1 } else { 0 };
        Some(trim_right_exec(file, keep))
    } else {
        let after = fc[rc.len() - 1].3;
        assert(parts(file@)[rc.len() - 1] == (fc@[rc.len() - 1].0, fc@[rc.len() - 1].1 as int, fc@[rc.len() - 1].2 as int, after as int));
        let rest = slice_chars(file, after, file.len());
        assert(rest@ =~= file@.skip(after as int));
        let tl = trim_left_exec(&rest);
        Some(trim_right_exec(&tl, 0))
    }
}

/// The last component of `p` when it is a normal one.
pub fn last_component_exec(p: &Vec<char>) -> (r: Option<Vec<char>>)
    ensures
        match r {
            Some(v) => last_component(p@) == Some(v@),
            None => last_component(p@) is None,
        },
{
    let ps = parts_exec(p);
    proof {
        lemma_parts_bounds(p@);
    }
    if ps.len() == 0 {
        return None;
    }
    let x = ps[ps.len() - 1];
    assert(parts(p@).last() == (x.0, x.1 as int, x.2 as int, x.3 as int));
    if x.0 != 3 {
        return None;
    }
    Some(slice_chars(p, x.1, x.2))
}

/// The file name of `p`.
pub fn path_name_exec(p: &Vec<char>) -> (r: Vec<char>)
    ensures
        r@ == path_name(p@),
{
    match last_component_exec(p) {
        Some(n) => n,
        None => Vec::new(),
    }
}

/// Whether the first `n` components of `p` and of `q` agree.
fn same_parts(p: &Vec<char>, ps: &Vec<Part>, q: &Vec<char>, qs: &Vec<Part>, n: usize) -> (r: bool)
    requires
        part_views(ps@) == parts(p@),
        part_views(qs@) == parts(q@),
        n <= ps@.len(),
        n <= qs@.len(),
    ensures
        r == (components(p@).take(n as int) == components(q@).take(n as int)),
{
    proof {
        lemma_parts_bounds(p@);
        lemma_parts_bounds(q@);
    }
    let ghost pc = components(p@);
    let ghost qc = components(q@);
    let mut j: usize = 0;
    while j < n
        invariant
            j <= n <= ps@.len(),
            n <= qs@.len(),
            part_views(ps@) == parts(p@),
            part_views(qs@) == parts(q@),
            pc == components(p@),
            qc == components(q@),
            forall|k: int| 0 <= k < j ==> pc[k] == qc[k],
            forall|k: int| 0 <= k < parts(p@).len() ==> {
                let x = #[trigger] parts(p@)[k];
                0 <= x.1 <= x.2 <= x.3 <= p@.len()
            },
            forall|k: int| 0 <= k < parts(q@).len() ==> {
                let x = #[trigger] parts(q@)[k];
                0 <= x.1 <= x.2 <= x.3 <= q@.len()
            },
        decreases n - j,
    {
        let x = ps[j];
        let y = qs[j];
        assert(parts(p@)[j as int] == (x.0, x.1 as int, x.2 as int, x.3 as int));
        assert(parts(q@)[j as int] == (y.0, y.1 as int, y.2 as int, y.3 as int));
        if !same_component(p, x, q, y) {
            assert(pc.take(n as int)[j as int] != qc.take(n as int)[j as int]);
            return false;
        }
        j = j + 1;
    }
    assert(pc.take(n as int) =~= qc.take(n as int));
    true
}

/// Whether `p` and `q` have the same components.
pub fn same_path(p: &Vec<char>, q: &Vec<char>) -> (r: bool)
    ensures
        r == (components(p@) == components(q@)),
{
    let ps = parts_exec(p);
    let qs = parts_exec(q);
    if ps.len() != qs.len() {
        proof {
            if components(p@) == components(q@) {
                assert(components(p@).len() == components(q@).len());
            }
        }
        return false;
    }
    let r = same_parts(p, &ps, q, &qs, ps.len());
    proof {
        assert(components(p@).take(ps@.len() as int) =~= components(p@));
        assert(components(q@).take(ps@.len() as int) =~= components(q@));
    }
    r
}

/// Whether `p` and `q` have the same parent components (both none, or
/// both the same).
pub fn same_parent(p: &Vec<char>, q: &Vec<char>) -> (r: bool)
    ensures
        r == (parent_components(p@) == parent_components(q@)),
{
    let ps = parts_exec(p);
    let qs = parts_exec(q);
    let ghost pc = components(p@);
    let ghost qc = components(q@);
    let p_has = ps.len() > 0 && ps[ps.len() - 1].0 != 0;
    let q_has = qs.len() > 0 && qs[qs.len() - 1].0 != 0;
    proof {
        if ps.len() > 0 {
            assert(pc.last().0 == ps@[ps.len() - 1].0);
        }
        if qs.len() > 0 {
            assert(qc.last().0 == qs@[qs.len() - 1].0);
        }
    }
    if !p_has || !q_has {
        return !p_has && !q_has;
    }
    if ps.len() != qs.len() {
        proof {
            if parent_components(p@) == parent_components(q@) {
                assert(pc.drop_last().len() == qc.drop_last().len());
            }
        }
        return false;
    }
    let r = same_parts(p, &ps, q, &qs, ps.len() - 1);
    proof {
        assert(pc.take(ps@.len() - 1) =~= pc.drop_last());
        assert(qc.take(ps@.len() - 1) =~= qc.drop_last());
    }
    r
}

} // verus!
