//! Intermediate representation of analyzed code: symbols, references,
//! and the small enums that classify them.

use vstd::prelude::*;

use crate::text::{chars_eq, chars_of};

verus! {

/// Identifier of a symbol in a [`Graph`](crate::graph::Graph).
///
/// `SymbolId(0)`, the default, never names a stored symbol: it marks a
/// reference whose target could not be resolved.
#[derive(Clone, Copy, Debug, PartialEq, Eq, Hash, PartialOrd, Ord, Structural)]
pub struct SymbolId(pub usize);

impl Default for SymbolId {
    fn default() -> (r: Self)
        ensures
            r == SymbolId(0),
    {
        SymbolId(0)
    }
}

/// Identifier of a reference in a [`Graph`](crate::graph::Graph); `0` is the default.
#[derive(Clone, Copy, Debug, PartialEq, Eq, Hash, PartialOrd, Ord, Structural)]
pub struct ReferenceId(pub usize);

impl Default for ReferenceId {
    fn default() -> (r: Self)
        ensures
            r == ReferenceId(0),
    {
        ReferenceId(0)
    }
}

/// Identifier of a lexical scope.
#[derive(Clone, Copy, Debug, PartialEq, Eq, Hash, PartialOrd, Ord, Structural)]
pub struct ScopeId(pub usize);

impl Default for ScopeId {
    fn default() -> (r: Self)
        ensures
            r == ScopeId(0),
    {
        ScopeId(0)
    }
}

/// What kind of program entity a symbol is.
#[derive(Clone, Copy, Debug, PartialEq, Eq, Hash, Structural)]
pub enum SymbolKind {
    Function,
    Method,
    Class,
    Struct,
    Variable,
    Constant,
    Module,
    Trait,
    Interface,
    Macro,
    Enum,
}

/// Declared visibility of a symbol.
#[derive(Clone, Copy, Debug, PartialEq, Eq, Hash, Structural)]
pub enum Visibility {
    Public,
    Private,
    Crate,
    Protected,
}

/// What a reference does with its target.
#[derive(Clone, Copy, Debug, PartialEq, Eq, Hash, Structural)]
pub enum ReferenceKind {
    Call,
    Read,
    Write,
    Import,
    Export,
}

/// Kind of a graph edge derived from a reference.
#[derive(Clone, Copy, Debug, PartialEq, Eq, Hash, Structural)]
pub enum EdgeKind {
    /// A call reference.
    Calls,
    /// Any other reference (read, write, import, export).
    References,
}

/// How far name resolution got for a symbol or reference.
#[derive(Clone, Debug, PartialEq, Eq)]
pub enum ResolutionStatus {
    Resolved,
    /// Resolution stopped part way; the string says where.
    Partial(String),
    Unresolved,
}

/// A source span.
#[derive(Clone, Debug, PartialEq, Eq)]
pub struct Location {
    /// The file, with `/` as separator. Stripping the project root, file
    /// names, extensions, parent directories and the order of modules go by
    /// the path's components; two files are the same file when their text is
    /// the same, so each file is expected in one spelling.
    pub file: String,
    pub line: u32,
    pub column: u32,
    pub end_line: u32,
    pub end_column: u32,
}

/// A named program entity.
#[derive(Clone, Debug, PartialEq, Eq)]
pub struct Symbol {
    pub id: SymbolId,
    pub kind: SymbolKind,
    pub name: String,
    pub qualified_name: String,
    pub visibility: Visibility,
    /// Parameter list and return type as written, e.g. `(self, x: int) -> str`.
    pub signature: Option<String>,
    pub location: Location,
    pub resolution: ResolutionStatus,
    pub scope: ScopeId,
    /// Free-form markers: `import`, `entry_point`, `from:<module>`, decorator names.
    pub annotations: Vec<String>,
}

/// A use of one symbol by another.
#[derive(Clone, Debug, PartialEq, Eq)]
pub struct Reference {
    pub id: ReferenceId,
    pub from: SymbolId,
    pub to: SymbolId,
    pub kind: ReferenceKind,
    pub location: Location,
    pub resolution: ResolutionStatus,
}

/// The edge kind that a reference of kind `k` produces.
pub open spec fn edge_kind_of(k: ReferenceKind) -> EdgeKind {
    match k {
        ReferenceKind::Call => EdgeKind::Calls,
        _ => EdgeKind::References,
    }
}

/// The annotations of a symbol, as character sequences.
pub open spec fn annotation_views(s: Symbol) -> Seq<Seq<char>> {
    s.annotations@.map_values(|a: String| a@)
}

/// The symbol carries the annotation `a`.
pub open spec fn has_annotation(s: Symbol, a: Seq<char>) -> bool {
    exists|i: int| 0 <= i < s.annotations@.len() && #[trigger] s.annotations@[i]@ == a
}

impl Symbol {
    /// Whether this symbol carries the annotation `a`.
    pub fn has_annotation(&self, a: &str) -> (r: bool)
        ensures
            r == has_annotation(*self, a@),
    {
        let target = chars_of(a);
        let mut i: usize = 0;
        while i < self.annotations.len()
            invariant
                i <= self.annotations@.len(),
                target@ == a@,
                forall|j: int| 0 <= j < i ==> #[trigger] self.annotations@[j]@ != a@,
            decreases self.annotations@.len() - i,
        {
            let c = chars_of(self.annotations[i].as_str());
            if chars_eq(&c, &target) {
                return true;
            }
            i = i + 1;
        }
        false
    }
}

} // verus!
