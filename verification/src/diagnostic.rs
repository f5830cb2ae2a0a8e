//! Diagnostic types — the output of every pattern detector.
//!
//! Every diagnostic carries a pattern, severity, confidence, evidence,
//! and an actionable suggestion. Evidence is concrete (specific
//! file:line, counts, observations).

use vstd::prelude::*;

use crate::text::{chars_eq, chars_of};

verus! {

/// A diagnostic finding produced by a pattern detector.
///
/// The `id` field is assigned by the pattern registry when collecting
/// results, not by individual detectors.
#[derive(Debug, Clone, PartialEq, Eq)]
pub struct Diagnostic {
    /// Unique ID assigned by the registry (e.g., "D001", "D002").
    pub id: String,
    /// Which diagnostic pattern this finding belongs to.
    pub pattern: DiagnosticPattern,
    /// How severe the issue is.
    pub severity: Severity,
    /// How confident the analysis is in this finding.
    pub confidence: Confidence,
    /// Primary entity or entities involved (symbol names).
    pub entity: String,
    /// Description of the problem.
    pub message: String,
    /// Concrete observations supporting the finding.
    pub evidence: Vec<Evidence>,
    /// Actionable fix suggestion.
    pub suggestion: String,
    /// Primary source location (file:line format).
    pub location: String,
}

/// A single piece of evidence supporting a diagnostic.
#[derive(Debug, Clone, PartialEq, Eq)]
pub struct Evidence {
    /// What was observed: counts, structural facts, specific findings.
    pub observation: String,
    /// Source location if applicable (file:line format).
    pub location: Option<String>,
    /// Additional context explaining the observation.
    pub context: Option<String>,
}

/// The diagnostic patterns, organized by failure pattern.
#[derive(Debug, Clone, Copy, PartialEq, Eq, Hash, Structural)]
pub enum DiagnosticPattern {
    /// Connected components with zero inbound external edges.
    IsolatedCluster,
    /// Symbols defined but never consumed.
    DataDeadEnd,
    /// Functions imported by many files but called from only some.
    PartialWiring,
    /// Methods with no dispatch points.
    OrphanedImplementation,
    /// Structural similarity in the call graph.
    Duplication,
    /// Signatures that contradict their declared contract.
    ContractMismatch,
    /// Cycles in the module dependency graph.
    CircularDependency,
    /// Cross-module references violating layering conventions.
    LayerViolation,
    /// Old/new patterns coexisting with split callers.
    IncompleteMigration,
    /// Parallel functions with inconsistent treatment.
    AsymmetricHandling,
    /// Imports resolving to symbols that no longer exist.
    StaleReference,
    /// Imports that are never used.
    PhantomDependency,
    /// Public symbols not re-exported through the parent module.
    MissingReexport,
}

/// Severity level of a diagnostic finding. Ordering: Info < Warning < Critical.
#[derive(Debug, Clone, Copy, PartialEq, Eq, PartialOrd, Ord, Hash, Structural)]
pub enum Severity {
    /// Informational — suboptimal but not broken.
    Info,
    /// Warning — structural defect that will cause problems.
    Warning,
    /// Critical — breaks correctness or causes data loss.
    Critical,
}

/// Confidence level of a diagnostic finding. Ordering: Low < Moderate < High.
#[derive(Debug, Clone, Copy, PartialEq, Eq, PartialOrd, Ord, Hash, Structural)]
pub enum Confidence {
    /// May be a false positive.
    Low,
    /// Likely a real issue, warrants investigation.
    Moderate,
    /// Structural proof exists.
    High,
}

/// The content of an [`Evidence`], with strings as character sequences.
pub struct EvidenceView {
    pub observation: Seq<char>,
    pub location: Option<Seq<char>>,
    pub context: Option<Seq<char>>,
}

/// The content of a [`Diagnostic`], with strings as character sequences.
pub struct DiagnosticView {
    pub id: Seq<char>,
    pub pattern: DiagnosticPattern,
    pub severity: Severity,
    pub confidence: Confidence,
    pub entity: Seq<char>,
    pub message: Seq<char>,
    pub evidence: Seq<EvidenceView>,
    pub suggestion: Seq<char>,
    pub location: Seq<char>,
}

impl View for Evidence {
    type V = EvidenceView;

    open spec fn view(&self) -> EvidenceView {
        EvidenceView {
            observation: self.observation@,
            location: self.location.deep_view(),
            context: self.context.deep_view(),
        }
    }
}

impl View for Diagnostic {
    type V = DiagnosticView;

    open spec fn view(&self) -> DiagnosticView {
        DiagnosticView {
            id: self.id@,
            pattern: self.pattern,
            severity: self.severity,
            confidence: self.confidence,
            entity: self.entity@,
            message: self.message@,
            evidence: evidence_views(self.evidence@),
            suggestion: self.suggestion@,
            location: self.location@,
        }
    }
}

/// The views of a sequence of evidence entries.
pub open spec fn evidence_views(v: Seq<Evidence>) -> Seq<EvidenceView> {
    v.map_values(|e: Evidence| e@)
}

/// The views of a sequence of diagnostics.
pub open spec fn diag_views(v: Seq<Diagnostic>) -> Seq<DiagnosticView> {
    v.map_values(|d: Diagnostic| d@)
}

/// Rank of a severity in the order Info < Warning < Critical.
pub open spec fn severity_rank(s: Severity) -> nat {
    match s {
        Severity::Info => 0,
        Severity::Warning => 1,
        Severity::Critical => 2,
    }
}

/// Rank of a confidence in the order Low < Moderate < High.
pub open spec fn confidence_rank(c: Confidence) -> nat {
    match c {
        Confidence::Low => 0,
        Confidence::Moderate => 1,
        Confidence::High => 2,
    }
}

/// Lowercase label of a severity.
pub open spec fn severity_label(s: Severity) -> Seq<char> {
    match s {
        Severity::Info => "info"@,
        Severity::Warning => "warning"@,
        Severity::Critical => "critical"@,
    }
}

/// Lowercase label of a confidence.
pub open spec fn confidence_label(c: Confidence) -> Seq<char> {
    match c {
        Confidence::Low => "low"@,
        Confidence::Moderate => "moderate"@,
        Confidence::High => "high"@,
    }
}

/// The severity that a label parses to, if any.
pub open spec fn parse_severity(s: Seq<char>) -> Option<Severity> {
    if s == "critical"@ {
        Some(Severity::Critical)
    } else if s == "warning"@ {
        Some(Severity::Warning)
    } else if s == "info"@ {
        Some(Severity::Info)
    } else {
        None
    }
}

/// The confidence that a label parses to, if any.
pub open spec fn parse_confidence(s: Seq<char>) -> Option<Confidence> {
    if s == "high"@ {
        Some(Confidence::High)
    } else if s == "moderate"@ {
        Some(Confidence::Moderate)
    } else if s == "low"@ {
        Some(Confidence::Low)
    } else {
        None
    }
}

/// The snake_case name of a pattern.
pub open spec fn pattern_name(p: DiagnosticPattern) -> Seq<char> {
    match p {
        DiagnosticPattern::IsolatedCluster => "isolated_cluster"@,
        DiagnosticPattern::DataDeadEnd => "data_dead_end"@,
        DiagnosticPattern::PartialWiring => "partial_wiring"@,
        DiagnosticPattern::OrphanedImplementation => "orphaned_impl"@,
        DiagnosticPattern::Duplication => "duplication"@,
        DiagnosticPattern::ContractMismatch => "contract_mismatch"@,
        DiagnosticPattern::CircularDependency => "circular_dependency"@,
        DiagnosticPattern::LayerViolation => "layer_violation"@,
        DiagnosticPattern::IncompleteMigration => "incomplete_migration"@,
        DiagnosticPattern::AsymmetricHandling => "asymmetric_handling"@,
        DiagnosticPattern::StaleReference => "stale_reference"@,
        DiagnosticPattern::PhantomDependency => "phantom_dependency"@,
        DiagnosticPattern::MissingReexport => "missing_reexport"@,
    }
}

fn str_is(s: &str, lit: &str) -> (r: bool)
    ensures
        r == (s@ == lit@),
{
    let a = chars_of(s);
    let b = chars_of(lit);
    chars_eq(&a, &b)
}

impl Severity {
    /// Parses a lowercase severity label (`critical`, `warning`, `info`).
    pub fn from_str_checked(s: &str) -> (r: Option<Self>)
        ensures
            r == parse_severity(s@),
    {
        if str_is(s, "critical") {
            Some(Severity::Critical)
        } else if str_is(s, "warning") {
            Some(Severity::Warning)
        } else if str_is(s, "info") {
            Some(Severity::Info)
        } else {
            None
        }
    }

    /// The lowercase label of this severity.
    pub fn as_str(&self) -> (r: &'static str)
        ensures
            r@ == severity_label(*self),
    {
        match self {
            Severity::Info => "info",
            Severity::Warning => "warning",
            Severity::Critical => "critical",
        }
    }

    /// Position in the order Info < Warning < Critical.
    pub fn rank(&self) -> (r: u8)
        ensures
            r == severity_rank(*self),
    {
        match self {
            Severity::Info => 0,
            Severity::Warning => 1,
            Severity::Critical => 2,
        }
    }
}

impl Confidence {
    /// Parses a lowercase confidence label (`high`, `moderate`, `low`).
    pub fn from_str_checked(s: &str) -> (r: Option<Self>)
        ensures
            r == parse_confidence(s@),
    {
        if str_is(s, "high") {
            Some(Confidence::High)
        } else if str_is(s, "moderate") {
            Some(Confidence::Moderate)
        } else if str_is(s, "low") {
            Some(Confidence::Low)
        } else {
            None
        }
    }

    /// The lowercase label of this confidence.
    pub fn as_str(&self) -> (r: &'static str)
        ensures
            r@ == confidence_label(*self),
    {
        match self {
            Confidence::Low => "low",
            Confidence::Moderate => "moderate",
            Confidence::High => "high",
        }
    }

    /// Position in the order Low < Moderate < High.
    pub fn rank(&self) -> (r: u8)
        ensures
            r == confidence_rank(*self),
    {
        match self {
            Confidence::Low => 0,
            Confidence::Moderate => 1,
            Confidence::High => 2,
        }
    }
}

impl DiagnosticPattern {
    /// Returns the snake_case name of this pattern (for --checks filtering).
    pub fn name(&self) -> (r: &'static str)
        ensures
            r@ == pattern_name(*self),
    {
        match self {
            DiagnosticPattern::IsolatedCluster => "isolated_cluster",
            DiagnosticPattern::DataDeadEnd => "data_dead_end",
            DiagnosticPattern::PartialWiring => "partial_wiring",
            DiagnosticPattern::OrphanedImplementation => "orphaned_impl",
            DiagnosticPattern::Duplication => "duplication",
            DiagnosticPattern::ContractMismatch => "contract_mismatch",
            DiagnosticPattern::CircularDependency => "circular_dependency",
            DiagnosticPattern::LayerViolation => "layer_violation",
            DiagnosticPattern::IncompleteMigration => "incomplete_migration",
            DiagnosticPattern::AsymmetricHandling => "asymmetric_handling",
            DiagnosticPattern::StaleReference => "stale_reference",
            DiagnosticPattern::PhantomDependency => "phantom_dependency",
            DiagnosticPattern::MissingReexport => "missing_reexport",
        }
    }
}

/// Every severity label parses back to the severity it came from.
pub proof fn lemma_severity_label_roundtrip(s: Severity)
    ensures
        parse_severity(severity_label(s)) == Some(s),
{
    reveal_strlit("critical");
    reveal_strlit("warning");
    reveal_strlit("info");
    assert("warning"@[0] != "critical"@[0]);
    assert("info"@[0] != "critical"@[0]);
    assert("info"@[0] != "warning"@[0]);
}

/// Every confidence label parses back to the confidence it came from.
pub proof fn lemma_confidence_label_roundtrip(c: Confidence)
    ensures
        parse_confidence(confidence_label(c)) == Some(c),
{
    reveal_strlit("high");
    reveal_strlit("moderate");
    reveal_strlit("low");
    assert("moderate"@[0] != "high"@[0]);
    assert("low"@[0] != "high"@[0]);
    assert("low"@[0] != "moderate"@[0]);
}

/// Distinct patterns have distinct names.
pub proof fn lemma_pattern_names_distinct(p: DiagnosticPattern, q: DiagnosticPattern)
    requires
        p != q,
    ensures
        pattern_name(p) != pattern_name(q),
{
    reveal_strlit("isolated_cluster");
    reveal_strlit("data_dead_end");
    reveal_strlit("partial_wiring");
    reveal_strlit("orphaned_impl");
    reveal_strlit("duplication");
    reveal_strlit("contract_mismatch");
    reveal_strlit("circular_dependency");
    reveal_strlit("layer_violation");
    reveal_strlit("incomplete_migration");
    reveal_strlit("asymmetric_handling");
    reveal_strlit("stale_reference");
    reveal_strlit("phantom_dependency");
    reveal_strlit("missing_reexport");
    if pattern_name(p) == pattern_name(q) {
        assert(pattern_name(p).len() == pattern_name(q).len());
        assert(pattern_name(p)[0] == pattern_name(q)[0]);
        assert(pattern_name(p)[1] == pattern_name(q)[1]);
        assert(pattern_name(p)[2] == pattern_name(q)[2]);
    }
}

} // verus!
