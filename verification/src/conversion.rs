//! Diagnostic → manifest entry conversion.
//!
//! Bridges the analyzer's `Diagnostic` type to the manifest's
//! `DiagnosticEntry` record used for output formatting. Every field is
//! mapped with no information loss.

use vstd::prelude::*;

use crate::diagnostic::{
    confidence_label, lemma_confidence_label_roundtrip, lemma_pattern_names_distinct,
    lemma_severity_label_roundtrip, pattern_name, severity_label, Diagnostic, Evidence, EvidenceView,
};

verus! {

/// A manifest evidence record.
#[derive(Debug, Clone, PartialEq, Eq)]
pub struct EvidenceEntry {
    pub observation: String,
    pub location: Option<String>,
    pub context: Option<String>,
}

/// A manifest diagnostic record: enums rendered as lowercase strings,
/// `location` renamed to `loc`.
#[derive(Debug, Clone, PartialEq, Eq)]
pub struct DiagnosticEntry {
    pub id: String,
    pub pattern: String,
    pub severity: String,
    pub confidence: String,
    pub entity: String,
    pub message: String,
    pub evidence: Vec<EvidenceEntry>,
    pub suggestion: String,
    pub loc: String,
}

impl View for EvidenceEntry {
    type V = EvidenceView;

    open spec fn view(&self) -> EvidenceView {
        EvidenceView {
            observation: self.observation@,
            location: self.location.deep_view(),
            context: self.context.deep_view(),
        }
    }
}

/// The manifest entry that a diagnostic converts to, field by field.
pub open spec fn entry_matches(e: DiagnosticEntry, d: Diagnostic) -> bool {
    &&& e.id@ == d.id@
    &&& e.pattern@ == pattern_name(d.pattern)
    &&& e.severity@ == severity_label(d.severity)
    &&& e.confidence@ == confidence_label(d.confidence)
    &&& e.entity@ == d.entity@
    &&& e.message@ == d.message@
    &&& e.evidence@.map_values(|x: EvidenceEntry| x@) == d.evidence@.map_values(|x: Evidence| x@)
    &&& e.suggestion@ == d.suggestion@
    &&& e.loc@ == d.location@
}

fn clone_opt(o: &Option<String>) -> (r: Option<String>)
    ensures
        r.deep_view() == o.deep_view(),
{
    match o {
        Some(s) => Some(s.clone()),
        None => None,
    }
}

fn clone_string(s: &String) -> (r: String)
    ensures
        r@ == s@,
{
    s.clone()
}

/// Converts a single `Diagnostic` to a manifest-ready `DiagnosticEntry`.
pub fn to_manifest_entry(diagnostic: &Diagnostic) -> (r: DiagnosticEntry)
    ensures
        entry_matches(r, *diagnostic),
{
    let pattern = diagnostic.pattern.name();
    let severity = diagnostic.severity.as_str();
    let confidence = diagnostic.confidence.as_str();
    DiagnosticEntry {
        id: clone_string(&diagnostic.id),
        pattern: crate::text::owned(pattern),
        severity: crate::text::owned(severity),
        confidence: crate::text::owned(confidence),
        entity: clone_string(&diagnostic.entity),
        message: clone_string(&diagnostic.message),
        evidence: convert_evidence(&diagnostic.evidence),
        suggestion: clone_string(&diagnostic.suggestion),
        loc: clone_string(&diagnostic.location),
    }
}

/// Converts a slice of `Diagnostic`s to manifest-ready `DiagnosticEntry`s.
pub fn to_manifest_entries(diagnostics: &[Diagnostic]) -> (r: Vec<DiagnosticEntry>)
    ensures
        r@.len() == diagnostics@.len(),
        forall|i: int| 0 <= i < r@.len() ==> entry_matches(#[trigger] r@[i], diagnostics@[i]),
{
    let mut out: Vec<DiagnosticEntry> = Vec::new();
    let mut i: usize = 0;
    while i < diagnostics.len()
        invariant
            i <= diagnostics@.len(),
            out@.len() == i,
            forall|j: int| 0 <= j < i ==> entry_matches(#[trigger] out@[j], diagnostics@[j]),
        decreases diagnostics@.len() - i,
    {
        out.push(to_manifest_entry(&diagnostics[i]));
        i = i + 1;
    }
    out
}

/// Converts analyzer evidence entries to manifest evidence entries.
fn convert_evidence(evidence: &Vec<Evidence>) -> (r: Vec<EvidenceEntry>)
    ensures
        r@.map_values(|x: EvidenceEntry| x@) == evidence@.map_values(|x: Evidence| x@),
{
    let mut out: Vec<EvidenceEntry> = Vec::new();
    let mut i: usize = 0;
    while i < evidence.len()
        invariant
            i <= evidence@.len(),
            out@.len() == i,
            forall|j: int| 0 <= j < i ==> (#[trigger] out@[j])@ == evidence@[j]@,
        decreases evidence@.len() - i,
    {
        let e = &evidence[i];
        out.push(EvidenceEntry {
            observation: clone_string(&e.observation),
            location: clone_opt(&e.location),
            context: clone_opt(&e.context),
        });
        i = i + 1;
    }
    assert(out@.map_values(|x: EvidenceEntry| x@) =~= evidence@.map_values(|x: Evidence| x@));
    out
}

/// Conversion loses nothing: two diagnostics that convert to the same
/// manifest entry have the same content.
pub proof fn law_conversion_lossless(e: DiagnosticEntry, d1: Diagnostic, d2: Diagnostic)
    requires
        entry_matches(e, d1),
        entry_matches(e, d2),
    ensures
        d1@ == d2@,
{
    if d1.pattern != d2.pattern {
        lemma_pattern_names_distinct(d1.pattern, d2.pattern);
    }
    lemma_severity_label_roundtrip(d1.severity);
    lemma_severity_label_roundtrip(d2.severity);
    lemma_confidence_label_roundtrip(d1.confidence);
    lemma_confidence_label_roundtrip(d2.confidence);
    assert(d1@.evidence == d2@.evidence);
}

} // verus!
