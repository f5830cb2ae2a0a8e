use flowspec::diagnostic::{Confidence, Diagnostic, DiagnosticPattern, Evidence, Severity};

#[test]
fn test_diagnostic_construction_all_fields_populated() {
    let d = Diagnostic {
        id: "D001".to_string(),
        pattern: DiagnosticPattern::DataDeadEnd,
        severity: Severity::Warning,
        confidence: Confidence::High,
        entity: "module::unused_fn".to_string(),
        message: "Function unused_fn is never called".to_string(),
        evidence: vec![Evidence {
            observation: "0 callers in 5 analyzed files".to_string(),
            location: Some("src/utils.py:42".to_string()),
            context: Some("function is private".to_string()),
        }],
        suggestion: "Remove the function or add a caller.".to_string(),
        location: "src/utils.py:42".to_string(),
    };
    assert_eq!(d.id, "D001");
    assert_eq!(d.pattern, DiagnosticPattern::DataDeadEnd);
    assert_eq!(d.severity, Severity::Warning);
    assert_eq!(d.confidence, Confidence::High);
    assert!(!d.entity.is_empty());
    assert!(!d.message.is_empty());
    assert!(!d.evidence.is_empty());
    assert!(!d.suggestion.is_empty());
    assert!(!d.location.is_empty());
}

#[test]
fn test_diagnostic_evidence_is_vec_not_empty() {
    let d = Diagnostic {
        id: String::new(),
        pattern: DiagnosticPattern::IsolatedCluster,
        severity: Severity::Warning,
        confidence: Confidence::High,
        entity: "cluster".to_string(),
        message: "Isolated cluster found".to_string(),
        evidence: vec![
            Evidence { observation: "0 external callers".to_string(), location: None, context: None },
            Evidence { observation: "3 internal references".to_string(), location: None, context: None },
            Evidence { observation: "cluster contains: A, B, C".to_string(), location: None, context: None },
        ],
        suggestion: "Wire this module into the rest of the codebase.".to_string(),
        location: "module.py:1".to_string(),
    };
    assert_eq!(d.evidence.len(), 3);
    for ev in &d.evidence {
        assert!(!ev.observation.is_empty());
    }
}

#[test]
fn test_severity_ordering_critical_gt_warning_gt_info() {
    assert!(Severity::Critical > Severity::Warning);
    assert!(Severity::Warning > Severity::Info);
    assert!(Severity::Critical > Severity::Info);
}

#[test]
fn test_confidence_ordering_high_gt_moderate_gt_low() {
    assert!(Confidence::High > Confidence::Moderate);
    assert!(Confidence::Moderate > Confidence::Low);
    assert!(Confidence::High > Confidence::Low);
}

#[test]
fn test_diagnostic_pattern_has_all_13_variants() {
    let variants = vec![
        DiagnosticPattern::IsolatedCluster,
        DiagnosticPattern::DataDeadEnd,
        DiagnosticPattern::PartialWiring,
        DiagnosticPattern::OrphanedImplementation,
        DiagnosticPattern::Duplication,
        DiagnosticPattern::ContractMismatch,
        DiagnosticPattern::CircularDependency,
        DiagnosticPattern::LayerViolation,
        DiagnosticPattern::IncompleteMigration,
        DiagnosticPattern::AsymmetricHandling,
        DiagnosticPattern::StaleReference,
        DiagnosticPattern::PhantomDependency,
        DiagnosticPattern::MissingReexport,
    ];
    assert_eq!(variants.len(), 13);
}

#[test]
fn test_evidence_with_location_and_context() {
    let ev = Evidence {
        observation: "0 callers in 15 analyzed files".to_string(),
        location: Some("src/utils.py:42".to_string()),
        context: Some("function is pub".to_string()),
    };
    assert!(!ev.observation.is_empty());
    assert!(ev.location.is_some());
    assert!(ev.context.is_some());
}

#[test]
fn test_evidence_with_observation_only() {
    let ev = Evidence { observation: "module has 3 internal references".to_string(), location: None, context: None };
    assert!(!ev.observation.is_empty());
    assert!(ev.location.is_none());
    assert!(ev.context.is_none());
}

#[test]
fn test_severity_from_str_checked() {
    assert_eq!(Severity::from_str_checked("critical"), Some(Severity::Critical));
    assert_eq!(Severity::from_str_checked("warning"), Some(Severity::Warning));
    assert_eq!(Severity::from_str_checked("info"), Some(Severity::Info));
    assert_eq!(Severity::from_str_checked("unknown"), None);
}

#[test]
fn test_confidence_from_str_checked() {
    assert_eq!(Confidence::from_str_checked("high"), Some(Confidence::High));
    assert_eq!(Confidence::from_str_checked("moderate"), Some(Confidence::Moderate));
    assert_eq!(Confidence::from_str_checked("low"), Some(Confidence::Low));
    assert_eq!(Confidence::from_str_checked("unknown"), None);
}

#[test]
fn rank_follows_declared_order() {
    assert_eq!(Severity::Info.rank(), 0);
    assert_eq!(Severity::Warning.rank(), 1);
    assert_eq!(Severity::Critical.rank(), 2);
    assert_eq!(Confidence::Low.rank(), 0);
    assert_eq!(Confidence::Moderate.rank(), 1);
    assert_eq!(Confidence::High.rank(), 2);
}

#[test]
fn pattern_names_are_snake_case_and_distinct() {
    let all = [
        DiagnosticPattern::IsolatedCluster,
        DiagnosticPattern::DataDeadEnd,
        DiagnosticPattern::PartialWiring,
        DiagnosticPattern::OrphanedImplementation,
        DiagnosticPattern::Duplication,
        DiagnosticPattern::ContractMismatch,
        DiagnosticPattern::CircularDependency,
        DiagnosticPattern::LayerViolation,
        DiagnosticPattern::IncompleteMigration,
        DiagnosticPattern::AsymmetricHandling,
        DiagnosticPattern::StaleReference,
        DiagnosticPattern::PhantomDependency,
        DiagnosticPattern::MissingReexport,
    ];
    let names: Vec<&str> = all.iter().map(|p| p.name()).collect();
    for (i, a) in names.iter().enumerate() {
        for b in names.iter().skip(i + 1) {
            assert_ne!(a, b);
        }
    }
    assert_eq!(DiagnosticPattern::CircularDependency.name(), "circular_dependency");
    assert_eq!(Severity::from_str_checked("Warning"), None);
}
