use scientia::scientific::ScientificError;
use scientia::source::{SourceDiagnostic, SourceSeverity, SourceSpan};
use scientia::structural::{StructuralCompileError, StructuralError};
use scientia::structure::structure_error;
use scientia::verification::profile_error;

#[test]
fn source_span_new_and_default() {
    let span = SourceSpan::new(3, 9);
    assert_eq!(span.start, 3);
    assert_eq!(span.end, 9);
    assert_eq!(SourceSpan::default(), SourceSpan::new(0, 0));
}

#[test]
fn error_and_warning_diagnostics_start_empty() {
    let span = SourceSpan::new(1, 2);
    let error = SourceDiagnostic::error("CODE", "message", span);
    assert_eq!(error.code, "CODE");
    assert_eq!(error.severity, SourceSeverity::Error);
    assert_eq!(error.message, "message");
    assert_eq!(error.span, span);
    assert!(error.related.is_empty());
    assert!(error.hints.is_empty());
    assert_eq!(error.phase, None);
    let warning = SourceDiagnostic::warning("W", "careful", span);
    assert_eq!(warning.severity, SourceSeverity::Warning);
    assert_eq!(warning.code, "W");
}

#[test]
fn hints_accumulate_and_phase_is_set() {
    let diagnostic = SourceDiagnostic::error("CODE", "message", SourceSpan::default())
        .hint("first")
        .hint("second")
        .phase("parsing");
    assert_eq!(diagnostic.hints, vec!["first".to_string(), "second".to_string()]);
    assert_eq!(diagnostic.phase.as_deref(), Some("parsing"));
}

#[test]
fn scientific_error_diagnostics_have_codes_and_phases() {
    let span = SourceSpan::new(4, 7);
    let syntax = ScientificError::Syntax {
        message: "invalid number".into(),
        span,
    }
    .diagnostic();
    assert_eq!(syntax.code, "PARSE_SYNTAX");
    assert_eq!(syntax.message, "invalid number");
    assert_eq!(syntax.span, span);
    assert_eq!(syntax.phase.as_deref(), Some("parsing"));

    let duplicate = ScientificError::Duplicate("T".into()).diagnostic();
    assert_eq!(duplicate.code, "RESOLVE_DUPLICATE_NAME");
    assert_eq!(duplicate.message, "duplicate declaration `T`");
    assert_eq!(duplicate.span, SourceSpan::default());
    assert_eq!(duplicate.phase.as_deref(), Some("resolution"));

    let unknown = ScientificError::UnknownName("k".into()).diagnostic();
    assert_eq!(unknown.code, "RESOLVE_UNKNOWN_NAME");
    assert_eq!(unknown.message, "unknown name `k`");

    let cycle = ScientificError::ImportCycle {
        name: "a.b".into(),
        span,
    }
    .diagnostic();
    assert_eq!(cycle.code, "RESOLVE_IMPORT_CYCLE");
    assert_eq!(cycle.message, "import cycle through `a.b`");
    assert_eq!(cycle.span, span);

    let missing = ScientificError::MissingModule {
        name: "physics.thermal".into(),
        span,
    }
    .diagnostic();
    assert_eq!(missing.code, "RESOLVE_MISSING_MODULE");
    assert_eq!(missing.message, "missing imported module `physics.thermal`");

    let quantity = ScientificError::Quantity("bad unit".into()).diagnostic();
    assert_eq!(quantity.code, "TYPE_QUANTITY");
    assert_eq!(quantity.message, "bad unit");
    assert_eq!(quantity.phase.as_deref(), Some("elaboration"));

    let property = ScientificError::Property("no table".into()).diagnostic();
    assert_eq!(property.code, "PROPERTY_EVALUATION");
    assert_eq!(property.phase.as_deref(), Some("evaluation"));
    assert_eq!(property.severity, SourceSeverity::Error);
}

#[test]
fn scientific_error_messages() {
    let syntax = ScientificError::Syntax {
        message: "oops".into(),
        span: SourceSpan::new(2, 5),
    };
    assert_eq!(
        syntax.describe(),
        "syntax error at SourceSpan { start: 2, end: 5 }: oops"
    );
    assert_eq!(
        ScientificError::Duplicate("x".into()).describe(),
        "duplicate declaration `x`"
    );
    assert_eq!(
        ScientificError::Quantity("m vs s".into()).describe(),
        "quantity error: m vs s"
    );
    assert_eq!(
        ScientificError::Property("p".into()).describe(),
        "property evaluation failed: p"
    );
}

#[test]
fn structural_error_messages() {
    assert_eq!(
        StructuralError::DuplicateVariable("T".into()).describe(),
        "model declares structural variable `T` more than once"
    );
    let not_square = StructuralCompileError::NotSquare {
        n_equations: 2,
        n_variables: 3,
    };
    assert_eq!(
        not_square.describe(),
        "system is not square: 2 equation(s) vs 3 variable(s)"
    );
    let singular = StructuralCompileError::StructurallySingular {
        unmatched_equations: vec![1],
        unmatched_variables: vec![0, 12],
    };
    assert_eq!(
        singular.describe(),
        "structurally singular: 1 unmatched equation(s) [1], 2 unmatched variable(s) [0, 12]"
    );
    let empty = StructuralCompileError::StructurallySingular {
        unmatched_equations: vec![],
        unmatched_variables: vec![],
    };
    assert_eq!(
        empty.describe(),
        "structurally singular: 0 unmatched equation(s) [], 0 unmatched variable(s) []"
    );
}

#[test]
fn structure_and_profile_errors() {
    let error = structure_error("STRUCTURE_X", "bad block");
    assert_eq!(error.code, "STRUCTURE_X");
    assert_eq!(error.message, "bad block");
    assert_eq!(error.describe(), "STRUCTURE_X: bad block");
    let profile = profile_error("PROFILE_Y", "no field");
    assert_eq!(profile.code, "PROFILE_Y");
    assert_eq!(profile.describe(), "PROFILE_Y: no field");
}
