//! Diagnostics reported against a file.

use vstd::prelude::*;

verus! {

/// How serious a diagnostic is.
#[derive(Debug, Clone, Copy, PartialEq, Eq, Structural)]
pub enum Severity {
    Error,
    Warning,
    Advice,
}

/// One diagnostic row: the file it is about, its severity and its message.
#[derive(Debug, Clone)]
pub struct ReportedDiagnostic {
    pub path: String,
    pub severity: Severity,
    pub message: String,
}

impl ReportedDiagnostic {
    /// An error about `path`.
    pub fn error(path: String, message: String) -> (d: ReportedDiagnostic)
        ensures
            d.path@ == path@,
            d.severity == Severity::Error,
            d.message@ == message@,
    {
        ReportedDiagnostic { path, severity: Severity::Error, message }
    }

    /// Advice about `path`.
    pub fn advice(path: String, message: String) -> (d: ReportedDiagnostic)
        ensures
            d.path@ == path@,
            d.severity == Severity::Advice,
            d.message@ == message@,
    {
        ReportedDiagnostic { path, severity: Severity::Advice, message }
    }

    /// A warning about `path`.
    pub fn warning(path: String, message: String) -> (d: ReportedDiagnostic)
        ensures
            d.path@ == path@,
            d.severity == Severity::Warning,
            d.message@ == message@,
    {
        ReportedDiagnostic { path, severity: Severity::Warning, message }
    }
}

} // verus!
