use vstd::prelude::*;
use crate::source_map::Range;

verus! {

pub const E_ATTR_SYNTAX: &'static str = "E_ATTR_SYNTAX";
pub const E_TARGET_ORPHAN: &'static str = "E_TARGET_ORPHAN";
pub const E_LABEL_DUP: &'static str = "E_LABEL_DUP";
pub const E_REF_OMIT: &'static str = "E_REF_OMIT";
pub const E_REF_BRACKET_NL: &'static str = "E_REF_BRACKET_NL";
pub const E_REF_SELF_TITLE: &'static str = "E_REF_SELF_TITLE";
pub const E_REF_DEPTH: &'static str = "E_REF_DEPTH";
pub const E_MATH_INLINE_NL: &'static str = "E_MATH_INLINE_NL";
pub const E_CODE_CONFLICT: &'static str = "E_CODE_CONFLICT";
pub const W_REF_MISSING: &'static str = "W_REF_MISSING";
pub const W_CODE_RANGE_OOB: &'static str = "W_CODE_RANGE_OOB";
pub const W_BOX_STYLE_INVALID: &'static str = "W_BOX_STYLE_INVALID";

/// A diagnostic: where, how severe, a stable code, a message and related locations.
#[derive(Clone, Debug)]
pub struct Diagnostic {
    pub range: Range,
    pub severity: DiagnosticSeverity,
    pub code: &'static str,
    pub message: String,
    pub related: Vec<RelatedDiagnostic>,
}

impl Diagnostic {
    pub fn new(range: Range, severity: DiagnosticSeverity, code: &'static str, message: &str) -> (d:
        Diagnostic)
        ensures
            d.range == range,
            d.severity == severity,
            d.code == code,
            d.message@ == message@,
            d.related@.len() == 0,
    {
        Diagnostic { range, severity, code, message: message.to_owned(), related: Vec::new() }
    }
}

#[derive(Clone, Copy, Debug, PartialEq, Eq, Structural)]
pub enum DiagnosticSeverity {
    Error,
    Warning,
}

#[derive(Clone, Debug)]
pub struct RelatedDiagnostic {
    pub range: Range,
    pub message: Option<String>,
}

impl RelatedDiagnostic {
    pub fn new(range: Range, message: Option<String>) -> (r: RelatedDiagnostic)
        ensures
            r.range == range,
            r.message == message,
    {
        RelatedDiagnostic { range, message }
    }
}

} // verus!
