//! What running an input can give back: options of a run, its errors and its formatted
//! results.

use vstd::prelude::*;
use crate::text::{chars_of, push_str, string_of};

verus! {

/// Why a formula could not be evaluated.
#[derive(Debug, Clone, Copy, PartialEq, Eq, Structural)]
pub enum FormulaEvaluationError {
    UnparsedElements,
    UnexpandedElements,
    FunctionCallWithInvalidArgumentCount,
}

pub open spec fn formula_evaluation_error_text(e: FormulaEvaluationError) -> Seq<char> {
    match e {
        FormulaEvaluationError::UnparsedElements => "Contains unparsed elements"@,
        FormulaEvaluationError::UnexpandedElements => "Contains unexpanded variables or functions"@,
        FormulaEvaluationError::FunctionCallWithInvalidArgumentCount => "Contains function call with invalid argument count"@,
    }
}

impl FormulaEvaluationError {
    /// The error's message.
    pub fn message(&self) -> (s: String)
        ensures
            s@ == formula_evaluation_error_text(*self),
    {
        let t = match self {
            FormulaEvaluationError::UnparsedElements => "Contains unparsed elements",
            FormulaEvaluationError::UnexpandedElements => "Contains unexpanded variables or functions",
            FormulaEvaluationError::FunctionCallWithInvalidArgumentCount => "Contains function call with invalid argument count",
        };
        string_of(&chars_of(t))
    }
}

/// Why an input could not be evaluated.
#[derive(Debug)]
pub enum EvaluationError {
    CouldNotParse(String),
}

impl EvaluationError {
    /// The error's message: `Could not parse formula: ` and the reason.
    pub fn message(&self) -> (s: String)
        ensures
            s@ == "Could not parse formula: "@ + match self {
                EvaluationError::CouldNotParse(m) => m@,
            },
    {
        match self {
            EvaluationError::CouldNotParse(m) => {
                let mut out = chars_of("Could not parse formula: ");
                push_str(&mut out, m.as_str());
                string_of(&out)
            },
        }
    }
}

/// Why running an input failed.
#[derive(Debug)]
pub enum RunError {
    ParseFailed(String),
    CalculationFailed(String),
    FailedToAddSymbol(String),
}

/// The precision of a run, in bits.
#[derive(Debug, Clone, Copy, PartialEq, Eq, Structural)]
pub enum RunPrecision {
    /// Minimum and maximum precision (in bits) to try.
    Dynamic(usize, usize),
    Fixed(usize),
}

impl Default for RunPrecision {
    /// From 512 bits up to 2^20 bits.
    fn default() -> (r: Self)
        ensures
            r == RunPrecision::Dynamic(512, 1048576),
    {
        RunPrecision::Dynamic(512, 1048576)
    }
}

/// Options of a run.
#[derive(Debug, Clone, Copy, PartialEq, Eq, Structural)]
pub struct RunOptions {
    pub dry_run: bool,
    pub precision: RunPrecision,
}

impl Default for RunOptions {
    /// No dry run, the default precision.
    fn default() -> (r: Self)
        ensures
            r == (RunOptions { dry_run: false, precision: RunPrecision::Dynamic(512, 1048576) }),
    {
        RunOptions { dry_run: false, precision: RunPrecision::default() }
    }
}

/// A result as text: exact (perhaps rounded for display), an approximation whose
/// precision was checked, or one that reached the precision limit.
#[derive(Debug)]
pub enum FormattedCalculationOutput {
    Exact { result: String, has_rounded: bool },
    ApproximationChecked { result: String, precision_bits: u32 },
    ApproximationReachedLimit { result: String },
}

impl FormattedCalculationOutput {
    /// The result's text, whatever kind of result it is.
    pub fn get_string(&self) -> (s: &String)
        ensures
            *s == match self {
                FormattedCalculationOutput::Exact { result, .. } => *result,
                FormattedCalculationOutput::ApproximationChecked { result, .. } => *result,
                FormattedCalculationOutput::ApproximationReachedLimit { result } => *result,
            },
    {
        match self {
            FormattedCalculationOutput::Exact { result, .. } => result,
            FormattedCalculationOutput::ApproximationChecked { result, .. } => result,
            FormattedCalculationOutput::ApproximationReachedLimit { result } => result,
        }
    }
}

} // verus!
