//! Errors reported by the data model's validation.

use crate::text::dec_digits;
use vstd::prelude::*;
use vstd::string::StringExecFns;

verus! {

/// Spec-level shape of a `ModelError`.
pub ghost enum ModelErrorView {
    InvalidUrl(Seq<char>),
    InvalidMethod(Seq<char>),
    InvalidStatusCode(u16),
    EmptyField(Seq<char>),
    ValidationError(Seq<char>),
}

/// Errors that can occur when working with the data model.
#[derive(Debug)]
pub enum ModelError {
    /// Invalid URL format.
    InvalidUrl(String),
    /// Invalid HTTP method.
    InvalidMethod(String),
    /// Invalid status code (must be 100-599).
    InvalidStatusCode(u16),
    /// Empty required field.
    EmptyField(String),
    /// Validation error with custom message.
    ValidationError(String),
}

impl View for ModelError {
    type V = ModelErrorView;

    open spec fn view(&self) -> ModelErrorView {
        match self {
            ModelError::InvalidUrl(s) => ModelErrorView::InvalidUrl(s@),
            ModelError::InvalidMethod(s) => ModelErrorView::InvalidMethod(s@),
            ModelError::InvalidStatusCode(c) => ModelErrorView::InvalidStatusCode(*c),
            ModelError::EmptyField(s) => ModelErrorView::EmptyField(s@),
            ModelError::ValidationError(s) => ModelErrorView::ValidationError(s@),
        }
    }
}

impl PartialEq for ModelError {
    fn eq(&self, other: &Self) -> (r: bool) {
        match (self, other) {
            (ModelError::InvalidUrl(a), ModelError::InvalidUrl(b)) => a.eq(b),
            (ModelError::InvalidMethod(a), ModelError::InvalidMethod(b)) => a.eq(b),
            (ModelError::InvalidStatusCode(a), ModelError::InvalidStatusCode(b)) => *a == *b,
            (ModelError::EmptyField(a), ModelError::EmptyField(b)) => a.eq(b),
            (ModelError::ValidationError(a), ModelError::ValidationError(b)) => a.eq(b),
            _ => false,
        }
    }
}

impl vstd::std_specs::cmp::PartialEqSpecImpl for ModelError {
    open spec fn obeys_eq_spec() -> bool {
        true
    }

    open spec fn eq_spec(&self, other: &ModelError) -> bool {
        self@ == other@
    }
}

/// The rendering of a model error as one line of text.
pub open spec fn error_message(e: ModelErrorView) -> Seq<char> {
    match e {
        ModelErrorView::InvalidUrl(url) => "Invalid URL: "@ + url,
        ModelErrorView::InvalidMethod(m) => "Invalid HTTP method: "@ + m,
        ModelErrorView::InvalidStatusCode(c) => "Invalid status code: "@ + dec_digits(c as nat)
            + " (must be 100-599)"@,
        ModelErrorView::EmptyField(f) => "Required field is empty: "@ + f,
        ModelErrorView::ValidationError(m) => "Validation error: "@ + m,
    }
}

impl ModelError {
    /// Human-readable message for this error.
    pub fn display_string(&self) -> (r: String)
        ensures
            r@ == error_message(self@),
    {
        let mut m = String::new();
        match self {
            ModelError::InvalidUrl(url) => {
                m.append("Invalid URL: ");
                m.append(url.as_str());
            },
            ModelError::InvalidMethod(s) => {
                m.append("Invalid HTTP method: ");
                m.append(s.as_str());
            },
            ModelError::InvalidStatusCode(c) => {
                m.append("Invalid status code: ");
                let d = crate::text::usize_to_string(*c as usize);
                m.append(d.as_str());
                m.append(" (must be 100-599)");
            },
            ModelError::EmptyField(f) => {
                m.append("Required field is empty: ");
                m.append(f.as_str());
            },
            ModelError::ValidationError(s) => {
                m.append("Validation error: ");
                m.append(s.as_str());
            },
        }
        m
    }
}

/// Result type for model operations.
pub type ModelResult<T> = Result<T, ModelError>;

} // verus!
