//! Catalog entries: reusable manifest templates with their input forms.

use vstd::prelude::*;

verus! {

/// One user-facing input of a template.
#[derive(Debug, Clone, PartialEq)]
pub struct InputSchema {
    /// Variable name substituted into the template.
    pub name: String,
    /// Human-readable label.
    pub label: String,
    /// `"text"`, `"select"` or `"number"`.
    pub input_type: String,
    /// The choices of a `"select"` input.
    pub options: Option<Vec<String>>,
}

/// A reusable project template: a manifest with placeholders, plus the form
/// describing what to substitute.
#[derive(Debug, Clone, PartialEq)]
pub struct ProductTemplate {
    pub id: String,
    pub name: String,
    /// Manifest text with placeholders for the declared inputs.
    pub manifest_template: String,
    pub inputs: Vec<InputSchema>,
}

} // verus!
