//! The parsed form of an expression.

use vstd::prelude::*;
use crate::filter::{FieldPath, FilterExpr, Template};

verus! {

/// Parsed DSL result containing an optional filter, template, and field
/// selector.
#[derive(Debug)]
pub struct ParsedDSL {
    /// Optional filter expression for boolean evaluation
    pub filter: Option<FilterExpr>,
    /// Optional template for output formatting
    pub template: Option<Template>,
    /// Optional field selector for direct field extraction
    pub field_selector: Option<FieldPath>,
}

impl ParsedDSL {
    /// A result holding nothing.
    pub fn new() -> (r: ParsedDSL)
        ensures
            r.filter is None,
            r.template is None,
            r.field_selector is None,
    {
        ParsedDSL { filter: None, template: None, field_selector: None }
    }
}

impl Default for ParsedDSL {
    fn default() -> (r: ParsedDSL)
        ensures
            r.filter is None,
            r.template is None,
            r.field_selector is None,
    {
        ParsedDSL::new()
    }
}

} // verus!
