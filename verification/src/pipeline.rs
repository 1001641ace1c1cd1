//! Records to output: what one record writes under an expression.

use vstd::prelude::*;
use crate::dsl::ParsedDSL;
use crate::filter::{eval, extracted_text, lookup, rendered, FilterEngine};
use crate::json_text::{compact, to_compact};
use crate::record::{content_wf, lemma_json_wf, lemma_view_wf, record_json, record_view, Record};
use crate::records::{error_message, RecordError};

verus! {

/// The output line for a record whose view is `view` and whose source is
/// `source`: nothing when the filter rejects it; the selected field's text,
/// or nothing when the field is missing; otherwise the rendered template,
/// or the source when there is no template.
pub open spec fn output_of(dsl: ParsedDSL, view: crate::value::JVal, source: Seq<char>) -> Option<Seq<char>> {
    let passes = match dsl.filter {
        Some(f) => eval(f@, view),
        None => true,
    };
    if !passes {
        None
    } else {
        match dsl.field_selector {
            Some(sel) => match lookup(sel@, view) {
                Some(v) => Some(extracted_text(v)),
                None => None,
            },
            None => match dsl.template {
                Some(t) => Some(rendered(t@, view)),
                None => Some(source),
            },
        }
    }
}

/// The output line for `record`, or `None` when it is filtered out or lacks
/// the selected field.
pub fn evaluate(record: &Record, dsl: &ParsedDSL) -> (r: Option<String>)
    requires
        content_wf(record.content),
    ensures
        match output_of(*dsl, record_view(*record), record.source@) {
            Some(t) => (r matches Some(s) && s@ == t),
            None => r is None,
        },
{
    let view = record.view();
    proof {
        lemma_view_wf(*record);
    }
    match &dsl.filter {
        Some(filter) => {
            if !FilterEngine::evaluate(filter, &view) {
                return None;
            }
        },
        None => {},
    }
    match &dsl.field_selector {
        Some(selector) => {
            return selector.extract_field(&view);
        },
        None => {},
    }
    match &dsl.template {
        Some(template) => Some(template.render(&view)),
        None => Some(record.source.clone()),
    }
}

/// What to write for each record.
#[derive(Clone, Copy)]
pub enum Action<'a> {
    /// One line of compact JSON per record.
    Convert,
    /// Records passing the filter, as the field selector, the template or
    /// `$0`.
    Evaluate(&'a ParsedDSL),
}

/// The output line for a record under `action`: its compact JSON when
/// converting, else what `output_of` gives.
pub open spec fn action_output(action: Action, record: Record) -> Option<Seq<char>> {
    match action {
        Action::Convert => Some(compact(record_json(record.content))),
        Action::Evaluate(dsl) => output_of(*dsl, record_view(record), record.source@),
    }
}

/// The output line for `record` under `action`, or `None` when nothing is
/// written for it.
pub fn output_line(record: &Record, action: Action) -> (r: Option<String>)
    requires
        content_wf(record.content),
    ensures
        match action_output(action, *record) {
            Some(t) => (r matches Some(s) && s@ == t),
            None => r is None,
        },
{
    match action {
        Action::Convert => {
            let json = record.to_json();
            proof {
                lemma_json_wf(record.content);
            }
            Some(to_compact(&json))
        },
        Action::Evaluate(dsl) => evaluate(record, dsl),
    }
}

/// What the pipeline does with one item read.
pub enum Outcome {
    /// Write this line.
    Write(String),
    /// Write nothing for this record.
    Nothing,
    /// Report this warning; the failed record is skipped.
    Warn(String),
    /// Stop with this error: nothing had parsed.
    Fail(String),
}

/// What the pipeline does with `item`: a record writes its output line, if
/// any; a failure after something parsed is a warning; a failure before is
/// the end of processing.
pub fn outcome(item: &Result<Record, RecordError>, action: Action) -> (r: Outcome)
    requires
        item matches Ok(rec) ==> content_wf(rec.content),
    ensures
        match item {
            Ok(rec) => match action_output(action, *rec) {
                Some(t) => (r matches Outcome::Write(s) && s@ == t),
                None => r is Nothing,
            },
            Err(e) => match e {
                RecordError::Skipped { .. } => (r matches Outcome::Warn(m) && m@ == error_message(*e)),
                RecordError::First { .. } => (r matches Outcome::Fail(m) && m@ == error_message(*e)),
            },
        },
{
    match item {
        Ok(record) => match output_line(record, action) {
            Some(line) => Outcome::Write(line),
            None => Outcome::Nothing,
        },
        Err(error) => match error {
            RecordError::Skipped { .. } => Outcome::Warn(error.message()),
            RecordError::First { .. } => Outcome::Fail(error.message()),
        },
    }
}

/// Whether a record whose view is `view` passes the expression's filter;
/// without a filter every record passes.
pub open spec fn passes(dsl: ParsedDSL, view: crate::value::JVal) -> bool {
    match dsl.filter {
        Some(f) => eval(f@, view),
        None => true,
    }
}

/// What is written for a record: given a filter, a matching record's own
/// source text; given a template, the template rendered over the record
/// instead; given a field selector, the selected field's text, or nothing
/// when the record lacks it; a record the filter rejects writes nothing.
pub proof fn lemma_what_is_written(dsl: ParsedDSL, view: crate::value::JVal, source: Seq<char>)
    ensures
        !passes(dsl, view) ==> output_of(dsl, view, source) is None,
        passes(dsl, view) && dsl.field_selector is None && dsl.template is None ==> output_of(
            dsl,
            view,
            source,
        ) == Some(source),
        passes(dsl, view) && dsl.field_selector is None && dsl.template is Some ==> output_of(
            dsl,
            view,
            source,
        ) == Some(rendered(dsl.template->0@, view)),
        passes(dsl, view) && dsl.field_selector is Some ==> output_of(dsl, view, source) == match lookup(
            dsl.field_selector->0@,
            view,
        ) {
            Some(v) => Some(extracted_text(v)),
            None => None::<Seq<char>>,
        },
{
}

} // verus!
