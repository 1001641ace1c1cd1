//! parsm: detects and parses JSON, CSV, YAML, TOML, logfmt and plain text,
//! and applies one expression language for filtering and templating.

pub mod csv_parser;
pub mod detect;
pub mod documents;
pub mod dsl;
pub mod filter;
pub mod format_detector;
pub mod json_stream;
pub mod json_text;
pub mod lines;
pub mod number;
pub mod operators;
pub mod parse;
pub mod parser_registry;
pub mod pipeline;
pub mod record;
pub mod serde_values;
pub mod records;
pub mod text;
pub mod value;

pub use detect::{detect_format, Format};
pub use dsl::{parse_command, parse_separate_expressions, ParsedDSL};
pub use filter::{
    ComparisonOp, FieldPath, FilterEngine, FilterExpr, FilterValue, Template, TemplateItem,
};
pub use format_detector::{DetectedFormat, FormatDetector};
pub use record::Record;
pub use records::RecordError;
pub use value::JsonValue;
