//! JSON lines: telling them, their columns, their fields, and filtering them.

pub use crate::fields::{extract_field, field_needle, FieldExtractor};
pub use crate::filter::{
    compare_numbers, compare_val, filter_range, join_hits, plan_filter, run_filter,
    run_filter_from, token_matches,
};
pub use crate::query::{normalize_clause_keys, parse_clause, parse_query, Clause, Op};
pub use crate::schema::{
    are_mostly_objects, detect, discover_schema, finish_schema, merge_fields, Column, Schema,
};
pub use crate::screen::field_value_matches;
pub use crate::text::{contains_ascii_ci, starts_with_ascii_ci};
pub use crate::value::{
    cell_display, compact_prefix, flatten, is_expandable, navigate, parse_line, value_width, SubRow,
    WIDTH_CLAMP,
};
