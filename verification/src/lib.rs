//! Look up OSTN15 adjustments for transforming ETRS89 Eastings and Northings
//! to OSGB36 Eastings and Northings.
//!
//! The crate has two halves, used at disjoint times and connected only by the
//! table they share: a build-time pipeline that parses the OSTN15 data file
//! and constructs a minimal perfect hash table keyed by the dataset's record
//! identifier, and a runtime lookup that encodes a kilometer-grid coordinate
//! pair into that identifier and queries the table.

mod builder;
mod grid;
mod parse;
mod shift;
mod table;

pub use table::ShiftTable;
pub use table::assoc_map;
pub use table::distinct_keys;
pub use table::get_shifts;
pub use table::idx_of;
pub use table::ostn15_lookup;

pub use builder::TableBuilder;
pub use builder::build_table;
pub use builder::data_lines;
pub use builder::parse_records;
pub use builder::built_from;
pub use builder::built_ids;
pub use builder::built_triples;
pub use builder::lemma_built_wf;
pub use builder::lemma_rebuild_identical;
pub use builder::lemma_roundtrip_source_to_lookup;
pub use builder::lemma_table_matches_source;
pub use builder::records_map;
pub use parse::COMMA;
pub use parse::DOT;
pub use parse::MINUS;
pub use parse::PLUS;
pub use parse::ParseError;
pub use parse::all_digits;
pub use parse::digit_val;
pub use parse::digits_val;
pub use parse::digits_part;
pub use parse::find_byte;
pub use parse::frac_digits;
pub use parse::frac_scale;
pub use parse::has_dot;
pub use parse::has_sign;
pub use parse::int_digits;
pub use parse::int_field_value;
pub use parse::is_digit;
pub use parse::is_neg;
pub use parse::parse_i32;
pub use parse::parse_line;
pub use parse::parse_shift;
pub use parse::shift_field_magnitude;
pub use parse::shift_field_value;
pub use parse::spec_parse_line;
pub use parse::split_at_commas;
pub use parse::split_bounds;
pub use parse::valid_id_field;
pub use parse::valid_int_field;
pub use parse::valid_shift_field;
pub use shift::Adjustment;
pub use shift::Shift;
pub use shift::ShiftRecord;
pub use shift::triple_of;
pub use grid::GridRefs;
pub use grid::ROW_STRIDE;
pub use grid::encode_key;
pub use grid::lemma_key_injective;
pub use grid::spec_key;
