//! The run configuration: which fields are scrubbed with synthesized names,
//! which are forced to fixed values, which are rebuilt by combining others,
//! and which tables are excluded. These are plain data; loading them from a
//! configuration document happens outside the library.

use vstd::prelude::*;

verus! {

#[derive(Debug, PartialEq)]
pub struct DbInstance {
    pub name: String,
}

#[derive(Debug, PartialEq)]
pub struct TestingConfig {
    pub test_live: String,
    pub temp_verify: String,
    pub verification_marker: String,
    pub cleanup_script: String,
}

#[derive(Debug, PartialEq)]
pub struct DatabaseConfig {
    pub source: DbInstance,
    pub target: DbInstance,
    pub testing: TestingConfig,
}

#[derive(Debug, PartialEq)]
pub struct ExportConfig {
    pub random_seed: u64,
}

#[derive(Debug, PartialEq)]
pub struct LoggingConfig {
    pub directory: String,
    pub prefix: String,
}

#[derive(Debug, PartialEq)]
pub struct ChecksumConfig {
    pub enabled: bool,
    pub algorithm: String,
}

#[derive(Debug, PartialEq)]
pub struct RecordCountConfig {
    pub enabled: bool,
    pub sample_tables: Vec<String>,
}

#[derive(Debug, PartialEq)]
pub struct VerificationConfig {
    pub logging: LoggingConfig,
    pub checksums: ChecksumConfig,
    pub record_counts: RecordCountConfig,
}

/// Replace the named fields of the named table with synthesized values in
/// the given style.
#[derive(Debug, PartialEq)]
pub struct RandomNameConfig {
    pub table: String,
    pub fields: Vec<String>,
    pub style: String,
}

#[derive(Debug, PartialEq)]
pub struct ScrubbingConfig {
    pub random_names: Vec<RandomNameConfig>,
}

#[derive(Debug, PartialEq)]
pub struct TableField {
    pub table: String,
    pub field: String,
}

/// Force each listed `(table, field)` to the one fixed `value`.
#[derive(Debug, PartialEq)]
pub struct StandardizeField {
    pub value: String,
    pub fields: Vec<TableField>,
}

#[derive(Debug, PartialEq)]
pub struct StandardizeConfig {
    pub address: StandardizeField,
    pub phone: StandardizeField,
    pub email: StandardizeField,
}

/// One source of a combination: the field read, or — when `random_style` is
/// non-empty — a freshly synthesized value in that style.
#[derive(Debug, PartialEq)]
pub struct SourceField {
    pub source_field: String,
    pub random_style: String,
}

/// Build `target_field` by joining the sources, in order, with `separator`.
#[derive(Debug, PartialEq)]
pub struct CombinationFieldConfig {
    pub table: String,
    pub fields: Vec<SourceField>,
    pub separator: String,
    pub target_field: String,
}

#[derive(Debug, PartialEq)]
pub struct Config {
    pub databases: DatabaseConfig,
    pub excluded_tables: Vec<String>,
    pub export: ExportConfig,
    pub verification: VerificationConfig,
    pub scrubbing: ScrubbingConfig,
    pub standardize: StandardizeConfig,
    pub combination_fields: Vec<CombinationFieldConfig>,
}

} // verus!
