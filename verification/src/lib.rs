//! A schema-driven scrubber for delimited database-export files.
//!
//! The library parses a DDL dump into table schemas (`parse_sql_file`),
//! decodes and re-encodes delimiter-terminated data lines (`UnlRow`),
//! applies scrubbing, standardization and field-combination rules to each
//! record by name-to-position resolution (`UnlProcessor`), and fixes the
//! per-table bounded-retry and run-summary policy (`retry_outcome`,
//! `summarize`). Reading files, the configuration document and the worker
//! pool live outside the library and hand it plain values.

use vstd::prelude::*;

mod config;
mod engine_spec;
mod error;
mod orchestrator;
mod random;
mod schema;
mod text;
mod unl;

pub use config::ChecksumConfig;
pub use config::CombinationFieldConfig;
pub use config::Config;
pub use config::DatabaseConfig;
pub use config::DbInstance;
pub use config::ExportConfig;
pub use config::LoggingConfig;
pub use config::RandomNameConfig;
pub use config::RecordCountConfig;
pub use config::ScrubbingConfig;
pub use config::SourceField;
pub use config::StandardizeConfig;
pub use config::StandardizeField;
pub use config::TableField;
pub use config::TestingConfig;
pub use config::VerificationConfig;
pub use error::Error;
pub use orchestrator::load_script;
pub use orchestrator::name_listed;
pub use orchestrator::processable_tables;
pub use orchestrator::retry_outcome;
pub use orchestrator::should_retry;
pub use orchestrator::summarize;
pub use orchestrator::RunResult;
pub use orchestrator::RunSummary;
pub use orchestrator::BACKOFF_SECONDS;
pub use orchestrator::MAX_ATTEMPTS;
pub use random::generate_random_name;
pub use schema::parse_sql_file;
pub use schema::TableCatalog;
pub use schema::TableInfo;
pub use unl::find_field_index;
pub use unl::find_field_index_by_table;
pub use unl::UnlProcessor;
pub use unl::UnlRow;
