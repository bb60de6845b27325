//! Inventory of tabular documents: schema extraction, schema fingerprints,
//! duplicate and near-duplicate indices, and redaction of numeric identifiers.

pub mod cluster;
pub mod csv_schema;
pub mod directories;
pub mod excel;
pub mod fingerprint;
pub mod indices;
pub mod model;
pub mod redact;
pub mod row_cap;
pub mod scan;
pub mod similarity;
pub mod sources;
pub mod tables;
pub mod text;
