//! Arabic morphological analysis and stemming: the text utilities, the
//! morphology database and its reader, the analyzer and the stemmers.
pub mod chars;
pub mod outside;
pub mod text_rules;
pub mod utils;
pub mod analyzer;
pub mod readings;
pub mod db_format;
pub mod morphology_db;
pub mod stemmer;
pub mod noan_stemmer;
pub mod mle;
pub mod options;
pub mod resources;
pub mod catalogue;
