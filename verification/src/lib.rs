//! A verified note store: bundles of notes with tags, kept as relational
//! tables with the schema's keys, references and cascades.

pub mod models;
pub mod order;
pub mod like;
pub mod table;
pub mod db;
pub mod query;
pub mod commands;
pub mod laws;
pub mod effects;
