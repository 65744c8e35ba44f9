//! Unicode identifier normalization collision workbench.

pub mod align;
pub mod analyses;
pub mod answers;
pub mod base64;
pub mod cli;
pub mod conflicts;
pub mod consistency;
pub mod cycles;
pub mod decisions;
pub mod decode;
pub mod deposits;
pub mod engine;
pub mod events;
pub mod exported;
pub mod exports;
pub mod feasible;
pub mod guarantees;
pub mod hashes;
pub mod hex_bytes;
pub mod http;
pub mod icu_tables;
pub mod import;
pub mod json;
pub mod ledger;
pub mod lines;
pub mod mappings;
pub mod migrations;
pub mod model;
pub mod order;
pub mod outcomes;
pub mod payloads;
pub mod plannings;
pub mod readings;
pub mod requests;
pub mod scan;
pub mod scanning;
pub mod server;
pub mod service;
pub mod shapes;
pub mod sorting;
pub mod source;
pub mod stages;
pub mod store;
pub mod strmap;
pub mod tables;
pub mod text;
pub mod traces;
pub mod unicode;
pub mod urls;
