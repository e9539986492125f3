//! From the recognition of a paper to its Markdown: figures are downloaded, tables are rewritten
//! as records, and what is known of the paper is put together.
//!
//! The library holds what is decided and computed. It takes and gives plain values; reading,
//! writing and requests are up to the program around it. Text is handled as a sequence of
//! characters: `text`, `pieces`, `scan`, `number`, `order` and `paths` say what is done with it,
//! and the other modules are stated over them.

pub mod assets;
pub mod batch;
pub mod cli;
pub mod config;
pub mod html;
pub mod images;
pub mod input;
pub mod json;
pub mod layout;
pub mod number;
pub mod ocr;
pub mod okf;
pub mod order;
pub mod output;
pub mod paper;
pub mod paths;
pub mod pattern;
pub mod pieces;
pub mod scan;
pub mod segments;
pub mod tables;
pub mod text;
