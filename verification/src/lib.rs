//! A lexical call-graph extractor for trees of C source files.
//!
//! The library recognizes function definitions by a fixed signature pattern,
//! delimits function bodies by brace counting, scans bodies for call sites,
//! keeps only calls to functions defined somewhere in the tree, merges the
//! per-file results into one graph, serializes that graph as a JSON document,
//! parses such documents back, and answers reverse-lookup queries
//! ("who calls function X?").
//!
//! It is deliberately not a C front end: no preprocessing, no comment or
//! string-literal awareness, no scope resolution. Functions are identified by
//! bare name; two definitions with the same name collapse to one graph node
//! (the later-processed one wins).

pub mod bytes;
pub mod codec;
pub mod graph;
pub mod scan;
