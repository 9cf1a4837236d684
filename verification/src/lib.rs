//! Fast mutation testing for Python: the decisions of a run, the text it
//! writes, and the proofs that they are what they claim to be.
//!
//! Everything here is a function of plain values. Reading files, running
//! pytest and talking to the database is left to the program around it.
pub mod batch;
pub mod config;
pub mod coverage;
pub mod db;
pub mod diff;
pub mod edits;
pub mod exec;
pub mod filing;
pub mod html;
pub mod ids;
pub mod json;
pub mod lines;
pub mod literals;
pub mod logging;
pub mod mutate;
pub mod names;
pub mod operators;
pub mod paths;
pub mod pytest;
pub mod report;
pub mod runner;
pub mod schemata;
pub mod sonar;
pub mod sorting;
pub mod stryker;
pub mod syntax;
pub mod text;
pub mod warm;
