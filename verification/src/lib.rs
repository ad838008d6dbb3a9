//! Derive a `.env.example` template from a `.env` file.
//!
//! The library classifies the lines of an env file (blank, comment,
//! `KEY=value`), renders a sanitized template with the values stripped, and
//! computes which keys are missing from an existing template.  All of the
//! text processing is verified; reading and writing files is left to the
//! binary around the library.

pub mod classify;
pub mod errors;
pub mod laws;
pub mod reconcile;
pub mod text;
