//! Fetch planning and CF metadata for Open-Meteo spatial forecasts.
//!
//! The decisions of the `om2nc` program, from the command line to the layout of
//! the output file. Nothing here reads, writes or waits: `session` says what is
//! to be done next, and is told how it went.
pub mod text;
pub mod names;
pub mod order;
pub mod bignum;
pub mod binary64;
pub mod shortest;
pub mod number;
pub mod steps;
pub mod roundtrip;
pub mod calendar;
pub mod timefmt;
pub mod store;
pub mod meta;
pub mod plan;
pub mod cf;
pub mod om;
pub mod nc;
pub mod gaussian;
pub mod grid;
pub mod fetch;
pub mod session;
pub mod cli;
