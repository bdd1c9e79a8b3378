//! Component test suites: inventory, results, corpus, and the decisions of their
//! runners.

pub mod aggregate;
pub mod aggregate_laws;
pub mod args;
pub mod bench;
pub mod compose;
pub mod composed;
pub mod debug;
pub mod digest;
pub mod feature;
pub mod inventory;
pub mod inventory_laws;
pub mod json;
pub mod junit;
pub mod linking;
pub mod lock;
pub mod lockfile;
pub mod manifest;
pub mod marks;
pub mod matrix;
pub mod name;
pub mod opening;
pub mod order;
pub mod pins;
pub mod provider;
pub mod reading;
pub mod registry;
pub mod report;
pub mod results;
pub mod roles;
pub mod run_laws;
pub mod runner;
pub mod schedule;
pub mod selection;
pub mod session;
pub mod shape;
pub mod shared;
pub mod stream;
pub mod suite;
pub mod suite_laws;
pub mod table;
pub mod tags;
pub mod tally;
pub mod text;
pub mod ties;
pub mod tomlread;
pub mod verdict;
