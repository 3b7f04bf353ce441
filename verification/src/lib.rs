//! A bitemporal time series database engine.

pub mod aggregates;
pub mod ast;
pub mod auth;
pub mod bloom;
pub mod bytes;
pub mod catalog;
pub mod change;
pub mod clock;
pub mod codec;
pub mod copy;
pub mod crypto;
pub mod database;
pub mod depth;
pub mod derived;
pub mod durability;
pub mod duties;
pub mod error;
pub mod eval;
pub mod exact;
pub mod exposition;
pub mod extremes;
pub mod faults;
pub mod flatten;
pub mod floats;
pub mod functions;
pub mod handle;
pub mod hostcall;
pub mod inputs;
pub mod kernel;
pub mod layers;
pub mod lex;
pub mod logged;
pub mod lookups;
pub mod manifest;
pub mod memory;
pub mod merging;
pub mod metrics;
pub mod model;
pub mod names;
pub mod operators;
pub mod ops;
pub mod order;
pub mod output;
pub mod parser;
pub mod perm;
pub mod policy;
pub mod query;
pub mod ranges;
pub mod read;
pub mod rebuild;
pub mod recovery;
pub mod render;
pub mod reopen;
pub mod replay;
pub mod reread;
pub mod restart;
pub mod restore;
pub mod restored;
pub mod run;
pub mod service;
pub mod sstable;
pub mod state;
pub mod status;
pub mod text;
pub mod value;
pub mod views;
pub mod windows;
pub mod writes;
