//! Verified core of a sandbox runtime.

pub mod archive;
pub mod auth;
pub mod broker;
pub mod chars;
pub mod clock;
pub mod compare;
pub mod config;
pub mod crd;
pub mod decode;
pub mod error;
pub mod execute;
pub mod files;
pub mod find;
pub mod fnmatch;
pub mod lookup;
pub mod metrics;
pub mod number;
pub mod order;
pub mod outside;
pub mod path;
pub mod ports;
pub mod rank;
pub mod safe_path;
pub mod scrollback;
pub mod search;
pub mod skills;
pub mod snapshot;
pub mod steps;
pub mod system;
pub mod terminals;
pub mod text;
