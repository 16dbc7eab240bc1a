//! Contracts of reproducible compute tasks: what a job, a target, a device
//! inventory, a signed report and a group of nodes must satisfy, and what is
//! handed to the programs that run them.

pub mod accelerator;
pub mod attestation;
pub mod canonical;
pub mod cas;
pub mod course;
pub mod encoding;
pub mod error;
pub mod group;
pub mod host;
pub mod inputs;
pub mod json;
pub mod map;
pub mod model;
pub mod nix;
pub mod node;
pub mod outputs;
pub mod path;
pub mod process;
pub mod reading;
pub mod rendezvous;
pub mod report;
pub mod runtime;
pub mod selection;
pub mod sort;
pub mod store;
pub mod task;
pub mod text;
pub mod version;
