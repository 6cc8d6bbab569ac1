//! The core of a multi-connection HTTP downloader.
//!
//! Payload goes from each socket through a kernel pipe into the output file. This
//! crate performs no input or output: it reads targets and responses, divides the
//! resource among connections, and answers the completion of each operation with the
//! operations to ask for next.
pub mod cli;
pub mod connection;
pub mod delivery;
pub mod engine;
pub mod guarantees;
pub mod http;
pub mod net;
pub mod pipe;
pub mod plan;
pub mod request;
pub mod retries;
pub mod steps;
pub mod storage;
pub mod text;
pub mod token;
