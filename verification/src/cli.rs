//! What the user asks for on the command line.
use vstd::prelude::*;
use vstd::slice::slice_to_vec;
#[allow(unused_imports)]
use vstd::utf8::encode_utf8;
use crate::engine::DownloadEngine;
use crate::request::ParsedUrl;
#[allow(unused_imports)]
use crate::request::file_name;

verus! {

/// The number of connections where none is given.
pub const DEFAULT_CONNECTIONS: usize = 16;

/// The most that one move of payload may carry where nothing is given: 1 MiB.
pub const DEFAULT_BUF_SIZE: usize = 1048576;

/// The number of entries of either ring where none is given.
pub const DEFAULT_RING_ENTRIES: u16 = 128;

/// The block size in KiB where none is given.
pub const DEFAULT_BLOCK_SIZE_KB: usize = 64;

/// The options of a download.
#[derive(Debug)]
pub struct Cli {
    pub url: String,
    /// The path of the file to write, as the bytes that the operating system knows it
    /// by.
    pub output: Option<Vec<u8>>,
    pub connections: usize,
    pub block_size_kb: usize,
    pub ring_entries: u16,
    pub buf_size: usize,
}

impl Cli {
    /// The options for `url` where nothing else is given.
    pub fn with_defaults(url: String) -> (cli: Cli)
        ensures
            cli.url == url,
            cli.output is None,
            cli.connections == DEFAULT_CONNECTIONS,
            cli.block_size_kb == DEFAULT_BLOCK_SIZE_KB,
            cli.ring_entries == DEFAULT_RING_ENTRIES,
            cli.buf_size == DEFAULT_BUF_SIZE,
    {
        Cli {
            url,
            output: None,
            connections: DEFAULT_CONNECTIONS,
            block_size_kb: DEFAULT_BLOCK_SIZE_KB,
            ring_entries: DEFAULT_RING_ENTRIES,
            buf_size: DEFAULT_BUF_SIZE,
        }
    }

    /// The engine that the options ask for.
    pub fn engine(&self) -> (engine: DownloadEngine)
        ensures
            engine.sq_entries == self.ring_entries,
            engine.cq_entries == self.ring_entries,
            engine.buf_size == self.buf_size,
            engine.connections == self.connections,
    {
        DownloadEngine::new(self.ring_entries, self.buf_size, self.connections, self.block_size_kb)
    }

    /// The path of the file to write: the one given, or the name that the target has.
    pub fn output_path(&self, target: &ParsedUrl) -> (path: Vec<u8>)
        ensures
            path@ == (match self.output {
                Some(output) => output@,
                None => encode_utf8(file_name(target@.path)),
            }),
    {
        match &self.output {
            Some(output) => slice_to_vec(output.as_slice()),
            None => slice_to_vec(target.default_file_name().as_str().as_bytes()),
        }
    }
}

} // verus!
