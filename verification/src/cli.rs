//! Startup configuration: the single tunable is the TCP port to listen
//! on. Flag parsing itself is I/O plumbing and lives with the embedding
//! program; this type is what it hands over.

use vstd::prelude::*;

verus! {

/// The port the server listens on when none is given.
pub const DEFAULT_PORT: u16 = 6379;

/// The server's startup configuration.
#[derive(Debug, Clone, Copy, PartialEq, Eq, Structural)]
pub struct CliArgs {
    pub port: u16,
}

impl Default for CliArgs {
    /// The configuration with every setting at its default.
    fn default() -> (r: Self)
        ensures
            r.port == DEFAULT_PORT,
    {
        CliArgs { port: 6379 }
    }
}

} // verus!
