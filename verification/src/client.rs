//! The thin client: it holds the options a connection is opened with.
//! Opening the socket itself is transport work and lives outside this crate.

use vstd::prelude::*;

use crate::connection::ConnectionOptions;

verus! {

/// Segment client.
#[derive(Debug)]
pub struct Client {
    options: ConnectionOptions,
}

impl Client {
    pub closed spec fn spec_options(&self) -> ConnectionOptions {
        self.options
    }

    /// Creates a new client; this does not open a connection.
    pub fn new(options: ConnectionOptions) -> (r: Self)
        ensures
            r.spec_options() == options,
    {
        Client { options }
    }

    /// The options a connection will be opened with.
    pub fn options(&self) -> (r: &ConnectionOptions)
        ensures
            *r == self.spec_options(),
    {
        &self.options
    }
}

} // verus!
