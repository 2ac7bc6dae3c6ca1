//! A plain MUD connection endpoint.

use vstd::prelude::*;

verus! {

/// The address of a MUD server to connect to.
pub struct MudConnection {
    addr: String,
}

impl MudConnection {
    pub closed spec fn address(&self) -> Seq<char> {
        self.addr@
    }

    /// A connection to `addr` (`host:port`), not yet opened.
    pub fn new(addr: &str) -> (r: Self)
        ensures
            r.address() == addr@,
    {
        Self { addr: addr.to_owned() }
    }

    /// The `host:port` this connection goes to.
    pub fn addr(&self) -> (r: &str)
        ensures
            r@ == self.address(),
    {
        self.addr.as_str()
    }
}

} // verus!
