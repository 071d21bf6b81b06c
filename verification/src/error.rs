//! The errors reported to a client.
use vstd::prelude::*;

verus! {

/// Why the server refused a client's request.
#[derive(Clone, Copy, Debug, PartialEq, Eq, Structural)]
pub enum ClientError {
    Register,
    Login,
    Logoff,
    ConnectionReset,
}

} // verus!
