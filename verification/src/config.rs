//! The settings of the server.
use vstd::prelude::*;

verus! {

/// Settings of the server.
#[derive(Clone, Debug)]
pub struct Config {
    pub connection: Connection,
    pub chunks: Chunks,
}

/// Where the server listens.
#[derive(Clone, Debug)]
pub struct Connection {
    pub port: u16,
}

/// How far and how fast chunks are handed out.
#[derive(Clone, Debug)]
pub struct Chunks {
    pub render_distance: u16,
    pub generations_per_cycle: u16,
}

} // verus!
