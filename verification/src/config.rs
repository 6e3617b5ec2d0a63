//! What the command line settles: which mode to run, and its parameters.
//! The surrounding program parses the arguments and hands these in.

use vstd::prelude::*;

verus! {

/// The parsed command line.
#[derive(Debug)]
pub struct Cli {
    pub subcommand: Subcommand,
}

/// The two ways to run: one sync of one account, or the server.
#[derive(Debug)]
pub enum Subcommand {
    RunOnce(RunOnce),
    Serve(Server),
}

/// One sync of one account: the instance to talk to and its credential.
#[derive(Debug)]
pub struct RunOnce {
    pub instance: String,
    pub token: String,
}

/// The server: where the accounts live and where to listen.
#[derive(Debug)]
pub struct Server {
    pub database: String,
    pub addr: String,
    pub port: u16,
}

} // verus!
