//! Plain shapes of the command line: which servers to crawl and with
//! how many workers. Parsing itself lives outside the library.

use vstd::prelude::*;

verus! {

/// Which servers a headless crawl covers.
#[derive(Debug, Clone)]
pub struct ServerSelect {
    /// Crawl every known server; supersedes the url list.
    pub all: bool,
    /// The list of server urls to fetch.
    pub urls: Option<Vec<String>>,
}

/// The one headless subcommand.
#[derive(Debug, Clone)]
pub enum CLICommand {
    Crawl { concurrency: usize, threads: usize, servers: ServerSelect },
}

/// The parsed command line.
#[derive(Debug)]
pub struct Args {
    pub sub: Option<CLICommand>,
}

impl Args {
    /// A subcommand means the program runs without its windows.
    pub fn is_headless(&self) -> (r: bool)
        ensures
            r == (self.sub is Some),
    {
        self.sub.is_some()
    }
}

} // verus!
