//! The configuration surface: addresses, directories and logging choices,
//! as plain values. Parsing them from the command line happens outside the
//! library.

use vstd::prelude::*;

verus! {

/// The server's configuration.
#[derive(Clone, Debug)]
pub struct Args {
    /// Addresses of all consensus peers; at least one is expected.
    pub peer_addr: Vec<String>,
    /// This node's consensus address.
    pub self_addr: String,
    /// The client-facing listen address.
    pub kv_addr: String,
    /// The storage engine's data directory.
    pub directory: String,
    /// The consensus state file.
    pub raft_state_file: String,
    /// The log level.
    pub log_level: String,
    /// The logging filter.
    pub rust_log: String,
}

impl Args {
    pub fn log_level(&self) -> (r: String)
        ensures
            r@ == self.log_level@,
    {
        self.log_level.clone()
    }

    pub fn data_dir(&self) -> (r: String)
        ensures
            r@ == self.directory@,
    {
        self.directory.clone()
    }

    pub fn self_addr(&self) -> (r: String)
        ensures
            r@ == self.self_addr@,
    {
        self.self_addr.clone()
    }

    #[verifier::loop_isolation(false)]
    pub fn peer_addr(&self) -> (r: Vec<String>)
        ensures
            r.deep_view() == self.peer_addr.deep_view(),
    {
        let n = self.peer_addr.len();
        let mut out: Vec<String> = Vec::new();
        let mut i: usize = 0;
        while i < n
            invariant
                i <= n,
                out@.len() == i,
                forall|j: int| 0 <= j < i ==> out@[j]@ == self.peer_addr@[j]@,
            decreases n - i,
        {
            out.push(self.peer_addr[i].clone());
            i = i + 1;
        }
        proof {
            assert(out.deep_view() =~= self.peer_addr.deep_view());
        }
        out
    }

    pub fn rust_log(&self) -> (r: &str)
        ensures
            r@ == self.rust_log@,
    {
        self.rust_log.as_str()
    }

    pub fn raft_state_file(&self) -> (r: String)
        ensures
            r@ == self.raft_state_file@,
    {
        self.raft_state_file.clone()
    }

    pub fn kv_addr(&self) -> (r: String)
        ensures
            r@ == self.kv_addr@,
    {
        self.kv_addr.clone()
    }
}

} // verus!
