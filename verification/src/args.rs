//! The server's startup settings.
use vstd::prelude::*;

verus! {

/// Port to listen on, the master to replicate (`"<host> <port>"`), and the
/// directory and file name of the RDB dump.
#[derive(Debug)]
pub struct Args {
    pub port: usize,
    pub replicaof: Option<String>,
    pub dir: String,
    pub dbfilename: String,
}

impl Args {
    /// A copy of these settings.
    pub fn duplicate(&self) -> (r: Args)
        ensures
            r == *self,
    {
        Args {
            port: self.port,
            replicaof: match &self.replicaof {
                Some(s) => Some(s.clone()),
                None => None,
            },
            dir: self.dir.clone(),
            dbfilename: self.dbfilename.clone(),
        }
    }
}

} // verus!
