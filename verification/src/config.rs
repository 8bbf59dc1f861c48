//! Connection endpoints derived from the helper configuration.

use vstd::prelude::*;

verus! {

/// The helper's configuration: the store's address, and optionally a
/// path for its persistent storage engine.
#[derive(Debug)]
pub struct Config {
    pub db_addr: String,
    pub db_store_path: Option<String>,
}

impl Config {
    /// The HTTP endpoint of the store.
    pub fn db_url(&self) -> (r: String)
        ensures
            r@ == "http://"@ + self.db_addr@,
    {
        let mut s = String::from_str("http://");
        s.append(self.db_addr.as_str());
        s
    }

    /// The storage-engine URL, when a persistent store path is
    /// configured; `None` means the store keeps no on-disk state.
    pub fn db_store_url(&self) -> (r: Option<String>)
        ensures
            r is Some <==> self.db_store_path is Some,
            r matches Some(u) ==> u@ == "rocksdb://"@ + self.db_store_path->0@,
    {
        match &self.db_store_path {
            None => None,
            Some(p) => {
                let mut s = String::from_str("rocksdb://");
                s.append(p.as_str());
                Some(s)
            },
        }
    }
}

} // verus!
