//! What the request layer hands out besides the rates: the index of its
//! routes and the version of the oracle.

use vstd::prelude::*;
use crate::error::Error;

verus! {

/// Gets API index
/// GET /v1/
pub struct IndexHandler {
    /// The routes that the index lists.
    pub list: Vec<String>,
}

/// The version of the oracle.
pub open spec fn spec_crate_version() -> Seq<char> {
    "0.1.0"@
}

/// API Version Information
#[derive(Debug)]
pub struct Version {
    /// Current oracle API Version (api crate version)
    pub oracle_version: String,
    /// Block header version
    pub block_header_version: u16,
}

impl Clone for Version {
    fn clone(&self) -> (r: Self)
        ensures
            r == *self,
    {
        Version {
            oracle_version: self.oracle_version.clone(),
            block_header_version: self.block_header_version,
        }
    }
}

/// Version handler. Get running node API version
/// GET /v1/version
pub struct VersionHandler {}

impl VersionHandler {
    /// The version of the oracle, and the block header version, which is zero.
    pub fn get_version(&self) -> (r: Result<Version, Error>)
        ensures
            r is Ok,
            r->Ok_0.oracle_version@ == spec_crate_version(),
            r->Ok_0.block_header_version == 0,
    {
        Ok(Version { oracle_version: "0.1.0".to_owned(), block_header_version: 0u16 })
    }
}

} // verus!
