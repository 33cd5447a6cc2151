//! What the engine tells its network front end about itself and about
//! requests it could not read.

use vstd::prelude::*;

verus! {

/// Name and version of the running service.
#[derive(Clone, Debug, PartialEq, Eq)]
pub struct VersionInfo {
    pub title: String,
    pub version: String,
}

/// Why the body of a request could not be read.
#[derive(Clone, Copy, Debug, PartialEq, Eq, Structural)]
pub enum PayloadFault {
    /// The request does not declare a body of the expected content type.
    ContentType,
    /// The body could not be deserialized; `data` tells whether it was
    /// well formed but held data that does not fit what was expected.
    Deserialize { data: bool },
    /// Anything else: a body too large or cut short.
    Other,
}

/// The response status for each fault.
pub open spec fn fault_status(fault: PayloadFault) -> u16 {
    match fault {
        PayloadFault::ContentType => 415,
        PayloadFault::Deserialize { data } => if data {
            422
        } else {
            400
        },
        PayloadFault::Other => 400,
    }
}

/// The status to answer an unreadable request with: unsupported media type
/// for a wrong content type, unprocessable entity for data that does not
/// fit, bad request otherwise.
pub fn status_for(fault: PayloadFault) -> (r: u16)
    ensures
        r == fault_status(fault),
{
    match fault {
        PayloadFault::ContentType => 415,
        PayloadFault::Deserialize { data } => if data {
            422
        } else {
            400
        },
        PayloadFault::Other => 400,
    }
}

/// The service's description of itself for the given version.
pub fn version_info(version: String) -> (r: VersionInfo)
    ensures
        r.title@ == "qdrant - vector search engine"@,
        r.version@ == version@,
{
    VersionInfo { title: "qdrant - vector search engine".to_string(), version }
}

} // verus!
