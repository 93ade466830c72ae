use vstd::prelude::*;

pub mod actions;
pub mod clients;
pub mod crypto;
pub mod ip;
pub mod metrics;
pub mod model;
pub mod num;
pub mod store;

verus! {

/// The failures the library reports to its callers.
///
/// `NotFound` covers a missing client id as well as a missing
/// configuration file; `CapacityExceeded` means the subnet has no free
/// address left for a new client; `ParseError` means a persisted
/// configuration document is not well formed.  `IoError` and
/// `ExternalCommandError` are constructed by the unverified driver code
/// around the library when a filesystem operation or an external
/// command fails.
#[derive(Debug)]
pub enum Error {
    NotFound,
    CapacityExceeded,
    ParseError,
    IoError,
    ExternalCommandError { command: String, code: i32 },
}

impl Error {
    /// A human-readable description, in place of `Display`.
    pub fn describe(&self) -> String {
        match self {
            Error::NotFound => String::from_str("client with the given id doesn't exist"),
            Error::CapacityExceeded => String::from_str("no enough space for new clients"),
            Error::ParseError => String::from_str("config file is not well-formed"),
            Error::IoError => String::from_str("filesystem read or write failed"),
            Error::ExternalCommandError { command, code } => {
                let mut s = command.clone();
                s.append(" failed with exit code: ");
                if *code < 0 {
                    s.append("-");
                    let magnitude: i64 = -(*code as i64);
                    s.append(crate::num::u64_to_dec(magnitude as u64).as_str());
                } else {
                    s.append(crate::num::u64_to_dec(*code as u64).as_str());
                }
                s
            },
        }
    }
}

} // verus!

pub use model::client::Client;
pub use model::server::Server;
