//! The device-facing client.

use vstd::prelude::*;
use crate::config::SmtpConfig;

verus! {

/// SMTP client for sending emails.
///
/// Sending opens a new connection for each email, runs
/// [`crate::protocol::send_email`] over it, and closes it after QUIT; the
/// connection itself is the device's, outside this library.
pub struct SmtpClient {
    config: SmtpConfig,
}

impl SmtpClient {
    /// The configuration the client was made with.
    pub closed spec fn configuration(&self) -> SmtpConfig {
        self.config
    }

    /// Create a new SMTP client with the given configuration.
    pub fn new(config: SmtpConfig) -> (r: Self)
        ensures
            r.configuration() == config,
    {
        SmtpClient { config }
    }

    /// The configuration the client was made with.
    pub fn config(&self) -> (r: &SmtpConfig)
        ensures
            *r == self.configuration(),
    {
        &self.config
    }
}

} // verus!
