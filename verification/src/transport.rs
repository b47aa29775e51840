//! The I/O seam between the SMTP engine and a connection.

use vstd::prelude::*;
use crate::config::{TlsVerify, VerifyMode};

verus! {

/// One thing that happened on a connection.
pub enum Event {
    /// A write of these bytes, and whether it succeeded.
    Write(Seq<u8>, bool),
    /// A read into a buffer of this many bytes that gave these bytes; none
    /// means the connection closed.
    Read(Seq<u8>, nat),
    /// A read that failed.
    ReadFailed,
    /// A TLS upgrade for this host name with this certificate setting, and
    /// whether it succeeded.
    Upgrade(Seq<char>, VerifyMode, bool),
}

/// What the other end of a connection is set up to do, where a transport
/// knows it (a scripted one does): the replies it sends, in order, and
/// whether reads fail.
pub struct Peer {
    pub replies: Seq<Seq<u8>>,
    pub reads_fail: bool,
}

/// Abstraction over I/O for SMTP protocol operations.
///
/// Implement this trait to provide a custom transport (e.g., for testing).
///
/// The contracts speak of a record that an implementation keeps, as
/// specification only: what happened on the connection, in order. They
/// also speak of what the other end is set up to do, which no operation
/// changes, and of whether what the transport shows agrees with its record,
/// which every operation keeps. A transport that defines none of these
/// leaves them unspecified; one written outside the verified library (a
/// device transport, a test double) is not checked against these contracts.
pub trait SmtpTransport {
    /// The error type for transport operations.
    type Error: core::fmt::Display + core::fmt::Debug + Send + Sync + 'static;

    /// What happened on the connection so far, in order. An implementation
    /// that does not define it leaves it unspecified.
    closed spec fn events(&self) -> Seq<Event> {
        arbitrary()
    }

    /// What the other end of the connection is set up to do.
    closed spec fn peer(&self) -> Peer {
        arbitrary()
    }

    /// Whether what the transport shows agrees with its record and with
    /// what the other end is set up to do.
    closed spec fn coherent(&self) -> bool {
        true
    }

    /// Read bytes from the connection into `buf`.
    /// Returns the number of bytes read; those are the first bytes of `buf`.
    fn read(&mut self, buf: &mut [u8]) -> (r: Result<usize, Self::Error>)
        ensures
            final(buf)@.len() == old(buf)@.len(),
            match r {
                Ok(n) => {
                    &&& n <= old(buf)@.len()
                    &&& final(self).events() == old(self).events().push(
                        Event::Read(final(buf)@.take(n as int), old(buf)@.len()),
                    )
                },
                Err(_) => final(self).events() == old(self).events().push(Event::ReadFailed),
            },
            final(self).peer() == old(self).peer(),
            old(self).coherent() ==> final(self).coherent(),
    ;

    /// Write all bytes in `data` to the connection.
    fn write_all(&mut self, data: &[u8]) -> (r: Result<(), Self::Error>)
        ensures
            final(self).events() == old(self).events().push(Event::Write(data@, r is Ok)),
            final(self).peer() == old(self).peer(),
            old(self).coherent() ==> final(self).coherent(),
    ;

    /// Upgrade the connection to TLS (for STARTTLS).
    ///
    /// `host` is the server hostname for SNI; `tls_verify` controls
    /// certificate verification.
    fn upgrade_tls(&mut self, host: &str, tls_verify: &TlsVerify) -> (r: Result<(), Self::Error>)
        ensures
            final(self).events() == old(self).events().push(Event::Upgrade(host@, tls_verify@, r is Ok)),
            final(self).peer() == old(self).peer(),
            old(self).coherent() ==> final(self).coherent(),
    ;
}

} // verus!
