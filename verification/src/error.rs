//! Errors of SMTP operations.

use vstd::prelude::*;
use vstd::string::StringExecFns;
use crate::response::SmtpResponse;
use crate::text::{decimal, push_decimal};

verus! {

/// `std::io::Error`, carried through opaquely.
#[verifier::external_type_specification]
#[verifier::external_body]
pub struct ExIoError(std::io::Error);

/// Errors that can occur during SMTP operations.
#[derive(Debug)]
pub enum SmtpError {
    /// TCP connection failed.
    Connection { host: String, port: u16, source: std::io::Error },
    /// TLS handshake or upgrade failed.
    Tls { message: String },
    /// Authentication rejected by server.
    Auth { code: u16, message: String },
    /// MAIL FROM rejected by server.
    RejectedSender { address: String, code: u16, message: String },
    /// RCPT TO rejected by server.
    RejectedRecipient { address: String, code: u16, message: String },
    /// DATA or message body rejected by server.
    DataRejected { code: u16, message: String },
    /// SMTP command timed out.
    Timeout { stage: String },
    /// Unexpected SMTP response code.
    Protocol { expected: u16, got: SmtpResponse },
    /// Email builder validation failed.
    InvalidEmail { message: String },
    /// No compatible authentication method available.
    NoAuthMethod { available: Vec<String> },
    /// Underlying I/O error.
    Io(std::io::Error),
}

/// What an error says, as plain values; an I/O error's content is opaque.
pub enum Failure {
    Connection { host: Seq<char>, port: u16 },
    Tls { message: Seq<char> },
    Auth { code: u16, message: Seq<char> },
    RejectedSender { address: Seq<char>, code: u16, message: Seq<char> },
    RejectedRecipient { address: Seq<char>, code: u16, message: Seq<char> },
    DataRejected { code: u16, message: Seq<char> },
    Timeout { stage: Seq<char> },
    Protocol { expected: u16, code: u16, message: Seq<char> },
    InvalidEmail { message: Seq<char> },
    NoAuthMethod { available: Seq<Seq<char>> },
    Io,
}

impl View for SmtpError {
    type V = Failure;

    open spec fn view(&self) -> Failure {
        match self {
            SmtpError::Connection { host, port, .. } => Failure::Connection { host: host@, port: *port },
            SmtpError::Tls { message } => Failure::Tls { message: message@ },
            SmtpError::Auth { code, message } => Failure::Auth { code: *code, message: message@ },
            SmtpError::RejectedSender { address, code, message } => Failure::RejectedSender {
                address: address@,
                code: *code,
                message: message@,
            },
            SmtpError::RejectedRecipient { address, code, message } => Failure::RejectedRecipient {
                address: address@,
                code: *code,
                message: message@,
            },
            SmtpError::DataRejected { code, message } => Failure::DataRejected { code: *code, message: message@ },
            SmtpError::Timeout { stage } => Failure::Timeout { stage: stage@ },
            SmtpError::Protocol { expected, got } => Failure::Protocol {
                expected: *expected,
                code: got.code,
                message: got.message@,
            },
            SmtpError::InvalidEmail { message } => Failure::InvalidEmail { message: message@ },
            SmtpError::NoAuthMethod { available } => Failure::NoAuthMethod { available: available.deep_view() },
            SmtpError::Io(_) => Failure::Io,
        }
    }
}

/// The kinds of I/O error that the library raises itself.
pub enum IoKind {
    /// A transport failure, carried as text.
    Other,
    /// The connection closed before a reply was complete.
    UnexpectedEof,
    /// A reply line's text starts inside a multi-byte character.
    InvalidData,
    /// A scripted connection reset.
    ConnectionReset,
}

/// Calls `std::io::Error::new` with the given kind and message. Nothing is
/// claimed of the result, which the library only carries.
#[verifier::external_body]
pub(crate) fn io_error(kind: IoKind, message: &str) -> std::io::Error {
    let kind = match kind {
        IoKind::Other => std::io::ErrorKind::Other,
        IoKind::UnexpectedEof => std::io::ErrorKind::UnexpectedEof,
        IoKind::InvalidData => std::io::ErrorKind::InvalidData,
        IoKind::ConnectionReset => std::io::ErrorKind::ConnectionReset,
    };
    std::io::Error::new(kind, message.to_owned())
}

/// Calls `to_string` on a `std::io::Error` (its `Display`). Nothing is
/// claimed of the text, which depends on the error's content, opaque here.
#[verifier::external_body]
fn io_error_text(e: &std::io::Error) -> String {
    e.to_string()
}

/// What `{:?}` writes for a list of strings: each string quoted and
/// escaped as `str::escape_debug` does, separated by `, `, in brackets.
pub uninterp spec fn debug_list(items: Seq<Seq<char>>) -> Seq<char>;

/// Formats a list of strings with `{:?}`. The contract claims that the
/// result is [`debug_list`] of the strings; the escaping is not stated.
#[verifier::external_body]
fn format_debug_list(items: &Vec<String>) -> (r: String)
    ensures
        r@ == debug_list(items.deep_view()),
{
    format!("{:?}", items)
}

fn text_of(s: &str) -> (r: String)
    ensures
        r@ == s@,
{
    s.to_owned()
}

impl SmtpError {
    /// The error's message.
    pub fn to_string(&self) -> (r: String)
        ensures
            match self {
                SmtpError::Connection { host, port, .. } => ("connection to "@ + host@ + ":"@ + decimal(*port as nat)
                    + " failed: "@).is_prefix_of(r@),
                SmtpError::Tls { message } => r@ == "TLS error: "@ + message@,
                SmtpError::Auth { code, message } => r@ == "authentication failed (code "@ + decimal(*code as nat) + "): "@
                    + message@,
                SmtpError::RejectedSender { address, code, message } => r@ == "sender "@ + address@ + " rejected (code "@
                    + decimal(*code as nat) + "): "@ + message@,
                SmtpError::RejectedRecipient { address, code, message } => r@ == "recipient "@ + address@
                    + " rejected (code "@ + decimal(*code as nat) + "): "@ + message@,
                SmtpError::DataRejected { code, message } => r@ == "data rejected (code "@ + decimal(*code as nat) + "): "@
                    + message@,
                SmtpError::Timeout { stage } => r@ == "timeout waiting for response to "@ + stage@,
                SmtpError::Protocol { expected, got } => r@ == "protocol error: expected "@ + decimal(*expected as nat)
                    + ", got "@ + decimal(got.code as nat),
                SmtpError::InvalidEmail { message } => r@ == "invalid email: "@ + message@,
                SmtpError::NoAuthMethod { available } => r@ == "no compatible auth method (server supports: "@
                    + debug_list(available.deep_view()) + ")"@,
                SmtpError::Io(_) => "I/O error: "@.is_prefix_of(r@),
            },
    {
        match self {
            SmtpError::Connection { host, port, source } => {
                let mut s = text_of("connection to ");
                s.append(host.as_str());
                s.append(":");
                push_decimal(&mut s, *port as u64);
                s.append(" failed: ");
                let ghost head = s@;
                let t = io_error_text(source);
                s.append(t.as_str());
                proof {
                    assert(head =~= s@.subrange(0, head.len() as int));
                }
                s
            },
            SmtpError::Tls { message } => {
                let mut s = text_of("TLS error: ");
                s.append(message.as_str());
                s
            },
            SmtpError::Auth { code, message } => {
                let mut s = text_of("authentication failed (code ");
                push_decimal(&mut s, *code as u64);
                s.append("): ");
                s.append(message.as_str());
                s
            },
            SmtpError::RejectedSender { address, code, message } => {
                let mut s = text_of("sender ");
                s.append(address.as_str());
                s.append(" rejected (code ");
                push_decimal(&mut s, *code as u64);
                s.append("): ");
                s.append(message.as_str());
                s
            },
            SmtpError::RejectedRecipient { address, code, message } => {
                let mut s = text_of("recipient ");
                s.append(address.as_str());
                s.append(" rejected (code ");
                push_decimal(&mut s, *code as u64);
                s.append("): ");
                s.append(message.as_str());
                s
            },
            SmtpError::DataRejected { code, message } => {
                let mut s = text_of("data rejected (code ");
                push_decimal(&mut s, *code as u64);
                s.append("): ");
                s.append(message.as_str());
                s
            },
            SmtpError::Timeout { stage } => {
                let mut s = text_of("timeout waiting for response to ");
                s.append(stage.as_str());
                s
            },
            SmtpError::Protocol { expected, got } => {
                let mut s = text_of("protocol error: expected ");
                push_decimal(&mut s, *expected as u64);
                s.append(", got ");
                push_decimal(&mut s, got.code as u64);
                s
            },
            SmtpError::InvalidEmail { message } => {
                let mut s = text_of("invalid email: ");
                s.append(message.as_str());
                s
            },
            SmtpError::NoAuthMethod { available } => {
                let mut s = text_of("no compatible auth method (server supports: ");
                let list = format_debug_list(available);
                s.append(list.as_str());
                s.append(")");
                s
            },
            SmtpError::Io(e) => {
                let mut s = text_of("I/O error: ");
                let ghost head = s@;
                let t = io_error_text(e);
                s.append(t.as_str());
                proof {
                    assert(head =~= s@.subrange(0, head.len() as int));
                }
                s
            },
        }
    }
}

} // verus!
