//! Lightweight SMTP client for ESP-IDF devices.
//!
//! Provides a type-safe SMTP client with support for implicit TLS, STARTTLS,
//! and plaintext connections. Authentication via AUTH PLAIN or AUTH LOGIN.
//! The protocol engine runs over any [`SmtpTransport`].

pub mod config;
pub mod text;
pub mod transport;
pub mod response;
pub mod error;
pub mod email;
pub mod protocol;
pub mod mock_transport;
pub mod client;

pub use config::{Credentials, SmtpConfig, TlsMode, TlsVerify};
pub use email::{Address, Email, EmailBuilder};
pub use error::SmtpError;
pub use response::SmtpResponse;
pub use transport::SmtpTransport;
pub use client::SmtpClient;
