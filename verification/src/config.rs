//! Connection configuration: TLS mode, certificate checking, credentials.

use vstd::prelude::*;

verus! {

/// TLS connection mode.
#[derive(Debug, Clone, Copy, PartialEq, Eq, Structural)]
pub enum TlsMode {
    /// TLS from connection start (typically port 465).
    ImplicitTls,
    /// Upgrade plaintext to TLS after EHLO (typically port 587).
    StartTls,
    /// No encryption (for trusted local relays, typically port 25).
    Plain,
}

/// TLS certificate verification mode.
#[derive(Debug, Clone)]
pub enum TlsVerify {
    /// Verify server certificate against system CA bundle (default).
    Verify,
    /// Accept any certificate (for self-signed servers).
    SkipVerify,
    /// Verify against a custom CA certificate in PEM format.
    CustomCa(Vec<u8>),
}

/// A certificate setting as plain values.
pub enum VerifyMode {
    Verify,
    SkipVerify,
    CustomCa(Seq<u8>),
}

impl View for TlsVerify {
    type V = VerifyMode;

    open spec fn view(&self) -> VerifyMode {
        match self {
            TlsVerify::Verify => VerifyMode::Verify,
            TlsVerify::SkipVerify => VerifyMode::SkipVerify,
            TlsVerify::CustomCa(pem) => VerifyMode::CustomCa(pem@),
        }
    }
}

impl Default for TlsVerify {
    /// Certificates are verified unless configured otherwise.
    fn default() -> (r: Self)
        ensures
            r is Verify,
    {
        TlsVerify::Verify
    }
}

/// SMTP authentication credentials.
#[derive(Debug, Clone)]
pub struct Credentials {
    pub username: String,
    pub password: String,
}

/// SMTP connection configuration.
#[derive(Debug, Clone)]
pub struct SmtpConfig {
    pub host: String,
    pub port: u16,
    pub tls_mode: TlsMode,
    pub credentials: Option<Credentials>,
    pub timeout_ms: u32,
    pub tls_verify: TlsVerify,
}

/// The default per-command timeout, in milliseconds.
pub const DEFAULT_TIMEOUT_MS: u32 = 5000;

impl SmtpConfig {
    /// Create a new SMTP configuration.
    ///
    /// Defaults: implicit TLS, no credentials, 5s timeout, verify certs.
    pub fn new(host: &str, port: u16) -> (r: Self)
        ensures
            r.host@ == host@,
            r.port == port,
            r.tls_mode == TlsMode::ImplicitTls,
            r.credentials is None,
            r.timeout_ms == DEFAULT_TIMEOUT_MS,
            r.tls_verify is Verify,
    {
        SmtpConfig {
            host: host.to_owned(),
            port,
            tls_mode: TlsMode::ImplicitTls,
            credentials: None,
            timeout_ms: DEFAULT_TIMEOUT_MS,
            tls_verify: TlsVerify::default(),
        }
    }

    /// Set the TLS mode.
    pub fn tls_mode(self, mode: TlsMode) -> (r: Self)
        ensures
            r == (SmtpConfig { tls_mode: mode, ..self }),
    {
        let mut s = self;
        s.tls_mode = mode;
        s
    }

    /// Set authentication credentials.
    pub fn credentials(self, username: &str, password: &str) -> (r: Self)
        ensures
            r.credentials matches Some(c) && c.username@ == username@ && c.password@ == password@,
            r.host == self.host,
            r.port == self.port,
            r.tls_mode == self.tls_mode,
            r.timeout_ms == self.timeout_ms,
            r.tls_verify == self.tls_verify,
    {
        let mut s = self;
        s.credentials = Some(Credentials { username: username.to_owned(), password: password.to_owned() });
        s
    }

    /// Set per-command timeout in milliseconds.
    pub fn timeout_ms(self, ms: u32) -> (r: Self)
        ensures
            r == (SmtpConfig { timeout_ms: ms, ..self }),
    {
        let mut s = self;
        s.timeout_ms = ms;
        s
    }

    /// Enable certificate verification (default).
    pub fn verify_certs(self) -> (r: Self)
        ensures
            r == (SmtpConfig { tls_verify: TlsVerify::Verify, ..self }),
    {
        let mut s = self;
        s.tls_verify = TlsVerify::Verify;
        s
    }

    /// Skip certificate verification.
    pub fn skip_cert_verification(self) -> (r: Self)
        ensures
            r == (SmtpConfig { tls_verify: TlsVerify::SkipVerify, ..self }),
    {
        let mut s = self;
        s.tls_verify = TlsVerify::SkipVerify;
        s
    }

    /// Use a custom CA certificate in PEM format.
    pub fn ca_cert_pem(self, pem: &[u8]) -> (r: Self)
        ensures
            r.tls_verify matches TlsVerify::CustomCa(ca) && ca@ == pem@,
            r.host == self.host,
            r.port == self.port,
            r.tls_mode == self.tls_mode,
            r.credentials == self.credentials,
            r.timeout_ms == self.timeout_ms,
    {
        let mut s = self;
        s.tls_verify = TlsVerify::CustomCa(vstd::slice::slice_to_vec(pem));
        s
    }
}

} // verus!
