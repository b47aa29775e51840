use esp_idf_smtp::{SmtpError, SmtpResponse};

#[test]
fn error_messages_name_what_failed() {
    assert_eq!(SmtpError::Tls { message: "handshake".into() }.to_string(), "TLS error: handshake");
    assert_eq!(
        SmtpError::Auth { code: 535, message: "bad".into() }.to_string(),
        "authentication failed (code 535): bad"
    );
    assert_eq!(
        SmtpError::RejectedSender { address: "a@b.com".into(), code: 550, message: "no".into() }.to_string(),
        "sender a@b.com rejected (code 550): no"
    );
    assert_eq!(
        SmtpError::RejectedRecipient { address: "c@d.com".into(), code: 551, message: "gone".into() }.to_string(),
        "recipient c@d.com rejected (code 551): gone"
    );
    assert_eq!(
        SmtpError::DataRejected { code: 554, message: "spam".into() }.to_string(),
        "data rejected (code 554): spam"
    );
    assert_eq!(SmtpError::Timeout { stage: "DATA".into() }.to_string(), "timeout waiting for response to DATA");
    assert_eq!(
        SmtpError::Protocol { expected: 220, got: SmtpResponse { code: 554, message: "x".into() } }.to_string(),
        "protocol error: expected 220, got 554"
    );
    assert_eq!(SmtpError::InvalidEmail { message: "from".into() }.to_string(), "invalid email: from");
    assert_eq!(
        SmtpError::NoAuthMethod { available: vec!["CRAM-MD5".into(), "XOAUTH2".into()] }.to_string(),
        "no compatible auth method (server supports: [\"CRAM-MD5\", \"XOAUTH2\"])"
    );
}

#[test]
fn io_error_messages_carry_the_io_text() {
    let e = SmtpError::Io(std::io::Error::new(std::io::ErrorKind::Other, "boom"));
    assert_eq!(e.to_string(), "I/O error: boom");
    let c = SmtpError::Connection {
        host: "mx".into(),
        port: 25,
        source: std::io::Error::new(std::io::ErrorKind::Other, "refused"),
    };
    assert_eq!(c.to_string(), "connection to mx:25 failed: refused");
}
