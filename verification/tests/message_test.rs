use esp_idf_smtp::{Email, SmtpConfig, SmtpError, TlsMode};
use esp_idf_smtp::config::TlsVerify;

#[test]
fn headers_do_not_depend_on_bcc() {
    let base = Email::builder().from("a@b.com").to("c@d.com").subject("S").body("B");
    let one = base.bcc("x@y.com").build().unwrap();
    let two = Email::builder().from("a@b.com").to("c@d.com").subject("S").body("B").bcc("p@q.com").bcc("r@s.com").build().unwrap();
    assert_eq!(one.headers(), two.headers());
}

#[test]
fn full_header_block() {
    let email = Email::builder()
        .from_named("Dev", "dev@x.com")
        .to("a@x.com")
        .to("b@x.com")
        .cc("c@x.com")
        .subject("Hello")
        .body("B")
        .date("Fri, 28 Mar 2026 12:00:00 +0000")
        .message_id("id-1@x.com")
        .build()
        .unwrap();
    assert_eq!(
        email.headers(),
        "From: \"Dev\" <dev@x.com>\r\nTo: a@x.com, b@x.com\r\nCc: c@x.com\r\nSubject: Hello\r\nDate: Fri, 28 Mar 2026 12:00:00 +0000\r\nMIME-Version: 1.0\r\nContent-Type: text/plain; charset=UTF-8\r\nMessage-ID: <id-1@x.com>\r\nX-Mailer: esp-idf-smtp/0.4.1\r\n"
    );
}

#[test]
fn body_never_holds_the_end_of_data_line() {
    for body in [".", "a\n.\nb", ".\r\n.", "\r\n.\r\n", "..", "x\r\r\n."] {
        let email = Email::builder().from("a@b.com").to("c@d.com").subject("S").body(body).build().unwrap();
        let wire = format!("\r\n{}", email.formatted_body());
        assert!(!wire.contains("\r\n.\r\n"), "terminator in {:?}", wire);
        for (i, _) in wire.match_indices('\n') {
            assert_eq!(&wire[i - 1..i], "\r");
        }
    }
}

#[test]
fn formatted_body_exact() {
    let email = Email::builder().from("a@b.com").to("c@d.com").subject("S").body("a\r\n.b\n\nc\r").build().unwrap();
    assert_eq!(email.formatted_body(), "a\r\n..b\r\n\r\nc\r\n");
    let empty = Email::builder().from("a@b.com").to("c@d.com").subject("S").body("").build().unwrap();
    assert_eq!(empty.formatted_body(), "\r\n");
}

#[test]
fn build_reports_first_missing_field() {
    match Email::builder().build() {
        Err(SmtpError::InvalidEmail { message }) => assert_eq!(message, "from address is required"),
        other => panic!("unexpected {:?}", other),
    }
    match Email::builder().from("a@b.com").build() {
        Err(SmtpError::InvalidEmail { message }) => assert_eq!(message, "at least one To recipient is required"),
        other => panic!("unexpected {:?}", other),
    }
    match Email::builder().from("a@b.com").to("c@d.com").build() {
        Err(SmtpError::InvalidEmail { message }) => assert_eq!(message, "subject is required"),
        other => panic!("unexpected {:?}", other),
    }
    match Email::builder().from("a@b.com").to("c@d.com").subject("s").build() {
        Err(SmtpError::InvalidEmail { message }) => assert_eq!(message, "body is required"),
        other => panic!("unexpected {:?}", other),
    }
}

#[test]
fn config_setters_touch_one_field() {
    let c = SmtpConfig::new("h", 1).timeout_ms(7).tls_mode(TlsMode::Plain).ca_cert_pem(b"pem").verify_certs();
    assert_eq!(c.host, "h");
    assert_eq!(c.port, 1);
    assert_eq!(c.timeout_ms, 7);
    assert_eq!(c.tls_mode, TlsMode::Plain);
    assert!(matches!(c.tls_verify, TlsVerify::Verify));
    let c = c.credentials("u", "p");
    let creds = c.credentials.unwrap();
    assert_eq!(creds.username, "u");
    assert_eq!(creds.password, "p");
}

#[test]
fn body_reads_back_off_the_wire() {
    let email = Email::builder()
        .from("a@b.com")
        .to("c@d.com")
        .subject("s")
        .body("first\n.dotted\r\n..two\nlast\r")
        .build()
        .unwrap();
    let wire = email.formatted_body();
    let lines: Vec<&str> = wire
        .split_terminator("\r\n")
        .map(|l| l.strip_prefix('.').unwrap_or(l))
        .collect();
    assert_eq!(lines, vec!["first", ".dotted", "..two", "last"]);
}
