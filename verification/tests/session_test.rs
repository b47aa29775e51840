use esp_idf_smtp::config::TlsVerify;
use esp_idf_smtp::mock_transport::MockTransport;
use esp_idf_smtp::protocol::{choose_auth_method, send_email, within_machine_limits, AuthMethod, EhloCapabilities, Stage, Step};
use esp_idf_smtp::{Email, SmtpClient, SmtpConfig, SmtpError, SmtpResponse, SmtpTransport, TlsMode};

fn email_with_all_kinds() -> Email {
    Email::builder()
        .from("a@b.com")
        .to("to1@x.com")
        .cc("cc1@x.com")
        .bcc("bcc1@x.com")
        .subject("Hi")
        .body("line one\n.hidden\nend")
        .build()
        .unwrap()
}

/// Records the TLS upgrade among the writes, and can refuse it.
struct OrderedTransport {
    inner: MockTransport,
    refuse_upgrade: bool,
}

impl SmtpTransport for OrderedTransport {
    type Error = std::io::Error;

    fn read(&mut self, buf: &mut [u8]) -> Result<usize, Self::Error> {
        self.inner.read(buf)
    }

    fn write_all(&mut self, data: &[u8]) -> Result<(), Self::Error> {
        self.inner.write_all(data)
    }

    fn upgrade_tls(&mut self, host: &str, tls_verify: &TlsVerify) -> Result<(), Self::Error> {
        if self.refuse_upgrade {
            return Err(std::io::Error::new(std::io::ErrorKind::Other, "handshake refused"));
        }
        self.inner.written.push("<TLS>".to_string());
        self.inner.upgrade_tls(host, tls_verify)
    }
}

#[test]
fn plain_session_writes_exact_transcript() {
    let mut t = MockTransport::new(vec![
        "220 hi\r\n",
        "250 ok\r\n",
        "250 ok\r\n",
        "250 ok\r\n",
        "250 ok\r\n",
        "250 ok\r\n",
        "354 go\r\n",
        "250 queued\r\n",
        "221 bye\r\n",
    ]);
    let config = SmtpConfig::new("mx", 25).tls_mode(TlsMode::Plain);
    let email = email_with_all_kinds();
    send_email(&mut t, &config, &email).unwrap();
    let headers = email.headers();
    let mut expected: Vec<&str> = vec![
        "EHLO localhost",
        "MAIL FROM:<a@b.com>",
        "RCPT TO:<to1@x.com>",
        "RCPT TO:<cc1@x.com>",
        "RCPT TO:<bcc1@x.com>",
        "DATA",
    ];
    expected.extend(headers.split_terminator("\r\n"));
    expected.extend(["", "line one", "..hidden", "end", ".", "QUIT"]);
    assert_eq!(t.commands(), expected);
    assert_eq!(t.written.len(), 11);
    assert_eq!(t.written[6], headers);
    assert_eq!(t.written[8], "line one\r\n..hidden\r\nend\r\n");
}

#[test]
fn auth_plain_token_is_base64_of_nul_separated_credentials() {
    let mut t = MockTransport::new(vec![
        "220 hi\r\n",
        "250-hi\r\n250 AUTH LOGIN PLAIN\r\n",
        "235 ok\r\n",
        "250 ok\r\n",
        "250 ok\r\n",
        "354 go\r\n",
        "250 ok\r\n",
        "221 bye\r\n",
    ]);
    let config = SmtpConfig::new("mx", 465).credentials("user", "pass");
    let email = Email::builder().from("a@b.com").to("c@d.com").subject("s").body("b").build().unwrap();
    send_email(&mut t, &config, &email).unwrap();
    assert_eq!(t.commands()[1], "AUTH PLAIN AHVzZXIAcGFzcw==");
}

#[test]
fn auth_login_sends_base64_user_then_password() {
    let mut t = MockTransport::new(vec![
        "220 hi\r\n",
        "250-hi\r\n250 auth login\r\n",
        "334 VXNlcm5hbWU6\r\n",
        "334 UGFzc3dvcmQ6\r\n",
        "235 ok\r\n",
        "250 ok\r\n",
        "250 ok\r\n",
        "354 go\r\n",
        "250 ok\r\n",
        "221 bye\r\n",
    ]);
    let config = SmtpConfig::new("mx", 465).credentials("user", "pass");
    let email = Email::builder().from("a@b.com").to("c@d.com").subject("s").body("b").build().unwrap();
    send_email(&mut t, &config, &email).unwrap();
    let cmds = t.commands();
    assert_eq!(cmds[1], "AUTH LOGIN");
    assert_eq!(cmds[2], "dXNlcg==");
    assert_eq!(cmds[3], "cGFzcw==");
}

#[test]
fn auth_login_rejected_user_is_auth_error() {
    let mut t = MockTransport::new(vec![
        "220 hi\r\n",
        "250-hi\r\n250 AUTH LOGIN\r\n",
        "334 VXNlcm5hbWU6\r\n",
        "535 no such user\r\n",
    ]);
    let config = SmtpConfig::new("mx", 465).credentials("user", "pass");
    let email = Email::builder().from("a@b.com").to("c@d.com").subject("s").body("b").build().unwrap();
    let r = send_email(&mut t, &config, &email);
    assert!(matches!(r, Err(SmtpError::Auth { code: 535, .. })));
}

#[test]
fn no_compatible_auth_method() {
    let mut t = MockTransport::new(vec!["220 hi\r\n", "250-hi\r\n250 AUTH CRAM-MD5 XOAUTH2\r\n"]);
    let config = SmtpConfig::new("mx", 465).credentials("user", "pass");
    let email = Email::builder().from("a@b.com").to("c@d.com").subject("s").body("b").build().unwrap();
    match send_email(&mut t, &config, &email) {
        Err(SmtpError::NoAuthMethod { available }) => assert_eq!(available, vec!["CRAM-MD5", "XOAUTH2"]),
        other => panic!("unexpected {:?}", other),
    }
}

#[test]
fn starttls_upgrade_comes_before_credentials() {
    let inner = MockTransport::new(vec![
        "220 hi\r\n",
        "250-hi\r\n250 STARTTLS\r\n",
        "220 go ahead\r\n",
        "250-hi\r\n250 AUTH PLAIN\r\n",
        "235 ok\r\n",
        "250 ok\r\n",
        "250 ok\r\n",
        "354 go\r\n",
        "250 ok\r\n",
        "221 bye\r\n",
    ]);
    let mut t = OrderedTransport { inner, refuse_upgrade: false };
    let config = SmtpConfig::new("mx", 587).tls_mode(TlsMode::StartTls).credentials("user", "pass");
    let email = Email::builder().from("a@b.com").to("c@d.com").subject("s").body("b").build().unwrap();
    send_email(&mut t, &config, &email).unwrap();
    let cmds = t.inner.commands();
    let tls = cmds.iter().position(|c| *c == "<TLS>").unwrap();
    let auth = cmds.iter().position(|c| c.starts_with("AUTH")).unwrap();
    let mail = cmds.iter().position(|c| c.starts_with("MAIL FROM")).unwrap();
    assert_eq!(&cmds[..tls], &["EHLO localhost", "STARTTLS"]);
    assert!(tls < auth && auth < mail);
}

#[test]
fn failed_tls_upgrade_is_tls_error() {
    let inner = MockTransport::new(vec!["220 hi\r\n", "250-hi\r\n250 STARTTLS\r\n", "220 go ahead\r\n"]);
    let mut t = OrderedTransport { inner, refuse_upgrade: true };
    let config = SmtpConfig::new("mx", 587).tls_mode(TlsMode::StartTls);
    let email = Email::builder().from("a@b.com").to("c@d.com").subject("s").body("b").build().unwrap();
    match send_email(&mut t, &config, &email) {
        Err(SmtpError::Tls { message }) => assert_eq!(message, "handshake refused"),
        other => panic!("unexpected {:?}", other),
    }
}

#[test]
fn ehlo_refused_is_protocol_error_expecting_250() {
    let mut t = MockTransport::new(vec!["220 hi\r\n", "502 no ehlo\r\n"]);
    let config = SmtpConfig::new("mx", 25).tls_mode(TlsMode::Plain);
    let email = Email::builder().from("a@b.com").to("c@d.com").subject("s").body("b").build().unwrap();
    match send_email(&mut t, &config, &email) {
        Err(SmtpError::Protocol { expected, got }) => {
            assert_eq!(expected, 250);
            assert_eq!(got.code, 502);
            assert_eq!(got.message, "no ehlo");
        },
        other => panic!("unexpected {:?}", other),
    }
}

#[test]
fn message_refused_after_data_is_data_rejected() {
    let mut t = MockTransport::new(vec![
        "220 hi\r\n",
        "250 hi\r\n",
        "250 ok\r\n",
        "250 ok\r\n",
        "354 go\r\n",
        "552 too big\r\n",
    ]);
    let config = SmtpConfig::new("mx", 25).tls_mode(TlsMode::Plain);
    let email = Email::builder().from("a@b.com").to("c@d.com").subject("s").body("b").build().unwrap();
    assert!(matches!(send_email(&mut t, &config, &email), Err(SmtpError::DataRejected { code: 552, .. })));
}

#[test]
fn rejected_sender_names_the_sender() {
    let mut t = MockTransport::new(vec!["220 hi\r\n", "250 hi\r\n", "553 bad sender\r\n"]);
    let config = SmtpConfig::new("mx", 25);
    let email = Email::builder().from("a@b.com").to("c@d.com").subject("s").body("b").build().unwrap();
    match send_email(&mut t, &config, &email) {
        Err(SmtpError::RejectedSender { address, code, message }) => {
            assert_eq!(address, "a@b.com");
            assert_eq!(code, 553);
            assert_eq!(message, "bad sender");
        },
        other => panic!("unexpected {:?}", other),
    }
}

#[test]
fn recipient_251_is_accepted() {
    let mut t = MockTransport::new(vec![
        "220 hi\r\n",
        "250 hi\r\n",
        "250 ok\r\n",
        "251 forwarded\r\n",
        "354 go\r\n",
        "250 ok\r\n",
        "221 bye\r\n",
    ]);
    let config = SmtpConfig::new("mx", 25);
    let email = Email::builder().from("a@b.com").to("c@d.com").subject("s").body("b").build().unwrap();
    assert!(send_email(&mut t, &config, &email).is_ok());
}

#[test]
fn read_failure_is_io_error() {
    let mut t = MockTransport::new(vec!["220 hi\r\n"]);
    t.fail_on_read = true;
    let config = SmtpConfig::new("mx", 25);
    let email = Email::builder().from("a@b.com").to("c@d.com").subject("s").body("b").build().unwrap();
    match send_email(&mut t, &config, &email) {
        Err(SmtpError::Io(e)) => assert_eq!(e.kind(), std::io::ErrorKind::Other),
        other => panic!("unexpected {:?}", other),
    }
}

#[test]
fn closed_connection_is_unexpected_eof() {
    let mut t = MockTransport::new(vec!["220 hi\r\n"]);
    let config = SmtpConfig::new("mx", 25);
    let email = Email::builder().from("a@b.com").to("c@d.com").subject("s").body("b").build().unwrap();
    match send_email(&mut t, &config, &email) {
        Err(SmtpError::Io(e)) => assert_eq!(e.kind(), std::io::ErrorKind::UnexpectedEof),
        other => panic!("unexpected {:?}", other),
    }
}

#[test]
fn reply_split_inside_a_character_is_invalid_data() {
    let mut t = MockTransport::new(vec!["22é greeting\r\n"]);
    let config = SmtpConfig::new("mx", 25);
    let email = Email::builder().from("a@b.com").to("c@d.com").subject("s").body("b").build().unwrap();
    match send_email(&mut t, &config, &email) {
        Err(SmtpError::Io(e)) => assert_eq!(e.kind(), std::io::ErrorKind::InvalidData),
        other => panic!("unexpected {:?}", other),
    }
}

#[test]
fn quit_failure_is_ignored() {
    let mut t = MockTransport::new(vec!["220 hi\r\n", "250 hi\r\n", "250 ok\r\n", "250 ok\r\n", "354 go\r\n", "250 ok\r\n"]);
    let config = SmtpConfig::new("mx", 25);
    let email = Email::builder().from("a@b.com").to("c@d.com").subject("s").body("b").build().unwrap();
    assert!(send_email(&mut t, &config, &email).is_ok());
}

#[test]
fn reply_arriving_in_small_reads_is_assembled() {
    let long = format!("220-{}\r\n220 ready\r\n", "x".repeat(1200));
    let mut t = MockTransport::new(vec![long.as_str(), "500 no\r\n"]);
    let config = SmtpConfig::new("mx", 25);
    let email = Email::builder().from("a@b.com").to("c@d.com").subject("s").body("b").build().unwrap();
    match send_email(&mut t, &config, &email) {
        Err(SmtpError::Protocol { expected: 250, got }) => assert_eq!(got.code, 500),
        other => panic!("unexpected {:?}", other),
    }
}

#[test]
fn choose_auth_prefers_plain() {
    let mut caps = EhloCapabilities::default();
    caps.auth_methods = vec!["LOGIN".to_string(), "PLAIN".to_string()];
    assert_eq!(choose_auth_method(&caps).unwrap(), AuthMethod::Plain);
    caps.auth_methods = vec!["LOGIN".to_string()];
    assert_eq!(choose_auth_method(&caps).unwrap(), AuthMethod::Login);
    caps.auth_methods = vec![];
    assert_eq!(choose_auth_method(&caps).unwrap(), AuthMethod::Plain);
    caps.auth_methods = vec!["GSSAPI".to_string()];
    assert!(matches!(choose_auth_method(&caps), Err(SmtpError::NoAuthMethod { .. })));
}

#[test]
fn capabilities_are_case_and_space_insensitive() {
    let resp = SmtpResponse { code: 250, message: "mx\n  auth plain \t login \n starttls\t\nsize +2048".into() };
    let caps = EhloCapabilities::parse(&resp);
    assert_eq!(caps.auth_methods, vec!["PLAIN", "LOGIN"]);
    assert!(caps.starttls);
    assert_eq!(caps.max_size, 2048);
}

#[test]
fn unreadable_size_counts_as_zero() {
    let resp = SmtpResponse { code: 250, message: "SIZE 12\nSIZE 99999999999999999999999999".into() };
    assert_eq!(EhloCapabilities::parse(&resp).max_size, 0);
    let resp = SmtpResponse { code: 250, message: "SIZE ten".into() };
    assert_eq!(EhloCapabilities::parse(&resp).max_size, 0);
}

#[test]
fn later_auth_line_replaces_earlier() {
    let resp = SmtpResponse { code: 250, message: "AUTH PLAIN\nAUTH LOGIN".into() };
    assert_eq!(EhloCapabilities::parse(&resp).auth_methods, vec!["LOGIN"]);
}

#[test]
fn stage_machine_decides_on_replies() {
    let config = SmtpConfig::new("mx", 25);
    let email = Email::builder().from("a@b.com").to("c@d.com").subject("s").body("b").build().unwrap();
    let greeting = SmtpResponse { code: 220, message: "hi".into() };
    let (stage, step) = Stage::Greeting.on_reply(&config, &email, &greeting);
    assert_eq!(stage, Stage::Ehlo);
    assert!(matches!(step, Step::Command(ref c) if c == "EHLO localhost"));
    let bad = SmtpResponse { code: 421, message: "busy".into() };
    let (stage, step) = Stage::Greeting.on_reply(&config, &email, &bad);
    assert_eq!(stage, Stage::Finished);
    assert!(matches!(step, Step::Finish(Err(SmtpError::Protocol { expected: 220, .. }))));
    assert!(Stage::Quit.on_failure(SmtpError::Tls { message: "x".into() }).is_ok());
    assert!(Stage::Data.on_failure(SmtpError::Tls { message: "x".into() }).is_err());
    let (stage, step) = Stage::on_upgrade(Err("bad cert".to_string()));
    assert_eq!(stage, Stage::Finished);
    assert!(matches!(step, Step::Finish(Err(SmtpError::Tls { .. }))));
}

#[test]
fn client_keeps_its_configuration() {
    let client = SmtpClient::new(SmtpConfig::new("smtp.example.com", 465));
    assert_eq!(client.config().host, "smtp.example.com");
    assert_eq!(client.config().port, 465);
}

#[test]
fn ordinary_inputs_are_within_machine_limits() {
    let config = SmtpConfig::new("mx", 587).credentials("user", "pass");
    let email = Email::builder().from("a@b.com").to("c@d.com").subject("s").body("b").build().unwrap();
    assert!(within_machine_limits(&config, &email));
}

#[test]
fn mock_transport_hands_out_scripted_bytes() {
    let mut t = MockTransport::new(vec!["abcdef", "gh"]);
    let mut buf = [0u8; 4];
    assert_eq!(t.read(&mut buf).unwrap(), 4);
    assert_eq!(&buf, b"abcd");
    assert_eq!(t.read(&mut buf).unwrap(), 2);
    assert_eq!(&buf[..2], b"ef");
    assert_eq!(t.read(&mut buf).unwrap(), 2);
    assert_eq!(&buf[..2], b"gh");
    assert_eq!(t.read(&mut buf).unwrap(), 0);
    t.write_all(b"hello").unwrap();
    t.write_all(&[0xff, 0xfe]).unwrap();
    assert_eq!(t.commands(), vec!["hello"]);
    t.write_all(b"A\r\nB\r\n\r\nC").unwrap();
    assert_eq!(t.commands(), vec!["hello", "A", "B", "", "C"]);
    t.upgrade_tls("mx", &TlsVerify::SkipVerify).unwrap();
    assert!(t.tls_upgraded);
    assert!(matches!(t.tls_verify_used, Some(TlsVerify::SkipVerify)));
}
