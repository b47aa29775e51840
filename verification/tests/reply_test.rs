use esp_idf_smtp::response::ReplyStatus;
use esp_idf_smtp::SmtpResponse;

#[test]
fn written_reply_reads_back() {
    for (code, message) in [(250u16, "OK"), (354, ""), (550, "Grüße, nicht zugestellt"), (999, "a\rb")] {
        let resp = SmtpResponse { code, message: message.to_string() };
        let wire = format!("{}\r\n", resp.to_string());
        let back = SmtpResponse::parse(wire.as_bytes()).unwrap();
        assert_eq!(back.code, code);
        assert_eq!(back.message, message);
    }
}

#[test]
fn to_string_is_code_space_message() {
    let resp = SmtpResponse { code: 421, message: "Service not available".into() };
    assert_eq!(resp.to_string(), "421 Service not available");
}

#[test]
fn code_must_be_three_digits() {
    assert!(SmtpResponse::parse(b"+25 odd\r\n").is_none());
    assert!(SmtpResponse::parse(b"2x0 odd\r\n").is_none());
}

#[test]
fn text_cut_inside_a_character_gives_no_reply() {
    assert!(SmtpResponse::parse("250\u{e9}x\r\n".as_bytes()).is_none());
}

#[test]
fn mismatched_codes_give_no_reply() {
    assert!(SmtpResponse::parse(b"250-a\r\n251 b\r\n").is_none());
}

#[test]
fn invalid_utf8_gives_no_reply() {
    assert!(SmtpResponse::parse(&[b'2', b'5', b'0', b' ', 0xff, b'\r', b'\n']).is_none());
}

#[test]
fn short_lines_are_skipped() {
    let resp = SmtpResponse::parse(b"\r\nok\r\n250 fine\r\n").unwrap();
    assert_eq!(resp.code, 250);
    assert_eq!(resp.message, "fine");
}

#[test]
fn final_line_without_newline_counts() {
    let resp = SmtpResponse::parse(b"250 OK").unwrap();
    assert_eq!(resp.message, "OK");
}

#[test]
fn multiline_text_joins_with_newlines() {
    let resp = SmtpResponse::parse(b"250-a\r\n250-b c\r\n250 d\r\n").unwrap();
    assert_eq!(resp.message, "a\nb c\nd");
}

#[test]
fn unsliceable_lines_are_told_apart() {
    assert!(matches!(SmtpResponse::scan("22é x\r\n".as_bytes()), ReplyStatus::Unsliceable));
    assert!(matches!(SmtpResponse::scan("250é\r\n".as_bytes()), ReplyStatus::Unsliceable));
    assert!(matches!(SmtpResponse::scan(b"250-more\r\n"), ReplyStatus::Pending));
    assert!(matches!(SmtpResponse::scan(b"220 ok\r\n"), ReplyStatus::Complete(_)));
}

#[test]
fn success_and_intermediate_ranges() {
    for code in [199u16, 200, 299, 300, 399, 400] {
        let r = SmtpResponse { code, message: String::new() };
        assert_eq!(r.is_success(), (200..300).contains(&code));
        assert_eq!(r.is_intermediate(), (300..400).contains(&code));
    }
}
