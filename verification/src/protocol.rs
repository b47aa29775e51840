//! The SMTP session: EHLO capabilities, the choice of authentication, the
//! decisions taken on each server reply, and the engine that runs them over
//! a transport.

use vstd::prelude::*;
use vstd::string::StringExecFns;
use vstd::utf8::encode_utf8;
use base64::Engine;
use crate::config::{SmtpConfig, TlsMode};
use crate::email::{split_lines, Email, Address};
use crate::error::{Failure, SmtpError};
use crate::response::{reply_of, unsliceable, ReplyStatus, SmtpResponse};
use crate::transport::{Event, SmtpTransport};
use crate::error::{io_error, IoKind};
use crate::text::{chars_of, parse_decimal, parse_usize, push_chars, split_words, starts_with, trim, trim_bounds, words};

verus! {

/// What `str::to_uppercase` gives for a text that is not all ASCII: each
/// character mapped to its upper-case form under Unicode's case mapping.
pub uninterp spec fn unicode_uppercase(s: Seq<char>) -> Seq<char>;

/// What `str::to_uppercase` gives: on an ASCII text each letter `a` to `z`
/// becomes its capital and every other character stays; beyond ASCII,
/// Unicode's case mapping.
pub open spec fn uppercase(s: Seq<char>) -> Seq<char> {
    if ascii_text(s) {
        s.map_values(|c: char| ascii_upper(c))
    } else {
        unicode_uppercase(s)
    }
}

/// An ASCII text.
pub open spec fn ascii_text(s: Seq<char>) -> bool {
    forall|i: int| 0 <= i < s.len() ==> (#[trigger] s[i] as u32) < 128
}

/// The upper-case form of an ASCII character: `a` to `z` become `A` to `Z`.
pub open spec fn ascii_upper(c: char) -> char {
    if 'a' <= c <= 'z' {
        ((c as u32) - 32) as char
    } else {
        c
    }
}

/// Calls `str::to_uppercase`. The contract claims that the result is
/// [`uppercase`] of the input: on ASCII text the capitals of `a` to `z`,
/// beyond it [`unicode_uppercase`], whose case tables are not stated.
#[verifier::external_body]
fn to_upper(s: &str) -> (r: String)
    ensures
        ascii_text(s@) ==> r@ == s@.map_values(|c: char| ascii_upper(c)),
        !ascii_text(s@) ==> r@ == unicode_uppercase(s@),
{
    s.to_uppercase()
}

/// EHLO capabilities parsed from server response.
#[derive(Debug)]
pub struct EhloCapabilities {
    /// Supported AUTH methods (e.g., ["PLAIN", "LOGIN"]).
    pub auth_methods: Vec<String>,
    /// Whether STARTTLS is advertised.
    pub starttls: bool,
    /// Maximum message size (0 = not advertised).
    pub max_size: usize,
}

/// What a set of capabilities says.
pub struct CapabilitiesView {
    pub auth_methods: Seq<Seq<char>>,
    pub starttls: bool,
    pub max_size: usize,
}

impl View for EhloCapabilities {
    type V = CapabilitiesView;

    open spec fn view(&self) -> CapabilitiesView {
        CapabilitiesView {
            auth_methods: self.auth_methods.deep_view(),
            starttls: self.starttls,
            max_size: self.max_size,
        }
    }
}

pub open spec fn no_capabilities() -> CapabilitiesView {
    CapabilitiesView { auth_methods: seq![], starttls: false, max_size: 0 }
}

impl Default for EhloCapabilities {
    fn default() -> (r: Self)
        ensures
            r@ == no_capabilities(),
    {
        let r = EhloCapabilities { auth_methods: Vec::new(), starttls: false, max_size: 0 };
        proof {
            assert(r@.auth_methods =~= Seq::<Seq<char>>::empty());
        }
        r
    }
}

pub open spec fn auth_prefix() -> Seq<char> {
    seq!['A', 'U', 'T', 'H', ' ']
}

pub open spec fn size_prefix() -> Seq<char> {
    seq!['S', 'I', 'Z', 'E', ' ']
}

pub open spec fn starttls_keyword() -> Seq<char> {
    seq!['S', 'T', 'A', 'R', 'T', 'T', 'L', 'S']
}

/// What one line of an EHLO reply changes: after trimming and upper-casing,
/// `AUTH m1 m2 ...` gives the methods, `STARTTLS` turns on STARTTLS, and
/// `SIZE n` gives the size limit (0 where `n` does not read as a number).
pub open spec fn apply_capability_line(c: CapabilitiesView, line: Seq<char>) -> CapabilitiesView {
    let u = uppercase(trim(line));
    if starts_with(u, auth_prefix()) {
        CapabilitiesView { auth_methods: words(u.skip(5)), ..c }
    } else if u == starttls_keyword() {
        CapabilitiesView { starttls: true, ..c }
    } else if starts_with(u, size_prefix()) {
        CapabilitiesView {
            max_size: match parse_usize(trim(u.skip(5))) {
                Some(n) => n,
                None => 0,
            },
            ..c
        }
    } else {
        c
    }
}

/// The capabilities that a list of lines announces, read in order.
pub open spec fn capabilities_of_lines(lines: Seq<Seq<char>>) -> CapabilitiesView
    decreases lines.len(),
{
    if lines.len() == 0 {
        no_capabilities()
    } else {
        apply_capability_line(capabilities_of_lines(lines.drop_last()), lines.last())
    }
}

/// The capabilities that an EHLO reply text announces, line by line.
pub open spec fn capabilities_of(message: Seq<char>) -> CapabilitiesView {
    capabilities_of_lines(split_lines(message))
}

fn has_prefix(u: &Vec<char>, prefix: &Vec<char>) -> (r: bool)
    ensures
        r == starts_with(u@, prefix@),
{
    if prefix.len() > u.len() {
        return false;
    }
    let mut i: usize = 0;
    while i < prefix.len()
        invariant
            prefix@.len() <= u@.len(),
            i <= prefix@.len(),
            forall|j: int| 0 <= j < i ==> u@[j] == prefix@[j],
        decreases prefix@.len() - i,
    {
        if u[i] != prefix[i] {
            proof {
                assert(u@.subrange(0, prefix@.len() as int)[i as int] != prefix@[i as int]);
            }
            return false;
        }
        i = i + 1;
    }
    proof {
        assert(u@.subrange(0, prefix@.len() as int) =~= prefix@);
    }
    true
}

fn auth_prefix_chars() -> (r: Vec<char>)
    ensures
        r@ == auth_prefix(),
{
    let r = vec!['A', 'U', 'T', 'H', ' '];
    proof {
        assert(r@ =~= auth_prefix());
    }
    r
}

fn size_prefix_chars() -> (r: Vec<char>)
    ensures
        r@ == size_prefix(),
{
    let r = vec!['S', 'I', 'Z', 'E', ' '];
    proof {
        assert(r@ =~= size_prefix());
    }
    r
}

fn starttls_chars() -> (r: Vec<char>)
    ensures
        r@ == starttls_keyword(),
{
    let r = vec!['S', 'T', 'A', 'R', 'T', 'T', 'L', 'S'];
    proof {
        assert(r@ =~= starttls_keyword());
    }
    r
}

impl EhloCapabilities {
    /// Take one line of an EHLO reply into account.
    fn apply_line(&mut self, chars: &Vec<char>, start: usize, end: usize)
        requires
            start <= end <= chars@.len(),
        ensures
            final(self)@ == apply_capability_line(old(self)@, chars@.subrange(start as int, end as int)),
    {
        let (a, b) = trim_bounds(chars, start, end);
        let mut trimmed = String::new();
        push_chars(&mut trimmed, chars, a, b);
        let upper = to_upper(trimmed.as_str());
        let u = chars_of(upper.as_str());
        let ghost line = chars@.subrange(start as int, end as int);
        proof {
            assert(trimmed@ =~= trim(line));
        }
        if has_prefix(&u, &auth_prefix_chars()) {
            self.auth_methods = split_words(&u, 5, u.len());
            proof {
                assert(u@.subrange(5, u@.len() as int) =~= u@.skip(5));
            }
        } else if has_prefix(&u, &starttls_chars()) && u.len() == 8 {
            self.starttls = true;
            proof {
                assert(u@ =~= u@.subrange(0, 8));
            }
        } else if has_prefix(&u, &size_prefix_chars()) {
            let (c, d) = trim_bounds(&u, 5, u.len());
            proof {
                assert(u@.subrange(5, u@.len() as int) =~= u@.skip(5));
            }
            self.max_size = match parse_decimal(&u, c, d) {
                Some(n) => n,
                None => 0,
            };
        } else {
            proof {
                if u@ == starttls_keyword() {
                    assert(u@.subrange(0, 8) =~= u@);
                }
            }
        }
    }

    /// Parse capabilities from a multiline EHLO response.
    pub fn parse(response: &crate::response::SmtpResponse) -> (r: Self)
        ensures
            r@ == capabilities_of(response.message@),
    {
        let chars = chars_of(response.message.as_str());
        let mut caps = EhloCapabilities::default();
        let mut start: usize = 0;
        let ghost mut done: Seq<Seq<char>> = seq![];
        proof {
            assert(chars@.take(0) =~= Seq::<char>::empty());
            assert(chars@.subrange(0, 0) =~= Seq::<char>::empty());
            assert(done.push(chars@.subrange(0, 0)) =~= seq![Seq::<char>::empty()]);
        }
        for i in 0..chars.len()
            invariant
                chars@ == response.message@,
                start <= i,
                split_lines(chars@.take(i as int)) == done.push(chars@.subrange(start as int, i as int)),
                caps@ == capabilities_of_lines(done),
        {
            proof {
                assert(chars@.take(i + 1).drop_last() =~= chars@.take(i as int));
            }
            if chars[i] == '\n' {
                caps.apply_line(&chars, start, i);
                proof {
                    let d2 = done.push(chars@.subrange(start as int, i as int));
                    assert(d2.drop_last() =~= done);
                    done = d2;
                    assert(chars@.subrange(i + 1, i + 1) =~= Seq::<char>::empty());
                    assert(split_lines(chars@.take(i + 1)) =~= done.push(chars@.subrange(i + 1, i + 1)));
                }
                start = i + 1;
            } else {
                proof {
                    assert(chars@.subrange(start as int, i + 1) =~= chars@.subrange(start as int, i as int).push(chars@[i as int]));
                    assert(split_lines(chars@.take(i + 1)) =~= done.push(chars@.subrange(start as int, i + 1)));
                }
            }
        }
        caps.apply_line(&chars, start, chars.len());
        proof {
            assert(chars@.take(chars@.len() as int) =~= chars@);
            assert(done.push(chars@.subrange(start as int, chars@.len() as int)).drop_last() =~= done);
        }
        caps
    }
}

/// An authentication mechanism the engine can use.
#[derive(Debug, Clone, Copy, PartialEq, Eq, Structural)]
pub enum AuthMethod {
    /// AUTH PLAIN: one command with the encoded credentials.
    Plain,
    /// AUTH LOGIN: user name and password in two further exchanges.
    Login,
}

pub open spec fn plain_keyword() -> Seq<char> {
    seq!['P', 'L', 'A', 'I', 'N']
}

pub open spec fn login_keyword() -> Seq<char> {
    seq!['L', 'O', 'G', 'I', 'N']
}

/// The mechanism chosen from the methods a server announces: PLAIN where
/// announced, else LOGIN where announced, else PLAIN where nothing is
/// announced; none otherwise.
pub open spec fn auth_choice(methods: Seq<Seq<char>>) -> Option<AuthMethod> {
    if methods.contains(plain_keyword()) {
        Some(AuthMethod::Plain)
    } else if methods.contains(login_keyword()) {
        Some(AuthMethod::Login)
    } else if methods.len() == 0 {
        Some(AuthMethod::Plain)
    } else {
        None
    }
}

fn contains_method(methods: &Vec<String>, name: &Vec<char>) -> (r: bool)
    ensures
        r == methods.deep_view().contains(name@),
{
    let ghost m = methods.deep_view();
    for i in 0..methods.len()
        invariant
            m == methods.deep_view(),
            forall|j: int| 0 <= j < i ==> m[j] != name@,
    {
        let item = chars_of(methods[i].as_str());
        if item.len() == name.len() && has_prefix(&item, name) {
            proof {
                assert(item@.subrange(0, name@.len() as int) =~= item@);
                assert(m[i as int] == name@);
            }
            return true;
        }
        proof {
            if m[i as int] == name@ {
                assert(item@.subrange(0, name@.len() as int) =~= item@);
            }
        }
    }
    false
}

fn copy_strings(v: &Vec<String>) -> (r: Vec<String>)
    ensures
        r.deep_view() == v.deep_view(),
{
    let mut r: Vec<String> = Vec::new();
    for i in 0..v.len()
        invariant
            r.deep_view() == v.deep_view().take(i as int),
    {
        let ghost before = r.deep_view();
        r.push(v[i].clone());
        proof {
            assert(r.deep_view() =~= before.push(v.deep_view()[i as int]));
            assert(v.deep_view().take(i + 1) =~= v.deep_view().take(i as int).push(v.deep_view()[i as int]));
        }
    }
    proof {
        assert(v.deep_view().take(v.len() as int) =~= v.deep_view());
    }
    r
}

/// Choose how to authenticate from the server's capabilities.
///
/// Fails with [`SmtpError::NoAuthMethod`], listing what the server offers,
/// where it offers methods but neither PLAIN nor LOGIN.
pub fn choose_auth_method(caps: &EhloCapabilities) -> (r: Result<AuthMethod, SmtpError>)
    ensures
        match auth_choice(caps@.auth_methods) {
            Some(m) => r == Ok::<AuthMethod, SmtpError>(m),
            None => r matches Err(e) && e@ == (Failure::NoAuthMethod { available: caps@.auth_methods }),
        },
{
    let plain = vec!['P', 'L', 'A', 'I', 'N'];
    let login = vec!['L', 'O', 'G', 'I', 'N'];
    proof {
        assert(plain@ =~= plain_keyword());
        assert(login@ =~= login_keyword());
    }
    if contains_method(&caps.auth_methods, &plain) {
        Ok(AuthMethod::Plain)
    } else if contains_method(&caps.auth_methods, &login) {
        Ok(AuthMethod::Login)
    } else if caps.auth_methods.len() == 0 {
        Ok(AuthMethod::Plain)
    } else {
        Err(SmtpError::NoAuthMethod { available: copy_strings(&caps.auth_methods) })
    }
}

/// The character of a six-bit value in the standard base64 alphabet
/// (RFC 4648, table 1).
pub open spec fn base64_char(v: int) -> char {
    if v < 26 {
        (65 + v) as char
    } else if v < 52 {
        (97 + v - 26) as char
    } else if v < 62 {
        (48 + v - 52) as char
    } else if v == 62 {
        '+'
    } else {
        '/'
    }
}

/// The four characters for a 24-bit group; the last `pad` of them are `=`.
pub open spec fn base64_group(n: int, pad: int) -> Seq<char> {
    seq![
        base64_char(n / 262144 % 64),
        base64_char(n / 4096 % 64),
        if pad >= 2 { '=' } else { base64_char(n / 64 % 64) },
        if pad >= 1 { '=' } else { base64_char(n % 64) },
    ]
}

/// The standard base64 encoding with `=` padding (RFC 4648, section 4),
/// which `base64::engine::general_purpose::STANDARD` produces: each three
/// bytes become four characters, and a last one or two bytes are padded.
pub open spec fn base64_standard(bytes: Seq<u8>) -> Seq<char>
    decreases bytes.len(),
{
    if bytes.len() == 0 {
        seq![]
    } else if bytes.len() == 1 {
        base64_group(bytes[0] * 65536, 2)
    } else if bytes.len() == 2 {
        base64_group(bytes[0] * 65536 + bytes[1] * 256, 1)
    } else {
        base64_group(bytes[0] * 65536 + bytes[1] * 256 + bytes[2], 0) + base64_standard(bytes.skip(3))
    }
}

/// Inputs whose encoding fits in memory: `Engine::encode` allocates
/// `4 * ceil(len / 3)` bytes and panics where that does not fit.
pub open spec fn encodable(len: nat) -> bool {
    (len + 2) / 3 * 4 <= isize::MAX
}

/// Calls `base64::Engine::encode` on the `STANDARD` engine. The contract
/// claims that the result is [`base64_standard`] of the bytes, and asks that
/// the encoded length fit in memory (the crate panics otherwise).
#[verifier::external_body]
fn encode_base64(bytes: &[u8]) -> (r: String)
    requires
        encodable(bytes@.len()),
    ensures
        r@ == base64_standard(bytes@),
{
    base64::engine::general_purpose::STANDARD.encode(bytes)
}

/// The AUTH PLAIN token: an empty authorization identity, then the user
/// name and the password, each after a NUL byte (RFC 4616).
pub open spec fn plain_token(username: Seq<char>, password: Seq<char>) -> Seq<u8> {
    seq![0u8] + encode_utf8(username) + seq![0u8] + encode_utf8(password)
}

/// Credentials whose AUTH PLAIN token can be encoded.
pub open spec fn credentials_fit(config: SmtpConfig) -> bool {
    match config.credentials {
        Some(c) => encodable(plain_token(c.username@, c.password@).len()),
        None => true,
    }
}

fn push_bytes(v: &mut Vec<u8>, bytes: &[u8])
    ensures
        final(v)@ == old(v)@ + bytes@,
{
    for i in 0..bytes.len()
        invariant
            v@ == old(v)@ + bytes@.take(i as int),
    {
        v.push(bytes[i]);
        proof {
            assert(bytes@.take(i + 1) =~= bytes@.take(i as int).push(bytes@[i as int]));
        }
    }
    proof {
        assert(bytes@.take(bytes@.len() as int) =~= bytes@);
    }
}

/// The bytes of a string in UTF-8.
fn utf8_bytes(s: &String) -> (r: Vec<u8>)
    ensures
        r@ == encode_utf8(s@),
{
    let mut v: Vec<u8> = Vec::new();
    push_bytes(&mut v, s.as_str().as_bytes());
    proof {
        assert(v@ =~= encode_utf8(s@));
    }
    v
}


/// Where an SMTP session stands: which reply it waits for.
#[derive(Debug, Clone, Copy, PartialEq, Eq, Structural)]
pub enum Stage {
    /// Waiting for the server greeting.
    Greeting,
    /// Sent EHLO.
    Ehlo,
    /// Sent STARTTLS.
    StartTls,
    /// Waiting for the connection to be upgraded to TLS.
    TlsUpgrade,
    /// Sent EHLO again over TLS.
    EhloAfterTls,
    /// Sent AUTH PLAIN with the token.
    AuthPlain,
    /// Sent AUTH LOGIN.
    AuthLogin,
    /// Sent the user name for AUTH LOGIN.
    AuthLoginUser,
    /// Sent the password for AUTH LOGIN.
    AuthLoginPassword,
    /// Sent MAIL FROM.
    MailFrom,
    /// Sent RCPT TO for the recipient at this index (To, then Cc, then Bcc).
    Recipient(usize),
    /// Sent DATA.
    Data,
    /// Sent the message and its end-of-data line.
    Message,
    /// Sent QUIT.
    Quit,
    /// The session is over.
    Finished,
}

/// What the engine does next, as plain values.
pub enum Action {
    /// Send this command line (the engine adds CRLF).
    Send(Seq<char>),
    /// Send the message: headers, a blank line, the body, and `.` CRLF.
    SendMessage,
    /// Upgrade the connection to TLS.
    UpgradeTls,
    /// End the session with this outcome.
    Finish(Result<(), Failure>),
}

/// What the engine does next.
#[derive(Debug)]
pub enum Step {
    /// Send this command line (the engine adds CRLF).
    Command(String),
    /// Send the message: headers, a blank line, the body, and `.` CRLF.
    Message,
    /// Upgrade the connection to TLS.
    UpgradeTls,
    /// End the session with this outcome.
    Finish(Result<(), SmtpError>),
}

impl View for Step {
    type V = Action;

    open spec fn view(&self) -> Action {
        match self {
            Step::Command(c) => Action::Send(c@),
            Step::Message => Action::SendMessage,
            Step::UpgradeTls => Action::UpgradeTls,
            Step::Finish(Ok(())) => Action::Finish(Ok(())),
            Step::Finish(Err(e)) => Action::Finish(Err(e@)),
        }
    }
}

/// End the session with a failure.
pub open spec fn fail(f: Failure) -> (Stage, Action) {
    (Stage::Finished, Action::Finish(Err(f)))
}

pub open spec fn ehlo_command() -> Seq<char> {
    "EHLO localhost"@
}

/// The MAIL FROM command for the sender.
pub open spec fn mail_from(email: Email) -> (Stage, Action) {
    (Stage::MailFrom, Action::Send("MAIL FROM:<"@ + email.from.email@ + ">"@))
}

/// The RCPT TO command for the recipient at index `i`, or DATA once every
/// recipient has been named.
pub open spec fn recipient_or_data(email: Email, i: int) -> (Stage, Action) {
    if i < email.recipients().len() {
        (Stage::Recipient(i as usize), Action::Send("RCPT TO:<"@ + email.recipients()[i].email@ + ">"@))
    } else {
        (Stage::Data, Action::Send("DATA"@))
    }
}

/// After a successful EHLO: authenticate where credentials are configured,
/// else go on to MAIL FROM.
pub open spec fn after_hello(config: SmtpConfig, email: Email, caps: CapabilitiesView) -> (Stage, Action) {
    match config.credentials {
        None => mail_from(email),
        Some(c) => match auth_choice(caps.auth_methods) {
            Some(AuthMethod::Plain) => (
                Stage::AuthPlain,
                Action::Send("AUTH PLAIN "@ + base64_standard(plain_token(c.username@, c.password@))),
            ),
            Some(AuthMethod::Login) => (Stage::AuthLogin, Action::Send("AUTH LOGIN"@)),
            None => fail(Failure::NoAuthMethod { available: caps.auth_methods }),
        },
    }
}

pub open spec fn protocol_failure(expected: u16, code: u16, text: Seq<char>) -> Failure {
    Failure::Protocol { expected, code, message: text }
}

pub open spec fn success_code(code: u16) -> bool {
    200 <= code < 300
}

/// The decision taken on a server reply with this code and text.
pub open spec fn after_reply(stage: Stage, config: SmtpConfig, email: Email, code: u16, text: Seq<char>) -> (Stage, Action) {
    match stage {
        Stage::Greeting => if code != 220 {
            fail(protocol_failure(220, code, text))
        } else {
            (Stage::Ehlo, Action::Send(ehlo_command()))
        },
        Stage::Ehlo => if code != 250 {
            fail(protocol_failure(250, code, text))
        } else if config.tls_mode == TlsMode::StartTls {
            if !capabilities_of(text).starttls {
                fail(Failure::Tls { message: "server does not advertise STARTTLS"@ })
            } else {
                (Stage::StartTls, Action::Send("STARTTLS"@))
            }
        } else {
            after_hello(config, email, capabilities_of(text))
        },
        Stage::StartTls => if code != 220 {
            fail(protocol_failure(220, code, text))
        } else {
            (Stage::TlsUpgrade, Action::UpgradeTls)
        },
        Stage::EhloAfterTls => if code != 250 {
            fail(protocol_failure(250, code, text))
        } else {
            after_hello(config, email, capabilities_of(text))
        },
        Stage::AuthPlain | Stage::AuthLoginPassword => if code != 235 {
            fail(Failure::Auth { code, message: text })
        } else {
            mail_from(email)
        },
        Stage::AuthLogin => if code != 334 {
            fail(Failure::Auth { code, message: text })
        } else {
            (Stage::AuthLoginUser, Action::Send(base64_standard(encode_utf8(config.credentials->0.username@))))
        },
        Stage::AuthLoginUser => if code != 334 {
            fail(Failure::Auth { code, message: text })
        } else {
            (Stage::AuthLoginPassword, Action::Send(base64_standard(encode_utf8(config.credentials->0.password@))))
        },
        Stage::MailFrom => if !success_code(code) {
            fail(Failure::RejectedSender { address: email.from.email@, code, message: text })
        } else {
            recipient_or_data(email, 0)
        },
        Stage::Recipient(i) => if code != 250 && code != 251 {
            fail(Failure::RejectedRecipient { address: email.recipients()[i as int].email@, code, message: text })
        } else {
            recipient_or_data(email, i + 1)
        },
        Stage::Data => if code != 354 {
            fail(Failure::DataRejected { code, message: text })
        } else {
            (Stage::Message, Action::SendMessage)
        },
        Stage::Message => if !success_code(code) {
            fail(Failure::DataRejected { code, message: text })
        } else {
            (Stage::Quit, Action::Send("QUIT"@))
        },
        Stage::Quit => (Stage::Finished, Action::Finish(Ok(()))),
        Stage::TlsUpgrade | Stage::Finished => (stage, Action::Finish(Ok(()))),
    }
}

/// The decision taken once the TLS upgrade is done, or has failed with
/// this text.
pub open spec fn after_upgrade(outcome: Result<(), Seq<char>>) -> (Stage, Action) {
    match outcome {
        Ok(()) => (Stage::EhloAfterTls, Action::Send(ehlo_command())),
        Err(m) => fail(Failure::Tls { message: m }),
    }
}

/// The stages that wait for a server reply, with what they refer to in place.
pub open spec fn awaits_reply(stage: Stage, config: SmtpConfig, email: Email) -> bool {
    match stage {
        Stage::TlsUpgrade | Stage::Finished => false,
        Stage::AuthLogin | Stage::AuthLoginUser => config.credentials is Some,
        Stage::Recipient(i) => i < email.recipients().len(),
        _ => true,
    }
}

/// Whether the inputs are within the limits that machine integers and
/// memory set, as [`send_email`] asks.
pub fn within_machine_limits(config: &SmtpConfig, email: &Email) -> (r: bool)
    ensures
        r == fits_machine(*config, *email),
{
    let credentials_ok = match &config.credentials {
        None => true,
        Some(c) => {
            let u = c.username.as_str().as_bytes().len() as u128;
            let p = c.password.as_str().as_bytes().len() as u128;
            let token = 2 + u + p;
            (token + 2) / 3 * 4 <= isize::MAX as u128
        },
    };
    let recipients = email.to.len() as u128 + email.cc.len() as u128 + email.bcc.len() as u128;
    credentials_ok && recipients <= usize::MAX as u128
}

/// The limits on the inputs that machine integers and memory set.
pub open spec fn fits_machine(config: SmtpConfig, email: Email) -> bool {
    &&& credentials_fit(config)
    &&& email.recipients().len() <= usize::MAX
}

fn literal(s: &str) -> (r: String)
    ensures
        r@ == s@,
{
    s.to_owned()
}

fn recipient_at(email: &Email, i: usize) -> (r: &Address)
    requires
        i < email.recipients().len(),
    ensures
        *r == email.recipients()[i as int],
{
    if i < email.to.len() {
        &email.to[i]
    } else if i - email.to.len() < email.cc.len() {
        &email.cc[i - email.to.len()]
    } else {
        &email.bcc[i - email.to.len() - email.cc.len()]
    }
}

fn envelope_command(prefix: &str, address: &Address) -> (r: String)
    ensures
        r@ == prefix@ + address.email@ + ">"@,
{
    let mut s = literal(prefix);
    s.append(address.to_envelope());
    s.append(">");
    s
}

fn mail_from_step(email: &Email) -> (r: (Stage, Step))
    ensures
        (r.0, r.1@) == mail_from(*email),
{
    (Stage::MailFrom, Step::Command(envelope_command("MAIL FROM:<", &email.from)))
}

fn recipient_or_data_step(email: &Email, i: usize) -> (r: (Stage, Step))
    requires
        email.recipients().len() <= usize::MAX,
    ensures
        (r.0, r.1@) == recipient_or_data(*email, i as int),
{
    let n = email.to.len();
    let in_range = if i < n {
        true
    } else if i - n < email.cc.len() {
        true
    } else {
        i - n - email.cc.len() < email.bcc.len()
    };
    if in_range {
        (Stage::Recipient(i), Step::Command(envelope_command("RCPT TO:<", recipient_at(email, i))))
    } else {
        (Stage::Data, Step::Command(literal("DATA")))
    }
}

fn after_hello_step(config: &SmtpConfig, email: &Email, caps: &EhloCapabilities) -> (r: (Stage, Step))
    requires
        credentials_fit(*config),
    ensures
        (r.0, r.1@) == after_hello(*config, *email, caps@),
{
    match &config.credentials {
        None => mail_from_step(email),
        Some(c) => match choose_auth_method(caps) {
            Ok(AuthMethod::Plain) => {
                let mut token: Vec<u8> = Vec::new();
                token.push(0u8);
                push_bytes(&mut token, c.username.as_str().as_bytes());
                token.push(0u8);
                push_bytes(&mut token, c.password.as_str().as_bytes());
                proof {
                    assert(token@ =~= plain_token(c.username@, c.password@));
                }
                let mut command = literal("AUTH PLAIN ");
                let encoded = encode_base64(token.as_slice());
                command.append(encoded.as_str());
                (Stage::AuthPlain, Step::Command(command))
            },
            Ok(AuthMethod::Login) => (Stage::AuthLogin, Step::Command(literal("AUTH LOGIN"))),
            Err(e) => (Stage::Finished, Step::Finish(Err(e))),
        },
    }
}

proof fn lemma_encodable_part(a: Seq<u8>, b: Seq<u8>)
    requires
        encodable((seq![0u8] + a + seq![0u8] + b).len()),
    ensures
        encodable(a.len()),
        encodable(b.len()),
{
    let n = (seq![0u8] + a + seq![0u8] + b).len();
    assert(n == a.len() + b.len() + 2);
    assert((a.len() + 2) / 3 <= (n + 2) / 3);
    assert((b.len() + 2) / 3 <= (n + 2) / 3);
}

impl Stage {
    /// The decision taken on a server reply: the next stage and what to do.
    pub fn on_reply(self, config: &SmtpConfig, email: &Email, reply: &SmtpResponse) -> (r: (Stage, Step))
        requires
            awaits_reply(self, *config, *email),
            fits_machine(*config, *email),
        ensures
            (r.0, r.1@) == after_reply(self, *config, *email, reply.code, reply.message@),
    {
        let code = reply.code;
        match self {
            Stage::Greeting => {
                if code != 220 {
                    (Stage::Finished, Step::Finish(Err(SmtpError::Protocol { expected: 220, got: SmtpResponse { code, message: reply.message.clone() } })))
                } else {
                    (Stage::Ehlo, Step::Command(literal("EHLO localhost")))
                }
            },
            Stage::Ehlo => {
                if code != 250 {
                    return (Stage::Finished, Step::Finish(Err(SmtpError::Protocol { expected: 250, got: SmtpResponse { code, message: reply.message.clone() } })));
                }
                let caps = EhloCapabilities::parse(reply);
                if config.tls_mode == TlsMode::StartTls {
                    if !caps.starttls {
                        (Stage::Finished, Step::Finish(Err(SmtpError::Tls { message: literal("server does not advertise STARTTLS") })))
                    } else {
                        (Stage::StartTls, Step::Command(literal("STARTTLS")))
                    }
                } else {
                    after_hello_step(config, email, &caps)
                }
            },
            Stage::StartTls => {
                if code != 220 {
                    (Stage::Finished, Step::Finish(Err(SmtpError::Protocol { expected: 220, got: SmtpResponse { code, message: reply.message.clone() } })))
                } else {
                    (Stage::TlsUpgrade, Step::UpgradeTls)
                }
            },
            Stage::EhloAfterTls => {
                if code != 250 {
                    return (Stage::Finished, Step::Finish(Err(SmtpError::Protocol { expected: 250, got: SmtpResponse { code, message: reply.message.clone() } })));
                }
                let caps = EhloCapabilities::parse(reply);
                after_hello_step(config, email, &caps)
            },
            Stage::AuthPlain | Stage::AuthLoginPassword => {
                if code != 235 {
                    (Stage::Finished, Step::Finish(Err(SmtpError::Auth { code, message: reply.message.clone() })))
                } else {
                    mail_from_step(email)
                }
            },
            Stage::AuthLogin | Stage::AuthLoginUser => {
                if code != 334 {
                    return (Stage::Finished, Step::Finish(Err(SmtpError::Auth { code, message: reply.message.clone() })));
                }
                let c = config.credentials.as_ref().unwrap();
                let user = utf8_bytes(&c.username);
                let pass = utf8_bytes(&c.password);
                proof {
                    lemma_encodable_part(user@, pass@);
                }
                if self == Stage::AuthLogin {
                    (Stage::AuthLoginUser, Step::Command(encode_base64(user.as_slice())))
                } else {
                    (Stage::AuthLoginPassword, Step::Command(encode_base64(pass.as_slice())))
                }
            },
            Stage::MailFrom => {
                if !reply.is_success() {
                    (Stage::Finished, Step::Finish(Err(SmtpError::RejectedSender {
                        address: email.from.email.clone(),
                        code,
                        message: reply.message.clone(),
                    })))
                } else {
                    recipient_or_data_step(email, 0)
                }
            },
            Stage::Recipient(i) => {
                if code != 250 && code != 251 {
                    (Stage::Finished, Step::Finish(Err(SmtpError::RejectedRecipient {
                        address: recipient_at(email, i).email.clone(),
                        code,
                        message: reply.message.clone(),
                    })))
                } else {
                    recipient_or_data_step(email, i + 1)
                }
            },
            Stage::Data => {
                if code != 354 {
                    (Stage::Finished, Step::Finish(Err(SmtpError::DataRejected { code, message: reply.message.clone() })))
                } else {
                    (Stage::Message, Step::Message)
                }
            },
            Stage::Message => {
                if !reply.is_success() {
                    (Stage::Finished, Step::Finish(Err(SmtpError::DataRejected { code, message: reply.message.clone() })))
                } else {
                    (Stage::Quit, Step::Command(literal("QUIT")))
                }
            },
            Stage::Quit => (Stage::Finished, Step::Finish(Ok(()))),
            Stage::TlsUpgrade | Stage::Finished => (self, Step::Finish(Ok(()))),
        }
    }

    /// The decision taken once the TLS upgrade is done, or has failed with
    /// the given error text.
    pub fn on_upgrade(outcome: Result<(), String>) -> (r: (Stage, Step))
        ensures
            (r.0, r.1@) == after_upgrade(match outcome {
                Ok(()) => Ok(()),
                Err(m) => Err(m@),
            }),
    {
        match outcome {
            Ok(()) => (Stage::EhloAfterTls, Step::Command(literal("EHLO localhost"))),
            Err(m) => (Stage::Finished, Step::Finish(Err(SmtpError::Tls { message: m }))),
        }
    }

    /// The outcome of a session whose connection failed at this stage: a
    /// failure while sending or awaiting QUIT is ignored, any other ends the
    /// session with that error.
    pub fn on_failure(self, err: SmtpError) -> (r: Result<(), SmtpError>)
        ensures
            self == Stage::Quit ==> r is Ok,
            self != Stage::Quit ==> r == Err::<(), SmtpError>(err),
    {
        if self == Stage::Quit {
            Ok(())
        } else {
            Err(err)
        }
    }
}

/// How far a stage is along the session; every decision moves forward.
pub open spec fn rank(stage: Stage) -> int {
    match stage {
        Stage::Greeting => 0,
        Stage::Ehlo => 1,
        Stage::StartTls => 2,
        Stage::TlsUpgrade => 3,
        Stage::EhloAfterTls => 4,
        Stage::AuthPlain | Stage::AuthLogin => 5,
        Stage::AuthLoginUser => 6,
        Stage::AuthLoginPassword => 7,
        Stage::MailFrom => 8,
        Stage::Recipient(i) => 9 + i,
        Stage::Data => 9 + usize::MAX,
        Stage::Message => 10 + usize::MAX,
        Stage::Quit => 11 + usize::MAX,
        Stage::Finished => 12 + usize::MAX,
    }
}

/// What a stage implies about the configuration it runs under.
pub open spec fn consistent(stage: Stage, config: SmtpConfig) -> bool {
    &&& (stage == Stage::StartTls || stage == Stage::TlsUpgrade || stage == Stage::EhloAfterTls)
        ==> config.tls_mode == TlsMode::StartTls
    &&& (stage == Stage::AuthPlain || stage == Stage::AuthLogin || stage == Stage::AuthLoginUser
        || stage == Stage::AuthLoginPassword) ==> config.credentials is Some
}

/// The failures that a session can end with, whatever the server and the
/// connection do.
pub open spec fn possible_failure(config: SmtpConfig, email: Email, f: Failure) -> bool {
    match f {
        Failure::Protocol { expected, .. } => expected == 220 || expected == 250,
        Failure::Tls { .. } => config.tls_mode == TlsMode::StartTls,
        Failure::Auth { .. } => config.credentials is Some,
        Failure::NoAuthMethod { available } => config.credentials is Some && auth_choice(available) is None,
        Failure::RejectedSender { address, code, .. } => address == email.from.email@ && !success_code(code),
        Failure::RejectedRecipient { address, code, .. } => {
            &&& code != 250 && code != 251
            &&& exists|i: int| 0 <= i < email.recipients().len() && address == #[trigger] email.recipients()[i].email@
        },
        Failure::DataRejected { .. } => true,
        Failure::Io => true,
        Failure::Connection { .. } | Failure::Timeout { .. } | Failure::InvalidEmail { .. } => false,
    }
}

/// Each decision on a reply moves the session forward, keeps the stage
/// consistent with the configuration, and ends only with a possible failure.
pub proof fn law_each_reply_advances(stage: Stage, config: SmtpConfig, email: Email, code: u16, text: Seq<char>)
    requires
        awaits_reply(stage, config, email),
        consistent(stage, config),
        email.recipients().len() <= usize::MAX,
    ensures
        ({
            let (next, action) = after_reply(stage, config, email, code, text);
            &&& rank(next) > rank(stage)
            &&& consistent(next, config)
            &&& (next == Stage::Finished) == (action is Finish)
            &&& next != Stage::Finished ==> (next == Stage::TlsUpgrade) == (action is UpgradeTls)
            &&& next != Stage::Finished && next != Stage::TlsUpgrade ==> awaits_reply(next, config, email)
            &&& action matches Action::Finish(Err(f)) ==> possible_failure(config, email, f)
        }),
{
    let (next, action) = after_reply(stage, config, email, code, text);
    match stage {
        Stage::Recipient(i) => {
            if code != 250 && code != 251 {
                assert(email.recipients()[i as int].email@ == email.recipients()[i as int].email@);
            }
        },
        _ => {},
    }
}

/// The text of a command line as it goes on the wire: the command and CRLF.
pub open spec fn command_line(command: Seq<char>) -> Seq<char> {
    command + "\r\n"@
}

/// The message after DATA, as its four writes, each as UTF-8: the headers,
/// a blank line, the dot-stuffed body, and the end-of-data line.
pub open spec fn message_parts(email: Email) -> Seq<Seq<u8>> {
    seq![encode_utf8(email.header_text()), encode_utf8("\r\n"@), encode_utf8(email.body_text()), encode_utf8(".\r\n"@)]
}

/// The writes an action makes, in order.
pub open spec fn action_writes(action: Action, email: Email) -> Seq<Seq<u8>> {
    match action {
        Action::Send(c) => seq![encode_utf8(command_line(c))],
        Action::SendMessage => message_parts(email),
        Action::UpgradeTls | Action::Finish(_) => seq![],
    }
}

/// The size of the buffer that replies are read into.
pub const REPLY_BUFFER: usize = 512;

/// How reading one reply ends.
pub enum ReadEnd {
    /// With this reply: its code and text.
    Reply(u16, Seq<char>),
    /// With an I/O failure.
    Failed,
}

/// What reading one reply makes of what happened on the connection, with
/// `acc` read so far: how the read ends and what happened after it, or
/// `None` where what happened is not such a read. Each read is into a
/// buffer of [`REPLY_BUFFER`] bytes. Reading goes on while
/// the bytes read hold no complete reply; it fails on a failed read, on a
/// closed connection, and on a line whose text would start inside a
/// multi-byte character.
pub open spec fn read_run(events: Seq<Event>, acc: Seq<u8>) -> Option<(ReadEnd, Seq<Event>)>
    decreases events.len(),
{
    if events.len() == 0 {
        None
    } else {
        let rest = events.drop_first();
        match events[0] {
            Event::Read(b, cap) => if cap != REPLY_BUFFER {
                None
            } else if b.len() == 0 {
                Some((ReadEnd::Failed, rest))
            } else {
                let data = acc + b;
                match reply_of(data) {
                    Some((code, text)) => Some((ReadEnd::Reply(code, text), rest)),
                    None => if unsliceable(data) {
                        Some((ReadEnd::Failed, rest))
                    } else {
                        read_run(rest, data)
                    },
                }
            },
            Event::ReadFailed => Some((ReadEnd::Failed, rest)),
            _ => None,
        }
    }
}

/// How a run of writes ends.
pub enum WriteEnd {
    /// Every part written; what happened after.
    Written(Seq<Event>),
    /// A write failed; what happened after it.
    Failed(Seq<Event>),
    /// What happened is not such a run.
    Off,
}

/// What writing `parts` one after the other makes of what happened on the
/// connection; writing stops at the first failed write.
pub open spec fn write_run(events: Seq<Event>, parts: Seq<Seq<u8>>) -> WriteEnd
    decreases parts.len(),
{
    if parts.len() == 0 {
        WriteEnd::Written(events)
    } else if events.len() > 0 && events[0] == Event::Write(parts[0], true) {
        write_run(events.drop_first(), parts.drop_first())
    } else if events.len() > 0 && events[0] == Event::Write(parts[0], false) {
        WriteEnd::Failed(events.drop_first())
    } else {
        WriteEnd::Off
    }
}

/// How a session ends.
pub enum SessionEnd {
    /// With this outcome.
    Done(Result<(), Failure>),
    /// With the TLS upgrade failed: an error of kind `Tls` whose message is
    /// the transport's.
    TlsFailed,
}

/// The outcome when the connection fails at this stage: a failure while
/// sending or awaiting QUIT is ignored.
pub open spec fn failure_outcome(stage: Stage, f: Failure) -> Result<(), Failure> {
    if stage == Stage::Quit {
        Ok(())
    } else {
        Err(f)
    }
}

/// Reading a reply uses up at least one thing that happened.
pub proof fn lemma_read_run_shorter(events: Seq<Event>, acc: Seq<u8>)
    ensures
        read_run(events, acc) matches Some((_, rest)) ==> rest.len() < events.len(),
    decreases events.len(),
{
    if events.len() > 0 {
        lemma_read_run_shorter(events.drop_first(), acc + (match events[0] { Event::Read(b, _) => b, _ => seq![] }));
    }
}

/// What the session goes on to after the writes of a step: the session
/// from `next` on what happened after them, or its end on a failed write.
pub open spec fn after_writes(next: Stage, config: SmtpConfig, email: Email, w: WriteEnd, bound: nat) -> Option<SessionEnd>
    decreases bound, 0nat,
{
    match w {
        WriteEnd::Written(more) => if more.len() < bound {
            session(next, config, email, more)
        } else {
            None
        },
        WriteEnd::Failed(more) => if more.len() == 0 {
            Some(SessionEnd::Done(failure_outcome(next, Failure::Io)))
        } else {
            None
        },
        WriteEnd::Off => None,
    }
}

/// What the engine makes of what happened on the connection, from `stage`
/// on: each reply read as `read_run` says, each decision as `after_reply`
/// takes it, each write as `write_run` says, the TLS upgrade made for the
/// configured host with the configured certificate setting. `None` where
/// what happened is not what the engine does.
pub open spec fn session(stage: Stage, config: SmtpConfig, email: Email, events: Seq<Event>) -> Option<SessionEnd>
    decreases events.len(), 1nat,
{
    if !awaits_reply(stage, config, email) {
        None
    } else {
        proof {
            lemma_read_run_shorter(events, seq![]);
        }
        match read_run(events, seq![]) {
            None => None,
            Some((ReadEnd::Failed, rest)) => if rest.len() == 0 {
                Some(SessionEnd::Done(failure_outcome(stage, Failure::Io)))
            } else {
                None
            },
            Some((ReadEnd::Reply(code, text), rest)) => {
                let (next, action) = after_reply(stage, config, email, code, text);
                match action {
                    Action::Finish(o) => if rest.len() == 0 {
                        Some(SessionEnd::Done(o))
                    } else {
                        None
                    },
                    Action::UpgradeTls => if rest.len() == 1 && rest[0] == Event::Upgrade(config.host@, config.tls_verify@, false) {
                        Some(SessionEnd::TlsFailed)
                    } else if rest.len() > 0 && rest[0] == Event::Upgrade(config.host@, config.tls_verify@, true) {
                        let (resumed, resend) = after_upgrade(Ok(()));
                        after_writes(resumed, config, email, write_run(rest.drop_first(), action_writes(resend, email)), events.len())
                    } else {
                        None
                    },
                    _ => after_writes(next, config, email, write_run(rest, action_writes(action, email)), events.len()),
                }
            },
        }
    }
}

/// Whether an engine result is what a session end says.
pub open spec fn ends_with(end: Option<SessionEnd>, r: Result<(), SmtpError>) -> bool {
    match end {
        Some(SessionEnd::Done(Ok(()))) => r is Ok,
        Some(SessionEnd::Done(Err(f))) => r matches Err(e) && e@ == f,
        Some(SessionEnd::TlsFailed) => r matches Err(e) && e@ is Tls,
        None => false,
    }
}

/// Writing one part: a success goes on with the other parts, a failure ends
/// the run.
proof fn lemma_write_run_step(p: Seq<u8>, ps: Seq<Seq<u8>>, ok: bool, rest: Seq<Event>)
    ensures
        write_run(seq![Event::Write(p, ok)] + rest, seq![p] + ps)
            == (if ok { write_run(rest, ps) } else { WriteEnd::Failed(rest) }),
{
    let ev = seq![Event::Write(p, ok)] + rest;
    let parts = seq![p] + ps;
    assert(ev[0] == Event::Write(p, ok));
    assert(ev.drop_first() =~= rest);
    assert(parts[0] == p);
    assert(parts.drop_first() =~= ps);
}

/// A run of no writes is written at once.
proof fn lemma_write_run_none(rest: Seq<Event>)
    ensures
        write_run(rest, Seq::<Seq<u8>>::empty()) == WriteEnd::Written(rest),
{
}

/// A sequence that begins with a prefix is that prefix and what follows it.
proof fn lemma_prefix_split(a: Seq<Event>, all: Seq<Event>)
    requires
        a.is_prefix_of(all),
    ensures
        all == a + all.skip(a.len() as int),
{
    assert(all =~= a + all.skip(a.len() as int));
}

/// Write a command and CRLF.
fn send_line<T: SmtpTransport>(transport: &mut T, command: &String) -> (r: Result<(), SmtpError>)
    ensures
        final(transport).peer() == old(transport).peer(),
        old(transport).coherent() ==> final(transport).coherent(),
        final(transport).events() == old(transport).events().push(
            Event::Write(encode_utf8(command_line(command@)), r is Ok),
        ),
        r matches Err(e) ==> e@ == Failure::Io,
{
    let mut line = command.clone();
    line.append("\r\n");
    match transport.write_all(line.as_str().as_bytes()) {
        Ok(()) => Ok(()),
        Err(e) => Err(SmtpError::Io(io_error(IoKind::Other, e.to_string().as_str()))),
    }
}

/// Write a text as its UTF-8 bytes.
fn write_bytes<T: SmtpTransport>(transport: &mut T, text: &str) -> (r: Result<(), SmtpError>)
    ensures
        final(transport).peer() == old(transport).peer(),
        old(transport).coherent() ==> final(transport).coherent(),
        final(transport).events() == old(transport).events().push(Event::Write(encode_utf8(text@), r is Ok)),
        r matches Err(e) ==> e@ == Failure::Io,
{
    match transport.write_all(text.as_bytes()) {
        Ok(()) => Ok(()),
        Err(e) => Err(SmtpError::Io(io_error(IoKind::Other, e.to_string().as_str()))),
    }
}

/// Send the message: headers, a blank line, the dot-stuffed body, and the
/// end-of-data line, one write each, stopping at the first failed write.
fn send_message<T: SmtpTransport>(transport: &mut T, email: &Email) -> (r: Result<(), SmtpError>)
    ensures
        final(transport).peer() == old(transport).peer(),
        old(transport).coherent() ==> final(transport).coherent(),
        old(transport).events().is_prefix_of(final(transport).events()),
        forall|ext: Seq<Event>|
            #[trigger] write_run(final(transport).events().skip(old(transport).events().len() as int) + ext, message_parts(*email))
                == (if r is Ok { WriteEnd::Written(ext) } else { WriteEnd::Failed(ext) }),
        r matches Err(e) ==> e@ == Failure::Io,
{
    let ghost e0 = transport.events();
    let ghost parts = message_parts(*email);
    let headers = email.headers();
    let body = email.formatted_body();
    let texts: Vec<&str> = vec![headers.as_str(), "\r\n", body.as_str(), ".\r\n"];
    let ghost mut done: Seq<Event> = Seq::empty();
    proof {
        assert forall|i: int| 0 <= i < 4 implies #[trigger] parts[i] == encode_utf8(texts@[i]@) by {}
        assert forall|ext: Seq<Event>| #[trigger] write_run(done + ext, parts) == write_run(ext, parts.skip(0)) by {
            assert(done + ext =~= ext);
            assert(parts.skip(0) =~= parts);
        }
    }
    let mut i: usize = 0;
    while i < 4
        invariant
            i <= 4,
            texts@.len() == 4,
            parts == message_parts(*email),
            forall|k: int| 0 <= k < 4 ==> #[trigger] parts[k] == encode_utf8(texts@[k]@),
            e0 == old(transport).events(),
            transport.events() == e0 + done,
            transport.peer() == old(transport).peer(),
            old(transport).coherent() ==> transport.coherent(),
            forall|ext: Seq<Event>| #[trigger] write_run(done + ext, parts) == write_run(ext, parts.skip(i as int)),
        decreases 4 - i,
    {
        let w = write_bytes(transport, texts[i]);
        let ghost ev = Event::Write(parts[i as int], w is Ok);
        proof {
            assert(parts.skip(i as int) =~= seq![parts[i as int]] + parts.skip(i + 1));
            assert forall|ext: Seq<Event>| #[trigger] write_run(done.push(ev) + ext, parts)
                == (if w is Ok { write_run(ext, parts.skip(i + 1)) } else { WriteEnd::Failed(ext) }) by {
                assert(done.push(ev) + ext =~= done + (seq![ev] + ext));
                assert(write_run(done + (seq![ev] + ext), parts) == write_run(seq![ev] + ext, parts.skip(i as int)));
                lemma_write_run_step(parts[i as int], parts.skip(i + 1), w is Ok, ext);
            }
            assert(transport.events() =~= e0 + done.push(ev));
            done = done.push(ev);
        }
        if w.is_err() {
            proof {
                assert(transport.events().skip(e0.len() as int) =~= done);
            }
            return w;
        }
        i = i + 1;
    }
    proof {
        assert(transport.events().skip(e0.len() as int) =~= done);
        assert forall|ext: Seq<Event>| #[trigger] write_run(done + ext, parts) == WriteEnd::Written(ext) by {
            assert(parts.skip(4) =~= Seq::<Seq<u8>>::empty());
            lemma_write_run_none(ext);
        }
    }
    Ok(())
}

/// Read an SMTP response from the transport.
///
/// Reads until the bytes read in this call hold a complete reply, and gives
/// that reply; bytes that came after it in the same read are dropped. Fails
/// with an I/O error when a read fails or the connection closes first, or
/// when a reply line's text would start inside a multi-byte character.
fn read_response<T: SmtpTransport>(transport: &mut T) -> (r: Result<SmtpResponse, SmtpError>)
    ensures
        final(transport).peer() == old(transport).peer(),
        old(transport).coherent() ==> final(transport).coherent(),
        old(transport).events().is_prefix_of(final(transport).events()),
        forall|ext: Seq<Event>|
            #[trigger] read_run(final(transport).events().skip(old(transport).events().len() as int) + ext, seq![])
                == Some((
                    match r {
                        Ok(resp) => ReadEnd::Reply(resp.code, resp.message@),
                        Err(_) => ReadEnd::Failed,
                    },
                    ext,
                )),
        r matches Err(e) ==> e@ == Failure::Io,
{
    let ghost e0 = transport.events();
    let ghost mut done: Seq<Event> = Seq::empty();
    let mut buf: Vec<u8> = vec![0u8; REPLY_BUFFER];
    let mut data: Vec<u8> = Vec::new();
    proof {
        assert(data@ =~= Seq::<u8>::empty());
        assert forall|ext: Seq<Event>| #[trigger] read_run(done + ext, seq![]) == read_run(ext, data@) by {
            assert(done + ext =~= ext);
        }
    }
    loop
        invariant
            buf@.len() == REPLY_BUFFER,
            e0 == old(transport).events(),
            transport.peer() == old(transport).peer(),
            old(transport).coherent() ==> transport.coherent(),
            transport.events() == e0 + done,
            forall|ext: Seq<Event>| #[trigger] read_run(done + ext, seq![]) == read_run(ext, data@),
        decreases usize::MAX - data@.len(),
    {
        let ghost acc = data@;
        let got = transport.read(buf.as_mut_slice());
        let n = match got {
            Ok(n) => n,
            Err(e) => {
                proof {
                    let ev = Event::ReadFailed;
                    assert forall|ext: Seq<Event>| #[trigger] read_run(done.push(ev) + ext, seq![]) == Some((ReadEnd::Failed, ext)) by {
                        assert(done.push(ev) + ext =~= done + (seq![ev] + ext));
                        assert((seq![ev] + ext).drop_first() =~= ext);
                    }
                    assert(transport.events().skip(e0.len() as int) =~= done.push(ev));
                }
                return Err(SmtpError::Io(io_error(IoKind::Other, e.to_string().as_str())));
            },
        };
        let ghost b = buf@.take(n as int);
        let ghost ev = Event::Read(b, REPLY_BUFFER as nat);
        proof {
            assert(transport.events() =~= e0 + done.push(ev));
            assert forall|ext: Seq<Event>| #[trigger] read_run(done.push(ev) + ext, seq![]) == read_run(seq![ev] + ext, acc) by {
                assert(done.push(ev) + ext =~= done + (seq![ev] + ext));
            }
        }
        if n == 0 {
            proof {
                assert forall|ext: Seq<Event>| #[trigger] read_run(done.push(ev) + ext, seq![]) == Some((ReadEnd::Failed, ext)) by {
                    assert(b =~= Seq::<u8>::empty());
                    assert((seq![ev] + ext).drop_first() =~= ext);
                    assert(read_run(done.push(ev) + ext, seq![]) == read_run(seq![ev] + ext, acc));
                }
                assert(transport.events().skip(e0.len() as int) =~= done.push(ev));
            }
            return Err(SmtpError::Io(io_error(IoKind::UnexpectedEof, "connection closed")));
        }
        let ghost before = data@;
        for i in 0..n
            invariant
                n <= buf@.len(),
                data@ == before + buf@.take(i as int),
        {
            data.push(buf[i]);
            proof {
                assert(buf@.take(i + 1) =~= buf@.take(i as int).push(buf@[i as int]));
            }
        }
        proof {
            assert(data@ == acc + b);
            assert(transport.events().skip(e0.len() as int) =~= done.push(ev));
        }
        // the length as a `usize` bounds the measure of the loop
        let _total = data.len();
        let status = SmtpResponse::scan(data.as_slice());
        proof {
            assert forall|ext: Seq<Event>| #[trigger] read_run(seq![ev] + ext, acc)
                == (match reply_of(acc + b) {
                    Some((code, text)) => Some((ReadEnd::Reply(code, text), ext)),
                    None => if unsliceable(acc + b) { Some((ReadEnd::Failed, ext)) } else { read_run(ext, acc + b) },
                }) by {
                assert((seq![ev] + ext)[0] == ev);
                assert((seq![ev] + ext).drop_first() =~= ext);
            }
            done = done.push(ev);
        }
        match status {
            ReplyStatus::Complete(resp) => {
                return Ok(resp);
            },
            ReplyStatus::Pending => {},
            ReplyStatus::Unsliceable => {
                return Err(SmtpError::Io(io_error(IoKind::InvalidData, "reply line splits a multi-byte character")));
            },
        }
    }
}

/// The run of one reply read is never empty.
proof fn lemma_read_nonempty(rs: Seq<Event>, end: ReadEnd)
    requires
        forall|x: Seq<Event>| #[trigger] read_run(rs + x, seq![]) == Some((end, x)),
    ensures
        rs.len() > 0,
{
    assert(rs + Seq::<Event>::empty() =~= rs);
    assert(read_run(rs + Seq::<Event>::empty(), seq![]) == Some((end, Seq::<Event>::empty())));
}

/// A session that reads a failure at a stage that awaits a reply ends as a
/// connection failure there.
proof fn lemma_session_read_failed(stage: Stage, config: SmtpConfig, email: Email, rs: Seq<Event>)
    requires
        awaits_reply(stage, config, email),
        forall|x: Seq<Event>| #[trigger] read_run(rs + x, seq![]) == Some((ReadEnd::Failed, x)),
    ensures
        session(stage, config, email, rs) == Some(SessionEnd::Done(failure_outcome(stage, Failure::Io))),
{
    assert(rs + Seq::<Event>::empty() =~= rs);
    assert(read_run(rs + Seq::<Event>::empty(), seq![]) == Some((ReadEnd::Failed, Seq::<Event>::empty())));
}

/// A session whose reply ends it ends with that outcome.
proof fn lemma_session_finish(stage: Stage, config: SmtpConfig, email: Email, rs: Seq<Event>, code: u16, text: Seq<char>)
    requires
        awaits_reply(stage, config, email),
        forall|x: Seq<Event>| #[trigger] read_run(rs + x, seq![]) == Some((ReadEnd::Reply(code, text), x)),
        after_reply(stage, config, email, code, text).1 is Finish,
    ensures
        session(stage, config, email, rs) == Some(SessionEnd::Done(after_reply(stage, config, email, code, text).1->Finish_0)),
{
    assert(rs + Seq::<Event>::empty() =~= rs);
    assert(read_run(rs + Seq::<Event>::empty(), seq![]) == Some((ReadEnd::Reply(code, text), Seq::<Event>::empty())));
}

/// A session whose reply leads to writes goes on, after those writes, from
/// the next stage; or ends as a connection failure there on a failed write.
proof fn lemma_session_writes(stage: Stage, config: SmtpConfig, email: Email, rs: Seq<Event>, code: u16, text: Seq<char>, ws: Seq<Event>, ok: bool)
    requires
        awaits_reply(stage, config, email),
        forall|x: Seq<Event>| #[trigger] read_run(rs + x, seq![]) == Some((ReadEnd::Reply(code, text), x)),
        !(after_reply(stage, config, email, code, text).1 is Finish),
        !(after_reply(stage, config, email, code, text).1 is UpgradeTls),
        forall|x: Seq<Event>| #[trigger] write_run(ws + x, action_writes(after_reply(stage, config, email, code, text).1, email))
            == (if ok { WriteEnd::Written(x) } else { WriteEnd::Failed(x) }),
    ensures
        ok ==> forall|ext: Seq<Event>| #[trigger] session(stage, config, email, (rs + ws) + ext)
            == session(after_reply(stage, config, email, code, text).0, config, email, ext),
        !ok ==> session(stage, config, email, rs + ws) == Some(SessionEnd::Done(
            failure_outcome(after_reply(stage, config, email, code, text).0, Failure::Io))),
{
    lemma_read_nonempty(rs, ReadEnd::Reply(code, text));
    if ok {
        assert forall|ext: Seq<Event>| #[trigger] session(stage, config, email, (rs + ws) + ext)
            == session(after_reply(stage, config, email, code, text).0, config, email, ext) by {
            assert((rs + ws) + ext =~= rs + (ws + ext));
            assert(read_run(rs + (ws + ext), seq![]) == Some((ReadEnd::Reply(code, text), ws + ext)));
            assert(write_run(ws + ext, action_writes(after_reply(stage, config, email, code, text).1, email)) == WriteEnd::Written(ext));
        }
    } else {
        assert(ws + Seq::<Event>::empty() =~= ws);
        assert(read_run(rs + ws, seq![]) == Some((ReadEnd::Reply(code, text), ws)));
        assert(write_run(ws + Seq::<Event>::empty(), action_writes(after_reply(stage, config, email, code, text).1, email))
            == WriteEnd::Failed(Seq::<Event>::empty()));
    }
}

/// What happens on the connection after STARTTLS is accepted: the TLS
/// upgrade for the configured host and certificate setting, and the
/// second EHLO written, with whether that write succeeded.
pub open spec fn upgrade_events(config: SmtpConfig, ok: bool) -> Seq<Event> {
    seq![Event::Upgrade(config.host@, config.tls_verify@, true), Event::Write(encode_utf8(command_line(ehlo_command())), ok)]
}

/// A session whose reply calls for the TLS upgrade: a failed upgrade ends
/// it; after a successful one, the second EHLO is written and the session
/// goes on from the stage that awaits its reply.
proof fn lemma_session_tls(stage: Stage, config: SmtpConfig, email: Email, rs: Seq<Event>, code: u16, text: Seq<char>, up: bool, ok: bool)
    requires
        awaits_reply(stage, config, email),
        forall|x: Seq<Event>| #[trigger] read_run(rs + x, seq![]) == Some((ReadEnd::Reply(code, text), x)),
        after_reply(stage, config, email, code, text).1 is UpgradeTls,
    ensures
        !up ==> session(stage, config, email, rs.push(Event::Upgrade(config.host@, config.tls_verify@, false)))
            == Some(SessionEnd::TlsFailed),
        up && ok ==> forall|ext: Seq<Event>| #[trigger] session(stage, config, email, (rs + upgrade_events(config, true)) + ext)
            == session(after_upgrade(Ok(())).0, config, email, ext),
        up && !ok ==> session(stage, config, email, rs + upgrade_events(config, false))
            == Some(SessionEnd::Done(failure_outcome(after_upgrade(Ok(())).0, Failure::Io))),
{
    lemma_read_nonempty(rs, ReadEnd::Reply(code, text));
    let upe = Event::Upgrade(config.host@, config.tls_verify@, up);
    let ehlo = encode_utf8(command_line(ehlo_command()));
    let we = Event::Write(ehlo, ok);
    if !up {
        assert(rs.push(upe) =~= rs + seq![upe]);
        assert(read_run(rs + seq![upe], seq![]) == Some((ReadEnd::Reply(code, text), seq![upe])));
    } else if ok {
        assert(upgrade_events(config, ok) =~= seq![upe, we]);
        assert forall|ext: Seq<Event>| #[trigger] session(stage, config, email, (rs + upgrade_events(config, true)) + ext)
            == session(after_upgrade(Ok(())).0, config, email, ext) by {
            let tail = seq![upe, we] + ext;
            assert((rs + upgrade_events(config, true)) + ext =~= rs + tail);
            assert(read_run(rs + tail, seq![]) == Some((ReadEnd::Reply(code, text), tail)));
            assert(tail[0] == upe);
            assert(tail.drop_first() =~= seq![we] + ext);
            assert(action_writes(after_upgrade(Ok(())).1, email) =~= seq![ehlo] + Seq::<Seq<u8>>::empty());
            lemma_write_run_step(ehlo, Seq::<Seq<u8>>::empty(), true, ext);
            lemma_write_run_none(ext);
        }
    } else {
        let tail = seq![upe, we];
        assert(upgrade_events(config, ok) =~= tail);
        assert(rs + tail =~= rs + (tail + Seq::<Event>::empty()));
        assert(read_run(rs + (tail + Seq::<Event>::empty()), seq![]) == Some((ReadEnd::Reply(code, text), tail + Seq::<Event>::empty())));
        assert(tail + Seq::<Event>::empty() =~= tail);
        assert(tail[0] == upe);
        assert(tail.drop_first() =~= seq![we] + Seq::<Event>::empty());
        assert(action_writes(after_upgrade(Ok(())).1, email) =~= seq![ehlo] + Seq::<Seq<u8>>::empty());
        lemma_write_run_step(ehlo, Seq::<Seq<u8>>::empty(), false, Seq::<Event>::empty());
    }
}

/// What the engine has done so far carries the session from the greeting to
/// `stage`; a further step carries it on to `next`.
proof fn lemma_session_advance(config: SmtpConfig, email: Email, done: Seq<Event>, seg: Seq<Event>, stage: Stage, next: Stage)
    requires
        forall|ext: Seq<Event>| #[trigger] session(Stage::Greeting, config, email, done + ext) == session(stage, config, email, ext),
        forall|ext: Seq<Event>| #[trigger] session(stage, config, email, seg + ext) == session(next, config, email, ext),
    ensures
        forall|ext: Seq<Event>| #[trigger] session(Stage::Greeting, config, email, (done + seg) + ext) == session(next, config, email, ext),
{
    assert forall|ext: Seq<Event>| #[trigger] session(Stage::Greeting, config, email, (done + seg) + ext) == session(next, config, email, ext) by {
        assert((done + seg) + ext =~= done + (seg + ext));
        assert(session(Stage::Greeting, config, email, done + (seg + ext)) == session(stage, config, email, seg + ext));
    }
}

/// What the engine did in the call is what it did before the last step and
/// that step.
proof fn lemma_session_end(config: SmtpConfig, email: Email, e0: Seq<Event>, done: Seq<Event>, seg: Seq<Event>, all: Seq<Event>, stage: Stage)
    requires
        forall|ext: Seq<Event>| #[trigger] session(Stage::Greeting, config, email, done + ext) == session(stage, config, email, ext),
        all == e0 + done + seg,
    ensures
        e0.is_prefix_of(all),
        session(Stage::Greeting, config, email, all.skip(e0.len() as int)) == session(stage, config, email, seg),
{
    assert(all.skip(e0.len() as int) =~= done + seg);
    assert(all.subrange(0, e0.len() as int) =~= e0);
}

/// Run the full SMTP protocol session over a transport.
///
/// Reads the greeting, then answers each reply as [`Stage::on_reply`]
/// decides: EHLO, STARTTLS and the TLS upgrade where configured, AUTH where
/// credentials are configured, MAIL FROM, RCPT TO for every recipient, DATA,
/// the message, and QUIT.
///
/// What happens on the connection during the call is what [`session`]
/// describes from the greeting on, and the result is the end it gives; a
/// failed TLS upgrade gives an error of kind `Tls` with the transport's
/// message.
pub fn send_email<T: SmtpTransport>(transport: &mut T, config: &SmtpConfig, email: &Email) -> (r: Result<(), SmtpError>)
    requires
        fits_machine(*config, *email),
    ensures
        final(transport).peer() == old(transport).peer(),
        old(transport).coherent() ==> final(transport).coherent(),
        old(transport).events().is_prefix_of(final(transport).events()),
        ends_with(session(Stage::Greeting, *config, *email, final(transport).events().skip(old(transport).events().len() as int)), r),
        r matches Err(e) ==> possible_failure(*config, *email, e@),
{
    let ghost e0 = transport.events();
    let ghost mut done: Seq<Event> = Seq::empty();
    let mut stage = Stage::Greeting;
    proof {
        assert(transport.events() =~= e0 + done);
        assert forall|ext: Seq<Event>| #[trigger] session(Stage::Greeting, *config, *email, done + ext)
            == session(stage, *config, *email, ext) by {
            assert(done + ext =~= ext);
        }
    }
    loop
        invariant
            fits_machine(*config, *email),
            awaits_reply(stage, *config, *email),
            consistent(stage, *config),
            e0 == old(transport).events(),
            transport.events() == e0 + done,
            transport.peer() == old(transport).peer(),
            old(transport).coherent() ==> transport.coherent(),
            forall|ext: Seq<Event>| #[trigger] session(Stage::Greeting, *config, *email, done + ext)
                == session(stage, *config, *email, ext),
        decreases 12 + usize::MAX - rank(stage),
    {
        let ghost pre = transport.events();
        let read = read_response(transport);
        let ghost rs = transport.events().skip(pre.len() as int);
        proof {
            lemma_prefix_split(pre, transport.events());
        }
        let reply = match read {
            Ok(reply) => reply,
            Err(e) => {
                proof {
                    lemma_session_read_failed(stage, *config, *email, rs);
                    lemma_session_end(*config, *email, e0, done, rs, transport.events(), stage);
                }
                return stage.on_failure(e);
            },
        };
        let ghost code = reply.code;
        let ghost text = reply.message@;
        proof {
            law_each_reply_advances(stage, *config, *email, code, text);
        }
        let (next, step) = stage.on_reply(config, email, &reply);
        match step {
            Step::Finish(res) => {
                proof {
                    lemma_session_finish(stage, *config, *email, rs, code, text);
                    lemma_session_end(*config, *email, e0, done, rs, transport.events(), stage);
                }
                return res;
            },
            Step::UpgradeTls => {
                let up = transport.upgrade_tls(config.host.as_str(), &config.tls_verify);
                let up_ok = up.is_ok();
                let outcome = match up {
                    Ok(()) => Ok(()),
                    Err(e) => Err(e.to_string()),
                };
                let (resumed, step2) = Stage::on_upgrade(outcome);
                match step2 {
                    Step::Command(c) => {
                        let w = send_line(transport, &c);
                        let ghost seg = rs + upgrade_events(*config, w is Ok);
                        proof {
                            lemma_session_tls(stage, *config, *email, rs, code, text, true, w is Ok);
                            assert(transport.events() =~= e0 + done + seg);
                        }
                        match w {
                            Ok(()) => {
                                proof {
                                    lemma_session_advance(*config, *email, done, seg, stage, resumed);
                                    done = done + seg;
                                }
                            },
                            Err(e) => {
                                proof {
                                    lemma_session_end(*config, *email, e0, done, seg, transport.events(), stage);
                                }
                                return resumed.on_failure(e);
                            },
                        }
                        stage = resumed;
                    },
                    Step::Finish(res) => {
                        proof {
                            lemma_session_tls(stage, *config, *email, rs, code, text, false, false);
                            assert(transport.events() =~= e0 + done + rs.push(Event::Upgrade(config.host@, config.tls_verify@, false)));
                            lemma_session_end(*config, *email, e0, done, rs.push(Event::Upgrade(config.host@, config.tls_verify@, false)),
                                transport.events(), stage);
                        }
                        return res;
                    },
                    _ => {
                        return Ok(());
                    },
                }
            },
            Step::Command(c) => {
                let w = send_line(transport, &c);
                let ghost ws = seq![Event::Write(encode_utf8(command_line(c@)), w is Ok)];
                proof {
                    assert forall|x: Seq<Event>| #[trigger] write_run(ws + x, action_writes(step@, *email))
                        == (if w is Ok { WriteEnd::Written(x) } else { WriteEnd::Failed(x) }) by {
                        assert(action_writes(step@, *email) =~= seq![encode_utf8(command_line(c@))] + Seq::<Seq<u8>>::empty());
                        lemma_write_run_step(encode_utf8(command_line(c@)), Seq::<Seq<u8>>::empty(), w is Ok, x);
                        lemma_write_run_none(x);
                    }
                    lemma_session_writes(stage, *config, *email, rs, code, text, ws, w is Ok);
                    assert(transport.events() =~= e0 + done + (rs + ws));
                }
                match w {
                    Ok(()) => {
                        proof {
                            lemma_session_advance(*config, *email, done, rs + ws, stage, next);
                            done = done + (rs + ws);
                        }
                    },
                    Err(e) => {
                        proof {
                            lemma_session_end(*config, *email, e0, done, rs + ws, transport.events(), stage);
                        }
                        return next.on_failure(e);
                    },
                }
                stage = next;
            },
            Step::Message => {
                let ghost pre2 = transport.events();
                let w = send_message(transport, email);
                let ghost ws = transport.events().skip(pre2.len() as int);
                proof {
                    lemma_prefix_split(pre2, transport.events());
                    lemma_session_writes(stage, *config, *email, rs, code, text, ws, w is Ok);
                    assert(transport.events() =~= e0 + done + (rs + ws));
                }
                match w {
                    Ok(()) => {
                        proof {
                            lemma_session_advance(*config, *email, done, rs + ws, stage, next);
                            done = done + (rs + ws);
                        }
                    },
                    Err(e) => {
                        proof {
                            lemma_session_end(*config, *email, e0, done, rs + ws, transport.events(), stage);
                        }
                        return next.on_failure(e);
                    },
                }
                stage = next;
            },
        }
    }
}

/// The actions a session takes on a run of replies from `stage`, with every
/// TLS upgrade succeeding.
pub open spec fn replay(stage: Stage, config: SmtpConfig, email: Email, replies: Seq<(u16, Seq<char>)>) -> Seq<Action>
    decreases replies.len(),
{
    if replies.len() == 0 || !awaits_reply(stage, config, email) {
        seq![]
    } else {
        let (next, action) = after_reply(stage, config, email, replies[0].0, replies[0].1);
        if next == Stage::TlsUpgrade {
            let (after, resumed) = after_upgrade(Ok(()));
            seq![action, resumed] + replay(after, config, email, replies.drop_first())
        } else {
            seq![action] + replay(next, config, email, replies.drop_first())
        }
    }
}

/// The RCPT TO command for the recipient at index `i`.
pub open spec fn rcpt_command(email: Email, i: int) -> Action {
    Action::Send("RCPT TO:<"@ + email.recipients()[i].email@ + ">"@)
}

/// `n` replies with code 250 and no text.
pub open spec fn accepted(n: nat) -> Seq<(u16, Seq<char>)> {
    Seq::new(n, |i: int| (250u16, Seq::<char>::empty()))
}

/// The replies that end a session well: DATA accepted, message queued, QUIT answered.
pub open spec fn closing_replies() -> Seq<(u16, Seq<char>)> {
    seq![(354u16, Seq::<char>::empty()), (250u16, Seq::<char>::empty()), (221u16, Seq::<char>::empty())]
}

/// The actions that end a session well: send the message, QUIT, succeed.
pub open spec fn closing_actions() -> Seq<Action> {
    seq![Action::SendMessage, Action::Send("QUIT"@), Action::Finish(Ok(()))]
}

proof fn lemma_replay_closing(config: SmtpConfig, email: Email)
    ensures
        replay(Stage::Data, config, email, closing_replies()) == closing_actions(),
{
    let r = closing_replies();
    assert(r.drop_first().drop_first().drop_first() =~= Seq::<(u16, Seq<char>)>::empty());
    assert(r.drop_first()[0] == (250u16, Seq::<char>::empty()));
    assert(r.drop_first().drop_first()[0] == (221u16, Seq::<char>::empty()));
    assert(replay(Stage::Finished, config, email, r.drop_first().drop_first().drop_first()) =~= Seq::<Action>::empty());
    assert(replay(Stage::Quit, config, email, r.drop_first().drop_first()) =~= seq![Action::Finish(Ok(()))]);
    assert(replay(Stage::Message, config, email, r.drop_first()) =~= seq![Action::Send("QUIT"@), Action::Finish(Ok(()))]);
    assert(replay(Stage::Data, config, email, r) =~= closing_actions());
}

proof fn lemma_replay_recipients(config: SmtpConfig, email: Email, i: int)
    requires
        0 <= i < email.recipients().len(),
        email.recipients().len() <= usize::MAX,
    ensures
        replay(Stage::Recipient(i as usize), config, email, accepted((email.recipients().len() - i) as nat) + closing_replies())
            == Seq::new((email.recipients().len() - 1 - i) as nat, |k: int| rcpt_command(email, i + 1 + k))
                + seq![Action::Send("DATA"@)] + closing_actions(),
    decreases email.recipients().len() - i,
{
    let n = email.recipients().len() as int;
    let replies = accepted((n - i) as nat) + closing_replies();
    assert(replies[0] == (250u16, Seq::<char>::empty()));
    if i + 1 < n {
        lemma_replay_recipients(config, email, i + 1);
        assert(replies.drop_first() =~= accepted((n - (i + 1)) as nat) + closing_replies());
        assert(Seq::new((n - 1 - i) as nat, |k: int| rcpt_command(email, i + 1 + k)) =~= seq![rcpt_command(email, i + 1)]
            + Seq::new((n - 1 - (i + 1)) as nat, |k: int| rcpt_command(email, i + 1 + 1 + k)));
    } else {
        lemma_replay_closing(config, email);
        assert(replies.drop_first() =~= closing_replies());
        assert(Seq::new((n - 1 - i) as nat, |k: int| rcpt_command(email, i + 1 + k)) =~= Seq::<Action>::empty());
    }
    assert(replay(Stage::Recipient(i as usize), config, email, replies) =~= Seq::new((n - 1 - i) as nat, |k: int| rcpt_command(email, i + 1 + k))
        + seq![Action::Send("DATA"@)] + closing_actions());
}

/// The replies of a server that accepts everything, for a session without
/// STARTTLS and without authentication: greeting, EHLO, MAIL FROM, one per
/// recipient, then DATA, the message and QUIT.
pub open spec fn accepting_server(recipients: nat) -> Seq<(u16, Seq<char>)> {
    seq![(220u16, Seq::<char>::empty()), (250u16, Seq::<char>::empty()), (250u16, Seq::<char>::empty())]
        + accepted(recipients) + closing_replies()
}

/// A well-ended session without STARTTLS and without authentication sends
/// EHLO, MAIL FROM for the sender, one RCPT TO for each recipient in order
/// (To, then Cc, then Bcc), DATA, the message and QUIT, and succeeds.
pub proof fn law_plain_session(config: SmtpConfig, email: Email)
    requires
        config.tls_mode != TlsMode::StartTls,
        config.credentials is None,
        email.recipients().len() <= usize::MAX,
    ensures
        replay(Stage::Greeting, config, email, accepting_server(email.recipients().len()))
            == seq![Action::Send(ehlo_command()), Action::Send("MAIL FROM:<"@ + email.from.email@ + ">"@)]
                + Seq::new(email.recipients().len(), |k: int| rcpt_command(email, k))
                + seq![Action::Send("DATA"@)] + closing_actions(),
{
    let n = email.recipients().len() as int;
    let replies = accepting_server(n as nat);
    let r1 = replies.drop_first();
    let r2 = r1.drop_first();
    let r3 = r2.drop_first();
    assert(replies[0] == (220u16, Seq::<char>::empty()));
    assert(r1[0] == (250u16, Seq::<char>::empty()));
    assert(r2[0] == (250u16, Seq::<char>::empty()));
    let tail = seq![Action::Send("DATA"@)] + closing_actions();
    assert(r2.drop_first() == r3);
    if n > 0 {
        lemma_replay_recipients(config, email, 0);
        assert(r3 =~= accepted(n as nat) + closing_replies());
        assert(Seq::new(n as nat, |k: int| rcpt_command(email, k)) =~= seq![rcpt_command(email, 0)]
            + Seq::new((n - 1 - 0) as nat, |k: int| rcpt_command(email, 0 + 1 + k)));
        assert(replay(Stage::MailFrom, config, email, r2) =~= Seq::new(n as nat, |k: int| rcpt_command(email, k)) + tail);
    } else {
        lemma_replay_closing(config, email);
        assert(r3 =~= closing_replies());
        assert(Seq::new(n as nat, |k: int| rcpt_command(email, k)) =~= Seq::<Action>::empty());
        assert(replay(Stage::MailFrom, config, email, r2) =~= Seq::new(n as nat, |k: int| rcpt_command(email, k)) + tail);
    }
    assert(replay(Stage::Ehlo, config, email, r1) =~= seq![Action::Send("MAIL FROM:<"@ + email.from.email@ + ">"@)]
        + Seq::new(n as nat, |k: int| rcpt_command(email, k)) + tail);
    assert(replay(Stage::Greeting, config, email, replies) =~= seq![Action::Send(ehlo_command()), Action::Send("MAIL FROM:<"@ + email.from.email@ + ">"@)]
        + Seq::new(n as nat, |k: int| rcpt_command(email, k)) + tail);
}

/// The stages that belong to authentication.
pub open spec fn auth_stage(stage: Stage) -> bool {
    stage == Stage::AuthPlain || stage == Stage::AuthLogin || stage == Stage::AuthLoginUser
        || stage == Stage::AuthLoginPassword
}

pub open spec fn auth_word() -> Seq<char> {
    seq!['A', 'U', 'T', 'H']
}

proof fn lemma_not_auth(c: Seq<char>)
    requires
        c.len() > 0,
        c[0] != 'A',
    ensures
        !starts_with(c, auth_word()),
{
    if starts_with(c, auth_word()) {
        assert(c.subrange(0, 4)[0] == c[0]);
    }
}

/// Without credentials, a session never enters authentication and never
/// sends an AUTH command, whatever the server replies.
pub proof fn law_no_auth_without_credentials(stage: Stage, config: SmtpConfig, email: Email, code: u16, text: Seq<char>)
    requires
        config.credentials is None,
        consistent(stage, config),
        awaits_reply(stage, config, email),
    ensures
        !auth_stage(after_reply(stage, config, email, code, text).0),
        after_reply(stage, config, email, code, text).1 matches Action::Send(c) ==> !starts_with(c, auth_word()),
{
    reveal_strlit("EHLO localhost");
    reveal_strlit("STARTTLS");
    reveal_strlit("MAIL FROM:<");
    reveal_strlit("RCPT TO:<");
    reveal_strlit("DATA");
    reveal_strlit("QUIT");
    let (next, action) = after_reply(stage, config, email, code, text);
    match action {
        Action::Send(c) => {
            assert(c.len() > 0 && c[0] != 'A');
            lemma_not_auth(c);
        },
        _ => {},
    }
}

/// In STARTTLS mode, nothing but EHLO and STARTTLS is sent before the
/// connection is upgraded: neither credentials nor the envelope go out in
/// the clear.
pub proof fn law_starttls_before_credentials(stage: Stage, config: SmtpConfig, email: Email, code: u16, text: Seq<char>)
    requires
        config.tls_mode == TlsMode::StartTls,
        stage == Stage::Greeting || stage == Stage::Ehlo || stage == Stage::StartTls,
    ensures
        ({
            let (next, action) = after_reply(stage, config, email, code, text);
            &&& next == Stage::Ehlo || next == Stage::StartTls || next == Stage::TlsUpgrade || next == Stage::Finished
            &&& action matches Action::Send(c) ==> c == ehlo_command() || c == "STARTTLS"@
        }),
{
}


/// The bytes of every write (whether it succeeded or not) before the first
/// successful TLS upgrade, in order.
pub open spec fn writes_before_upgrade(events: Seq<Event>) -> Seq<Seq<u8>>
    decreases events.len(),
{
    if events.len() == 0 {
        seq![]
    } else {
        match events[0] {
            Event::Upgrade(_, _, true) => seq![],
            Event::Write(b, _) => seq![b] + writes_before_upgrade(events.drop_first()),
            _ => writes_before_upgrade(events.drop_first()),
        }
    }
}

/// What a STARTTLS session may write in the clear, from a stage before the
/// upgrade on.
pub open spec fn clear_writes(stage: Stage) -> Seq<Seq<u8>> {
    match stage {
        Stage::Greeting => seq![encode_utf8(command_line(ehlo_command())), encode_utf8(command_line("STARTTLS"@))],
        Stage::Ehlo => seq![encode_utf8(command_line("STARTTLS"@))],
        _ => seq![],
    }
}

/// Reading a reply writes nothing.
proof fn lemma_read_run_writes(events: Seq<Event>, acc: Seq<u8>)
    ensures
        read_run(events, acc) matches Some((_, rest)) ==> writes_before_upgrade(events) == writes_before_upgrade(rest),
    decreases events.len(),
{
    if events.len() > 0 {
        match events[0] {
            Event::Read(b, _) => {
                lemma_read_run_writes(events.drop_first(), acc + b);
            },
            _ => {},
        }
    }
}

/// From a stage before the upgrade, a STARTTLS session writes in the clear
/// at most what is left of EHLO and STARTTLS.
proof fn lemma_clear_writes(stage: Stage, config: SmtpConfig, email: Email, events: Seq<Event>)
    requires
        config.tls_mode == TlsMode::StartTls,
        stage == Stage::Greeting || stage == Stage::Ehlo || stage == Stage::StartTls,
        session(stage, config, email, events) is Some,
    ensures
        writes_before_upgrade(events).is_prefix_of(clear_writes(stage)),
    decreases events.len(),
{
    lemma_read_run_writes(events, seq![]);
    let (end, rest) = read_run(events, seq![])->0;
    match end {
        ReadEnd::Failed => {
            assert(writes_before_upgrade(rest) =~= Seq::<Seq<u8>>::empty());
        },
        ReadEnd::Reply(code, text) => {
            let (next, action) = after_reply(stage, config, email, code, text);
            match action {
                Action::Finish(_) => {
                    assert(writes_before_upgrade(rest) =~= Seq::<Seq<u8>>::empty());
                },
                Action::UpgradeTls => {
                    if rest[0] == Event::Upgrade(config.host@, config.tls_verify@, false) {
                        assert(rest.drop_first().len() == 0);
                        assert(writes_before_upgrade(rest.drop_first()) =~= Seq::<Seq<u8>>::empty());
                    }
                    assert(writes_before_upgrade(rest) =~= Seq::<Seq<u8>>::empty());
                },
                _ => {
                    let p = action_writes(action, email)[0];
                    assert(action_writes(action, email) =~= seq![p]);
                    assert(rest.len() > 0 && (rest[0] == Event::Write(p, true) || rest[0] == Event::Write(p, false)));
                    let more = rest.drop_first();
                    if rest[0] == Event::Write(p, true) {
                        assert(write_run(more, action_writes(action, email).drop_first()) == WriteEnd::Written(more));
                        lemma_clear_writes(next, config, email, more);
                    } else {
                        assert(more.len() == 0);
                        assert(writes_before_upgrade(more) =~= Seq::<Seq<u8>>::empty());
                    }
                    assert(clear_writes(stage) =~= seq![p] + clear_writes(next));
                    assert(writes_before_upgrade(rest) == seq![p] + writes_before_upgrade(more));
                },
            }
        },
    }
}

/// In STARTTLS mode, whatever happens on the connection during a session,
/// nothing but the first EHLO and STARTTLS is written before the connection
/// is upgraded to TLS (for the configured host, with the configured
/// certificate setting): neither credentials nor the envelope go out in the
/// clear.
pub proof fn law_starttls_on_the_wire(config: SmtpConfig, email: Email, events: Seq<Event>)
    requires
        config.tls_mode == TlsMode::StartTls,
        session(Stage::Greeting, config, email, events) is Some,
    ensures
        writes_before_upgrade(events).is_prefix_of(
            seq![encode_utf8(command_line(ehlo_command())), encode_utf8(command_line("STARTTLS"@))],
        ),
{
    lemma_clear_writes(Stage::Greeting, config, email, events);
}


/// The reply to the message decides the delivery: a reply outside 200..300
/// ends the session with `DataRejected` carrying that code and text (the
/// server did not take the message), and only a 2xx reply leads on to QUIT.
pub proof fn law_message_reply(config: SmtpConfig, email: Email, code: u16, text: Seq<char>)
    ensures
        !(200 <= code < 300) ==> after_reply(Stage::Message, config, email, code, text)
            == (Stage::Finished, Action::Finish(Err(Failure::DataRejected { code, message: text }))),
        200 <= code < 300 ==> after_reply(Stage::Message, config, email, code, text)
            == (Stage::Quit, Action::Send("QUIT"@)),
{
}

/// A password refused under AUTH LOGIN ends the session with `Auth`
/// carrying the code and text, as a refused AUTH PLAIN does: the two replies
/// are decided alike, and only 235 goes on.
pub proof fn law_auth_password_reply(config: SmtpConfig, email: Email, code: u16, text: Seq<char>)
    ensures
        after_reply(Stage::AuthLoginPassword, config, email, code, text)
            == after_reply(Stage::AuthPlain, config, email, code, text),
        code != 235 ==> after_reply(Stage::AuthLoginPassword, config, email, code, text)
            == (Stage::Finished, Action::Finish(Err(Failure::Auth { code, message: text }))),
        code != 235 ==> after_reply(Stage::AuthPlain, config, email, code, text)
            == (Stage::Finished, Action::Finish(Err(Failure::Auth { code, message: text }))),
        code == 235 ==> after_reply(Stage::AuthLoginPassword, config, email, code, text).0 == Stage::MailFrom,
{
}

/// A recipient refused with a code other than 250 and 251 ends the session
/// with `RejectedRecipient` naming that recipient, whichever place it has
/// among the To, Cc and Bcc addresses.
pub proof fn law_recipient_reply(config: SmtpConfig, email: Email, i: usize, code: u16, text: Seq<char>)
    requires
        i < email.recipients().len(),
    ensures
        code != 250 && code != 251 ==> after_reply(Stage::Recipient(i), config, email, code, text)
            == (Stage::Finished, Action::Finish(Err(Failure::RejectedRecipient {
                address: email.recipients()[i as int].email@,
                code,
                message: text,
            }))),
        (code == 250 || code == 251) ==> after_reply(Stage::Recipient(i), config, email, code, text).1
            != Action::Finish(Err(Failure::RejectedRecipient {
                address: email.recipients()[i as int].email@,
                code,
                message: text,
            })),
{
}


/// No EHLO line turns STARTTLS off: an `AUTH` or `SIZE` line changes only
/// its own field, and a line that reads `STARTTLS` (trimmed, upper-cased)
/// turns it on.
pub proof fn law_capability_line(c: CapabilitiesView, line: Seq<char>)
    ensures
        c.starttls ==> apply_capability_line(c, line).starttls,
        uppercase(trim(line)) == "STARTTLS"@ ==> apply_capability_line(c, line).starttls,
        starts_with(uppercase(trim(line)), "AUTH "@) ==> apply_capability_line(c, line).starttls == c.starttls
            && apply_capability_line(c, line).max_size == c.max_size,
        starts_with(uppercase(trim(line)), "SIZE "@) ==> apply_capability_line(c, line).starttls == c.starttls
            && apply_capability_line(c, line).auth_methods == c.auth_methods,
        uppercase(trim(line)) == "STARTTLS"@ ==> apply_capability_line(c, line).auth_methods == c.auth_methods
            && apply_capability_line(c, line).max_size == c.max_size,
        !starts_with(uppercase(trim(line)), "AUTH "@) && !starts_with(uppercase(trim(line)), "SIZE "@)
            && uppercase(trim(line)) != "STARTTLS"@ ==> apply_capability_line(c, line) == c,
{
    reveal_strlit("STARTTLS");
    reveal_strlit("AUTH ");
    reveal_strlit("SIZE ");
    let u = uppercase(trim(line));
    assert("AUTH "@ =~= auth_prefix());
    assert("SIZE "@ =~= size_prefix());
    assert("STARTTLS"@ =~= starttls_keyword());
    if u == "STARTTLS"@ {
        assert(u =~= starttls_keyword());
        assert(!starts_with(u, auth_prefix())) by {
            assert(u.subrange(0, 5)[0] == 'S');
        }
    }
    if starts_with(u, size_prefix()) {
        assert(!starts_with(u, auth_prefix())) by {
            assert(u.subrange(0, 5)[0] == 'S');
        }
        assert(u != starttls_keyword()) by {
            assert(u[4] == ' ');
        }
    }
}

proof fn lemma_starttls_lines(lines: Seq<Seq<char>>, k: int)
    requires
        0 <= k < lines.len(),
        uppercase(trim(lines[k])) == "STARTTLS"@,
    ensures
        capabilities_of_lines(lines).starttls,
    decreases lines.len(),
{
    let last = lines.len() - 1;
    if k == last {
        law_capability_line(capabilities_of_lines(lines.drop_last()), lines.last());
    } else {
        assert(lines.drop_last()[k] == lines[k]);
        lemma_starttls_lines(lines.drop_last(), k);
        law_capability_line(capabilities_of_lines(lines.drop_last()), lines.last());
    }
}

/// An EHLO reply with a line that reads `STARTTLS` (trimmed, upper-cased)
/// announces STARTTLS, whatever lines come before or after it.
pub proof fn law_starttls_announced(message: Seq<char>, k: int)
    requires
        0 <= k < split_lines(message).len(),
        uppercase(trim(split_lines(message)[k])) == "STARTTLS"@,
    ensures
        capabilities_of(message).starttls,
{
    lemma_starttls_lines(split_lines(message), k);
}

} // verus!
