//! Email composition: addresses, headers, the dot-stuffed body, the builder.

use vstd::prelude::*;
use vstd::string::StringExecFns;
use crate::error::SmtpError;
use crate::text::{crlf_lines, lemma_first_line};
use crate::text::{chars_of, join, push_char, push_chars, starts_with};

verus! {

/// The version named in the `X-Mailer` header.
pub const MAILER_VERSION: &'static str = "0.4.1";

/// An email address with optional display name.
#[derive(Debug, Clone)]
pub struct Address {
    pub email: String,
    pub name: Option<String>,
}

/// What an address holds, as text.
pub struct AddressView {
    pub email: Seq<char>,
    pub name: Option<Seq<char>>,
}

impl AddressView {
    /// The header form: `"Name" <email>` or `email`.
    pub open spec fn header_text(self) -> Seq<char> {
        match self.name {
            None => self.email,
            Some(n) => seq!['"'] + n + seq!['"', ' ', '<'] + self.email + seq!['>'],
        }
    }
}

impl View for Address {
    type V = AddressView;

    open spec fn view(&self) -> AddressView {
        AddressView { email: self.email@, name: self.name.deep_view() }
    }
}

impl DeepView for Address {
    type V = AddressView;

    open spec fn deep_view(&self) -> AddressView {
        self@
    }
}

/// The header forms of a list of addresses, separated by `", "`.
pub open spec fn address_list(addrs: Seq<AddressView>) -> Seq<char> {
    join(addrs.map_values(|a: AddressView| a.header_text()), seq![',', ' '])
}

impl Address {
    /// Create an address from an email string.
    pub fn new(email: &str) -> (r: Self)
        ensures
            r@ == (AddressView { email: email@, name: None }),
    {
        Address { email: email.to_owned(), name: None }
    }

    /// Create an address with a display name.
    pub fn with_name(name: &str, email: &str) -> (r: Self)
        ensures
            r@ == (AddressView { email: email@, name: Some(name@) }),
    {
        Address { email: email.to_owned(), name: Some(name.to_owned()) }
    }

    /// Format for message headers: `"Name" <email>` or `email`.
    pub fn to_header(&self) -> (r: String)
        ensures
            r@ == self@.header_text(),
    {
        match &self.name {
            None => self.email.clone(),
            Some(name) => {
                let mut s = String::new();
                push_char(&mut s, '"');
                s.append(name.as_str());
                push_char(&mut s, '"');
                push_char(&mut s, ' ');
                push_char(&mut s, '<');
                s.append(self.email.as_str());
                push_char(&mut s, '>');
                proof {
                    assert(s@ =~= self@.header_text());
                }
                s
            },
        }
    }

    /// Format for SMTP envelope (MAIL FROM / RCPT TO): just the email.
    pub fn to_envelope(&self) -> (r: &str)
        ensures
            r@ == self.email@,
    {
        self.email.as_str()
    }
}

/// Appends the header forms of `addrs`, separated by `", "`.
fn push_address_list(s: &mut String, addrs: &Vec<Address>)
    ensures
        final(s)@ == old(s)@ + address_list(addrs.deep_view()),
{
    let ghost views = addrs.deep_view();
    let ghost items = views.map_values(|a: AddressView| a.header_text());
    for i in 0..addrs.len()
        invariant
            views == addrs.deep_view(),
            items == views.map_values(|a: AddressView| a.header_text()),
            s@ == old(s)@ + join(items.take(i as int), seq![',', ' ']),
    {
        proof {
            assert(items.take(i + 1).drop_last() =~= items.take(i as int));
        }
        if i > 0 {
            push_char(s, ',');
            push_char(s, ' ');
        }
        let h = addrs[i].to_header();
        s.append(h.as_str());
        proof {
            assert(items[i as int] == views[i as int].header_text());
            if i == 0 {
                assert(items.take(1) =~= seq![items[0]]);
            }
            assert(s@ =~= old(s)@ + join(items.take(i + 1), seq![',', ' ']));
        }
    }
    proof {
        assert(items.take(addrs.len() as int) =~= items);
    }
}

/// A composed email message.
#[derive(Debug, Clone)]
pub struct Email {
    pub from: Address,
    pub to: Vec<Address>,
    pub cc: Vec<Address>,
    pub bcc: Vec<Address>,
    pub subject: String,
    pub body: String,
    pub message_id: Option<String>,
    /// Optional Date header value (RFC 2822 format).
    /// If None, no Date header is emitted.
    pub date: Option<String>,
}

/// The header block of a message with these parts; BCC recipients and the
/// body take no part in it.
pub open spec fn header_block(
    from: AddressView,
    to: Seq<AddressView>,
    cc: Seq<AddressView>,
    subject: Seq<char>,
    date: Option<Seq<char>>,
    message_id: Option<Seq<char>>,
) -> Seq<char> {
    "From: "@ + from.header_text() + "\r\n"@
    + "To: "@ + address_list(to) + "\r\n"@
    + (if cc.len() > 0 { "Cc: "@ + address_list(cc) + "\r\n"@ } else { seq![] })
    + "Subject: "@ + subject + "\r\n"@
    + (match date { Some(d) => "Date: "@ + d + "\r\n"@, None => seq![] })
    + "MIME-Version: 1.0\r\n"@
    + "Content-Type: text/plain; charset=UTF-8\r\n"@
    + (match message_id { Some(id) => "Message-ID: <"@ + id + ">\r\n"@, None => seq![] })
    + "X-Mailer: esp-idf-smtp/"@ + MAILER_VERSION@ + "\r\n"@
}

/// The lines of a text split at each `\n` (as `str::split('\n')` gives
/// them: an empty text is one empty line, a final `\n` ends in an empty line).
pub open spec fn split_lines(s: Seq<char>) -> Seq<Seq<char>>
    decreases s.len(),
{
    if s.len() == 0 {
        seq![seq![]]
    } else {
        let p = split_lines(s.drop_last());
        if s.last() == '\n' {
            p.push(seq![])
        } else {
            p.update(p.len() - 1, p.last().push(s.last()))
        }
    }
}

/// A line without one trailing `\r`.
pub open spec fn strip_cr(l: Seq<char>) -> Seq<char> {
    if l.len() > 0 && l.last() == '\r' {
        l.drop_last()
    } else {
        l
    }
}

/// A line with a `.` put before it when it starts with `.` (RFC 5321 dot-stuffing).
pub open spec fn dot_stuff(l: Seq<char>) -> Seq<char> {
    if l.len() > 0 && l[0] == '.' {
        seq!['.'] + l
    } else {
        l
    }
}

/// A body line as it goes on the wire.
pub open spec fn wire_line(l: Seq<char>) -> Seq<char> {
    dot_stuff(strip_cr(l)) + seq!['\r', '\n']
}

/// Body lines as they go on the wire, in order.
pub open spec fn wire_lines(ls: Seq<Seq<char>>) -> Seq<char>
    decreases ls.len(),
{
    if ls.len() == 0 {
        seq![]
    } else {
        wire_lines(ls.drop_last()) + wire_line(ls.last())
    }
}

/// The body as it goes on the wire.
pub open spec fn wire_body(body: Seq<char>) -> Seq<char> {
    wire_lines(split_lines(body))
}

pub proof fn lemma_split_lines_nonempty(s: Seq<char>)
    ensures
        split_lines(s).len() >= 1,
    decreases s.len(),
{
    if s.len() > 0 {
        lemma_split_lines_nonempty(s.drop_last());
    }
}

/// Appends a body line in its wire form.
fn push_wire_line(out: &mut String, line: &Vec<char>)
    ensures
        final(out)@ == old(out)@ + wire_line(line@),
{
    let n = line.len();
    if n > 0 && line[0] == '.' {
        push_char(out, '.');
    }
    let k = if n > 0 && line[n - 1] == '\r' {
        n - 1
    } else {
        n
    };
    push_chars(out, line, 0, k);
    push_char(out, '\r');
    push_char(out, '\n');
    proof {
        let l = line@;
        if n > 0 && l.last() == '\r' {
            assert(l.subrange(0, k as int) =~= l.drop_last());
        } else {
            assert(l.subrange(0, k as int) =~= l);
        }
        assert(final(out)@ =~= old(out)@ + wire_line(line@));
    }
}

impl Email {
    /// Start building a new email.
    pub fn builder() -> (r: EmailBuilder)
        ensures
            r@ == EmailBuilder::empty_draft(),
    {
        EmailBuilder::default()
    }

    /// The envelope recipients: To, then Cc, then Bcc.
    pub open spec fn recipients(&self) -> Seq<Address> {
        self.to@ + self.cc@ + self.bcc@
    }

    /// Generate all RCPT TO addresses (to + cc + bcc).
    pub fn all_recipients(&self) -> (r: Vec<&Address>)
        ensures
            r@.len() == self.recipients().len(),
            forall|i: int| 0 <= i < r@.len() ==> *r@[i] == self.recipients()[i],
    {
        let mut r: Vec<&Address> = Vec::new();
        for i in 0..self.to.len()
            invariant
                r@.len() == i,
                forall|j: int| 0 <= j < i ==> *r@[j] == self.to@[j],
        {
            r.push(&self.to[i]);
        }
        for i in 0..self.cc.len()
            invariant
                r@.len() == self.to@.len() + i,
                forall|j: int| 0 <= j < self.to@.len() ==> *r@[j] == self.to@[j],
                forall|j: int| 0 <= j < i ==> *r@[self.to@.len() + j] == self.cc@[j],
        {
            r.push(&self.cc[i]);
        }
        for i in 0..self.bcc.len()
            invariant
                r@.len() == self.to@.len() + self.cc@.len() + i,
                forall|j: int| 0 <= j < self.to@.len() ==> *r@[j] == self.to@[j],
                forall|j: int| 0 <= j < self.cc@.len() ==> *r@[self.to@.len() + j] == self.cc@[j],
                forall|j: int| 0 <= j < i ==> *r@[self.to@.len() + self.cc@.len() + j] == self.bcc@[j],
        {
            r.push(&self.bcc[i]);
        }
        proof {
            let all = self.recipients();
            assert forall|i: int| 0 <= i < r@.len() implies *r@[i] == all[i] by {
                if i < self.to@.len() {
                } else if i < self.to@.len() + self.cc@.len() {
                    assert(*r@[self.to@.len() + (i - self.to@.len())] == self.cc@[i - self.to@.len()]);
                } else {
                    let j = i - self.to@.len() - self.cc@.len();
                    assert(*r@[self.to@.len() + self.cc@.len() + j] == self.bcc@[j]);
                }
            }
        }
        r
    }

    /// The header block of this message.
    pub open spec fn header_text(&self) -> Seq<char> {
        header_block(
            self.from@,
            self.to.deep_view(),
            self.cc.deep_view(),
            self.subject@,
            self.date.deep_view(),
            self.message_id.deep_view(),
        )
    }

    /// Generate the email headers as a string.
    pub fn headers(&self) -> (r: String)
        ensures
            r@ == self.header_text(),
    {
        let mut h = String::new();
        h.append("From: ");
        let from = self.from.to_header();
        h.append(from.as_str());
        h.append("\r\n");
        h.append("To: ");
        push_address_list(&mut h, &self.to);
        h.append("\r\n");
        if self.cc.len() > 0 {
            h.append("Cc: ");
            push_address_list(&mut h, &self.cc);
            h.append("\r\n");
        }
        h.append("Subject: ");
        h.append(self.subject.as_str());
        h.append("\r\n");
        match &self.date {
            Some(date) => {
                h.append("Date: ");
                h.append(date.as_str());
                h.append("\r\n");
            },
            None => {},
        }
        h.append("MIME-Version: 1.0\r\n");
        h.append("Content-Type: text/plain; charset=UTF-8\r\n");
        match &self.message_id {
            Some(id) => {
                h.append("Message-ID: <");
                h.append(id.as_str());
                h.append(">\r\n");
            },
            None => {},
        }
        h.append("X-Mailer: esp-idf-smtp/");
        h.append(MAILER_VERSION);
        h.append("\r\n");
        proof {
            assert(h@ =~= self.header_text());
        }
        h
    }

    /// The body as it goes on the wire.
    pub open spec fn body_text(&self) -> Seq<char> {
        wire_body(self.body@)
    }

    /// Format the body with RFC 5321 dot-stuffing and \r\n line endings.
    pub fn formatted_body(&self) -> (r: String)
        ensures
            r@ == self.body_text(),
    {
        let chars = chars_of(self.body.as_str());
        let mut out = String::new();
        let mut line: Vec<char> = Vec::new();
        let ghost mut done: Seq<Seq<char>> = seq![];
        for i in 0..chars.len()
            invariant
                chars@ == self.body@,
                split_lines(chars@.take(i as int)) == done.push(line@),
                out@ == wire_lines(done),
        {
            let c = chars[i];
            proof {
                assert(chars@.take(i + 1).drop_last() =~= chars@.take(i as int));
            }
            if c == '\n' {
                push_wire_line(&mut out, &line);
                proof {
                    let d2 = done.push(line@);
                    assert(d2.drop_last() =~= done);
                    done = d2;
                    assert(done.push(seq![]).drop_last() =~= done);
                }
                line = Vec::new();
                proof {
                    assert(split_lines(chars@.take(i + 1)) =~= done.push(line@));
                }
            } else {
                line.push(c);
                proof {
                    assert(split_lines(chars@.take(i + 1)) =~= done.push(line@));
                }
            }
        }
        push_wire_line(&mut out, &line);
        proof {
            assert(chars@.take(chars@.len() as int) =~= chars@);
            assert(done.push(line@).drop_last() =~= done);
        }
        out
    }
}

/// What a builder holds so far.
pub struct Draft {
    pub from: Option<AddressView>,
    pub to: Seq<AddressView>,
    pub cc: Seq<AddressView>,
    pub bcc: Seq<AddressView>,
    pub subject: Option<Seq<char>>,
    pub body: Option<Seq<char>>,
    pub message_id: Option<Seq<char>>,
    pub date: Option<Seq<char>>,
}

/// Builder for composing emails.
#[derive(Debug)]
pub struct EmailBuilder {
    from: Option<Address>,
    to: Vec<Address>,
    cc: Vec<Address>,
    bcc: Vec<Address>,
    subject: Option<String>,
    body: Option<String>,
    message_id: Option<String>,
    date: Option<String>,
}

impl View for EmailBuilder {
    type V = Draft;

    closed spec fn view(&self) -> Draft {
        Draft {
            from: self.from.deep_view(),
            to: self.to.deep_view(),
            cc: self.cc.deep_view(),
            bcc: self.bcc.deep_view(),
            subject: self.subject.deep_view(),
            body: self.body.deep_view(),
            message_id: self.message_id.deep_view(),
            date: self.date.deep_view(),
        }
    }
}

impl Default for EmailBuilder {
    fn default() -> (r: Self)
        ensures
            r@ == EmailBuilder::empty_draft(),
    {
        let r = EmailBuilder {
            from: None,
            to: Vec::new(),
            cc: Vec::new(),
            bcc: Vec::new(),
            subject: None,
            body: None,
            message_id: None,
            date: None,
        };
        proof {
            assert(r@.to =~= Seq::<AddressView>::empty());
            assert(r@.cc =~= Seq::<AddressView>::empty());
            assert(r@.bcc =~= Seq::<AddressView>::empty());
        }
        r
    }
}

/// Why a draft cannot be built, if it cannot: the first missing field among
/// sender, To recipients, subject and body.
pub open spec fn build_error(d: Draft) -> Option<Seq<char>> {
    if d.from is None {
        Some("from address is required"@)
    } else if d.to.len() == 0 {
        Some("at least one To recipient is required"@)
    } else if d.subject is None {
        Some("subject is required"@)
    } else if d.body is None {
        Some("body is required"@)
    } else {
        None
    }
}

/// The address that `Address::new` makes of an email string.
pub open spec fn plain_address(email: Seq<char>) -> AddressView {
    AddressView { email, name: None }
}

impl EmailBuilder {
    /// A draft with nothing set.
    pub open spec fn empty_draft() -> Draft {
        Draft {
            from: None,
            to: seq![],
            cc: seq![],
            bcc: seq![],
            subject: None,
            body: None,
            message_id: None,
            date: None,
        }
    }

    /// Set the sender address.
    pub fn from(self, email: &str) -> (r: Self)
        ensures
            r@ == (Draft { from: Some(plain_address(email@)), ..self@ }),
    {
        let mut b = self;
        b.from = Some(Address::new(email));
        b
    }

    /// Set the sender with a display name.
    pub fn from_named(self, name: &str, email: &str) -> (r: Self)
        ensures
            r@ == (Draft { from: Some(AddressView { email: email@, name: Some(name@) }), ..self@ }),
    {
        let mut b = self;
        b.from = Some(Address::with_name(name, email));
        b
    }

    /// Add a To recipient.
    pub fn to(self, email: &str) -> (r: Self)
        ensures
            r@ == (Draft { to: self@.to.push(plain_address(email@)), ..self@ }),
    {
        let mut b = self;
        b.to.push(Address::new(email));
        proof {
            assert(b@.to =~= self@.to.push(plain_address(email@)));
        }
        b
    }

    /// Add a CC recipient.
    pub fn cc(self, email: &str) -> (r: Self)
        ensures
            r@ == (Draft { cc: self@.cc.push(plain_address(email@)), ..self@ }),
    {
        let mut b = self;
        b.cc.push(Address::new(email));
        proof {
            assert(b@.cc =~= self@.cc.push(plain_address(email@)));
        }
        b
    }

    /// Add a BCC recipient.
    pub fn bcc(self, email: &str) -> (r: Self)
        ensures
            r@ == (Draft { bcc: self@.bcc.push(plain_address(email@)), ..self@ }),
    {
        let mut b = self;
        b.bcc.push(Address::new(email));
        proof {
            assert(b@.bcc =~= self@.bcc.push(plain_address(email@)));
        }
        b
    }

    /// Set the subject line.
    pub fn subject(self, subject: &str) -> (r: Self)
        ensures
            r@ == (Draft { subject: Some(subject@), ..self@ }),
    {
        let mut b = self;
        b.subject = Some(subject.to_owned());
        b
    }

    /// Set the plain text body.
    pub fn body(self, body: &str) -> (r: Self)
        ensures
            r@ == (Draft { body: Some(body@), ..self@ }),
    {
        let mut b = self;
        b.body = Some(body.to_owned());
        b
    }

    /// Set a custom Message-ID.
    pub fn message_id(self, id: &str) -> (r: Self)
        ensures
            r@ == (Draft { message_id: Some(id@), ..self@ }),
    {
        let mut b = self;
        b.message_id = Some(id.to_owned());
        b
    }

    /// Set the Date header value (RFC 2822 format, e.g. "Fri, 28 Mar 2026 12:00:00 +0000").
    /// If not set, no Date header is emitted.
    pub fn date(self, date: &str) -> (r: Self)
        ensures
            r@ == (Draft { date: Some(date@), ..self@ }),
    {
        let mut b = self;
        b.date = Some(date.to_owned());
        b
    }

    /// Build the email, validating required fields.
    ///
    /// Fails with [`SmtpError::InvalidEmail`] if any required field (`from`,
    /// `to`, `subject`, `body`) is missing.
    pub fn build(self) -> (r: Result<Email, SmtpError>)
        ensures
            match build_error(self@) {
                Some(m) => r matches Err(SmtpError::InvalidEmail { message }) && message@ == m,
                None => r matches Ok(e) && {
                    &&& self@.from == Some(e.from@)
                    &&& self@.to == e.to.deep_view()
                    &&& self@.cc == e.cc.deep_view()
                    &&& self@.bcc == e.bcc.deep_view()
                    &&& self@.subject == Some(e.subject@)
                    &&& self@.body == Some(e.body@)
                    &&& self@.message_id == e.message_id.deep_view()
                    &&& self@.date == e.date.deep_view()
                },
            },
    {
        let from = match self.from {
            Some(a) => a,
            None => {
                return Err(SmtpError::InvalidEmail { message: "from address is required".to_owned() });
            },
        };
        if self.to.len() == 0 {
            return Err(SmtpError::InvalidEmail { message: "at least one To recipient is required".to_owned() });
        }
        let subject = match self.subject {
            Some(s) => s,
            None => {
                return Err(SmtpError::InvalidEmail { message: "subject is required".to_owned() });
            },
        };
        let body = match self.body {
            Some(b) => b,
            None => {
                return Err(SmtpError::InvalidEmail { message: "body is required".to_owned() });
            },
        };
        Ok(Email {
            from,
            to: self.to,
            cc: self.cc,
            bcc: self.bcc,
            subject,
            body,
            message_id: self.message_id,
            date: self.date,
        })
    }
}

/// BCC recipients receive the message but no header names them: the
/// envelope lists them after the To and Cc recipients, and the header block
/// is the same whoever they are.
pub proof fn law_bcc_hidden(e1: Email, e2: Email)
    requires
        e1.from@ == e2.from@,
        e1.to.deep_view() == e2.to.deep_view(),
        e1.cc.deep_view() == e2.cc.deep_view(),
        e1.subject@ == e2.subject@,
        e1.date.deep_view() == e2.date.deep_view(),
        e1.message_id.deep_view() == e2.message_id.deep_view(),
    ensures
        e1.header_text() == e2.header_text(),
        forall|i: int| 0 <= i < e1.bcc@.len() ==> #[trigger] e1.recipients()[e1.to@.len() + e1.cc@.len() + i] == e1.bcc@[i],
{
}

/// Every line-feed is preceded by a carriage return.
pub open spec fn crlf_only(s: Seq<char>) -> bool {
    forall|i: int| 0 <= i < s.len() && #[trigger] s[i] == '\n' ==> i > 0 && s[i - 1] == '\r'
}

proof fn lemma_split_lines_no_newline(s: Seq<char>)
    ensures
        forall|k: int, i: int| 0 <= k < split_lines(s).len() && 0 <= i < split_lines(s)[k].len()
            ==> split_lines(s)[k][i] != '\n',
    decreases s.len(),
{
    if s.len() > 0 {
        lemma_split_lines_no_newline(s.drop_last());
        lemma_split_lines_nonempty(s.drop_last());
        let p = split_lines(s.drop_last());
        if s.last() != '\n' {
            let q = p.update(p.len() - 1, p.last().push(s.last()));
            assert forall|k: int, i: int| 0 <= k < q.len() && 0 <= i < q[k].len() implies q[k][i] != '\n' by {
                if k == p.len() - 1 && i == p.last().len() {
                } else if k == p.len() - 1 {
                    assert(q[k][i] == p[k][i]);
                }
            }
        } else {
            let q = p.push(seq![]);
            assert forall|k: int, i: int| 0 <= k < q.len() && 0 <= i < q[k].len() implies q[k][i] != '\n' by {
                assert(k < p.len());
                assert(q[k] == p[k]);
            }
        }
    }
}

/// The wire form of a line: its text, then CRLF; the text holds no line-feed
/// and, when it starts with `.`, is at least `..`.
proof fn lemma_wire_line_shape(l: Seq<char>)
    requires
        forall|i: int| 0 <= i < l.len() ==> l[i] != '\n',
    ensures
        ({
            let w = wire_line(l);
            let t = dot_stuff(strip_cr(l));
            &&& w == t + seq!['\r', '\n']
            &&& forall|i: int| 0 <= i < t.len() ==> t[i] != '\n'
            &&& t.len() > 0 && t[0] == '.' ==> t.len() >= 2 && t[1] == '.'
        }),
{
    let c = strip_cr(l);
    assert forall|i: int| 0 <= i < c.len() implies c[i] != '\n' by {
        assert(c[i] == l[i]);
    }
    let t = dot_stuff(c);
    assert forall|i: int| 0 <= i < t.len() implies t[i] != '\n' by {
        if c.len() > 0 && c[0] == '.' {
            if i > 0 {
                assert(t[i] == c[i - 1]);
            }
        }
    }
}

proof fn lemma_wire_lines_crlf(ls: Seq<Seq<char>>)
    requires
        forall|k: int, i: int| 0 <= k < ls.len() && 0 <= i < ls[k].len() ==> ls[k][i] != '\n',
    ensures
        crlf_only(wire_lines(ls)),
    decreases ls.len(),
{
    if ls.len() > 0 {
        let p = ls.drop_last();
        assert forall|k: int, i: int| 0 <= k < p.len() && 0 <= i < p[k].len() implies p[k][i] != '\n' by {
            assert(p[k] == ls[k]);
        }
        lemma_wire_lines_crlf(p);
        let l = ls.last();
        assert forall|i: int| 0 <= i < l.len() implies l[i] != '\n' by {
            assert(l == ls[ls.len() - 1]);
        }
        lemma_wire_line_shape(l);
        let a = wire_lines(p);
        let w = wire_line(l);
        let t = dot_stuff(strip_cr(l));
        let x = a + w;
        assert forall|i: int| 0 <= i < x.len() && #[trigger] x[i] == '\n' implies i > 0 && x[i - 1] == '\r' by {
            if i < a.len() {
                assert(x[i] == a[i]);
                assert(x[i - 1] == a[i - 1]);
            } else if i - a.len() < t.len() {
                assert(x[i] == t[i - a.len()]);
            } else if i - a.len() == t.len() {
                assert(x[i] == '\r');
            } else {
                assert(x[i - 1] == w[t.len() as int]);
            }
        }
    }
}

/// The body goes on the wire with CRLF line endings: every line-feed in it
/// follows a carriage return.
pub proof fn law_body_crlf(body: Seq<char>)
    ensures
        crlf_only(wire_body(body)),
{
    lemma_split_lines_no_newline(body);
    lemma_wire_lines_crlf(split_lines(body));
}

/// A text as it follows a CRLF.
pub open spec fn after_crlf(s: Seq<char>) -> Seq<char> {
    seq!['\r', '\n'] + s
}

/// The end-of-data sequence CRLF `.` CRLF at position `i`.
pub open spec fn terminator_at(t: Seq<char>, i: int) -> bool {
    &&& 0 <= i
    &&& i + 5 <= t.len()
    &&& t[i] == '\r'
    &&& t[i + 1] == '\n'
    &&& t[i + 2] == '.'
    &&& t[i + 3] == '\r'
    &&& t[i + 4] == '\n'
}

proof fn lemma_wire_lines_no_terminator(ls: Seq<Seq<char>>)
    requires
        forall|k: int, i: int| 0 <= k < ls.len() && 0 <= i < ls[k].len() ==> ls[k][i] != '\n',
    ensures
        ({
            &&& after_crlf(wire_lines(ls))[after_crlf(wire_lines(ls)).len() - 2] == '\r'
            &&& after_crlf(wire_lines(ls))[after_crlf(wire_lines(ls)).len() - 1] == '\n'
            &&& forall|i: int| !#[trigger] terminator_at(after_crlf(wire_lines(ls)), i)
        }),
    decreases ls.len(),
{
    if ls.len() == 0 {
        let x = after_crlf(wire_lines(ls));
        assert(x =~= seq!['\r', '\n']);
    } else {
        let p = ls.drop_last();
        assert forall|k: int, i: int| 0 <= k < p.len() && 0 <= i < p[k].len() implies p[k][i] != '\n' by {
            assert(p[k] == ls[k]);
        }
        lemma_wire_lines_no_terminator(p);
        let l = ls.last();
        assert forall|i: int| 0 <= i < l.len() implies l[i] != '\n' by {
            assert(l == ls[ls.len() - 1]);
        }
        lemma_wire_line_shape(l);
        let a = after_crlf(wire_lines(p));
        let w = wire_line(l);
        let t = dot_stuff(strip_cr(l));
        let x = after_crlf(wire_lines(ls));
        assert(x =~= a + w);
        let n = a.len() as int;
        assert forall|i: int| !#[trigger] terminator_at(x, i) by {
            if terminator_at(x, i) {
                if i + 5 <= n {
                    assert(terminator_at(a, i));
                } else if i >= n {
                    // two line-feeds would lie inside one wire line
                    assert(x[i + 1] == w[i + 1 - n]);
                    assert(i + 1 - n < t.len() || i + 1 - n == t.len() + 1);
                    if i + 1 - n < t.len() {
                        assert(t[i + 1 - n] == '\n');
                    } else {
                        assert(x[i + 4] == w[i + 4 - n]);
                    }
                } else if i == n - 1 {
                    assert(x[i] == a[n - 1]);
                } else if i == n - 2 {
                    assert(x[i + 2] == w[0]);
                    assert(x[i + 3] == w[1]);
                    assert(x[i + 4] == w[2]);
                    if t.len() >= 3 {
                        assert(w[2] == t[2]);
                    } else if t.len() == 2 {
                        assert(w[1] == t[1]);
                    } else if t.len() == 1 {
                        assert(w[0] == t[0]);
                    } else {
                        assert(w[0] == '\r');
                    }
                } else if i == n - 3 {
                    assert(x[i + 2] == a[n - 1]);
                } else {
                    assert(i == n - 4);
                    assert(x[i + 3] == a[n - 1]);
                }
            }
        }
    }
}

/// Dot-stuffing keeps the end-of-data sequence CRLF `.` CRLF out of the
/// body: after the CRLF that ends the headers' blank line, it never appears
/// before the engine appends it.
pub proof fn law_body_never_ends_data(body: Seq<char>)
    ensures
        forall|i: int| !#[trigger] terminator_at(after_crlf(wire_body(body)), i),
{
    lemma_split_lines_no_newline(body);
    lemma_wire_lines_no_terminator(split_lines(body));
}

/// A wire line with the dot that stuffing put before it taken off again.
pub open spec fn unstuff(l: Seq<char>) -> Seq<char> {
    if l.len() > 0 && l[0] == '.' {
        l.drop_first()
    } else {
        l
    }
}

/// The body lines read back off the wire: cut at CRLF, each with a stuffed
/// dot taken off.
pub open spec fn read_body(wire: Seq<char>) -> Seq<Seq<char>> {
    crlf_lines(wire).map_values(|l: Seq<char>| unstuff(l))
}

/// Wire lines from the front: the first line's wire form, then the others'.
proof fn lemma_wire_lines_front(ls: Seq<Seq<char>>)
    requires
        ls.len() > 0,
    ensures
        wire_lines(ls) == wire_line(ls[0]) + wire_lines(ls.drop_first()),
    decreases ls.len(),
{
    if ls.len() == 1 {
        assert(ls.drop_last() =~= Seq::<Seq<char>>::empty());
        assert(ls.drop_first() =~= Seq::<Seq<char>>::empty());
        assert(wire_lines(ls.drop_last()) =~= Seq::<char>::empty());
        assert(ls.last() == ls[0]);
        assert(wire_lines(ls) =~= wire_line(ls[0]));
        assert(wire_line(ls[0]) + wire_lines(ls.drop_first()) =~= wire_line(ls[0]));
    } else {
        lemma_wire_lines_front(ls.drop_last());
        assert(ls.drop_last().drop_first() =~= ls.drop_first().drop_last());
        assert(ls.drop_last()[0] == ls[0]);
        assert(ls.drop_first().last() == ls.last());
        assert(wire_lines(ls) =~= wire_line(ls[0]) + wire_lines(ls.drop_first()));
    }
}

/// Cutting the wire form of lines without line-feeds at CRLF gives each
/// line's stuffed text.
proof fn lemma_crlf_wire_lines(ls: Seq<Seq<char>>)
    requires
        forall|k: int, i: int| 0 <= k < ls.len() && 0 <= i < ls[k].len() ==> ls[k][i] != '\n',
    ensures
        crlf_lines(wire_lines(ls)) == ls.map_values(|l: Seq<char>| dot_stuff(strip_cr(l))),
    decreases ls.len(),
{
    if ls.len() == 0 {
        assert(wire_lines(ls) =~= Seq::<char>::empty());
        assert(ls.map_values(|l: Seq<char>| dot_stuff(strip_cr(l))) =~= Seq::<Seq<char>>::empty());
    } else {
        let rest = ls.drop_first();
        assert forall|k: int, i: int| 0 <= k < rest.len() && 0 <= i < rest[k].len() implies rest[k][i] != '\n' by {
            assert(rest[k] == ls[k + 1]);
        }
        lemma_crlf_wire_lines(rest);
        lemma_wire_lines_front(ls);
        assert forall|i: int| 0 <= i < ls[0].len() implies ls[0][i] != '\n' by {
            assert(ls[0][i] == ls[0][i]);
        }
        lemma_wire_line_shape(ls[0]);
        let t = dot_stuff(strip_cr(ls[0]));
        lemma_first_line(t, wire_lines(rest));
        assert(wire_line(ls[0]) + wire_lines(rest) == t + seq!['\r', '\n'] + wire_lines(rest));
        assert(ls.map_values(|l: Seq<char>| dot_stuff(strip_cr(l)))
            =~= seq![t] + rest.map_values(|l: Seq<char>| dot_stuff(strip_cr(l))));
    }
}

/// Reading the body back off the wire (cutting at CRLF and taking each
/// stuffed dot off again) gives the body's lines, each without a carriage
/// return that ended it.
pub proof fn law_body_roundtrip(body: Seq<char>)
    ensures
        read_body(wire_body(body)) == split_lines(body).map_values(|l: Seq<char>| strip_cr(l)),
{
    let ls = split_lines(body);
    lemma_split_lines_no_newline(body);
    lemma_crlf_wire_lines(ls);
    assert forall|k: int| 0 <= k < ls.len() implies unstuff(dot_stuff(strip_cr(#[trigger] ls[k]))) == strip_cr(ls[k]) by {
        let s = strip_cr(ls[k]);
        if s.len() > 0 && s[0] == '.' {
            assert((seq!['.'] + s).drop_first() =~= s);
        }
    }
    assert(read_body(wire_body(body)) =~= ls.map_values(|l: Seq<char>| strip_cr(l)));
}


/// A text without line-feeds.
pub open spec fn single_line(s: Seq<char>) -> bool {
    forall|i: int| 0 <= i < s.len() ==> s[i] != '\n'
}

/// An address whose email and display name hold no line-feed.
pub open spec fn single_line_address(a: AddressView) -> bool {
    &&& single_line(a.email)
    &&& a.name matches Some(n) ==> single_line(n)
}

/// Every header field of the message holds a single line: the addresses
/// in From, To and Cc, the subject, the date and the message id.
pub open spec fn single_line_fields(e: Email) -> bool {
    &&& single_line_address(e.from@)
    &&& forall|i: int| 0 <= i < e.to@.len() ==> single_line_address(#[trigger] e.to.deep_view()[i])
    &&& forall|i: int| 0 <= i < e.cc@.len() ==> single_line_address(#[trigger] e.cc.deep_view()[i])
    &&& single_line(e.subject@)
    &&& e.date matches Some(d) ==> single_line(d@)
    &&& e.message_id matches Some(m) ==> single_line(m@)
}

/// A header line that starts with `Date:`.
pub open spec fn date_line(l: Seq<char>) -> bool {
    starts_with(l, "Date:"@)
}

/// Lines, each followed by CRLF.
spec fn crlf_join(ls: Seq<Seq<char>>) -> Seq<char>
    decreases ls.len(),
{
    if ls.len() == 0 {
        seq![]
    } else {
        ls[0] + seq!['\r', '\n'] + crlf_join(ls.drop_first())
    }
}

spec fn all_single(ls: Seq<Seq<char>>) -> bool {
    forall|k: int| 0 <= k < ls.len() ==> single_line(#[trigger] ls[k])
}

spec fn none_dated(ls: Seq<Seq<char>>) -> bool {
    forall|k: int| 0 <= k < ls.len() ==> !date_line(#[trigger] ls[k])
}

proof fn lemma_crlf_join_lines(ls: Seq<Seq<char>>)
    requires
        all_single(ls),
    ensures
        crlf_lines(crlf_join(ls)) == ls,
    decreases ls.len(),
{
    if ls.len() == 0 {
        assert(crlf_lines(crlf_join(ls)) =~= ls);
    } else {
        let rest = ls.drop_first();
        assert forall|k: int| 0 <= k < rest.len() implies single_line(#[trigger] rest[k]) by {
            assert(rest[k] == ls[k + 1]);
        }
        lemma_crlf_join_lines(rest);
        assert(single_line(ls[0]));
        lemma_first_line(ls[0], crlf_join(rest));
        assert(seq![ls[0]] + rest =~= ls);
    }
}

proof fn lemma_crlf_join_concat(a: Seq<Seq<char>>, b: Seq<Seq<char>>)
    ensures
        crlf_join(a + b) == crlf_join(a) + crlf_join(b),
    decreases a.len(),
{
    if a.len() == 0 {
        assert(a + b =~= b);
        assert(crlf_join(a) + crlf_join(b) =~= crlf_join(b));
    } else {
        lemma_crlf_join_concat(a.drop_first(), b);
        assert((a + b).drop_first() =~= a.drop_first() + b);
        assert((a + b)[0] == a[0]);
        assert(crlf_join(a + b) =~= crlf_join(a) + crlf_join(b));
    }
}

proof fn lemma_crlf_join_one(x: Seq<char>)
    ensures
        crlf_join(seq![x]) == x + "\r\n"@,
{
    reveal_strlit("\r\n");
    assert(seq![x].drop_first() =~= Seq::<Seq<char>>::empty());
    assert(seq![x][0] == x);
    assert(crlf_join(Seq::<Seq<char>>::empty()) =~= Seq::<char>::empty());
    assert(crlf_join(seq![x]) =~= x + "\r\n"@);
}

proof fn lemma_join_single(items: Seq<Seq<char>>, sep: Seq<char>)
    requires
        all_single(items),
        single_line(sep),
    ensures
        single_line(join(items, sep)),
    decreases items.len(),
{
    if items.len() > 1 {
        let p = items.drop_last();
        assert forall|k: int| 0 <= k < p.len() implies single_line(#[trigger] p[k]) by {
            assert(p[k] == items[k]);
        }
        lemma_join_single(p, sep);
        assert(single_line(items.last()));
        let j = join(p, sep) + sep + items.last();
        assert forall|i: int| 0 <= i < j.len() implies j[i] != '\n' by {
            if i < join(p, sep).len() {
            } else if i < join(p, sep).len() + sep.len() {
                assert(j[i] == sep[i - join(p, sep).len()]);
            } else {
                assert(j[i] == items.last()[i - join(p, sep).len() - sep.len()]);
            }
        }
    } else if items.len() == 1 {
        assert(single_line(items[0]));
    }
}

proof fn lemma_concat_single(a: Seq<char>, b: Seq<char>)
    requires
        single_line(a),
        single_line(b),
    ensures
        single_line(a + b),
{
    assert forall|i: int| 0 <= i < (a + b).len() implies (a + b)[i] != '\n' by {
        if i >= a.len() {
            assert((a + b)[i] == b[i - a.len()]);
        }
    }
}

proof fn lemma_address_single(a: AddressView)
    requires
        single_line_address(a),
    ensures
        single_line(a.header_text()),
{
    match a.name {
        None => {},
        Some(n) => {
            lemma_concat_single(seq!['"'], n);
            lemma_concat_single(seq!['"'] + n, seq!['"', ' ', '<']);
            lemma_concat_single(seq!['"'] + n + seq!['"', ' ', '<'], a.email);
            lemma_concat_single(seq!['"'] + n + seq!['"', ' ', '<'] + a.email, seq!['>']);
        },
    }
}

proof fn lemma_list_single(addrs: Seq<AddressView>)
    requires
        forall|i: int| 0 <= i < addrs.len() ==> single_line_address(#[trigger] addrs[i]),
    ensures
        single_line(address_list(addrs)),
{
    let items = addrs.map_values(|a: AddressView| a.header_text());
    assert forall|k: int| 0 <= k < items.len() implies single_line(#[trigger] items[k]) by {
        lemma_address_single(addrs[k]);
    }
    lemma_join_single(items, seq![',', ' ']);
}

/// A line that starts with a literal whose first character is not `D` is
/// no Date line.
proof fn lemma_not_date(lit: Seq<char>, rest: Seq<char>)
    requires
        lit.len() > 0,
        lit[0] != 'D',
    ensures
        !date_line(lit + rest),
{
    reveal_strlit("Date:");
    if date_line(lit + rest) {
        assert((lit + rest).subrange(0, 5)[0] == (lit + rest)[0]);
    }
}

/// The header lines before the Date line.
spec fn lines_before_date(e: Email) -> Seq<Seq<char>> {
    seq!["From: "@ + e.from@.header_text(), "To: "@ + address_list(e.to.deep_view())]
        + (if e.cc.deep_view().len() > 0 { seq!["Cc: "@ + address_list(e.cc.deep_view())] } else { seq![] })
        + seq!["Subject: "@ + e.subject@]
}

/// The Date line, where a date is set.
spec fn date_lines(e: Email) -> Seq<Seq<char>> {
    match e.date {
        Some(d) => seq!["Date: "@ + d@],
        None => seq![],
    }
}

/// The header lines after the Date line.
spec fn lines_after_date(e: Email) -> Seq<Seq<char>> {
    seq!["MIME-Version: 1.0"@, "Content-Type: text/plain; charset=UTF-8"@]
        + (match e.message_id { Some(m) => seq!["Message-ID: <"@ + m@ + ">"@], None => seq![] })
        + seq!["X-Mailer: esp-idf-smtp/"@ + MAILER_VERSION@]
}

proof fn lemma_before_date_text(e: Email)
    ensures
        crlf_join(lines_before_date(e)) == "From: "@ + e.from@.header_text() + "\r\n"@
            + "To: "@ + address_list(e.to.deep_view()) + "\r\n"@
            + (if e.cc.deep_view().len() > 0 { "Cc: "@ + address_list(e.cc.deep_view()) + "\r\n"@ } else { seq![] })
            + "Subject: "@ + e.subject@ + "\r\n"@,
{
    let l_from = "From: "@ + e.from@.header_text();
    let l_to = "To: "@ + address_list(e.to.deep_view());
    let l_cc = "Cc: "@ + address_list(e.cc.deep_view());
    let l_subject = "Subject: "@ + e.subject@;
    let cc_part: Seq<Seq<char>> = if e.cc.deep_view().len() > 0 { seq![l_cc] } else { seq![] };
    lemma_crlf_join_one(l_from);
    lemma_crlf_join_one(l_to);
    lemma_crlf_join_one(l_cc);
    lemma_crlf_join_one(l_subject);
    lemma_crlf_join_concat(seq![l_from], seq![l_to]);
    assert(seq![l_from] + seq![l_to] =~= seq![l_from, l_to]);
    lemma_crlf_join_concat(seq![l_from, l_to], cc_part);
    lemma_crlf_join_concat(seq![l_from, l_to] + cc_part, seq![l_subject]);
    if e.cc.deep_view().len() == 0 {
        assert(crlf_join(cc_part) =~= Seq::<char>::empty());
    }
    assert(crlf_join(lines_before_date(e)) =~= "From: "@ + e.from@.header_text() + "\r\n"@
        + "To: "@ + address_list(e.to.deep_view()) + "\r\n"@
        + (if e.cc.deep_view().len() > 0 { "Cc: "@ + address_list(e.cc.deep_view()) + "\r\n"@ } else { seq![] })
        + "Subject: "@ + e.subject@ + "\r\n"@);
}

proof fn lemma_after_date_text(e: Email)
    ensures
        crlf_join(lines_after_date(e)) == "MIME-Version: 1.0\r\n"@ + "Content-Type: text/plain; charset=UTF-8\r\n"@
            + (match e.message_id { Some(m) => "Message-ID: <"@ + m@ + ">\r\n"@, None => seq![] })
            + "X-Mailer: esp-idf-smtp/"@ + MAILER_VERSION@ + "\r\n"@,
{
    reveal_strlit("MIME-Version: 1.0");
    reveal_strlit("MIME-Version: 1.0\r\n");
    reveal_strlit("Content-Type: text/plain; charset=UTF-8");
    reveal_strlit("Content-Type: text/plain; charset=UTF-8\r\n");
    reveal_strlit(">");
    reveal_strlit(">\r\n");
    reveal_strlit("\r\n");
    let l_mime = "MIME-Version: 1.0"@;
    let l_type = "Content-Type: text/plain; charset=UTF-8"@;
    let l_mailer = "X-Mailer: esp-idf-smtp/"@ + MAILER_VERSION@;
    let id_part: Seq<Seq<char>> = match e.message_id { Some(m) => seq!["Message-ID: <"@ + m@ + ">"@], None => seq![] };
    lemma_crlf_join_one(l_mime);
    lemma_crlf_join_one(l_type);
    lemma_crlf_join_one(l_mailer);
    lemma_crlf_join_concat(seq![l_mime], seq![l_type]);
    assert(seq![l_mime] + seq![l_type] =~= seq![l_mime, l_type]);
    lemma_crlf_join_concat(seq![l_mime, l_type], id_part);
    lemma_crlf_join_concat(seq![l_mime, l_type] + id_part, seq![l_mailer]);
    match e.message_id {
        Some(m) => {
            lemma_crlf_join_one("Message-ID: <"@ + m@ + ">"@);
            assert("Message-ID: <"@ + m@ + ">"@ + "\r\n"@ =~= "Message-ID: <"@ + m@ + ">\r\n"@);
        },
        None => assert(crlf_join(id_part) =~= Seq::<char>::empty()),
    }
    assert(l_mime + "\r\n"@ =~= "MIME-Version: 1.0\r\n"@);
    assert(l_type + "\r\n"@ =~= "Content-Type: text/plain; charset=UTF-8\r\n"@);
    assert(crlf_join(lines_after_date(e)) =~= "MIME-Version: 1.0\r\n"@ + "Content-Type: text/plain; charset=UTF-8\r\n"@
        + (match e.message_id { Some(m) => "Message-ID: <"@ + m@ + ">\r\n"@, None => seq![] })
        + "X-Mailer: esp-idf-smtp/"@ + MAILER_VERSION@ + "\r\n"@);
}

/// The header block is its lines, each followed by CRLF.
proof fn lemma_header_lines(e: Email)
    ensures
        crlf_join(lines_before_date(e) + date_lines(e) + lines_after_date(e)) == e.header_text(),
{
    lemma_before_date_text(e);
    lemma_after_date_text(e);
    match e.date {
        Some(d) => lemma_crlf_join_one("Date: "@ + d@),
        None => assert(crlf_join(date_lines(e)) =~= Seq::<char>::empty()),
    }
    lemma_crlf_join_concat(lines_before_date(e), date_lines(e));
    lemma_crlf_join_concat(lines_before_date(e) + date_lines(e), lines_after_date(e));
    assert(crlf_join(lines_before_date(e) + date_lines(e) + lines_after_date(e)) =~= e.header_text());
}

proof fn lemma_header_lines_single(e: Email)
    requires
        single_line_fields(e),
    ensures
        all_single(lines_before_date(e)),
        all_single(date_lines(e)),
        all_single(lines_after_date(e)),
{
    reveal_strlit("From: ");
    reveal_strlit("To: ");
    reveal_strlit("Cc: ");
    reveal_strlit("Subject: ");
    reveal_strlit("Date: ");
    reveal_strlit("MIME-Version: 1.0");
    reveal_strlit("Content-Type: text/plain; charset=UTF-8");
    reveal_strlit("Message-ID: <");
    reveal_strlit(">");
    reveal_strlit("X-Mailer: esp-idf-smtp/");
    reveal_strlit("0.4.1");
    let to = e.to.deep_view();
    let cc = e.cc.deep_view();
    lemma_address_single(e.from@);
    lemma_concat_single("From: "@, e.from@.header_text());
    assert forall|i: int| 0 <= i < to.len() implies single_line_address(#[trigger] to[i]) by {
        assert(single_line_address(e.to.deep_view()[i]));
    }
    lemma_list_single(to);
    lemma_concat_single("To: "@, address_list(to));
    if cc.len() > 0 {
        assert forall|i: int| 0 <= i < cc.len() implies single_line_address(#[trigger] cc[i]) by {
            assert(single_line_address(e.cc.deep_view()[i]));
        }
        lemma_list_single(cc);
        lemma_concat_single("Cc: "@, address_list(cc));
    }
    lemma_concat_single("Subject: "@, e.subject@);
    match e.date {
        Some(d) => lemma_concat_single("Date: "@, d@),
        None => {},
    }
    match e.message_id {
        Some(m) => {
            lemma_concat_single("Message-ID: <"@, m@);
            lemma_concat_single("Message-ID: <"@ + m@, ">"@);
        },
        None => {},
    }
    lemma_concat_single("X-Mailer: esp-idf-smtp/"@, MAILER_VERSION@);
    let pre = lines_before_date(e);
    assert forall|k: int| 0 <= k < pre.len() implies single_line(#[trigger] pre[k]) by {
        if k >= 2 && k < pre.len() - 1 {
            assert(pre[k] == "Cc: "@ + address_list(cc));
        }
    }
    let post = lines_after_date(e);
    assert forall|k: int| 0 <= k < post.len() implies single_line(#[trigger] post[k]) by {
        if k >= 2 && k < post.len() - 1 {
            assert(e.message_id is Some);
        }
    }
}

proof fn lemma_header_lines_undated(e: Email)
    ensures
        none_dated(lines_before_date(e)),
        none_dated(lines_after_date(e)),
{
    reveal_strlit("From: ");
    reveal_strlit("To: ");
    reveal_strlit("Cc: ");
    reveal_strlit("Subject: ");
    reveal_strlit("MIME-Version: 1.0");
    reveal_strlit("Content-Type: text/plain; charset=UTF-8");
    reveal_strlit("Message-ID: <");
    reveal_strlit("X-Mailer: esp-idf-smtp/");
    lemma_not_date("From: "@, e.from@.header_text());
    lemma_not_date("To: "@, address_list(e.to.deep_view()));
    lemma_not_date("Cc: "@, address_list(e.cc.deep_view()));
    lemma_not_date("Subject: "@, e.subject@);
    lemma_not_date("MIME-Version: 1.0"@, seq![]);
    assert("MIME-Version: 1.0"@ + seq![] =~= "MIME-Version: 1.0"@);
    lemma_not_date("Content-Type: text/plain; charset=UTF-8"@, seq![]);
    assert("Content-Type: text/plain; charset=UTF-8"@ + seq![] =~= "Content-Type: text/plain; charset=UTF-8"@);
    match e.message_id {
        Some(m) => {
            lemma_not_date("Message-ID: <"@, m@ + ">"@);
            assert("Message-ID: <"@ + (m@ + ">"@) =~= "Message-ID: <"@ + m@ + ">"@);
        },
        None => {},
    }
    lemma_not_date("X-Mailer: esp-idf-smtp/"@, MAILER_VERSION@);
    let pre = lines_before_date(e);
    assert forall|k: int| 0 <= k < pre.len() implies !date_line(#[trigger] pre[k]) by {
        if k >= 2 && k < pre.len() - 1 {
            assert(pre[k] == "Cc: "@ + address_list(e.cc.deep_view()));
        }
    }
    let post = lines_after_date(e);
    assert forall|k: int| 0 <= k < post.len() implies !date_line(#[trigger] post[k]) by {
        if k >= 2 && k < post.len() - 1 {
            assert(e.message_id is Some);
        }
    }
}

/// The Date header follows the date: with no date set, no header line
/// starts with `Date:`; with a date set, exactly one does, and it is
/// `Date: ` and the date. (The lines are those of the header block cut at
/// CRLF; the message's fields hold no line-feed, else a field could itself
/// hold such a line.)
pub proof fn law_date_header(e: Email)
    requires
        single_line_fields(e),
    ensures
        e.date is None ==> forall|k: int|
            0 <= k < crlf_lines(e.header_text()).len() ==> !date_line(#[trigger] crlf_lines(e.header_text())[k]),
        e.date matches Some(d) ==> exists|k: int|
            0 <= k < crlf_lines(e.header_text()).len()
                && crlf_lines(e.header_text())[k] == "Date: "@ + d@
                && forall|j: int|
                    0 <= j < crlf_lines(e.header_text()).len() && j != k ==> !date_line(#[trigger] crlf_lines(e.header_text())[j]),
{
    let pre = lines_before_date(e);
    let mid = date_lines(e);
    let post = lines_after_date(e);
    let lines = pre + mid + post;
    lemma_header_lines(e);
    lemma_header_lines_single(e);
    lemma_header_lines_undated(e);
    assert forall|k: int| 0 <= k < lines.len() implies single_line(#[trigger] lines[k]) by {
        if k < pre.len() {
            assert(lines[k] == pre[k]);
        } else if k < pre.len() + mid.len() {
            assert(lines[k] == mid[k - pre.len()]);
        } else {
            assert(lines[k] == post[k - pre.len() - mid.len()]);
        }
    }
    lemma_crlf_join_lines(lines);
    let k1 = pre.len() + mid.len();
    match e.date {
        None => {
            assert forall|k: int| 0 <= k < lines.len() implies !date_line(#[trigger] lines[k]) by {
                if k < pre.len() {
                    assert(lines[k] == pre[k]);
                } else {
                    assert(lines[k] == post[k - k1]);
                }
            }
        },
        Some(d) => {
            let k = pre.len() as int;
            assert(lines[k] == "Date: "@ + d@);
            assert forall|j: int| 0 <= j < lines.len() && j != k implies !date_line(#[trigger] lines[j]) by {
                if j < pre.len() {
                    assert(lines[j] == pre[j]);
                } else {
                    assert(lines[j] == post[j - k1]);
                }
            }
        },
    }
}

} // verus!
