//! A scripted transport for exercising the engine without a network.

use vstd::prelude::*;
use std::collections::VecDeque;
use vstd::utf8::{decode_utf8, encode_utf8_decode_utf8, valid_utf8};
use crate::config::{TlsVerify, VerifyMode};
use crate::error::{io_error, IoKind};
use crate::response::utf8_str;
use crate::text::{chars_of, crlf_lines, lemma_next_crlf_bounds, lines_from, next_crlf};
use vstd::string::StrSliceExecFns;
use crate::transport::{Event, Peer, SmtpTransport};

verus! {

broadcast use vstd::utf8::group_utf8_lib;

/// Mock transport for host testing.
///
/// Records all commands written and returns scripted responses.
#[derive(Debug)]
pub struct MockTransport {
    /// Scripted responses to return on read(), in order.
    responses: VecDeque<Vec<u8>>,
    /// Current response being read from.
    current: Vec<u8>,
    /// Position in current response.
    pos: usize,
    /// All data written (commands sent).
    pub written: Vec<String>,
    /// Whether upgrade_tls was called.
    pub tls_upgraded: bool,
    /// TlsVerify passed to upgrade_tls.
    pub tls_verify_used: Option<TlsVerify>,
    /// If set, the next read will return this error.
    pub fail_on_read: bool,
    /// What happened on the connection, in order.
    happened: Vec<Logged>,
    /// The scripted responses as given.
    script: Vec<Vec<u8>>,
}

/// One thing that happened on the mock connection.
#[derive(Debug)]
enum Logged {
    Write(Vec<u8>, bool),
    Read(Vec<u8>, usize),
    ReadFailed,
    Upgrade(String, TlsVerify, bool),
}

impl Logged {
    spec fn event(&self) -> Event {
        match self {
            Logged::Write(b, ok) => Event::Write(b@, *ok),
            Logged::Read(b, cap) => Event::Read(b@, *cap as nat),
            Logged::ReadFailed => Event::ReadFailed,
            Logged::Upgrade(h, v, ok) => Event::Upgrade(h@, v@, *ok),
        }
    }
}

/// A copy of a certificate setting.
fn copy_verify(v: &TlsVerify) -> (r: TlsVerify)
    ensures
        r@ == v@,
{
    match v {
        TlsVerify::Verify => TlsVerify::Verify,
        TlsVerify::SkipVerify => TlsVerify::SkipVerify,
        TlsVerify::CustomCa(pem) => TlsVerify::CustomCa(copy_bytes(pem.as_slice())),
    }
}

/// A copy of some bytes.
fn copy_bytes(b: &[u8]) -> (r: Vec<u8>)
    ensures
        r@ == b@,
{
    let mut r: Vec<u8> = Vec::new();
    for i in 0..b.len()
        invariant
            r@ == b@.take(i as int),
    {
        r.push(b[i]);
        proof {
            assert(b@.take(i + 1) =~= b@.take(i as int).push(b@[i as int]));
        }
    }
    proof {
        assert(b@.take(b@.len() as int) =~= b@);
    }
    r
}

/// The lines of the texts written, each text cut at CRLF, in order.
pub open spec fn written_lines(ws: Seq<Seq<char>>) -> Seq<Seq<char>>
    decreases ws.len(),
{
    if ws.len() == 0 {
        seq![]
    } else {
        written_lines(ws.drop_last()) + crlf_lines(ws.last())
    }
}

/// What a mock shows: the scripted responses not yet started, what is left
/// of the one being read, the text of each write, whether the connection
/// was upgraded, and the certificate setting handed to the last upgrade.
pub struct MockState {
    pub queued: Seq<Seq<u8>>,
    pub unread: Seq<u8>,
    pub log: Seq<Seq<char>>,
    pub upgraded: bool,
    pub verify: Option<VerifyMode>,
}

/// What a new mock with this script shows.
pub open spec fn mock_start(script: Seq<Seq<u8>>) -> MockState {
    MockState { queued: script, unread: seq![], log: seq![], upgraded: false, verify: None }
}

/// The bytes a read hands out from: what is left of the current response,
/// or else the next scripted one.
pub open spec fn serving(s: MockState) -> Seq<u8> {
    if s.unread.len() > 0 {
        s.unread
    } else if s.queued.len() > 0 {
        s.queued[0]
    } else {
        seq![]
    }
}

/// What a mock shows after one more thing happened, or `None` where the mock
/// does not do that: a read hands out as much of the current response as
/// the buffer holds (fails only where reads are set to fail), every write
/// succeeds and adds its text where it is UTF-8, every upgrade succeeds.
pub open spec fn mock_step(s: MockState, e: Event, reads_fail: bool) -> Option<MockState> {
    match e {
        Event::Read(b, cap) => {
            let chunk = serving(s);
            let queued = if s.unread.len() == 0 && s.queued.len() > 0 { s.queued.drop_first() } else { s.queued };
            let n = if cap < chunk.len() { cap as int } else { chunk.len() as int };
            if b == chunk.take(n) {
                Some(MockState { queued, unread: chunk.skip(n), ..s })
            } else {
                None
            }
        },
        Event::ReadFailed => if reads_fail { Some(s) } else { None },
        Event::Write(b, ok) => if ok {
            Some(MockState { log: if valid_utf8(b) { s.log.push(decode_utf8(b)) } else { s.log }, ..s })
        } else {
            None
        },
        Event::Upgrade(_, v, ok) => if ok {
            Some(MockState { upgraded: true, verify: Some(v), ..s })
        } else {
            None
        },
    }
}

/// What a mock with this script shows after what happened, or `None` where
/// the mock does not do that.
pub open spec fn mock_replay(script: Seq<Seq<u8>>, events: Seq<Event>, reads_fail: bool) -> Option<MockState>
    decreases events.len(),
{
    if events.len() == 0 {
        Some(mock_start(script))
    } else {
        match mock_replay(script, events.drop_last(), reads_fail) {
            Some(s) => mock_step(s, events.last(), reads_fail),
            None => None,
        }
    }
}

/// Replaying one more thing that happened is one more step.
pub proof fn lemma_mock_replay_push(script: Seq<Seq<u8>>, events: Seq<Event>, e: Event, reads_fail: bool)
    ensures
        mock_replay(script, events.push(e), reads_fail) == match mock_replay(script, events, reads_fail) {
            Some(s) => mock_step(s, e, reads_fail),
            None => None,
        },
{
    assert(events.push(e).drop_last() =~= events);
}

/// Where a mock does what happened, it did each earlier part of it.
pub proof fn lemma_mock_replay_prefix(script: Seq<Seq<u8>>, events: Seq<Event>, k: int, reads_fail: bool)
    requires
        mock_replay(script, events, reads_fail) is Some,
        0 <= k <= events.len(),
    ensures
        mock_replay(script, events.take(k), reads_fail) is Some,
    decreases events.len() - k,
{
    if k < events.len() {
        lemma_mock_replay_prefix(script, events, k + 1, reads_fail);
        assert(events.take(k + 1).drop_last() =~= events.take(k));
    } else {
        assert(events.take(k) =~= events);
    }
}

/// The chunks of a list of strings, as bytes.
pub open spec fn scripted(responses: Seq<&str>) -> Seq<Seq<u8>> {
    responses.map_values(|s: &str| vstd::utf8::encode_utf8(s@))
}

impl MockTransport {
    /// The scripted responses not yet started.
    pub closed spec fn queued(&self) -> Seq<Seq<u8>> {
        self.responses@.map_values(|v: Vec<u8>| v@)
    }

    /// What is left of the response being read.
    pub closed spec fn unread(&self) -> Seq<u8> {
        if self.pos <= self.current@.len() {
            self.current@.subrange(self.pos as int, self.current@.len() as int)
        } else {
            seq![]
        }
    }

    /// The scripted responses as given.
    pub closed spec fn replies(&self) -> Seq<Seq<u8>> {
        self.script@.map_values(|v: Vec<u8>| v@)
    }

    /// What the mock shows.
    pub open spec fn state(&self) -> MockState {
        MockState {
            queued: self.queued(),
            unread: self.unread(),
            log: self.log(),
            upgraded: self.upgraded(),
            verify: self.verify_used(),
        }
    }

    /// The text of each write, in order: the field `written`.
    pub closed spec fn log(&self) -> Seq<Seq<char>> {
        self.written.deep_view()
    }

    /// Whether the connection was upgraded to TLS: the field `tls_upgraded`.
    pub closed spec fn upgraded(&self) -> bool {
        self.tls_upgraded
    }

    /// Whether reads fail: the field `fail_on_read`.
    pub closed spec fn failing(&self) -> bool {
        self.fail_on_read
    }

    /// The bytes the next read hands out from: what is left of the current
    /// response, or else the next scripted one.
    pub open spec fn next_chunk(&self) -> Seq<u8> {
        if self.unread().len() > 0 {
            self.unread()
        } else if self.queued().len() > 0 {
            self.queued()[0]
        } else {
            seq![]
        }
    }

    /// Create a new mock transport with scripted responses.
    pub fn new(responses: Vec<&str>) -> (r: Self)
        ensures
            r.queued() == scripted(responses@),
            r.unread() == Seq::<u8>::empty(),
            r.log() == Seq::<Seq<char>>::empty(),
            !r.upgraded(),
            r.verify_used() is None,
            r.events() == Seq::<Event>::empty(),
            !r.failing(),
            r.replies() == scripted(responses@),
            r.peer() == (Peer { replies: scripted(responses@), reads_fail: false }),
            r.coherent(),
    {
        let mut queue: VecDeque<Vec<u8>> = VecDeque::new();
        let mut script: Vec<Vec<u8>> = Vec::new();
        for i in 0..responses.len()
            invariant
                queue@.map_values(|v: Vec<u8>| v@) == scripted(responses@).take(i as int),
                script@.map_values(|v: Vec<u8>| v@) == scripted(responses@).take(i as int),
        {
            let mut bytes: Vec<u8> = Vec::new();
            let b = responses[i].as_bytes();
            for j in 0..b.len()
                invariant
                    bytes@ == b@.take(j as int),
            {
                bytes.push(b[j]);
                proof {
                    assert(b@.take(j + 1) =~= b@.take(j as int).push(b@[j as int]));
                }
            }
            proof {
                assert(b@.take(b@.len() as int) =~= b@);
            }
            let ghost before = queue@;
            let ghost before_script = script@;
            script.push(copy_bytes(bytes.as_slice()));
            queue.push_back(bytes);
            proof {
                assert(script@.map_values(|v: Vec<u8>| v@) =~= before_script.map_values(|v: Vec<u8>| v@).push(bytes@));
                assert(queue@.map_values(|v: Vec<u8>| v@) =~= before.map_values(|v: Vec<u8>| v@).push(bytes@));
                assert(scripted(responses@).take(i + 1) =~= scripted(responses@).take(i as int).push(bytes@));
            }
        }
        proof {
            assert(scripted(responses@).take(responses@.len() as int) =~= scripted(responses@));
        }
        let r = MockTransport {
            responses: queue,
            current: Vec::new(),
            pos: 0,
            written: Vec::new(),
            tls_upgraded: false,
            tls_verify_used: None,
            fail_on_read: false,
            happened: Vec::new(),
            script,
        };
        proof {
            assert(r.unread() =~= Seq::<u8>::empty());
            assert(r.events() =~= Seq::<Event>::empty());
            assert(r.log() =~= Seq::<Seq<char>>::empty());
            assert(r.state() == mock_start(r.replies()));
        }
        r
    }

    /// The certificate setting handed to the last upgrade, if any: the
    /// field `tls_verify_used`.
    pub closed spec fn verify_used(&self) -> Option<VerifyMode> {
        match self.tls_verify_used {
            Some(v) => Some(v@),
            None => None,
        }
    }

    /// Add one thing to the record of what happened.
    fn record(&mut self, l: Logged)
        ensures
            final(self).events() == old(self).events().push(l.event()),
            final(self).queued() == old(self).queued(),
            final(self).unread() == old(self).unread(),
            final(self).log() == old(self).log(),
            final(self).upgraded() == old(self).upgraded(),
            final(self).failing() == old(self).failing(),
            final(self).verify_used() == old(self).verify_used(),
            final(self).replies() == old(self).replies(),
    {
        let ghost e = l.event();
        self.happened.push(l);
        proof {
            assert(self.events() =~= old(self).events().push(e));
        }
    }

    /// Get all commands that were written, split by \r\n: the text of each
    /// write cut into its lines, in order.
    pub fn commands(&self) -> (r: Vec<&str>)
        ensures
            r@.map_values(|c: &str| c@) == written_lines(self.log()),
    {
        let ghost ws = self.log();
        let mut r: Vec<&str> = Vec::new();
        proof {
            assert(ws.take(0) =~= Seq::<Seq<char>>::empty());
            assert(r@.map_values(|c: &str| c@) =~= Seq::<Seq<char>>::empty());
        }
        for w in 0..self.written.len()
            invariant
                ws == self.log(),
                ws.len() == self.written@.len(),
                forall|k: int| 0 <= k < ws.len() ==> #[trigger] ws[k] == self.written@[k]@,
                r@.map_values(|c: &str| c@) == written_lines(ws.take(w as int)),
        {
            let s = self.written[w].as_str();
            let t = chars_of(s);
            let n = t.len();
            let ghost before = r@.map_values(|c: &str| c@);
            let mut i: usize = 0;
            proof {
                assert(s@ == ws[w as int]);
                assert(before + lines_from(t@, 0) == before + crlf_lines(t@));
            }
            while i < n
                invariant
                    n == t@.len(),
                    t@ == s@,
                    i <= n,
                    r@.map_values(|c: &str| c@) + lines_from(t@, i as int) == before + crlf_lines(t@),
                decreases n - i,
            {
                let mut j: usize = i;
                while j + 1 < n && !(t[j] == '\r' && t[j + 1] == '\n')
                    invariant
                        n == t@.len(),
                        i <= j < n,
                        next_crlf(t@, i as int) == next_crlf(t@, j as int),
                    decreases n - j,
                {
                    j = j + 1;
                }
                let e = if j + 1 < n {
                    j
                } else {
                    n
                };
                proof {
                    lemma_next_crlf_bounds(t@, i as int);
                    assert(next_crlf(t@, j as int) == e);
                }
                let piece = s.substring_char(i, e);
                let ghost old_r = r@.map_values(|c: &str| c@);
                r.push(piece);
                proof {
                    assert(r@.map_values(|c: &str| c@) =~= old_r.push(piece@));
                }
                if e >= n {
                    i = n;
                    proof {
                        assert(lines_from(t@, n as int) =~= Seq::<Seq<char>>::empty());
                        assert(old_r.push(piece@) + lines_from(t@, i as int) =~= old_r + seq![piece@]);
                    }
                } else {
                    proof {
                        assert(old_r.push(piece@) + lines_from(t@, e + 2) =~= old_r + (seq![piece@] + lines_from(t@, e + 2)));
                    }
                    i = e + 2;
                }
            }
            proof {
                assert(lines_from(t@, i as int) =~= Seq::<Seq<char>>::empty());
                assert(r@.map_values(|c: &str| c@) =~= before + crlf_lines(ws[w as int]));
                assert(ws.take(w + 1).drop_last() =~= ws.take(w as int));
                assert(ws.take(w + 1).last() == ws[w as int]);
            }
        }
        proof {
            assert(ws.take(ws.len() as int) =~= ws);
        }
        r
    }
}

impl SmtpTransport for MockTransport {
    type Error = std::io::Error;

    closed spec fn events(&self) -> Seq<Event> {
        self.happened@.map_values(|l: Logged| l.event())
    }

    /// The script, and whether reads are set to fail.
    open spec fn peer(&self) -> Peer {
        Peer { replies: self.replies(), reads_fail: self.failing() }
    }

    /// What the mock shows is what its script and what happened give.
    open spec fn coherent(&self) -> bool {
        mock_replay(self.replies(), self.events(), self.failing()) == Some(self.state())
    }

    fn read(&mut self, buf: &mut [u8]) -> (r: Result<usize, Self::Error>)
        ensures
            old(self).failing() ==> r is Err,
            !old(self).failing() ==> (r matches Ok(n) && {
                let chunk = old(self).next_chunk();
                &&& n == if old(buf)@.len() < chunk.len() { old(buf)@.len() as int } else { chunk.len() as int }
                &&& final(buf)@.subrange(0, n as int) == chunk.subrange(0, n as int)
                &&& final(self).unread() == chunk.subrange(n as int, chunk.len() as int)
                &&& final(self).queued() == if old(self).unread().len() == 0 && old(self).queued().len() > 0 {
                    old(self).queued().drop_first()
                } else {
                    old(self).queued()
                }
            }),
            old(self).failing() ==> final(self).state() == old(self).state(),
            final(self).log() == old(self).log(),
            final(self).failing() == old(self).failing(),
            final(self).upgraded() == old(self).upgraded(),
    {
        if self.fail_on_read {
            self.record(Logged::ReadFailed);
            proof {
                lemma_mock_replay_push(old(self).replies(), old(self).events(), Event::ReadFailed, self.failing());
            }
            return Err(io_error(IoKind::ConnectionReset, "mock connection reset"));
        }
        if self.pos >= self.current.len() {
            match self.responses.pop_front() {
                Some(next) => {
                    self.current = next;
                    self.pos = 0;
                },
                None => {
                    proof {
                        assert(old(self).unread() =~= Seq::<u8>::empty());
                        assert(buf@.take(0) =~= Seq::<u8>::empty());
                    }
                    let ghost ev = Event::Read(Seq::<u8>::empty(), buf@.len() as nat);
                    self.record(Logged::Read(Vec::new(), buf.len()));
                    proof {
                        lemma_mock_replay_push(old(self).replies(), old(self).events(), ev, self.failing());
                        assert(serving(old(self).state()) =~= Seq::<u8>::empty());
                        assert(Seq::<u8>::empty().take(0) =~= Seq::<u8>::empty());
                        assert(Seq::<u8>::empty().skip(0) =~= Seq::<u8>::empty());
                        assert(self.state() == old(self).state());
                    }
                    return Ok(0);
                },
            }
        }
        let ghost chunk = self.current@.subrange(self.pos as int, self.current@.len() as int);
        proof {
            if old(self).pos >= old(self).current@.len() {
                assert(old(self).unread() =~= Seq::<u8>::empty());
                assert(chunk =~= old(self).queued()[0]);
            } else {
                assert(chunk == old(self).unread());
            }
            assert(chunk == old(self).next_chunk());
        }
        let clen = self.current.len();
        let remaining = clen - self.pos;
        let n = if buf.len() < remaining {
            buf.len()
        } else {
            remaining
        };
        let mut got: Vec<u8> = Vec::new();
        let mut i: usize = 0;
        while i < n
            invariant
                got@ == buf@.take(i as int),
                n <= buf@.len(),
                n <= remaining,
                clen == self.current@.len(),
                self.pos <= self.current@.len(),
                remaining == self.current@.len() - self.pos,
                buf@.len() == old(buf)@.len(),
                i <= n,
                forall|j: int| 0 <= j < i ==> buf@[j] == self.current@[self.pos + j],
            decreases n - i,
        {
            buf[i] = self.current[self.pos + i];
            got.push(buf[i]);
            proof {
                assert(buf@.take(i + 1) =~= buf@.take(i as int).push(buf@[i as int]));
            }
            i = i + 1;
        }
        self.pos = self.pos + n;
        let ghost ev = Event::Read(got@, buf@.len() as nat);
        self.record(Logged::Read(got, buf.len()));
        proof {
            assert(buf@.subrange(0, n as int) =~= chunk.subrange(0, n as int));
            assert(self.unread() =~= chunk.subrange(n as int, chunk.len() as int));
            lemma_mock_replay_push(old(self).replies(), old(self).events(), ev, self.failing());
            assert(serving(old(self).state()) == chunk);
            assert(buf@.take(n as int) =~= chunk.take(n as int));
            assert(chunk.skip(n as int) =~= chunk.subrange(n as int, chunk.len() as int));
            if old(self).unread().len() == 0 && old(self).queued().len() > 0 {
                assert(self.queued() =~= old(self).queued().drop_first());
            } else {
                assert(self.queued() =~= old(self).queued());
            }
        }
        Ok(n)
    }

    fn write_all(&mut self, data: &[u8]) -> (r: Result<(), Self::Error>)
        ensures
            r is Ok,
            valid_utf8(data@) ==> final(self).log() == old(self).log().push(decode_utf8(data@)),
            !valid_utf8(data@) ==> final(self).log() == old(self).log(),
            final(self).upgraded() == old(self).upgraded(),
            final(self).failing() == old(self).failing(),
            final(self).queued() == old(self).queued(),
            final(self).unread() == old(self).unread(),
    {
        let bytes = copy_bytes(data);
        if let Some(s) = utf8_str(data) {
            self.written.push(s.to_owned());
            proof {
                encode_utf8_decode_utf8(s@);
                assert(self.log() =~= old(self).log().push(decode_utf8(data@)));
            }
        }
        let ghost ev = Event::Write(bytes@, true);
        self.record(Logged::Write(bytes, true));
        proof {
            lemma_mock_replay_push(old(self).replies(), old(self).events(), ev, self.failing());
        }
        Ok(())
    }

    fn upgrade_tls(&mut self, host: &str, tls_verify: &TlsVerify) -> (r: Result<(), Self::Error>)
        ensures
            r is Ok,
            final(self).upgraded(),
            final(self).verify_used() == Some(tls_verify@),
            final(self).log() == old(self).log(),
            final(self).failing() == old(self).failing(),
            final(self).queued() == old(self).queued(),
            final(self).unread() == old(self).unread(),
    {
        self.tls_upgraded = true;
        self.tls_verify_used = Some(copy_verify(tls_verify));
        let h = host.to_owned();
        let v = copy_verify(tls_verify);
        let ghost ev = Event::Upgrade(h@, v@, true);
        self.record(Logged::Upgrade(h, v, true));
        proof {
            lemma_mock_replay_push(old(self).replies(), old(self).events(), ev, self.failing());
        }
        Ok(())
    }
}

} // verus!
