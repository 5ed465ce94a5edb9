//! The decisions of one connection's handler: what a chunk read from the
//! client means (a nickname command or a message), what is broadcast, and
//! when the connection leaves the registry.

use vstd::prelude::*;
use crate::registry::Handle;

verus! {

/// The most bytes that one read from a client takes.
pub const BUF_SIZE: usize = 9999;

/// The command prefix `"/nick "`.
pub open spec fn nick_cmd() -> Seq<u8> {
    seq![47u8, 110u8, 105u8, 99u8, 107u8, 32u8]
}

/// The nickname a connection starts with: `"name"`.
pub open spec fn default_nick() -> Seq<u8> {
    seq![110u8, 97u8, 109u8, 101u8]
}

/// `s` without one trailing newline, if it ends in one.
pub open spec fn strip_newline(s: Seq<u8>) -> Seq<u8> {
    if s.len() > 0 && s.last() == 10u8 { s.drop_last() } else { s }
}

/// The nickname that `chunk` sets, when it is a nickname command.
pub open spec fn nick_of(chunk: Seq<u8>) -> Option<Seq<u8>> {
    if chunk.len() >= 6 && chunk.subrange(0, 6) == nick_cmd() {
        Some(strip_newline(chunk.subrange(6, chunk.len() as int)))
    } else {
        None
    }
}

/// What every peer receives for a message: `"<nickname>: <payload>"`.
pub open spec fn message(nickname: Seq<u8>, payload: Seq<u8>) -> Seq<u8> {
    nickname + seq![58u8, 32u8] + payload
}

/// What a chunk read from a client asks for.
#[derive(Debug, PartialEq, Eq)]
pub enum Command {
    /// Set the sender's nickname to these bytes.
    Nick(Vec<u8>),
    /// Broadcast the chunk as it came.
    Say,
}

/// Copies `src[lo..hi]`.
fn copy_range(src: &[u8], lo: usize, hi: usize) -> (r: Vec<u8>)
    requires
        lo <= hi <= src@.len(),
    ensures
        r@ == src@.subrange(lo as int, hi as int),
{
    let mut out: Vec<u8> = Vec::new();
    let mut k: usize = lo;
    while k < hi
        invariant
            lo <= k <= hi,
            hi <= src@.len(),
            out@ == src@.subrange(lo as int, k as int),
        decreases hi - k,
    {
        out.push(src[k]);
        proof {
            assert(out@ =~= src@.subrange(lo as int, k + 1));
        }
        k = k + 1;
    }
    out
}

/// Tells a nickname command from a message.
pub fn parse_chunk(chunk: &[u8]) -> (r: Command)
    ensures
        match nick_of(chunk@) {
            Some(n) => r matches Command::Nick(v) && v@ == n,
            None => r == Command::Say,
        },
{
    let n = chunk.len();
    if n >= 6 && chunk[0] == 47u8 && chunk[1] == 110u8 && chunk[2] == 105u8 && chunk[3] == 99u8
        && chunk[4] == 107u8 && chunk[5] == 32u8 {
        proof {
            assert(chunk@.subrange(0, 6) =~= nick_cmd());
        }
        let end = if n > 6 && chunk[n - 1] == 10u8 { n - 1 } else { n };
        let v = copy_range(chunk, 6, end);
        proof {
            let rest = chunk@.subrange(6, n as int);
            if n > 6 && chunk@[n - 1] == 10u8 {
                assert(strip_newline(rest) =~= chunk@.subrange(6, end as int));
            } else {
                assert(strip_newline(rest) =~= chunk@.subrange(6, end as int));
            }
        }
        Command::Nick(v)
    } else {
        proof {
            if n >= 6 {
                let pre = chunk@.subrange(0, 6);
                assert(pre[0] == chunk@[0] && pre[1] == chunk@[1] && pre[2] == chunk@[2]);
                assert(pre[3] == chunk@[3] && pre[4] == chunk@[4] && pre[5] == chunk@[5]);
                assert(pre != nick_cmd()) by {
                    if pre == nick_cmd() {
                        assert(nick_cmd()[0] == 47u8);
                    }
                };
            }
        }
        Command::Say
    }
}

/// Builds `"<nickname>: <payload>"`.
pub fn format_message(nickname: &[u8], payload: &[u8]) -> (r: Vec<u8>)
    ensures
        r@ == message(nickname@, payload@),
{
    let mut out = copy_range(nickname, 0, nickname.len());
    out.push(58u8);
    out.push(32u8);
    let mut k: usize = 0;
    let ghost head = out@;
    while k < payload.len()
        invariant
            k <= payload@.len(),
            head == nickname@ + seq![58u8, 32u8],
            out@ == head + payload@.subrange(0, k as int),
        decreases payload@.len() - k,
    {
        out.push(payload[k]);
        proof {
            assert(out@ =~= head + payload@.subrange(0, k + 1));
        }
        k = k + 1;
    }
    proof {
        assert(nickname@.subrange(0, nickname@.len() as int) =~= nickname@);
        assert(payload@.subrange(0, k as int) =~= payload@);
    }
    out
}

/// What the handler's read of the client produced.
#[derive(Debug)]
pub enum ReadEvent {
    /// The bytes of one read; none means the client closed the connection.
    Data(Vec<u8>),
    /// The read failed.
    Failed,
}

/// What the handler is to do next.
#[derive(Debug, PartialEq, Eq)]
pub enum Action {
    /// Nothing: go on reading.
    Nothing,
    /// Write these bytes to every entry of the registry, the sender's own
    /// included: a client sees its messages come back as the others do.
    Broadcast(Vec<u8>),
    /// Remove this entry from the registry and stop.
    Leave(Handle),
}

/// The state of one connection's handler: its private nickname, and the
/// handle of its entry while the connection is registered.
pub struct Session {
    nickname: Vec<u8>,
    handle: Option<Handle>,
}

impl Session {
    pub closed spec fn nick(self) -> Seq<u8> {
        self.nickname@
    }

    pub closed spec fn entry(self) -> Option<Handle> {
        self.handle
    }

    /// A session for the connection registered under `handle`, with the
    /// default nickname.
    pub fn new(handle: Handle) -> (r: Session)
        ensures
            r.nick() == default_nick(),
            r.entry() == Some(handle),
    {
        let nickname: Vec<u8> = vec![110u8, 97u8, 109u8, 101u8];
        proof {
            assert(nickname@ =~= default_nick());
        }
        Session { nickname, handle: Some(handle) }
    }

    /// The current nickname.
    pub fn nickname(&self) -> (r: &Vec<u8>)
        ensures
            r@ == self.nick(),
    {
        &self.nickname
    }

    /// Whether the connection is still registered.
    pub fn is_open(&self) -> (r: bool)
        ensures
            r == (self.entry() is Some),
    {
        self.handle.is_some()
    }

    /// Decides what to do with one read. While registered: a nickname command
    /// sets the nickname and broadcasts nothing; any other non-empty chunk is
    /// broadcast as `"<nickname>: <chunk>"`; an empty read or a failure hands
    /// back the handle for removal, once, and ends the session. After that
    /// every read is ignored.
    pub fn step(&mut self, event: ReadEvent) -> (r: Action)
        ensures
            Self::stepped(*old(self), event, *final(self), r),
    {
        match self.handle {
            None => Action::Nothing,
            Some(h) => {
                match event {
                    ReadEvent::Data(chunk) => {
                        if chunk.len() == 0 {
                            self.handle = None;
                            Action::Leave(h)
                        } else {
                            match parse_chunk(chunk.as_slice()) {
                                Command::Nick(n) => {
                                    self.nickname = n;
                                    Action::Nothing
                                },
                                Command::Say => Action::Broadcast(
                                    format_message(self.nickname.as_slice(), chunk.as_slice()),
                                ),
                            }
                        }
                    },
                    ReadEvent::Failed => {
                        self.handle = None;
                        Action::Leave(h)
                    },
                }
            },
        }
    }

    /// `b` and `r` are the session and the action that `event` makes of `a`.
    pub open spec fn stepped(a: Session, event: ReadEvent, b: Session, r: Action) -> bool {
        match a.entry() {
            None => b.nick() == a.nick() && b.entry() is None && r == Action::Nothing,
            Some(h) => {
                let closing = match event {
                    ReadEvent::Data(c) => c@.len() == 0,
                    ReadEvent::Failed => true,
                };
                if closing {
                    b.nick() == a.nick() && b.entry() is None && r == Action::Leave(h)
                } else {
                    let c = event->Data_0@;
                    &&& b.entry() == Some(h)
                    &&& match nick_of(c) {
                        Some(n) => b.nick() == n && r == Action::Nothing,
                        None => {
                            &&& b.nick() == a.nick()
                            &&& r matches Action::Broadcast(m) && m@ == message(a.nick(), c)
                        },
                    }
                }
            },
        }
    }

    /// A broadcast carries exactly the sender's nickname at the time of the
    /// read, then `": "`, then the bytes read, unchanged.
    pub proof fn lemma_broadcast_exact(a: Session, chunk: Vec<u8>, b: Session, r: Action)
        requires
            Self::stepped(a, ReadEvent::Data(chunk), b, r),
            r matches Action::Broadcast(_),
        ensures
            ({
                let m = r->Broadcast_0@;
                let k: int = a.nick().len() as int;
                &&& m.len() == k + 2 + chunk@.len()
                &&& m.subrange(0, k) == a.nick()
                &&& m.subrange(k, k + 2) == seq![58u8, 32u8]
                &&& m.subrange(k + 2, m.len() as int) == chunk@
            }),
    {
        let m = r->Broadcast_0@;
        let k: int = a.nick().len() as int;
        assert(m.subrange(0, k) =~= a.nick());
        assert(m.subrange(k, k + 2) =~= seq![58u8, 32u8]);
        assert(m.subrange(k + 2, m.len() as int) =~= chunk@);
    }

    /// A nickname command broadcasts nothing, so no other connection observes
    /// it; the sender's next message goes out under the new nickname.
    pub proof fn lemma_nick_then_say(
        a0: Session,
        cmd: Vec<u8>,
        a1: Session,
        r1: Action,
        text: Vec<u8>,
        a2: Session,
        r2: Action,
    )
        requires
            a0.entry() is Some,
            nick_of(cmd@) is Some,
            Self::stepped(a0, ReadEvent::Data(cmd), a1, r1),
            text@.len() > 0,
            nick_of(text@) is None,
            Self::stepped(a1, ReadEvent::Data(text), a2, r2),
        ensures
            r1 == Action::Nothing,
            a1.nick() == nick_of(cmd@)->Some_0,
            r2 matches Action::Broadcast(m) && m@ == message(nick_of(cmd@)->Some_0, text@),
            a2.nick() == a1.nick(),
    {
    }
}

} // verus!
