//! The replica side: the handshake with the master and the loop that applies
//! the master's writes, as a state machine over the bytes that arrive.
//!
//! The caller owns the socket. It writes what `start` returns, then hands
//! the bytes it has read to `step` again and again, dropping what each call
//! took and writing what each call returns, and reads more once a call takes
//! nothing.

use crate::bytes::{ascii, decimal, is_word, matches_word, render, text};
use crate::command::{spec_parse, Command, CommandView, Replconf, ReplconfView};
use crate::db::{spec_set, DB};
use crate::parse::{
    array, first_line, lemma_tokenize_array, read_blob, spec_array, spec_line, spec_read_blob,
    spec_tokenize, tokenize, FrameError,
};
use crate::server::{spec_advance, Server, ServerView};
use vstd::prelude::*;

verus! {

/// Where the replica stands in its exchange with the master.
#[derive(Debug, Clone, Copy, PartialEq, Eq, Structural)]
pub enum Phase {
    /// `PING` was sent; `+PONG` is due.
    AwaitPong,
    /// `REPLCONF listening-port` was sent; `+OK` is due.
    AwaitPortOk,
    /// `REPLCONF capa` was sent; `+OK` is due.
    AwaitCapaOk,
    /// `PSYNC` was sent; the master's reply line is due.
    AwaitFullresync,
    /// The snapshot is due, as a raw blob.
    AwaitSnapshot,
    /// The handshake is over: the master's commands are applied.
    Streaming,
}

/// Why the replica gives up on its master.
#[derive(Debug, Clone, Copy, PartialEq, Eq, Structural)]
pub enum SyncError {
    /// The reply to `PING` was not `+PONG`.
    ExpectedPong,
    /// The reply to a `REPLCONF` was not `+OK`.
    ExpectedOk,
    /// What came in place of the snapshot is no raw blob.
    BadSnapshot,
    /// A frame of the command stream is malformed.
    BadFrame,
    /// The stream ended in the middle of the handshake or of a frame.
    UnexpectedEof,
}

/// The replica's end of the connection to its master: the phase, and the
/// number of bytes of the command stream that were processed.
#[derive(Debug, Clone, Copy, PartialEq, Eq, Structural)]
pub struct ReplicaClient {
    pub phase: Phase,
    pub processed: u64,
}

/// What one step did: how many bytes it took off the front of the input,
/// what is to be written to the master, and the state to go on with.
#[derive(Debug, PartialEq, Eq)]
pub struct Progress {
    pub next: Result<ReplicaClient, SyncError>,
    pub consumed: usize,
    pub output: Vec<u8>,
}

/// What the replica shares with the rest of the instance.
pub struct ReplicaWorld {
    pub db: Map<Seq<u8>, (Seq<u8>, Option<u64>)>,
    pub server: ServerView,
}

/// What a step leads to.
pub struct ReplicaOutcome {
    pub world: ReplicaWorld,
    pub next: Result<ReplicaClient, SyncError>,
    pub consumed: int,
    pub output: Seq<u8>,
}

pub open spec fn spec_ping_message() -> Seq<u8> {
    spec_array(seq![ascii("PING"@)])
}

pub open spec fn spec_listening_port_message(port: Seq<u8>) -> Seq<u8> {
    spec_array(seq![ascii("REPLCONF"@), ascii("listening-port"@), port])
}

pub open spec fn spec_capa_message() -> Seq<u8> {
    spec_array(seq![ascii("REPLCONF"@), ascii("capa"@), ascii("psync2"@)])
}

pub open spec fn spec_psync_message() -> Seq<u8> {
    spec_array(seq![ascii("PSYNC"@), ascii("?"@), ascii("-1"@)])
}

/// The acknowledgement of `processed` bytes.
pub open spec fn spec_ack_message(processed: u64) -> Seq<u8> {
    spec_array(seq![ascii("REPLCONF"@), ascii("ACK"@), decimal(processed as nat)])
}

/// Nothing is taken and nothing changes: more bytes are needed.
pub open spec fn spec_need_more(c: ReplicaClient, w: ReplicaWorld) -> ReplicaOutcome {
    ReplicaOutcome { world: w, next: Ok(c), consumed: 0, output: Seq::empty() }
}

/// The replica gives up.
pub open spec fn spec_abort(w: ReplicaWorld, e: SyncError) -> ReplicaOutcome {
    ReplicaOutcome { world: w, next: Err(e), consumed: 0, output: Seq::empty() }
}

/// A step of the handshake that waits for the reply line `expected`, given
/// in lower case: once a line is there it is taken; where it is the expected
/// one, letter case aside, `output` is sent and the handshake moves on to
/// `then`, else the replica gives up with `error`.
pub open spec fn spec_expect(
    c: ReplicaClient,
    w: ReplicaWorld,
    input: Seq<u8>,
    expected: Seq<char>,
    then: Phase,
    output: Seq<u8>,
    error: SyncError,
) -> ReplicaOutcome {
    match spec_line(input) {
        None => spec_need_more(c, w),
        Some(l) => if is_word(l, expected) {
            ReplicaOutcome {
                world: w,
                next: Ok(ReplicaClient { phase: then, ..c }),
                consumed: l.len() as int,
                output,
            }
        } else {
            spec_abort(w, error)
        },
    }
}

/// What one frame of the command stream does. A write is applied without a
/// reply. `REPLCONF GETACK` is answered with the number of bytes processed
/// before this frame. Everything else passes by. Either way the frame's
/// bytes are then counted as processed, here and in the server's offset.
pub open spec fn spec_apply(
    c: ReplicaClient,
    w: ReplicaWorld,
    items: Seq<Seq<u8>>,
    used: int,
    now: u64,
) -> ReplicaOutcome {
    let cmd = spec_parse(items);
    ReplicaOutcome {
        world: ReplicaWorld {
            db: match cmd {
                CommandView::SetKey { key, value, ex } => spec_set(w.db, key, value, ex, now),
                _ => w.db,
            },
            server: ServerView { offset: spec_advance(w.server.offset, used as nat), ..w.server },
        },
        next: Ok(ReplicaClient { processed: spec_advance(c.processed, used as nat), ..c }),
        consumed: used,
        output: match cmd {
            CommandView::Replconf(ReplconfView::GetAck) => spec_ack_message(c.processed),
            _ => Seq::empty(),
        },
    }
}

/// What the next step does with the bytes `input` that have arrived and were
/// not taken yet.
pub open spec fn spec_step(c: ReplicaClient, w: ReplicaWorld, input: Seq<u8>, now: u64) -> ReplicaOutcome {
    match c.phase {
        Phase::AwaitPong => spec_expect(
            c,
            w,
            input,
            "+pong\r\n"@,
            Phase::AwaitPortOk,
            spec_listening_port_message(w.server.port),
            SyncError::ExpectedPong,
        ),
        Phase::AwaitPortOk => spec_expect(
            c,
            w,
            input,
            "+ok\r\n"@,
            Phase::AwaitCapaOk,
            spec_capa_message(),
            SyncError::ExpectedOk,
        ),
        Phase::AwaitCapaOk => spec_expect(
            c,
            w,
            input,
            "+ok\r\n"@,
            Phase::AwaitFullresync,
            spec_psync_message(),
            SyncError::ExpectedOk,
        ),
        Phase::AwaitFullresync => match spec_line(input) {
            None => spec_need_more(c, w),
            Some(l) => ReplicaOutcome {
                world: w,
                next: Ok(ReplicaClient { phase: Phase::AwaitSnapshot, ..c }),
                consumed: l.len() as int,
                output: Seq::empty(),
            },
        },
        Phase::AwaitSnapshot => match spec_read_blob(input) {
            Err(FrameError::UnexpectedEof) => spec_need_more(c, w),
            Err(_) => spec_abort(w, SyncError::BadSnapshot),
            Ok((_, used)) => ReplicaOutcome {
                world: w,
                next: Ok(ReplicaClient { phase: Phase::Streaming, ..c }),
                consumed: used,
                output: Seq::empty(),
            },
        },
        Phase::Streaming => match spec_tokenize(input) {
            Ok(None) => spec_need_more(c, w),
            Err(FrameError::UnexpectedEof) => spec_need_more(c, w),
            Err(_) => spec_abort(w, SyncError::BadFrame),
            Ok(Some((items, used))) => spec_apply(c, w, items, used, now),
        },
    }
}

/// What the end of the stream means with `left` bytes read and not taken:
/// a clean end once the handshake is over and nothing is left.
pub open spec fn spec_finish(c: ReplicaClient, left: int) -> Result<(), SyncError> {
    if c.phase == Phase::Streaming && left == 0 {
        Ok(())
    } else {
        Err(SyncError::UnexpectedEof)
    }
}

fn message(a: &[u8], b: &[u8], c: &[u8]) -> (r: Vec<u8>)
    ensures
        r@ == spec_array(seq![a@, b@, c@]),
{
    let mut items: Vec<&[u8]> = Vec::new();
    items.push(a);
    items.push(b);
    items.push(c);
    assert(crate::bytes::slice_views(items@) =~= seq![a@, b@, c@]);
    array(&items)
}

fn need_more(c: ReplicaClient) -> (p: Progress)
    ensures
        p.next == Ok::<ReplicaClient, SyncError>(c),
        p.consumed == 0,
        p.output@ == Seq::<u8>::empty(),
{
    Progress { next: Ok(c), consumed: 0, output: Vec::new() }
}

fn abort(e: SyncError) -> (p: Progress)
    ensures
        p.next == Err::<ReplicaClient, SyncError>(e),
        p.consumed == 0,
        p.output@ == Seq::<u8>::empty(),
{
    Progress { next: Err(e), consumed: 0, output: Vec::new() }
}

/// Whether a step's result is what `o` describes.
pub open spec fn progress_is(p: Progress, o: ReplicaOutcome) -> bool {
    &&& p.next == o.next
    &&& p.consumed == o.consumed
    &&& p.output@ == o.output
}

impl ReplicaClient {
    /// Opens the handshake: the state to go on with and the `PING` to send.
    pub fn start() -> (r: (ReplicaClient, Vec<u8>))
        ensures
            r.0 == (ReplicaClient { phase: Phase::AwaitPong, processed: 0 }),
            r.1@ == spec_ping_message(),
    {
        proof {
            reveal_strlit("PING");
        }
        let verb = text("PING");
        let mut items: Vec<&[u8]> = Vec::new();
        items.push(verb.as_slice());
        assert(crate::bytes::slice_views(items@) =~= seq![ascii("PING"@)]);
        (ReplicaClient { phase: Phase::AwaitPong, processed: 0 }, array(&items))
    }

    fn expect(
        self,
        input: &[u8],
        expected: &str,
        then: Phase,
        output: Vec<u8>,
        error: SyncError,
        Ghost(w): Ghost<ReplicaWorld>,
    ) -> (p: Progress)
        requires
            expected.is_ascii(),
        ensures
            progress_is(p, spec_expect(self, w, input@, expected@, then, output@, error)),
            p.consumed <= input.len(),
    {
        match first_line(input) {
            None => need_more(self),
            Some(l) => {
                if matches_word(l, expected) {
                    Progress {
                        next: Ok(ReplicaClient { phase: then, processed: self.processed }),
                        consumed: l.len(),
                        output,
                    }
                } else {
                    abort(error)
                }
            },
        }
    }

    /// Takes the next unit off the front of `input`, the bytes that have
    /// arrived from the master and were not taken yet, at the instant `now`.
    pub fn step(self, input: &[u8], db: &mut DB, server: &mut Server, now: u64) -> (p: Progress)
        ensures
            ({
                let o = spec_step(
                    self,
                    ReplicaWorld { db: old(db)@, server: old(server)@ },
                    input@,
                    now,
                );
                &&& progress_is(p, o)
                &&& final(db)@ == o.world.db
                &&& final(server)@ == o.world.server
            }),
            p.consumed <= input.len(),
    {
        let ghost w = ReplicaWorld { db: db@, server: server@ };
        proof {
            reveal_strlit("+pong\r\n");
            reveal_strlit("+ok\r\n");
            reveal_strlit("REPLCONF");
            reveal_strlit("listening-port");
            reveal_strlit("capa");
            reveal_strlit("psync2");
            reveal_strlit("PSYNC");
            reveal_strlit("?");
            reveal_strlit("-1");
            reveal_strlit("ACK");
        }
        match self.phase {
            Phase::AwaitPong => {
                let verb = text("REPLCONF");
                let word = text("listening-port");
                let output = message(verb.as_slice(), word.as_slice(), server.port().as_slice());
                self.expect(
                    input,
                    "+pong\r\n",
                    Phase::AwaitPortOk,
                    output,
                    SyncError::ExpectedPong,
                    Ghost(w),
                )
            },
            Phase::AwaitPortOk => {
                let verb = text("REPLCONF");
                let word = text("capa");
                let arg = text("psync2");
                let output = message(verb.as_slice(), word.as_slice(), arg.as_slice());
                self.expect(
                    input,
                    "+ok\r\n",
                    Phase::AwaitCapaOk,
                    output,
                    SyncError::ExpectedOk,
                    Ghost(w),
                )
            },
            Phase::AwaitCapaOk => {
                let verb = text("PSYNC");
                let id = text("?");
                let offset = text("-1");
                let output = message(verb.as_slice(), id.as_slice(), offset.as_slice());
                self.expect(
                    input,
                    "+ok\r\n",
                    Phase::AwaitFullresync,
                    output,
                    SyncError::ExpectedOk,
                    Ghost(w),
                )
            },
            Phase::AwaitFullresync => match first_line(input) {
                None => need_more(self),
                Some(l) => Progress {
                    next: Ok(
                        ReplicaClient { phase: Phase::AwaitSnapshot, processed: self.processed },
                    ),
                    consumed: l.len(),
                    output: Vec::new(),
                },
            },
            Phase::AwaitSnapshot => match read_blob(input) {
                Err(FrameError::UnexpectedEof) => need_more(self),
                Err(_) => abort(SyncError::BadSnapshot),
                Ok((_, used)) => Progress {
                    next: Ok(ReplicaClient { phase: Phase::Streaming, processed: self.processed }),
                    consumed: used,
                    output: Vec::new(),
                },
            },
            Phase::Streaming => match tokenize(input) {
                Ok(None) => need_more(self),
                Err(FrameError::UnexpectedEof) => need_more(self),
                Err(_) => abort(SyncError::BadFrame),
                Ok(Some((items, used))) => {
                    let output = match Command::parse(items.as_slice()) {
                        Command::SetKey { key, value, ex } => {
                            db.set(key, value, ex, now);
                            Vec::new()
                        },
                        Command::Replconf(Replconf::GetAck) => {
                            let verb = text("REPLCONF");
                            let word = text("ACK");
                            let count = render(self.processed);
                            message(verb.as_slice(), word.as_slice(), count.as_slice())
                        },
                        _ => Vec::new(),
                    };
                    server.advance(used as u64);
                    Progress {
                        next: Ok(
                            ReplicaClient {
                                phase: Phase::Streaming,
                                processed: self.processed.saturating_add(used as u64),
                            },
                        ),
                        consumed: used,
                        output,
                    }
                },
            },
        }
    }

    /// What the end of the stream means for a replica that has `left` bytes
    /// read and not taken.
    pub fn finish(self, left: usize) -> (r: Result<(), SyncError>)
        ensures
            r == spec_finish(self, left as int),
    {
        match self.phase {
            Phase::Streaming => if left == 0 {
                Ok(())
            } else {
                Err(SyncError::UnexpectedEof)
            },
            _ => Err(SyncError::UnexpectedEof),
        }
    }
}

/// A replica that is asked for its offset answers with the number of bytes
/// that it had processed before the request arrived: the request's own bytes
/// are counted only afterwards.
pub proof fn lemma_getack_reports_bytes_before(
    c: ReplicaClient,
    w: ReplicaWorld,
    rest: Seq<u8>,
    now: u64,
)
    requires
        c.phase == Phase::Streaming,
    ensures
        ({
            let frame = spec_array(seq![ascii("REPLCONF"@), ascii("GETACK"@), ascii("*"@)]);
            let o = spec_step(c, w, frame + rest, now);
            &&& o.output == spec_ack_message(c.processed)
            &&& o.consumed == frame.len()
            &&& o.next == Ok::<ReplicaClient, SyncError>(
                ReplicaClient {
                    phase: Phase::Streaming,
                    processed: spec_advance(c.processed, frame.len()),
                },
            )
            &&& o.world.db == w.db
        }),
{
    reveal_strlit("REPLCONF");
    reveal_strlit("GETACK");
    reveal_strlit("*");
    reveal_strlit("replconf");
    reveal_strlit("getack");
    reveal_strlit("ping");
    reveal_strlit("echo");
    reveal_strlit("set");
    reveal_strlit("get");
    reveal_strlit("info");
    reveal_strlit("listening-port");
    reveal_strlit("capa");
    let items = seq![ascii("REPLCONF"@), ascii("GETACK"@), ascii("*"@)];
    lemma_tokenize_array(items, rest);
    let verb = crate::bytes::lowered(items[0]);
    assert(verb =~= ascii("replconf"@));
    assert(verb.len() == 8);
    assert(crate::bytes::lowered(items[1]) =~= ascii("getack"@));
    assert(crate::bytes::lowered(items[1]).len() == 6);
    assert(spec_parse(items) == CommandView::Replconf(ReplconfView::GetAck));
}

/// A replica applies a write as the master sends it on: the store takes the
/// value, nothing is answered, and exactly the bytes of the write are taken
/// and counted.
pub proof fn lemma_replica_applies_write(
    c: ReplicaClient,
    w: ReplicaWorld,
    key: Seq<u8>,
    value: Seq<u8>,
    rest: Seq<u8>,
    now: u64,
)
    requires
        c.phase == Phase::Streaming,
        key.len() <= usize::MAX,
        value.len() <= usize::MAX,
    ensures
        ({
            let frame = spec_array(seq![ascii("SET"@), key, value]);
            let o = spec_step(c, w, frame + rest, now);
            &&& o.world.db == spec_set(w.db, key, value, None, now)
            &&& o.output == Seq::<u8>::empty()
            &&& o.consumed == frame.len()
            &&& o.next == Ok::<ReplicaClient, SyncError>(
                ReplicaClient {
                    phase: Phase::Streaming,
                    processed: spec_advance(c.processed, frame.len()),
                },
            )
        }),
{
    reveal_strlit("SET");
    reveal_strlit("set");
    reveal_strlit("ping");
    reveal_strlit("echo");
    let items = seq![ascii("SET"@), key, value];
    lemma_tokenize_array(items, rest);
    let verb = crate::bytes::lowered(items[0]);
    assert(verb =~= ascii("set"@));
    assert(verb.len() == 3);
    assert(spec_parse(items) == (CommandView::SetKey { key, value, ex: None }));
}

} // verus!
