//! The master side of a connection: a state machine that takes what was
//! read, a timer tick or a wake-up, changes the store, the server's offset
//! and the replica registry, and says what to write and whether to go on.
//!
//! The caller owns the socket, the timer and the locks. It hands each event
//! in together with the state that the locks guard, writes the output that
//! comes back, and drops the connection where no next state comes back.

use crate::bytes::{append, ascii, concat, crlf, decimal, join_all, render, text};
use crate::command::{spec_parse, Command, CommandView, Replconf, ReplconfView};
use crate::db::{spec_get, spec_set, DB};
use crate::parse::{
    array, blob, bulk_string, frame_view, integer, lemma_tokenize_array, pairs, spec_array,
    spec_blob, spec_bulk_string, spec_integer, spec_pairs, spec_tokenize, tokenize, FrameError,
};
use crate::registry::{
    spec_ack, spec_broadcast, spec_count_acked, spec_fresh, spec_queue, spec_take, Peer, ReplicaView,
    Replicas,
};
use crate::server::{spec_advance, spec_info, spec_replid, Server, ServerView};
use crate::snapshot::{snapshot, spec_snapshot};
use vstd::prelude::*;
use vstd::slice::slice_subrange;

verus! {

/// The state of a connection.
#[derive(Debug, Clone, Copy, PartialEq, Eq, Structural)]
pub enum PeerType {
    /// Requests are read, answered and applied one by one.
    Client,
    /// A `WAIT` is pending: the reply is due once `needed` replicas have
    /// acknowledged `target`, or at `deadline`.
    Waiting { needed: u64, target: u64, deadline: u64 },
    /// The peer is a replica: `offset` bytes were written to it since the
    /// snapshot, and `awaiting_ack` says whether it owes an acknowledgement.
    Replica { offset: u64, awaiting_ack: bool },
}

/// One accepted connection.
#[derive(Debug, Clone, Copy, PartialEq, Eq, Structural)]
pub struct MasterConnection {
    pub internal: PeerType,
    pub peer: Peer,
}

/// What the caller saw happen on a connection.
#[derive(Debug)]
pub enum Event {
    /// The outcome of reading one request frame.
    Read(Result<Option<(Vec<Vec<u8>>, usize)>, FrameError>),
    /// Something may have been queued for this peer, or acknowledged.
    Wake,
    /// The timer ticked.
    Tick,
}

/// What an `Event` stands for.
pub enum EventView {
    Read(Result<Option<(Seq<Seq<u8>>, int)>, FrameError>),
    Wake,
    Tick,
}

impl View for Event {
    type V = EventView;

    open spec fn view(&self) -> EventView {
        match self {
            Event::Read(r) => EventView::Read(frame_view(*r)),
            Event::Wake => EventView::Wake,
            Event::Tick => EventView::Tick,
        }
    }
}

/// What the caller is to do: write `output`, then go on with `next`, or
/// drop the connection where there is none.
#[derive(Debug, PartialEq, Eq)]
pub struct Step {
    pub next: Option<MasterConnection>,
    pub output: Vec<u8>,
}

/// The state that the connections of one instance share.
pub struct World {
    pub db: Map<Seq<u8>, (Seq<u8>, Option<u64>)>,
    pub server: ServerView,
    pub replicas: Map<u64, ReplicaView>,
}

/// What an event leads to: the shared state after it, the bytes to write,
/// and the connection's next state, if it has one.
pub struct Outcome {
    pub world: World,
    pub output: Seq<u8>,
    pub next: Option<PeerType>,
}

/// The write `SET key value` as it is sent on to the replicas.
pub open spec fn spec_set_message(key: Seq<u8>, value: Seq<u8>) -> Seq<u8> {
    spec_array(seq![ascii("SET"@), key, value])
}

/// The request by which a master asks a replica for its offset.
pub open spec fn spec_getack_message() -> Seq<u8> {
    spec_array(seq![ascii("REPLCONF"@), ascii("GETACK"@), ascii("*"@)])
}

/// The reply to `PSYNC`: the `FULLRESYNC` line with the replication id and
/// the offset, then the snapshot as a raw blob.
pub open spec fn spec_fullresync(server: ServerView) -> Seq<u8> {
    ascii("+FULLRESYNC "@) + ascii(spec_replid()) + seq![32u8] + decimal(server.offset as nat)
        + crlf() + spec_blob(spec_snapshot())
}

/// Nothing changes, nothing is written, the connection goes on as `state`.
pub open spec fn spec_stay(state: PeerType, w: World) -> Outcome {
    Outcome { world: w, output: Seq::empty(), next: Some(state) }
}

/// The connection ends after `output`; the peer leaves the registry.
pub open spec fn spec_close(peer: u64, w: World, output: Seq<u8>) -> Outcome {
    Outcome { world: World { replicas: w.replicas.remove(peer), ..w }, output, next: None }
}

/// A reply that changes nothing.
pub open spec fn spec_reply(w: World, output: Seq<u8>) -> Outcome {
    Outcome { world: w, output, next: Some(PeerType::Client) }
}

/// What a write does: the store takes the value, the server's offset moves
/// on by the length of the message, and every replica's queue gets the
/// message.
pub open spec fn spec_write(
    w: World,
    key: Seq<u8>,
    value: Seq<u8>,
    ex: Option<u64>,
    now: u64,
) -> World {
    let msg = spec_set_message(key, value);
    World {
        db: spec_set(w.db, key, value, ex, now),
        server: ServerView { offset: spec_advance(w.server.offset, msg.len()), ..w.server },
        replicas: spec_broadcast(w.replicas, msg),
    }
}

/// `WAIT needed timeout` at `now`: answered at once where enough replicas
/// have acknowledged the server's offset as it stands, or where the timeout
/// is 0; else the connection waits.
pub open spec fn spec_wait(w: World, needed: u64, timeout: u64, now: u64) -> Outcome {
    let target = w.server.offset;
    let count = spec_count_acked(w.replicas, target);
    if count >= needed || timeout == 0 {
        spec_reply(w, spec_integer(count))
    } else {
        spec_stay(
            PeerType::Waiting { needed, target, deadline: spec_advance(now, timeout as nat) },
            w,
        )
    }
}

/// What a client's command leads to when it is handled at `now` on the
/// connection of `peer`.
#[verifier::opaque]
pub open spec fn spec_client_command(cmd: CommandView, peer: u64, w: World, now: u64) -> Outcome {
    match cmd {
        CommandView::Ping => spec_reply(w, ascii("+PONG\r\n"@)),
        CommandView::Echo(value) => spec_reply(w, spec_bulk_string(Some(value))),
        CommandView::Get { key } => spec_reply(w, spec_bulk_string(spec_get(w.db, key, now))),
        CommandView::SetKey { key, value, ex } => spec_reply(
            spec_write(w, key, value, ex, now),
            ascii("+OK\r\n"@),
        ),
        CommandView::Info => spec_reply(w, spec_pairs(spec_info(w.server))),
        CommandView::Replconf(ReplconfView::ListeningPort(_)) => spec_reply(w, ascii("+OK\r\n"@)),
        CommandView::Replconf(ReplconfView::Capa(_)) => spec_reply(w, ascii("+OK\r\n"@)),
        CommandView::Replconf(ReplconfView::GetAck) => spec_reply(w, Seq::empty()),
        CommandView::Replconf(ReplconfView::Ack(_)) => spec_reply(w, Seq::empty()),
        CommandView::Psync => Outcome {
            world: World { replicas: w.replicas.insert(peer, spec_fresh()), ..w },
            output: spec_fullresync(w.server),
            next: Some(PeerType::Replica { offset: 0, awaiting_ack: false }),
        },
        CommandView::Wait(needed, timeout) => spec_wait(w, needed, timeout, now),
        CommandView::Error => spec_reply(w, ascii("-ERR\r\n"@)),
    }
}

/// A client's connection: a frame is read as a command and handled; the end
/// of the stream ends the connection; so does a malformed frame, after
/// `-ERR`. Ticks and wake-ups pass by.
pub open spec fn spec_handle_client(event: EventView, peer: u64, w: World, now: u64) -> Outcome {
    match event {
        EventView::Read(Ok(Some((items, _)))) => spec_client_command(
            spec_parse(items),
            peer,
            w,
            now,
        ),
        EventView::Read(Ok(None)) => spec_close(peer, w, Seq::empty()),
        EventView::Read(Err(FrameError::UnexpectedEof)) => spec_close(peer, w, Seq::empty()),
        EventView::Read(Err(_)) => spec_close(peer, w, ascii("-ERR\r\n"@)),
        _ => spec_stay(PeerType::Client, w),
    }
}

/// A connection with a `WAIT` pending: on a tick or a wake-up the reply is
/// sent where enough replicas have acknowledged `target` or `now` has reached
/// the deadline, with the count as it stands. Nothing is read meanwhile:
/// whatever is read ends the connection.
pub open spec fn spec_handle_waiting(
    needed: u64,
    target: u64,
    deadline: u64,
    event: EventView,
    peer: u64,
    w: World,
    now: u64,
) -> Outcome {
    match event {
        EventView::Read(_) => spec_close(peer, w, Seq::empty()),
        _ => {
            let count = spec_count_acked(w.replicas, target);
            if count >= needed || now >= deadline {
                spec_reply(w, spec_integer(count))
            } else {
                spec_stay(PeerType::Waiting { needed, target, deadline }, w)
            }
        },
    }
}

/// A replica's connection. A wake-up writes what is queued for the peer,
/// oldest first, and empties the queue. A tick asks for an acknowledgement,
/// unless one is owed already. Each write moves `offset` on by its length.
/// A frame that is `REPLCONF ACK n` records `n`; any other frame, the end of
/// the stream or a malformed frame ends the connection.
pub open spec fn spec_handle_replica(
    offset: u64,
    awaiting_ack: bool,
    event: EventView,
    peer: u64,
    w: World,
) -> Outcome {
    match event {
        EventView::Wake => {
            let output = concat(spec_queue(w.replicas, peer));
            Outcome {
                world: World { replicas: spec_take(w.replicas, peer), ..w },
                output,
                next: Some(
                    PeerType::Replica { offset: spec_advance(offset, output.len()), awaiting_ack },
                ),
            }
        },
        EventView::Tick => if awaiting_ack {
            spec_stay(PeerType::Replica { offset, awaiting_ack }, w)
        } else {
            let output = spec_getack_message();
            Outcome {
                world: w,
                output,
                next: Some(
                    PeerType::Replica {
                        offset: spec_advance(offset, output.len()),
                        awaiting_ack: true,
                    },
                ),
            }
        },
        EventView::Read(Ok(Some((items, _)))) => match spec_parse(items) {
            CommandView::Replconf(ReplconfView::Ack(n)) => Outcome {
                world: World { replicas: spec_ack(w.replicas, peer, n), ..w },
                output: Seq::empty(),
                next: Some(PeerType::Replica { offset, awaiting_ack: false }),
            },
            _ => spec_close(peer, w, Seq::empty()),
        },
        EventView::Read(_) => spec_close(peer, w, Seq::empty()),
    }
}

/// What `event` leads to on a connection of `peer` that is in `state`.
pub open spec fn spec_handle(
    state: PeerType,
    peer: u64,
    event: EventView,
    w: World,
    now: u64,
) -> Outcome {
    match state {
        PeerType::Client => spec_handle_client(event, peer, w, now),
        PeerType::Waiting { needed, target, deadline } => spec_handle_waiting(
            needed,
            target,
            deadline,
            event,
            peer,
            w,
            now,
        ),
        PeerType::Replica { offset, awaiting_ack } => spec_handle_replica(
            offset,
            awaiting_ack,
            event,
            peer,
            w,
        ),
    }
}

/// Whether a step carries the state `next` for the connection of `peer`.
pub open spec fn step_is(step: Step, peer: Peer, output: Seq<u8>, next: Option<PeerType>) -> bool {
    &&& step.output@ == output
    &&& match step.next {
        Some(c) => c.peer == peer && next == Some(c.internal),
        None => next is None,
    }
}

fn reply(peer: Peer, output: Vec<u8>) -> (step: Step)
    ensures
        step_is(step, peer, output@, Some(PeerType::Client)),
{
    Step { next: Some(MasterConnection { internal: PeerType::Client, peer }), output }
}

fn stay(peer: Peer, internal: PeerType) -> (step: Step)
    ensures
        step_is(step, peer, Seq::empty(), Some(internal)),
{
    Step { next: Some(MasterConnection { internal, peer }), output: Vec::new() }
}

fn set_message(key: &[u8], value: &[u8]) -> (r: Vec<u8>)
    ensures
        r@ == spec_set_message(key@, value@),
{
    proof {
        reveal_strlit("SET");
    }
    let verb = text("SET");
    let mut items: Vec<&[u8]> = Vec::new();
    items.push(verb.as_slice());
    items.push(key);
    items.push(value);
    assert(crate::bytes::slice_views(items@) =~= seq![ascii("SET"@), key@, value@]);
    array(&items)
}

fn getack_message() -> (r: Vec<u8>)
    ensures
        r@ == spec_getack_message(),
{
    proof {
        reveal_strlit("REPLCONF");
        reveal_strlit("GETACK");
        reveal_strlit("*");
    }
    let verb = text("REPLCONF");
    let word = text("GETACK");
    let star = text("*");
    let mut items: Vec<&[u8]> = Vec::new();
    items.push(verb.as_slice());
    items.push(word.as_slice());
    items.push(star.as_slice());
    assert(crate::bytes::slice_views(items@) =~= seq![
        ascii("REPLCONF"@),
        ascii("GETACK"@),
        ascii("*"@),
    ]);
    array(&items)
}

fn fullresync(server: &Server) -> (r: Vec<u8>)
    ensures
        r@ == spec_fullresync(server@),
{
    proof {
        reveal_strlit("+FULLRESYNC ");
    }
    let mut out = text("+FULLRESYNC ");
    let id = text(server.replid());
    append(&mut out, id.as_slice());
    out.push(32);
    let offset = render(server.offset());
    append(&mut out, offset.as_slice());
    out.push(13);
    out.push(10);
    let dump = snapshot();
    let framed = blob(dump.as_slice());
    append(&mut out, framed.as_slice());
    assert(out@ == ascii("+FULLRESYNC "@) + ascii(spec_replid()) + seq![32u8] + decimal(
        server@.offset as nat,
    ) + crlf() + spec_blob(spec_snapshot()));
    out
}

impl MasterConnection {
    /// The connection of `peer`, just accepted.
    pub fn new(peer: Peer) -> (c: MasterConnection)
        ensures
            c.peer == peer,
            c.internal == PeerType::Client,
    {
        MasterConnection { internal: PeerType::Client, peer }
    }

    /// Takes one event on this connection at the instant `now`.
    pub fn handle(
        self,
        event: Event,
        db: &mut DB,
        server: &mut Server,
        replicas: &mut Replicas,
        now: u64,
    ) -> (step: Step)
        ensures
            ({
                let o = spec_handle(
                    self.internal,
                    self.peer.addr,
                    event@,
                    World { db: old(db)@, server: old(server)@, replicas: old(replicas)@ },
                    now,
                );
                &&& step_is(step, self.peer, o.output, o.next)
                &&& final(db)@ == o.world.db
                &&& final(server)@ == o.world.server
                &&& final(replicas)@ == o.world.replicas
            }),
    {
        match self.internal {
            PeerType::Client => match event {
                Event::Read(Ok(Some((items, _)))) => {
                    let command = Command::parse(items.as_slice());
                    self.handle_client_command(command, db, server, replicas, now)
                },
                Event::Read(Ok(None)) => self.close(replicas, Vec::new()),
                Event::Read(Err(FrameError::UnexpectedEof)) => self.close(replicas, Vec::new()),
                Event::Read(Err(_)) => {
                    proof {
                        reveal_strlit("-ERR\r\n");
                    }
                    self.close(replicas, text("-ERR\r\n"))
                },
                _ => stay(self.peer, PeerType::Client),
            },
            PeerType::Waiting { needed, target, deadline } => match event {
                Event::Read(_) => self.close(replicas, Vec::new()),
                _ => {
                    let count = replicas.count_acked(target);
                    if count as u64 >= needed || now >= deadline {
                        reply(self.peer, integer(count as u64))
                    } else {
                        stay(self.peer, PeerType::Waiting { needed, target, deadline })
                    }
                },
            },
            PeerType::Replica { offset, awaiting_ack } => match event {
                Event::Wake => {
                    let queued = replicas.take(self.peer.addr);
                    let output = join_all(&queued);
                    let offset = offset.saturating_add(output.len() as u64);
                    Step {
                        next: Some(
                            MasterConnection {
                                internal: PeerType::Replica { offset, awaiting_ack },
                                peer: self.peer,
                            },
                        ),
                        output,
                    }
                },
                Event::Tick => {
                    if awaiting_ack {
                        stay(self.peer, PeerType::Replica { offset, awaiting_ack })
                    } else {
                        let output = getack_message();
                        let offset = offset.saturating_add(output.len() as u64);
                        Step {
                            next: Some(
                                MasterConnection {
                                    internal: PeerType::Replica { offset, awaiting_ack: true },
                                    peer: self.peer,
                                },
                            ),
                            output,
                        }
                    }
                },
                Event::Read(Ok(Some((items, _)))) => {
                    match Command::parse(items.as_slice()) {
                        Command::Replconf(Replconf::Ack(n)) => {
                            replicas.ack(self.peer.addr, n);
                            stay(self.peer, PeerType::Replica { offset, awaiting_ack: false })
                        },
                        _ => self.close(replicas, Vec::new()),
                    }
                },
                Event::Read(_) => self.close(replicas, Vec::new()),
            },
        }
    }

    /// Ends the connection after `output`: the peer leaves the registry.
    fn close(self, replicas: &mut Replicas, output: Vec<u8>) -> (step: Step)
        ensures
            step_is(step, self.peer, output@, None),
            final(replicas)@ == old(replicas)@.remove(self.peer.addr),
    {
        replicas.remove(&self.peer.addr);
        Step { next: None, output }
    }

    /// Answers and applies one command of a client.
    fn handle_client_command(
        self,
        command: Command,
        db: &mut DB,
        server: &mut Server,
        replicas: &mut Replicas,
        now: u64,
    ) -> (step: Step)
        ensures
            ({
                let o = spec_client_command(
                    command@,
                    self.peer.addr,
                    World { db: old(db)@, server: old(server)@, replicas: old(replicas)@ },
                    now,
                );
                &&& step_is(step, self.peer, o.output, o.next)
                &&& final(db)@ == o.world.db
                &&& final(server)@ == o.world.server
                &&& final(replicas)@ == o.world.replicas
            }),
    {
        proof {
            reveal(spec_client_command);
            reveal_strlit("+PONG\r\n");
            reveal_strlit("+OK\r\n");
            reveal_strlit("-ERR\r\n");
        }
        match command {
            Command::Ping => reply(self.peer, text("+PONG\r\n")),
            Command::Echo(value) => reply(self.peer, bulk_string(Some(value.as_slice()))),
            Command::Get { key } => {
                let found = db.get(key.as_slice(), now);
                let val = match &found {
                    Some(value) => bulk_string(Some(value.as_slice())),
                    None => bulk_string(None),
                };
                reply(self.peer, val)
            },
            Command::SetKey { key, value, ex } => {
                let msg = set_message(key.as_slice(), value.as_slice());
                db.set(key, value, ex, now);
                server.advance(msg.len() as u64);
                replicas.broadcast(msg.as_slice());
                reply(self.peer, text("+OK\r\n"))
            },
            Command::Info => {
                let lines = server.info();
                reply(self.peer, pairs(&lines))
            },
            Command::Replconf(Replconf::ListeningPort(_)) => reply(self.peer, text("+OK\r\n")),
            Command::Replconf(Replconf::Capa(_)) => reply(self.peer, text("+OK\r\n")),
            Command::Replconf(Replconf::GetAck) => reply(self.peer, Vec::new()),
            Command::Replconf(Replconf::Ack(_)) => reply(self.peer, Vec::new()),
            Command::Psync => {
                let output = fullresync(server);
                replicas.add(&self.peer);
                Step {
                    next: Some(
                        MasterConnection {
                            internal: PeerType::Replica { offset: 0, awaiting_ack: false },
                            peer: self.peer,
                        },
                    ),
                    output,
                }
            },
            Command::Wait(needed, timeout) => {
                let target = server.offset();
                let count = replicas.count_acked(target);
                if count as u64 >= needed || timeout == 0 {
                    reply(self.peer, integer(count as u64))
                } else {
                    stay(
                        self.peer,
                        PeerType::Waiting {
                            needed,
                            target,
                            deadline: now.saturating_add(timeout),
                        },
                    )
                }
            },
            Command::Error => reply(self.peer, text("-ERR\r\n")),
        }
    }
}

/// What `feed` did: the step to take, and how many bytes of the input the
/// handled frames took up.
#[derive(Debug, PartialEq, Eq)]
pub struct Fed {
    pub step: Step,
    pub consumed: usize,
}

/// What handling the frames at the front of a client's input leads to.
pub struct FeedOutcome {
    pub outcome: Outcome,
    pub consumed: int,
}

/// `f`, with `output` written and `consumed` bytes taken before it.
pub open spec fn spec_after(output: Seq<u8>, consumed: int, f: FeedOutcome) -> FeedOutcome {
    FeedOutcome {
        outcome: Outcome { output: output + f.outcome.output, ..f.outcome },
        consumed: consumed + f.consumed,
    }
}

/// What a client's connection does with the bytes `input` that have arrived:
/// the complete frames at the front are handled one by one, in the order in
/// which they arrived, each on the state that the one before it left, and
/// their replies follow each other in that order. It stops in front of a
/// frame that is not complete yet, behind a frame that ends the client state,
/// and at a malformed frame, which ends the connection after `-ERR`. The
/// bytes taken are exactly those of the frames that were handled.
pub open spec fn spec_feed(peer: u64, input: Seq<u8>, w: World, now: u64) -> FeedOutcome
    decreases input.len(),
{
    match spec_tokenize(input) {
        Ok(None) => FeedOutcome { outcome: spec_stay(PeerType::Client, w), consumed: 0 },
        Err(FrameError::UnexpectedEof) => FeedOutcome {
            outcome: spec_stay(PeerType::Client, w),
            consumed: 0,
        },
        Err(e) => FeedOutcome {
            outcome: spec_handle_client(EventView::Read(Err(e)), peer, w, now),
            consumed: 0,
        },
        Ok(Some((items, used))) => {
            let first = spec_handle_client(
                EventView::Read(Ok(Some((items, used)))),
                peer,
                w,
                now,
            );
            if first.next == Some(PeerType::Client) && 0 < used <= input.len() {
                spec_after(
                    first.output,
                    used,
                    spec_feed(peer, input.subrange(used, input.len() as int), first.world, now),
                )
            } else {
                FeedOutcome { outcome: first, consumed: used }
            }
        },
    }
}

impl MasterConnection {
    /// Handles the complete frames at the front of `input`, the bytes that
    /// have arrived on a client's connection and were not taken yet. On a
    /// connection that is not in the client state it does nothing.
    pub fn feed(
        self,
        input: &[u8],
        db: &mut DB,
        server: &mut Server,
        replicas: &mut Replicas,
        now: u64,
    ) -> (r: Fed)
        ensures
            r.consumed <= input.len(),
            self.internal == PeerType::Client ==> ({
                let f = spec_feed(
                    self.peer.addr,
                    input@,
                    World { db: old(db)@, server: old(server)@, replicas: old(replicas)@ },
                    now,
                );
                &&& step_is(r.step, self.peer, f.outcome.output, f.outcome.next)
                &&& r.consumed == f.consumed
                &&& final(db)@ == f.outcome.world.db
                &&& final(server)@ == f.outcome.world.server
                &&& final(replicas)@ == f.outcome.world.replicas
            }),
            self.internal != PeerType::Client ==> {
                &&& step_is(r.step, self.peer, Seq::empty(), Some(self.internal))
                &&& r.consumed == 0
                &&& final(db)@ == old(db)@
                &&& final(server)@ == old(server)@
                &&& final(replicas)@ == old(replicas)@
            },
    {
        let peer = self.peer;
        match self.internal {
            PeerType::Client => {},
            _ => {
                return Fed { step: stay(peer, self.internal), consumed: 0 };
            },
        }
        let ghost total = spec_feed(
            peer.addr,
            input@,
            World { db: db@, server: server@, replicas: replicas@ },
            now,
        );
        let mut out: Vec<u8> = Vec::new();
        let mut at: usize = 0;
        assert(input@.subrange(0, input@.len() as int) == input@);
        loop
            invariant
                at <= input.len(),
                self.internal == PeerType::Client,
                peer == self.peer,
                total == spec_feed(
                    peer.addr,
                    input@,
                    World { db: old(db)@, server: old(server)@, replicas: old(replicas)@ },
                    now,
                ),
                total == spec_after(
                    out@,
                    at as int,
                    spec_feed(
                        peer.addr,
                        input@.subrange(at as int, input@.len() as int),
                        World { db: db@, server: server@, replicas: replicas@ },
                        now,
                    ),
                ),
            decreases input.len() - at,
        {
            let rest = slice_subrange(input, at, input.len());
            let ghost w = World { db: db@, server: server@, replicas: replicas@ };
            let ghost before = out@;
            let read = tokenize(rest);
            match read {
                Ok(None) => {
                    return Fed {
                        step: Step {
                            next: Some(MasterConnection { internal: PeerType::Client, peer }),
                            output: out,
                        },
                        consumed: at,
                    };
                },
                Err(FrameError::UnexpectedEof) => {
                    return Fed {
                        step: Step {
                            next: Some(MasterConnection { internal: PeerType::Client, peer }),
                            output: out,
                        },
                        consumed: at,
                    };
                },
                Err(e) => {
                    let connection = MasterConnection { internal: PeerType::Client, peer };
                    let step = connection.handle(Event::Read(Err(e)), db, server, replicas, now);
                    append(&mut out, step.output.as_slice());
                    return Fed { step: Step { next: step.next, output: out }, consumed: at };
                },
                Ok(Some((items, used))) => {
                    let connection = MasterConnection { internal: PeerType::Client, peer };
                    let step = connection.handle(
                        Event::Read(Ok(Some((items, used)))),
                        db,
                        server,
                        replicas,
                        now,
                    );
                    append(&mut out, step.output.as_slice());
                    let go_on = match &step.next {
                        Some(c) => match c.internal {
                            PeerType::Client => true,
                            _ => false,
                        },
                        None => false,
                    };
                    proof {
                        assert(rest@.subrange(used as int, rest@.len() as int) == input@.subrange(
                            at + used,
                            input@.len() as int,
                        ));
                        assert(out@ == before + step.output@);
                        if go_on {
                            let here = spec_feed(peer.addr, rest@, w, now);
                            let next = spec_feed(
                                peer.addr,
                                input@.subrange(at + used, input@.len() as int),
                                World { db: db@, server: server@, replicas: replicas@ },
                                now,
                            );
                            assert(here == spec_after(step.output@, used as int, next));
                            assert(before + (step.output@ + next.outcome.output) == (before
                                + step.output@) + next.outcome.output);
                            assert(spec_after(before, at as int, here) == spec_after(
                                out@,
                                at + used,
                                next,
                            ));
                        }
                    }
                    if !go_on {
                        return Fed {
                            step: Step { next: step.next, output: out },
                            consumed: at + used,
                        };
                    }
                    at = at + used;
                },
            }
        }
    }
}

/// Requests that arrive together are answered in the order in which they
/// arrived, and not a byte is lost between them: where two frames stand back
/// to back in the input and both leave the connection in the client state,
/// the second is handled on the state that the first left, the reply to the
/// first stands in front of the reply to the second, and exactly the bytes
/// of the two frames are taken.
pub proof fn lemma_pipelined(
    first: Seq<Seq<u8>>,
    second: Seq<Seq<u8>>,
    w: World,
    peer: u64,
    now: u64,
)
    requires
        first.len() <= usize::MAX,
        second.len() <= usize::MAX,
        forall|i: int| 0 <= i < first.len() ==> (#[trigger] first[i]).len() <= usize::MAX,
        forall|i: int| 0 <= i < second.len() ==> (#[trigger] second[i]).len() <= usize::MAX,
        spec_client_command(spec_parse(first), peer, w, now).next == Some(PeerType::Client),
        spec_client_command(
            spec_parse(second),
            peer,
            spec_client_command(spec_parse(first), peer, w, now).world,
            now,
        ).next == Some(PeerType::Client),
    ensures
        ({
            let a = spec_client_command(spec_parse(first), peer, w, now);
            let b = spec_client_command(spec_parse(second), peer, a.world, now);
            spec_feed(peer, spec_array(first) + spec_array(second), w, now) == (FeedOutcome {
                outcome: Outcome {
                    world: b.world,
                    output: a.output + b.output,
                    next: Some(PeerType::Client),
                },
                consumed: (spec_array(first).len() + spec_array(second).len()) as int,
            })
        }),
{
    let one = spec_array(first);
    let two = spec_array(second);
    let input = one + two;
    let a = spec_client_command(spec_parse(first), peer, w, now);
    let b = spec_client_command(spec_parse(second), peer, a.world, now);
    lemma_tokenize_array(first, two);
    lemma_tokenize_array(second, Seq::empty());
    assert(two + Seq::<u8>::empty() == two);
    assert(input.subrange(one.len() as int, input.len() as int) == two);
    assert(two.subrange(two.len() as int, two.len() as int) == Seq::<u8>::empty());
    assert(one.len() > 0);
    assert(two.len() > 0);
    let after_two = spec_feed(peer, Seq::<u8>::empty(), b.world, now);
    assert(after_two == (FeedOutcome {
        outcome: spec_stay(PeerType::Client, b.world),
        consumed: 0,
    }));
    let at_two = spec_feed(peer, two, a.world, now);
    assert(at_two == spec_after(b.output, two.len() as int, after_two));
    assert(b.output + Seq::<u8>::empty() == b.output);
    assert(spec_feed(peer, input, w, now) == spec_after(a.output, one.len() as int, at_two));
}

/// A write reaches every registered replica byte for byte: the command puts
/// the encoded write at the end of each member's queue, behind what was
/// queued before and without touching membership, and the next wake-up on a
/// member's connection writes that member's queue in order, so that its
/// output ends with the encoded write, and leaves the queue empty.
pub proof fn lemma_write_reaches_replica(
    w: World,
    key: Seq<u8>,
    value: Seq<u8>,
    ex: Option<u64>,
    writer: u64,
    now: u64,
    replica: u64,
    offset: u64,
    awaiting_ack: bool,
)
    requires
        w.replicas.dom().contains(replica),
    ensures
        ({
            let msg = spec_set_message(key, value);
            let after = spec_client_command(CommandView::SetKey { key, value, ex }, writer, w, now).world;
            let woken = spec_handle(
                PeerType::Replica { offset, awaiting_ack },
                replica,
                EventView::Wake,
                after,
                now,
            );
            &&& after.replicas.dom() == w.replicas.dom()
            &&& spec_queue(after.replicas, replica) == spec_queue(w.replicas, replica).push(msg)
            &&& woken.output == concat(spec_queue(w.replicas, replica)) + msg
            &&& spec_queue(woken.world.replicas, replica) == Seq::<Seq<u8>>::empty()
            &&& woken.next == Some(
                PeerType::Replica { offset: spec_advance(offset, woken.output.len()), awaiting_ack },
            )
        }),
{
    reveal(spec_client_command);
    let msg = spec_set_message(key, value);
    let after = spec_client_command(CommandView::SetKey { key, value, ex }, writer, w, now).world;
    assert(after.replicas.dom() =~= w.replicas.dom());
    let queue = spec_queue(w.replicas, replica);
    assert(queue.push(msg).drop_last() == queue);
}

/// A value that was written on a connection is read back on it: `GET` answers
/// with the value as a bulk string at every instant from the write up to and
/// including the value's deadline, or at every later instant where it has
/// none.
pub proof fn lemma_set_then_get(
    w: World,
    key: Seq<u8>,
    value: Seq<u8>,
    ex: Option<u64>,
    peer: u64,
    now: u64,
    later: u64,
)
    requires
        now <= later,
        ex matches Some(ttl) ==> later <= now + ttl,
    ensures
        ({
            let written = spec_client_command(CommandView::SetKey { key, value, ex }, peer, w, now);
            let read = spec_client_command(CommandView::Get { key }, peer, written.world, later);
            &&& written.output == ascii("+OK\r\n"@)
            &&& read.output == spec_bulk_string(Some(value))
            &&& read.world == written.world
        }),
{
    reveal(spec_client_command);
}

/// Between a write and a read of a key, whatever command another key or no
/// key at all is written by leaves the read's answer as it was.
pub proof fn lemma_other_commands_keep_value(
    cmd: CommandView,
    w: World,
    key: Seq<u8>,
    peer: u64,
    now: u64,
    at: u64,
)
    requires
        cmd matches CommandView::SetKey { key: written, .. } ==> written != key,
    ensures
        spec_get(spec_client_command(cmd, peer, w, now).world.db, key, at) == spec_get(
            w.db,
            key,
            at,
        ),
{
    reveal(spec_client_command);
}

/// A value written with a time to live is gone once the time has passed:
/// `GET` answers with the absent bulk string at every instant strictly after
/// the write's instant plus the time to live.
pub proof fn lemma_get_after_deadline(
    w: World,
    key: Seq<u8>,
    value: Seq<u8>,
    ttl: u64,
    peer: u64,
    now: u64,
    later: u64,
)
    requires
        later > now + ttl,
    ensures
        ({
            let written = spec_client_command(
                CommandView::SetKey { key, value, ex: Some(ttl) },
                peer,
                w,
                now,
            );
            spec_client_command(CommandView::Get { key }, peer, written.world, later).output
                == ascii("$-1\r\n"@)
        }),
{
    reveal(spec_client_command);
}

/// `GET` of a key that the store does not hold answers with the absent bulk
/// string.
pub proof fn lemma_get_missing(w: World, key: Seq<u8>, peer: u64, now: u64)
    requires
        !w.db.dom().contains(key),
    ensures
        spec_client_command(CommandView::Get { key }, peer, w, now).output == ascii("$-1\r\n"@),
{
    reveal(spec_client_command);
}

/// `ECHO x` answers with exactly `x` as a bulk string and changes nothing,
/// however the verb is capitalised.
pub proof fn lemma_echo(verb: Seq<u8>, x: Seq<u8>, used: int, w: World, peer: u64, now: u64)
    requires
        crate::bytes::is_word(verb, "echo"@),
    ensures
        spec_handle(
            PeerType::Client,
            peer,
            EventView::Read(Ok(Some((seq![verb, x], used)))),
            w,
            now,
        ) == spec_reply(w, spec_bulk_string(Some(x))),
{
    reveal(spec_client_command);
    reveal_strlit("echo");
    reveal_strlit("ping");
    let t = seq![verb, x];
    assert(t.subrange(1, 2) =~= seq![x]);
    assert(crate::bytes::join(seq![x], 32u8) == x);
    assert(!crate::bytes::is_word(verb, "ping"@)) by {
        assert(crate::bytes::lowered(verb)[0] == ascii("echo"@)[0]);
    }
}

/// A frame that spells no command is answered with `-ERR`, changes nothing
/// and leaves the connection open for the next request.
pub proof fn lemma_error_keeps_connection(
    items: Seq<Seq<u8>>,
    used: int,
    w: World,
    peer: u64,
    now: u64,
)
    requires
        spec_parse(items) is Error,
    ensures
        spec_handle(PeerType::Client, peer, EventView::Read(Ok(Some((items, used)))), w, now)
            == spec_reply(w, ascii("-ERR\r\n"@)),
{
    reveal(spec_client_command);
}

/// A frame without items spells no command; nor does `GET` without a key,
/// `ECHO` without a value, or `SET` without both a key and a value.
pub proof fn lemma_missing_items(items: Seq<Seq<u8>>)
    requires
        items.len() == 0 || (items.len() == 1 && (crate::bytes::is_word(items[0], "get"@)
            || crate::bytes::is_word(items[0], "echo"@) || crate::bytes::is_word(
            items[0],
            "set"@,
        ))) || (items.len() == 2 && crate::bytes::is_word(items[0], "set"@)),
    ensures
        spec_parse(items) is Error,
{
    reveal_strlit("ping");
    reveal_strlit("echo");
    reveal_strlit("set");
    reveal_strlit("get");
    if items.len() > 0 {
        let verb = crate::bytes::lowered(items[0]);
        if crate::bytes::is_word(items[0], "get"@) {
            assert(verb[0] == ascii("get"@)[0]);
        }
        if crate::bytes::is_word(items[0], "set"@) {
            assert(verb[0] == ascii("set"@)[0]);
        }
        if crate::bytes::is_word(items[0], "echo"@) {
            assert(verb[0] == ascii("echo"@)[0]);
        }
    }
}

/// A peer is in the registry exactly while its connection is in the replica
/// state: whatever happens on a connection for which this holds, it holds
/// afterwards, and a connection that ends leaves no entry behind.
pub proof fn lemma_registered_while_replica(
    state: PeerType,
    peer: u64,
    event: EventView,
    w: World,
    now: u64,
)
    requires
        w.replicas.dom().contains(peer) <==> state is Replica,
    ensures
        ({
            let o = spec_handle(state, peer, event, w, now);
            o.world.replicas.dom().contains(peer) <==> (o.next matches Some(next) && next is Replica)
        }),
{
    reveal(spec_client_command);
}

/// What happens on one connection neither registers nor removes the peer of
/// another, and takes nothing out of the other's queue.
pub proof fn lemma_other_peers_stay(
    state: PeerType,
    peer: u64,
    event: EventView,
    w: World,
    now: u64,
    other: u64,
)
    requires
        other != peer,
    ensures
        ({
            let o = spec_handle(state, peer, event, w, now);
            &&& o.world.replicas.dom().contains(other) == w.replicas.dom().contains(other)
            &&& spec_queue(w.replicas, other).is_prefix_of(spec_queue(o.world.replicas, other))
        }),
{
    reveal(spec_client_command);
}

/// The server's replication offset never goes back.
pub proof fn lemma_offset_never_goes_back(
    state: PeerType,
    peer: u64,
    event: EventView,
    w: World,
    now: u64,
)
    ensures
        spec_handle(state, peer, event, w, now).world.server.offset >= w.server.offset,
{
    reveal(spec_client_command);
}

} // verus!
