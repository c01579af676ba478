//! The commands that the server understands, and how a request frame's
//! items are read as one of them.

use crate::bytes::{
    append, copy, is_word, join, matches_word, parse_u64, spec_parse_u64, views,
};
use vstd::prelude::*;

verus! {

/// The forms of `REPLCONF`.
#[derive(Debug, Clone, PartialEq, Eq, PartialOrd, Ord)]
pub enum Replconf {
    /// `REPLCONF listening-port <port>`
    ListeningPort(Vec<u8>),
    /// `REPLCONF capa <capability>`
    Capa(Vec<u8>),
    /// `REPLCONF GETACK <anything>`
    GetAck,
    /// `REPLCONF ACK <offset>`
    Ack(u64),
}

/// A request, read from the items of one frame.
#[derive(Debug, Clone, PartialEq, Eq, PartialOrd, Ord)]
pub enum Command {
    Ping,
    Echo(Vec<u8>),
    /// `ex` is the time to live in milliseconds.
    SetKey { key: Vec<u8>, value: Vec<u8>, ex: Option<u64> },
    Get { key: Vec<u8> },
    Info,
    Replconf(Replconf),
    Psync,
    /// `WAIT <replicas> <timeout in milliseconds>`
    Wait(u64, u64),
    Error,
}

/// What a `Replconf` stands for.
pub enum ReplconfView {
    ListeningPort(Seq<u8>),
    Capa(Seq<u8>),
    GetAck,
    Ack(u64),
}

/// What a `Command` stands for.
pub enum CommandView {
    Ping,
    Echo(Seq<u8>),
    SetKey { key: Seq<u8>, value: Seq<u8>, ex: Option<u64> },
    Get { key: Seq<u8> },
    Info,
    Replconf(ReplconfView),
    Psync,
    Wait(u64, u64),
    Error,
}

impl View for Replconf {
    type V = ReplconfView;

    open spec fn view(&self) -> ReplconfView {
        match self {
            Replconf::ListeningPort(p) => ReplconfView::ListeningPort(p@),
            Replconf::Capa(c) => ReplconfView::Capa(c@),
            Replconf::GetAck => ReplconfView::GetAck,
            Replconf::Ack(n) => ReplconfView::Ack(*n),
        }
    }
}

impl View for Command {
    type V = CommandView;

    open spec fn view(&self) -> CommandView {
        match self {
            Command::Ping => CommandView::Ping,
            Command::Echo(v) => CommandView::Echo(v@),
            Command::SetKey { key, value, ex } => CommandView::SetKey {
                key: key@,
                value: value@,
                ex: *ex,
            },
            Command::Get { key } => CommandView::Get { key: key@ },
            Command::Info => CommandView::Info,
            Command::Replconf(r) => CommandView::Replconf(r@),
            Command::Psync => CommandView::Psync,
            Command::Wait(n, t) => CommandView::Wait(*n, *t),
            Command::Error => CommandView::Error,
        }
    }
}

/// `SET key value` and `SET key value PX milliseconds`.
pub open spec fn spec_parse_set(t: Seq<Seq<u8>>) -> CommandView {
    if t.len() == 3 {
        CommandView::SetKey { key: t[1], value: t[2], ex: None }
    } else if t.len() == 5 && is_word(t[3], "px"@) {
        match spec_parse_u64(t[4]) {
            Some(ms) => CommandView::SetKey { key: t[1], value: t[2], ex: Some(ms) },
            None => CommandView::Error,
        }
    } else {
        CommandView::Error
    }
}

/// `REPLCONF` with one of its four keywords and one argument.
pub open spec fn spec_parse_replconf(t: Seq<Seq<u8>>) -> CommandView {
    if t.len() != 3 {
        CommandView::Error
    } else if is_word(t[1], "listening-port"@) {
        CommandView::Replconf(ReplconfView::ListeningPort(t[2]))
    } else if is_word(t[1], "capa"@) {
        CommandView::Replconf(ReplconfView::Capa(t[2]))
    } else if is_word(t[1], "getack"@) {
        CommandView::Replconf(ReplconfView::GetAck)
    } else if is_word(t[1], "ack"@) {
        match spec_parse_u64(t[2]) {
            Some(offset) => CommandView::Replconf(ReplconfView::Ack(offset)),
            None => CommandView::Error,
        }
    } else {
        CommandView::Error
    }
}

/// `WAIT replicas timeout`, both unsigned numbers.
pub open spec fn spec_parse_wait(t: Seq<Seq<u8>>) -> CommandView {
    if t.len() != 3 {
        CommandView::Error
    } else {
        match (spec_parse_u64(t[1]), spec_parse_u64(t[2])) {
            (Some(n), Some(timeout)) => CommandView::Wait(n, timeout),
            _ => CommandView::Error,
        }
    }
}

/// The command that the items of a frame spell. The verb and the keywords
/// `px`, `listening-port`, `capa`, `getack` and `ack` are matched without
/// regard to ASCII letter case; every other item is taken byte for byte.
/// Whatever has no verb, an unknown verb, the wrong number of items or a
/// number that does not read as one is `Error`.
pub open spec fn spec_parse(t: Seq<Seq<u8>>) -> CommandView {
    if t.len() == 0 {
        CommandView::Error
    } else if is_word(t[0], "ping"@) {
        if t.len() == 1 {
            CommandView::Ping
        } else {
            CommandView::Error
        }
    } else if is_word(t[0], "echo"@) {
        if t.len() >= 2 {
            CommandView::Echo(join(t.subrange(1, t.len() as int), 32u8))
        } else {
            CommandView::Error
        }
    } else if is_word(t[0], "set"@) {
        spec_parse_set(t)
    } else if is_word(t[0], "get"@) {
        if t.len() == 2 {
            CommandView::Get { key: t[1] }
        } else {
            CommandView::Error
        }
    } else if is_word(t[0], "info"@) {
        CommandView::Info
    } else if is_word(t[0], "replconf"@) {
        spec_parse_replconf(t)
    } else if is_word(t[0], "psync"@) {
        if t.len() == 3 {
            CommandView::Psync
        } else {
            CommandView::Error
        }
    } else if is_word(t[0], "wait"@) {
        spec_parse_wait(t)
    } else {
        CommandView::Error
    }
}

/// The items from the second on, joined by single spaces.
fn join_rest(input: &[Vec<u8>]) -> (r: Vec<u8>)
    requires
        input.len() >= 2,
    ensures
        r@ == join(views(input@).subrange(1, input.len() as int), 32u8),
{
    let ghost rest = views(input@).subrange(1, input.len() as int);
    let mut out: Vec<u8> = copy(input[1].as_slice());
    assert(rest.subrange(0, 1) == seq![input@[1]@]);
    let mut i: usize = 2;
    while i < input.len()
        invariant
            2 <= i <= input.len(),
            rest == views(input@).subrange(1, input.len() as int),
            out@ == join(rest.subrange(0, i - 1), 32u8),
        decreases input.len() - i,
    {
        out.push(32);
        append(&mut out, input[i].as_slice());
        proof {
            let next = rest.subrange(0, i as int);
            assert(next.drop_last() == rest.subrange(0, i - 1));
            assert(next.last() == input@[i as int]@);
        }
        i += 1;
    }
    assert(rest.subrange(0, i - 1) == rest);
    out
}

fn parse_set(input: &[Vec<u8>]) -> (r: Command)
    requires
        input.len() >= 1,
    ensures
        r@ == spec_parse_set(views(input@)),
{
    proof {
        reveal_strlit("px");
    }
    if input.len() == 3 {
        Command::SetKey {
            key: copy(input[1].as_slice()),
            value: copy(input[2].as_slice()),
            ex: None,
        }
    } else if input.len() == 5 && matches_word(input[3].as_slice(), "px") {
        match parse_u64(input[4].as_slice()) {
            Some(ms) => Command::SetKey {
                key: copy(input[1].as_slice()),
                value: copy(input[2].as_slice()),
                ex: Some(ms),
            },
            None => Command::Error,
        }
    } else {
        Command::Error
    }
}

fn parse_replconf(input: &[Vec<u8>]) -> (r: Command)
    requires
        input.len() >= 1,
    ensures
        r@ == spec_parse_replconf(views(input@)),
{
    proof {
        reveal_strlit("listening-port");
        reveal_strlit("capa");
        reveal_strlit("getack");
        reveal_strlit("ack");
    }
    if input.len() != 3 {
        Command::Error
    } else if matches_word(input[1].as_slice(), "listening-port") {
        Command::Replconf(Replconf::ListeningPort(copy(input[2].as_slice())))
    } else if matches_word(input[1].as_slice(), "capa") {
        Command::Replconf(Replconf::Capa(copy(input[2].as_slice())))
    } else if matches_word(input[1].as_slice(), "getack") {
        Command::Replconf(Replconf::GetAck)
    } else if matches_word(input[1].as_slice(), "ack") {
        match parse_u64(input[2].as_slice()) {
            Some(offset) => Command::Replconf(Replconf::Ack(offset)),
            None => Command::Error,
        }
    } else {
        Command::Error
    }
}

fn parse_wait(input: &[Vec<u8>]) -> (r: Command)
    requires
        input.len() >= 1,
    ensures
        r@ == spec_parse_wait(views(input@)),
{
    if input.len() != 3 {
        return Command::Error;
    }
    match parse_u64(input[1].as_slice()) {
        None => Command::Error,
        Some(n) => match parse_u64(input[2].as_slice()) {
            None => Command::Error,
            Some(timeout) => Command::Wait(n, timeout),
        },
    }
}

impl Command {
    /// Reads the items of one request frame as a command.
    pub fn parse(input: &[Vec<u8>]) -> (r: Command)
        ensures
            r@ == spec_parse(views(input@)),
    {
        proof {
            reveal_strlit("ping");
            reveal_strlit("echo");
            reveal_strlit("set");
            reveal_strlit("get");
            reveal_strlit("info");
            reveal_strlit("replconf");
            reveal_strlit("psync");
            reveal_strlit("wait");
        }
        if input.len() == 0 {
            return Command::Error;
        }
        let verb = input[0].as_slice();
        if matches_word(verb, "ping") {
            if input.len() == 1 {
                Command::Ping
            } else {
                Command::Error
            }
        } else if matches_word(verb, "echo") {
            if input.len() >= 2 {
                Command::Echo(join_rest(input))
            } else {
                Command::Error
            }
        } else if matches_word(verb, "set") {
            parse_set(input)
        } else if matches_word(verb, "get") {
            if input.len() == 2 {
                Command::Get { key: copy(input[1].as_slice()) }
            } else {
                Command::Error
            }
        } else if matches_word(verb, "info") {
            Command::Info
        } else if matches_word(verb, "replconf") {
            parse_replconf(input)
        } else if matches_word(verb, "psync") {
            if input.len() == 3 {
                Command::Psync
            } else {
                Command::Error
            }
        } else if matches_word(verb, "wait") {
            parse_wait(input)
        } else {
            Command::Error
        }
    }
}

} // verus!
