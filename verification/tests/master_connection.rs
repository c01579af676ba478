use respkv::db::DB;
use respkv::master::{Event, Fed, MasterConnection, PeerType, Step};
use respkv::parse::{tokenize, FrameError};
use respkv::registry::{Peer, Replicas};
use respkv::server::{Role, Server};
use respkv::snapshot::snapshot;

fn b(s: &str) -> Vec<u8> {
    s.as_bytes().to_vec()
}

struct Node {
    db: DB,
    server: Server,
    replicas: Replicas,
}

fn node() -> Node {
    Node { db: DB::new(), server: Server::new(b("6379"), Role::Master), replicas: Replicas::new() }
}

fn client(addr: u64) -> MasterConnection {
    MasterConnection::new(Peer { addr })
}

fn send(n: &mut Node, c: MasterConnection, wire: &[u8], now: u64) -> Step {
    c.handle(Event::Read(tokenize(wire)), &mut n.db, &mut n.server, &mut n.replicas, now)
}

fn reply(addr: u64, output: &str) -> Step {
    Step { next: Some(client(addr)), output: b(output) }
}

const SET_K_V: &str = "*3\r\n$3\r\nSET\r\n$1\r\nk\r\n$1\r\nv\r\n";
const GETACK: &str = "*3\r\n$8\r\nREPLCONF\r\n$6\r\nGETACK\r\n$1\r\n*\r\n";

#[test]
fn new_connection_is_a_client() {
    let c = client(5);
    assert_eq!(c.internal, PeerType::Client);
    assert_eq!(c.peer, Peer { addr: 5 });
}

#[test]
fn ping_scenario() {
    let mut n = node();
    assert_eq!(send(&mut n, client(1), b"*1\r\n$4\r\nPING\r\n", 0), reply(1, "+PONG\r\n"));
}

#[test]
fn set_get_scenario() {
    let mut n = node();
    assert_eq!(
        send(&mut n, client(1), b"*3\r\n$3\r\nSET\r\n$3\r\nfoo\r\n$3\r\nbar\r\n", 10),
        reply(1, "+OK\r\n")
    );
    assert_eq!(
        send(&mut n, client(1), b"*2\r\n$3\r\nGET\r\n$3\r\nfoo\r\n", 11),
        reply(1, "$3\r\nbar\r\n")
    );
}

#[test]
fn expiry_scenario() {
    let mut n = node();
    assert_eq!(
        send(
            &mut n,
            client(1),
            b"*5\r\n$3\r\nSET\r\n$3\r\nfoo\r\n$3\r\nbar\r\n$2\r\nPX\r\n$3\r\n100\r\n",
            1000
        ),
        reply(1, "+OK\r\n")
    );
    assert_eq!(
        send(&mut n, client(1), b"*2\r\n$3\r\nGET\r\n$3\r\nfoo\r\n", 1050),
        reply(1, "$3\r\nbar\r\n")
    );
    assert_eq!(
        send(&mut n, client(1), b"*2\r\n$3\r\nGET\r\n$3\r\nfoo\r\n", 1150),
        reply(1, "$-1\r\n")
    );
}

#[test]
fn echo_multi_word_scenario() {
    let mut n = node();
    assert_eq!(
        send(&mut n, client(1), b"*3\r\n$4\r\nECHO\r\n$5\r\nhello\r\n$5\r\nworld\r\n", 0),
        reply(1, "$11\r\nhello world\r\n")
    );
}

#[test]
fn echo_returns_argument_as_bulk_string() {
    let mut n = node();
    assert_eq!(
        send(&mut n, client(1), b"*2\r\n$4\r\necho\r\n$3\r\nHey\r\n", 0),
        reply(1, "$3\r\nHey\r\n")
    );
}

#[test]
fn info_role_scenario() {
    let mut n = node();
    let step = send(&mut n, client(1), b"*2\r\n$4\r\nINFO\r\n$11\r\nreplication\r\n", 0);
    let text = String::from_utf8(step.output.clone()).unwrap();
    assert!(text.contains(
        "role:master\r\nmaster_replid:8371b4fb1155b71f4a04d3e1bc3e18c4a990aeeb\r\nmaster_repl_offset:0\r\n"
    ));
    assert_eq!(
        text,
        "$91\r\nrole:master\r\nmaster_replid:8371b4fb1155b71f4a04d3e1bc3e18c4a990aeeb\r\nmaster_repl_offset:0\r\n\r\n"
    );
    assert_eq!(step.next, Some(client(1)));
}

#[test]
fn info_reports_offset_after_writes() {
    let mut n = node();
    send(&mut n, client(1), SET_K_V.as_bytes(), 0);
    let step = send(&mut n, client(1), b"*1\r\n$4\r\nINFO\r\n", 0);
    let text = String::from_utf8(step.output).unwrap();
    assert!(text.ends_with("master_repl_offset:27\r\n\r\n"));
}

#[test]
fn get_of_never_set_key() {
    let mut n = node();
    assert_eq!(
        send(&mut n, client(1), b"*2\r\n$3\r\nGET\r\n$3\r\nfoo\r\n", 0),
        reply(1, "$-1\r\n")
    );
}

#[test]
fn set_with_px_zero_then_get_is_absent() {
    let mut n = node();
    send(
        &mut n,
        client(1),
        b"*5\r\n$3\r\nSET\r\n$1\r\nk\r\n$1\r\nv\r\n$2\r\nPX\r\n$1\r\n0\r\n",
        70,
    );
    assert_eq!(send(&mut n, client(1), b"*2\r\n$3\r\nGET\r\n$1\r\nk\r\n", 71), reply(1, "$-1\r\n"));
}

#[test]
fn set_empty_value_then_get() {
    let mut n = node();
    assert_eq!(
        send(&mut n, client(1), b"*3\r\n$3\r\nSET\r\n$1\r\nk\r\n$0\r\n\r\n", 0),
        reply(1, "+OK\r\n")
    );
    assert_eq!(
        send(&mut n, client(1), b"*2\r\n$3\r\nGET\r\n$1\r\nk\r\n", 0),
        reply(1, "$0\r\n\r\n")
    );
}

#[test]
fn array_of_length_zero_is_answered_with_err_and_connection_goes_on() {
    let mut n = node();
    assert_eq!(send(&mut n, client(1), b"*0\r\n", 0), reply(1, "-ERR\r\n"));
    assert_eq!(send(&mut n, client(1), b"*1\r\n$4\r\nPING\r\n", 0), reply(1, "+PONG\r\n"));
}

#[test]
fn missing_arguments_are_answered_with_err_and_connection_goes_on() {
    let mut n = node();
    assert_eq!(send(&mut n, client(1), b"*1\r\n$3\r\nGET\r\n", 0), reply(1, "-ERR\r\n"));
    assert_eq!(send(&mut n, client(1), b"*2\r\n$3\r\nSET\r\n$1\r\nk\r\n", 0), reply(1, "-ERR\r\n"));
    assert_eq!(send(&mut n, client(1), b"*1\r\n$4\r\nECHO\r\n", 0), reply(1, "-ERR\r\n"));
    assert_eq!(send(&mut n, client(1), b"*1\r\n$3\r\nDEL\r\n", 0), reply(1, "-ERR\r\n"));
    assert_eq!(send(&mut n, client(1), b"*1\r\n$4\r\nPING\r\n", 0), reply(1, "+PONG\r\n"));
}

#[test]
fn replconf_listening_port_and_capa_are_ok() {
    let mut n = node();
    assert_eq!(
        send(
            &mut n,
            client(1),
            b"*3\r\n$8\r\nREPLCONF\r\n$14\r\nlistening-port\r\n$4\r\n6380\r\n",
            0
        ),
        reply(1, "+OK\r\n")
    );
    assert_eq!(
        send(&mut n, client(1), b"*3\r\n$8\r\nREPLCONF\r\n$4\r\ncapa\r\n$6\r\npsync2\r\n", 0),
        reply(1, "+OK\r\n")
    );
}

#[test]
fn replconf_getack_and_ack_from_a_client_are_ignored() {
    let mut n = node();
    assert_eq!(send(&mut n, client(1), GETACK.as_bytes(), 0), reply(1, ""));
    assert_eq!(
        send(&mut n, client(1), b"*3\r\n$8\r\nREPLCONF\r\n$3\r\nACK\r\n$1\r\n5\r\n", 0),
        reply(1, "")
    );
    assert_eq!(n.replicas.len(), 0);
}

#[test]
fn end_of_stream_closes_the_connection() {
    let mut n = node();
    assert_eq!(send(&mut n, client(1), b"", 0), Step { next: None, output: vec![] });
}

#[test]
fn end_of_stream_inside_a_frame_closes_the_connection() {
    let mut n = node();
    let step = client(1).handle(
        Event::Read(Err(FrameError::UnexpectedEof)),
        &mut n.db,
        &mut n.server,
        &mut n.replicas,
        0,
    );
    assert_eq!(step, Step { next: None, output: vec![] });
}

#[test]
fn malformed_frame_is_answered_with_err_and_closes() {
    let mut n = node();
    assert_eq!(send(&mut n, client(1), b"PING\r\n", 0), Step { next: None, output: b("-ERR\r\n") });
    assert_eq!(send(&mut n, client(1), b"*x\r\n", 0), Step { next: None, output: b("-ERR\r\n") });
    assert_eq!(
        send(&mut n, client(1), b"*1\n$4\r\nPING\r\n", 0),
        Step { next: None, output: b("-ERR\r\n") }
    );
}

#[test]
fn tick_and_wake_pass_a_client_by() {
    let mut n = node();
    let tick = client(1).handle(Event::Tick, &mut n.db, &mut n.server, &mut n.replicas, 0);
    assert_eq!(tick, reply(1, ""));
    let wake = client(1).handle(Event::Wake, &mut n.db, &mut n.server, &mut n.replicas, 0);
    assert_eq!(wake, reply(1, ""));
}

fn psync(n: &mut Node, addr: u64) -> MasterConnection {
    let step = send(n, client(addr), b"*3\r\n$5\r\nPSYNC\r\n$1\r\n?\r\n$2\r\n-1\r\n", 0);
    step.next.unwrap()
}

#[test]
fn psync_sends_fullresync_and_snapshot_and_registers_the_peer() {
    let mut n = node();
    let step = send(&mut n, client(9), b"*3\r\n$5\r\nPSYNC\r\n$1\r\n?\r\n$2\r\n-1\r\n", 0);
    let mut expected = b("+FULLRESYNC 8371b4fb1155b71f4a04d3e1bc3e18c4a990aeeb 0\r\n$88\r\n");
    expected.extend_from_slice(&snapshot());
    assert_eq!(step.output, expected);
    assert_eq!(step.output.len(), 56 + 5 + 88);
    assert_eq!(
        step.next,
        Some(MasterConnection {
            internal: PeerType::Replica { offset: 0, awaiting_ack: false },
            peer: Peer { addr: 9 },
        })
    );
    assert_eq!(n.replicas.len(), 1);
}

#[test]
fn psync_reports_the_offset_reached() {
    let mut n = node();
    send(&mut n, client(1), SET_K_V.as_bytes(), 0);
    let step = send(&mut n, client(9), b"*3\r\n$5\r\nPSYNC\r\n$1\r\n?\r\n$2\r\n-1\r\n", 0);
    assert!(step.output.starts_with(b"+FULLRESYNC 8371b4fb1155b71f4a04d3e1bc3e18c4a990aeeb 27\r\n$88\r\n"));
}

#[test]
fn write_is_queued_for_every_replica_and_written_on_wake() {
    let mut n = node();
    let r1 = psync(&mut n, 1);
    let r2 = psync(&mut n, 2);
    assert_eq!(send(&mut n, client(3), SET_K_V.as_bytes(), 0), reply(3, "+OK\r\n"));
    let step1 = r1.handle(Event::Wake, &mut n.db, &mut n.server, &mut n.replicas, 0);
    assert_eq!(step1.output, b(SET_K_V));
    assert_eq!(
        step1.next.unwrap().internal,
        PeerType::Replica { offset: 27, awaiting_ack: false }
    );
    let step2 = r2.handle(Event::Wake, &mut n.db, &mut n.server, &mut n.replicas, 0);
    assert_eq!(step2.output, b(SET_K_V));
}

#[test]
fn writes_reach_a_replica_in_the_order_of_dispatch() {
    let mut n = node();
    let r = psync(&mut n, 1);
    send(&mut n, client(2), b"*3\r\n$3\r\nSET\r\n$1\r\na\r\n$1\r\n1\r\n", 0);
    send(&mut n, client(3), b"*3\r\n$3\r\nset\r\n$1\r\nb\r\n$1\r\n2\r\n", 0);
    send(&mut n, client(2), b"*5\r\n$3\r\nSET\r\n$1\r\na\r\n$1\r\n3\r\n$2\r\nPX\r\n$1\r\n9\r\n", 0);
    let step = r.handle(Event::Wake, &mut n.db, &mut n.server, &mut n.replicas, 0);
    assert_eq!(
        step.output,
        b("*3\r\n$3\r\nSET\r\n$1\r\na\r\n$1\r\n1\r\n*3\r\n$3\r\nSET\r\n$1\r\nb\r\n$1\r\n2\r\n*3\r\n$3\r\nSET\r\n$1\r\na\r\n$1\r\n3\r\n")
    );
    let next = step.next.unwrap();
    assert_eq!(next.internal, PeerType::Replica { offset: 81, awaiting_ack: false });
    let again = next.handle(Event::Wake, &mut n.db, &mut n.server, &mut n.replicas, 0);
    assert_eq!(again.output, b(""));
    assert_eq!(again.next.unwrap().internal, PeerType::Replica { offset: 81, awaiting_ack: false });
}

#[test]
fn tick_asks_replica_for_acknowledgement_once() {
    let mut n = node();
    let r = psync(&mut n, 1);
    let step = r.handle(Event::Tick, &mut n.db, &mut n.server, &mut n.replicas, 0);
    assert_eq!(step.output, b(GETACK));
    let asked = step.next.unwrap();
    assert_eq!(asked.internal, PeerType::Replica { offset: 37, awaiting_ack: true });
    let step = asked.handle(Event::Tick, &mut n.db, &mut n.server, &mut n.replicas, 0);
    assert_eq!(step.output, b(""));
    assert_eq!(step.next, Some(asked));
}

#[test]
fn ack_from_replica_is_recorded() {
    let mut n = node();
    let r = psync(&mut n, 1);
    let asked = r.handle(Event::Tick, &mut n.db, &mut n.server, &mut n.replicas, 0).next.unwrap();
    let step = send(&mut n, asked, b"*3\r\n$8\r\nREPLCONF\r\n$3\r\nACK\r\n$2\r\n37\r\n", 0);
    assert_eq!(step.output, b(""));
    assert_eq!(
        step.next.unwrap().internal,
        PeerType::Replica { offset: 37, awaiting_ack: false }
    );
    assert_eq!(n.replicas.count_acked(37), 1);
    assert_eq!(n.replicas.count_acked(38), 0);
}

#[test]
fn other_frame_from_replica_ends_the_session_and_removes_the_peer() {
    let mut n = node();
    let r = psync(&mut n, 1);
    let step = send(&mut n, r, b"*1\r\n$4\r\nPING\r\n", 0);
    assert_eq!(step, Step { next: None, output: vec![] });
    assert_eq!(n.replicas.len(), 0);
}

#[test]
fn end_of_stream_from_replica_removes_the_peer() {
    let mut n = node();
    let r1 = psync(&mut n, 1);
    let _r2 = psync(&mut n, 2);
    let step = send(&mut n, r1, b"", 0);
    assert_eq!(step, Step { next: None, output: vec![] });
    assert_eq!(n.replicas.len(), 1);
    send(&mut n, client(3), SET_K_V.as_bytes(), 0);
    assert_eq!(n.replicas.take(2), vec![b(SET_K_V)]);
    assert_eq!(n.replicas.take(1), Vec::<Vec<u8>>::new());
}

#[test]
fn wait_without_writes_counts_all_replicas_at_once() {
    let mut n = node();
    psync(&mut n, 1);
    psync(&mut n, 2);
    assert_eq!(
        send(&mut n, client(3), b"*3\r\n$4\r\nWAIT\r\n$1\r\n2\r\n$3\r\n500\r\n", 0),
        reply(3, ":2\r\n")
    );
}

#[test]
fn wait_without_replicas_and_nothing_needed() {
    let mut n = node();
    assert_eq!(
        send(&mut n, client(3), b"*3\r\n$4\r\nWAIT\r\n$1\r\n0\r\n$3\r\n500\r\n", 0),
        reply(3, ":0\r\n")
    );
}

#[test]
fn wait_with_timeout_zero_does_not_wait() {
    let mut n = node();
    psync(&mut n, 1);
    send(&mut n, client(3), SET_K_V.as_bytes(), 0);
    assert_eq!(
        send(&mut n, client(3), b"*3\r\n$4\r\nWAIT\r\n$1\r\n1\r\n$1\r\n0\r\n", 0),
        reply(3, ":0\r\n")
    );
}

#[test]
fn wait_waits_for_acknowledgement_of_the_offset_at_the_call() {
    let mut n = node();
    psync(&mut n, 1);
    psync(&mut n, 2);
    send(&mut n, client(3), SET_K_V.as_bytes(), 0);
    let step = send(&mut n, client(3), b"*3\r\n$4\r\nWAIT\r\n$1\r\n1\r\n$3\r\n500\r\n", 1000);
    assert_eq!(step.output, b(""));
    let waiting = step.next.unwrap();
    assert_eq!(waiting.internal, PeerType::Waiting { needed: 1, target: 27, deadline: 1500 });
    let step = waiting.handle(Event::Tick, &mut n.db, &mut n.server, &mut n.replicas, 1100);
    assert_eq!(step, Step { next: Some(waiting), output: vec![] });
    send(&mut n, client(4), SET_K_V.as_bytes(), 1150);
    n.replicas.ack(2, 27);
    let step = waiting.handle(Event::Wake, &mut n.db, &mut n.server, &mut n.replicas, 1200);
    assert_eq!(step, reply(3, ":1\r\n"));
}

#[test]
fn wait_answers_with_the_count_at_the_deadline() {
    let mut n = node();
    psync(&mut n, 1);
    psync(&mut n, 2);
    send(&mut n, client(3), SET_K_V.as_bytes(), 0);
    let waiting = send(&mut n, client(3), b"*3\r\n$4\r\nWAIT\r\n$1\r\n2\r\n$3\r\n500\r\n", 1000)
        .next
        .unwrap();
    n.replicas.ack(1, 30);
    let step = waiting.handle(Event::Tick, &mut n.db, &mut n.server, &mut n.replicas, 1499);
    assert_eq!(step, Step { next: Some(waiting), output: vec![] });
    let step = waiting.handle(Event::Tick, &mut n.db, &mut n.server, &mut n.replicas, 1500);
    assert_eq!(step, reply(3, ":1\r\n"));
}

#[test]
fn reading_while_waiting_ends_the_connection() {
    let mut n = node();
    psync(&mut n, 1);
    send(&mut n, client(3), SET_K_V.as_bytes(), 0);
    let waiting = send(&mut n, client(3), b"*3\r\n$4\r\nWAIT\r\n$1\r\n1\r\n$3\r\n500\r\n", 0)
        .next
        .unwrap();
    let step = send(&mut n, waiting, b"", 10);
    assert_eq!(step, Step { next: None, output: vec![] });
}

fn feed(n: &mut Node, c: MasterConnection, input: &[u8], now: u64) -> Fed {
    c.feed(input, &mut n.db, &mut n.server, &mut n.replicas, now)
}

#[test]
fn pipelined_requests_are_answered_in_arrival_order() {
    let mut n = node();
    let input = b"*3\r\n$3\r\nSET\r\n$3\r\nfoo\r\n$3\r\nbar\r\n*2\r\n$3\r\nGET\r\n$3\r\nfoo\r\n*1\r\n$4\r\nPING\r\n*2\r\n$3\r\nGET\r\n$1\r\nx\r\n";
    let fed = feed(&mut n, client(1), input, 0);
    assert_eq!(fed.consumed, input.len());
    assert_eq!(fed.step, reply(1, "+OK\r\n$3\r\nbar\r\n+PONG\r\n$-1\r\n"));
}

#[test]
fn feed_stops_in_front_of_an_incomplete_frame() {
    let mut n = node();
    let input = b"*1\r\n$4\r\nPING\r\n*2\r\n$4\r\nECHO\r\n$3\r\nab";
    let fed = feed(&mut n, client(1), input, 0);
    assert_eq!(fed, Fed { step: reply(1, "+PONG\r\n"), consumed: 14 });
    let fed = feed(&mut n, client(1), b"*2\r\n$4\r\nECHO\r\n$3\r\nabc\r\n", 0);
    assert_eq!(fed, Fed { step: reply(1, "$3\r\nabc\r\n"), consumed: 23 });
}

#[test]
fn feed_of_nothing_does_nothing() {
    let mut n = node();
    assert_eq!(feed(&mut n, client(1), b"", 0), Fed { step: reply(1, ""), consumed: 0 });
    assert_eq!(feed(&mut n, client(1), b"*1\r\n$4\r\nPI", 0), Fed { step: reply(1, ""), consumed: 0 });
}

#[test]
fn feed_answers_errors_in_place_and_goes_on() {
    let mut n = node();
    let input = b"*0\r\n*1\r\n$4\r\nPING\r\n*1\r\n$3\r\nGET\r\n*1\r\n$4\r\nPING\r\n";
    let fed = feed(&mut n, client(1), input, 0);
    assert_eq!(fed, Fed { step: reply(1, "-ERR\r\n+PONG\r\n-ERR\r\n+PONG\r\n"), consumed: input.len() });
}

#[test]
fn feed_ends_at_a_malformed_frame() {
    let mut n = node();
    let fed = feed(&mut n, client(1), b"*1\r\n$4\r\nPING\r\nbogus\r\n*1\r\n$4\r\nPING\r\n", 0);
    assert_eq!(
        fed,
        Fed { step: Step { next: None, output: b("+PONG\r\n-ERR\r\n") }, consumed: 14 }
    );
}

#[test]
fn feed_stops_behind_psync() {
    let mut n = node();
    let input = b"*1\r\n$4\r\nPING\r\n*3\r\n$5\r\nPSYNC\r\n$1\r\n?\r\n$2\r\n-1\r\n*3\r\n$8\r\nREPLCONF\r\n$3\r\nACK\r\n$1\r\n0\r\n";
    let fed = feed(&mut n, client(1), input, 0);
    assert_eq!(fed.consumed, 14 + 30);
    assert!(fed.step.output.starts_with(b"+PONG\r\n+FULLRESYNC "));
    assert_eq!(
        fed.step.next.unwrap().internal,
        PeerType::Replica { offset: 0, awaiting_ack: false }
    );
}

#[test]
fn feed_does_nothing_on_a_replica_connection() {
    let mut n = node();
    let r = psync(&mut n, 1);
    let fed = feed(&mut n, r, b"*1\r\n$4\r\nPING\r\n", 0);
    assert_eq!(fed, Fed { step: Step { next: Some(r), output: vec![] }, consumed: 0 });
    assert_eq!(n.replicas.len(), 1);
}
