use respkv::parse::pairs;
use respkv::server::{Role, Server};
use respkv::snapshot::snapshot;

fn b(s: &str) -> Vec<u8> {
    s.as_bytes().to_vec()
}

const EMPTY_DUMP: &str = "524544495330303131fa0972656469732d76657205372e322e30fa0a72656469732d62697473c040fa056374696d65c26d08bc65fa08757365642d6d656dc2b0c41000fa08616f662d62617365c000fff06e3bfec0ff5aa2";

#[test]
fn replid_is_the_fixed_forty_digits() {
    let server = Server::new(b("6379"), Role::Master);
    assert_eq!(server.replid(), "8371b4fb1155b71f4a04d3e1bc3e18c4a990aeeb");
    assert_eq!(server.replid().len(), 40);
}

#[test]
fn offset_starts_at_zero() {
    let server = Server::new(b("6379"), Role::Master);
    assert_eq!(server.offset(), 0);
}

#[test]
fn advance_moves_offset_on_and_stops_at_the_end() {
    let mut server = Server::new(b("6379"), Role::Master);
    server.advance(27);
    assert_eq!(server.offset(), 27);
    server.advance(0);
    assert_eq!(server.offset(), 27);
    server.advance(u64::MAX);
    assert_eq!(server.offset(), u64::MAX);
    server.advance(1);
    assert_eq!(server.offset(), u64::MAX);
}

#[test]
fn port_and_role_are_kept() {
    let role = Role::Replica { host: b("localhost"), port: b("6379") };
    let server = Server::new(b("6380"), role.clone());
    assert_eq!(server.port(), &b("6380"));
    assert_eq!(server.role(), &role);
}

#[test]
fn info_of_master() {
    let server = Server::new(b("6379"), Role::Master);
    assert_eq!(
        server.info(),
        vec![
            (b("role"), b("master")),
            (b("master_replid"), b("8371b4fb1155b71f4a04d3e1bc3e18c4a990aeeb")),
            (b("master_repl_offset"), b("0")),
        ]
    );
}

#[test]
fn info_of_replica() {
    let mut server =
        Server::new(b("6380"), Role::Replica { host: b("127.0.0.1"), port: b("6379") });
    server.advance(154);
    assert_eq!(
        server.info(),
        vec![
            (b("role"), b("slave")),
            (b("master_replid"), b("8371b4fb1155b71f4a04d3e1bc3e18c4a990aeeb")),
            (b("master_repl_offset"), b("154")),
        ]
    );
}

#[test]
fn info_as_bulk_string() {
    let server = Server::new(b("6379"), Role::Master);
    assert_eq!(
        pairs(&server.info()),
        b("$91\r\nrole:master\r\nmaster_replid:8371b4fb1155b71f4a04d3e1bc3e18c4a990aeeb\r\nmaster_repl_offset:0\r\n\r\n")
    );
}

#[test]
fn snapshot_is_the_decoded_dump() {
    let dump = snapshot();
    assert_eq!(dump.len(), 88);
    assert_eq!(&dump[..9], b"REDIS0011");
    assert_eq!(dump[9], 0xfa);
    assert_eq!(&dump[79..], &[0xff, 0xf0, 0x6e, 0x3b, 0xfe, 0xc0, 0xff, 0x5a, 0xa2]);
    assert_eq!(dump, hex::decode(EMPTY_DUMP).unwrap());
}

#[test]
fn snapshot_is_not_its_hexadecimal_text() {
    assert_ne!(snapshot(), b(EMPTY_DUMP));
}
