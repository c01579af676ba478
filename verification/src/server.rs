//! What a running instance knows of itself: its role, the port it listens
//! on, its replication id and its replication offset.

use crate::bytes::{ascii, decimal, render, text};
use vstd::prelude::*;

verus! {

/// Whether the instance takes writes itself or follows a master.
#[derive(Debug, Clone, PartialEq, Eq)]
pub enum Role {
    Master,
    Replica { host: Vec<u8>, port: Vec<u8> },
}

/// The identity of a running instance.
#[derive(Debug)]
pub struct Server {
    port: Vec<u8>,
    role: Role,
    repl_offset: u64,
}

/// What a `Role` stands for.
pub enum RoleView {
    Master,
    Replica { host: Seq<u8>, port: Seq<u8> },
}

impl View for Role {
    type V = RoleView;

    open spec fn view(&self) -> RoleView {
        match self {
            Role::Master => RoleView::Master,
            Role::Replica { host, port } => RoleView::Replica { host: host@, port: port@ },
        }
    }
}

/// What a `Server` stands for.
pub struct ServerView {
    pub port: Seq<u8>,
    pub role: RoleView,
    pub offset: u64,
}

/// The replication id, the same in every process.
pub open spec fn spec_replid() -> Seq<char> {
    "8371b4fb1155b71f4a04d3e1bc3e18c4a990aeeb"@
}

/// The lines that `INFO` reports: role, replication id, replication offset.
pub open spec fn spec_info(s: ServerView) -> Seq<(Seq<u8>, Seq<u8>)> {
    seq![
        (
            ascii("role"@),
            if s.role is Master {
                ascii("master"@)
            } else {
                ascii("slave"@)
            },
        ),
        (ascii("master_replid"@), ascii(spec_replid())),
        (ascii("master_repl_offset"@), decimal(s.offset as nat)),
    ]
}

/// `offset` moved on by `n`, stopping at the last value that 64 bits hold.
pub open spec fn spec_advance(offset: u64, n: nat) -> u64 {
    if offset + n > u64::MAX {
        u64::MAX
    } else {
        (offset + n) as u64
    }
}

impl View for Server {
    type V = ServerView;

    closed spec fn view(&self) -> ServerView {
        ServerView { port: self.port@, role: self.role@, offset: self.repl_offset }
    }
}

impl Server {
    /// An instance that listens on `port` in the given role, at offset 0.
    pub fn new(port: Vec<u8>, role: Role) -> (s: Server)
        ensures
            s@ == (ServerView { port: port@, role: role@, offset: 0 }),
    {
        Self { port, role, repl_offset: 0 }
    }

    pub fn replid(&self) -> (r: &'static str)
        ensures
            r@ == spec_replid(),
            r.is_ascii(),
    {
        proof {
            reveal_strlit("8371b4fb1155b71f4a04d3e1bc3e18c4a990aeeb");
        }
        "8371b4fb1155b71f4a04d3e1bc3e18c4a990aeeb"
    }

    pub fn offset(&self) -> (r: u64)
        ensures
            r == self@.offset,
    {
        self.repl_offset
    }

    pub fn port(&self) -> (r: &Vec<u8>)
        ensures
            r@ == self@.port,
    {
        &self.port
    }

    pub fn role(&self) -> (r: &Role)
        ensures
            r@ == self@.role,
    {
        &self.role
    }

    /// Moves the replication offset on by the `n` bytes that were produced
    /// or consumed. The offset never goes back.
    pub fn advance(&mut self, n: u64)
        ensures
            final(self)@ == (ServerView {
                offset: spec_advance(old(self)@.offset, n as nat),
                ..old(self)@
            }),
            final(self)@.offset >= old(self)@.offset,
    {
        self.repl_offset = self.repl_offset.saturating_add(n);
    }

    pub fn info(&self) -> (r: Vec<(Vec<u8>, Vec<u8>)>)
        ensures
            crate::parse::pair_views(r@) == spec_info(self@),
    {
        proof {
            reveal_strlit("role");
            reveal_strlit("master");
            reveal_strlit("slave");
            reveal_strlit("master_replid");
            reveal_strlit("master_repl_offset");
        }
        let mut result: Vec<(Vec<u8>, Vec<u8>)> = Vec::new();
        let role = match self.role {
            Role::Master => text("master"),
            Role::Replica { .. } => text("slave"),
        };
        result.push((text("role"), role));
        result.push((text("master_replid"), text(self.replid())));
        result.push((text("master_repl_offset"), render(self.offset())));
        assert(crate::parse::pair_views(result@) =~= spec_info(self@));
        result
    }
}

} // verus!
