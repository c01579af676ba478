//! The replica registry: the peers that completed `PSYNC`, each with the
//! queue of payloads that are still to be written to it and the offset that
//! it last acknowledged.

use crate::bytes::{copy, views};
use vstd::prelude::*;

verus! {

/// A connected counterpart, known by the number that stands for its remote
/// address.
#[derive(Debug, Clone, Copy, PartialEq, Eq, Structural)]
pub struct Peer {
    pub addr: u64,
}

/// A registered replica.
#[derive(Debug)]
pub struct Replica {
    peer: Peer,
    queue: Vec<Vec<u8>>,
    acked_offset: u64,
}

/// What a `Replica` stands for: the payloads that wait to be written, oldest
/// first, and the offset that the replica last acknowledged.
pub struct ReplicaView {
    pub queue: Seq<Seq<u8>>,
    pub acked: u64,
}

impl View for Replica {
    type V = ReplicaView;

    closed spec fn view(&self) -> ReplicaView {
        ReplicaView { queue: views(self.queue@), acked: self.acked_offset }
    }
}

impl Replica {
    pub closed spec fn addr(&self) -> u64 {
        self.peer.addr
    }

    /// A replica with nothing queued and nothing acknowledged.
    pub fn new(peer: Peer) -> (r: Replica)
        ensures
            r.addr() == peer.addr,
            r@ == (ReplicaView { queue: Seq::empty(), acked: 0 }),
    {
        let r = Self { peer, queue: Vec::new(), acked_offset: 0 };
        assert(views(r.queue@) =~= Seq::<Seq<u8>>::empty());
        r
    }

    /// Puts `val` at the end of the replica's queue.
    pub fn send(&mut self, val: Vec<u8>)
        ensures
            final(self).addr() == old(self).addr(),
            final(self)@ == (ReplicaView { queue: old(self)@.queue.push(val@), ..old(self)@ }),
    {
        self.queue.push(val);
        assert(views(self.queue@) =~= views(old(self).queue@).push(val@));
    }
}

/// A replica that has just registered.
pub open spec fn spec_fresh() -> ReplicaView {
    ReplicaView { queue: Seq::empty(), acked: 0 }
}

/// The registry after `msg` is put at the end of every member's queue.
pub open spec fn spec_broadcast(m: Map<u64, ReplicaView>, msg: Seq<u8>) -> Map<u64, ReplicaView> {
    Map::new(
        |a: u64| m.dom().contains(a),
        |a: u64| ReplicaView { queue: m[a].queue.push(msg), acked: m[a].acked },
    )
}

/// The members whose acknowledged offset is at least `offset`.
pub open spec fn spec_acked_peers(m: Map<u64, ReplicaView>, offset: u64) -> Set<u64> {
    Set::new(|a: u64| m.dom().contains(a) && m[a].acked >= offset)
}

/// How many members have acknowledged at least `offset`.
pub open spec fn spec_count_acked(m: Map<u64, ReplicaView>, offset: u64) -> nat {
    spec_acked_peers(m, offset).len()
}

/// What waits in the queue of `addr`; nothing where `addr` is no member.
pub open spec fn spec_queue(m: Map<u64, ReplicaView>, addr: u64) -> Seq<Seq<u8>> {
    if m.dom().contains(addr) {
        m[addr].queue
    } else {
        Seq::empty()
    }
}

/// The registry after the queue of `addr` is emptied.
pub open spec fn spec_take(m: Map<u64, ReplicaView>, addr: u64) -> Map<u64, ReplicaView> {
    if m.dom().contains(addr) {
        m.insert(addr, ReplicaView { queue: Seq::empty(), acked: m[addr].acked })
    } else {
        m
    }
}

/// The registry after `addr` acknowledges `offset`.
pub open spec fn spec_ack(m: Map<u64, ReplicaView>, addr: u64, offset: u64) -> Map<
    u64,
    ReplicaView,
> {
    if m.dom().contains(addr) {
        m.insert(addr, ReplicaView { queue: m[addr].queue, acked: offset })
    } else {
        m
    }
}

spec fn has_addr(peers: Seq<Replica>, addr: u64) -> bool {
    exists|i: int| 0 <= i < peers.len() && #[trigger] peers[i].addr() == addr
}

spec fn index_of(peers: Seq<Replica>, addr: u64) -> int {
    choose|i: int| 0 <= i < peers.len() && #[trigger] peers[i].addr() == addr
}

spec fn distinct_addrs(peers: Seq<Replica>) -> bool {
    forall|i: int, j: int|
        0 <= i < peers.len() && 0 <= j < peers.len() && i != j ==> #[trigger] peers[i].addr()
            != #[trigger] peers[j].addr()
}

spec fn peers_view(peers: Seq<Replica>) -> Map<u64, ReplicaView> {
    Map::new(|a: u64| has_addr(peers, a), |a: u64| peers[index_of(peers, a)]@)
}

spec fn count_prefix(peers: Seq<Replica>, offset: u64, k: int) -> nat
    decreases k,
{
    if k <= 0 {
        0
    } else {
        count_prefix(peers, offset, k - 1) + if peers[k - 1]@.acked >= offset {
            1nat
        } else {
            0nat
        }
    }
}

proof fn lemma_peer(peers: Seq<Replica>, i: int)
    requires
        distinct_addrs(peers),
        0 <= i < peers.len(),
    ensures
        has_addr(peers, peers[i].addr()),
        index_of(peers, peers[i].addr()) == i,
        peers_view(peers).dom().contains(peers[i].addr()),
        peers_view(peers)[peers[i].addr()] == peers[i]@,
{
    let j = index_of(peers, peers[i].addr());
    assert(peers[j].addr() == peers[i].addr());
}

/// Among distinct addresses, the members that acknowledged `offset` are as
/// many as the entries that did.
proof fn lemma_count(peers: Seq<Replica>, offset: u64, k: int)
    requires
        distinct_addrs(peers),
        0 <= k <= peers.len(),
    ensures
        spec_acked_peers(peers_view(peers.subrange(0, k)), offset).finite(),
        spec_acked_peers(peers_view(peers.subrange(0, k)), offset).len() == count_prefix(
            peers,
            offset,
            k,
        ),
        count_prefix(peers, offset, k) <= k,
        offset == 0 ==> count_prefix(peers, offset, k) == k,
    decreases k,
{
    let now = peers.subrange(0, k);
    let set_now = spec_acked_peers(peers_view(now), offset);
    if k == 0 {
        assert(set_now =~= Set::<u64>::empty());
    } else {
        lemma_count(peers, offset, k - 1);
        let before = peers.subrange(0, k - 1);
        let set_before = spec_acked_peers(peers_view(before), offset);
        let last = peers[k - 1];
        assert(distinct_addrs(now));
        assert(distinct_addrs(before));
        assert forall|a: u64| has_addr(now, a) <==> (has_addr(before, a) || a == last.addr()) by {
            if has_addr(now, a) {
                let j = index_of(now, a);
                if j < k - 1 {
                    assert(before[j].addr() == a);
                }
            }
            if has_addr(before, a) {
                let j = index_of(before, a);
                assert(now[j].addr() == a);
            }
            if a == last.addr() {
                assert(now[k - 1].addr() == a);
            }
        }
        assert(!has_addr(before, last.addr())) by {
            if has_addr(before, last.addr()) {
                let j = index_of(before, last.addr());
                assert(peers[j].addr() == peers[k - 1].addr());
            }
        }
        assert forall|a: u64| has_addr(before, a) implies peers_view(now)[a] == peers_view(
            before,
        )[a] by {
            let j = index_of(before, a);
            lemma_peer(before, j);
            assert(now[j].addr() == a);
            lemma_peer(now, j);
        }
        lemma_peer(now, k - 1);
        if last@.acked >= offset {
            assert(set_now =~= set_before.insert(last.addr()));
        } else {
            assert(set_now =~= set_before);
        }
    }
}

/// The registry of the replicas that are connected now.
#[derive(Debug)]
pub struct Replicas {
    peers: Vec<Replica>,
}

impl Replicas {
    #[verifier::type_invariant]
    spec fn distinct(&self) -> bool {
        distinct_addrs(self.peers@)
    }

    pub closed spec fn view(&self) -> Map<u64, ReplicaView> {
        peers_view(self.peers@)
    }

    /// A registry without members.
    pub fn new() -> (r: Replicas)
        ensures
            r@ == Map::<u64, ReplicaView>::empty(),
    {
        let r = Self { peers: Vec::new() };
        assert(r@ =~= Map::<u64, ReplicaView>::empty());
        r
    }

    fn find(&self, addr: u64) -> (r: Option<usize>)
        ensures
            match r {
                Some(i) => i < self.peers.len() && self.peers[i as int].addr() == addr,
                None => !has_addr(self.peers@, addr),
            },
    {
        let mut i: usize = 0;
        while i < self.peers.len()
            invariant
                i <= self.peers.len(),
                forall|j: int| 0 <= j < i ==> (#[trigger] self.peers[j]).addr() != addr,
            decreases self.peers.len() - i,
        {
            if self.peers[i].peer.addr == addr {
                return Some(i);
            }
            i += 1;
        }
        None
    }

    /// Puts `msg` at the end of every member's queue: each member gets the
    /// same bytes, behind whatever was queued for it before.
    pub fn broadcast(&mut self, msg: &[u8])
        ensures
            final(self)@ == spec_broadcast(old(self)@, msg@),
    {
        proof {
            use_type_invariant(&*self);
        }
        let ghost before = self.peers@;
        let mut peers: Vec<Replica> = Vec::new();
        std::mem::swap(&mut self.peers, &mut peers);
        let mut i: usize = 0;
        while i < peers.len()
            invariant
                i <= peers.len(),
                peers.len() == before.len(),
                forall|j: int| 0 <= j < peers.len() ==> (#[trigger] peers[j]).addr() == before[j].addr(),
                forall|j: int|
                    0 <= j < i ==> (#[trigger] peers[j])@ == (ReplicaView {
                        queue: before[j]@.queue.push(msg@),
                        acked: before[j]@.acked,
                    }),
                forall|j: int| i <= j < peers.len() ==> (#[trigger] peers[j])@ == before[j]@,
            decreases peers.len() - i,
        {
            peers[i].send(copy(msg));
            i += 1;
        }
        proof {
            let after = peers@;
            assert(distinct_addrs(after)) by {
                assert forall|a: int, b: int|
                    0 <= a < after.len() && 0 <= b < after.len() && a != b implies (
                #[trigger] after[a]).addr() != (#[trigger] after[b]).addr() by {
                    assert(after[a].addr() == before[a].addr());
                    assert(after[b].addr() == before[b].addr());
                }
            }
            assert forall|q: u64| has_addr(after, q) <==> has_addr(before, q) by {
                if has_addr(after, q) {
                    let j = index_of(after, q);
                    assert(before[j].addr() == q);
                }
                if has_addr(before, q) {
                    let j = index_of(before, q);
                    assert(after[j].addr() == q);
                }
            }
            assert forall|q: u64| has_addr(after, q) implies peers_view(after)[q]
                == spec_broadcast(peers_view(before), msg@)[q] by {
                let j = index_of(after, q);
                lemma_peer(after, j);
                assert(before[j].addr() == q);
                lemma_peer(before, j);
            }
            assert(peers_view(after) =~= spec_broadcast(peers_view(before), msg@));
        }
        self.peers = peers;
    }

    /// How many replicas are registered.
    pub fn len(&self) -> (n: usize)
        ensures
            self@.dom().finite(),
            n == self@.dom().len(),
    {
        proof {
            use_type_invariant(self);
            let peers = self.peers@;
            lemma_count(peers, 0, peers.len() as int);
            assert(peers.subrange(0, peers.len() as int) == peers);
            assert(spec_acked_peers(peers_view(peers), 0) =~= peers_view(peers).dom());
        }
        self.peers.len()
    }

    /// How many replicas have acknowledged at least `offset`.
    pub fn count_acked(&self, offset: u64) -> (n: usize)
        ensures
            spec_acked_peers(self@, offset).finite(),
            n == spec_count_acked(self@, offset),
    {
        proof {
            use_type_invariant(self);
        }
        let mut n: usize = 0;
        let mut i: usize = 0;
        while i < self.peers.len()
            invariant
                i <= self.peers.len(),
                n <= i,
                n == count_prefix(self.peers@, offset, i as int),
            decreases self.peers.len() - i,
        {
            if self.peers[i].acked_offset >= offset {
                n += 1;
            }
            i += 1;
        }
        proof {
            let peers = self.peers@;
            lemma_count(peers, offset, peers.len() as int);
            assert(peers.subrange(0, peers.len() as int) == peers);
        }
        n
    }

    /// Registers `peer` with an empty queue and nothing acknowledged. A member
    /// with the same address is replaced.
    pub fn add(&mut self, peer: &Peer)
        ensures
            final(self)@ == old(self)@.insert(peer.addr, spec_fresh()),
    {
        proof {
            use_type_invariant(&*self);
        }
        let ghost before = self.peers@;
        let ghost k = peer.addr;
        let found = self.find(peer.addr);
        let replica = Replica::new(*peer);
        let ghost e = replica@;
        let mut peers: Vec<Replica> = Vec::new();
        std::mem::swap(&mut self.peers, &mut peers);
        match found {
            Some(i) => {
                peers.set(i, replica);
                proof {
                    let after = peers@;
                    assert(distinct_addrs(after)) by {
                        assert forall|a: int, b: int|
                            0 <= a < after.len() && 0 <= b < after.len() && a != b implies (
                        #[trigger] after[a]).addr() != (#[trigger] after[b]).addr() by {
                            assert(after[a].addr() == before[a].addr());
                            assert(after[b].addr() == before[b].addr());
                        }
                    }
                    assert forall|q: u64| has_addr(after, q) <==> has_addr(before, q) by {
                        if has_addr(after, q) {
                            let j = index_of(after, q);
                            assert(before[j].addr() == q);
                        }
                        if has_addr(before, q) {
                            let j = index_of(before, q);
                            assert(after[j].addr() == q);
                        }
                    }
                    lemma_peer(before, i as int);
                    assert forall|q: u64| has_addr(after, q) implies peers_view(after)[q]
                        == peers_view(before).insert(k, e)[q] by {
                        let j = index_of(after, q);
                        lemma_peer(after, j);
                        assert(before[j].addr() == q);
                        lemma_peer(before, j);
                    }
                    assert(peers_view(after) =~= peers_view(before).insert(k, e));
                }
            },
            None => {
                peers.push(replica);
                proof {
                    let after = peers@;
                    let n = before.len() as int;
                    assert(distinct_addrs(after)) by {
                        assert forall|a: int, b: int|
                            0 <= a < after.len() && 0 <= b < after.len() && a != b implies (
                        #[trigger] after[a]).addr() != (#[trigger] after[b]).addr() by {
                            if a < n {
                                assert(after[a].addr() == before[a].addr());
                            }
                            if b < n {
                                assert(after[b].addr() == before[b].addr());
                            }
                        }
                    }
                    assert forall|q: u64| has_addr(after, q) <==> (has_addr(before, q) || q
                        == k) by {
                        if has_addr(after, q) {
                            let j = index_of(after, q);
                            if j < n {
                                assert(before[j].addr() == q);
                            }
                        }
                        if has_addr(before, q) {
                            let j = index_of(before, q);
                            assert(after[j].addr() == q);
                        }
                        if q == k {
                            assert(after[n].addr() == q);
                        }
                    }
                    assert forall|q: u64| has_addr(after, q) implies peers_view(after)[q]
                        == peers_view(before).insert(k, e)[q] by {
                        let j = index_of(after, q);
                        lemma_peer(after, j);
                        if j < n {
                            assert(before[j].addr() == q);
                            lemma_peer(before, j);
                        }
                    }
                    assert(peers_view(after) =~= peers_view(before).insert(k, e));
                }
            },
        }
        self.peers = peers;
    }

    /// Takes the member with the address `addr` out, with whatever is still
    /// in its queue. Does nothing where there is no such member.
    pub fn remove(&mut self, addr: &u64)
        ensures
            final(self)@ == old(self)@.remove(*addr),
    {
        proof {
            use_type_invariant(&*self);
        }
        let ghost before = self.peers@;
        let ghost k = *addr;
        let found = self.find(*addr);
        let mut peers: Vec<Replica> = Vec::new();
        std::mem::swap(&mut self.peers, &mut peers);
        match found {
            Some(i) => {
                peers.remove(i);
                proof {
                    let after = peers@;
                    let at = i as int;
                    assert forall|j: int| 0 <= j < after.len() implies #[trigger] after[j]
                        == before[if j < at {
                        j
                    } else {
                        j + 1
                    }] by {}
                    assert(distinct_addrs(after)) by {
                        assert forall|a: int, b: int|
                            0 <= a < after.len() && 0 <= b < after.len() && a != b implies (
                        #[trigger] after[a]).addr() != (#[trigger] after[b]).addr() by {
                            let a0 = if a < at {
                                a
                            } else {
                                a + 1
                            };
                            let b0 = if b < at {
                                b
                            } else {
                                b + 1
                            };
                            assert(after[a] == before[a0]);
                            assert(after[b] == before[b0]);
                        }
                    }
                    assert forall|q: u64| has_addr(after, q) <==> (has_addr(before, q) && q
                        != k) by {
                        if has_addr(after, q) {
                            let j = index_of(after, q);
                            let j0 = if j < at {
                                j
                            } else {
                                j + 1
                            };
                            assert(after[j] == before[j0]);
                            assert(before[j0].addr() == q);
                        }
                        if has_addr(before, q) && q != k {
                            let j0 = index_of(before, q);
                            let j = if j0 < at {
                                j0
                            } else {
                                j0 - 1
                            };
                            assert(after[j] == before[j0]);
                            assert(after[j].addr() == q);
                        }
                    }
                    assert forall|q: u64| has_addr(after, q) implies peers_view(after)[q]
                        == peers_view(before).remove(k)[q] by {
                        let j = index_of(after, q);
                        lemma_peer(after, j);
                        let j0 = if j < at {
                            j
                        } else {
                            j + 1
                        };
                        assert(after[j] == before[j0]);
                        lemma_peer(before, j0);
                    }
                    assert(peers_view(after) =~= peers_view(before).remove(k));
                }
            },
            None => {
                proof {
                    assert(peers_view(before) =~= peers_view(before).remove(k));
                }
            },
        }
        self.peers = peers;
    }

    /// Empties the queue of `addr` and hands its payloads back, oldest first.
    pub fn take(&mut self, addr: u64) -> (r: Vec<Vec<u8>>)
        ensures
            views(r@) == spec_queue(old(self)@, addr),
            final(self)@ == spec_take(old(self)@, addr),
    {
        proof {
            use_type_invariant(&*self);
        }
        let ghost before = self.peers@;
        let found = self.find(addr);
        let mut out: Vec<Vec<u8>> = Vec::new();
        assert(views(out@) =~= Seq::<Seq<u8>>::empty());
        match found {
            Some(i) => {
                let mut peers: Vec<Replica> = Vec::new();
                std::mem::swap(&mut self.peers, &mut peers);
                std::mem::swap(&mut peers[i].queue, &mut out);
                proof {
                    let after = peers@;
                    lemma_peer(before, i as int);
                    assert(views(after[i as int].queue@) =~= Seq::<Seq<u8>>::empty());
                    lemma_update(before, after, i as int);
                }
                self.peers = peers;
            },
            None => {},
        }
        out
    }

    /// Records that `addr` has acknowledged `offset`.
    pub fn ack(&mut self, addr: u64, offset: u64)
        ensures
            final(self)@ == spec_ack(old(self)@, addr, offset),
    {
        proof {
            use_type_invariant(&*self);
        }
        let ghost before = self.peers@;
        let found = self.find(addr);
        match found {
            Some(i) => {
                let mut peers: Vec<Replica> = Vec::new();
                std::mem::swap(&mut self.peers, &mut peers);
                peers[i].acked_offset = offset;
                proof {
                    let after = peers@;
                    lemma_peer(before, i as int);
                    lemma_update(before, after, i as int);
                }
                self.peers = peers;
            },
            None => {},
        }
    }
}

/// Changing what one entry holds, its address aside, changes the registry at
/// that address and nowhere else.
proof fn lemma_update(before: Seq<Replica>, after: Seq<Replica>, i: int)
    requires
        distinct_addrs(before),
        0 <= i < before.len(),
        after.len() == before.len(),
        after[i].addr() == before[i].addr(),
        forall|j: int| 0 <= j < before.len() && j != i ==> #[trigger] after[j] == before[j],
    ensures
        distinct_addrs(after),
        peers_view(after) == peers_view(before).insert(before[i].addr(), after[i]@),
{
    assert(distinct_addrs(after)) by {
        assert forall|a: int, b: int|
            0 <= a < after.len() && 0 <= b < after.len() && a != b implies (#[trigger] after[a]).addr()
            != (#[trigger] after[b]).addr() by {
            assert(after[a].addr() == before[a].addr());
            assert(after[b].addr() == before[b].addr());
        }
    }
    assert forall|q: u64| has_addr(after, q) <==> has_addr(before, q) by {
        if has_addr(after, q) {
            let j = index_of(after, q);
            assert(before[j].addr() == q);
        }
        if has_addr(before, q) {
            let j = index_of(before, q);
            assert(after[j].addr() == q);
        }
    }
    lemma_peer(before, i);
    assert forall|q: u64| has_addr(after, q) implies peers_view(after)[q] == peers_view(
        before,
    ).insert(before[i].addr(), after[i]@)[q] by {
        let j = index_of(after, q);
        lemma_peer(after, j);
        assert(before[j].addr() == q);
        lemma_peer(before, j);
    }
    assert(peers_view(after) =~= peers_view(before).insert(before[i].addr(), after[i]@));
}

} // verus!
