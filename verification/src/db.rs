//! The store: keys with their values, each of which may carry a deadline.
//!
//! Time is a count of milliseconds on a clock that never runs backwards; the
//! caller reads the clock and hands the reading in.

use crate::bytes::{copy, option_view, same};
use vstd::prelude::*;

verus! {

/// A stored value, with the instant at which it stops being readable where
/// it has one.
#[derive(Debug, Clone, PartialEq, Eq)]
pub enum Entry {
    Simple(Vec<u8>),
    Expire(Vec<u8>, u64),
}

impl View for Entry {
    type V = (Seq<u8>, Option<u64>);

    open spec fn view(&self) -> (Seq<u8>, Option<u64>) {
        match self {
            Entry::Simple(value) => (value@, None),
            Entry::Expire(value, deadline) => (value@, Some(*deadline)),
        }
    }
}

#[derive(Debug)]
struct Slot {
    key: Vec<u8>,
    entry: Entry,
}

/// The store. Its view maps each key to its value and optional deadline.
#[derive(Debug)]
pub struct DB {
    slots: Vec<Slot>,
}

/// The deadline of a value written at `now` with the time to live `ex`. A
/// deadline beyond the clock's range is the clock's last instant.
pub open spec fn spec_deadline(now: u64, ex: Option<u64>) -> Option<u64> {
    match ex {
        None => None,
        Some(ttl) => Some(
            if now + ttl > u64::MAX {
                u64::MAX
            } else {
                (now + ttl) as u64
            },
        ),
    }
}

/// What a read of `key` at `now` gives: the value, unless the key is not
/// there or its deadline lies strictly before `now`.
pub open spec fn spec_get(
    m: Map<Seq<u8>, (Seq<u8>, Option<u64>)>,
    key: Seq<u8>,
    now: u64,
) -> Option<Seq<u8>> {
    if !m.dom().contains(key) {
        None
    } else {
        match m[key].1 {
            Some(deadline) if deadline < now => None,
            _ => Some(m[key].0),
        }
    }
}

/// The store after `key` is written at `now`: whatever stood under `key` is
/// replaced.
pub open spec fn spec_set(
    m: Map<Seq<u8>, (Seq<u8>, Option<u64>)>,
    key: Seq<u8>,
    value: Seq<u8>,
    ex: Option<u64>,
    now: u64,
) -> Map<Seq<u8>, (Seq<u8>, Option<u64>)> {
    m.insert(key, (value, spec_deadline(now, ex)))
}

spec fn has_key(slots: Seq<Slot>, key: Seq<u8>) -> bool {
    exists|i: int| 0 <= i < slots.len() && #[trigger] slots[i].key@ == key
}

spec fn index_of(slots: Seq<Slot>, key: Seq<u8>) -> int {
    choose|i: int| 0 <= i < slots.len() && #[trigger] slots[i].key@ == key
}

spec fn distinct_keys(slots: Seq<Slot>) -> bool {
    forall|i: int, j: int|
        0 <= i < slots.len() && 0 <= j < slots.len() && i != j ==> #[trigger] slots[i].key@
            != #[trigger] slots[j].key@
}

spec fn slots_view(slots: Seq<Slot>) -> Map<Seq<u8>, (Seq<u8>, Option<u64>)> {
    Map::new(|k: Seq<u8>| has_key(slots, k), |k: Seq<u8>| slots[index_of(slots, k)].entry@)
}

proof fn lemma_slot(slots: Seq<Slot>, i: int)
    requires
        distinct_keys(slots),
        0 <= i < slots.len(),
    ensures
        has_key(slots, slots[i].key@),
        index_of(slots, slots[i].key@) == i,
        slots_view(slots).dom().contains(slots[i].key@),
        slots_view(slots)[slots[i].key@] == slots[i].entry@,
{
    let j = index_of(slots, slots[i].key@);
    assert(slots[j].key@ == slots[i].key@);
}

impl DB {
    #[verifier::type_invariant]
    spec fn distinct(&self) -> bool {
        distinct_keys(self.slots@)
    }

    pub closed spec fn view(&self) -> Map<Seq<u8>, (Seq<u8>, Option<u64>)> {
        slots_view(self.slots@)
    }

    /// An empty store.
    pub fn new() -> (db: DB)
        ensures
            db@ == Map::<Seq<u8>, (Seq<u8>, Option<u64>)>::empty(),
    {
        let db = DB { slots: Vec::new() };
        assert(db@ =~= Map::<Seq<u8>, (Seq<u8>, Option<u64>)>::empty());
        db
    }

    fn find(&self, key: &[u8]) -> (r: Option<usize>)
        ensures
            match r {
                Some(i) => i < self.slots.len() && self.slots[i as int].key@ == key@,
                None => !has_key(self.slots@, key@),
            },
    {
        let mut i: usize = 0;
        while i < self.slots.len()
            invariant
                i <= self.slots.len(),
                forall|j: int| 0 <= j < i ==> (#[trigger] self.slots[j]).key@ != key@,
            decreases self.slots.len() - i,
        {
            if same(self.slots[i].key.as_slice(), key) {
                return Some(i);
            }
            i += 1;
        }
        None
    }

    /// Reads `key` at the instant `now`.
    pub fn get(&self, key: &[u8], now: u64) -> (r: Option<Vec<u8>>)
        ensures
            option_view(r) == spec_get(self@, key@, now),
    {
        proof {
            use_type_invariant(self);
        }
        match self.find(key) {
            None => None,
            Some(i) => {
                proof {
                    lemma_slot(self.slots@, i as int);
                }
                match &self.slots[i].entry {
                    Entry::Simple(value) => Some(copy(value.as_slice())),
                    Entry::Expire(value, deadline) => {
                        if *deadline < now {
                            None
                        } else {
                            Some(copy(value.as_slice()))
                        }
                    },
                }
            },
        }
    }

    /// Writes `value` under `key` at the instant `now`, to live for `ex`
    /// milliseconds where `ex` is given, else without limit.
    pub fn set(&mut self, key: Vec<u8>, value: Vec<u8>, ex: Option<u64>, now: u64)
        ensures
            final(self)@ == spec_set(old(self)@, key@, value@, ex, now),
    {
        proof {
            use_type_invariant(&*self);
        }
        let entry = match ex {
            None => Entry::Simple(value),
            Some(ttl) => Entry::Expire(value, now.saturating_add(ttl)),
        };
        let ghost before = self.slots@;
        let ghost k = key@;
        let ghost e = entry@;
        assert(e == (value@, spec_deadline(now, ex)));
        let found = self.find(key.as_slice());
        let mut slots: Vec<Slot> = Vec::new();
        std::mem::swap(&mut self.slots, &mut slots);
        match found {
            Some(i) => {
                slots.set(i, Slot { key, entry });
                proof {
                    let after = slots@;
                    assert(distinct_keys(after)) by {
                        assert forall|a: int, b: int|
                            0 <= a < after.len() && 0 <= b < after.len() && a != b implies (
                        #[trigger] after[a]).key@ != (#[trigger] after[b]).key@ by {
                            assert(after[a].key@ == before[a].key@);
                            assert(after[b].key@ == before[b].key@);
                        }
                    }
                    assert forall|q: Seq<u8>| has_key(after, q) <==> has_key(before, q) by {
                        if has_key(after, q) {
                            let j = index_of(after, q);
                            assert(before[j].key@ == q);
                        }
                        if has_key(before, q) {
                            let j = index_of(before, q);
                            assert(after[j].key@ == q);
                        }
                    }
                    lemma_slot(before, i as int);
                    assert forall|q: Seq<u8>| has_key(after, q) implies slots_view(after)[q]
                        == slots_view(before).insert(k, e)[q] by {
                        let j = index_of(after, q);
                        lemma_slot(after, j);
                        assert(before[j].key@ == q);
                        lemma_slot(before, j);
                    }
                    assert(slots_view(after) =~= slots_view(before).insert(k, e));
                }
            },
            None => {
                slots.push(Slot { key, entry });
                proof {
                    let after = slots@;
                    let n = before.len() as int;
                    assert(distinct_keys(after)) by {
                        assert forall|a: int, b: int|
                            0 <= a < after.len() && 0 <= b < after.len() && a != b implies (
                        #[trigger] after[a]).key@ != (#[trigger] after[b]).key@ by {
                            if a < n {
                                assert(after[a].key@ == before[a].key@);
                            }
                            if b < n {
                                assert(after[b].key@ == before[b].key@);
                            }
                        }
                    }
                    assert forall|q: Seq<u8>| has_key(after, q) <==> (has_key(before, q) || q
                        == k) by {
                        if has_key(after, q) {
                            let j = index_of(after, q);
                            if j < n {
                                assert(before[j].key@ == q);
                            }
                        }
                        if has_key(before, q) {
                            let j = index_of(before, q);
                            assert(after[j].key@ == q);
                        }
                        if q == k {
                            assert(after[n].key@ == q);
                        }
                    }
                    assert forall|q: Seq<u8>| has_key(after, q) implies slots_view(after)[q]
                        == slots_view(before).insert(k, e)[q] by {
                        let j = index_of(after, q);
                        lemma_slot(after, j);
                        if j < n {
                            assert(before[j].key@ == q);
                            lemma_slot(before, j);
                        }
                    }
                    assert(slots_view(after) =~= slots_view(before).insert(k, e));
                }
            },
        }
        self.slots = slots;
    }
}

/// A value that was written is read back, at the instant of the write and
/// at every later instant up to and including its deadline; without a time to
/// live, at every later instant.
pub proof fn lemma_get_after_set(
    m: Map<Seq<u8>, (Seq<u8>, Option<u64>)>,
    key: Seq<u8>,
    value: Seq<u8>,
    ex: Option<u64>,
    now: u64,
    later: u64,
)
    requires
        now <= later,
        ex matches Some(ttl) ==> later <= now + ttl,
    ensures
        spec_get(spec_set(m, key, value, ex, now), key, later) == Some(value),
{
}

/// A write under one key changes no read of another key.
pub proof fn lemma_get_other_key(
    m: Map<Seq<u8>, (Seq<u8>, Option<u64>)>,
    key: Seq<u8>,
    value: Seq<u8>,
    ex: Option<u64>,
    now: u64,
    other: Seq<u8>,
    at: u64,
)
    requires
        other != key,
    ensures
        spec_get(spec_set(m, key, value, ex, now), other, at) == spec_get(m, other, at),
{
}

/// A value written with a time to live is absent at every instant strictly
/// after the write's instant plus the time to live.
pub proof fn lemma_get_expired(
    m: Map<Seq<u8>, (Seq<u8>, Option<u64>)>,
    key: Seq<u8>,
    value: Seq<u8>,
    ttl: u64,
    now: u64,
    later: u64,
)
    requires
        later > now + ttl,
    ensures
        spec_get(spec_set(m, key, value, Some(ttl), now), key, later) == None::<Seq<u8>>,
{
}

/// A key that was never written is absent.
pub proof fn lemma_get_never_set(key: Seq<u8>, now: u64)
    ensures
        spec_get(Map::<Seq<u8>, (Seq<u8>, Option<u64>)>::empty(), key, now) == None::<Seq<u8>>,
{
}

} // verus!
