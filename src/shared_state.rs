use vstd::prelude::*;

use crate::types::{AgentId, SessionId, SwarmError};

verus! {

/// A value of the shared state with the stamp of the write that put it there.
pub struct Versioned {
    pub value: Seq<char>,
    pub counter: u64,
    pub writer: AgentId,
}

/// Write `a` is ordered after write `b`: by counter, then by writer.
pub open spec fn later(a: Versioned, b: Versioned) -> bool {
    a.counter > b.counter || (a.counter == b.counter && a.writer > b.writer)
}

/// The merge of two writes to one key: the later one wins.
pub open spec fn merge(a: Versioned, b: Versioned) -> Versioned {
    if later(b, a) {
        b
    } else {
        a
    }
}

/// Two writes with the same stamp are the same write.
pub open spec fn stamps_identify(a: Versioned, b: Versioned) -> bool {
    (a.counter == b.counter && a.writer == b.writer) ==> a == b
}

/// The value a key converges to after the writes `ws`, in delivery order.
pub open spec fn merge_all(first: Versioned, ws: Seq<Versioned>) -> Versioned
    decreases ws.len(),
{
    if ws.len() == 0 {
        first
    } else {
        merge(merge_all(first, ws.drop_last()), ws.last())
    }
}

/// Merging is commutative: the order in which two writes arrive does not
/// change the outcome.
pub proof fn lemma_merge_commutative(a: Versioned, b: Versioned)
    requires
        stamps_identify(a, b),
    ensures
        merge(a, b) == merge(b, a),
{
}

/// Merging is associative, so any grouping of deliveries converges alike.
pub proof fn lemma_merge_associative(a: Versioned, b: Versioned, c: Versioned)
    ensures
        merge(merge(a, b), c) == merge(a, merge(b, c)),
{
}

/// Merging a write that already arrived changes nothing, so replays are
/// harmless.
pub proof fn lemma_merge_idempotent(a: Versioned, b: Versioned)
    ensures
        merge(merge(a, b), b) == merge(a, b),
{
}

/// After any sequence of deliveries the key holds one of the writes, and no
/// write is later than it.
pub proof fn lemma_merge_all_is_latest(first: Versioned, ws: Seq<Versioned>)
    ensures
        merge_all(first, ws) == first || ws.contains(merge_all(first, ws)),
        !later(first, merge_all(first, ws)),
        forall|i: int| 0 <= i < ws.len() ==> !later(#[trigger] ws[i], merge_all(first, ws)),
    decreases ws.len(),
{
    if ws.len() > 0 {
        let pre = ws.drop_last();
        lemma_merge_all_is_latest(first, pre);
        let m = merge_all(first, pre);
        if m != first {
            let j = choose|j: int| 0 <= j < pre.len() && pre[j] == m;
            assert(ws[j] == m);
        }
        assert(ws[ws.len() - 1] == ws.last());
        assert forall|i: int| 0 <= i < ws.len() implies !later(#[trigger] ws[i], merge_all(first, ws)) by {
            if i < ws.len() - 1 {
                assert(ws[i] == pre[i]);
            }
        }
    }
}

/// Concurrent writes to one key converge: whatever the order, and with any
/// write delivered any number of times, every replica ends with the latest
/// write by counter and then by writer identity.
pub proof fn lemma_writes_converge(first: Versioned, ws1: Seq<Versioned>, ws2: Seq<Versioned>)
    requires
        ws1.to_set() == ws2.to_set(),
        forall|a: Versioned, b: Versioned|
            (a == first || ws1.contains(a)) && (b == first || ws1.contains(b)) ==> #[trigger] stamps_identify(a, b),
    ensures
        merge_all(first, ws1) == merge_all(first, ws2),
{
    lemma_merge_all_is_latest(first, ws1);
    lemma_merge_all_is_latest(first, ws2);
    let m1 = merge_all(first, ws1);
    let m2 = merge_all(first, ws2);
    if m1 != first {
        assert(ws1.to_set().contains(m1));
        assert(ws2.to_set().contains(m1));
        let j = choose|j: int| 0 <= j < ws2.len() && ws2[j] == m1;
        assert(!later(ws2[j], m2));
    }
    if m2 != first {
        assert(ws2.to_set().contains(m2));
        assert(ws1.to_set().contains(m2));
        let j = choose|j: int| 0 <= j < ws1.len() && ws1[j] == m2;
        assert(!later(ws1[j], m1));
        assert(ws1.contains(m2));
    }
    if m1 != first {
        assert(ws1.contains(m1));
    }
    assert(stamps_identify(m1, m2));
}

/// One key of the shared state with its value and the stamp of its write.
pub struct StateEntry {
    pub key: String,
    pub value: String,
    pub counter: u64,
    pub writer: AgentId,
}

impl StateEntry {
    pub open spec fn versioned(&self) -> Versioned {
        Versioned { value: self.value@, counter: self.counter, writer: self.writer }
    }
}

/// A session's key/value space, written by its agents concurrently and
/// merged by the latest stamp.
pub struct SharedState {
    session_id: SessionId,
    entries: Vec<StateEntry>,
    model: Ghost<Map<Seq<char>, Versioned>>,
}

impl SharedState {
    /// The keys and their current values.
    pub closed spec fn view(&self) -> Map<Seq<char>, Versioned> {
        self.model@
    }

    /// The session the space belongs to.
    pub closed spec fn session(&self) -> SessionId {
        self.session_id
    }

    pub closed spec fn wf(&self) -> bool {
        &&& forall|i: int, j: int| 0 <= i < self.entries@.len() && 0 <= j < self.entries@.len() && i != j
            ==> self.entries@[i].key@ != self.entries@[j].key@
        &&& forall|i: int| 0 <= i < self.entries@.len() ==> #[trigger] self.model@.contains_key(self.entries@[i].key@)
            && self.model@[self.entries@[i].key@] == self.entries@[i].versioned()
        &&& forall|k: Seq<char>| #[trigger] self.model@.contains_key(k)
            ==> exists|i: int| 0 <= i < self.entries@.len() && self.entries@[i].key@ == k
    }

    /// An empty space for session `session_id`.
    pub fn new(session_id: SessionId) -> (r: SharedState)
        ensures
            r.wf(),
            r.view() == Map::<Seq<char>, Versioned>::empty(),
            r.session() == session_id,
    {
        SharedState { session_id, entries: Vec::new(), model: Ghost(Map::empty()) }
    }

    /// The session the space belongs to.
    pub fn session_id(&self) -> (r: SessionId)
        ensures
            r == self.session(),
    {
        self.session_id
    }

    /// Number of keys held.
    pub fn len(&self) -> (r: usize)
        requires
            self.wf(),
        ensures
            r == self.view().dom().len(),
    {
        proof {
            self.lemma_dom_len();
        }
        self.entries.len()
    }

    proof fn lemma_dom_len(&self)
        requires
            self.wf(),
        ensures
            self.view().dom().len() == self.entries@.len(),
    {
        let ks = self.entries@.map_values(|e: StateEntry| e.key@);
        assert forall|i: int, j: int| 0 <= i < ks.len() && 0 <= j < ks.len() && i != j implies ks[i] != ks[j] by {}
        assert(ks.no_duplicates());
        ks.unique_seq_to_set();
        assert forall|k: Seq<char>| ks.to_set().contains(k) <==> self.model@.dom().contains(k) by {
            if self.model@.contains_key(k) {
                let i = choose|i: int| 0 <= i < self.entries@.len() && self.entries@[i].key@ == k;
                assert(ks[i] == k);
            }
            if ks.to_set().contains(k) {
                let i = choose|i: int| 0 <= i < ks.len() && ks[i] == k;
                assert(self.model@.contains_key(self.entries@[i].key@));
            }
        }
        assert(ks.to_set() =~= self.model@.dom());
    }

    /// Position of `key` among the entries.
    fn find(&self, key: &String) -> (r: Option<usize>)
        requires
            self.wf(),
        ensures
            match r {
                Some(i) => i < self.entries@.len() && self.entries@[i as int].key@ == key@,
                None => !self.view().contains_key(key@),
            },
    {
        let mut i: usize = 0;
        while i < self.entries.len()
            invariant
                self.wf(),
                i <= self.entries@.len(),
                forall|j: int| 0 <= j < i ==> self.entries@[j].key@ != key@,
            decreases self.entries@.len() - i,
        {
            if self.entries[i].key == *key {
                return Some(i);
            }
            i = i + 1;
        }
        None
    }

    /// The current value of `key`.
    pub fn get(&self, key: &str) -> (r: Option<String>)
        requires
            self.wf(),
        ensures
            r is Some == self.view().contains_key(key@),
            r is Some ==> r->0@ == self.view()[key@].value,
    {
        let k = key.to_owned();
        match self.find(&k) {
            Some(i) => {
                proof {
                    assert(self.model@.contains_key(self.entries@[i as int].key@));
                }
                Some(self.entries[i].value.clone())
            },
            None => None,
        }
    }

    /// The stamp `(counter, writer)` of the current value of `key`.
    pub fn stamp_of(&self, key: &str) -> (r: Option<(u64, AgentId)>)
        requires
            self.wf(),
        ensures
            r is Some == self.view().contains_key(key@),
            r is Some ==> r == Some((self.view()[key@].counter, self.view()[key@].writer)),
    {
        let k = key.to_owned();
        match self.find(&k) {
            Some(i) => {
                proof {
                    assert(self.model@.contains_key(self.entries@[i as int].key@));
                }
                Some((self.entries[i].counter, self.entries[i].writer))
            },
            None => None,
        }
    }

    /// Replaces or adds the entry for `e.key`.
    fn put(&mut self, pos: Option<usize>, e: StateEntry)
        requires
            old(self).wf(),
            match pos {
                Some(i) => i < old(self).entries@.len() && old(self).entries@[i as int].key@ == e.key@,
                None => !old(self).view().contains_key(e.key@),
            },
        ensures
            final(self).wf(),
            final(self).view() == old(self).view().insert(e.key@, e.versioned()),
            final(self).session() == old(self).session(),
    {
        let ghost k = e.key@;
        let ghost v = e.versioned();
        let ghost m0 = self.model@;
        let ghost e0 = self.entries@;
        match pos {
            Some(i) => {
                self.entries.set(i, e);
            },
            None => {
                self.entries.push(e);
            },
        }
        self.model = Ghost(m0.insert(k, v));
        proof {
            assert forall|k2: Seq<char>| #[trigger] self.model@.contains_key(k2)
                implies exists|i: int| 0 <= i < self.entries@.len() && self.entries@[i].key@ == k2 by {
                if k2 == k {
                    match pos {
                        Some(i) => { assert(self.entries@[i as int].key@ == k2); },
                        None => { assert(self.entries@[self.entries@.len() - 1].key@ == k2); },
                    }
                } else {
                    assert(m0.contains_key(k2));
                    let i = choose|i: int| 0 <= i < e0.len() && e0[i].key@ == k2;
                    assert(self.entries@[i].key@ == k2);
                }
            }
            assert forall|i: int| 0 <= i < self.entries@.len() implies #[trigger] self.model@.contains_key(self.entries@[i].key@)
                && self.model@[self.entries@[i].key@] == self.entries@[i].versioned() by {
                if self.entries@[i].key@ != k {
                    assert(m0.contains_key(e0[i].key@));
                }
            }
        }
    }

    /// Writes `value` under `key` on behalf of `writer`.
    ///
    /// The write is stamped with the key's next counter (1 for a new key), so
    /// it is later than every write the key has seen. A key whose counter is
    /// exhausted refuses the write with `StateConflict`.
    pub fn set(&mut self, key: &str, value: String, writer: AgentId) -> (r: Result<u64, SwarmError>)
        requires
            old(self).wf(),
        ensures
            final(self).wf(),
            final(self).session() == old(self).session(),
            old(self).view().contains_key(key@) && old(self).view()[key@].counter == u64::MAX
                <==> r == Err::<u64, SwarmError>(SwarmError::StateConflict),
            r is Err ==> r == Err::<u64, SwarmError>(SwarmError::StateConflict),
            r is Err ==> final(self).view() == old(self).view(),
            r is Ok ==> {
                let c = if old(self).view().contains_key(key@) { old(self).view()[key@].counter + 1 } else { 1 };
                &&& r->Ok_0 == c
                &&& final(self).view() == old(self).view().insert(key@, Versioned { value: value@, counter: r->Ok_0, writer })
            },
    {
        let k = key.to_owned();
        let pos = self.find(&k);
        let counter: u64 = match pos {
            Some(i) => {
                proof {
                    assert(self.model@.contains_key(self.entries@[i as int].key@));
                }
                if self.entries[i].counter == u64::MAX {
                    return Err(SwarmError::StateConflict);
                }
                self.entries[i].counter + 1
            },
            None => 1,
        };
        self.put(pos, StateEntry { key: k, value, counter, writer });
        Ok(counter)
    }

    /// Merges a write delivered from another replica: it takes effect only
    /// if it is later than the key's current write. Returns whether it did.
    pub fn apply(&mut self, e: StateEntry) -> (r: bool)
        requires
            old(self).wf(),
        ensures
            final(self).wf(),
            final(self).session() == old(self).session(),
            r == (!old(self).view().contains_key(e.key@) || later(e.versioned(), old(self).view()[e.key@])),
            final(self).view() == if old(self).view().contains_key(e.key@) {
                old(self).view().insert(e.key@, merge(old(self).view()[e.key@], e.versioned()))
            } else {
                old(self).view().insert(e.key@, e.versioned())
            },
    {
        let pos = self.find(&e.key);
        match pos {
            Some(i) => {
                proof {
                    assert(self.model@.contains_key(self.entries@[i as int].key@));
                }
                let cur = &self.entries[i];
                let wins = e.counter > cur.counter || (e.counter == cur.counter && e.writer > cur.writer);
                if !wins {
                    proof {
                        assert(self.model@.insert(e.key@, self.model@[e.key@]) =~= self.model@);
                    }
                    return false;
                }
                self.put(pos, e);
                true
            },
            None => {
                self.put(pos, e);
                true
            },
        }
    }

    /// Releases every key.
    pub fn clear(&mut self)
        ensures
            final(self).wf(),
            final(self).view() == Map::<Seq<char>, Versioned>::empty(),
            final(self).session() == old(self).session(),
    {
        self.entries = Vec::new();
        self.model = Ghost(Map::empty());
    }
}

} // verus!
