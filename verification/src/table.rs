//! The replicated transaction table: one node's view of every transaction
//! seen on the network. Two views grow together, and nothing is ever
//! removed: a per-sender log of transport-encoded payloads in receipt
//! order, and a deduplicated index from the content hash of the decoded
//! payload to the payload. A payload whose transport encoding does not
//! decode is dropped whole: neither view changes.
//!
//! Duplicate policy: the same payload ingested twice appends twice to the
//! per-sender log, while the hash index silently overwrites the entry
//! under the same key with the equal value.

use vstd::prelude::*;
use crate::b64::{b64_decode, b64_decode_of};
use crate::hex::{hex_digest, hex_of};
use crate::message::{MessageModel, TransactionMessage};

verus! {

/// The mathematical model of the table: its two views as maps.
pub struct TableModel {
    /// sender identity -> payloads received from that sender, oldest first
    pub peers: Map<Seq<char>, Seq<Seq<char>>>,
    /// content hash of the decoded payload -> the encoded payload
    pub txs: Map<Seq<char>, Seq<char>>,
}

/// The map an association list stands for; a later entry wins over an
/// earlier one with the same key.
pub open spec fn entry_map<V>(entries: Seq<(Seq<char>, V)>) -> Map<Seq<char>, V>
    decreases entries.len(),
{
    if entries.len() == 0 {
        Map::empty()
    } else {
        entry_map(entries.drop_last()).insert(entries.last().0, entries.last().1)
    }
}

/// No two entries share a key.
pub open spec fn distinct_keys<V>(entries: Seq<(Seq<char>, V)>) -> bool {
    forall|i: int, j: int|
        0 <= i < j < entries.len() ==> (#[trigger] entries[i]).0 != (#[trigger] entries[j]).0
}

/// The log the table holds for a sender, empty where none exists yet.
pub open spec fn peer_log(t: TableModel, sender: Seq<char>) -> Seq<Seq<char>> {
    if t.peers.contains_key(sender) {
        t.peers[sender]
    } else {
        Seq::empty()
    }
}

/// What one ingestion does to the table: nothing where the payload's
/// transport encoding does not decode; otherwise the payload is appended
/// to its sender's log and indexed under the hex hash of its decoded
/// bytes.
pub open spec fn ingest_model(t: TableModel, m: MessageModel) -> TableModel {
    match b64_decode_of(m.transaction) {
        None => t,
        Some(bytes) => TableModel {
            peers: t.peers.insert(m.sender, peer_log(t, m.sender).push(m.transaction)),
            txs: t.txs.insert(hex_of(bytes), m.transaction),
        },
    }
}

pub proof fn lemma_entry_map_push<V>(entries: Seq<(Seq<char>, V)>, key: Seq<char>, v: V)
    ensures
        entry_map(entries.push((key, v))) == entry_map(entries).insert(key, v),
{
    assert(entries.push((key, v)).drop_last() =~= entries);
}

pub proof fn lemma_entry_map_contains<V>(entries: Seq<(Seq<char>, V)>, key: Seq<char>)
    ensures
        entry_map(entries).contains_key(key) == (exists|i: int|
            0 <= i < entries.len() && (#[trigger] entries[i]).0 == key),
    decreases entries.len(),
{
    if entries.len() > 0 {
        let e2 = entries.drop_last();
        lemma_entry_map_contains(e2, key);
        if entries.last().0 == key {
            assert((entries[entries.len() - 1]).0 == key);
        } else {
            if entry_map(entries).contains_key(key) {
                let i = choose|i: int| 0 <= i < e2.len() && (#[trigger] e2[i]).0 == key;
                assert((entries[i]).0 == key);
            }
            if exists|i: int| 0 <= i < entries.len() && (#[trigger] entries[i]).0 == key {
                let i = choose|i: int| 0 <= i < entries.len() && (#[trigger] entries[i]).0 == key;
                assert(i != entries.len() - 1);
                assert((e2[i]).0 == key);
            }
        }
    }
}

pub proof fn lemma_entry_map_index<V>(entries: Seq<(Seq<char>, V)>, i: int)
    requires
        distinct_keys(entries),
        0 <= i < entries.len(),
    ensures
        entry_map(entries).contains_key(entries[i].0),
        entry_map(entries)[entries[i].0] == entries[i].1,
    decreases entries.len(),
{
    if i < entries.len() - 1 {
        let e2 = entries.drop_last();
        assert(distinct_keys(e2)) by {
            assert(forall|a: int, b: int|
                0 <= a < b < e2.len() ==> (#[trigger] e2[a]).0 != (#[trigger] e2[b]).0);
        }
        lemma_entry_map_index(e2, i);
        assert(entries.last().0 != entries[i].0);
    }
}

pub proof fn lemma_entry_map_update<V>(entries: Seq<(Seq<char>, V)>, i: int, v: V)
    requires
        distinct_keys(entries),
        0 <= i < entries.len(),
    ensures
        entry_map(entries.update(i, (entries[i].0, v))) == entry_map(entries).insert(
            entries[i].0,
            v,
        ),
        distinct_keys(entries.update(i, (entries[i].0, v))),
    decreases entries.len(),
{
    let k = entries[i].0;
    let u = entries.update(i, (k, v));
    assert(distinct_keys(u)) by {
        assert(forall|a: int| 0 <= a < u.len() ==> (#[trigger] u[a]).0 == entries[a].0);
    }
    if i == entries.len() - 1 {
        assert(u.drop_last() =~= entries.drop_last());
        assert(u.last() == (k, v));
        assert(entry_map(u) =~= entry_map(entries).insert(k, v));
    } else {
        let e2 = entries.drop_last();
        assert(distinct_keys(e2)) by {
            assert(forall|a: int, b: int|
                0 <= a < b < e2.len() ==> (#[trigger] e2[a]).0 != (#[trigger] e2[b]).0);
        }
        assert(u.drop_last() =~= e2.update(i, (k, v)));
        assert(e2[i] == entries[i]);
        lemma_entry_map_update(e2, i, v);
        assert(entries.last().0 != k);
        assert(entry_map(u) =~= entry_map(entries).insert(k, v));
    }
}

pub proof fn lemma_entry_map_len<V>(entries: Seq<(Seq<char>, V)>)
    requires
        distinct_keys(entries),
    ensures
        entry_map(entries).dom().finite(),
        entry_map(entries).dom().len() == entries.len(),
    decreases entries.len(),
{
    if entries.len() > 0 {
        let e2 = entries.drop_last();
        assert(distinct_keys(e2)) by {
            assert(forall|a: int, b: int|
                0 <= a < b < e2.len() ==> (#[trigger] e2[a]).0 != (#[trigger] e2[b]).0);
        }
        lemma_entry_map_len(e2);
        lemma_entry_map_contains(e2, entries.last().0);
        assert(forall|a: int| 0 <= a < e2.len() ==> (#[trigger] e2[a]).0 != entries.last().0);
        assert(!entry_map(e2).contains_key(entries.last().0));
    }
}

/// The replicated table itself. Both views are association lists with
/// pairwise-distinct keys; the event loop owns the table exclusively, so
/// every ingestion runs alone (callers serialize access).
pub struct TxTable {
    peers: Vec<(String, Vec<String>)>,
    txs: Vec<(String, String)>,
}

impl TxTable {
    pub closed spec fn peer_entries(self) -> Seq<(Seq<char>, Seq<Seq<char>>)> {
        self.peers@.map_values(|p: (String, Vec<String>)| (p.0@, p.1.deep_view()))
    }

    pub closed spec fn tx_entries(self) -> Seq<(Seq<char>, Seq<char>)> {
        self.txs@.map_values(|p: (String, String)| (p.0@, p.1@))
    }

    /// Well-formed: no duplicate sender keys and no duplicate hash keys.
    pub open spec fn wf(self) -> bool {
        distinct_keys(self.peer_entries()) && distinct_keys(self.tx_entries())
    }
}

impl View for TxTable {
    type V = TableModel;

    open spec fn view(&self) -> TableModel {
        TableModel {
            peers: entry_map(self.peer_entries()),
            txs: entry_map(self.tx_entries()),
        }
    }
}

impl TxTable {
    /// The table starts empty at node startup.
    pub fn new() -> (t: Self)
        ensures
            t.wf(),
            t@.peers == Map::<Seq<char>, Seq<Seq<char>>>::empty(),
            t@.txs == Map::<Seq<char>, Seq<char>>::empty(),
    {
        let t = TxTable { peers: Vec::new(), txs: Vec::new() };
        proof {
            assert(t.peer_entries() =~= Seq::empty());
            assert(t.tx_entries() =~= Seq::empty());
        }
        t
    }

    fn find_peer(&self, sender: &String) -> (r: Option<usize>)
        ensures
            match r {
                Some(i) => i < self.peers@.len() && self.peer_entries()[i as int].0 == sender@,
                None => forall|i: int|
                    0 <= i < self.peers@.len() ==> (#[trigger] self.peer_entries()[i]).0
                        != sender@,
            },
    {
        let n = self.peers.len();
        let mut i: usize = 0;
        while i < n
            invariant
                i <= n,
                n == self.peers@.len(),
                forall|q: int| 0 <= q < i ==> (#[trigger] self.peer_entries()[q]).0 != sender@,
            decreases n - i,
        {
            if self.peers[i].0 == *sender {
                proof {
                    assert(self.peer_entries()[i as int].0 == sender@);
                }
                return Some(i);
            }
            proof {
                assert(self.peer_entries()[i as int].0 == self.peers@[i as int].0@);
            }
            i = i + 1;
        }
        None
    }

    fn find_hash(&self, hash: &String) -> (r: Option<usize>)
        ensures
            match r {
                Some(i) => i < self.txs@.len() && self.tx_entries()[i as int].0 == hash@,
                None => forall|i: int|
                    0 <= i < self.txs@.len() ==> (#[trigger] self.tx_entries()[i]).0 != hash@,
            },
    {
        let n = self.txs.len();
        let mut i: usize = 0;
        while i < n
            invariant
                i <= n,
                n == self.txs@.len(),
                forall|q: int| 0 <= q < i ==> (#[trigger] self.tx_entries()[q]).0 != hash@,
            decreases n - i,
        {
            if self.txs[i].0 == *hash {
                proof {
                    assert(self.tx_entries()[i as int].0 == hash@);
                }
                return Some(i);
            }
            proof {
                assert(self.tx_entries()[i as int].0 == self.txs@[i as int].0@);
            }
            i = i + 1;
        }
        None
    }

    /// Append `tx` to the sender's log, creating the log where absent.
    fn record_peer_tx(&mut self, sender: &String, tx: &String)
        requires
            old(self).wf(),
        ensures
            final(self).wf(),
            final(self)@.peers == old(self)@.peers.insert(
                sender@,
                peer_log(old(self)@, sender@).push(tx@),
            ),
            final(self)@.txs == old(self)@.txs,
    {
        let found = self.find_peer(sender);
        match found {
            Some(i) => {
                proof {
                    lemma_entry_map_index(old(self).peer_entries(), i as int);
                }
                let mut row = self.peers.remove(i);
                row.1.push(tx.clone());
                self.peers.insert(i, row);
                proof {
                    let oe = old(self).peer_entries();
                    assert(self.peers@ =~= old(self).peers@.update(
                        i as int,
                        self.peers@[i as int],
                    ));
                    let newrow = (oe[i as int].0, oe[i as int].1.push(tx@));
                    assert(self.peer_entries() =~~= oe.update(i as int, newrow));
                    lemma_entry_map_update(oe, i as int, newrow.1);
                    assert(peer_log(old(self)@, sender@) == oe[i as int].1);
                    assert(self.tx_entries() =~= old(self).tx_entries());
                }
            },
            None => {
                let mut list: Vec<String> = Vec::new();
                list.push(tx.clone());
                self.peers.push((sender.clone(), list));
                proof {
                    let oe = old(self).peer_entries();
                    assert(list.deep_view() =~= Seq::<Seq<char>>::empty().push(tx@));
                    assert(self.peer_entries() =~~= oe.push((sender@, list.deep_view())));
                    lemma_entry_map_push(oe, sender@, list.deep_view());
                    lemma_entry_map_contains(oe, sender@);
                    assert(!old(self)@.peers.contains_key(sender@));
                    assert(distinct_keys(self.peer_entries())) by {
                        let ne = self.peer_entries();
                        assert(forall|a: int|
                            0 <= a < oe.len() ==> (#[trigger] ne[a]).0 == oe[a].0);
                    }
                    assert(self.tx_entries() =~= old(self).tx_entries());
                }
            },
        }
    }

    /// Index `tx` under `hash`, overwriting any entry under the same key.
    fn record_hash(&mut self, hash: String, tx: &String)
        requires
            old(self).wf(),
        ensures
            final(self).wf(),
            final(self)@.txs == old(self)@.txs.insert(hash@, tx@),
            final(self)@.peers == old(self)@.peers,
    {
        let found = self.find_hash(&hash);
        match found {
            Some(i) => {
                let mut row = self.txs.remove(i);
                row.1 = tx.clone();
                self.txs.insert(i, row);
                proof {
                    let oe = old(self).tx_entries();
                    assert(self.txs@ =~= old(self).txs@.update(i as int, self.txs@[i as int]));
                    let newrow = (oe[i as int].0, tx@);
                    assert(self.tx_entries() =~= oe.update(i as int, newrow));
                    lemma_entry_map_update(oe, i as int, newrow.1);
                    assert(self.peer_entries() =~= old(self).peer_entries());
                }
            },
            None => {
                self.txs.push((hash, tx.clone()));
                proof {
                    let oe = old(self).tx_entries();
                    let key = self.txs@.last().0@;
                    assert(self.tx_entries() =~= oe.push((key, tx@)));
                    lemma_entry_map_push(oe, key, tx@);
                    assert(distinct_keys(self.tx_entries())) by {
                        let ne = self.tx_entries();
                        assert(forall|a: int|
                            0 <= a < oe.len() ==> (#[trigger] ne[a]).0 == oe[a].0);
                    }
                    assert(self.peer_entries() =~= old(self).peer_entries());
                }
            },
        }
    }

    /// Ingest one received message: decode its payload's transport
    /// encoding, and on success append the payload to the sender's log and
    /// index it under the hex hash of the decoded bytes; on failure change
    /// nothing. Never fails loudly.
    pub fn ingest(&mut self, msg: &TransactionMessage)
        requires
            old(self).wf(),
        ensures
            final(self).wf(),
            final(self)@ == ingest_model(old(self)@, msg@),
    {
        let decoded = b64_decode(msg.transaction.as_str());
        match decoded {
            None => {},
            Some(bytes) => {
                let h = hex_digest(&bytes);
                self.record_peer_tx(&msg.sender, &msg.transaction);
                self.record_hash(h, &msg.transaction);
            },
        }
    }

    /// The payloads received from a sender, oldest first; empty where the
    /// sender is unknown.
    pub fn transactions_of(&self, sender: &String) -> (r: Vec<String>)
        requires
            self.wf(),
        ensures
            r.deep_view() == peer_log(self@, sender@),
    {
        let found = self.find_peer(sender);
        match found {
            Some(i) => {
                proof {
                    lemma_entry_map_index(self.peer_entries(), i as int);
                }
                self.peers[i].1.clone()
            },
            None => {
                proof {
                    lemma_entry_map_contains(self.peer_entries(), sender@);
                }
                Vec::new()
            },
        }
    }

    /// The payload indexed under a content hash, where one exists.
    pub fn lookup_hash(&self, hash: &String) -> (r: Option<String>)
        requires
            self.wf(),
        ensures
            (r is Some) == self@.txs.contains_key(hash@),
            r is Some ==> r->0@ == self@.txs[hash@],
    {
        let found = self.find_hash(hash);
        match found {
            Some(i) => {
                proof {
                    lemma_entry_map_index(self.tx_entries(), i as int);
                }
                Some(self.txs[i].1.clone())
            },
            None => {
                proof {
                    lemma_entry_map_contains(self.tx_entries(), hash@);
                }
                None
            },
        }
    }

    /// A copy of both views for inspection, as association lists standing
    /// for exactly the table's two maps. The caller owns the copy, so
    /// taking it never blocks ingestion beyond the copy itself.
    #[verifier::loop_isolation(false)]
    pub fn snapshot(&self) -> (r: (Vec<(String, Vec<String>)>, Vec<(String, String)>))
        requires
            self.wf(),
        ensures
            ({
                let pe = r.0@.map_values(|p: (String, Vec<String>)| (p.0@, p.1.deep_view()));
                let te = r.1@.map_values(|p: (String, String)| (p.0@, p.1@));
                &&& entry_map(pe) == self@.peers
                &&& distinct_keys(pe)
                &&& entry_map(te) == self@.txs
                &&& distinct_keys(te)
            }),
    {
        let mut ps: Vec<(String, Vec<String>)> = Vec::new();
        let mut i: usize = 0;
        while i < self.peers.len()
            invariant
                i <= self.peers@.len(),
                ps@.len() == i,
                forall|q: int|
                    0 <= q < i ==> (#[trigger] ps@[q]).0@ == self.peer_entries()[q].0
                        && ps@[q].1.deep_view() == self.peer_entries()[q].1,
            decreases self.peers@.len() - i,
        {
            ps.push((self.peers[i].0.clone(), self.peers[i].1.clone()));
            i = i + 1;
        }
        let mut ts: Vec<(String, String)> = Vec::new();
        let mut k: usize = 0;
        while k < self.txs.len()
            invariant
                k <= self.txs@.len(),
                ts@.len() == k,
                forall|q: int|
                    0 <= q < k ==> (#[trigger] ts@[q]).0@ == self.tx_entries()[q].0
                        && ts@[q].1@ == self.tx_entries()[q].1,
            decreases self.txs@.len() - k,
        {
            ts.push((self.txs[k].0.clone(), self.txs[k].1.clone()));
            k = k + 1;
        }
        proof {
            let pe = ps@.map_values(|p: (String, Vec<String>)| (p.0@, p.1.deep_view()));
            let te = ts@.map_values(|p: (String, String)| (p.0@, p.1@));
            assert(pe =~~= self.peer_entries());
            assert(te =~~= self.tx_entries());
        }
        (ps, ts)
    }

    /// How many senders have a log.
    pub fn peer_count(&self) -> (n: usize)
        requires
            self.wf(),
        ensures
            n == self@.peers.dom().len(),
    {
        proof {
            lemma_entry_map_len(self.peer_entries());
        }
        self.peers.len()
    }

    /// How many content hashes are indexed.
    pub fn tx_count(&self) -> (n: usize)
        requires
            self.wf(),
        ensures
            n == self@.txs.dom().len(),
    {
        proof {
            lemma_entry_map_len(self.tx_entries());
        }
        self.txs.len()
    }
}

} // verus!
