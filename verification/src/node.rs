//! One node of the network: its identity, its lifecycle, its replicated
//! table, and the registry of peers discovery has reported. The node's
//! event loop is driven from outside: whoever runs the transport hands
//! every discovery or gossip event to `handle_event`, and sends on the
//! wire what `prepare_broadcast` returns.

use vstd::prelude::*;
use crate::b64::{b64_alphabet, b64_decode_of, b64_encode, b64_encode_of};
use crate::message::{
    decode_message, decode_spec, encode_message, encode_spec, field_char_ok, valid_field,
    lemma_decode_encode, TransactionMessage,
};
use crate::table::{ingest_model, peer_log, TableModel, TxTable};

verus! {

/// An event the node's loop consumes, as a closed set of kinds: a
/// discovery report, a delivered gossip envelope, or anything else.
pub enum NodeEvent {
    /// discovery saw a peer on the local network
    PeerDiscovered { peer: String },
    /// the gossip channel delivered a message envelope
    MessageReceived { data: String },
    /// any other behaviour event; ignored
    Other,
}

/// The lifecycle of a node: created idle, running while its loop drains
/// events, terminated on an unrecoverable transport error.
#[derive(PartialEq, Eq, Structural, Clone, Copy, Debug)]
pub enum NodeStatus {
    Idle,
    Running,
    Terminated,
}

/// No sequence element repeats.
pub open spec fn distinct_seq(s: Seq<Seq<char>>) -> bool {
    forall|i: int, j: int| 0 <= i < j < s.len() ==> s[i] != s[j]
}

/// A node: identity, subscribed topic, lifecycle status, the replicated
/// table, and the deduplicated registry of discovered peers.
pub struct Node {
    id: String,
    topic: String,
    status: NodeStatus,
    table: TxTable,
    peers: Vec<String>,
}

/// What a broadcast hands to the gossip channel: the message itself and
/// its wire envelope.
pub struct PreparedBroadcast {
    pub message: TransactionMessage,
    pub wire: String,
}

impl Node {
    pub closed spec fn id_spec(self) -> Seq<char> {
        self.id@
    }

    pub closed spec fn topic_spec(self) -> Seq<char> {
        self.topic@
    }

    pub closed spec fn status_spec(self) -> NodeStatus {
        self.status
    }

    /// The model of this node's replicated table.
    pub closed spec fn table_model(self) -> TableModel {
        self.table@
    }

    /// The identities discovery has reported, in first-seen order.
    pub closed spec fn peers_seen(self) -> Seq<Seq<char>> {
        self.peers.deep_view()
    }

    pub closed spec fn wf(self) -> bool {
        self.table.wf() && distinct_seq(self.peers_seen())
    }

    /// A fresh node: idle, empty table, no peers seen.
    pub fn new(id: String, topic: String) -> (n: Node)
        ensures
            n.wf(),
            n.id_spec() == id@,
            n.topic_spec() == topic@,
            n.status_spec() is Idle,
            n.table_model().peers == Map::<Seq<char>, Seq<Seq<char>>>::empty(),
            n.table_model().txs == Map::<Seq<char>, Seq<char>>::empty(),
            n.peers_seen() == Seq::<Seq<char>>::empty(),
    {
        let n = Node {
            id,
            topic,
            status: NodeStatus::Idle,
            table: TxTable::new(),
            peers: Vec::new(),
        };
        proof {
            assert(n.peers_seen() =~= Seq::<Seq<char>>::empty());
        }
        n
    }

    /// Enter the event loop: transport and discovery are up.
    pub fn start(&mut self)
        requires
            old(self).status_spec() is Idle,
        ensures
            final(self).status_spec() is Running,
            final(self).id_spec() == old(self).id_spec(),
            final(self).topic_spec() == old(self).topic_spec(),
            final(self).table_model() == old(self).table_model(),
            final(self).peers_seen() == old(self).peers_seen(),
            final(self).wf() == old(self).wf(),
    {
        self.status = NodeStatus::Running;
    }

    /// Leave the event loop for good, on an unrecoverable transport error.
    pub fn terminate(&mut self)
        ensures
            final(self).status_spec() is Terminated,
            final(self).id_spec() == old(self).id_spec(),
            final(self).topic_spec() == old(self).topic_spec(),
            final(self).table_model() == old(self).table_model(),
            final(self).peers_seen() == old(self).peers_seen(),
            final(self).wf() == old(self).wf(),
    {
        self.status = NodeStatus::Terminated;
    }

    pub fn status(&self) -> (s: NodeStatus)
        ensures
            s == self.status_spec(),
    {
        self.status
    }

    /// Record a discovered peer, once: re-announcements change nothing.
    #[verifier::loop_isolation(false)]
    fn record_peer(&mut self, peer: String)
        requires
            old(self).wf(),
        ensures
            final(self).wf(),
            final(self).peers_seen() == (if old(self).peers_seen().contains(peer@) {
                old(self).peers_seen()
            } else {
                old(self).peers_seen().push(peer@)
            }),
            final(self).table == old(self).table,
            final(self).id == old(self).id,
            final(self).topic == old(self).topic,
            final(self).status == old(self).status,
    {
        let n = self.peers.len();
        let mut i: usize = 0;
        while i < n
            invariant
                i <= n,
                n == self.peers@.len(),
                forall|q: int| 0 <= q < i ==> self.peers.deep_view()[q] != peer@,
            decreases n - i,
        {
            if self.peers[i] == peer {
                proof {
                    assert(self.peers_seen()[i as int] == peer@);
                    assert(self.peers_seen().contains(peer@));
                }
                return ;
            }
            proof {
                assert(self.peers.deep_view()[i as int] == self.peers@[i as int]@);
            }
            i = i + 1;
        }
        proof {
            assert(forall|q: int|
                0 <= q < self.peers@.len() ==> self.peers.deep_view()[q] != peer@);
            assert(!self.peers_seen().contains(peer@));
        }
        self.peers.push(peer);
        proof {
            assert(self.peers_seen() =~= old(self).peers_seen().push(
                self.peers@.last()@,
            ));
        }
    }

    /// Dispatch one event, as the loop's single consumer: a discovery
    /// report is recorded in the peer registry; a delivered envelope is
    /// parsed and, where it parses, ingested into the table (a malformed
    /// envelope is dropped whole); anything else is ignored. No event
    /// changes the node's identity, topic or status.
    pub fn handle_event(&mut self, ev: NodeEvent)
        requires
            old(self).wf(),
            old(self).status_spec() is Running,
        ensures
            final(self).wf(),
            final(self).id_spec() == old(self).id_spec(),
            final(self).topic_spec() == old(self).topic_spec(),
            final(self).status_spec() == old(self).status_spec(),
            match ev {
                NodeEvent::PeerDiscovered { peer } => {
                    &&& final(self).table_model() == old(self).table_model()
                    &&& final(self).peers_seen() == (if old(self).peers_seen().contains(peer@) {
                        old(self).peers_seen()
                    } else {
                        old(self).peers_seen().push(peer@)
                    })
                },
                NodeEvent::MessageReceived { data } => {
                    &&& final(self).peers_seen() == old(self).peers_seen()
                    &&& final(self).table_model() == (match decode_spec(data@) {
                        Some(m) => ingest_model(old(self).table_model(), m),
                        None => old(self).table_model(),
                    })
                },
                NodeEvent::Other => {
                    &&& final(self).table_model() == old(self).table_model()
                    &&& final(self).peers_seen() == old(self).peers_seen()
                },
            },
    {
        match ev {
            NodeEvent::PeerDiscovered { peer } => {
                self.record_peer(peer);
            },
            NodeEvent::MessageReceived { data } => {
                let parsed = decode_message(data.as_str());
                match parsed {
                    Some(msg) => {
                        self.table.ingest(&msg);
                    },
                    None => {},
                }
            },
            NodeEvent::Other => {},
        }
    }

    /// Build the message and wire envelope for broadcasting a payload
    /// under this node's identity at the given time. Succeeds exactly
    /// where the node's identity can stand in an envelope field; the wire
    /// string is the envelope of the message and parses back to it at
    /// every receiver.
    pub fn prepare_broadcast(&self, payload: &Vec<u8>, timestamp: u64) -> (r: Option<
        PreparedBroadcast,
    >)
        ensures
            (r is Some) == valid_field(self.id_spec()),
            r is Some ==> {
                let p = r->0;
                &&& p.message@.transaction == b64_encode_of(payload@)
                &&& b64_decode_of(p.message@.transaction) == Some(payload@)
                &&& p.message@.sender == self.id_spec()
                &&& p.message@.timestamp == timestamp
                &&& p.wire@ == encode_spec(p.message@)
                &&& decode_spec(p.wire@) == Some(p.message@)
            },
    {
        let encoded = b64_encode(payload);
        proof {
            lemma_b64_alphabet_field_ok(encoded@);
        }
        let msg = TransactionMessage {
            transaction: encoded,
            sender: self.id.clone(),
            timestamp,
        };
        let wire = encode_message(&msg);
        match wire {
            Some(w) => {
                proof {
                    lemma_decode_encode(msg@);
                }
                Some(PreparedBroadcast { message: msg, wire: w })
            },
            None => None,
        }
    }

    /// The payloads received from a sender, oldest first.
    pub fn transactions_of(&self, sender: &String) -> (r: Vec<String>)
        requires
            self.wf(),
        ensures
            r.deep_view() == peer_log(self.table_model(), sender@),
    {
        self.table.transactions_of(sender)
    }

    /// The payload indexed under a content hash, where one exists.
    pub fn lookup_hash(&self, hash: &String) -> (r: Option<String>)
        requires
            self.wf(),
        ensures
            (r is Some) == self.table_model().txs.contains_key(hash@),
            r is Some ==> r->0@ == self.table_model().txs[hash@],
    {
        self.table.lookup_hash(hash)
    }

    /// How many senders have a log.
    pub fn peer_count(&self) -> (n: usize)
        requires
            self.wf(),
        ensures
            n == self.table_model().peers.dom().len(),
    {
        self.table.peer_count()
    }

    /// How many content hashes are indexed.
    pub fn tx_count(&self) -> (n: usize)
        requires
            self.wf(),
        ensures
            n == self.table_model().txs.dom().len(),
    {
        self.table.tx_count()
    }

    /// The identities discovery has reported, in first-seen order.
    pub fn discovered(&self) -> (r: Vec<String>)
        ensures
            r.deep_view() == self.peers_seen(),
    {
        self.peers.clone()
    }
}

/// Base64 output needs no escaping in an envelope field.
proof fn lemma_b64_alphabet_field_ok(s: Seq<char>)
    requires
        forall|i: int| 0 <= i < s.len() ==> b64_alphabet(#[trigger] s[i]),
    ensures
        valid_field(s),
{
    assert forall|i: int| 0 <= i < s.len() implies field_char_ok(#[trigger] s[i]) by {
        let c = s[i];
        assert(b64_alphabet(c));
        if 'A' <= c && c <= 'Z' {
            assert(65 <= c as u32 <= 90);
        } else if 'a' <= c && c <= 'z' {
            assert(97 <= c as u32 <= 122);
        } else if '0' <= c && c <= '9' {
            assert(48 <= c as u32 <= 57);
        }
    }
}

} // verus!
