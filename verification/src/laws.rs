//! The table's guarantees, stated and proved over its model: what repeated
//! ingestion, malformed payloads, same-sender sequences and batches of
//! distinct messages do to the two views.

use vstd::prelude::*;
use crate::b64::b64_decode_of;
use crate::hex::{hex_of, lemma_hex_injective};
use crate::message::MessageModel;
use crate::table::{ingest_model, peer_log, TableModel};

verus! {

/// The table after ingesting a whole sequence of messages, in order.
pub open spec fn ingest_all(t: TableModel, msgs: Seq<MessageModel>) -> TableModel
    decreases msgs.len(),
{
    if msgs.len() == 0 {
        t
    } else {
        ingest_model(ingest_all(t, msgs.drop_last()), msgs.last())
    }
}

/// The encoded payloads of a message sequence, in order.
pub open spec fn payloads_of(msgs: Seq<MessageModel>) -> Seq<Seq<char>> {
    msgs.map_values(|m: MessageModel| m.transaction)
}

/// Ingestion is idempotent by hash: two messages whose decoded payloads
/// are byte-identical leave one hash entry between them — the second
/// overwrites the first under the same key — while the per-sender logs
/// record both occurrences: both senders' logs where the senders differ,
/// twice the same log where they agree.
pub proof fn lemma_idempotent_ingestion(t: TableModel, m1: MessageModel, m2: MessageModel)
    requires
        b64_decode_of(m1.transaction) is Some,
        b64_decode_of(m2.transaction) is Some,
        b64_decode_of(m1.transaction)->0 == b64_decode_of(m2.transaction)->0,
    ensures
        ({
            let h = hex_of(b64_decode_of(m1.transaction)->0);
            let t1 = ingest_model(t, m1);
            let t2 = ingest_model(t1, m2);
            &&& t2.txs.dom() == t.txs.dom().insert(h)
            &&& t2.txs[h] == m2.transaction
            &&& m1.transaction == m2.transaction ==> t2.txs == t1.txs
            &&& m1.sender != m2.sender ==> peer_log(t2, m1.sender) == peer_log(t, m1.sender).push(
                m1.transaction,
            ) && peer_log(t2, m2.sender) == peer_log(t, m2.sender).push(m2.transaction)
            &&& m1.sender == m2.sender ==> peer_log(t2, m1.sender) == peer_log(
                t,
                m1.sender,
            ).push(m1.transaction).push(m2.transaction)
        }),
{
    let h = hex_of(b64_decode_of(m1.transaction)->0);
    let t1 = ingest_model(t, m1);
    let t2 = ingest_model(t1, m2);
    assert(t2.txs.dom() =~= t.txs.dom().insert(h));
    if m1.transaction == m2.transaction {
        assert(t2.txs =~= t1.txs);
    }
}

/// Malformed payload rejection: where the payload's transport encoding
/// does not decode, ingestion leaves the table exactly as it was — both
/// views, hence both sizes, unchanged.
pub proof fn lemma_malformed_rejected(t: TableModel, m: MessageModel)
    requires
        b64_decode_of(m.transaction) is None,
    ensures
        ingest_model(t, m) == t,
{
}

/// Append-order preservation: ingesting a sequence of decodable messages
/// from one sender appends exactly their payloads, in ingestion order, to
/// that sender's log.
pub proof fn lemma_append_order(t: TableModel, msgs: Seq<MessageModel>, sender: Seq<char>)
    requires
        forall|i: int| 0 <= i < msgs.len() ==> (#[trigger] msgs[i]).sender == sender,
        forall|i: int|
            0 <= i < msgs.len() ==> b64_decode_of((#[trigger] msgs[i]).transaction) is Some,
    ensures
        peer_log(ingest_all(t, msgs), sender) == peer_log(t, sender) + payloads_of(msgs),
    decreases msgs.len(),
{
    if msgs.len() == 0 {
        assert(peer_log(t, sender) + payloads_of(msgs) =~= peer_log(t, sender));
    } else {
        let m = msgs.last();
        let rest = msgs.drop_last();
        lemma_append_order(t, rest, sender);
        let tp = ingest_all(t, rest);
        assert(peer_log(ingest_model(tp, m), sender) == peer_log(tp, sender).push(m.transaction));
        assert(payloads_of(rest) =~= payloads_of(msgs).drop_last());
        assert(peer_log(t, sender) + payloads_of(msgs) =~= (peer_log(t, sender) + payloads_of(
            msgs,
        ).drop_last()).push(m.transaction));
    }
}

/// Ingestion safety for distinct messages: a batch of decodable messages
/// with pairwise-distinct senders and pairwise-distinct decoded payloads,
/// all new to the table, adds exactly one sender log and one hash entry
/// per message — no lost updates, whatever order the batch arrives in.
/// (Every ingestion runs under the table's exclusive-access window, so a
/// concurrent batch is some serialization of this sequence.)
pub proof fn lemma_distinct_ingestion(t: TableModel, msgs: Seq<MessageModel>)
    requires
        t.peers.dom().finite(),
        t.txs.dom().finite(),
        forall|i: int|
            0 <= i < msgs.len() ==> b64_decode_of((#[trigger] msgs[i]).transaction) is Some,
        forall|i: int, j: int|
            0 <= i < j < msgs.len() ==> (#[trigger] msgs[i]).sender != (#[trigger] msgs[j]).sender,
        forall|i: int| 0 <= i < msgs.len() ==> !t.peers.contains_key((#[trigger] msgs[i]).sender),
        forall|i: int, j: int|
            0 <= i < j < msgs.len() ==> b64_decode_of((#[trigger] msgs[i]).transaction)->0
                != b64_decode_of((#[trigger] msgs[j]).transaction)->0,
        forall|i: int|
            0 <= i < msgs.len() ==> !t.txs.contains_key(
                hex_of(b64_decode_of((#[trigger] msgs[i]).transaction)->0),
            ),
    ensures
        ingest_all(t, msgs).peers.dom().finite(),
        ingest_all(t, msgs).txs.dom().finite(),
        ingest_all(t, msgs).peers.dom().len() == t.peers.dom().len() + msgs.len(),
        ingest_all(t, msgs).txs.dom().len() == t.txs.dom().len() + msgs.len(),
        forall|k: Seq<char>|
            ingest_all(t, msgs).peers.dom().contains(k) <==> (t.peers.dom().contains(k)
                || exists|i: int| 0 <= i < msgs.len() && (#[trigger] msgs[i]).sender == k),
        forall|k: Seq<char>|
            ingest_all(t, msgs).txs.dom().contains(k) <==> (t.txs.dom().contains(k)
                || exists|i: int|
                    0 <= i < msgs.len() && hex_of(
                        b64_decode_of((#[trigger] msgs[i]).transaction)->0,
                    ) == k),
    decreases msgs.len(),
{
    if msgs.len() > 0 {
        let rest = msgs.drop_last();
        let m = msgs.last();
        lemma_distinct_ingestion(t, rest);
        let tp = ingest_all(t, rest);
        let d = b64_decode_of(m.transaction)->0;
        let h = hex_of(d);
        assert(!tp.peers.contains_key(m.sender)) by {
            assert(!t.peers.contains_key(m.sender));
            if exists|i: int| 0 <= i < rest.len() && (#[trigger] rest[i]).sender == m.sender {
                let i = choose|i: int|
                    0 <= i < rest.len() && (#[trigger] rest[i]).sender == m.sender;
                assert(msgs[i].sender == msgs[msgs.len() - 1].sender);
                assert(false);
            }
        }
        assert(!tp.txs.contains_key(h)) by {
            assert(!t.txs.contains_key(h));
            if exists|i: int|
                0 <= i < rest.len() && hex_of(
                    b64_decode_of((#[trigger] rest[i]).transaction)->0,
                ) == h {
                let i = choose|i: int|
                    0 <= i < rest.len() && hex_of(
                        b64_decode_of((#[trigger] rest[i]).transaction)->0,
                    ) == h;
                lemma_hex_injective(b64_decode_of(msgs[i].transaction)->0, d);
                assert(b64_decode_of(msgs[i].transaction)->0 == b64_decode_of(
                    msgs[msgs.len() - 1].transaction,
                )->0);
                assert(false);
            }
        }
        let t2 = ingest_all(t, msgs);
        assert(t2.peers.dom() =~= tp.peers.dom().insert(m.sender));
        assert(t2.txs.dom() =~= tp.txs.dom().insert(h));
        assert forall|k: Seq<char>|
            t2.peers.dom().contains(k) <==> (t.peers.dom().contains(k) || exists|i: int|
                0 <= i < msgs.len() && (#[trigger] msgs[i]).sender == k) by {
            if t2.peers.dom().contains(k) {
                if k == m.sender {
                    assert(msgs[msgs.len() - 1].sender == k);
                } else {
                    assert(tp.peers.dom().contains(k));
                    if !t.peers.dom().contains(k) {
                        let i = choose|i: int|
                            0 <= i < rest.len() && (#[trigger] rest[i]).sender == k;
                        assert(msgs[i].sender == k);
                    }
                }
            }
            if exists|i: int| 0 <= i < msgs.len() && (#[trigger] msgs[i]).sender == k {
                let i = choose|i: int| 0 <= i < msgs.len() && (#[trigger] msgs[i]).sender == k;
                if i < msgs.len() - 1 {
                    assert(rest[i].sender == k);
                }
            }
        }
        assert forall|k: Seq<char>|
            t2.txs.dom().contains(k) <==> (t.txs.dom().contains(k) || exists|i: int|
                0 <= i < msgs.len() && hex_of(
                    b64_decode_of((#[trigger] msgs[i]).transaction)->0,
                ) == k) by {
            if t2.txs.dom().contains(k) {
                if k == h {
                    assert(hex_of(b64_decode_of(msgs[msgs.len() - 1].transaction)->0) == k);
                } else {
                    assert(tp.txs.dom().contains(k));
                    if !t.txs.dom().contains(k) {
                        let i = choose|i: int|
                            0 <= i < rest.len() && hex_of(
                                b64_decode_of((#[trigger] rest[i]).transaction)->0,
                            ) == k;
                        assert(hex_of(b64_decode_of(msgs[i].transaction)->0) == k);
                    }
                }
            }
            if exists|i: int|
                0 <= i < msgs.len() && hex_of(
                    b64_decode_of((#[trigger] msgs[i]).transaction)->0,
                ) == k {
                let i = choose|i: int|
                    0 <= i < msgs.len() && hex_of(
                        b64_decode_of((#[trigger] msgs[i]).transaction)->0,
                    ) == k;
                if i < msgs.len() - 1 {
                    assert(hex_of(b64_decode_of(rest[i].transaction)->0) == k);
                }
            }
        }
    } else {
        assert forall|k: Seq<char>|
            ingest_all(t, msgs).peers.dom().contains(k) <==> (t.peers.dom().contains(k)
                || exists|i: int| 0 <= i < msgs.len() && (#[trigger] msgs[i]).sender == k) by {}
        assert forall|k: Seq<char>|
            ingest_all(t, msgs).txs.dom().contains(k) <==> (t.txs.dom().contains(k)
                || exists|i: int|
                    0 <= i < msgs.len() && hex_of(
                        b64_decode_of((#[trigger] msgs[i]).transaction)->0,
                    ) == k) by {}
    }
}

} // verus!
