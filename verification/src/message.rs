//! The wire entity of the gossip protocol: a transaction record with its
//! sender and a timestamp, and its envelope codec. The envelope is the
//! compact object form `{"transaction":"…","sender":"…","timestamp":N}`;
//! field strings are restricted to printable characters that need no
//! escaping, which covers the transport-encoded payloads and peer
//! identities that travel in them. Decoding accepts exactly the strings
//! the encoder produces, so every received envelope either yields the
//! message that was sent or is dropped as malformed.

use vstd::prelude::*;
use crate::num::{
    dec_of, is_dec_digit, num_of, lemma_dec_of_canonical, lemma_dec_of_num_of,
    lemma_num_of_dec_of, lemma_num_of_nonneg, u64_to_dec,
};

verus! {

/// A transaction record as it travels between nodes: the transport-encoded
/// payload, the sender's identity, and the sender's clock in seconds.
/// Never mutated once constructed; receivers only copy data out of it.
#[derive(Debug)]
pub struct TransactionMessage {
    pub transaction: String,
    pub sender: String,
    pub timestamp: u64,
}

/// The mathematical model of a message: its three fields as plain values.
pub struct MessageModel {
    pub transaction: Seq<char>,
    pub sender: Seq<char>,
    pub timestamp: u64,
}

impl View for TransactionMessage {
    type V = MessageModel;

    open spec fn view(&self) -> MessageModel {
        MessageModel {
            transaction: self.transaction@,
            sender: self.sender@,
            timestamp: self.timestamp,
        }
    }
}

/// A character allowed in an envelope field: printable, not a quote, not a
/// backslash, so the field needs no escaping.
pub open spec fn field_char_ok(c: char) -> bool {
    c != '"' && c != '\\' && 32 <= c as u32 && c as u32 <= 126
}

pub open spec fn valid_field(s: Seq<char>) -> bool {
    forall|i: int| 0 <= i < s.len() ==> field_char_ok(#[trigger] s[i])
}

/// A message the envelope can carry verbatim.
pub open spec fn valid_message(m: MessageModel) -> bool {
    valid_field(m.transaction) && valid_field(m.sender)
}

/// The envelope's opening piece, up to and including the quote that opens
/// the transaction field.
pub open spec fn pre_lit() -> Seq<char> {
    "{\"transaction\":\""@
}

/// The piece between the transaction and sender fields.
pub open spec fn mid1_lit() -> Seq<char> {
    "\",\"sender\":\""@
}

/// The piece between the sender field and the timestamp digits.
pub open spec fn mid2_lit() -> Seq<char> {
    "\",\"timestamp\":"@
}

pub open spec fn close_lit() -> Seq<char> {
    "}"@
}

/// The envelope of a message: its fields spliced between the fixed pieces.
pub open spec fn encode_spec(m: MessageModel) -> Seq<char> {
    pre_lit() + m.transaction + mid1_lit() + m.sender + mid2_lit()
        + dec_of(m.timestamp as nat) + close_lit()
}

/// Whether every character of a string may stand in an envelope field.
pub fn field_ok(s: &str) -> (r: bool)
    ensures
        r == valid_field(s@),
{
    let n = s.unicode_len();
    let mut i: usize = 0;
    while i < n
        invariant
            i <= n,
            n == s@.len(),
            forall|j: int| 0 <= j < i ==> field_char_ok(#[trigger] s@[j]),
        decreases n - i,
    {
        let c = s.get_char(i);
        let code = c as u32;
        if c == '"' || c == '\\' || code < 32 || code > 126 {
            return false;
        }
        i = i + 1;
    }
    true
}

/// The first position at or after `from` that does not hold a field
/// character, or the end of the string.
pub open spec fn field_end(s: Seq<char>, from: int) -> int
    recommends
        0 <= from <= s.len(),
    decreases s.len() - from when 0 <= from <= s.len()
{
    if from >= s.len() {
        s.len() as int
    } else if !field_char_ok(s[from]) {
        from
    } else {
        field_end(s, from + 1)
    }
}

/// The first position at or after `from` that does not hold a decimal
/// digit, or the end of the string.
pub open spec fn dec_end(s: Seq<char>, from: int) -> int
    recommends
        0 <= from <= s.len(),
    decreases s.len() - from when 0 <= from <= s.len()
{
    if from >= s.len() {
        s.len() as int
    } else if !is_dec_digit(s[from]) {
        from
    } else {
        dec_end(s, from + 1)
    }
}

pub proof fn lemma_field_end(s: Seq<char>, from: int)
    requires
        0 <= from <= s.len(),
    ensures
        from <= field_end(s, from) <= s.len(),
        forall|k: int| from <= k < field_end(s, from) ==> field_char_ok(#[trigger] s[k]),
        field_end(s, from) < s.len() ==> !field_char_ok(s[field_end(s, from)]),
    decreases s.len() - from,
{
    if from < s.len() && field_char_ok(s[from]) {
        lemma_field_end(s, from + 1);
    }
}

/// The scanner stops exactly at a known boundary: field characters up to
/// `j`, and `j` itself either the end or a non-field character.
pub proof fn lemma_field_end_is(s: Seq<char>, from: int, j: int)
    requires
        0 <= from <= j <= s.len(),
        forall|k: int| from <= k < j ==> field_char_ok(#[trigger] s[k]),
        j == s.len() || !field_char_ok(s[j]),
    ensures
        field_end(s, from) == j,
    decreases j - from,
{
    if from < j {
        lemma_field_end_is(s, from + 1, j);
    }
}

pub proof fn lemma_dec_end(s: Seq<char>, from: int)
    requires
        0 <= from <= s.len(),
    ensures
        from <= dec_end(s, from) <= s.len(),
        forall|k: int| from <= k < dec_end(s, from) ==> is_dec_digit(#[trigger] s[k]),
        dec_end(s, from) < s.len() ==> !is_dec_digit(s[dec_end(s, from)]),
    decreases s.len() - from,
{
    if from < s.len() && is_dec_digit(s[from]) {
        lemma_dec_end(s, from + 1);
    }
}

pub proof fn lemma_dec_end_is(s: Seq<char>, from: int, j: int)
    requires
        0 <= from <= j <= s.len(),
        forall|k: int| from <= k < j ==> is_dec_digit(#[trigger] s[k]),
        j == s.len() || !is_dec_digit(s[j]),
    ensures
        dec_end(s, from) == j,
    decreases j - from,
{
    if from < j {
        lemma_dec_end_is(s, from + 1, j);
    }
}

/// What the envelope parser yields on a character string: the one message
/// whose envelope the string is, or nothing. `lemma_decode_encode` and
/// `lemma_decode_sound` show that this accepts exactly the image of
/// `encode_spec` on valid messages.
pub open spec fn decode_spec(s: Seq<char>) -> Option<MessageModel> {
    if s.len() < 16 || s.subrange(0, 16) != pre_lit() {
        None
    } else {
        let j = field_end(s, 16);
        if j + 12 > s.len() || s.subrange(j, j + 12) != mid1_lit() {
            None
        } else {
            let k = field_end(s, j + 12);
            if k + 14 > s.len() || s.subrange(k, k + 14) != mid2_lit() {
                None
            } else {
                let e = dec_end(s, k + 14);
                if e <= k + 14 || e != s.len() - 1 || s[e] != '}' {
                    None
                } else {
                    let digits = s.subrange(k + 14, e);
                    if (digits[0] == '0' && digits.len() != 1) || num_of(digits) > u64::MAX {
                        None
                    } else {
                        Some(MessageModel {
                            transaction: s.subrange(16, j),
                            sender: s.subrange(j + 12, k),
                            timestamp: num_of(digits) as u64,
                        })
                    }
                }
            }
        }
    }
}

/// Whether the characters of `s` from `at` on spell out `pat`.
#[verifier::loop_isolation(false)]
fn matches_at(s: &str, at: usize, pat: &str) -> (r: bool)
    requires
        at + pat@.len() <= s@.len(),
    ensures
        r == (s@.subrange(at as int, at + pat@.len()) == pat@),
{
    // pins s@.len() to a usize, so the index sums below cannot overflow
    let _sn = s.unicode_len();
    let n = pat.unicode_len();
    let mut k: usize = 0;
    while k < n
        invariant
            k <= n,
            n == pat@.len(),
            at + n <= s@.len(),
            forall|j: int| 0 <= j < k ==> s@[at + j] == pat@[j],
        decreases n - k,
    {
        if s.get_char(at + k) != pat.get_char(k) {
            proof {
                let sub = s@.subrange(at as int, at + pat@.len());
                assert(sub[k as int] != pat@[k as int]);
            }
            return false;
        }
        k = k + 1;
    }
    proof {
        assert(s@.subrange(at as int, at + pat@.len()) =~= pat@);
    }
    true
}

/// The position where the field starting at `from` ends.
fn scan_field(s: &str, from: usize) -> (r: usize)
    requires
        from <= s@.len(),
    ensures
        r == field_end(s@, from as int),
        from <= r <= s@.len(),
{
    let n = s.unicode_len();
    let mut i: usize = from;
    while i < n
        invariant
            from <= i <= n,
            n == s@.len(),
            forall|j: int| from <= j < i ==> field_char_ok(#[trigger] s@[j]),
        decreases n - i,
    {
        let c = s.get_char(i);
        let code = c as u32;
        if c == '"' || c == '\\' || code < 32 || code > 126 {
            proof {
                lemma_field_end_is(s@, from as int, i as int);
            }
            return i;
        }
        i = i + 1;
    }
    proof {
        lemma_field_end_is(s@, from as int, n as int);
    }
    n
}

/// The position where the digit run starting at `from` ends.
fn scan_dec(s: &str, from: usize) -> (r: usize)
    requires
        from <= s@.len(),
    ensures
        r == dec_end(s@, from as int),
        from <= r <= s@.len(),
{
    let n = s.unicode_len();
    let mut i: usize = from;
    while i < n
        invariant
            from <= i <= n,
            n == s@.len(),
            forall|j: int| from <= j < i ==> is_dec_digit(#[trigger] s@[j]),
        decreases n - i,
    {
        let c = s.get_char(i);
        let code = c as u32;
        if code < 48 || code > 57 {
            proof {
                lemma_dec_end_is(s@, from as int, i as int);
            }
            return i;
        }
        i = i + 1;
    }
    proof {
        lemma_dec_end_is(s@, from as int, n as int);
    }
    n
}

/// Parse a wire envelope back into a message. Succeeds exactly where the
/// parser's specification does, and then yields exactly its message.
#[verifier::loop_isolation(false)]
pub fn decode_message(s: &str) -> (r: Option<TransactionMessage>)
    ensures
        (r is Some) == (decode_spec(s@) is Some),
        r is Some ==> r->0@ == decode_spec(s@)->0,
{
    proof {
        reveal_strlit("{\"transaction\":\"");
        reveal_strlit("\",\"sender\":\"");
        reveal_strlit("\",\"timestamp\":");
        assert(pre_lit().len() == 16);
        assert(mid1_lit().len() == 12);
        assert(mid2_lit().len() == 14);
    }
    let n = s.unicode_len();
    if n < 16 {
        return None;
    }
    if !matches_at(s, 0, "{\"transaction\":\"") {
        return None;
    }
    let j = scan_field(s, 16);
    proof {
        lemma_field_end(s@, 16);
    }
    if j > n - 12 {
        return None;
    }
    if !matches_at(s, j, "\",\"sender\":\"") {
        return None;
    }
    let k = scan_field(s, j + 12);
    proof {
        lemma_field_end(s@, j + 12);
    }
    if k > n - 14 {
        return None;
    }
    if !matches_at(s, k, "\",\"timestamp\":") {
        return None;
    }
    let e = scan_dec(s, k + 14);
    proof {
        lemma_dec_end(s@, k + 14);
    }
    if e <= k + 14 || e != n - 1 {
        return None;
    }
    if s.get_char(e) != '}' {
        return None;
    }
    let ghost digits = s@.subrange(k + 14, e as int);
    if s.get_char(k + 14) == '0' && e != k + 15 {
        proof {
            assert(digits[0] == '0' && digits.len() != 1);
        }
        return None;
    }
    let mut v: u64 = 0;
    let mut i: usize = k + 14;
    while i < e
        invariant
            k + 14 <= i <= e,
            e <= s@.len(),
            e == dec_end(s@, k + 14),
            digits == s@.subrange(k + 14, e as int),
            forall|q: int| k + 14 <= q < e ==> is_dec_digit(#[trigger] s@[q]),
            v == num_of(s@.subrange(k + 14, i as int)),
        decreases e - i,
    {
        let c = s.get_char(i);
        proof {
            assert(is_dec_digit(c));
        }
        let d = (c as u32 - 48) as u64;
        proof {
            lemma_num_of_nonneg(s@.subrange(k + 14, i as int));
        }
        if v > (u64::MAX - d) / 10 {
            proof {
                let part = s@.subrange(k + 14, i + 1);
                assert(part.drop_last() =~= s@.subrange(k + 14, i as int));
                assert(num_of(part) == v * 10 + d);
                assert(v * 10 + d > u64::MAX);
                assert(forall|q: int| 0 <= q < digits.len() ==> is_dec_digit(#[trigger] digits[q]));
                assert(part =~= digits.take(i + 1 - (k + 14)));
                crate::num::lemma_num_of_prefix(digits, i + 1 - (k + 14));
                assert(num_of(digits) > u64::MAX);
            }
            return None;
        }
        proof {
            let part = s@.subrange(k + 14, i + 1);
            assert(part.drop_last() =~= s@.subrange(k + 14, i as int));
            assert(part.last() == s@[i as int]);
        }
        v = v * 10 + d;
        i = i + 1;
    }
    proof {
        assert(s@.subrange(k + 14, e as int) == digits);
        assert(v == num_of(digits));
        lemma_num_of_nonneg(digits);
    }
    let tx = String::from_str(s.substring_char(16, j));
    let sd = String::from_str(s.substring_char(j + 12, k));
    let out = TransactionMessage { transaction: tx, sender: sd, timestamp: v };
    proof {
        assert(out@ == decode_spec(s@)->0);
    }
    Some(out)
}

/// Decoding undoes encoding: the envelope of any carriable message parses
/// back to exactly that message. With `lemma_decode_sound` this makes the
/// envelope a faithful round trip between nodes.
pub proof fn lemma_decode_encode(m: MessageModel)
    requires
        valid_message(m),
    ensures
        decode_spec(encode_spec(m)) == Some(m),
{
    reveal_strlit("{\"transaction\":\"");
    reveal_strlit("\",\"sender\":\"");
    reveal_strlit("\",\"timestamp\":");
    reveal_strlit("}");
    let s = encode_spec(m);
    let tx = m.transaction;
    let sd = m.sender;
    let dg = dec_of(m.timestamp as nat);
    lemma_dec_of_canonical(m.timestamp);
    lemma_num_of_dec_of(m.timestamp as nat);
    let b = 16 + tx.len() as int;
    let c = b + 12;
    let d = c + sd.len() as int;
    let e0 = d + 14;
    let e1 = e0 + dg.len() as int;
    assert(s.len() == e1 + 1);
    assert(s.subrange(0, 16) =~= pre_lit());
    assert forall|q: int| 16 <= q < b implies field_char_ok(#[trigger] s[q]) by {
        assert(s[q] == tx[q - 16]);
    }
    assert(s[b] == mid1_lit()[0]);
    assert(!field_char_ok('"'));
    lemma_field_end_is(s, 16, b);
    assert(s.subrange(b, c) =~= mid1_lit());
    assert forall|q: int| c <= q < d implies field_char_ok(#[trigger] s[q]) by {
        assert(s[q] == sd[q - c]);
    }
    assert(s[d] == mid2_lit()[0]);
    lemma_field_end_is(s, c, d);
    assert(s.subrange(d, e0) =~= mid2_lit());
    assert forall|q: int| e0 <= q < e1 implies is_dec_digit(#[trigger] s[q]) by {
        assert(s[q] == dg[q - e0]);
    }
    assert(s[e1] == close_lit()[0]);
    assert(close_lit()[0] == '}');
    assert(!is_dec_digit('}'));
    lemma_dec_end_is(s, e0, e1);
    let digits = s.subrange(e0, e1);
    assert(digits =~= dg);
    assert(s.subrange(16, b) =~= tx);
    assert(s.subrange(c, d) =~= sd);
    assert(num_of(digits) == m.timestamp);
    assert(decode_spec(s)->0 == m);
}

/// Decoding is sound: whatever the parser accepts is a carriable message,
/// and re-encoding it gives the very string that was parsed. Together with
/// `lemma_decode_encode`, the parser accepts exactly the envelopes of
/// carriable messages, and no two messages share an envelope.
pub proof fn lemma_decode_sound(s: Seq<char>)
    requires
        decode_spec(s) is Some,
    ensures
        valid_message(decode_spec(s)->0),
        encode_spec(decode_spec(s)->0) == s,
{
    reveal_strlit("{\"transaction\":\"");
    reveal_strlit("\",\"sender\":\"");
    reveal_strlit("\",\"timestamp\":");
    reveal_strlit("}");
    let j = field_end(s, 16);
    lemma_field_end(s, 16);
    let k = field_end(s, j + 12);
    lemma_field_end(s, j + 12);
    let e = dec_end(s, k + 14);
    lemma_dec_end(s, k + 14);
    let m = decode_spec(s)->0;
    let digits = s.subrange(k + 14, e);
    assert forall|q: int| 0 <= q < digits.len() implies is_dec_digit(#[trigger] digits[q]) by {
        assert(digits[q] == s[k + 14 + q]);
    }
    lemma_num_of_nonneg(digits);
    lemma_dec_of_num_of(digits);
    assert(m.timestamp == num_of(digits) as u64);
    assert(dec_of(m.timestamp as nat) == digits);
    assert forall|q: int| 0 <= q < m.transaction.len() implies field_char_ok(
        #[trigger] m.transaction[q],
    ) by {
        assert(m.transaction[q] == s[16 + q]);
    }
    assert forall|q: int| 0 <= q < m.sender.len() implies field_char_ok(
        #[trigger] m.sender[q],
    ) by {
        assert(m.sender[q] == s[j + 12 + q]);
    }
    let r = encode_spec(m);
    assert(r.len() == s.len());
    assert forall|q: int| 0 <= q < s.len() implies r[q] == s[q] by {
        if q < 16 {
            assert(r[q] == pre_lit()[q]);
            assert(s.subrange(0, 16)[q] == s[q]);
        } else if q < j {
            assert(r[q] == m.transaction[q - 16]);
        } else if q < j + 12 {
            assert(r[q] == mid1_lit()[q - j]);
            assert(s.subrange(j, j + 12)[q - j] == s[q]);
        } else if q < k {
            assert(r[q] == m.sender[q - (j + 12)]);
        } else if q < k + 14 {
            assert(r[q] == mid2_lit()[q - k]);
            assert(s.subrange(k, k + 14)[q - k] == s[q]);
        } else if q < e {
            assert(r[q] == digits[q - (k + 14)]);
        } else {
            assert(r[q] == close_lit()[0]);
            assert(s[q] == '}');
        }
    }
    assert(r =~= s);
}

/// Serialize a message into its wire envelope. Succeeds exactly where both
/// string fields consist of characters the envelope can carry verbatim,
/// and then yields exactly `encode_spec` of the message.
pub fn encode_message(m: &TransactionMessage) -> (r: Option<String>)
    ensures
        (r is Some) == valid_message(m@),
        r is Some ==> r->0@ == encode_spec(m@),
{
    if !field_ok(m.transaction.as_str()) {
        return None;
    }
    if !field_ok(m.sender.as_str()) {
        return None;
    }
    let mut out = String::from_str("{\"transaction\":\"");
    out.append(m.transaction.as_str());
    out.append("\",\"sender\":\"");
    out.append(m.sender.as_str());
    out.append("\",\"timestamp\":");
    let digits = u64_to_dec(m.timestamp);
    out.append(digits.as_str());
    out.append("}");
    proof {
        assert(out@ =~= encode_spec(m@));
    }
    Some(out)
}

} // verus!
