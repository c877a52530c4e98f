//! The content-derived hash key of the replicated table: the lowercase
//! hexadecimal rendering of a transaction's decoded bytes. This is a plain
//! positional encoding, not a cryptographic digest, so it is injective by
//! construction: distinct byte strings always get distinct keys.

use vstd::prelude::*;

verus! {

/// The lowercase hexadecimal digit character for a value below sixteen.
pub open spec fn hex_char(n: u8) -> char
    recommends
        n < 16,
{
    if n < 10 {
        (48 + n) as char
    } else {
        (87 + n) as char
    }
}

/// The lowercase hex rendering of a byte string: two digits per byte,
/// high nibble first.
pub open spec fn hex_of(bytes: Seq<u8>) -> Seq<char>
    decreases bytes.len(),
{
    if bytes.len() == 0 {
        Seq::empty()
    } else {
        hex_of(bytes.drop_last()) + seq![
            hex_char(bytes.last() / 16),
            hex_char(bytes.last() % 16),
        ]
    }
}

/// The value a lowercase hex digit character stands for.
pub open spec fn hex_val(c: char) -> int {
    if 48 <= c as u32 && c as u32 <= 57 {
        c as u32 - 48
    } else {
        c as u32 - 87
    }
}

/// The byte string a hex rendering stands for; inverse of `hex_of`.
pub open spec fn unhex(s: Seq<char>) -> Seq<u8>
    decreases s.len(),
{
    if s.len() < 2 {
        Seq::empty()
    } else {
        unhex(s.take(s.len() - 2)) + seq![
            ((16 * hex_val(s[s.len() - 2]) + hex_val(s[s.len() - 1])) % 256) as u8,
        ]
    }
}

pub proof fn lemma_hex_len(bytes: Seq<u8>)
    ensures
        hex_of(bytes).len() == 2 * bytes.len(),
    decreases bytes.len(),
{
    if bytes.len() > 0 {
        lemma_hex_len(bytes.drop_last());
    }
}

/// `unhex` undoes `hex_of` on every byte string.
pub proof fn lemma_unhex_hex(bytes: Seq<u8>)
    ensures
        unhex(hex_of(bytes)) == bytes,
    decreases bytes.len(),
{
    if bytes.len() == 0 {
        assert(unhex(hex_of(bytes)) =~= bytes);
    } else {
        let h = hex_of(bytes);
        lemma_hex_len(bytes);
        lemma_hex_len(bytes.drop_last());
        lemma_unhex_hex(bytes.drop_last());
        assert(h.take(h.len() - 2) =~= hex_of(bytes.drop_last()));
        let b = bytes.last();
        assert(hex_val(hex_char(b / 16)) == b / 16);
        assert(hex_val(hex_char(b % 16)) == b % 16);
        assert(unhex(h) =~= bytes);
    }
}

/// The table's hash key never collides: distinct decoded payloads always
/// get distinct hex keys.
pub proof fn lemma_hex_injective(a: Seq<u8>, b: Seq<u8>)
    requires
        hex_of(a) == hex_of(b),
    ensures
        a == b,
{
    lemma_unhex_hex(a);
    lemma_unhex_hex(b);
}

/// The one-character string for a hex digit value.
pub(crate) fn hex_digit_str(n: u8) -> (r: &'static str)
    requires
        n < 16,
    ensures
        r@ =~= seq![hex_char(n)],
{
    match n {
        0 => {
            let r = "0";
            proof { reveal_strlit("0"); }
            r
        },
        1 => {
            let r = "1";
            proof { reveal_strlit("1"); }
            r
        },
        2 => {
            let r = "2";
            proof { reveal_strlit("2"); }
            r
        },
        3 => {
            let r = "3";
            proof { reveal_strlit("3"); }
            r
        },
        4 => {
            let r = "4";
            proof { reveal_strlit("4"); }
            r
        },
        5 => {
            let r = "5";
            proof { reveal_strlit("5"); }
            r
        },
        6 => {
            let r = "6";
            proof { reveal_strlit("6"); }
            r
        },
        7 => {
            let r = "7";
            proof { reveal_strlit("7"); }
            r
        },
        8 => {
            let r = "8";
            proof { reveal_strlit("8"); }
            r
        },
        9 => {
            let r = "9";
            proof { reveal_strlit("9"); }
            r
        },
        10 => {
            let r = "a";
            proof { reveal_strlit("a"); }
            r
        },
        11 => {
            let r = "b";
            proof { reveal_strlit("b"); }
            r
        },
        12 => {
            let r = "c";
            proof { reveal_strlit("c"); }
            r
        },
        13 => {
            let r = "d";
            proof { reveal_strlit("d"); }
            r
        },
        14 => {
            let r = "e";
            proof { reveal_strlit("e"); }
            r
        },
        _ => {
            let r = "f";
            proof { reveal_strlit("f"); }
            r
        },
    }
}

/// The table's content hash: the lowercase hex rendering of the decoded
/// transaction bytes.
pub fn hex_digest(bytes: &Vec<u8>) -> (r: String)
    ensures
        r@ == hex_of(bytes@),
{
    let mut out = String::new();
    let mut i: usize = 0;
    while i < bytes.len()
        invariant
            i <= bytes.len(),
            out@ == hex_of(bytes@.take(i as int)),
        decreases bytes.len() - i,
    {
        let b = bytes[i];
        let hi = b / 16;
        let lo = b % 16;
        out.append(hex_digit_str(hi));
        out.append(hex_digit_str(lo));
        proof {
            let t = bytes@.take(i + 1);
            assert(t.drop_last() =~= bytes@.take(i as int));
            assert(out@ =~= hex_of(t));
        }
        i = i + 1;
    }
    proof {
        assert(bytes@.take(bytes@.len() as int) =~= bytes@);
    }
    out
}

} // verus!
