//! Canonical decimal numerals, as they appear in the timestamp field of the
//! wire envelope: no sign, no leading zero, value within `u64`.

use vstd::prelude::*;
use crate::hex;

verus! {

/// A decimal digit character.
pub open spec fn is_dec_digit(c: char) -> bool {
    48 <= c as u32 && c as u32 <= 57
}

/// The value a decimal digit character stands for.
pub open spec fn digit_val(c: char) -> int {
    c as u32 - 48
}

/// The canonical decimal numeral of a number: most significant digit
/// first, no leading zero.
pub open spec fn dec_of(n: nat) -> Seq<char>
    decreases n,
{
    if n < 10 {
        seq![hex::hex_char(n as u8)]
    } else {
        dec_of((n / 10) as nat).push(hex::hex_char((n % 10) as u8))
    }
}

pub open spec fn all_dec_digits(s: Seq<char>) -> bool {
    forall|i: int| 0 <= i < s.len() ==> is_dec_digit(#[trigger] s[i])
}

/// The number a digit string stands for.
pub open spec fn num_of(s: Seq<char>) -> int
    decreases s.len(),
{
    if s.len() == 0 {
        0
    } else {
        num_of(s.drop_last()) * 10 + digit_val(s.last())
    }
}

/// A digit string that is the canonical numeral of some `u64`.
pub open spec fn canonical_dec(s: Seq<char>) -> bool {
    &&& s.len() > 0
    &&& all_dec_digits(s)
    &&& (s[0] == '0' ==> s.len() == 1)
    &&& num_of(s) <= u64::MAX
}

pub proof fn lemma_num_of_nonneg(s: Seq<char>)
    requires
        all_dec_digits(s),
    ensures
        num_of(s) >= 0,
    decreases s.len(),
{
    if s.len() > 0 {
        lemma_num_of_nonneg(s.drop_last());
    }
}

/// Extending a digit string on the right never decreases its value.
pub proof fn lemma_num_of_prefix(s: Seq<char>, k: int)
    requires
        all_dec_digits(s),
        0 <= k <= s.len(),
    ensures
        num_of(s.take(k)) <= num_of(s),
    decreases s.len() - k,
{
    if k < s.len() {
        lemma_num_of_prefix(s, k + 1);
        let t = s.take(k + 1);
        assert(t.drop_last() =~= s.take(k));
        lemma_num_of_nonneg(s.take(k));
        assert(num_of(s.take(k)) <= num_of(t));
    } else {
        assert(s.take(k) =~= s);
    }
}

/// `dec_of` yields digits, nonempty, with no leading zero unless the
/// number is zero itself.
pub proof fn lemma_dec_of_form(n: nat)
    ensures
        dec_of(n).len() >= 1,
        all_dec_digits(dec_of(n)),
        dec_of(n)[0] == '0' ==> n == 0,
        n < 10 ==> dec_of(n).len() == 1,
        n >= 10 ==> dec_of(n).len() >= 2,
    decreases n,
{
    if n < 10 {
        assert(is_dec_digit(hex::hex_char(n as u8)));
    } else {
        lemma_dec_of_form((n / 10) as nat);
        let p = dec_of((n / 10) as nat);
        let d = hex::hex_char((n % 10) as u8);
        assert(is_dec_digit(d));
        assert(dec_of(n) == p.push(d));
        assert(forall|i: int| 0 <= i < p.push(d).len() ==> is_dec_digit(#[trigger] p.push(d)[i]));
        assert(dec_of(n)[0] == p[0]);
    }
}

/// The numeral of a number stands for that number.
pub proof fn lemma_num_of_dec_of(n: nat)
    ensures
        num_of(dec_of(n)) == n,
    decreases n,
{
    if n < 10 {
        let s = dec_of(n);
        assert(s == seq![hex::hex_char(n as u8)]);
        assert(num_of(s.drop_last()) == 0);
        assert(digit_val(hex::hex_char(n as u8)) == n);
    } else {
        lemma_num_of_dec_of((n / 10) as nat);
        let p = dec_of((n / 10) as nat);
        let d = hex::hex_char((n % 10) as u8);
        assert(p.push(d).drop_last() =~= p);
        assert(p.push(d).last() == d);
        assert(digit_val(d) == n % 10);
        assert(n == (n / 10) * 10 + n % 10) by (nonlinear_arith);
        assert(num_of(dec_of(n)) == (n / 10) * 10 + n % 10);
    }
}

pub proof fn lemma_dec_of_canonical(n: u64)
    ensures
        canonical_dec(dec_of(n as nat)),
{
    lemma_dec_of_form(n as nat);
    lemma_num_of_dec_of(n as nat);
}

/// A decimal digit character other than '0' stands for a positive value.
pub proof fn lemma_digit_val_pos(c: char)
    requires
        is_dec_digit(c),
        c != '0',
    ensures
        digit_val(c) >= 1,
{
    if c as u32 == 48 {
        vstd::utf8::char_u32_cast(c, 48);
        vstd::utf8::char_u32_cast('0', 48);
        assert(false);
    }
}

/// The digit character of a digit's value is that character again.
pub proof fn lemma_digit_char_val(c: char)
    requires
        is_dec_digit(c),
    ensures
        hex::hex_char(digit_val(c) as u8) == c,
{
    let n = digit_val(c) as u8;
    assert(hex::hex_char(n) as u32 == 48 + n);
    vstd::utf8::char_u32_cast(c, (48 + n) as u32);
    vstd::utf8::char_u32_cast(hex::hex_char(n), (48 + n) as u32);
}

/// A nonempty digit string without a leading zero stands for at least 1;
/// with two or more digits, for at least 10.
pub proof fn lemma_num_of_lower(s: Seq<char>)
    requires
        all_dec_digits(s),
        s.len() >= 1,
        s[0] != '0',
    ensures
        num_of(s) >= 1,
        s.len() >= 2 ==> num_of(s) >= 10,
    decreases s.len(),
{
    if s.len() == 1 {
        lemma_digit_val_pos(s[0]);
        assert(num_of(s.drop_last()) == 0);
    } else {
        let p = s.drop_last();
        lemma_num_of_lower(p);
        assert(digit_val(s.last()) >= 0);
        assert(num_of(p) * 10 >= 10) by {
            assert(num_of(p) >= 1);
        };
    }
}

/// Canonical numerals are the image of `dec_of`: the numeral of the value
/// of a canonical digit string is that string again.
pub proof fn lemma_dec_of_num_of(s: Seq<char>)
    requires
        s.len() > 0,
        all_dec_digits(s),
        s[0] == '0' ==> s.len() == 1,
    ensures
        num_of(s) >= 0,
        dec_of(num_of(s) as nat) == s,
    decreases s.len(),
{
    lemma_num_of_nonneg(s);
    let n = num_of(s);
    if s.len() == 1 {
        assert(num_of(s.drop_last()) == 0);
        assert(n == digit_val(s[0]));
        lemma_digit_char_val(s[0]);
        assert(dec_of(n as nat) =~= s);
    } else {
        let p = s.drop_last();
        let d = digit_val(s.last());
        assert(s[0] != '0');
        assert(p[0] == s[0]);
        lemma_dec_of_num_of(p);
        lemma_num_of_lower(p);
        assert(n == num_of(p) * 10 + d);
        assert(0 <= d < 10);
        assert(n / 10 == num_of(p) && n % 10 == d) by (nonlinear_arith)
            requires
                n == num_of(p) * 10 + d,
                0 <= d < 10,
                num_of(p) >= 0,
        ;
        assert(n >= 10);
        assert(dec_of(n as nat) == dec_of((n / 10) as nat).push(hex::hex_char((n % 10) as u8)));
        lemma_digit_char_val(s.last());
        assert(hex::hex_char((n % 10) as u8) == s.last());
        assert(dec_of(n as nat) =~= s);
    }
}

/// The canonical numeral of a `u64`, as a string.
pub fn u64_to_dec(n: u64) -> (r: String)
    ensures
        r@ == dec_of(n as nat),
    decreases n,
{
    if n < 10 {
        let mut out = String::new();
        out.append(hex::hex_digit_str(n as u8));
        proof {
            assert(out@ =~= dec_of(n as nat));
        }
        out
    } else {
        let mut out = u64_to_dec(n / 10);
        out.append(hex::hex_digit_str((n % 10) as u8));
        proof {
            assert(out@ =~= dec_of(n as nat));
        }
        out
    }
}

} // verus!
