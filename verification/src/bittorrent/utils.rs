//! Decimal integer text, and sample values used by tests.
use vstd::prelude::*;
use crate::bittorrent::bencode::BencodeT;
use crate::bittorrent::text::{ascii_chars, concat, push_ascii};

verus! {

pub open spec fn is_digit_byte(c: u8) -> bool {
    48 <= c <= 57
}

pub open spec fn all_digits(s: Seq<u8>) -> bool {
    forall|k: int| 0 <= k < s.len() ==> is_digit_byte(#[trigger] s[k])
}

/// The number that ASCII decimal digits denote.
pub open spec fn digits_val(s: Seq<u8>) -> nat
    decreases s.len(),
{
    if s.len() == 0 {
        0
    } else {
        digits_val(s.drop_last()) * 10 + (s.last() - 48) as nat
    }
}

pub open spec fn pow10(n: nat) -> nat
    decreases n,
{
    if n == 0 {
        1
    } else {
        10 * pow10((n - 1) as nat)
    }
}

/// Whether integer text starts with a minus sign.
pub open spec fn is_negative_text(t: Seq<u8>) -> bool {
    t.len() > 0 && t[0] == 45
}

/// The digits of integer text: the text without its leading minus sign.
pub open spec fn int_digits(t: Seq<u8>) -> Seq<u8> {
    if is_negative_text(t) {
        t.drop_first()
    } else {
        t
    }
}

/// Integer text: an optional leading `-`, then decimal digits.
pub open spec fn is_int_text(t: Seq<u8>) -> bool {
    t.len() > 0 && all_digits(int_digits(t))
}

/// Whether integer text is refused as too large: it has more than 19
/// digits, or 19 digits that are not those of `i64::MAX` (which is the only
/// 19-digit value read).
pub open spec fn int_text_overflows(t: Seq<u8>) -> bool {
    int_digits(t).len() > 19 || (int_digits(t).len() == 19 && digits_val(int_digits(t)) != i64::MAX)
}

/// The integers whose decimal text is read back: those of fewer than 19
/// digits, and `i64::MAX` and its negation.
pub open spec fn int_text_range(i: int) -> bool {
    (-1_000_000_000_000_000_000 < i < 1_000_000_000_000_000_000) || i == i64::MAX || i == -i64::MAX
}

/// The value of integer text that does not overflow.
pub open spec fn int_text_value(t: Seq<u8>) -> int {
    if is_negative_text(t) {
        -(digits_val(int_digits(t)) as int)
    } else {
        digits_val(int_digits(t)) as int
    }
}

/// The message of the error for integer text that overflows.
pub open spec fn overflow_text(t: Seq<u8>) -> Seq<char> {
    "Overflow: \""@ + ascii_chars(int_digits(t)) + "\""@
}

pub proof fn lemma_digits_val_bound(s: Seq<u8>)
    requires
        all_digits(s),
    ensures
        digits_val(s) < pow10(s.len()),
    decreases s.len(),
{
    if s.len() > 0 {
        let t = s.drop_last();
        assert(all_digits(t)) by {
            assert forall|k: int| 0 <= k < t.len() implies is_digit_byte(#[trigger] t[k]) by {
                assert(t[k] == s[k]);
            }
        }
        lemma_digits_val_bound(t);
        let a = digits_val(t);
        let p = pow10(t.len());
        let d = (s.last() - 48) as nat;
        assert(d <= 9) by {
            assert(is_digit_byte(s[s.len() - 1]));
        }
        assert(a * 10 + d < 10 * p) by (nonlinear_arith)
            requires
                a < p,
                d <= 9,
        ;
    }
}

proof fn lemma_digits_val_step(s: Seq<u8>, k: int)
    requires
        0 <= k < s.len(),
    ensures
        digits_val(s.subrange(0, k + 1)) == digits_val(s.subrange(0, k)) * 10 + (s[k] - 48) as nat,
{
    assert(s.subrange(0, k + 1).drop_last() =~= s.subrange(0, k));
}

/// Reads integer text: an optional `-`, then decimal digits.
///
/// Gives the error `Overflow: "<digits>"` when there are more than 19 digits,
/// or 19 digits other than those of `i64::MAX`.
pub fn i64_from_ascii(text: &[u8]) -> (r: Result<i64, String>)
    requires
        is_int_text(text@),
    ensures
        !int_text_overflows(text@) ==> r is Ok && r->Ok_0 as int == int_text_value(text@),
        int_text_overflows(text@) ==> r is Err && r->Err_0@ == overflow_text(text@),
{
    let negative = text[0] == 45u8;
    let start: usize = if negative { 1 } else { 0 };
    let ghost d = int_digits(text@);
    assert(d =~= text@.subrange(start as int, text@.len() as int));
    if text.len() - start > 19 {
        return Err(overflow_error(text, start));
    }
    let mut val: u64 = 0;
    let mut k: usize = start;
    proof {
        reveal_with_fuel(pow10, 20);
        assert(d.subrange(0, 0) =~= Seq::<u8>::empty());
    }
    while k < text.len()
        invariant
            start <= k <= text.len(),
            text.len() - start <= 19,
            d == text@.subrange(start as int, text@.len() as int),
            all_digits(d),
            val == digits_val(d.subrange(0, k - start)),
            val < pow10((k - start) as nat),
            pow10(18) == 1000000000000000000,
        decreases text.len() - k,
    {
        proof {
            lemma_digits_val_step(d, k - start);
            assert(d[k - start] == text@[k as int]);
            assert(is_digit_byte(d[k - start]));
            assert(pow10((k - start) as nat) <= pow10(18)) by {
                lemma_pow10_mono((k - start) as nat, 18);
            }
        }
        let digit: u64 = (text[k] - 48u8) as u64;
        assert(val * 10 + digit < 10 * pow10((k - start) as nat)) by (nonlinear_arith)
            requires
                val < pow10((k - start) as nat),
                digit <= 9,
        ;
        val = val * 10 + digit;
        k = k + 1;
    }
    assert(d.subrange(0, k - start) =~= d);
    if text.len() - start == 19 && val != 9223372036854775807u64 {
        return Err(overflow_error(text, start));
    }
    assert(val < 1_000_000_000_000_000_000 || val == 9223372036854775807u64) by {
        if text.len() - start < 19 {
            lemma_pow10_mono((text.len() - start) as nat, 18);
        }
    }
    if negative {
        Ok(-(val as i64))
    } else {
        Ok(val as i64)
    }
}

proof fn lemma_pow10_mono(a: nat, b: nat)
    requires
        a <= b,
    ensures
        pow10(a) <= pow10(b),
    decreases b,
{
    if a < b {
        lemma_pow10_mono(a, (b - 1) as nat);
    }
}

fn overflow_error(text: &[u8], start: usize) -> (r: String)
    requires
        start <= text.len(),
        start == 1 <==> is_negative_text(text@),
        start == 0 || start == 1,
    ensures
        r@ == overflow_text(text@),
{
    let s = concat("Overflow: \"".to_string(), "");
    proof {
        assert(s@ == "Overflow: \""@ + ""@);
        reveal_strlit("");
        assert(s@ =~= "Overflow: \""@);
    }
    let digits = vstd::slice::slice_subrange(text, start, text.len());
    assert(digits@ =~= int_digits(text@));
    let s = push_ascii(s, digits);
    concat(s, "\"")
}

/// Reads integer text held in a string: an optional `-`, then decimal digits.
///
/// Gives the error `Overflow: "<digits>"` when there are more than 19 digits,
/// or 19 digits other than those of `i64::MAX`.
pub fn parse_i64(instring: String) -> (r: Result<i64, String>)
    requires
        is_int_text(crate::bittorrent::bencode::str_bytes(instring)),
    ensures
        ({
            let t = crate::bittorrent::bencode::str_bytes(instring);
            &&& !int_text_overflows(t) ==> r is Ok && r->Ok_0 as int == int_text_value(t)
            &&& int_text_overflows(t) ==> r is Err && r->Err_0@ == overflow_text(t)
        }),
{
    i64_from_ascii(instring.as_str().as_bytes())
}

/// Bencoded strings and the values they stand for: `5:abcde`,
/// a 26-letter string, and a 285-character sentence.
pub fn create_strings() -> (r: (Vec<&'static str>, Vec<BencodeT>))
    ensures
        r.0@.len() == 3,
        r.1@.len() == 3,
        r.0@[0]@ == "5:abcde"@,
        r.0@[1]@ == "26:abcdefghijklmnopQRSTUVWxyz"@,
        r.0@[2]@ == "285:Like vectors, HashMaps are growable, but HashMaps can also shrink themselves when they have excess space. You can create a HashMap with a certain starting capacity using HashMap::with_capacity(uint), or use HashMap::new() to get a HashMap with a default initial capacity (recommended)."@,
        r.1@[0] matches BencodeT::String(s) && s@ == "abcde"@,
        r.1@[1] matches BencodeT::String(s) && s@ == "abcdefghijklmnopQRSTUVWxyz"@,
        r.1@[2] matches BencodeT::String(s) && s@ == "Like vectors, HashMaps are growable, but HashMaps can also shrink themselves when they have excess space. You can create a HashMap with a certain starting capacity using HashMap::with_capacity(uint), or use HashMap::new() to get a HashMap with a default initial capacity (recommended)."@,
{
    let strings = vec!["5:abcde", "26:abcdefghijklmnopQRSTUVWxyz", "285:Like vectors, HashMaps are growable, but HashMaps can also shrink themselves when they have excess space. You can create a HashMap with a certain starting capacity using HashMap::with_capacity(uint), or use HashMap::new() to get a HashMap with a default initial capacity (recommended)."];
    let bstrings = vec![
        BencodeT::String("abcde".to_owned()),
        BencodeT::String("abcdefghijklmnopQRSTUVWxyz".to_owned()),
        BencodeT::String("Like vectors, HashMaps are growable, but HashMaps can also shrink themselves when they have excess space. You can create a HashMap with a certain starting capacity using HashMap::with_capacity(uint), or use HashMap::new() to get a HashMap with a default initial capacity (recommended).".to_owned()),
    ];
    (strings, bstrings)
}

/// Bencoded integers and the values they stand for: the largest `i64`,
/// 3, -3, 0 and the negated largest `i64`.
pub fn create_ints() -> (r: (Vec<&'static str>, Vec<BencodeT>))
    ensures
        r.0@.len() == 5,
        r.1@.len() == 5,
        r.0@[0]@ == "i9223372036854775807e"@,
        r.0@[1]@ == "i3e"@,
        r.0@[2]@ == "i-3e"@,
        r.0@[3]@ == "i0e"@,
        r.0@[4]@ == "i-9223372036854775807e"@,
        r.1@[0] == BencodeT::Integer(9223372036854775807),
        r.1@[1] == BencodeT::Integer(3),
        r.1@[2] == BencodeT::Integer(-3i64),
        r.1@[3] == BencodeT::Integer(0),
        r.1@[4] == BencodeT::Integer(-9223372036854775807i64),
{
    let strings = vec!["i9223372036854775807e", "i3e", "i-3e", "i0e", "i-9223372036854775807e"];
    let bints = vec![
        BencodeT::Integer(9223372036854775807),
        BencodeT::Integer(3),
        BencodeT::Integer(-3),
        BencodeT::Integer(0),
        BencodeT::Integer(-9223372036854775807),
    ];
    (strings, bints)
}

} // verus!
