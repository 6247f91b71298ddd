//! Decoding bencoded bytes.
use vstd::prelude::*;
use vstd::utf8::valid_utf8;
use crate::bittorrent::ParseError;
use crate::bittorrent::bencode::{
    bval, bval_dict, bval_list, dict_insert, insert_entry, lemma_bval_dict_push,
    lemma_bval_list_push, BVal, BencodeT,
};
use crate::bittorrent::text::{
    ascii_chars, bytes_debug, bytes_debug_text, char_debug, char_debug_text, concat,
    decimal_chars, push_decimal,
};
use crate::bittorrent::utils::{
    all_digits, digits_val, i64_from_ascii, int_digits, int_text_overflows, int_text_value,
    is_digit_byte, is_int_text, overflow_text,
};

verus! {

/// Why bencoded bytes could not be decoded.
pub enum DecodeFault {
    /// The data ended where more was expected.
    ExceededBuffer,
    /// An integer had no digits.
    EmptyInteger,
    /// An integer held this byte.
    ExpectedInt(u8),
    /// A dictionary key was not a string.
    NonStringKey,
    /// No value starts with the byte at this position.
    BadFormat(int),
    /// A string length was not followed by `:` at this position.
    BadStringFormat(int),
    /// An integer with these digits does not fit in an `i64`.
    Overflow(Seq<u8>),
}

/// The message of the error for a fault in decoding `b`.
pub open spec fn fault_text(b: Seq<u8>, f: DecodeFault) -> Seq<char> {
    match f {
        DecodeFault::ExceededBuffer => "Incorrect format; exceeded buffer length"@,
        DecodeFault::EmptyInteger => "Empty integer"@,
        DecodeFault::ExpectedInt(c) => "Expected int; found character "@ + char_debug_text(
            c as char,
        ),
        DecodeFault::NonStringKey => "Non-string type as key"@,
        DecodeFault::BadFormat(i) => "Incorrect format at "@ + decimal_chars(i as nat) + " in "@
            + bytes_debug_text(b),
        DecodeFault::BadStringFormat(j) => "Incorrect format while parsing string: at "@
            + decimal_chars(j as nat) + " in "@ + bytes_debug_text(b),
        DecodeFault::Overflow(d) => "Overflow: \""@ + ascii_chars(d) + "\""@,
    }
}

/// Where the integer text that starts at `start` ends (at its `e`), scanning from `j`.
pub open spec fn scan_int(b: Seq<u8>, start: int, j: int) -> Result<int, DecodeFault>
    decreases b.len() - j,
{
    if j < 0 || j >= b.len() {
        Err(DecodeFault::ExceededBuffer)
    } else if b[j] == 101 {
        if j == start {
            Err(DecodeFault::EmptyInteger)
        } else {
            Ok(j)
        }
    } else if (b[j] == 45 && j == start) || is_digit_byte(b[j]) {
        scan_int(b, start, j + 1)
    } else {
        Err(DecodeFault::ExpectedInt(b[j]))
    }
}

/// Decodes the integer whose text starts at `i` (just after the `i`).
pub open spec fn dec_int(b: Seq<u8>, i: int) -> Result<(BVal, int), DecodeFault> {
    match scan_int(b, i, i) {
        Err(f) => Err(f),
        Ok(e) => {
            let t = b.subrange(i, e);
            if int_text_overflows(t) {
                Err(DecodeFault::Overflow(int_digits(t)))
            } else {
                Ok((BVal::Int(int_text_value(t)), e + 1))
            }
        },
    }
}

/// The end of the run of digits that starts at `j`.
pub open spec fn scan_digits(b: Seq<u8>, j: int) -> int
    decreases b.len() - j,
{
    if 0 <= j < b.len() && is_digit_byte(b[j]) {
        scan_digits(b, j + 1)
    } else {
        j
    }
}

/// Decodes the string whose length starts at `i`.
pub open spec fn dec_str(b: Seq<u8>, i: int) -> Result<(BVal, int), DecodeFault> {
    let j = scan_digits(b, i);
    if j >= b.len() {
        Err(DecodeFault::ExceededBuffer)
    } else if b[j] != 58 {
        Err(DecodeFault::BadStringFormat(j))
    } else {
        let l = digits_val(b.subrange(i, j));
        if j + 1 + l > b.len() {
            Err(DecodeFault::ExceededBuffer)
        } else {
            let c = b.subrange(j + 1, j + 1 + l);
            Ok(
                (
                    if valid_utf8(c) {
                        BVal::Str(c)
                    } else {
                        BVal::Bytes(c)
                    },
                    j + 1 + l,
                ),
            )
        }
    }
}

/// Decodes the value that starts at `i`, giving it and the position after it.
pub open spec fn dec_value(b: Seq<u8>, i: int) -> Result<(BVal, int), DecodeFault>
    decreases b.len() - i, 0int,
{
    if i < 0 || i >= b.len() {
        Err(DecodeFault::ExceededBuffer)
    } else if b[i] == 105 {
        dec_int(b, i + 1)
    } else if b[i] == 108 {
        dec_list(b, i + 1, Seq::empty())
    } else if b[i] == 100 {
        dec_dict(b, i + 1, Seq::empty())
    } else if is_digit_byte(b[i]) {
        dec_str(b, i)
    } else {
        Err(DecodeFault::BadFormat(i))
    }
}

/// Decodes list items from `j` up to the closing `e`, after the items `acc`.
pub open spec fn dec_list(b: Seq<u8>, j: int, acc: Seq<BVal>) -> Result<(BVal, int), DecodeFault>
    decreases b.len() - j, 1int,
{
    if j < 0 || j >= b.len() {
        Err(DecodeFault::ExceededBuffer)
    } else if b[j] == 101 {
        Ok((BVal::List(acc), j + 1))
    } else {
        match dec_value(b, j) {
            Err(f) => Err(f),
            Ok((v, k)) => if j < k <= b.len() {
                dec_list(b, k, acc.push(v))
            } else {
                Err(DecodeFault::ExceededBuffer)
            },
        }
    }
}

/// Decodes dictionary entries from `j` up to the closing `e`, into the entries `acc`.
pub open spec fn dec_dict(b: Seq<u8>, j: int, acc: Seq<(Seq<u8>, BVal)>) -> Result<
    (BVal, int),
    DecodeFault,
>
    decreases b.len() - j, 1int,
{
    if j < 0 || j >= b.len() {
        Err(DecodeFault::ExceededBuffer)
    } else if b[j] == 101 {
        Ok((BVal::Dict(acc), j + 1))
    } else {
        match dec_value(b, j) {
            Err(f) => Err(f),
            Ok((kv, k)) => if !(j < k <= b.len()) {
                Err(DecodeFault::ExceededBuffer)
            } else {
                match kv {
                    BVal::Str(key) => match dec_value(b, k) {
                        Err(f) => Err(f),
                        Ok((v, m)) => if k < m <= b.len() {
                            dec_dict(b, m, dict_insert(acc, key, v))
                        } else {
                            Err(DecodeFault::ExceededBuffer)
                        },
                    },
                    _ => Err(DecodeFault::NonStringKey),
                }
            },
        }
    }
}

/// Whether a bencoded value can start with byte `c`: `i`, `l`, `d` or a digit.
pub open spec fn starts_value(c: u8) -> bool {
    c == 105 || c == 108 || c == 100 || is_digit_byte(c)
}

/// The value bencoded at the start of `b` (bytes after it are ignored);
/// binary data (not UTF-8) whose first byte starts no bencoded value is
/// taken whole as a byte string.
pub open spec fn spec_parse(b: Seq<u8>) -> Result<BVal, DecodeFault> {
    if b.len() > 0 && !starts_value(b[0]) && !valid_utf8(b) {
        Ok(BVal::Bytes(b))
    } else {
        match dec_value(b, 0) {
            Ok((v, _)) => Ok(v),
            Err(f) => Err(f),
        }
    }
}

/// Whether an executable decoding result is the decoding `s` of `b`.
pub open spec fn agrees(
    b: Seq<u8>,
    s: Result<(BVal, int), DecodeFault>,
    r: Result<(BencodeT, usize), ParseError>,
) -> bool {
    match s {
        Ok((v, k)) => r is Ok && r->Ok_0.0@ == v && r->Ok_0.1 == k,
        Err(f) => r is Err && r->Err_0 is Parse && r->Err_0.message() == fault_text(b, f),
    }
}

fn exceeded_error() -> (r: ParseError)
    ensures
        r is Parse,
        r.message() == "Incorrect format; exceeded buffer length"@,
{
    ParseError::new_str("Incorrect format; exceeded buffer length")
}

fn position_error(prefix: &str, i: usize, inbytes: &[u8]) -> (r: ParseError)
    ensures
        r is Parse,
        r.message() == prefix@ + decimal_chars(i as nat) + " in "@ + bytes_debug_text(inbytes@),
{
    let s = push_decimal(prefix.to_string(), i as u64);
    let s = concat(s, " in ");
    let d = bytes_debug(inbytes);
    ParseError::Parse(concat(s, d.as_str()))
}

/// Decodes the bencoded value at the start of `inbytes`. Binary data (not
/// UTF-8) that does not start with a bencoded value is taken whole as a
/// byte string; text that does not is refused.
pub fn parse(inbytes: &[u8]) -> (r: Result<BencodeT, ParseError>)
    ensures
        match spec_parse(inbytes@) {
            Ok(v) => r is Ok && r->Ok_0@ == v,
            Err(f) => r is Err && r->Err_0 is Parse && r->Err_0.message() == fault_text(
                inbytes@,
                f,
            ),
        },
{
    if inbytes.len() > 0 {
        let c = inbytes[0];
        if !(c == 105u8 || c == 108u8 || c == 100u8 || is_digit(c)) && string_from_utf8(inbytes).is_none() {
            return Ok(BencodeT::ByteString(vstd::slice::slice_to_vec(inbytes)));
        }
    }
    match _parse(inbytes, 0) {
        Ok((v, _)) => Ok(v),
        Err(e) => Err(e),
    }
}

fn _parse(inbytes: &[u8], i: usize) -> (r: Result<(BencodeT, usize), ParseError>)
    requires
        i <= inbytes@.len(),
    ensures
        agrees(inbytes@, dec_value(inbytes@, i as int), r),
        r is Ok ==> i < r->Ok_0.1 <= inbytes@.len(),
    decreases inbytes@.len() - i, 0int,
{
    if i >= inbytes.len() {
        return Err(exceeded_error());
    }
    let c = inbytes[i];
    if c == 105u8 {
        parse_int(inbytes, i + 1)
    } else if c == 108u8 {
        parse_list(inbytes, i + 1)
    } else if c == 100u8 {
        parse_dic(inbytes, i + 1)
    } else if is_digit(c) {
        parse_str(inbytes, i)
    } else {
        Err(position_error("Incorrect format at ", i, inbytes))
    }
}

/// Decodes the integer whose text starts at `i`, just after its `i`.
fn parse_int(inbytes: &[u8], i: usize) -> (r: Result<(BencodeT, usize), ParseError>)
    requires
        1 <= i <= inbytes@.len(),
    ensures
        agrees(inbytes@, dec_int(inbytes@, i as int), r),
        r is Ok ==> i < r->Ok_0.1 <= inbytes@.len(),
{
    let ghost b = inbytes@;
    let mut j = i;
    loop
        invariant
            i <= j <= inbytes@.len(),
            b == inbytes@,
            scan_int(b, i as int, i as int) == scan_int(b, i as int, j as int),
            forall|k: int|
                i <= k < j ==> (#[trigger] b[k] == 45 && k == i) || is_digit_byte(b[k]),
        decreases inbytes@.len() - j,
    {
        if j >= inbytes.len() {
            return Err(exceeded_error());
        }
        if inbytes[j] == 101u8 {
            if j == i {
                return Err(ParseError::new_str("Empty integer"));
            }
            let text = vstd::slice::slice_subrange(inbytes, i, j);
            proof {
                assert(text@ =~= b.subrange(i as int, j as int));
                assert(all_digits(int_digits(text@))) by {
                    let d = int_digits(text@);
                    assert forall|k: int| 0 <= k < d.len() implies is_digit_byte(#[trigger] d[k]) by {
                        if text@[0] == 45 {
                            assert(d[k] == b[i + k + 1]);
                        } else {
                            assert(d[k] == b[i + k]);
                        }
                    }
                }
            }
            match ascii_utf8_to_i64(text) {
                Ok(v) => {
                    return Ok((BencodeT::Integer(v), j + 1));
                },
                Err(msg) => {
                    return Err(ParseError::Parse(msg));
                },
            }
        }
        let allowed = if inbytes[j] == 45u8 {
            j == i
        } else {
            is_digit(inbytes[j])
        };
        if !allowed {
            let c = char_debug(inbytes[j] as char);
            let msg = concat("Expected int; found character ".to_string(), c.as_str());
            return Err(ParseError::Parse(msg));
        }
        j = j + 1;
    }
}

/// Decodes list items from `i`, just after the `l`, up to the closing `e`.
fn parse_list(inbytes: &[u8], i: usize) -> (r: Result<(BencodeT, usize), ParseError>)
    requires
        1 <= i <= inbytes@.len(),
    ensures
        agrees(inbytes@, dec_list(inbytes@, i as int, Seq::empty()), r),
        r is Ok ==> i < r->Ok_0.1 <= inbytes@.len(),
    decreases inbytes@.len() - i, 1int,
{
    let ghost b = inbytes@;
    let mut j = i;
    let mut vec: Vec<BencodeT> = Vec::new();
    loop
        invariant
            i <= j <= inbytes@.len(),
            b == inbytes@,
            dec_list(b, i as int, Seq::empty()) == dec_list(b, j as int, bval_list(vec@)),
        decreases inbytes@.len() - j,
    {
        if j >= inbytes.len() {
            return Err(exceeded_error());
        }
        if inbytes[j] == 101u8 {
            return Ok((BencodeT::List(vec), j + 1));
        }
        let (bt, newj) = match _parse(inbytes, j) {
            Ok(x) => x,
            Err(e) => {
                return Err(e);
            },
        };
        proof {
            lemma_bval_list_push(vec@, bt);
        }
        vec.push(bt);
        j = newj;
    }
}

/// Decodes dictionary entries from `i`, just after the `d`, up to the closing `e`.
///
/// A key met twice keeps the value given last.
fn parse_dic(inbytes: &[u8], i: usize) -> (r: Result<(BencodeT, usize), ParseError>)
    requires
        1 <= i <= inbytes@.len(),
    ensures
        agrees(inbytes@, dec_dict(inbytes@, i as int, Seq::empty()), r),
        r is Ok ==> i < r->Ok_0.1 <= inbytes@.len(),
    decreases inbytes@.len() - i, 1int,
{
    let ghost b = inbytes@;
    let mut j = i;
    let mut hm: Vec<(String, BencodeT)> = Vec::new();
    loop
        invariant
            i <= j <= inbytes@.len(),
            b == inbytes@,
            dec_dict(b, i as int, Seq::empty()) == dec_dict(b, j as int, bval_dict(hm@)),
        decreases inbytes@.len() - j,
    {
        if j >= inbytes.len() {
            return Err(exceeded_error());
        }
        if inbytes[j] == 101u8 {
            return Ok((BencodeT::Dictionary(hm), j + 1));
        }
        let (b1, j2) = match _parse(inbytes, j) {
            Ok(x) => x,
            Err(e) => {
                return Err(e);
            },
        };
        let key = match b1 {
            BencodeT::String(v) => v,
            _ => {
                return Err(ParseError::new_str("Non-string type as key"));
            },
        };
        let (value, j3) = match _parse(inbytes, j2) {
            Ok(x) => x,
            Err(e) => {
                return Err(e);
            },
        };
        insert_entry(&mut hm, key, value);
        j = j3;
    }
}

/// Whether `d` is an ASCII decimal digit.
pub fn is_digit(d: u8) -> (r: bool)
    ensures
        r == is_digit_byte(d),
{
    48u8 <= d && d <= 57u8
}

/// The number that ASCII decimal digits denote, or `None` when it exceeds `usize::MAX`.
pub fn ascii_utf8_to_usize(buffer: &[u8]) -> (r: Option<usize>)
    requires
        all_digits(buffer@),
    ensures
        r is Some <==> digits_val(buffer@) <= usize::MAX,
        r matches Some(v) ==> v == digits_val(buffer@),
{
    let mut val: usize = 0;
    let mut k: usize = 0;
    while k < buffer.len()
        invariant
            k <= buffer.len(),
            all_digits(buffer@),
            val == digits_val(buffer@.subrange(0, k as int)),
        decreases buffer.len() - k,
    {
        proof {
            assert(buffer@.subrange(0, k + 1).drop_last() =~= buffer@.subrange(0, k as int));
            assert(is_digit_byte(buffer@[k as int]));
        }
        let digit = (buffer[k] - 48u8) as usize;
        let next = match val.checked_mul(10) {
            Some(t) => t.checked_add(digit),
            None => None,
        };
        match next {
            Some(n) => {
                val = n;
            },
            None => {
                proof {
                    lemma_digits_val_prefix(buffer@, k as int + 1);
                }
                return None;
            },
        }
        k = k + 1;
    }
    assert(buffer@.subrange(0, k as int) =~= buffer@);
    Some(val)
}

proof fn lemma_digits_val_prefix(s: Seq<u8>, k: int)
    requires
        0 <= k <= s.len(),
    ensures
        digits_val(s.subrange(0, k)) <= digits_val(s),
    decreases s.len(),
{
    if k < s.len() {
        assert(s.drop_last().subrange(0, k) =~= s.subrange(0, k));
        lemma_digits_val_prefix(s.drop_last(), k);
    } else {
        assert(s.subrange(0, k) =~= s);
    }
}

/// Reads integer text: an optional `-`, then decimal digits.
pub fn ascii_utf8_to_i64(buffer: &[u8]) -> (r: Result<i64, String>)
    requires
        is_int_text(buffer@),
    ensures
        !int_text_overflows(buffer@) ==> r is Ok && r->Ok_0 as int == int_text_value(buffer@),
        int_text_overflows(buffer@) ==> r is Err && r->Err_0@ == overflow_text(buffer@),
{
    i64_from_ascii(buffer)
}

/// The UTF-8 string that `bytes` hold (std's `String::from_utf8`).
#[verifier::external_body]
pub(crate) fn string_from_utf8(bytes: &[u8]) -> (r: Option<String>)
    ensures
        r is Some <==> valid_utf8(bytes@),
        r matches Some(s) ==> s@ == vstd::utf8::decode_utf8(bytes@),
{
    String::from_utf8(bytes.to_vec()).ok()
}

/// A string value when `bytes` are UTF-8, else a byte string.
pub fn utf8_to_string(bytes: &[u8]) -> (r: BencodeT)
    ensures
        r@ == if valid_utf8(bytes@) {
            BVal::Str(bytes@)
        } else {
            BVal::Bytes(bytes@)
        },
{
    match string_from_utf8(bytes) {
        Some(s) => {
            proof {
                vstd::utf8::decode_utf8_encode_utf8(bytes@);
            }
            BencodeT::String(s)
        },
        None => BencodeT::ByteString(vstd::slice::slice_to_vec(bytes)),
    }
}

/// Decodes the string whose length starts at `i`.
fn parse_str(inbytes: &[u8], i: usize) -> (r: Result<(BencodeT, usize), ParseError>)
    requires
        i < inbytes@.len(),
        is_digit_byte(inbytes@[i as int]),
    ensures
        agrees(inbytes@, dec_str(inbytes@, i as int), r),
        r is Ok ==> i < r->Ok_0.1 <= inbytes@.len(),
{
    let ghost b = inbytes@;
    let mut j = i;
    while j < inbytes.len() && is_digit(inbytes[j])
        invariant
            i <= j <= inbytes@.len(),
            b == inbytes@,
            scan_digits(b, i as int) == scan_digits(b, j as int),
            forall|k: int| i <= k < j ==> is_digit_byte(#[trigger] b[k]),
        decreases inbytes@.len() - j,
    {
        j = j + 1;
    }
    if j >= inbytes.len() {
        return Err(exceeded_error());
    }
    if inbytes[j] != 58u8 {
        return Err(position_error("Incorrect format while parsing string: at ", j, inbytes));
    }
    let digits = vstd::slice::slice_subrange(inbytes, i, j);
    assert(all_digits(digits@)) by {
        assert forall|k: int| 0 <= k < digits@.len() implies is_digit_byte(#[trigger] digits@[k]) by {
            assert(digits@[k] == b[i + k]);
        }
    }
    assert(digits@ =~= b.subrange(i as int, j as int));
    let l = match ascii_utf8_to_usize(digits) {
        Some(l) => l,
        None => {
            return Err(exceeded_error());
        },
    };
    let start = j + 1;
    if l > inbytes.len() - start {
        return Err(exceeded_error());
    }
    let content = vstd::slice::slice_subrange(inbytes, start, start + l);
    let bencoded = utf8_to_string(content);
    Ok((bencoded, start + l))
}

} // verus!
