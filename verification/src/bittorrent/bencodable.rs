//! Conversions between decoded bencoded values and Rust values.
use vstd::prelude::*;
use crate::bittorrent::ParseError;
use crate::bittorrent::bencode::{bval, bval_dict, bval_list, str_bytes, BVal, BencodeT};

verus! {

/// A type whose values convert to and from decoded bencoded values.
pub trait Bencodable: Sized {
    /// Whether the model `b` converts to some value.
    spec fn decodes(b: BVal) -> bool;

    /// Whether the model `b` converts to `x`.
    spec fn decodes_to(b: BVal, x: Self) -> bool;

    /// The model of the value `x` converts to.
    spec fn spec_to(x: Self) -> BVal;

    /// Converts `self` to a decoded bencoded value.
    fn to_bencode_t(self) -> (r: BencodeT)
        ensures
            r@ == Self::spec_to(self),
    ;

    /// Converts a decoded bencoded value to `Self`.
    fn from_bencode_t(bencode_t: &BencodeT) -> (r: Result<Self, ParseError>)
        ensures
            r is Ok <==> Self::decodes(bencode_t@),
            r matches Ok(x) ==> Self::decodes_to(bencode_t@, x),
    ;
}

impl Bencodable for String {
    open spec fn decodes(b: BVal) -> bool {
        b is Str
    }

    open spec fn decodes_to(b: BVal, x: String) -> bool {
        b == BVal::Str(str_bytes(x))
    }

    open spec fn spec_to(x: String) -> BVal {
        BVal::Str(str_bytes(x))
    }

    fn to_bencode_t(self) -> (r: BencodeT) {
        BencodeT::String(self)
    }

    fn from_bencode_t(bencode_t: &BencodeT) -> (r: Result<String, ParseError>) {
        match bencode_t {
            BencodeT::String(string) => Ok(string.clone()),
            BencodeT::Integer(_) => Err(
                ParseError::new_str("Attempted to convert int BencodeT to string"),
            ),
            BencodeT::Dictionary(_) => Err(
                ParseError::new_str("Attempted to convert dict BencodeT to string"),
            ),
            BencodeT::List(_) => Err(
                ParseError::new_str("Attempted to convert list BencodeT to string"),
            ),
            _ => Err(ParseError::new_str("Attempted to convert non-string BencodeT to string")),
        }
    }
}

impl Bencodable for crate::bittorrent::hash::Hash {
    open spec fn decodes(b: BVal) -> bool {
        b matches BVal::Bytes(v) && v.len() == 20
    }

    open spec fn decodes_to(b: BVal, x: crate::bittorrent::hash::Hash) -> bool {
        b == BVal::Bytes(x@)
    }

    open spec fn spec_to(x: crate::bittorrent::hash::Hash) -> BVal {
        BVal::Bytes(x@)
    }

    fn to_bencode_t(self) -> (r: BencodeT) {
        let mut v: Vec<u8> = Vec::new();
        let mut k: usize = 0;
        while k < 20
            invariant
                k <= 20,
                self.0@.len() == 20,
                v@ == self.0@.subrange(0, k as int),
            decreases 20 - k,
        {
            v.push(self.0[k]);
            k = k + 1;
            assert(v@ =~= self.0@.subrange(0, k as int));
        }
        assert(self.0@.subrange(0, 20) =~= self.0@);
        BencodeT::ByteString(v)
    }

    /// A byte string of exactly 20 bytes converts; any other value is an error.
    fn from_bencode_t(bencode_t: &BencodeT) -> (r: Result<crate::bittorrent::hash::Hash, ParseError>) {
        match bencode_t {
            BencodeT::ByteString(vec) => {
                if vec.len() != 20 {
                    return Err(
                        ParseError::new_str("Attempted to convert BencodeT of wrong length to Hash"),
                    );
                }
                let mut arr: [u8; 20] = [0u8; 20];
                let mut k: usize = 0;
                while k < 20
                    invariant
                        k <= 20,
                        vec@.len() == 20,
                        forall|q: int| 0 <= q < k ==> arr@[q] == vec@[q],
                    decreases 20 - k,
                {
                    arr[k] = vec[k];
                    k = k + 1;
                }
                assert(arr@ =~= vec@);
                Ok(crate::bittorrent::hash::Hash(arr))
            },
            _ => Err(ParseError::new_str("Attempted to convert non-binary BencodeT to Hash")),
        }
    }
}

impl Bencodable for Vec<(String, BencodeT)> {
    open spec fn decodes(b: BVal) -> bool {
        b is Dict
    }

    open spec fn decodes_to(b: BVal, x: Vec<(String, BencodeT)>) -> bool {
        b == BVal::Dict(bval_dict(x@))
    }

    open spec fn spec_to(x: Vec<(String, BencodeT)>) -> BVal {
        BVal::Dict(bval_dict(x@))
    }

    fn to_bencode_t(self) -> (r: BencodeT) {
        BencodeT::Dictionary(self)
    }

    fn from_bencode_t(bencode_t: &BencodeT) -> (r: Result<Vec<(String, BencodeT)>, ParseError>) {
        match bencode_t {
            BencodeT::Dictionary(_) => match bencode_t.deep_clone() {
                BencodeT::Dictionary(hm) => Ok(hm),
                _ => Err(ParseError::new_str("Attempted to convert non-dictionary BencodeT to hashmap")),
            },
            _ => Err(ParseError::new_str("Attempted to convert non-dictionary BencodeT to hashmap")),
        }
    }
}

impl Bencodable for Vec<u8> {
    open spec fn decodes(b: BVal) -> bool {
        b is Bytes
    }

    open spec fn decodes_to(b: BVal, x: Vec<u8>) -> bool {
        b == BVal::Bytes(x@)
    }

    open spec fn spec_to(x: Vec<u8>) -> BVal {
        BVal::Bytes(x@)
    }

    fn to_bencode_t(self) -> (r: BencodeT) {
        BencodeT::ByteString(self)
    }

    fn from_bencode_t(bencode_t: &BencodeT) -> (r: Result<Vec<u8>, ParseError>) {
        match bencode_t {
            BencodeT::ByteString(list) => Ok(list.clone()),
            _ => Err(ParseError::new_str("Attempted to convert non-list BencodeT to vector")),
        }
    }
}

impl Bencodable for Vec<BencodeT> {
    open spec fn decodes(b: BVal) -> bool {
        b is List
    }

    open spec fn decodes_to(b: BVal, x: Vec<BencodeT>) -> bool {
        b == BVal::List(bval_list(x@))
    }

    open spec fn spec_to(x: Vec<BencodeT>) -> BVal {
        BVal::List(bval_list(x@))
    }

    fn to_bencode_t(self) -> (r: BencodeT) {
        BencodeT::List(self)
    }

    fn from_bencode_t(bencode_t: &BencodeT) -> (r: Result<Vec<BencodeT>, ParseError>) {
        match bencode_t {
            BencodeT::List(_) => match bencode_t.deep_clone() {
                BencodeT::List(list) => Ok(list),
                _ => Err(ParseError::new_str("Attempted to convert non-list BencodeT to vector")),
            },
            _ => Err(ParseError::new_str("Attempted to convert non-list BencodeT to vector")),
        }
    }
}

impl Bencodable for i64 {
    open spec fn decodes(b: BVal) -> bool {
        b is Int
    }

    open spec fn decodes_to(b: BVal, x: i64) -> bool {
        b == BVal::Int(x as int)
    }

    open spec fn spec_to(x: i64) -> BVal {
        BVal::Int(x as int)
    }

    fn to_bencode_t(self) -> (r: BencodeT) {
        BencodeT::Integer(self)
    }

    fn from_bencode_t(bencode_t: &BencodeT) -> (r: Result<i64, ParseError>) {
        match bencode_t {
            BencodeT::Integer(i) => Ok(*i),
            _ => Err(ParseError::new_str("Attempted to convert non-integer BencodeT to integer")),
        }
    }
}

impl Bencodable for usize {
    open spec fn decodes(b: BVal) -> bool {
        b matches BVal::Int(i) && 0 <= i
    }

    open spec fn decodes_to(b: BVal, x: usize) -> bool {
        b matches BVal::Int(i) && 0 <= i && x == i as usize
    }

    /// The integer `x as i64`, which wraps above `i64::MAX`.
    open spec fn spec_to(x: usize) -> BVal {
        BVal::Int((x as i64) as int)
    }

    fn to_bencode_t(self) -> (r: BencodeT) {
        BencodeT::Integer(#[verifier::truncate] (self as i64))
    }

    fn from_bencode_t(bencode_t: &BencodeT) -> (r: Result<usize, ParseError>) {
        match bencode_t {
            BencodeT::Integer(i) => {
                if *i < 0 {
                    Err(
                        ParseError::new_str(
                            "Attempted to convert negative BencodeT::Integer to usize",
                        ),
                    )
                } else {
                    Ok(#[verifier::truncate] (*i as usize))
                }
            },
            _ => Err(ParseError::new_str("Attempted to convert non-integer BencodeT to integer")),
        }
    }
}

impl Bencodable for u32 {
    /// Values above 29 are refused (the bound is written `2 ^ 32 - 1`,
    /// which is 29).
    open spec fn decodes(b: BVal) -> bool {
        b matches BVal::Int(i) && 0 <= i <= 29
    }

    open spec fn decodes_to(b: BVal, x: u32) -> bool {
        b == BVal::Int(x as int)
    }

    open spec fn spec_to(x: u32) -> BVal {
        BVal::Int(x as int)
    }

    fn to_bencode_t(self) -> (r: BencodeT) {
        BencodeT::Integer(self as i64)
    }

    fn from_bencode_t(bencode_t: &BencodeT) -> (r: Result<u32, ParseError>) {
        match bencode_t {
            BencodeT::Integer(i) => {
                let bound: i64 = 2 ^ 32 - 1;
                assert(bound == 29) by (bit_vector)
                    requires
                        bound == 2i64 ^ 31i64,
                ;
                if *i < 0 {
                    Err(ParseError::new_str("Attempted to convert negative BencodeT::Integer to u32"))
                } else if *i > bound {
                    Err(ParseError::new_str("BencodeT::Integer is too large to convert to u32"))
                } else {
                    Ok(*i as u32)
                }
            },
            _ => Err(ParseError::new_str("Attempted to convert non-integer BencodeT to integer")),
        }
    }
}

impl Bencodable for bool {
    open spec fn decodes(b: BVal) -> bool {
        b == BVal::Int(0) || b == BVal::Int(1)
    }

    open spec fn decodes_to(b: BVal, x: bool) -> bool {
        b == BVal::Int(if x {
            1
        } else {
            0
        })
    }

    open spec fn spec_to(x: bool) -> BVal {
        BVal::Int(if x {
            1
        } else {
            0
        })
    }

    fn to_bencode_t(self) -> (r: BencodeT) {
        BencodeT::Integer(if self {
            1
        } else {
            0
        })
    }

    fn from_bencode_t(bencode_t: &BencodeT) -> (r: Result<bool, ParseError>) {
        match bencode_t {
            BencodeT::Integer(i) => {
                if *i == 0 {
                    Ok(false)
                } else if *i == 1 {
                    Ok(true)
                } else {
                    Err(ParseError::new_str("Can't interpret BencodeT::Integer as bool"))
                }
            },
            _ => Err(ParseError::new_str("Attempted to convert non-integer BencodeT to bool")),
        }
    }
}

} // verus!
