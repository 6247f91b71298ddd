use bittorrent::bittorrent::bedecoder::{ascii_utf8_to_i64, ascii_utf8_to_usize, is_digit, parse, utf8_to_string};
use bittorrent::bittorrent::bencode::{dict_get, insert_entry, BencodeT};
use bittorrent::bittorrent::bencoder::{encode, encode_bstring, encode_dic, encode_int, encode_list, encode_string};
use bittorrent::bittorrent::utils::{create_ints, create_strings, parse_i64};
use std::collections::hash_map::DefaultHasher;
use std::hash::{Hash, Hasher};

fn clone_all(v: &Vec<BencodeT>) -> Vec<BencodeT> {
    v.iter().map(|b| b.deep_clone()).collect()
}

#[test]
fn bencoder_strings() {
    let (strings, bstrings) = create_strings();
    for (bstring, string) in bstrings.iter().zip(strings) {
        assert_eq!(string.as_bytes(), encode(bstring).as_slice());
    }
}

#[test]
fn ints() {
    let (strings, ints) = create_ints();
    for (int, string) in ints.iter().zip(strings) {
        assert_eq!(string.as_bytes(), encode(int).as_slice());
    }
}

#[test]
fn bencoder_lists() {
    let (_sstrings, sbencoded) = create_strings();
    let (_istrings, _ibencoded) = create_ints();
    let list = BencodeT::List(clone_all(&sbencoded));
    assert_eq!(encode_list(&sbencoded), encode(&list).as_slice());

    let string = "li1ei2ei3ee";
    let list = BencodeT::List(vec![1, 2, 3].into_iter().map(|i| BencodeT::Integer(i)).collect());
    assert_eq!(string.as_bytes(), encode(&list).as_slice());
}

#[test]
fn dics() {
    let (_sstrings, sbencoded) = create_strings();
    let (_istrings, _ibencoded) = create_ints();
    let mut hm = Vec::new();
    for (i, sb) in sbencoded.iter().enumerate() {
        insert_entry(&mut hm, i.to_string(), sb.deep_clone());
    }
    let bhm = BencodeT::Dictionary(hm.iter().map(|(k, v)| (k.clone(), v.deep_clone())).collect());
    assert_eq!(encode_dic(&hm), encode(&bhm).as_slice());

    let string = "d1:gd1:ei8e1:fi9eee";
    let mut dic1 = Vec::new();
    insert_entry(&mut dic1, String::from("e"), BencodeT::Integer(8));
    insert_entry(&mut dic1, String::from("f"), BencodeT::Integer(9));
    let mut dic2 = Vec::new();
    insert_entry(&mut dic2, String::from("g"), BencodeT::Dictionary(dic1));
    assert_eq!(string.as_bytes(), encode(&BencodeT::Dictionary(dic2)).as_slice());
}

#[test]
fn bedecoder_strings() {
    assert_eq!(parse("5:abcde".as_bytes()).unwrap(), BencodeT::String("abcde".to_string()));
    assert_eq!(
        parse("26:abcdefghijklmnopQRSTUVWxyz".as_bytes()).unwrap(),
        BencodeT::String("abcdefghijklmnopQRSTUVWxyz".to_string())
    );
}

#[test]
fn bstrings() {
    let mut vec = Vec::new();
    for i in 0..255 {
        vec.push(i as u8);
    }
    match parse(&vec).unwrap() {
        BencodeT::ByteString(ref _v) => (),
        _ => assert!(false),
    }
}

#[test]
fn digits_basic() {
    assert_eq!(parse("i3e".as_bytes()).unwrap(), BencodeT::Integer(3));
    assert_eq!(parse("i-3e".as_bytes()).unwrap(), BencodeT::Integer(-3));
}

#[test]
fn digits_errors() {
    assert_eq!(
        parse("i333333".as_bytes()).unwrap_err().description(),
        "Incorrect format; exceeded buffer length"
    );
    assert_eq!(
        parse("i3-3e".as_bytes()).unwrap_err().description(),
        format!("Expected int; found character {:?}", '-')
    );
    assert_eq!(
        parse("i7373777788888989898989899898ae".as_bytes()).unwrap_err().description(),
        format!("Expected int; found character {:?}", 'a')
    );
}

#[test]
fn digits_maxi64() {
    assert_eq!(parse("i9223372036854775807e".as_bytes()).unwrap(), BencodeT::Integer(9223372036854775807));
}

#[test]
fn digits_maxi32() {
    assert_eq!(parse("i2147483649e".as_bytes()).unwrap(), BencodeT::Integer(2147483649));
    assert_eq!(parse("i2147483647e".as_bytes()).unwrap(), BencodeT::Integer(2147483647));
}

#[test]
fn list_errors() {
    assert_eq!(
        parse("li3e".as_bytes()).unwrap_err().description(),
        "Incorrect format; exceeded buffer length"
    );
}

#[test]
fn bedecoder_lists() {
    let l1 = BencodeT::List(Vec::new());
    assert_eq!(parse("le".as_bytes()).unwrap(), l1);

    let bi = BencodeT::Integer(1234);
    let l2 = BencodeT::List(vec![bi]);
    assert_eq!(parse("li1234ee".as_bytes()).unwrap(), l2);

    let mut v = Vec::new();
    let mut s = String::from("l");
    for i in 1..100 {
        let bi = BencodeT::Integer(i);
        s.push('i');
        s.push_str(i.to_string().as_str());
        s.push('e');
        v.push(bi);
    }
    s.push('e');
    let l3 = BencodeT::List(v);
    assert_eq!(parse(s.as_bytes()).unwrap(), l3);
}

fn calculate_hash<T: Hash>(t: &T) -> String {
    let mut s = DefaultHasher::new();
    t.hash(&mut s);
    s.finish().to_string()
}

fn create_dictionary(keys: Vec<&'static str>, values: Vec<BencodeT>) -> (String, BencodeT) {
    let mut hm = Vec::new();
    let mut dictstring = String::from("d");
    for (key, value) in keys.iter().zip(values.iter()) {
        let hash = encode(&BencodeT::String(calculate_hash(&key)));
        dictstring.push_str(&String::from_utf8(hash).unwrap());
        dictstring.push_str(key);
        insert_entry(&mut hm, calculate_hash(&key), value.deep_clone());
    }
    dictstring.push('e');
    (dictstring, BencodeT::Dictionary(hm))
}

#[test]
fn dictionaries() {
    let (strings, bstrings) = create_strings();
    let (dictstring, bdict) = create_dictionary(strings, bstrings);
    assert_eq!(parse(dictstring.as_bytes()).unwrap(), bdict);
}

// The bencoding of a decoded value gives the value back.
#[test]
fn decode_of_encode_is_identity() {
    let (_, bstrings) = create_strings();
    let (_, bints) = create_ints();
    let mut d = Vec::new();
    insert_entry(&mut d, "zeta".to_string(), BencodeT::List(clone_all(&bints)));
    insert_entry(&mut d, "alpha".to_string(), BencodeT::List(clone_all(&bstrings)));
    insert_entry(&mut d, "bytes".to_string(), BencodeT::ByteString(vec![0xff, 0x00, 0x80]));
    let v = BencodeT::Dictionary(d);
    assert_eq!(parse(&encode(&v)).unwrap(), v);
}

#[test]
fn dictionary_keys_are_sorted_and_unique() {
    let mut d = Vec::new();
    insert_entry(&mut d, "b".to_string(), BencodeT::Integer(1));
    insert_entry(&mut d, "a".to_string(), BencodeT::Integer(2));
    insert_entry(&mut d, "b".to_string(), BencodeT::Integer(3));
    assert_eq!(encode(&BencodeT::Dictionary(d)), "d1:ai2e1:bi3ee".as_bytes());
}

#[test]
fn dict_lookup() {
    let mut d = Vec::new();
    insert_entry(&mut d, "k".to_string(), BencodeT::Integer(7));
    assert_eq!(dict_get(&d, "k"), Some(&BencodeT::Integer(7)));
    assert_eq!(dict_get(&d, "x"), None);
}

#[test]
fn encode_pieces() {
    assert_eq!(encode_string("spam"), b"4:spam".to_vec());
    assert_eq!(encode_int(-42), b"i-42e".to_vec());
    assert_eq!(encode_int(0), b"i0e".to_vec());
    assert_eq!(encode_bstring(&[1, 2]), vec![b'2', b':', 1, 2]);
}

#[test]
fn decode_errors() {
    assert_eq!(parse("ie".as_bytes()).unwrap_err().description(), "Empty integer");
    assert_eq!(parse("di1ei2ee".as_bytes()).unwrap_err().description(), "Non-string type as key");
    assert_eq!(
        parse("lxe".as_bytes()).unwrap_err().description(),
        format!("Incorrect format at {:?} in {:?}", 1, "lxe".as_bytes())
    );
    assert_eq!(
        parse("3x".as_bytes()).unwrap_err().description(),
        format!("Incorrect format while parsing string: at {:?} in {:?}", 1, "3x".as_bytes())
    );
    assert_eq!(
        parse("i9223372036854775808e".as_bytes()).unwrap_err().description(),
        "Overflow: \"9223372036854775808\""
    );
}

#[test]
fn digit_helpers() {
    assert!(is_digit(b'0'));
    assert!(is_digit(b'9'));
    assert!(!is_digit(b'a'));
    assert_eq!(ascii_utf8_to_usize(b"1234"), Some(1234));
    assert_eq!(ascii_utf8_to_i64(b"-77"), Ok(-77));
    assert_eq!(utf8_to_string(b"ok"), BencodeT::String("ok".to_string()));
    assert_eq!(utf8_to_string(&[0xff]), BencodeT::ByteString(vec![0xff]));
    assert_eq!(parse_i64("-9223372036854775807".to_string()).unwrap(), -9223372036854775807);
    assert_eq!(parse_i64("99999999999999999999".to_string()).unwrap_err(), "Overflow: \"99999999999999999999\"");
}

#[test]
fn raw_binary_data_is_taken_as_bytes() {
    assert_eq!(
        parse("x".as_bytes()).unwrap_err().description(),
        format!("Incorrect format at {:?} in {:?}", 0, "x".as_bytes())
    );
    assert!(parse("xyz".as_bytes()).is_err());
    assert_eq!(parse(&[0xffu8, 0x01]).unwrap(), BencodeT::ByteString(vec![0xff, 0x01]));
    assert!(parse(&[]).is_err());
}

#[test]
fn dictionaries_encode_in_key_order() {
    let d = vec![
        ("b".to_string(), BencodeT::Integer(1)),
        ("a".to_string(), BencodeT::Integer(2)),
        ("b".to_string(), BencodeT::Integer(3)),
    ];
    let v = BencodeT::Dictionary(d);
    assert_eq!(encode(&v), "d1:ai2e1:bi3ee".as_bytes());
    let same = BencodeT::Dictionary(vec![
        ("a".to_string(), BencodeT::Integer(2)),
        ("b".to_string(), BencodeT::Integer(3)),
    ]);
    assert_eq!(encode(&v), encode(&same));
    assert_eq!(parse(&encode(&v)).unwrap(), same);
    let nested = BencodeT::List(vec![BencodeT::Dictionary(vec![
        ("z".to_string(), BencodeT::Integer(0)),
        ("y".to_string(), BencodeT::Integer(1)),
    ])]);
    assert_eq!(encode(&nested), "ld1:yi1e1:zi0eee".as_bytes());
}

#[test]
fn byte_debug_text() {
    use_bytes_debug(&[], "[]");
    use_bytes_debug(&[7], "[7]");
    use_bytes_debug(&[0, 12, 255], "[0, 12, 255]");
}

fn use_bytes_debug(b: &[u8], want: &str) {
    assert_eq!(bittorrent::bittorrent::text::bytes_debug(b), want);
    assert_eq!(bittorrent::bittorrent::text::bytes_debug(b), format!("{:?}", b));
}

#[test]
fn nineteen_digit_values_other_than_the_largest_are_refused() {
    assert_eq!(parse_i64("1000000000000000000".to_string()).unwrap_err(), "Overflow: \"1000000000000000000\"");
    assert_eq!(parse_i64("999999999999999999".to_string()).unwrap(), 999999999999999999);
    assert_eq!(parse_i64("9223372036854775807".to_string()).unwrap(), i64::MAX);
}

#[test]
fn debug_text_of_values() {
    let v = BencodeT::Dictionary(vec![
        ("a\"b".to_string(), BencodeT::List(vec![BencodeT::Integer(-3), BencodeT::ByteString(vec![0, 255])])),
        ("k".to_string(), BencodeT::Dictionary(vec![])),
        ("é\n".to_string(), BencodeT::String("x\ty".to_string())),
    ]);
    assert_eq!(bittorrent::bittorrent::text::bencode_debug(&v), format!("{:?}", v));
    let l = BencodeT::List(vec![]);
    assert_eq!(bittorrent::bittorrent::text::bencode_debug(&l), format!("{:?}", l));
    assert_eq!(bittorrent::bittorrent::text::int_text(i64::MIN + 1), (i64::MIN + 1).to_string());
}
