use bittorrent::bencode::{str_part, Bencode, Deserializer, Serializer};
use bittorrent::error::BitTorrentError;

#[test]
fn bencode_it_encodes_positive_int() {
    let input = b"i3e";
    let val = Bencode::parse(input).unwrap();
    assert_eq!(val, Bencode::Int(3));

    let input = b"i12e";
    let val = Bencode::parse(input).unwrap();
    assert_eq!(val, Bencode::Int(12));

    let input = b"i0e";
    let val = Bencode::parse(input).unwrap();
    assert_eq!(val, Bencode::Int(0));

    let input = b"i00e";
    let err = Bencode::parse(input);
    assert!(err.is_err());
}

#[test]
fn bencode_it_encodes_negative_int() {
    let input = b"i-3e";
    let val = Bencode::parse(input).unwrap();
    assert_eq!(val, Bencode::Int(-3));

    let input = b"i-12e";
    let val = Bencode::parse(input).unwrap();
    assert_eq!(val, Bencode::Int(-12));

    let input = b"i-0e";
    let err = Bencode::parse(input);
    assert!(err.is_err());
}

#[test]
fn bencode_it_encodes_string() {
    let input = b"5:hello";
    let val = Bencode::parse(input).unwrap();
    assert_eq!(val, Bencode::Str(b"hello".to_vec()));

    let input = b"0:";
    let val = Bencode::parse(input).unwrap();
    assert_eq!(val, Bencode::Str(b"".to_vec()));
}

#[test]
fn bencode_it_encodes_list() {
    let input = b"l4:spam4:eggse";
    let val = Bencode::parse(input).unwrap();
    assert_eq!(
        val,
        Bencode::List(vec![
            Bencode::Str(b"spam".to_vec()),
            Bencode::Str(b"eggs".to_vec()),
        ])
    );

    let input = b"l5:helloi52ee";
    let val = Bencode::parse(input).unwrap();
    assert_eq!(
        val,
        Bencode::List(vec![Bencode::Str(b"hello".to_vec()), Bencode::Int(52)])
    );

    let input = b"le";
    let val = Bencode::parse(input).unwrap();
    assert_eq!(val, Bencode::List(vec![]));
}

#[test]
fn bencode_it_encodes_dict() {
    let input = b"d3:foo3:bar3:bazi42ee";
    let val = Bencode::parse(input).unwrap();
    assert_eq!(
        val,
        Bencode::Dict(vec![
            (b"foo".to_vec(), Bencode::Str(b"bar".to_vec())),
            (b"baz".to_vec(), Bencode::Int(42)),
        ])
    );

    let input = b"de";
    let val = Bencode::parse(input).unwrap();
    assert_eq!(val, Bencode::Dict(vec![]));
}

#[test]
fn bencode_it_displays_bencode() {
    let bencode_int = Bencode::Int(42);
    assert_eq!(bencode_int.render(), "42");

    let bencode_str = Bencode::Str(b"hello".to_vec());
    assert_eq!(bencode_str.render(), "\"hello\"");

    let bencode_list = Bencode::List(vec![Bencode::Int(1), Bencode::Str(b"two".to_vec())]);
    assert_eq!(bencode_list.render(), "[1,\"two\"]");

    let bencode_dict = Bencode::Dict(vec![
        (b"foo".to_vec(), Bencode::Str(b"bar".to_vec())),
        (b"baz".to_vec(), Bencode::Int(123)),
    ]);
    assert_eq!(bencode_dict.render(), "{\"foo\":\"bar\",\"baz\":123}");
}

#[test]
fn mod_it_encodes_positive_int() {
    let input = b"i3e";
    let val = Bencode::parse(input).unwrap();
    assert_eq!(val, Bencode::Int(3));

    let input = b"i12e";
    let val = Bencode::parse(input).unwrap();
    assert_eq!(val, Bencode::Int(12));

    let input = b"i0e";
    let val = Bencode::parse(input).unwrap();
    assert_eq!(val, Bencode::Int(0));

    let input = b"i00e";
    let err = Bencode::parse(input);
    assert!(err.is_err());
}

#[test]
fn mod_it_encodes_negative_int() {
    let input = b"i-3e";
    let val = Bencode::parse(input).unwrap();
    assert_eq!(val, Bencode::Int(-3));

    let input = b"i-12e";
    let val = Bencode::parse(input).unwrap();
    assert_eq!(val, Bencode::Int(-12));

    let input = b"i-0e";
    let err = Bencode::parse(input);
    assert!(err.is_err());
}

#[test]
fn mod_it_encodes_string() {
    let input = b"5:hello";
    let val = Bencode::parse(input).unwrap();
    assert_eq!(val, Bencode::Str(b"hello".to_vec()));

    let input = b"0:";
    let val = Bencode::parse(input).unwrap();
    assert_eq!(val, Bencode::Str(b"".to_vec()));
}

#[test]
fn mod_it_encodes_list() {
    let input = b"l4:spam4:eggse";
    let val = Bencode::parse(input).unwrap();
    assert_eq!(
        val,
        Bencode::List(vec![
            Bencode::Str(b"spam".to_vec()),
            Bencode::Str(b"eggs".to_vec()),
        ])
    );

    let input = b"l5:helloi52ee";
    let val = Bencode::parse(input).unwrap();
    assert_eq!(
        val,
        Bencode::List(vec![Bencode::Str(b"hello".to_vec()), Bencode::Int(52)])
    );

    let input = b"le";
    let val = Bencode::parse(input).unwrap();
    assert_eq!(val, Bencode::List(vec![]));
}

#[test]
fn mod_it_encodes_dict() {
    let input = b"d3:foo3:bar3:bazi42ee";
    let val = Bencode::parse(input).unwrap();
    assert_eq!(
        val,
        Bencode::Dict(vec![
            (b"foo".to_vec(), Bencode::Str(b"bar".to_vec())),
            (b"baz".to_vec(), Bencode::Int(42)),
        ])
    );

    let input = b"de";
    let val = Bencode::parse(input).unwrap();
    assert_eq!(val, Bencode::Dict(vec![]));
}

#[test]
fn mod_it_displays_bencode() {
    let bencode_int = Bencode::Int(42);
    assert_eq!(bencode_int.render(), "42");

    let bencode_str = Bencode::Str(b"hello".to_vec());
    assert_eq!(bencode_str.render(), "\"hello\"");

    let bencode_list = Bencode::List(vec![Bencode::Int(1), Bencode::Str(b"two".to_vec())]);
    assert_eq!(bencode_list.render(), "[1,\"two\"]");

    let bencode_dict = Bencode::Dict(vec![
        (b"baz".to_vec(), Bencode::Int(123)),
        (b"foo".to_vec(), Bencode::Str(b"bar".to_vec())),
    ]);
    assert_eq!(bencode_dict.render(), "{\"baz\":123,\"foo\":\"bar\"}");
}

#[test]
fn test_peek() {
    let data = b"hello";
    let mut deserializer = Deserializer::new(&data[..]);
    let byte = deserializer.peek().unwrap();
    assert_eq!(byte, b'h');

    let byte = deserializer.peek().unwrap();
    assert_eq!(byte, b'h');

    let bytes = deserializer.read_exact(5).unwrap();
    assert_eq!(bytes, b"hello");

    let byte = deserializer.peek();
    assert!(byte.is_err());

    let bytes = deserializer.read_exact(1);
    assert!(bytes.is_err());
}

#[test]
fn test_str_part() {
    let s = b"4:spam";
    assert_eq!(str_part(s), b"spam");
}

#[test]
fn test_serialize_str() {
    let mut serializer = Serializer::new();
    let val = Bencode::Str(b"spam".to_vec());
    serializer.write_value(&val);
    assert_eq!(serializer.into_bytes(), b"4:spam");
}

#[test]
fn test_serialize_int() {
    let mut serializer = Serializer::new();
    let val = Bencode::Int(-42);
    serializer.write_value(&val);
    assert_eq!(serializer.into_bytes(), b"i-42e");
}

#[test]
fn test_serialize_list() {
    let mut serializer = Serializer::new();
    let val = Bencode::List(vec![Bencode::Int(1), Bencode::Str(b"spam".to_vec())]);
    serializer.write_value(&val);
    assert_eq!(serializer.into_bytes(), b"li1e4:spame");

    let mut serializer = Serializer::new();
    let val = Bencode::List(vec![Bencode::Int(1), Bencode::Int(2), Bencode::Int(3)]);
    serializer.write_value(&val);
    assert_eq!(serializer.into_bytes(), b"li1ei2ei3ee");
}

#[test]
fn test_serialize_dict() {
    let mut serializer = Serializer::new();
    let val = Bencode::Dict(vec![
        (b"age".to_vec(), Bencode::Int(30)),
        (b"name".to_vec(), Bencode::Str(b"Alice".to_vec())),
    ]);
    serializer.write_value(&val);
    assert_eq!(serializer.into_bytes(), b"d3:agei30e4:name5:Alicee");
}

#[test]
fn test_deserialize_integer() {
    assert_eq!(Bencode::parse(b"i123e").unwrap(), Bencode::Int(123));
    assert_eq!(Bencode::parse(b"i-456e").unwrap(), Bencode::Int(-456));
    assert_eq!(Bencode::parse(b"i0e").unwrap(), Bencode::Int(0));
    assert!(Bencode::parse(b"i007e").is_err());
    assert!(Bencode::parse(b"i-0e").is_err());
}

#[test]
fn test_deserialize_string() {
    assert_eq!(
        Bencode::parse(b"5:hello").unwrap(),
        Bencode::Str(b"hello".to_vec())
    );
    assert_eq!(Bencode::parse(b"0:").unwrap(), Bencode::Str(b"".to_vec()));
}

#[test]
fn test_deserialize_list() {
    let val = Bencode::parse(b"l5:helloi123ee").unwrap();
    assert_eq!(
        val,
        Bencode::List(vec![Bencode::Str(b"hello".to_vec()), Bencode::Int(123)])
    );

    let val = Bencode::parse(b"le").unwrap();
    assert_eq!(val, Bencode::List(vec![]));

    let val = Bencode::parse(b"l5:hello3:byee").unwrap();
    assert_eq!(
        val,
        Bencode::List(vec![
            Bencode::Str(b"hello".to_vec()),
            Bencode::Str(b"bye".to_vec()),
        ])
    );
}

#[test]
fn test_deserialize_dict() {
    let val = Bencode::parse(b"d3:foo3:bare").unwrap();
    let dict = val.as_dict().unwrap();
    assert_eq!(dict.get_str(b"foo").unwrap(), "bar");

    let val = Bencode::parse(b"de").unwrap();
    assert_eq!(val, Bencode::Dict(vec![]));
}

#[test]
fn test_deserialize_struct() {
    let val = Bencode::parse(b"d3:foo5:hello3:bari42ee").unwrap();
    let dict = val.as_dict().unwrap();
    assert_eq!(dict.get_str(b"foo").unwrap(), "hello");
    assert_eq!(dict.get_int(b"bar").unwrap(), 42);
}

#[test]
fn test_deserialize_bencode_int() {
    let data = b"i42e";
    let bencode = Bencode::parse(data).unwrap();
    assert_eq!(bencode, Bencode::Int(42));
}

#[test]
fn read_until_consumes_through_delimiter() {
    let data = b"i42e5:hello";
    let mut de = Deserializer::new(&data[..]);
    let run = de.read_until(b'e').unwrap();
    assert_eq!(run, b"i42e");
    assert_eq!(de.peek().unwrap(), b'5');

    let mut de = Deserializer::new(&b"abc"[..]);
    assert!(de.read_until(b'x').is_err());
}

#[test]
fn render_replaces_bytes_that_are_not_text() {
    let val = Bencode::Str(vec![0xff]);
    assert_eq!(val.render(), "\"\u{FFFD}\"");
}

#[test]
fn dict_accessors_reject_the_wrong_kind() {
    assert_eq!(
        Bencode::Int(1).as_dict().unwrap_err(),
        BitTorrentError::BencodeUnexpectedKind
    );
    // A one-byte 0xff value is a valid bencode string but not UTF-8.
    let raw: Vec<u8> = vec![b'd', b'1', b':', b'k', b'1', b':', 0xff, b'e'];
    let val = Bencode::parse(&raw).unwrap();
    let dict = val.as_dict().unwrap();
    assert_eq!(dict.get_bytes(b"k").unwrap(), &vec![0xffu8]);
    assert_eq!(
        dict.get_str(b"k").unwrap_err(),
        BitTorrentError::BencodeUnexpectedKind
    );
    assert_eq!(
        dict.get_int(b"k").unwrap_err(),
        BitTorrentError::BencodeUnexpectedKind
    );
}

#[test]
fn parse_ignores_trailing_bytes() {
    let val = Bencode::parse(b"i3etrailing").unwrap();
    assert_eq!(val, Bencode::Int(3));
}

#[test]
fn parse_rejects_malformed_input() {
    assert_eq!(
        Bencode::parse(b"x").unwrap_err(),
        BitTorrentError::BencodeMalformed
    );
    assert!(Bencode::parse(b"").is_err());
    assert!(Bencode::parse(b"i3").is_err());
    assert!(Bencode::parse(b"5:hi").is_err());
    assert!(Bencode::parse(b"l i3e").is_err());
    assert!(Bencode::parse(b"di3ei4ee").is_err());
}

#[test]
fn serializer_sorts_dictionary_keys() {
    // The encoder is canonical: entries held out of order come out
    // sorted by raw key bytes, at every depth.
    let val = Bencode::Dict(vec![
        (b"b".to_vec(), Bencode::Int(1)),
        (
            b"a".to_vec(),
            Bencode::Dict(vec![
                (b"z".to_vec(), Bencode::Int(3)),
                (b"y".to_vec(), Bencode::Int(4)),
            ]),
        ),
    ]);
    let mut serializer = Serializer::new();
    serializer.write_value(&val);
    assert_eq!(serializer.into_bytes(), b"d1:ad1:yi4e1:zi3ee1:bi1ee");
}

#[test]
fn canonicalize_orders_entries_and_round_trips() {
    let val = Bencode::Dict(vec![
        (b"b".to_vec(), Bencode::Int(1)),
        (b"a".to_vec(), Bencode::Int(2)),
    ]);
    let canon = val.canonicalize();
    assert_eq!(
        canon,
        Bencode::Dict(vec![
            (b"a".to_vec(), Bencode::Int(2)),
            (b"b".to_vec(), Bencode::Int(1)),
        ])
    );
    let mut serializer = Serializer::new();
    serializer.write_value(&val);
    let bytes = serializer.into_bytes();
    assert_eq!(Bencode::parse(&bytes).unwrap(), canon);
}

#[test]
fn encode_then_decode_gives_the_value_back() {
    let val = Bencode::Dict(vec![
        (
            b"list".to_vec(),
            Bencode::List(vec![
                Bencode::Int(-7),
                Bencode::Str(b"x:y".to_vec()),
                Bencode::Dict(vec![]),
            ]),
        ),
        (b"n".to_vec(), Bencode::Int(0)),
    ]);
    let mut serializer = Serializer::new();
    serializer.write_value(&val);
    let bytes = serializer.into_bytes();
    assert_eq!(bytes, b"d4:listli-7e3:x:ydee1:ni0ee");
    let back = Bencode::parse(&bytes).unwrap();
    assert_eq!(back, val);
}
