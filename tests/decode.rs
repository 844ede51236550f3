use bittorrent::{decode_bencoded_value, encode, Error, Value};

fn to_json(v: &Value) -> serde_json::Value {
    match v {
        Value::Integer(n) => serde_json::Value::Number((*n).into()),
        Value::Bytes(b) => serde_json::Value::String(String::from_utf8_lossy(b).into_owned()),
        Value::List(items) => serde_json::Value::Array(items.iter().map(to_json).collect()),
        Value::Dict(entries) => {
            let mut m = serde_json::Map::new();
            for (k, x) in entries {
                m.insert(String::from_utf8_lossy(k).into_owned(), to_json(x));
            }
            serde_json::Value::Object(m)
        }
    }
}

fn render(input: &str) -> String {
    let (v, _) = decode_bencoded_value(input.as_bytes()).expect("valid bencode");
    to_json(&v).to_string()
}

fn run_decode(input: &str, expected: &str) {
    assert_eq!(format!("{}\n", render(input)), expected);
}

fn bytes(s: &str) -> Value {
    Value::Bytes(s.as_bytes().to_vec())
}

#[test]
fn test_decode() {
    let cases = [
        ("4:pear", "\"pear\""),
        ("9:raspberry", "\"raspberry\""),
        (
            "55:http://bittorrent-test-tracker.codecrafters.io/announce",
            "\"http://bittorrent-test-tracker.codecrafters.io/announce\"",
        ),
        ("i1052617151e", "1052617151"),
        ("i-52e", "-52"),
        ("le", "[]"),
        ("l9:pineapplei317ee", "[\"pineapple\",317]"),
        ("lli317e9:pineappleee", "[[317,\"pineapple\"]]"),
        ("lli4eei5ee", "[[4],5]"),
        ("de", "{}"),
        ("d3:foo5:apple5:helloi52ee", "{\"foo\":\"apple\",\"hello\":52}"),
        (
            "d10:inner_dictd4:key16:value14:key2i42e8:list_keyl5:item15:item2i3eeee",
            "{\"inner_dict\":{\"key1\":\"value1\",\"key2\":42,\"list_key\":[\"item1\",\"item2\",3]}}",
        ),
    ];
    for (input, expected) in cases {
        assert_eq!(render(input), expected);
    }
}

#[test]
fn decode_string() {
    run_decode("4:pear", "\"pear\"\n");
    run_decode("9:raspberry", "\"raspberry\"\n");
    run_decode(
        "55:http://bittorrent-test-tracker.codecrafters.io/announce",
        "\"http://bittorrent-test-tracker.codecrafters.io/announce\"\n",
    );
}

#[test]
fn decode_integer() {
    run_decode("i1052617151e", "1052617151\n");
    run_decode("i-52e", "-52\n");
}

#[test]
fn decode_list() {
    run_decode("le", "[]\n");
    run_decode("l9:pineapplei317ee", "[\"pineapple\",317]\n");
    run_decode("lli317e9:pineappleee", "[[317,\"pineapple\"]]\n");
    run_decode("lli4eei5ee", "[[4],5]\n");
}

#[test]
fn decode_dictionary() {
    run_decode("de", "{}\n");
    run_decode("d3:foo5:apple5:helloi52ee", "{\"foo\":\"apple\",\"hello\":52}\n");
    run_decode(
        "d10:inner_dictd4:key16:value14:key2i42e8:list_keyl5:item15:item2i3eeee",
        "{\"inner_dict\":{\"key1\":\"value1\",\"key2\":42,\"list_key\":[\"item1\",\"item2\",3]}}\n",
    );
}

#[test]
fn literal_values_decode_to_their_structure() {
    assert_eq!(decode_bencoded_value(b"4:pear"), Ok((bytes("pear"), 6)));
    assert_eq!(decode_bencoded_value(b"i-52e"), Ok((Value::Integer(-52), 5)));
    assert_eq!(decode_bencoded_value(b"le"), Ok((Value::List(vec![]), 2)));
    assert_eq!(
        decode_bencoded_value(b"d3:foo5:apple5:helloi52ee"),
        Ok((
            Value::Dict(vec![
                (b"foo".to_vec(), bytes("apple")),
                (b"hello".to_vec(), Value::Integer(52)),
            ]),
            25
        ))
    );
    assert_eq!(
        decode_bencoded_value(b"lli4eei5ee"),
        Ok((
            Value::List(vec![Value::List(vec![Value::Integer(4)]), Value::Integer(5)]),
            10
        ))
    );
}

#[test]
fn malformed_input_is_rejected() {
    assert_eq!(decode_bencoded_value(b"d3:foo"), Err(Error::MalformedInput));
    assert_eq!(decode_bencoded_value(b"9999:ab"), Err(Error::MalformedInput));
    assert_eq!(decode_bencoded_value(b""), Err(Error::MalformedInput));
    assert_eq!(decode_bencoded_value(b"x"), Err(Error::MalformedInput));
    assert_eq!(decode_bencoded_value(b"i12"), Err(Error::MalformedInput));
    assert_eq!(decode_bencoded_value(b"ie"), Err(Error::MalformedInput));
    assert_eq!(decode_bencoded_value(b"4pear"), Err(Error::MalformedInput));
    assert_eq!(decode_bencoded_value(b"l4:pear"), Err(Error::MalformedInput));
    assert_eq!(decode_bencoded_value(b"di1e4:peare"), Err(Error::MalformedInput));
}

#[test]
fn integers_follow_the_canonical_digits() {
    assert_eq!(decode_bencoded_value(b"i0e"), Ok((Value::Integer(0), 3)));
    assert_eq!(decode_bencoded_value(b"i03e"), Err(Error::MalformedInput));
    assert_eq!(decode_bencoded_value(b"i-0e"), Err(Error::MalformedInput));
    assert_eq!(
        decode_bencoded_value(b"i9223372036854775807e"),
        Ok((Value::Integer(i64::MAX), 21))
    );
    assert_eq!(
        decode_bencoded_value(b"i-9223372036854775808e"),
        Ok((Value::Integer(i64::MIN), 22))
    );
    assert_eq!(decode_bencoded_value(b"i9223372036854775808e"), Err(Error::MalformedInput));
}

#[test]
fn decoding_stops_after_the_first_value() {
    let buf = b"i1ei2e";
    let (first, n) = decode_bencoded_value(buf).unwrap();
    assert_eq!(first, Value::Integer(1));
    assert_eq!(n, 3);
    assert_eq!(decode_bencoded_value(&buf[n..]), Ok((Value::Integer(2), 3)));
}

#[test]
fn duplicate_keys_keep_first_place_and_last_value() {
    assert_eq!(
        decode_bencoded_value(b"d1:ai1e1:bi2e1:ai3ee"),
        Ok((
            Value::Dict(vec![(b"a".to_vec(), Value::Integer(3)), (b"b".to_vec(), Value::Integer(2))]),
            20
        ))
    );
}

#[test]
fn byte_strings_need_not_be_text() {
    assert_eq!(
        decode_bencoded_value(b"3:\xff\x00e"),
        Ok((Value::Bytes(vec![0xff, 0x00, b'e']), 5))
    );
}

#[test]
fn encode_writes_canonical_bytes() {
    assert_eq!(encode(&Value::Integer(-52)), b"i-52e".to_vec());
    assert_eq!(encode(&Value::Integer(0)), b"i0e".to_vec());
    assert_eq!(encode(&Value::Integer(i64::MIN)), b"i-9223372036854775808e".to_vec());
    assert_eq!(encode(&bytes("pear")), b"4:pear".to_vec());
    assert_eq!(encode(&bytes("")), b"0:".to_vec());
    assert_eq!(encode(&Value::List(vec![])), b"le".to_vec());
    assert_eq!(encode(&Value::Dict(vec![])), b"de".to_vec());
}

#[test]
fn encode_sorts_dictionary_keys() {
    let v = Value::Dict(vec![
        (b"zeta".to_vec(), Value::Integer(1)),
        (b"alpha".to_vec(), Value::List(vec![bytes("x")])),
        (b"al".to_vec(), Value::Dict(vec![(b"b".to_vec(), Value::Integer(2)), (b"a".to_vec(), Value::Integer(3))])),
    ]);
    assert_eq!(encode(&v), b"d2:ald1:ai3e1:bi2ee5:alphal1:xe4:zetai1ee".to_vec());
}

#[test]
fn canonical_bytes_round_trip() {
    let samples: [&[u8]; 6] = [
        b"4:pear",
        b"i-52e",
        b"le",
        b"d3:foo5:apple5:helloi52ee",
        b"lli4eei5ee",
        b"d10:inner_dictd4:key16:value14:key2i42e8:list_keyl5:item15:item2i3eeee",
    ];
    for b in samples {
        let (v, n) = decode_bencoded_value(b).unwrap();
        assert_eq!(n, b.len());
        assert_eq!(encode(&v), b.to_vec());
    }
}

#[test]
fn lookup_finds_dictionary_values() {
    let (v, _) = decode_bencoded_value(b"d3:foo5:apple5:helloi52ee").unwrap();
    assert_eq!(v.get(b"hello"), Some(&Value::Integer(52)));
    assert_eq!(v.get(b"nope"), None);
    assert_eq!(Value::Integer(1).get(b"foo"), None);
}
