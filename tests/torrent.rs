use bittorrent::{encode, Error, Field, Torrent, Value};

fn bytes(s: &[u8]) -> Value {
    Value::Bytes(s.to_vec())
}

fn document(info: Vec<(Vec<u8>, Value)>) -> Vec<u8> {
    encode(&Value::Dict(vec![
        (b"announce".to_vec(), bytes(b"http://x.y/")),
        (b"info".to_vec(), Value::Dict(info)),
    ]))
}

fn tiny_info(pieces: &[u8]) -> Vec<(Vec<u8>, Value)> {
    vec![
        (b"length".to_vec(), Value::Integer(5)),
        (b"name".to_vec(), bytes(b"tiny")),
        (b"piece length".to_vec(), Value::Integer(16384)),
        (b"pieces".to_vec(), bytes(pieces)),
    ]
}

#[test]
fn test_parse_torrent_file() {
    let input = document(tiny_info(b"abc"));
    let torrent = Torrent::parse(&input).expect("a valid document");

    assert_eq!("http://x.y/", torrent.announce);
    assert_eq!(5, torrent.info.length);
    assert_eq!("4bb37347b2131c296769c35615688a5ef7197935", hex::encode(torrent.get_info_hash()));
    assert_eq!(16384, torrent.info.piece_length);
    assert_eq!("tiny", torrent.info.name);
    assert_eq!(b"abc".to_vec(), torrent.info.pieces);
}

#[test]
fn decode_torrent_file() {
    let input = b"d8:announce11:http://x.y/4:infod6:lengthi5e4:name4:tiny12:piece lengthi16384e6:pieces2:\0\0ee";
    let expected2 = "Tracker URL: http://x.y/\nLength: 5\n";
    let torrent = Torrent::parse(input).expect("a valid document");
    let shown = format!("Tracker URL: {}\nLength: {}\n", torrent.announce, torrent.info.length);
    assert_eq!(shown, expected2);
    assert_eq!(torrent.get_piece_hashes(), Err(Error::IntegrityError));
}

#[test]
fn info_hash_is_the_same_each_time() {
    let input = document(tiny_info(b"abc"));
    let a = Torrent::parse(&input).unwrap();
    let b = Torrent::parse(&input).unwrap();
    assert_eq!(a.get_info_hash(), a.get_info_hash());
    assert_eq!(a.get_info_hash(), b.get_info_hash());
}

#[test]
fn info_hash_ignores_the_order_of_info_keys() {
    let mut reversed = tiny_info(b"abc");
    reversed.reverse();
    let raw = b"d8:announce11:http://x.y/4:infod6:pieces3:abc12:piece lengthi16384e4:name4:tiny6:lengthi5eee";
    let a = Torrent::parse(&document(tiny_info(b"abc"))).unwrap();
    let b = Torrent::parse(raw).unwrap();
    assert_eq!(a.get_info_hash(), b.get_info_hash());
    assert_eq!(document(reversed), document(tiny_info(b"abc")));
}

#[test]
fn info_hash_depends_on_the_content() {
    let a = Torrent::parse(&document(tiny_info(b"abc"))).unwrap();
    let b = Torrent::parse(&document(tiny_info(b"abd"))).unwrap();
    assert_ne!(a.get_info_hash(), b.get_info_hash());
}

#[test]
fn piece_hashes_split_pieces_in_order() {
    let mut pieces = Vec::new();
    for i in 0..60u8 {
        pieces.push(i);
    }
    let torrent = Torrent::parse(&document(tiny_info(&pieces))).unwrap();
    let hashes = torrent.get_piece_hashes().unwrap();
    assert_eq!(hashes.len(), 3);
    for (i, h) in hashes.iter().enumerate() {
        assert_eq!(h.to_vec(), pieces[20 * i..20 * i + 20].to_vec());
    }
}

#[test]
fn no_pieces_give_no_hashes() {
    let torrent = Torrent::parse(&document(tiny_info(b""))).unwrap();
    assert_eq!(torrent.get_piece_hashes(), Ok(vec![]));
}

#[test]
fn pieces_not_a_multiple_of_twenty_are_corrupt() {
    let torrent = Torrent::parse(&document(tiny_info(&[7u8; 21]))).unwrap();
    assert_eq!(torrent.get_piece_hashes(), Err(Error::IntegrityError));
}

#[test]
fn missing_or_mistyped_fields_are_named() {
    assert_eq!(Torrent::parse(b"d4:infodee").err(), Some(Error::SchemaError(Field::Announce)));
    assert_eq!(Torrent::parse(b"i3e").err(), Some(Error::SchemaError(Field::Announce)));
    assert_eq!(
        Torrent::parse(b"d8:announce1:a4:infoi1ee").err(),
        Some(Error::SchemaError(Field::Info))
    );
    let mut no_name = tiny_info(b"abc");
    no_name.remove(1);
    assert_eq!(Torrent::parse(&document(no_name)).err(), Some(Error::SchemaError(Field::Name)));
    let mut bad_length = tiny_info(b"abc");
    bad_length[0].1 = bytes(b"5");
    assert_eq!(
        Torrent::parse(&document(bad_length)).err(),
        Some(Error::SchemaError(Field::Length))
    );
    let mut no_piece_length = tiny_info(b"abc");
    no_piece_length.remove(2);
    assert_eq!(
        Torrent::parse(&document(no_piece_length)).err(),
        Some(Error::SchemaError(Field::PieceLength))
    );
    let mut bad_pieces = tiny_info(b"abc");
    bad_pieces[3].1 = Value::Integer(1);
    assert_eq!(
        Torrent::parse(&document(bad_pieces)).err(),
        Some(Error::SchemaError(Field::Pieces))
    );
    let bad_text = b"d8:announce1:\xff4:infodee";
    assert_eq!(Torrent::parse(bad_text).err(), Some(Error::SchemaError(Field::Announce)));
    assert_eq!(Torrent::parse(b"d8:announce").err(), Some(Error::MalformedInput));
}
