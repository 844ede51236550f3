use bittorrent::{
    append_info_hash, build_tracker_url, decode_compact_peers, Client, Error, Field, PeerAddress,
    Torrent, TrackerResponse,
};

#[test]
fn compact_peer_is_address_and_port() {
    let peers = decode_compact_peers(&[192, 168, 1, 1, 0x1F, 0x90]).unwrap();
    assert_eq!(peers, vec![PeerAddress { ip: [192, 168, 1, 1], port: 8080 }]);
}

#[test]
fn compact_peers_keep_their_order() {
    let peers = decode_compact_peers(&[10, 0, 0, 1, 0, 80, 127, 0, 0, 1, 0xFF, 0xFF]).unwrap();
    assert_eq!(
        peers,
        vec![
            PeerAddress { ip: [10, 0, 0, 1], port: 80 },
            PeerAddress { ip: [127, 0, 0, 1], port: 65535 },
        ]
    );
    assert_eq!(decode_compact_peers(&[]), Ok(vec![]));
}

#[test]
fn compact_peers_need_whole_groups() {
    assert_eq!(decode_compact_peers(&[1, 2, 3, 4, 5]), Err(Error::MalformedInput));
    assert_eq!(decode_compact_peers(&[0; 7]), Err(Error::MalformedInput));
}

#[test]
fn tracker_reply_is_parsed() {
    let reply = b"d8:intervali900e5:peers6:\xc0\xa8\x01\x01\x1f\x90e";
    let r = TrackerResponse::parse(reply).unwrap();
    assert_eq!(r.interval, 900);
    assert_eq!(r.peers, vec![PeerAddress { ip: [192, 168, 1, 1], port: 8080 }]);
}

#[test]
fn tracker_reply_errors() {
    assert_eq!(TrackerResponse::parse(b"d5:peers0:e").err(), Some(Error::SchemaError(Field::Interval)));
    assert_eq!(
        TrackerResponse::parse(b"d8:intervali9e5:peerslee").err(),
        Some(Error::SchemaError(Field::Peers))
    );
    assert_eq!(
        TrackerResponse::parse(b"d8:intervali9e5:peers4:abcde").err(),
        Some(Error::MalformedInput)
    );
    assert_eq!(TrackerResponse::parse(b"d8:interval").err(), Some(Error::MalformedInput));
    assert_eq!(
        TrackerResponse::parse(b"d8:intervali0e5:peers0:e").err(),
        Some(Error::SchemaError(Field::Interval))
    );
    assert_eq!(
        TrackerResponse::parse(b"d8:intervali-5e5:peers0:e").err(),
        Some(Error::SchemaError(Field::Interval))
    );
}

#[test]
fn info_hash_is_percent_encoded_byte_by_byte() {
    assert_eq!(
        append_info_hash("http://t.example/announce", &[0x00, 0x25, 0xab, 0xff]),
        "http://t.example/announce?info_hash=%00%25%ab%ff"
    );
    assert_eq!(append_info_hash("http://t/a?x=1", &[0x41]), "http://t/a?x=1&info_hash=%41");
    assert_eq!(append_info_hash("http://t/a", &[]), "http://t/a?info_hash=");
}

#[test]
fn tracker_url_has_all_parameters() {
    let url = build_tracker_url(
        "http://tracker.example/announce",
        &[0x12, 0xef],
        "abcdefghij0123456789",
        6881,
        0,
        0,
        92063,
    )
    .unwrap();
    assert_eq!(
        url,
        "http://tracker.example/announce?peer_id=abcdefghij0123456789&port=6881&uploaded=0&downloaded=0&left=92063&compact=1&info_hash=%12%ef"
    );
}

#[test]
fn tracker_url_form_encodes_text_and_keeps_an_existing_query() {
    let url = build_tracker_url("http://t.example/a?key=v", &[0xff], "a b&c", 1, 2, 3, -4).unwrap();
    assert_eq!(
        url,
        "http://t.example/a?key=v&peer_id=a+b%26c&port=1&uploaded=2&downloaded=3&left=-4&compact=1&info_hash=%ff"
    );
}

#[test]
fn tracker_url_needs_a_url() {
    assert_eq!(
        build_tracker_url("not a url", &[1], "id", 1, 0, 0, 0),
        Err(Error::InvalidUrl)
    );
}

#[test]
fn client_announce_url_uses_the_info_hash() {
    let doc = b"d8:announce11:http://x.y/4:infod6:lengthi5e4:name4:tiny12:piece lengthi16384e6:pieces3:abcee";
    let torrent = Torrent::parse(doc).unwrap();
    let client = Client::new("peer".to_string(), 7000);
    let url = client.announce_url(&torrent).unwrap();
    assert_eq!(
        url,
        "http://x.y/?peer_id=peer&port=7000&uploaded=0&downloaded=0&left=5&compact=1&info_hash=%4b%b3%73%47%b2%13%1c%29%67%69%c3%56%15%68%8a%5e%f7%19%79%35"
    );
}

#[test]
fn default_client_has_a_random_alphanumeric_id() {
    let client = Client::default();
    let torrent = Torrent::parse(
        b"d8:announce11:http://x.y/4:infod6:lengthi5e4:name4:tiny12:piece lengthi16384e6:pieces0:ee",
    )
    .unwrap();
    let url = client.announce_url(&torrent).unwrap();
    let id = url.split("peer_id=").nth(1).unwrap().split('&').next().unwrap();
    assert_eq!(id.len(), 20);
    assert!(id.chars().all(|c| c.is_ascii_alphanumeric()));
    assert!(url.contains("&port=6881&"));
}
