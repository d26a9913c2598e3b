use bittorrent::bencode::Bencode;
use bittorrent::bytes20::Bytes20;
use bittorrent::error::BitTorrentError;
use bittorrent::magnet::MagnetLink;
use bittorrent::meta::{assemble_metadata, Info, Meta};
use bittorrent::peers::{parse_compact_peers, Peer};
use bittorrent::pool::Pool;
use bittorrent::tracker::{TrackerRequestBuilder, TrackerResponse};
use sha1::{Digest, Sha1};

fn hash(v: &str) -> Vec<u8> {
    let mut hasher = Sha1::new();
    hasher.update(v.as_bytes());
    let result = hasher.finalize();
    let mut out = [0u8; 20];
    out.copy_from_slice(&result);
    out.to_vec()
}

#[test]
fn file_test_info_serialization() {
    let info = Info {
        piece_length: 16384,
        pieces: Bencode::Str(
            hash("hello")
                .into_iter()
                .chain(hash("world"))
                .collect::<Vec<u8>>(),
        ),
        name: b"test_file.txt".to_vec(),
        length: 32768,
    };

    let bytes = info.encoded();

    let expected = b"d6:lengthi32768e4:name13:test_file.txt12:piece lengthi16384e6:pieces"
        .iter()
        .chain(b"40:")
        .chain(&hash("hello"))
        .chain(&hash("world"))
        .chain(b"e")
        .cloned()
        .collect::<Vec<u8>>();
    assert_eq!(bytes, expected);
}

#[test]
fn info_piece_bookkeeping() {
    let info = Info {
        piece_length: 32768,
        pieces: Bencode::Str(hash("a").into_iter().chain(hash("b")).collect()),
        name: b"f".to_vec(),
        length: 40000,
    };
    assert_eq!(info.num_pieces().unwrap(), 2);
    let hashes = info.piece_hashes().unwrap();
    assert_eq!(hashes.len(), 2);
    assert_eq!(hashes[0].as_slice(), &hash("a")[..]);
    let h = Bytes20::from_vec(&hash("b")).unwrap();
    assert!(info.match_hash(1, &h).unwrap());
    assert!(!info.match_hash(0, &h).unwrap());
    assert!(!info.match_hash(2, &h).unwrap());
    assert_eq!(info.piece_length_at(0).unwrap(), 32768);
    assert_eq!(info.piece_length_at(1).unwrap(), 7232);
}

#[test]
fn meta_reads_from_bencode() {
    let mut raw: Vec<u8> = Vec::new();
    raw.extend_from_slice(b"d8:announce9:http://tr4:infod6:lengthi7e4:name1:f12:piece lengthi3e6:pieces20:");
    raw.extend_from_slice(&[0x11; 20]);
    raw.extend_from_slice(b"ee");
    let b = Bencode::parse(&raw).unwrap();
    let meta = Meta::from_bencode(&b).unwrap();
    assert_eq!(meta.announce, b"http://tr".to_vec());
    assert_eq!(meta.info.length, 7);
    assert_eq!(meta.info.piece_length, 3);
    assert_eq!(meta.info.name, b"f".to_vec());
}

#[test]
fn metadata_assembly_checks_the_hash() {
    let whole = b"d4:spam4:eggse".to_vec();
    let expected = Bytes20::from_vec(&{
        let mut hasher = Sha1::new();
        hasher.update(&whole);
        hasher.finalize().to_vec()
    })
    .unwrap();
    let pieces = vec![b"d4:spam".to_vec(), b"4:eggse".to_vec()];
    let joined = assemble_metadata(&pieces, &expected).unwrap();
    assert_eq!(joined, whole);

    let wrong = Bytes20::new([0; 20]);
    assert_eq!(
        assemble_metadata(&pieces, &wrong).unwrap_err(),
        BitTorrentError::MetadataHashMismatch
    );
}

#[test]
fn magnet_parse_test_magnet_link_parsing() {
    let magnet_str = "magnet:?xt=urn:btih:ad42ce8109f54c99613ce38f9b4d87e70f24a165&dn=magnet1.gif&tr=http%3A%2F%2Fbittorrent-test-tracker.codecrafters.io%2Fannounce";
    let magnet_link = MagnetLink::from_str(magnet_str).unwrap();
    assert_eq!(
        magnet_link.info_hash().hex_encoded(),
        "ad42ce8109f54c99613ce38f9b4d87e70f24a165"
    );
    assert_eq!(magnet_link.name().unwrap(), &b"magnet1.gif".to_vec());
    assert_eq!(
        magnet_link.tracker().unwrap(),
        &b"http://bittorrent-test-tracker.codecrafters.io/announce".to_vec()
    );
}

#[test]
fn magnet_link_test_magnet_link_parsing() {
    let magnet_str = "magnet:?xt=urn:btih:ad42ce8109f54c99613ce38f9b4d87e70f24a165&dn=magnet1.gif&tr=http%3A%2F%2Fbittorrent-test-tracker.codecrafters.io%2Fannounce";
    let magnet_link = MagnetLink::from_str(magnet_str).unwrap();
    assert_eq!(
        magnet_link.info_hash().as_slice(),
        &hex::decode("ad42ce8109f54c99613ce38f9b4d87e70f24a165").unwrap()[..]
    );
    assert_eq!(magnet_link.name().unwrap(), &b"magnet1.gif".to_vec());
    assert_eq!(
        magnet_link.tracker().unwrap(),
        &b"http://bittorrent-test-tracker.codecrafters.io/announce".to_vec()
    );
}

#[test]
fn magnet_rejects_bad_links() {
    assert_eq!(
        MagnetLink::from_str("http://x").unwrap_err(),
        BitTorrentError::InvalidMagnetLink
    );
    assert_eq!(
        MagnetLink::from_str("magnet:?dn=a").unwrap_err(),
        BitTorrentError::InvalidMagnetLink
    );
    assert_eq!(
        MagnetLink::from_str("magnet:?xt=urn:btih:zz42").unwrap_err(),
        BitTorrentError::InvalidMagnetLink
    );
    assert_eq!(
        MagnetLink::from_str("magnet:?xt=urn:btih:abcd").unwrap_err(),
        BitTorrentError::InvalidMagnetLink
    );
}

#[test]
fn peer_test_display_peer() {
    let peer = Peer::new(127, 0, 0, 1, 8080);
    assert_eq!(peer.render(), "127.0.0.1:8080");
}

#[test]
fn tracker_test_display_peer() {
    let peer = Peer::new(127, 0, 0, 1, 8080);
    assert_eq!(peer.render(), "127.0.0.1:8080");
}

#[test]
fn compact_peer_run_splits_in_sixes() {
    let raw: Vec<u8> = vec![127, 0, 0, 1, 0x1f, 0x90, 10, 0, 0, 2, 0x00, 0x50, 9, 9];
    let peers = parse_compact_peers(&raw);
    assert_eq!(peers.len(), 2);
    assert_eq!(peers[0], Peer::new(127, 0, 0, 1, 8080));
    assert_eq!(peers[1], Peer::new(10, 0, 0, 2, 80));
}

#[test]
fn test_pool() {
    let items = vec![1, 2, 3];
    let mut pool = Pool::new(items);
    let item1 = pool.get_item().unwrap();
    let item2 = pool.get_item().unwrap();
    let item3 = pool.get_item().unwrap();
    assert_eq!(item1, 1);
    assert_eq!(item2, 2);
    assert_eq!(item3, 3);
    assert!(pool.get_item().is_none());
    pool.put_back(item1);
    let item4 = pool.get_item().unwrap();
    assert_eq!(item4, 1);
}

#[test]
fn tracker_query_assembly() {
    let builder = TrackerRequestBuilder::default()
        .url(b"http://tr/announce".to_vec())
        .info_hash(&Bytes20::new([0xab; 20]))
        .left(999);
    let query = builder.build_query().unwrap();
    let text = String::from_utf8(query).unwrap();
    assert_eq!(
        text,
        "http://tr/announce?info_hash=%AB%AB%AB%AB%AB%AB%AB%AB%AB%AB%AB%AB%AB%AB%AB%AB%AB%AB%AB%AB&peer_id=01234567890123456789&port=6881&uploaded=0&downloaded=0&left=999&compact=1"
    );

    let incomplete = TrackerRequestBuilder::default().left(1);
    assert_eq!(
        incomplete.build_query().unwrap_err(),
        BitTorrentError::TrackerHttpFailed
    );
}

#[test]
fn tracker_response_reads_interval_and_peers() {
    let mut raw: Vec<u8> = Vec::new();
    raw.extend_from_slice(b"d8:intervali1800e5:peers6:");
    raw.extend_from_slice(&[127, 0, 0, 1, 0x1f, 0x90]);
    raw.extend_from_slice(b"e");
    let b = Bencode::parse(&raw).unwrap();
    let resp = TrackerResponse::from_bencode(&b).unwrap();
    assert_eq!(resp.interval, 1800);
    assert_eq!(resp.peers, vec![Peer::new(127, 0, 0, 1, 8080)]);
}
