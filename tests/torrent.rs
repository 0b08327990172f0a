use bittorrent::decode::decode_bencoded_value;
use bittorrent::hash::{info_hash, info_hash_hex, Hashes};
use bittorrent::torrent::{parse_torrent, Field, Keys, Kind, TorrentError};
use bittorrent::value::BEncodedData;

fn piece_bytes() -> Vec<u8> {
    (0u8..40).collect()
}

fn info_single() -> Vec<u8> {
    [
        b"d6:lengthi92063e4:name10:sample.txt12:piece lengthi32768e6:pieces40:".to_vec(),
        piece_bytes(),
        b"e".to_vec(),
    ]
    .concat()
}

fn wrap(info: &[u8]) -> Vec<u8> {
    [b"d8:announce30:http://tracker.example.org/ann4:info".to_vec(), info.to_vec(), b"e".to_vec()].concat()
}

fn decoded(buf: &[u8]) -> BEncodedData {
    let (n, v) = decode_bencoded_value(buf).unwrap();
    assert_eq!(n, buf.len());
    v
}

fn torrent_err(buf: &[u8]) -> TorrentError {
    match parse_torrent(&decoded(buf)) {
        Ok(t) => panic!("parsed {:?}", t),
        Err(e) => e,
    }
}

#[test]
fn single_file_torrent() {
    let t = parse_torrent(&decoded(&wrap(&info_single()))).unwrap();
    assert_eq!(t.announce.as_bytes(), b"http://tracker.example.org/ann");
    assert_eq!(t.info.name.as_bytes(), b"sample.txt");
    assert_eq!(t.info.piece_len, 32768);
    assert_eq!(t.info.pieces.len(), 2);
    assert_eq!(t.info.pieces.0[0].to_vec(), (0u8..20).collect::<Vec<u8>>());
    assert_eq!(t.info.pieces.0[1].to_vec(), (20u8..40).collect::<Vec<u8>>());
    match t.info.keys {
        Keys::SingleFile { length } => assert_eq!(length, 92063),
        other => panic!("not single-file: {:?}", other),
    }
}

#[test]
fn multi_file_torrent() {
    let info = [
        b"d5:filesld6:lengthi5e4:pathl3:dir5:a.txteed6:lengthi1e4:pathl5:b.txteee4:name4:root12:piece lengthi16e6:pieces20:".to_vec(),
        (0u8..20).collect(),
        b"e".to_vec(),
    ]
    .concat();
    let t = parse_torrent(&decoded(&wrap(&info))).unwrap();
    match t.info.keys {
        Keys::MultiFile { files } => {
            assert_eq!(files.len(), 2);
            assert_eq!(files[0].length, 5);
            assert_eq!(files[0].path.len(), 2);
            assert_eq!(files[0].path[0].as_bytes(), b"dir");
            assert_eq!(files[0].path[1].as_bytes(), b"a.txt");
            assert_eq!(files[1].length, 1);
            assert_eq!(files[1].path[0].as_bytes(), b"b.txt");
        }
        other => panic!("not multi-file: {:?}", other),
    }
}

#[test]
fn zero_length_file_is_refused() {
    let info = [
        b"d5:filesld6:lengthi5e4:pathl1:aeed6:lengthi0e4:pathl1:beee4:name4:root12:piece lengthi16e6:pieces20:".to_vec(),
        (0u8..20).collect(),
        b"e".to_vec(),
    ]
    .concat();
    assert_eq!(torrent_err(&wrap(&info)), TorrentError::WrongType(Field::Length, Kind::Positive));
}

#[test]
fn layout_exclusivity() {
    let info = [
        b"d5:filesld6:lengthi5e4:pathl1:aeee6:lengthi5e4:name1:x12:piece lengthi16e6:pieces20:".to_vec(),
        (0u8..20).collect(),
        b"e".to_vec(),
    ]
    .concat();
    assert_eq!(torrent_err(&wrap(&info)), TorrentError::AmbiguousLayout);
}

#[test]
fn missing_layout() {
    let info = [b"d4:name1:x12:piece lengthi16e6:pieces20:".to_vec(), (0u8..20).collect(), b"e".to_vec()].concat();
    assert_eq!(torrent_err(&wrap(&info)), TorrentError::MissingLayout);
}

#[test]
fn invalid_hash_length() {
    let info = [b"d6:lengthi1e4:name1:x12:piece lengthi16e6:pieces19:".to_vec(), (0u8..19).collect(), b"e".to_vec()].concat();
    assert_eq!(torrent_err(&wrap(&info)), TorrentError::InvalidHashLength);
}

#[test]
fn missing_and_mistyped_fields() {
    assert_eq!(torrent_err(b"d4:infodee"), TorrentError::MissingField(Field::Announce));
    assert_eq!(torrent_err(b"d8:announcei1ee"), TorrentError::WrongType(Field::Announce, Kind::ByteString));
    assert_eq!(torrent_err(b"d8:announce1:ae"), TorrentError::MissingField(Field::Info));
    assert_eq!(torrent_err(b"d8:announce1:a4:infoi1ee"), TorrentError::WrongType(Field::Info, Kind::Dictionary));
    assert_eq!(torrent_err(b"le"), TorrentError::WrongType(Field::Torrent, Kind::Dictionary));
    assert_eq!(
        torrent_err(b"d8:announce1:a4:infod4:name1:x12:piece lengthi-1eee"),
        TorrentError::WrongType(Field::PieceLength, Kind::Unsigned)
    );
    assert_eq!(
        torrent_err(b"d8:announce1:a4:infod4:name1:x12:piece length1:1ee"),
        TorrentError::WrongType(Field::PieceLength, Kind::Integer)
    );
    assert_eq!(
        torrent_err(b"d8:announce1:a4:infod4:name1:x12:piece lengthi1e6:pieces0:5:filesleee"),
        TorrentError::WrongType(Field::Files, Kind::NonEmptyList)
    );
    assert_eq!(
        torrent_err(b"d8:announce1:a4:infod4:name1:x12:piece lengthi1e6:pieces0:5:filesld6:lengthi1e4:pathleeeee"),
        TorrentError::WrongType(Field::Path, Kind::NonEmptyList)
    );
    assert_eq!(
        torrent_err(b"d8:announce1:a4:infod4:name1:x12:piece lengthi1e6:pieces0:5:filesld4:pathl1:aeeeee"),
        TorrentError::MissingField(Field::Length)
    );
}

#[test]
fn info_hash_stability() {
    let buf = wrap(&info_single());
    assert_eq!(info_hash_hex(&buf).unwrap(), "450a0ea469c5a5789f2c28864a1950b0e91c8d7e");
    let raw = info_hash(&buf).unwrap();
    assert_eq!(raw.len(), 20);
    assert_eq!(raw[0], 0x45);
    assert!(info_hash(b"d8:announce1:ae").is_none());
    assert!(info_hash(b"le").is_none());
    let unfinished = &buf[..buf.len() - 1];
    assert!(info_hash(unfinished).is_none());
    let repeated = [b"d4:info".to_vec(), info_single(), b"4:info".to_vec(), info_single(), b"e".to_vec()].concat();
    assert!(info_hash(&repeated).is_none());
}

#[test]
fn info_hash_uses_original_bytes() {
    // the same info entries in another key order: the digest follows the bytes as given
    let info = [
        b"d4:name10:sample.txt6:lengthi92063e12:piece lengthi32768e6:pieces40:".to_vec(),
        piece_bytes(),
        b"e".to_vec(),
    ]
    .concat();
    let buf = wrap(&info);
    assert!(parse_torrent(&decoded(&buf)).is_ok());
    assert_eq!(info_hash_hex(&buf).unwrap(), "98cf47fae35b3c20a944fd453cec8a24e7738f96");
}

#[test]
fn piece_hashes_hex() {
    let h = Hashes::from_bytes(&piece_bytes()).unwrap();
    let hex = h.to_hex();
    assert_eq!(hex.len(), 2);
    assert_eq!(hex[0], "000102030405060708090a0b0c0d0e0f10111213");
    assert_eq!(hex[1], "1415161718191a1b1c1d1e1f2021222324252627");
    assert!(Hashes::from_bytes(&[0u8; 21]).is_none());
    assert_eq!(Hashes::from_bytes(&[]).unwrap().len(), 0);
}
