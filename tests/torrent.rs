use torrent_core::error::{BencodeDecodableError, ReadTorrentError};
use torrent_core::torrent::{FileDetails, FileEntry, Info, Torrent, TorrentFile};
use torrent_core::value::{parse, BencodeDecodable};

const INFO_HASH: [u8; 20] = [
    154, 10, 126, 90, 101, 153, 232, 27, 213, 223, 186, 216, 26, 70, 164, 62, 11, 102, 205, 58,
];

fn info_bytes() -> Vec<u8> {
    let mut b = b"d6:lengthi100e4:name1:f12:piece lengthi16384e6:pieces20:".to_vec();
    b.extend_from_slice(&[0u8; 20]);
    b.push(b'e');
    b
}

fn torrent_bytes(announce: &str) -> Vec<u8> {
    let mut b = format!("d8:announce{}:{}4:info", announce.len(), announce).into_bytes();
    b.extend_from_slice(&info_bytes());
    b.push(b'e');
    b
}

fn info_with(pieces_len: usize, tail: &str) -> Vec<u8> {
    let mut b = format!("d8:announce1:a4:infod4:name1:f12:piece lengthi16e6:pieces{}:", pieces_len)
        .into_bytes();
    b.extend(std::iter::repeat(7u8).take(pieces_len));
    b.extend_from_slice(tail.as_bytes());
    b.extend_from_slice(b"ee");
    b
}

#[test]
fn minimal_single_file_round_trip() {
    let bytes = torrent_bytes("http://t/a");
    let root = parse(&bytes).unwrap();
    let t = Torrent::decode(&root).unwrap();
    assert_eq!(t.announce, b"http://t/a");
    assert_eq!(t.info.name, "f");
    assert_eq!(t.info.piece_length, 16384);
    assert_eq!(t.info.piece_count(), 1);
    assert_eq!(t.info.piece_hash(0).unwrap(), &[0u8; 20]);
    assert!(t.info.piece_hash(1).is_none());
    assert!(matches!(t.info.file_details, FileDetails::SingleFile { length: 100 }));
    assert_eq!(t.info_hash, INFO_HASH);
    assert_ne!(t.info_hash, [0u8; 20]);
    let again = Torrent::decode(&parse(&bytes).unwrap()).unwrap();
    assert_eq!(again.info_hash, t.info_hash);
}

#[test]
fn info_hash_ignores_announce() {
    let a = torrent_bytes("http://t/a");
    let b = torrent_bytes("udp://elsewhere:80/announce");
    let ta = Torrent::decode(&parse(&a).unwrap()).unwrap();
    let tb = Torrent::decode(&parse(&b).unwrap()).unwrap();
    assert_ne!(ta.announce, tb.announce);
    assert_eq!(ta.info_hash, tb.info_hash);
}

#[test]
fn pieces_not_multiple_of_twenty_rejected() {
    let bytes = info_with(39, "");
    let root = parse(&bytes).unwrap();
    match Torrent::decode(&root) {
        Err(BencodeDecodableError::StructuralValidation(key, n)) => {
            assert_eq!(key, "pieces");
            assert_eq!(n, 39);
        }
        other => panic!("unexpected {:?}", other.map(|t| t.info_hash)),
    }
}

#[test]
fn multi_file_entries_keep_order() {
    let mut b = b"d5:filesl".to_vec();
    b.extend_from_slice(b"d6:lengthi5e4:pathl1:b1:zee");
    b.extend_from_slice(b"d6:lengthi7e4:pathl1:aee");
    b.extend_from_slice(b"e4:name3:dir12:piece lengthi16e6:pieces0:e");
    let root = parse(&b).unwrap();
    let info = Info::decode(&root).unwrap();
    match &info.file_details {
        FileDetails::MultiFile { files } => {
            assert_eq!(files.len(), 2);
            assert_eq!(files[0].length, 5);
            assert_eq!(files[0].path, vec![&b"b"[..], &b"z"[..]]);
            assert_eq!(files[1].length, 7);
            assert_eq!(files[1].path, vec![&b"a"[..]]);
        }
        FileDetails::SingleFile { .. } => panic!("expected several files"),
    }
    assert_eq!(info.piece_count(), 0);
}

#[test]
fn single_file_wins_over_files() {
    let b = b"d5:filesle6:lengthi9e4:name1:f12:piece lengthi16e6:pieces0:e";
    let info = Info::decode(&parse(b).unwrap()).unwrap();
    assert!(matches!(info.file_details, FileDetails::SingleFile { length: 9 }));
}

#[test]
fn ill_typed_length_falls_back_to_files() {
    let b = b"d5:filesle6:length1:x4:name1:f12:piece lengthi16e6:pieces0:e";
    let info = Info::decode(&parse(b).unwrap()).unwrap();
    assert!(matches!(&info.file_details, FileDetails::MultiFile { files } if files.is_empty()));
}

#[test]
fn layout_needs_length_or_files() {
    let b = b"d4:name1:f12:piece lengthi16e6:pieces0:e";
    match Info::decode(&parse(b).unwrap()) {
        Err(BencodeDecodableError::KeyNotFound(k)) => assert_eq!(k, "files"),
        _ => panic!("expected a missing key"),
    }
}

#[test]
fn zero_piece_length_rejected() {
    let b = b"d6:lengthi1e4:name1:f12:piece lengthi0e6:pieces0:e";
    assert!(matches!(
        Info::decode(&parse(b).unwrap()),
        Err(BencodeDecodableError::StructuralValidation(_, 0))
    ));
}

#[test]
fn file_entry_path_must_be_byte_strings() {
    let good = parse(b"d6:lengthi3e4:pathl1:a2:bcee").unwrap();
    let f = FileEntry::decode(&good).unwrap();
    assert_eq!(f.length, 3);
    assert_eq!(f.path.len(), 2);
    let bad = parse(b"d6:lengthi3e4:pathl1:ai1eee").unwrap();
    assert!(FileEntry::decode(&bad).is_err());
    let negative = parse(b"d6:lengthi-3e4:pathlee").unwrap();
    assert!(FileEntry::decode(&negative).is_err());
}

#[test]
fn torrent_wrong_types_and_missing_keys() {
    assert!(matches!(
        Torrent::decode(&parse(b"le").unwrap()),
        Err(BencodeDecodableError::WrongType(_))
    ));
    match Torrent::decode(&parse(b"d4:infodee").unwrap()) {
        Err(BencodeDecodableError::KeyNotFound(k)) => assert_eq!(k, "announce"),
        _ => panic!("expected a missing key"),
    }
    match Torrent::decode(&parse(b"d8:announce1:ae").unwrap()) {
        Err(BencodeDecodableError::KeyNotFound(k)) => assert_eq!(k, "info"),
        _ => panic!("expected a missing key"),
    }
}

#[test]
fn torrent_file_owns_buffer() {
    let bytes = torrent_bytes("http://t/a");
    let file = TorrentFile::from_bytes(bytes.clone()).unwrap();
    assert_eq!(file.bytes(), &bytes[..]);
    let t = file.torrent();
    assert_eq!(t.announce, b"http://t/a");
    assert_eq!(t.info_hash, INFO_HASH);
}

#[test]
fn torrent_file_reports_errors() {
    assert!(matches!(
        TorrentFile::from_bytes(b"d8:announce".to_vec()),
        Err(ReadTorrentError::StreamingError(_))
    ));
    assert!(matches!(
        TorrentFile::from_bytes(b"de".to_vec()),
        Err(ReadTorrentError::BencodeDecodableError(BencodeDecodableError::KeyNotFound(_)))
    ));
}

#[test]
fn zero_piece_length_checked_after_pieces() {
    let missing = b"d6:lengthi1e4:name1:f12:piece lengthi0ee";
    match Info::decode(&parse(missing).unwrap()) {
        Err(BencodeDecodableError::KeyNotFound(k)) => assert_eq!(k, "pieces"),
        _ => panic!("expected a missing key"),
    }
    let wrong = b"d6:lengthi1e4:name1:f12:piece lengthi0e6:piecesi3ee";
    assert!(matches!(
        Info::decode(&parse(wrong).unwrap()),
        Err(BencodeDecodableError::WrongType(_))
    ));
    let odd = b"d6:lengthi1e4:name1:f12:piece lengthi0e6:pieces3:abce";
    match Info::decode(&parse(odd).unwrap()) {
        Err(BencodeDecodableError::StructuralValidation(k, 3)) => assert_eq!(k, "pieces"),
        _ => panic!("expected a structural error on pieces"),
    }
}
