use torrent_core::error::BencodeDecodableError;
use torrent_core::tracker::{
    apply_reply, refresh_due, TrackerError, TrackerRequest, TrackerResponse,
};
use torrent_core::value::{parse, BencodeDecodable};

fn response(peers: &[u8]) -> Vec<u8> {
    let mut b = format!("d8:intervali1800e5:peers{}:", peers.len()).into_bytes();
    b.extend_from_slice(peers);
    b.push(b'e');
    b
}

#[test]
fn peers_of_length_seven_rejected() {
    let body = response(&[1, 2, 3, 4, 5, 6, 7]);
    match TrackerResponse::decode(&parse(&body).unwrap()) {
        Err(BencodeDecodableError::StructuralValidation(key, n)) => {
            assert_eq!(key, "peers");
            assert_eq!(n, 7);
        }
        _ => panic!("expected a structural error"),
    }
}

#[test]
fn peers_of_length_twelve_give_two_in_order() {
    let body = response(&[10, 0, 0, 1, 0x1A, 0xE1, 192, 168, 1, 2, 0x00, 0x50]);
    let r = TrackerResponse::decode(&parse(&body).unwrap()).unwrap();
    assert_eq!(r.interval, 1800);
    assert_eq!(r.peers.len(), 2);
    assert_eq!(r.peers[0].ip(), [10, 0, 0, 1]);
    assert_eq!(r.peers[0].port(), 6881);
    assert_eq!(r.peers[1].ip(), [192, 168, 1, 2]);
    assert_eq!(r.peers[1].port(), 80);
}

#[test]
fn response_from_bytes_reports_each_error() {
    assert!(TrackerResponse::from_bytes(&response(&[])).unwrap().peers.is_empty());
    assert!(matches!(
        TrackerResponse::from_bytes(b"d8:interval"),
        Err(TrackerError::StreamingError(_))
    ));
    assert!(matches!(
        TrackerResponse::from_bytes(b"d5:peers0:e"),
        Err(TrackerError::BencodeError(BencodeDecodableError::KeyNotFound(_)))
    ));
    assert!(matches!(
        TrackerResponse::from_bytes(b"d8:intervali-5e5:peers0:e"),
        Err(TrackerError::BencodeError(BencodeDecodableError::WrongType(_)))
    ));
}

#[test]
fn url_encode_zero_bytes() {
    assert_eq!(TrackerRequest::url_encode(&[0u8; 20]), "%00".repeat(20));
}

#[test]
fn url_encode_keeps_unreserved() {
    assert_eq!(TrackerRequest::url_encode(&[0x61, 0x62, 0x63]), "abc");
    assert_eq!(TrackerRequest::url_encode(b"AZaz09-_.~"), "AZaz09-_.~");
    assert_eq!(TrackerRequest::url_encode(&[0xFF, b' ', b'/', 0x0A]), "%FF%20%2F%0A");
}

fn request<'a>(tracker: &'a [u8], hash: &'a [u8; 20], id: &'a [u8; 20]) -> TrackerRequest<'a> {
    TrackerRequest::new(tracker, hash, id, 6881, 12, 345, 67890, true).unwrap()
}

const PARAMS: &str = "info_hash=%00%00%00%00%00%00%00%00%00%00%00%00%00%00%00%00%00%00%00%00\
&peer_id=-MS0100-abcdefghijkl&port=6881&uploaded=12&downloaded=345&left=67890&compact=1";

#[test]
fn request_target_joins_with_question_mark_without_query() {
    let id = *b"-MS0100-abcdefghijkl";
    let hash = [0u8; 20];
    let r = request(b"http://t/announce", &hash, &id);
    assert_eq!(r.request_target("/announce", None), format!("/announce?{}", PARAMS));
}

#[test]
fn request_target_joins_with_ampersand_after_query() {
    let id = *b"-MS0100-abcdefghijkl";
    let hash = [0u8; 20];
    let r = request(b"http://t/announce?key=1", &hash, &id);
    assert_eq!(r.request_target("/announce", Some("key=1")), format!("/announce?key=1&{}", PARAMS));
}

#[test]
fn build_url_without_query_uses_question_mark() {
    let id = *b"-MS0100-abcdefghijkl";
    let hash = [0u8; 20];
    let r = request(b"http://tracker.example:6969/announce", &hash, &id);
    let uri = r.build_url().unwrap();
    assert_eq!(uri.to_string(), format!("http://tracker.example:6969/announce?{}", PARAMS));
}

#[test]
fn build_url_with_query_uses_ampersand() {
    let id = *b"-MS0100-abcdefghijkl";
    let hash = [0u8; 20];
    let r = TrackerRequest::new(b"http://t/a?passkey=xyz", &hash, &id, 1, 0, 0, 0, false).unwrap();
    let uri = r.build_url().unwrap();
    assert_eq!(uri.path(), "/a");
    assert!(uri.to_string().starts_with("http://t/a?passkey=xyz&info_hash=%00"));
    assert!(uri.to_string().ends_with("&port=1&uploaded=0&downloaded=0&left=0&compact=0"));
}

#[test]
fn build_url_rejects_malformed_tracker() {
    let id = [b'x'; 20];
    let hash = [0u8; 20];
    let r = TrackerRequest::new(b"http://bad host/", &hash, &id, 1, 0, 0, 0, true).unwrap();
    assert!(matches!(r.build_url(), Err(TrackerError::InvalidUri(_))));
    let empty = TrackerRequest::new(b"", &hash, &id, 1, 0, 0, 0, true).unwrap();
    assert!(matches!(empty.build_url(), Err(TrackerError::InvalidUri(_))));
}

#[test]
fn refresh_only_after_interval() {
    assert!(!refresh_due(10, 1800));
    assert!(!refresh_due(1800, 1800));
    assert!(refresh_due(1801, 1800));
}

#[test]
fn build_url_keeps_existing_query() {
    let id = *b"-MS0100-abcdefghijkl";
    let hash = [0u8; 20];
    let r = TrackerRequest::new(b"http://t/a?x=1", &hash, &id, 6881, 0, 0, 100, true).unwrap();
    let expected = format!(
        "http://t/a?x=1&info_hash={}&peer_id=-MS0100-abcdefghijkl&port=6881&uploaded=0&downloaded=0&left=100&compact=1",
        "%00".repeat(20)
    );
    assert_eq!(r.build_url().unwrap().to_string(), expected);
}

#[test]
fn build_url_without_query_exact() {
    let id = *b"-MS0100-abcdefghijkl";
    let hash = [0u8; 20];
    let r = TrackerRequest::new(b"http://t/a", &hash, &id, 6881, 0, 0, 100, true).unwrap();
    let expected = format!(
        "http://t/a?info_hash={}&peer_id=-MS0100-abcdefghijkl&port=6881&uploaded=0&downloaded=0&left=100&compact=1",
        "%00".repeat(20)
    );
    let u = r.build_url().unwrap();
    assert_eq!(u.to_string(), expected);
    assert_eq!(u.scheme_str(), Some("http"));
    assert_eq!(u.authority().unwrap().as_str(), "t");
    assert_eq!(u.path(), "/a");
}

#[test]
fn build_url_without_path_uses_slash() {
    let hash = [0u8; 20];
    let r = TrackerRequest::new(b"http://t", &hash, &hash, 80, 0, 0, 0, false).unwrap();
    let expected = format!(
        "http://t/?info_hash={}&peer_id={}&port=80&uploaded=0&downloaded=0&left=0&compact=0",
        "%00".repeat(20),
        "%00".repeat(20)
    );
    assert_eq!(r.build_url().unwrap().to_string(), expected);
}

#[test]
fn build_url_rejects_authority_without_scheme() {
    let hash = [0u8; 20];
    let r = TrackerRequest::new(b"t:80", &hash, &hash, 80, 0, 0, 0, false).unwrap();
    assert!(matches!(r.build_url(), Err(TrackerError::InvalidURIParts(_))));
}

#[test]
fn failed_reply_keeps_previous_response() {
    let mut current = TrackerResponse::from_bytes(&response(&[1, 2, 3, 4, 0, 80])).unwrap();
    let failed = apply_reply(&mut current, TrackerResponse::from_bytes(b"x"));
    assert!(matches!(failed, Err(TrackerError::StreamingError(_))));
    assert_eq!(current.peers.len(), 1);
    assert_eq!(current.interval, 1800);
    let next = TrackerResponse::from_bytes(&response(&[])).unwrap();
    assert!(apply_reply(&mut current, Ok(next)).is_ok());
    assert!(current.peers.is_empty());
}
