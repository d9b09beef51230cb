use torrent_core::peer::peer::Peer as PeerAddress;
use torrent_core::peer::Peer;
use torrent_core::peer_id::{get_peer_id, peer_id_from};

#[test]
fn compact_peer_decodes_big_endian_port() {
    let p = PeerAddress::decode(&[127, 0, 0, 1, 0x1F, 0x90]);
    assert_eq!(p.ip(), [127, 0, 0, 1]);
    assert_eq!(p.port(), 8080);
}

#[test]
fn new_session_starts_choked_and_uninterested() {
    let p = Peer::new([1, 2, 3, 4], 6881, [9; 20], 77);
    assert!(p.get_am_choking());
    assert!(!p.get_am_interested());
    assert!(p.get_peer_choking());
    assert!(!p.get_peer_interested());
    assert!(!p.get_downloading());
    assert!(!p.get_uploading());
    assert!(p.get_available_pieces().is_empty());
    assert!(p.get_outstanding_requests().is_empty());
    assert_eq!(p.last_active, 77);
    assert!(!p.has_piece(0));
}

#[test]
fn session_setters_change_one_flag() {
    let mut p = Peer::new([1, 2, 3, 4], 6881, [9; 20], 0);
    p.set_am_choking(false);
    p.set_am_interested(true);
    p.set_peer_choking(false);
    p.set_peer_interested(true);
    p.set_downloading(true);
    p.set_uploading(true);
    p.update_available_pieces(vec![3, 1]);
    assert!(!p.get_am_choking());
    assert!(p.get_am_interested());
    assert!(!p.get_peer_choking());
    assert!(p.get_peer_interested());
    assert!(p.get_downloading());
    assert!(p.get_uploading());
    assert_eq!(p.get_available_pieces(), &vec![3, 1]);
}

#[test]
fn bitfield_high_bit_first() {
    let mut p = Peer::new([1, 2, 3, 4], 6881, [9; 20], 0);
    p.set_bitfield(vec![0b1000_0001, 0b0100_0000]);
    assert!(p.has_piece(0));
    assert!(!p.has_piece(1));
    assert!(p.has_piece(7));
    assert!(!p.has_piece(8));
    assert!(p.has_piece(9));
    assert!(!p.has_piece(16));
    assert!(!p.has_piece(usize::MAX));
}

#[test]
fn outstanding_requests_by_offset() {
    let mut p = Peer::new([1, 2, 3, 4], 6881, [9; 20], 0);
    p.add_outstanding_request(0, 16384);
    p.add_outstanding_request(16384, 100);
    p.add_outstanding_request(0, 512);
    assert_eq!(p.get_outstanding_requests().len(), 2);
    assert_eq!(p.get_outstanding_requests().get(&0), Some(&512));
    p.remove_outstanding_request(0);
    assert_eq!(p.get_outstanding_requests().get(&0), None);
    assert_eq!(p.get_outstanding_requests().get(&16384), Some(&100));
}

#[test]
fn peer_id_has_prefix_and_printable_tail() {
    let id = get_peer_id();
    assert_eq!(&id[..8], b"-MS0100-");
    assert!(id[8..].iter().all(|b| (33..=126).contains(b)));
    assert_eq!(&peer_id_from(b"abcdefghijkl"), b"-MS0100-abcdefghijkl");
}
