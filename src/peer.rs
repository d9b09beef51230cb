use vstd::prelude::*;
use std::collections::HashMap;

pub mod peer;

verus! {

broadcast use vstd::std_specs::hash::group_hash_axioms;

/// Whether bit `index` of a piece bitfield is set; bit 0 is the high bit of
/// the first byte.
pub open spec fn bit_set(bitfield: Seq<u8>, index: int) -> bool {
    0 <= index && index / 8 < bitfield.len() && ((bitfield[index / 8] >> ((7 - index % 8) as u8))
        & 1u8) == 1u8
}

/// The state of one connection to a peer. Only the driver of that
/// connection changes it.
pub struct Peer {
    pub ip: [u8; 4],
    pub port: u16,
    pub peer_id: [u8; 20],
    /// Whether we choke the peer.
    pub am_choking: bool,
    /// Whether we want pieces from the peer.
    pub am_interested: bool,
    /// Whether the peer chokes us.
    pub peer_choking: bool,
    /// Whether the peer wants pieces from us.
    pub peer_interested: bool,
    pub bitfield: Vec<u8>,
    pub downloading: bool,
    pub uploading: bool,
    pub available_pieces: Vec<usize>,
    /// Requested blocks: offset to length.
    pub outstanding_requests: HashMap<u32, u32>,
    /// When the peer was last heard from, in seconds of the caller's clock.
    pub last_active: u64,
}

impl Peer {
    /// A new session: both sides choking and not interested, nothing known
    /// of the peer's pieces, nothing requested.
    pub fn new(ip: [u8; 4], port: u16, peer_id: [u8; 20], now: u64) -> (r: Peer)
        ensures
            r.ip == ip,
            r.port == port,
            r.peer_id == peer_id,
            r.am_choking,
            !r.am_interested,
            r.peer_choking,
            !r.peer_interested,
            r.bitfield@ == Seq::<u8>::empty(),
            !r.downloading,
            !r.uploading,
            r.available_pieces@ == Seq::<usize>::empty(),
            r.outstanding_requests@ == Map::<u32, u32>::empty(),
            r.last_active == now,
    {
        Peer {
            ip,
            port,
            peer_id,
            am_choking: true,
            am_interested: false,
            peer_choking: true,
            peer_interested: false,
            bitfield: Vec::new(),
            downloading: false,
            uploading: false,
            available_pieces: Vec::new(),
            outstanding_requests: HashMap::new(),
            last_active: now,
        }
    }

    pub fn set_bitfield(&mut self, bitfield: Vec<u8>)
        ensures
            *final(self) == (Peer { bitfield, ..*old(self) }),
    {
        self.bitfield = bitfield;
    }

    /// Whether the peer has announced piece `piece_index`.
    pub fn has_piece(&self, piece_index: usize) -> (r: bool)
        ensures
            r == bit_set(self.bitfield@, piece_index as int),
    {
        let byte_index = piece_index / 8;
        if byte_index >= self.bitfield.len() {
            return false;
        }
        let bit_index = (7 - piece_index % 8) as u8;
        (self.bitfield[byte_index] >> bit_index) & 1 == 1
    }

    pub fn set_am_choking(&mut self, choking: bool)
        ensures
            *final(self) == (Peer { am_choking: choking, ..*old(self) }),
    {
        self.am_choking = choking;
    }

    pub fn get_am_choking(&self) -> (r: bool)
        ensures
            r == self.am_choking,
    {
        self.am_choking
    }

    pub fn set_am_interested(&mut self, interested: bool)
        ensures
            *final(self) == (Peer { am_interested: interested, ..*old(self) }),
    {
        self.am_interested = interested;
    }

    pub fn get_am_interested(&self) -> (r: bool)
        ensures
            r == self.am_interested,
    {
        self.am_interested
    }

    pub fn set_peer_choking(&mut self, choking: bool)
        ensures
            *final(self) == (Peer { peer_choking: choking, ..*old(self) }),
    {
        self.peer_choking = choking;
    }

    pub fn get_peer_choking(&self) -> (r: bool)
        ensures
            r == self.peer_choking,
    {
        self.peer_choking
    }

    pub fn set_peer_interested(&mut self, interested: bool)
        ensures
            *final(self) == (Peer { peer_interested: interested, ..*old(self) }),
    {
        self.peer_interested = interested;
    }

    pub fn get_peer_interested(&self) -> (r: bool)
        ensures
            r == self.peer_interested,
    {
        self.peer_interested
    }

    pub fn update_available_pieces(&mut self, available_pieces: Vec<usize>)
        ensures
            *final(self) == (Peer { available_pieces, ..*old(self) }),
    {
        self.available_pieces = available_pieces;
    }

    pub fn get_available_pieces(&self) -> (r: &Vec<usize>)
        ensures
            r == &self.available_pieces,
    {
        &self.available_pieces
    }

    /// Records a request for `length` bytes at offset `begin`.
    pub fn add_outstanding_request(&mut self, begin: u32, length: u32)
        ensures
            final(self).outstanding_requests@ == old(self).outstanding_requests@.insert(
                begin,
                length,
            ),
            *final(self) == (Peer {
                outstanding_requests: final(self).outstanding_requests,
                ..*old(self)
            }),
    {
        self.outstanding_requests.insert(begin, length);
    }

    /// Forgets the request at offset `begin`.
    pub fn remove_outstanding_request(&mut self, begin: u32)
        ensures
            final(self).outstanding_requests@ == old(self).outstanding_requests@.remove(begin),
            *final(self) == (Peer {
                outstanding_requests: final(self).outstanding_requests,
                ..*old(self)
            }),
    {
        self.outstanding_requests.remove(&begin);
    }

    pub fn get_outstanding_requests(&self) -> (r: &HashMap<u32, u32>)
        ensures
            r == &self.outstanding_requests,
    {
        &self.outstanding_requests
    }

    pub fn set_downloading(&mut self, downloading: bool)
        ensures
            *final(self) == (Peer { downloading, ..*old(self) }),
    {
        self.downloading = downloading;
    }

    pub fn get_downloading(&self) -> (r: bool)
        ensures
            r == self.downloading,
    {
        self.downloading
    }

    pub fn set_uploading(&mut self, uploading: bool)
        ensures
            *final(self) == (Peer { uploading, ..*old(self) }),
    {
        self.uploading = uploading;
    }

    pub fn get_uploading(&self) -> (r: bool)
        ensures
            r == self.uploading,
    {
        self.uploading
    }
}

} // verus!
