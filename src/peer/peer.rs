use vstd::prelude::*;

verus! {

/// A peer address from the compact format: an IPv4 address and a port.
#[derive(Clone, Copy, Debug)]
pub struct Peer {
    peer_ip: [u8; 4],
    peer_port: u16,
}

/// The model of a compact peer address.
pub struct PeerView {
    pub ip: Seq<u8>,
    pub port: int,
}

/// The address that six wire bytes give: four address bytes, then the port
/// in big-endian order.
pub open spec fn compact_peer(b: Seq<u8>) -> PeerView {
    PeerView { ip: b.subrange(0, 4), port: b[4] * 256 + b[5] }
}

impl View for Peer {
    type V = PeerView;

    closed spec fn view(&self) -> PeerView {
        PeerView { ip: self.peer_ip@, port: self.peer_port as int }
    }
}

impl Peer {
    /// Decodes one six-byte compact entry.
    pub fn decode(bytes: &[u8; 6]) -> (r: Peer)
        ensures
            r@ == compact_peer(bytes@),
    {
        let peer_ip: [u8; 4] = [bytes[0], bytes[1], bytes[2], bytes[3]];
        let peer_port: u16 = bytes[4] as u16 * 256 + bytes[5] as u16;
        let r = Peer { peer_ip, peer_port };
        assert(peer_ip@ =~= bytes@.subrange(0, 4));
        r
    }

    /// The IPv4 address bytes.
    pub fn ip(&self) -> (r: [u8; 4])
        ensures
            r@ == self@.ip,
    {
        self.peer_ip
    }

    /// The port.
    pub fn port(&self) -> (r: u16)
        ensures
            r as int == self@.port,
    {
        self.peer_port
    }
}

} // verus!
