use vstd::prelude::*;
use rand::Rng;

verus! {

/// The fixed prefix of this client's peer ids: `-MS0100-`, Azureus style
/// (client `MS`, version 1.0.0).
pub open spec fn peer_id_prefix() -> Seq<u8> {
    seq![45u8, 77u8, 83u8, 48u8, 49u8, 48u8, 48u8, 45u8]
}

/// Relies on `rand::Rng::random_range` on the thread-local generator: a
/// value drawn from the inclusive range, which must not be empty.
#[verifier::external_body]
fn random_in(lo: u8, hi: u8) -> (r: u8)
    requires
        lo <= hi,
    ensures
        lo <= r <= hi,
{
    rand::rng().random_range(lo..=hi)
}

/// The peer id made of the fixed prefix and twelve given bytes.
pub fn peer_id_from(tail: &[u8; 12]) -> (r: [u8; 20])
    ensures
        r@ == peer_id_prefix() + tail@,
{
    let r: [u8; 20] = [
        45,
        77,
        83,
        48,
        49,
        48,
        48,
        45,
        tail[0],
        tail[1],
        tail[2],
        tail[3],
        tail[4],
        tail[5],
        tail[6],
        tail[7],
        tail[8],
        tail[9],
        tail[10],
        tail[11],
    ];
    assert(r@ =~= peer_id_prefix() + tail@);
    r
}

/// A fresh peer id: the fixed prefix, then twelve random printable ASCII
/// bytes. Call it once at startup and pass the value on.
pub fn get_peer_id() -> (r: [u8; 20])
    ensures
        r@.subrange(0, 8) == peer_id_prefix(),
        forall|i: int| 8 <= i < 20 ==> 33 <= #[trigger] r@[i] <= 126,
{
    let mut tail: [u8; 12] = [0; 12];
    let mut i: usize = 0;
    while i < 12
        invariant
            i <= 12,
            forall|j: int| 0 <= j < i ==> 33 <= #[trigger] tail@[j] <= 126,
        decreases 12 - i,
    {
        tail[i] = random_in(33, 126);
        i = i + 1;
    }
    let r = peer_id_from(&tail);
    assert(r@.subrange(0, 8) =~= peer_id_prefix());
    r
}

} // verus!
