use vstd::prelude::*;
use vstd::string::StringExecFns;
use crate::error::{BencodeDecodableError, DecodeFailure};
use crate::value::BStreamingError;
use crate::peer::peer::{compact_peer, Peer, PeerView};
use crate::value::{
    bytes_of, dict_of, field, get_struct_value, parse, parse_spec, u64_of, BValue,
    BencodeDecodable, Value,
};

verus! {

/// The model of a tracker response.
pub struct TrackerResponseView {
    pub interval: int,
    pub peers: Seq<PeerView>,
}

/// The peers of a compact peer string, six bytes each, in input order.
pub open spec fn compact_peers(b: Seq<u8>) -> Seq<PeerView> {
    Seq::new(b.len() / 6, |i: int| compact_peer(b.subrange(6 * i, 6 * i + 6)))
}

/// A tracker response decoded from a value.
pub open spec fn response_spec(v: BValue) -> Result<TrackerResponseView, DecodeFailure> {
    match dict_of(v) {
        Err(e) => Err(e),
        Ok(d) => match field(d, "interval") {
            Err(e) => Err(e),
            Ok(ie) => match u64_of(ie.value) {
                Err(e) => Err(e),
                Ok(interval) => match field(d, "peers") {
                    Err(e) => Err(e),
                    Ok(pe) => match bytes_of(pe.value) {
                        Err(e) => Err(e),
                        Ok(p) => if p.len() % 6 != 0 {
                            Err(DecodeFailure::StructuralValidation("peers"@, p.len() as int))
                        } else {
                            Ok(TrackerResponseView { interval, peers: compact_peers(p) })
                        },
                    },
                },
            },
        },
    }
}

/// A tracker's reply: the poll interval and the peers.
#[derive(Debug)]
pub struct TrackerResponse {
    /// Seconds to wait between announces.
    pub interval: u64,
    pub peers: Vec<Peer>,
}

impl View for TrackerResponse {
    type V = TrackerResponseView;

    open spec fn view(&self) -> TrackerResponseView {
        TrackerResponseView {
            interval: self.interval as int,
            peers: self.peers@.map_values(|p: Peer| p@),
        }
    }
}

/// Splits a compact peer string into addresses, in input order.
fn decode_peers(b: &[u8]) -> (r: Vec<Peer>)
    requires
        b@.len() % 6 == 0,
    ensures
        r@.map_values(|p: Peer| p@) == compact_peers(b@),
{
    let mut peers: Vec<Peer> = Vec::new();
    let mut i: usize = 0;
    let len = b.len();
    let n = len / 6;
    while i < n
        invariant
            len == b@.len(),
            n == b@.len() / 6,
            b@.len() % 6 == 0,
            i <= n,
            peers@.len() == i,
            forall|j: int|
                0 <= j < i ==> #[trigger] peers@[j]@ == compact_peer(b@.subrange(6 * j, 6 * j + 6)),
        decreases n - i,
    {
        assert(6 * i + 6 <= len) by (nonlinear_arith)
            requires
                i < n,
                n == len / 6,
        ;
        let s = 6 * i;
        let chunk: [u8; 6] = [b[s], b[s + 1], b[s + 2], b[s + 3], b[s + 4], b[s + 5]];
        assert(chunk@ =~= b@.subrange(6 * i as int, 6 * i as int + 6));
        peers.push(Peer::decode(&chunk));
        i = i + 1;
    }
    assert(peers@.map_values(|p: Peer| p@) =~= compact_peers(b@));
    peers
}


impl<'a> BencodeDecodable<'a> for TrackerResponse {
    open spec fn decoded(v: BValue) -> Result<TrackerResponseView, DecodeFailure> {
        response_spec(v)
    }

    /// Decodes a tracker reply: `interval`, and `peers` in the compact format.
    fn decode(b: &Value) -> (r: Result<TrackerResponse, BencodeDecodableError>)
    {
        let dict = b.get_struct()?;
        let interval = get_struct_value("interval", dict)?.value.get_u64()?;
        let peers_bytes = get_struct_value("peers", dict)?.value.get_str()?;
        if peers_bytes.len() % 6 != 0 {
            return Err(
                BencodeDecodableError::StructuralValidation(
                    "peers".to_owned(),
                    peers_bytes.len() as u64,
                ),
            );
        }
        let peers = decode_peers(peers_bytes);
        Ok(TrackerResponse { interval, peers })
    }
}

#[verifier::external_type_specification]
#[verifier::external_body]
pub struct ExUri(http::Uri);

#[verifier::external_type_specification]
#[verifier::external_body]
pub struct ExInvalidUri(http::uri::InvalidUri);

#[verifier::external_type_specification]
#[verifier::external_body]
pub struct ExInvalidUriParts(http::uri::InvalidUriParts);

/// Why a tracker exchange failed on this side of the transport.
#[derive(Debug)]
pub enum TrackerError {
    /// The tracker URL, or the request target built on it, is not a URI.
    InvalidUri(http::uri::InvalidUri),
    /// The parts of the request URI do not form a URI.
    InvalidURIParts(http::uri::InvalidUriParts),
    /// The reply does not have the shape of a tracker response.
    BencodeError(BencodeDecodableError),
    /// The reply is not one well-formed encoded value.
    StreamingError(BStreamingError),
}

/// Whether `http` accepts the bytes as a URI.
pub uninterp spec fn uri_accepts(b: Seq<u8>) -> bool;

/// The path that `http` reads from the URI written by the bytes.
pub uninterp spec fn uri_path(b: Seq<u8>) -> Seq<char>;

/// The query that `http` reads from the URI written by the bytes.
pub uninterp spec fn uri_query(b: Seq<u8>) -> Option<Seq<char>>;

/// The scheme that `http` reads from the URI written by the bytes.
pub uninterp spec fn uri_scheme(b: Seq<u8>) -> Option<Seq<char>>;

/// The authority that `http` reads from the URI written by the bytes.
pub uninterp spec fn uri_authority(b: Seq<u8>) -> Option<Seq<char>>;

/// Whether `http` accepts the text as a request target (path and query).
pub uninterp spec fn target_accepts(t: Seq<char>) -> bool;

/// The scheme of a URI, as `Uri::scheme_str` gives it.
pub uninterp spec fn scheme_of(u: http::Uri) -> Option<Seq<char>>;

/// The authority of a URI, as `Uri::authority` gives it.
pub uninterp spec fn authority_of(u: http::Uri) -> Option<Seq<char>>;

/// The path-and-query text of a URI, as `Uri::path_and_query` gives it
/// (empty where there is none).
pub uninterp spec fn target_of(u: http::Uri) -> Seq<char>;

/// Text without a `#`.
pub open spec fn hash_free(s: Seq<char>) -> bool {
    forall|i: int| 0 <= i < s.len() ==> s[i] != '#'
}

/// Relies on `http::Uri::try_from(&[u8])`, `Uri::path`, `Uri::query`,
/// `Uri::scheme_str` and `Uri::authority`: parses the bytes, then reads the
/// path and the query after `?`. Both stop before any `#`, where `http`
/// cuts off the fragment.
#[verifier::external_body]
fn split_uri(b: &[u8]) -> (r: Result<(http::Uri, String, Option<String>), http::uri::InvalidUri>)
    ensures
        r is Ok == uri_accepts(b@),
        match r {
            Ok((u, p, q)) => {
                &&& p@ == uri_path(b@)
                &&& hash_free(p@)
                &&& match q {
                    Some(s) => uri_query(b@) == Some(s@) && hash_free(s@),
                    None => uri_query(b@) is None,
                }
                &&& scheme_of(u) == uri_scheme(b@)
                &&& authority_of(u) == uri_authority(b@)
            },
            Err(_) => true,
        },
{
    let u = http::Uri::try_from(b)?;
    let path = u.path().to_owned();
    let query = u.query().map(|q| q.to_owned());
    Ok((u, path, query))
}

/// Relies on `http::uri::PathAndQuery::try_from(String)`, `Uri::into_parts`
/// and `Uri::from_parts`: replaces the path and query of `u` with `target`.
/// The parts fit together exactly when `u` has both a scheme and an
/// authority, or neither; scheme and authority are kept, and a non-empty
/// target without `#` is kept as it is.
#[verifier::external_body]
fn set_target(u: http::Uri, target: String) -> (r: Result<http::Uri, TrackerError>)
    ensures
        !target_accepts(target@) <==> r matches Err(TrackerError::InvalidUri(_)),
        r is Ok <==> (target_accepts(target@) && (scheme_of(u) is Some <==> authority_of(u) is Some)),
        r matches Err(e) ==> e is InvalidUri || e is InvalidURIParts,
        r matches Ok(v) ==> scheme_of(v) == scheme_of(u) && authority_of(v) == authority_of(u),
        r matches Ok(v) ==> (target@.len() > 0 && hash_free(target@) ==> target_of(v) == target@),
{
    let mut parts = u.into_parts();
    let pq = http::uri::PathAndQuery::try_from(target).map_err(TrackerError::InvalidUri)?;
    parts.path_and_query = Some(pq);
    http::Uri::from_parts(parts).map_err(TrackerError::InvalidURIParts)
}

/// The decimal digit character for `d`.
pub open spec fn digit_char(d: int) -> char {
    ((d + 48) as u8) as char
}

/// The decimal form of `n`, without sign or leading zeros.
pub open spec fn decimal(n: nat) -> Seq<char>
    decreases n,
{
    if n < 10 {
        seq![digit_char(n as int)]
    } else {
        decimal(n / 10) + seq![digit_char((n % 10) as int)]
    }
}

/// Relies on `itoa::Buffer::format`: the decimal form of the number.
#[verifier::external_body]
fn decimal_string(n: u64) -> (r: String)
    ensures
        r@ == decimal(n as nat),
{
    let mut buffer = itoa::Buffer::new();
    buffer.format(n).to_owned()
}

/// Relies on `String::push`: appends one character.
#[verifier::external_body]
fn push_char(s: &mut String, c: char)
    ensures
        final(s)@ == old(s)@.push(c),
{
    s.push(c)
}

/// Bytes that stand for themselves in a query: ASCII letters and digits,
/// and `-`, `_`, `.`, `~`.
pub open spec fn unreserved(b: u8) -> bool {
    (48 <= b <= 57) || (65 <= b <= 90) || (97 <= b <= 122) || b == 45 || b == 95 || b == 46
        || b == 126
}

/// The uppercase hexadecimal digit for `d` in 0..16.
pub open spec fn hex_digit(d: int) -> char {
    if d < 10 {
        ((d + 48) as u8) as char
    } else {
        ((d + 55) as u8) as char
    }
}

/// How one byte is written in a query.
pub open spec fn encode_byte(b: u8) -> Seq<char> {
    if unreserved(b) {
        seq![b as char]
    } else {
        seq!['%', hex_digit(b as int / 16), hex_digit(b as int % 16)]
    }
}

/// The percent-encoding of a byte string.
pub open spec fn url_encoded(s: Seq<u8>) -> Seq<char>
    decreases s.len(),
{
    if s.len() == 0 {
        Seq::empty()
    } else {
        url_encoded(s.drop_last()) + encode_byte(s.last())
    }
}

/// The model of a tracker request.
pub struct TrackerRequestView {
    pub tracker: Seq<u8>,
    pub url_info_hash: Seq<char>,
    pub url_peer_id: Seq<char>,
    pub port: int,
    pub uploaded: int,
    pub downloaded: int,
    pub left: int,
    pub compact: bool,
}

/// The announce parameters, in their fixed order.
pub open spec fn announce_query(r: TrackerRequestView) -> Seq<char> {
    "info_hash="@ + r.url_info_hash + "&peer_id="@ + r.url_peer_id + "&port="@ + decimal(
        r.port as nat,
    ) + "&uploaded="@ + decimal(r.uploaded as nat) + "&downloaded="@ + decimal(
        r.downloaded as nat,
    ) + "&left="@ + decimal(r.left as nat) + "&compact="@ + if r.compact {
        "1"@
    } else {
        "0"@
    }
}

/// The request target: the tracker's path, its query if it has one, then
/// the announce parameters, joined by `&` after an existing query and by
/// `?` otherwise.
pub open spec fn announce_target(
    r: TrackerRequestView,
    path: Seq<char>,
    query: Option<Seq<char>>,
) -> Seq<char> {
    match query {
        Some(q) => path + "?"@ + q + "&"@ + announce_query(r),
        None => path + "?"@ + announce_query(r),
    }
}

/// Joining two texts without `#` gives a text without `#`.
pub broadcast proof fn lemma_hash_free_concat(a: Seq<char>, b: Seq<char>)
    requires
        hash_free(a),
        hash_free(b),
    ensures
        #[trigger] hash_free(a + b),
{
    assert forall|i: int| 0 <= i < (a + b).len() implies (a + b)[i] != '#' by {
        if i >= a.len() {
            assert((a + b)[i] == b[i - a.len()]);
        }
    }
}

proof fn lemma_url_encoded_hash_free(s: Seq<u8>)
    ensures
        hash_free(url_encoded(s)),
    decreases s.len(),
{
    if s.len() > 0 {
        lemma_url_encoded_hash_free(s.drop_last());
        let b = s.last();
        assert(hash_free(encode_byte(b))) by {
            if !unreserved(b) {
                let e = encode_byte(b);
                assert(e[1] == hex_digit(b as int / 16));
                assert(e[2] == hex_digit(b as int % 16));
            }
        }
        lemma_hash_free_concat(url_encoded(s.drop_last()), encode_byte(b));
    }
}

proof fn lemma_decimal_hash_free(n: nat)
    ensures
        hash_free(decimal(n)),
    decreases n,
{
    if n >= 10 {
        lemma_decimal_hash_free(n / 10);
        lemma_hash_free_concat(decimal(n / 10), seq![digit_char((n % 10) as int)]);
    }
}

proof fn lemma_announce_target(r: TrackerRequestView, path: Seq<char>, query: Option<Seq<char>>)
    requires
        hash_free(path),
        query matches Some(q) ==> hash_free(q),
        hash_free(r.url_info_hash),
        hash_free(r.url_peer_id),
    ensures
        hash_free(announce_target(r, path, query)),
        announce_target(r, path, query).len() > 0,
{
    broadcast use lemma_hash_free_concat;

    reveal_strlit("info_hash=");
    reveal_strlit("&peer_id=");
    reveal_strlit("&port=");
    reveal_strlit("&uploaded=");
    reveal_strlit("&downloaded=");
    reveal_strlit("&left=");
    reveal_strlit("&compact=");
    reveal_strlit("1");
    reveal_strlit("0");
    reveal_strlit("?");
    reveal_strlit("&");
    lemma_decimal_hash_free(r.port as nat);
    lemma_decimal_hash_free(r.uploaded as nat);
    lemma_decimal_hash_free(r.downloaded as nat);
    lemma_decimal_hash_free(r.left as nat);
}

/// An announce request to a tracker; immutable once built.
#[derive(Debug)]
pub struct TrackerRequest<'a> {
    tracker: &'a [u8],
    url_info_hash: String,
    url_peer_id: String,
    port: u16,
    uploaded: u64,
    downloaded: u64,
    left: u64,
    compact: bool,
}

impl<'a> View for TrackerRequest<'a> {
    type V = TrackerRequestView;

    closed spec fn view(&self) -> TrackerRequestView {
        TrackerRequestView {
            tracker: self.tracker@,
            url_info_hash: self.url_info_hash@,
            url_peer_id: self.url_peer_id@,
            port: self.port as int,
            uploaded: self.uploaded as int,
            downloaded: self.downloaded as int,
            left: self.left as int,
            compact: self.compact,
        }
    }
}

impl<'a> TrackerRequest<'a> {
    /// The percent-encoded fields hold no `#`.
    #[verifier::type_invariant]
    closed spec fn encoded_fields(&self) -> bool {
        hash_free(self.url_info_hash@) && hash_free(self.url_peer_id@)
    }

    /// Builds a request; the info hash and the peer id are kept
    /// percent-encoded.
    pub fn new(
        tracker: &'a [u8],
        info_hash: &'a [u8; 20],
        peer_id: &'a [u8; 20],
        port: u16,
        uploaded: u64,
        downloaded: u64,
        left: u64,
        compact: bool,
    ) -> (r: Result<Self, TrackerError>)
        ensures
            r matches Ok(q) && q@ == (TrackerRequestView {
                tracker: tracker@,
                url_info_hash: url_encoded(info_hash@),
                url_peer_id: url_encoded(peer_id@),
                port: port as int,
                uploaded: uploaded as int,
                downloaded: downloaded as int,
                left: left as int,
                compact,
            }),
    {
        proof {
            lemma_url_encoded_hash_free(info_hash@);
            lemma_url_encoded_hash_free(peer_id@);
        }
        Ok(
            Self {
                tracker,
                url_info_hash: Self::url_encode(vstd::array::array_as_slice(info_hash)),
                url_peer_id: Self::url_encode(vstd::array::array_as_slice(peer_id)),
                port,
                uploaded,
                downloaded,
                left,
                compact,
            },
        )
    }

    /// Percent-encodes raw bytes: unreserved bytes stay, every other byte
    /// becomes `%XX` in uppercase hexadecimal.
    pub fn url_encode(bytes: &[u8]) -> (r: String)
        ensures
            r@ == url_encoded(bytes@),
    {
        let mut result = String::new();
        let mut i: usize = 0;
        let n = bytes.len();
        assert(bytes@.subrange(0, 0) =~= Seq::<u8>::empty());
        while i < n
            invariant
                i <= n,
                n == bytes@.len(),
                result@ == url_encoded(bytes@.subrange(0, i as int)),
            decreases n - i,
        {
            let b = bytes[i];
            assert(bytes@.subrange(0, i + 1).drop_last() =~= bytes@.subrange(0, i as int));
            if (48 <= b && b <= 57) || (65 <= b && b <= 90) || (97 <= b && b <= 122) || b == 45
                || b == 95 || b == 46 || b == 126 {
                push_char(&mut result, b as char);
            } else {
                push_char(&mut result, '%');
                let hi = b / 16;
                let lo = b % 16;
                let c1: u8 = if hi < 10 {
                    hi + 48
                } else {
                    hi + 55
                };
                let c2: u8 = if lo < 10 {
                    lo + 48
                } else {
                    lo + 55
                };
                push_char(&mut result, c1 as char);
                push_char(&mut result, c2 as char);
            }
            i = i + 1;
        }
        assert(bytes@.subrange(0, n as int) =~= bytes@);
        result
    }

    /// The request target for a tracker URL with the given path and query.
    #[verifier::rlimit(40)]
    pub fn request_target(&self, path: &str, query: Option<&str>) -> (r: String)
        ensures
            r@ == announce_target(
                self@,
                path@,
                match query {
                    Some(q) => Some(q@),
                    None => None,
                },
            ),
    {
        let mut t = String::from_str(path);
        match query {
            Some(q) => {
                t.append("?");
                t.append(q);
                t.append("&");
            },
            None => {
                t.append("?");
            },
        }
        t.append("info_hash=");
        t.append(self.url_info_hash.as_str());
        t.append("&peer_id=");
        t.append(self.url_peer_id.as_str());
        t.append("&port=");
        t.append(decimal_string(self.port as u64).as_str());
        t.append("&uploaded=");
        t.append(decimal_string(self.uploaded).as_str());
        t.append("&downloaded=");
        t.append(decimal_string(self.downloaded).as_str());
        t.append("&left=");
        t.append(decimal_string(self.left).as_str());
        t.append("&compact=");
        if self.compact {
            t.append("1");
        } else {
            t.append("0");
        }
        t
    }

    /// Builds the announce URI: the tracker URL with its request target
    /// replaced by `announce_target`; scheme and authority are kept. It
    /// succeeds exactly when `http` accepts the tracker URL and the target,
    /// and the tracker URL has both a scheme and an authority or neither.
    pub fn build_url(&self) -> (r: Result<http::Uri, TrackerError>)
        ensures
            !uri_accepts(self@.tracker) ==> r matches Err(TrackerError::InvalidUri(_)),
            uri_accepts(self@.tracker) ==> (r matches Err(TrackerError::InvalidUri(_))
                <==> !target_accepts(
                announce_target(self@, uri_path(self@.tracker), uri_query(self@.tracker)),
            )),
            r is Ok <==> (uri_accepts(self@.tracker) && target_accepts(
                announce_target(self@, uri_path(self@.tracker), uri_query(self@.tracker)),
            ) && (uri_scheme(self@.tracker) is Some <==> uri_authority(self@.tracker) is Some)),
            r matches Ok(u) ==> target_of(u) == announce_target(
                self@,
                uri_path(self@.tracker),
                uri_query(self@.tracker),
            ),
            r matches Ok(u) ==> scheme_of(u) == uri_scheme(self@.tracker) && authority_of(u)
                == uri_authority(self@.tracker),
            r matches Err(e) ==> e is InvalidUri || e is InvalidURIParts,
    {
        proof {
            use_type_invariant(self);
        }
        let (uri, path, query) = match split_uri(self.tracker) {
            Ok(x) => x,
            Err(e) => {
                return Err(TrackerError::InvalidUri(e));
            },
        };
        let target = match query {
            Some(q) => self.request_target(path.as_str(), Some(q.as_str())),
            None => self.request_target(path.as_str(), None),
        };
        proof {
            lemma_announce_target(self@, uri_path(self@.tracker), uri_query(self@.tracker));
        }
        set_target(uri, target)
    }
}


/// The model of reading a tracker reply body.
pub enum ResponseFailure {
    Syntax,
    Decode(DecodeFailure),
}

/// What decoding a whole reply body gives.
pub open spec fn read_response_spec(b: Seq<u8>) -> Result<TrackerResponseView, ResponseFailure> {
    match parse_spec(b) {
        None => Err(ResponseFailure::Syntax),
        Some(v) => match response_spec(v) {
            Ok(t) => Ok(t),
            Err(e) => Err(ResponseFailure::Decode(e)),
        },
    }
}

impl TrackerResponse {
    /// Parses and decodes a reply body.
    pub fn from_bytes(body: &[u8]) -> (r: Result<TrackerResponse, TrackerError>)
        ensures
            match r {
                Ok(t) => read_response_spec(body@) == Ok::<TrackerResponseView, ResponseFailure>(
                    t@,
                ),
                Err(TrackerError::StreamingError(_)) => read_response_spec(body@) == Err::<
                    TrackerResponseView,
                    ResponseFailure,
                >(ResponseFailure::Syntax),
                Err(TrackerError::BencodeError(e)) => read_response_spec(body@) == Err::<
                    TrackerResponseView,
                    ResponseFailure,
                >(ResponseFailure::Decode(e@)),
                Err(_) => false,
            },
    {
        match parse(body) {
            Err(e) => Err(TrackerError::StreamingError(e)),
            Ok(root) => match TrackerResponse::decode(&root) {
                Ok(t) => Ok(t),
                Err(e) => Err(TrackerError::BencodeError(e)),
            },
        }
    }
}

/// Keeps a new reply in place of the remembered one; after a failed
/// announce the remembered reply stays as it was and the error is handed on.
pub fn apply_reply(current: &mut TrackerResponse, reply: Result<TrackerResponse, TrackerError>) -> (r:
    Result<(), TrackerError>)
    ensures
        match reply {
            Ok(t) => *final(current) == t && r is Ok,
            Err(e) => *final(current) == *old(current) && r == Err::<(), TrackerError>(e),
        },
{
    match reply {
        Ok(t) => {
            *current = t;
            Ok(())
        },
        Err(e) => Err(e),
    }
}

/// Whether a new announce is due: only once more seconds have passed since
/// the last one than the interval the tracker asked for.
pub fn refresh_due(elapsed_secs: u64, interval: u64) -> (r: bool)
    ensures
        r == (elapsed_secs > interval),
{
    elapsed_secs > interval
}


/// The announce parameters are joined to a tracker URL that already has a
/// query with `&`, and to one without a query with `?`.
pub proof fn query_join(r: TrackerRequestView, path: Seq<char>, query: Option<Seq<char>>)
    ensures
        query matches Some(q) ==> announce_target(r, path, query) == path + "?"@ + q + "&"@
            + announce_query(r),
        query is None ==> announce_target(r, path, query) == path + "?"@ + announce_query(r),
{
}

} // verus!
