use vstd::prelude::*;
use vstd::slice::slice_subrange;
use vstd::string::StringSliceAdditionalSpecFns;
use crate::canonical::{parsed_bytes_are_canonical, well_formed};
use crate::error::{BencodeDecodableError, DecodeFailure, Kind};

verus! {

/// The mathematical model of a decoded value.
pub enum BValue {
    Int(int),
    Bytes(Seq<u8>),
    List(Seq<BValue>),
    Dict(Seq<BEntry>),
}

/// One dictionary entry of the model: its key, its value, and the exact
/// bytes that encoded the value in the source buffer.
pub struct BEntry {
    pub key: Seq<u8>,
    pub value: BValue,
    pub raw: Seq<u8>,
}

/// A decoded value whose byte strings borrow from the source buffer.
#[derive(Debug)]
pub enum Value<'a> {
    Integer(i64),
    Bytes(&'a [u8]),
    List(Vec<Value<'a>>),
    Dict(Vec<Entry<'a>>),
}

/// A dictionary entry; `raw` is the exact span of the source buffer that
/// encoded `value`.
#[derive(Debug)]
pub struct Entry<'a> {
    pub key: &'a [u8],
    pub value: Value<'a>,
    pub raw: &'a [u8],
}

impl<'a> View for Value<'a> {
    type V = BValue;

    open spec fn view(&self) -> BValue
        decreases self,
    {
        proof {
            broadcast use vstd::std_specs::vec::axiom_vec_index_decreases;
        }
        match self {
            Value::Integer(n) => BValue::Int(*n as int),
            Value::Bytes(b) => BValue::Bytes(b@),
            Value::List(l) => BValue::List(
                Seq::new(
                    l.len() as nat,
                    |i: int|
                        if 0 <= i < l.len() {
                            l[i]@
                        } else {
                            BValue::Int(0)
                        },
                ),
            ),
            Value::Dict(d) => BValue::Dict(
                Seq::new(
                    d.len() as nat,
                    |i: int|
                        if 0 <= i < d.len() {
                            BEntry { key: d[i].key@, value: d[i].value@, raw: d[i].raw@ }
                        } else {
                            BEntry { key: Seq::empty(), value: BValue::Int(0), raw: Seq::empty() }
                        },
                ),
            ),
        }
    }
}


/// Deepest nesting of lists and dictionaries that the parser accepts.
pub const MAX_DEPTH: usize = 64;

pub open spec fn is_digit(c: u8) -> bool {
    48 <= c <= 57
}

/// The end of the run of ASCII digits that starts at `pos`.
pub open spec fn digits_end(b: Seq<u8>, pos: int) -> int
    decreases b.len() - pos,
{
    if 0 <= pos < b.len() && is_digit(b[pos]) {
        digits_end(b, pos + 1)
    } else {
        pos
    }
}

/// The number that a run of ASCII digits writes in decimal.
pub open spec fn digits_value(s: Seq<u8>) -> int
    decreases s.len(),
{
    if s.len() == 0 {
        0
    } else {
        digits_value(s.drop_last()) * 10 + (s.last() - 48)
    }
}

/// A non-empty run of digits without a redundant leading zero.
pub open spec fn canonical_digits(s: Seq<u8>) -> bool {
    s.len() > 0 && (s[0] != 48 || s.len() == 1)
}

/// The integer whose digits start at `pos` (just after `i`), and the
/// position after its closing `e`.
pub open spec fn int_at(b: Seq<u8>, pos: int) -> Option<(int, int)> {
    let neg = 0 <= pos < b.len() && b[pos] == 45;
    let start = if neg { pos + 1 } else { pos };
    let end = digits_end(b, start);
    let ds = b.subrange(start, end);
    let v = if neg { -digits_value(ds) } else { digits_value(ds) };
    if 0 <= pos && canonical_digits(ds) && !(neg && ds[0] == 48) && end < b.len() && b[end] == 101
        && i64::MIN <= v <= i64::MAX {
        Some((v, end + 1))
    } else {
        None
    }
}

/// The byte string whose length prefix starts at `pos`, and the position
/// after its last byte.
pub open spec fn bytes_at(b: Seq<u8>, pos: int) -> Option<(Seq<u8>, int)> {
    let end = digits_end(b, pos);
    let ds = b.subrange(pos, end);
    let n = digits_value(ds);
    if 0 <= pos && canonical_digits(ds) && end < b.len() && b[end] == 58 && end + 1 + n <= b.len() {
        Some((b.subrange(end + 1, end + 1 + n), end + 1 + n))
    } else {
        None
    }
}

/// Byte-lexicographic order on keys.
pub open spec fn key_less(a: Seq<u8>, b: Seq<u8>) -> bool
    decreases a.len(),
{
    if a.len() == 0 {
        b.len() > 0
    } else if b.len() == 0 {
        false
    } else if a[0] != b[0] {
        a[0] < b[0]
    } else {
        key_less(a.drop_first(), b.drop_first())
    }
}

/// The value encoded at `pos` at nesting depth `depth`, and the position
/// after it: the grammar of the format.
pub open spec fn value_at(b: Seq<u8>, pos: int, depth: int) -> Option<(BValue, int)>
    decreases b.len() - pos, 0int,
{
    if pos < 0 || pos >= b.len() {
        None
    } else if b[pos] == 105 {
        match int_at(b, pos + 1) {
            Some((n, e)) => Some((BValue::Int(n), e)),
            None => None,
        }
    } else if is_digit(b[pos]) {
        match bytes_at(b, pos) {
            Some((s, e)) => Some((BValue::Bytes(s), e)),
            None => None,
        }
    } else if b[pos] == 108 && depth < MAX_DEPTH {
        match list_items(b, pos + 1, depth + 1, Seq::empty()) {
            Some((l, e)) => Some((BValue::List(l), e)),
            None => None,
        }
    } else if b[pos] == 100 && depth < MAX_DEPTH {
        match dict_items(b, pos + 1, depth + 1, Seq::empty()) {
            Some((d, e)) => Some((BValue::Dict(d), e)),
            None => None,
        }
    } else {
        None
    }
}

/// The items of a list from `pos` up to its closing `e`, after `acc`.
pub open spec fn list_items(b: Seq<u8>, pos: int, depth: int, acc: Seq<BValue>) -> Option<
    (Seq<BValue>, int),
>
    decreases b.len() - pos, 1int,
{
    if pos < 0 || pos >= b.len() {
        None
    } else if b[pos] == 101 {
        Some((acc, pos + 1))
    } else {
        match value_at(b, pos, depth) {
            Some((v, e)) => if pos < e <= b.len() {
                list_items(b, e, depth, acc.push(v))
            } else {
                None
            },
            None => None,
        }
    }
}

/// The entries of a dictionary from `pos` up to its closing `e`, after
/// `acc`; keys must rise strictly.
pub open spec fn dict_items(b: Seq<u8>, pos: int, depth: int, acc: Seq<BEntry>) -> Option<
    (Seq<BEntry>, int),
>
    decreases b.len() - pos, 1int,
{
    if pos < 0 || pos >= b.len() {
        None
    } else if b[pos] == 101 {
        Some((acc, pos + 1))
    } else if !is_digit(b[pos]) {
        None
    } else {
        match bytes_at(b, pos) {
            Some((k, ke)) => if ke > pos && (acc.len() == 0 || key_less(acc.last().key, k)) {
                match value_at(b, ke, depth) {
                    Some((v, e)) => if ke < e <= b.len() {
                        dict_items(
                            b,
                            e,
                            depth,
                            acc.push(BEntry { key: k, value: v, raw: b.subrange(ke, e) }),
                        )
                    } else {
                        None
                    },
                    None => None,
                }
            } else {
                None
            },
            None => None,
        }
    }
}

/// The value that the whole of `b` encodes, if any.
pub open spec fn parse_spec(b: Seq<u8>) -> Option<BValue> {
    match value_at(b, 0, 0) {
        Some((v, e)) => if e == b.len() {
            Some(v)
        } else {
            None
        },
        None => None,
    }
}


/// The model of a sequence of decoded values.
pub open spec fn list_view<'a>(l: Seq<Value<'a>>) -> Seq<BValue> {
    Seq::new(l.len(), |i: int| l[i]@)
}

/// The model of a sequence of decoded entries.
pub open spec fn dict_view<'a>(d: Seq<Entry<'a>>) -> Seq<BEntry> {
    Seq::new(d.len(), |i: int| BEntry { key: d[i].key@, value: d[i].value@, raw: d[i].raw@ })
}

proof fn lemma_list_view<'a>(l: Vec<Value<'a>>)
    ensures
        Value::List(l)@ == BValue::List(list_view(l@)),
{
    let v = Value::List(l)@;
    assert(forall|i: int| 0 <= i < l.len() ==> v->List_0[i] == l[i]@);
    assert(v->List_0 =~= list_view(l@));
}

proof fn lemma_dict_view<'a>(d: Vec<Entry<'a>>)
    ensures
        Value::Dict(d)@ == BValue::Dict(dict_view(d@)),
{
    let v = Value::Dict(d)@;
    assert(forall|i: int|
        0 <= i < d.len() ==> v->Dict_0[i] == BEntry {
            key: d[i].key@,
            value: d[i].value@,
            raw: d[i].raw@,
        });
    assert(v->Dict_0 =~= dict_view(d@));
}

/// Reads the run of digits at `pos`. The number comes back when it is at
/// most `limit`, and `None` when it exceeds it.
fn read_digits(b: &[u8], pos: usize, limit: u64) -> (r: (usize, Option<u64>))
    requires
        pos <= b@.len(),
    ensures
        r.0 == digits_end(b@, pos as int),
        pos <= r.0 <= b@.len(),
        match r.1 {
            Some(v) => v == digits_value(b@.subrange(pos as int, r.0 as int)) && v <= limit,
            None => digits_value(b@.subrange(pos as int, r.0 as int)) > limit,
        },
{
    let mut i: usize = pos;
    let mut acc: Option<u64> = Some(0);
    assert(b@.subrange(pos as int, pos as int) =~= Seq::<u8>::empty());
    while i < b.len() && 48 <= b[i] && b[i] <= 57
        invariant
            pos <= i <= b@.len(),
            digits_end(b@, pos as int) == digits_end(b@, i as int),
            match acc {
                Some(v) => v == digits_value(b@.subrange(pos as int, i as int)) && v <= limit,
                None => digits_value(b@.subrange(pos as int, i as int)) > limit,
            },
        decreases b@.len() - i,
    {
        let d = b[i] - 48;
        assert(b@.subrange(pos as int, i + 1).drop_last() =~= b@.subrange(pos as int, i as int));
        acc = match acc {
            Some(v) => {
                let nv: u128 = v as u128 * 10 + d as u128;
                if nv > limit as u128 {
                    None
                } else {
                    Some(nv as u64)
                }
            },
            None => None,
        };
        i = i + 1;
    }
    (i, acc)
}

/// Parses the integer whose digits start at `pos`, just after its `i`.
fn parse_int(b: &[u8], pos: usize) -> (r: Option<(i64, usize)>)
    requires
        pos <= b@.len(),
    ensures
        match r {
            Some((n, e)) => int_at(b@, pos as int) == Some((n as int, e as int)),
            None => int_at(b@, pos as int) is None,
        },
{
    let neg = pos < b.len() && b[pos] == 45;
    let start = if neg {
        pos + 1
    } else {
        pos
    };
    let limit: u64 = if neg {
        9223372036854775808
    } else {
        9223372036854775807
    };
    let (end, val) = read_digits(b, start, limit);
    let ghost ds = b@.subrange(start as int, end as int);
    if end == start || (b[start] == 48 && (end > start + 1 || neg)) {
        return None;
    }
    assert(canonical_digits(ds));
    if end >= b.len() || b[end] != 101 {
        return None;
    }
    match val {
        None => None,
        Some(m) => {
            let n: i64 = if neg {
                if m == 9223372036854775808 {
                    i64::MIN
                } else {
                    -(m as i64)
                }
            } else {
                m as i64
            };
            Some((n, end + 1))
        },
    }
}

/// Parses the byte string whose length prefix starts at `pos`.
fn parse_bytes<'a>(b: &'a [u8], pos: usize) -> (r: Option<(&'a [u8], usize)>)
    requires
        pos <= b@.len(),
    ensures
        match r {
            Some((s, e)) => bytes_at(b@, pos as int) == Some((s@, e as int)),
            None => bytes_at(b@, pos as int) is None,
        },
{
    let (end, val) = read_digits(b, pos, b.len() as u64);
    if end == pos || (b[pos] == 48 && end > pos + 1) {
        return None;
    }
    if end >= b.len() || b[end] != 58 {
        return None;
    }
    match val {
        None => None,
        Some(n) => {
            if n as usize > b.len() - (end + 1) {
                return None;
            }
            let stop = end + 1 + n as usize;
            Some((slice_subrange(b, end + 1, stop), stop))
        },
    }
}

/// Whether `a` comes strictly before `b` in byte-lexicographic order.
pub fn key_lt(a: &[u8], b: &[u8]) -> (r: bool)
    ensures
        r == key_less(a@, b@),
{
    let mut i: usize = 0;
    assert(a@.subrange(0, a@.len() as int) =~= a@);
    assert(b@.subrange(0, b@.len() as int) =~= b@);
    while i < a.len() && i < b.len() && a[i] == b[i]
        invariant
            i <= a@.len(),
            i <= b@.len(),
            key_less(a@, b@) == key_less(
                a@.subrange(i as int, a@.len() as int),
                b@.subrange(i as int, b@.len() as int),
            ),
        decreases a@.len() - i,
    {
        assert(a@.subrange(i as int, a@.len() as int).drop_first() =~= a@.subrange(
            i + 1,
            a@.len() as int,
        ));
        assert(b@.subrange(i as int, b@.len() as int).drop_first() =~= b@.subrange(
            i + 1,
            b@.len() as int,
        ));
        i = i + 1;
    }
    if i == a.len() {
        i < b.len()
    } else if i == b.len() {
        false
    } else {
        a[i] < b[i]
    }
}

/// Parses the value at `pos` at nesting depth `depth`.
fn parse_value<'a>(b: &'a [u8], pos: usize, depth: usize) -> (r: Option<(Value<'a>, usize)>)
    requires
        depth <= MAX_DEPTH,
    ensures
        match r {
            Some((v, e)) => value_at(b@, pos as int, depth as int) == Some((v@, e as int)),
            None => value_at(b@, pos as int, depth as int) is None,
        },
    decreases MAX_DEPTH - depth, 1int,
{
    if pos >= b.len() {
        return None;
    }
    let c = b[pos];
    if c == 105 {
        match parse_int(b, pos + 1) {
            Some((n, e)) => Some((Value::Integer(n), e)),
            None => None,
        }
    } else if 48 <= c && c <= 57 {
        match parse_bytes(b, pos) {
            Some((s, e)) => Some((Value::Bytes(s), e)),
            None => None,
        }
    } else if c == 108 && depth < MAX_DEPTH {
        match parse_list(b, pos + 1, depth + 1) {
            Some((l, e)) => {
                proof {
                    lemma_list_view(l);
                }
                Some((Value::List(l), e))
            },
            None => None,
        }
    } else if c == 100 && depth < MAX_DEPTH {
        match parse_dict(b, pos + 1, depth + 1) {
            Some((d, e)) => {
                proof {
                    lemma_dict_view(d);
                }
                Some((Value::Dict(d), e))
            },
            None => None,
        }
    } else {
        None
    }
}

fn parse_list<'a>(b: &'a [u8], pos: usize, depth: usize) -> (r: Option<(Vec<Value<'a>>, usize)>)
    requires
        1 <= depth <= MAX_DEPTH,
    ensures
        match r {
            Some((l, e)) => list_items(b@, pos as int, depth as int, Seq::empty()) == Some(
                (list_view(l@), e as int),
            ),
            None => list_items(b@, pos as int, depth as int, Seq::empty()) is None,
        },
    decreases MAX_DEPTH - depth + 1, 0int,
{
    if pos >= b.len() {
        return None;
    }
    let mut items: Vec<Value<'a>> = Vec::new();
    let mut p: usize = pos;
    assert(list_view(items@) =~= Seq::<BValue>::empty());
    loop
        invariant
            pos <= p <= b@.len(),
            1 <= depth <= MAX_DEPTH,
            list_items(b@, p as int, depth as int, list_view(items@)) == list_items(
                b@,
                pos as int,
                depth as int,
                Seq::empty(),
            ),
        decreases b@.len() - p,
    {
        if p >= b.len() {
            return None;
        }
        if b[p] == 101 {
            return Some((items, p + 1));
        }
        match parse_value(b, p, depth) {
            None => {
                return None;
            },
            Some((v, e)) => {
                if e <= p || e > b.len() {
                    return None;
                }
                let ghost before = items@;
                items.push(v);
                assert(list_view(items@) =~= list_view(before).push(v@));
                p = e;
            },
        }
    }
}

fn parse_dict<'a>(b: &'a [u8], pos: usize, depth: usize) -> (r: Option<(Vec<Entry<'a>>, usize)>)
    requires
        1 <= depth <= MAX_DEPTH,
    ensures
        match r {
            Some((d, e)) => dict_items(b@, pos as int, depth as int, Seq::empty()) == Some(
                (dict_view(d@), e as int),
            ),
            None => dict_items(b@, pos as int, depth as int, Seq::empty()) is None,
        },
    decreases MAX_DEPTH - depth + 1, 0int,
{
    if pos >= b.len() {
        return None;
    }
    let mut entries: Vec<Entry<'a>> = Vec::new();
    let mut p: usize = pos;
    assert(dict_view(entries@) =~= Seq::<BEntry>::empty());
    loop
        invariant
            pos <= p <= b@.len(),
            1 <= depth <= MAX_DEPTH,
            dict_items(b@, p as int, depth as int, dict_view(entries@)) == dict_items(
                b@,
                pos as int,
                depth as int,
                Seq::empty(),
            ),
        decreases b@.len() - p,
    {
        if p >= b.len() {
            return None;
        }
        if b[p] == 101 {
            return Some((entries, p + 1));
        }
        if !(48 <= b[p] && b[p] <= 57) {
            return None;
        }
        let (key, ke) = match parse_bytes(b, p) {
            None => {
                return None;
            },
            Some(x) => x,
        };
        if ke <= p {
            return None;
        }
        let n = entries.len();
        if n > 0 && !key_lt(entries[n - 1].key, key) {
            return None;
        }
        assert(n > 0 ==> dict_view(entries@).last().key == entries@[n - 1].key@);
        let (value, e) = match parse_value(b, ke, depth) {
            None => {
                return None;
            },
            Some(x) => x,
        };
        if e <= ke || e > b.len() {
            return None;
        }
        let raw = slice_subrange(b, ke, e);
        let ghost before = entries@;
        let ghost vv = value@;
        entries.push(Entry { key, value, raw });
        assert(dict_view(entries@) =~= dict_view(before).push(
            BEntry { key: key@, value: vv, raw: b@.subrange(ke as int, e as int) },
        ));
        p = e;
    }
}

/// A buffer that does not hold exactly one well-formed value.
#[derive(Debug, Clone, Copy, PartialEq, Eq)]
pub struct BStreamingError;

/// Parses the whole buffer as one value; byte strings and entry spans of the
/// result borrow from `b`.
pub fn parse<'a>(b: &'a [u8]) -> (r: Result<Value<'a>, BStreamingError>)
    ensures
        match r {
            Ok(v) => parse_spec(b@) == Some(v@) && well_formed(v@, 0),
            Err(_) => parse_spec(b@) is None,
        },
{
    proof {
        if parse_spec(b@) is Some {
            parsed_bytes_are_canonical(b@);
        }
    }
    match parse_value(b, 0, 0) {
        Some((v, e)) => if e == b.len() {
            Ok(v)
        } else {
            Err(BStreamingError)
        },
        None => Err(BStreamingError),
    }
}


/// The value as an unsigned 64-bit integer.
pub open spec fn u64_of(v: BValue) -> Result<int, DecodeFailure> {
    match v {
        BValue::Int(n) => if 0 <= n <= u64::MAX {
            Ok(n)
        } else {
            Err(DecodeFailure::WrongType(Kind::Integer))
        },
        _ => Err(DecodeFailure::WrongType(Kind::Integer)),
    }
}

/// The value as a byte string.
pub open spec fn bytes_of(v: BValue) -> Result<Seq<u8>, DecodeFailure> {
    match v {
        BValue::Bytes(b) => Ok(b),
        _ => Err(DecodeFailure::WrongType(Kind::ByteString)),
    }
}

/// The value as a list.
pub open spec fn list_of(v: BValue) -> Result<Seq<BValue>, DecodeFailure> {
    match v {
        BValue::List(l) => Ok(l),
        _ => Err(DecodeFailure::WrongType(Kind::List)),
    }
}

/// The value as a dictionary.
pub open spec fn dict_of(v: BValue) -> Result<Seq<BEntry>, DecodeFailure> {
    match v {
        BValue::Dict(d) => Ok(d),
        _ => Err(DecodeFailure::WrongType(Kind::Dictionary)),
    }
}

/// The first index at or after `from` whose entry has key `k`.
pub open spec fn find_key(d: Seq<BEntry>, k: Seq<u8>, from: int) -> Option<int>
    decreases d.len() - from,
{
    if from < 0 || from >= d.len() {
        None
    } else if d[from].key == k {
        Some(from)
    } else {
        find_key(d, k, from + 1)
    }
}

/// The entry stored under `key`.
pub open spec fn field(d: Seq<BEntry>, key: &str) -> Result<BEntry, DecodeFailure> {
    match find_key(d, key.spec_bytes(), 0) {
        Some(i) => Ok(d[i]),
        None => Err(DecodeFailure::KeyNotFound(key@)),
    }
}

/// What lossy UTF-8 decoding makes of a byte string.
pub uninterp spec fn utf8_lossy(b: Seq<u8>) -> Seq<char>;

/// The text that a byte string reads as: ASCII bytes as the same
/// characters, anything else through lossy UTF-8 decoding.
pub open spec fn text_of(b: Seq<u8>) -> Seq<char> {
    if forall|i: int| 0 <= i < b.len() ==> b[i] < 128 {
        b.map_values(|c: u8| c as char)
    } else {
        utf8_lossy(b)
    }
}

/// Relies on `String::from_utf8_lossy`: the text depends on the bytes
/// alone, and ASCII bytes come out as the same characters.
#[verifier::external_body]
fn lossy_string(b: &[u8]) -> (r: String)
    ensures
        r@ == utf8_lossy(b@),
        (forall|i: int| 0 <= i < b@.len() ==> b@[i] < 128) ==> r@ == b@.map_values(
            |c: u8| c as char,
        ),
{
    String::from_utf8_lossy(b).into_owned()
}

/// Whether two byte strings are equal.
pub fn bytes_eq(a: &[u8], b: &[u8]) -> (r: bool)
    ensures
        r == (a@ == b@),
{
    if a.len() != b.len() {
        return false;
    }
    let mut i: usize = 0;
    while i < a.len()
        invariant
            a@.len() == b@.len(),
            i <= a@.len(),
            forall|j: int| 0 <= j < i ==> a@[j] == b@[j],
        decreases a@.len() - i,
    {
        if a[i] != b[i] {
            return false;
        }
        i = i + 1;
    }
    assert(a@ =~= b@);
    true
}

impl<'a> Value<'a> {
    /// Reads an integer that fits in `u64`.
    pub fn get_u64(&self) -> (r: Result<u64, BencodeDecodableError>)
        ensures
            match r {
                Ok(n) => u64_of(self@) == Ok::<int, DecodeFailure>(n as int),
                Err(e) => u64_of(self@) == Err::<int, DecodeFailure>(e@),
            },
    {
        match self {
            Value::Integer(n) => if *n >= 0 {
                Ok(*n as u64)
            } else {
                Err(BencodeDecodableError::WrongType(Kind::Integer))
            },
            _ => Err(BencodeDecodableError::WrongType(Kind::Integer)),
        }
    }

    /// Reads a byte string, borrowed from the source buffer.
    pub fn get_str(&self) -> (r: Result<&'a [u8], BencodeDecodableError>)
        ensures
            match r {
                Ok(b) => bytes_of(self@) == Ok::<Seq<u8>, DecodeFailure>(b@),
                Err(e) => bytes_of(self@) == Err::<Seq<u8>, DecodeFailure>(e@),
            },
    {
        match self {
            Value::Bytes(b) => Ok(*b),
            _ => Err(BencodeDecodableError::WrongType(Kind::ByteString)),
        }
    }

    /// Reads a byte string as text, replacing invalid UTF-8.
    pub fn get_string(&self) -> (r: Result<String, BencodeDecodableError>)
        ensures
            match r {
                Ok(s) => bytes_of(self@) is Ok && s@ == text_of(bytes_of(self@)->Ok_0),
                Err(e) => bytes_of(self@) == Err::<Seq<u8>, DecodeFailure>(e@),
            },
    {
        let b = self.get_str()?;
        Ok(lossy_string(b))
    }

    /// Reads a list.
    pub fn get_list(&self) -> (r: Result<&Vec<Value<'a>>, BencodeDecodableError>)
        ensures
            match r {
                Ok(l) => list_of(self@) == Ok::<Seq<BValue>, DecodeFailure>(list_view(l@)),
                Err(e) => list_of(self@) == Err::<Seq<BValue>, DecodeFailure>(e@),
            },
    {
        match self {
            Value::List(l) => {
                proof {
                    lemma_list_view(*l);
                }
                Ok(l)
            },
            _ => Err(BencodeDecodableError::WrongType(Kind::List)),
        }
    }

    /// Reads a dictionary.
    pub fn get_struct(&self) -> (r: Result<&Vec<Entry<'a>>, BencodeDecodableError>)
        ensures
            match r {
                Ok(d) => dict_of(self@) == Ok::<Seq<BEntry>, DecodeFailure>(dict_view(d@)),
                Err(e) => dict_of(self@) == Err::<Seq<BEntry>, DecodeFailure>(e@),
            },
    {
        match self {
            Value::Dict(d) => {
                proof {
                    lemma_dict_view(*d);
                }
                Ok(d)
            },
            _ => Err(BencodeDecodableError::WrongType(Kind::Dictionary)),
        }
    }
}

/// A structure that can be read from a decoded value.
pub trait BencodeDecodable<'a>: Sized + View {
    /// What decoding gives for a value: the model of the structure, or the
    /// first failure met.
    spec fn decoded(v: BValue) -> Result<Self::V, DecodeFailure>;

    /// Reads the structure; what it reads borrows from the source buffer.
    fn decode(b: &Value<'a>) -> (r: Result<Self, BencodeDecodableError>)
        ensures
            match r {
                Ok(x) => Self::decoded(b@) == Ok::<Self::V, DecodeFailure>(x@),
                Err(e) => Self::decoded(b@) == Err::<Self::V, DecodeFailure>(e@),
            },
    ;
}

/// Finds the entry stored under `key` in a dictionary.
pub fn get_struct_value<'a, 'b>(key: &str, dict: &'b Vec<Entry<'a>>) -> (r: Result<
    &'b Entry<'a>,
    BencodeDecodableError,
>)
    ensures
        match r {
            Ok(e) => field(dict_view(dict@), key) == Ok::<BEntry, DecodeFailure>(
                BEntry { key: e.key@, value: e.value@, raw: e.raw@ },
            ),
            Err(e) => field(dict_view(dict@), key) == Err::<BEntry, DecodeFailure>(e@),
        },
{
    let k = key.as_bytes();
    let ghost d = dict_view(dict@);
    let mut i: usize = 0;
    while i < dict.len()
        invariant
            i <= dict@.len(),
            d == dict_view(dict@),
            k@ == key.spec_bytes(),
            find_key(d, k@, i as int) == find_key(d, k@, 0),
        decreases dict@.len() - i,
    {
        if bytes_eq(dict[i].key, k) {
            return Ok(&dict[i]);
        }
        i = i + 1;
    }
    Err(BencodeDecodableError::KeyNotFound(key.to_owned()))
}


} // verus!
