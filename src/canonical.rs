//! The canonical encoding of values, and the proofs that the parser accepts
//! exactly the canonical encodings.
use vstd::prelude::*;
use crate::value::{
    bytes_at, canonical_digits, dict_items, digits_end, digits_value, int_at, is_digit, key_less,
    list_items, parse_spec, value_at, BEntry, BValue, MAX_DEPTH,
};

verus! {

/// The decimal digits of a natural number, as ASCII bytes, without
/// redundant leading zeros.
pub open spec fn decimal_bytes(n: nat) -> Seq<u8>
    decreases n,
{
    if n < 10 {
        seq![(n + 48) as u8]
    } else {
        decimal_bytes(n / 10).push(((n % 10) + 48) as u8)
    }
}

/// The canonical encoding of a byte string: its length, `:`, its bytes.
pub open spec fn encode_bytes(s: Seq<u8>) -> Seq<u8> {
    decimal_bytes(s.len()) + seq![58u8] + s
}

/// The canonical encoding of a value: minimal integers and lengths, items
/// and entries in their order.
pub open spec fn encode(v: BValue) -> Seq<u8>
    decreases v, 0nat,
{
    match v {
        BValue::Int(n) => if n < 0 {
            seq![105u8, 45u8] + decimal_bytes((-n) as nat) + seq![101u8]
        } else {
            seq![105u8] + decimal_bytes(n as nat) + seq![101u8]
        },
        BValue::Bytes(s) => encode_bytes(s),
        BValue::List(l) => seq![108u8] + encode_items(l, l.len()) + seq![101u8],
        BValue::Dict(d) => seq![100u8] + encode_entries(d, d.len()) + seq![101u8],
    }
}

/// The encodings of the first `n` items of a list, one after the other.
pub open spec fn encode_items(l: Seq<BValue>, n: nat) -> Seq<u8>
    decreases l, n,
{
    if n == 0 || n > l.len() {
        Seq::empty()
    } else {
        encode_items(l, (n - 1) as nat) + encode(l[n - 1])
    }
}

/// The encodings of the first `n` entries of a dictionary, each key then
/// its value.
pub open spec fn encode_entries(d: Seq<BEntry>, n: nat) -> Seq<u8>
    decreases d, n,
{
    if n == 0 || n > d.len() {
        Seq::empty()
    } else {
        encode_entries(d, (n - 1) as nat) + encode_bytes(d[n - 1].key) + encode(d[n - 1].value)
    }
}

proof fn lemma_digits_run(b: Seq<u8>, pos: int)
    requires
        0 <= pos <= b.len(),
    ensures
        pos <= digits_end(b, pos) <= b.len(),
        forall|i: int| pos <= i < digits_end(b, pos) ==> is_digit(#[trigger] b[i]),
    decreases b.len() - pos,
{
    if pos < b.len() && is_digit(b[pos]) {
        lemma_digits_run(b, pos + 1);
    }
}

proof fn lemma_digits_positive(ds: Seq<u8>)
    requires
        ds.len() >= 1,
        ds[0] != 48,
        forall|i: int| 0 <= i < ds.len() ==> is_digit(#[trigger] ds[i]),
    ensures
        digits_value(ds) >= 1,
    decreases ds.len(),
{
    assert(is_digit(ds[ds.len() - 1]));
    if ds.len() > 1 {
        let p = ds.drop_last();
        assert(p[0] == ds[0]);
        assert forall|i: int| 0 <= i < p.len() implies is_digit(#[trigger] p[i]) by {
            assert(p[i] == ds[i]);
        }
        lemma_digits_positive(p);
        assert(digits_value(ds) == digits_value(p) * 10 + (ds.last() - 48));
    } else {
        assert(ds.drop_last().len() == 0);
        assert(digits_value(ds) == digits_value(ds.drop_last()) * 10 + (ds.last() - 48));
    }
}

proof fn lemma_digits_canonical(ds: Seq<u8>)
    requires
        canonical_digits(ds),
        forall|i: int| 0 <= i < ds.len() ==> is_digit(#[trigger] ds[i]),
    ensures
        digits_value(ds) >= 0,
        ds == decimal_bytes(digits_value(ds) as nat),
    decreases ds.len(),
{
    assert(is_digit(ds[ds.len() - 1]));
    if ds.len() == 1 {
        assert(ds.drop_last() =~= Seq::<u8>::empty());
        assert(digits_value(ds) == digits_value(ds.drop_last()) * 10 + (ds.last() - 48));
        assert(digits_value(ds) == ds[0] - 48);
        assert(decimal_bytes(digits_value(ds) as nat) == seq![ds[0]]);
        assert(ds =~= seq![ds[0]]);
    } else {
        let p = ds.drop_last();
        assert(p[0] == ds[0]);
        assert forall|i: int| 0 <= i < p.len() implies is_digit(#[trigger] p[i]) by {
            assert(p[i] == ds[i]);
        }
        lemma_digits_canonical(p);
        lemma_digits_positive(p);
        let x = digits_value(p);
        let d = ds.last() - 48;
        assert(digits_value(ds) == x * 10 + d);
        assert((x * 10 + d) / 10 == x && (x * 10 + d) % 10 == d) by (nonlinear_arith)
            requires
                0 <= d < 10,
                x >= 1,
        ;
        assert(ds =~= p.push(ds.last()));
    }
}


proof fn lemma_digits_of_run(b: Seq<u8>, start: int)
    requires
        0 <= start <= b.len(),
        canonical_digits(b.subrange(start, digits_end(b, start))),
    ensures
        start < digits_end(b, start) <= b.len(),
        digits_value(b.subrange(start, digits_end(b, start))) >= 0,
        b.subrange(start, digits_end(b, start)) == decimal_bytes(
            digits_value(b.subrange(start, digits_end(b, start))) as nat,
        ),
        b.subrange(start, digits_end(b, start))[0] != 48 ==> digits_value(
            b.subrange(start, digits_end(b, start)),
        ) >= 1,
{
    lemma_digits_run(b, start);
    let ds = b.subrange(start, digits_end(b, start));
    assert forall|i: int| 0 <= i < ds.len() implies is_digit(#[trigger] ds[i]) by {
        assert(ds[i] == b[start + i]);
    }
    lemma_digits_canonical(ds);
    if ds[0] != 48 {
        lemma_digits_positive(ds);
    }
}

proof fn lemma_int_canonical(b: Seq<u8>, pos: int)
    requires
        0 <= pos < b.len(),
        b[pos] == 105,
        int_at(b, pos + 1) is Some,
    ensures
        pos < int_at(b, pos + 1)->Some_0.1 <= b.len(),
        b.subrange(pos, int_at(b, pos + 1)->Some_0.1) == encode(
            BValue::Int(int_at(b, pos + 1)->Some_0.0),
        ),
{
    let q = pos + 1;
    let neg = 0 <= q < b.len() && b[q] == 45;
    let start = if neg {
        q + 1
    } else {
        q
    };
    let end = digits_end(b, start);
    let ds = b.subrange(start, end);
    lemma_digits_of_run(b, start);
    let e = end + 1;
    if neg {
        assert(b.subrange(pos, e) =~= seq![105u8, 45u8] + ds + seq![101u8]);
    } else {
        assert(b.subrange(pos, e) =~= seq![105u8] + ds + seq![101u8]);
    }
}

proof fn lemma_bytes_canonical(b: Seq<u8>, pos: int)
    requires
        bytes_at(b, pos) is Some,
    ensures
        pos < bytes_at(b, pos)->Some_0.1 <= b.len(),
        b.subrange(pos, bytes_at(b, pos)->Some_0.1) == encode_bytes(bytes_at(b, pos)->Some_0.0),
{
    let end = digits_end(b, pos);
    let ds = b.subrange(pos, end);
    lemma_digits_of_run(b, pos);
    let n = digits_value(ds);
    let s = b.subrange(end + 1, end + 1 + n);
    assert(b.subrange(pos, end + 1 + n) =~= ds + seq![58u8] + s);
}

proof fn lemma_value_canonical(b: Seq<u8>, pos: int, depth: int)
    requires
        value_at(b, pos, depth) is Some,
    ensures
        pos < value_at(b, pos, depth)->Some_0.1 <= b.len(),
        b.subrange(pos, value_at(b, pos, depth)->Some_0.1) == encode(
            value_at(b, pos, depth)->Some_0.0,
        ),
        well_formed(value_at(b, pos, depth)->Some_0.0, depth),
    decreases b.len() - pos, 0int,
{
    let e = value_at(b, pos, depth)->Some_0.1;
    if b[pos] == 105 {
        lemma_int_canonical(b, pos);
    } else if is_digit(b[pos]) {
        lemma_bytes_canonical(b, pos);
    } else if b[pos] == 108 {
        lemma_list_canonical(b, pos + 1, depth + 1, Seq::empty());
        let l = list_items(b, pos + 1, depth + 1, Seq::empty())->Some_0.0;
        assert(encode_items(l, 0) =~= Seq::<u8>::empty());
        assert(b.subrange(pos + 1, e) =~= Seq::<u8>::empty() + b.subrange(pos + 1, e));
        assert(b.subrange(pos, e) =~= seq![108u8] + b.subrange(pos + 1, e));
    } else {
        lemma_dict_canonical(b, pos + 1, depth + 1, Seq::empty());
        let d = dict_items(b, pos + 1, depth + 1, Seq::empty())->Some_0.0;
        assert(encode_entries(d, 0) =~= Seq::<u8>::empty());
        assert(b.subrange(pos + 1, e) =~= Seq::<u8>::empty() + b.subrange(pos + 1, e));
        assert(b.subrange(pos, e) =~= seq![100u8] + b.subrange(pos + 1, e));
    }
}

#[verifier::rlimit(40)]
proof fn lemma_list_canonical(b: Seq<u8>, pos: int, depth: int, acc: Seq<BValue>)
    requires
        list_items(b, pos, depth, acc) is Some,
    ensures
        ({
            let (l, e) = list_items(b, pos, depth, acc)->Some_0;
            &&& pos < e <= b.len()
            &&& acc.len() <= l.len()
            &&& l.subrange(0, acc.len() as int) == acc
            &&& encode_items(l, acc.len()) + b.subrange(pos, e) == encode_items(l, l.len())
                + seq![101u8]
            &&& forall|i: int| acc.len() <= i < l.len() ==> well_formed(#[trigger] l[i], depth)
        }),
    decreases b.len() - pos, 1int,
{
    let (l, e) = list_items(b, pos, depth, acc)->Some_0;
    if b[pos] == 101 {
        assert(l.subrange(0, acc.len() as int) =~= acc);
        assert(b.subrange(pos, e) =~= seq![101u8]);
    } else {
        let (v, e1) = value_at(b, pos, depth)->Some_0;
        lemma_value_canonical(b, pos, depth);
        let acc2 = acc.push(v);
        lemma_list_canonical(b, e1, depth, acc2);
        assert(l.subrange(0, acc.len() as int) =~= acc2.subrange(0, acc.len() as int));
        assert(l.subrange(0, acc.len() as int) =~= acc);
        assert(l[acc.len() as int] == l.subrange(0, acc2.len() as int)[acc.len() as int]);
        assert(l[acc.len() as int] == v);
        assert(well_formed(l[acc.len() as int], depth));
        assert(encode_items(l, acc2.len()) == encode_items(l, acc.len()) + encode(v));
        assert(b.subrange(pos, e) =~= b.subrange(pos, e1) + b.subrange(e1, e));
        assert(encode_items(l, acc.len()) + b.subrange(pos, e) =~= encode_items(l, acc2.len())
            + b.subrange(e1, e));
    }
}

#[verifier::rlimit(40)]
proof fn lemma_dict_canonical(b: Seq<u8>, pos: int, depth: int, acc: Seq<BEntry>)
    requires
        dict_items(b, pos, depth, acc) is Some,
    ensures
        ({
            let (d, e) = dict_items(b, pos, depth, acc)->Some_0;
            &&& pos < e <= b.len()
            &&& acc.len() <= d.len()
            &&& d.subrange(0, acc.len() as int) == acc
            &&& encode_entries(d, acc.len()) + b.subrange(pos, e) == encode_entries(d, d.len())
                + seq![101u8]
            &&& forall|i: int|
                acc.len() <= i < d.len() ==> (#[trigger] d[i]).raw == encode(d[i].value)
                    && well_formed(d[i].value, depth)
            &&& forall|i: int|
                acc.len() <= i < d.len() && i >= 1 ==> key_less(d[i - 1].key, #[trigger] d[i].key)
        }),
    decreases b.len() - pos, 1int,
{
    let (d, e) = dict_items(b, pos, depth, acc)->Some_0;
    if b[pos] == 101 {
        assert(d.subrange(0, acc.len() as int) =~= acc);
        assert(b.subrange(pos, e) =~= seq![101u8]);
    } else {
        let (k, ke) = bytes_at(b, pos)->Some_0;
        lemma_bytes_canonical(b, pos);
        let (v, e1) = value_at(b, ke, depth)->Some_0;
        lemma_value_canonical(b, ke, depth);
        let entry = BEntry { key: k, value: v, raw: b.subrange(ke, e1) };
        let acc2 = acc.push(entry);
        lemma_dict_canonical(b, e1, depth, acc2);
        assert(d.subrange(0, acc.len() as int) =~= acc2.subrange(0, acc.len() as int));
        assert(d.subrange(0, acc.len() as int) =~= acc);
        assert(d[acc.len() as int] == d.subrange(0, acc2.len() as int)[acc.len() as int]);
        assert(d[acc.len() as int] == entry);
        if acc.len() > 0 {
            assert(d[acc.len() - 1] == acc.last());
        }
        assert(encode_entries(d, acc2.len()) == encode_entries(d, acc.len()) + encode_bytes(k)
            + encode(v));
        assert(b.subrange(pos, e) =~= b.subrange(pos, ke) + b.subrange(ke, e1) + b.subrange(
            e1,
            e,
        ));
        assert(encode_entries(d, acc.len()) + b.subrange(pos, e) =~= encode_entries(
            d,
            acc2.len(),
        ) + b.subrange(e1, e));
    }
}

/// Whatever the parser accepts was written in canonical form: the buffer is
/// the canonical encoding of the value parsed from it, and the value is
/// well formed.
pub proof fn parsed_bytes_are_canonical(b: Seq<u8>)
    requires
        parse_spec(b) is Some,
    ensures
        b == encode(parse_spec(b)->Some_0),
        well_formed(parse_spec(b)->Some_0, 0),
{
    lemma_value_canonical(b, 0, 0);
    assert(b.subrange(0, b.len() as int) =~= b);
}

/// The exact bytes of each entry of a parsed dictionary are the canonical
/// encoding of the entry's value.
pub proof fn entry_bytes_are_canonical(b: Seq<u8>, i: int)
    requires
        parse_spec(b) matches Some(BValue::Dict(d)) && 0 <= i < d.len(),
    ensures
        parse_spec(b)->Some_0->Dict_0[i].raw == encode(parse_spec(b)->Some_0->Dict_0[i].value),
{
    lemma_dict_canonical(b, 1, 1, Seq::empty());
}


proof fn lemma_decimal_bytes(n: nat)
    ensures
        decimal_bytes(n).len() >= 1,
        forall|i: int| 0 <= i < decimal_bytes(n).len() ==> is_digit(#[trigger] decimal_bytes(n)[i]),
        canonical_digits(decimal_bytes(n)),
        n >= 1 ==> decimal_bytes(n)[0] != 48,
        digits_value(decimal_bytes(n)) == n,
    decreases n,
{
    let s = decimal_bytes(n);
    if n < 10 {
        assert(s.drop_last() =~= Seq::<u8>::empty());
        assert(digits_value(s) == digits_value(s.drop_last()) * 10 + (s.last() - 48));
    } else {
        lemma_decimal_bytes(n / 10);
        let p = decimal_bytes(n / 10);
        assert(s == p.push(((n % 10) + 48) as u8));
        assert(s.drop_last() =~= p);
        assert(s[0] == p[0]);
        assert(digits_value(s) == digits_value(s.drop_last()) * 10 + (s.last() - 48));
        assert forall|i: int| 0 <= i < s.len() implies is_digit(#[trigger] s[i]) by {
            if i < p.len() {
                assert(s[i] == p[i]);
            }
        }
    }
}

proof fn lemma_digits_end_at(b: Seq<u8>, start: int, k: int)
    requires
        0 <= start,
        0 <= k,
        start + k < b.len(),
        forall|i: int| start <= i < start + k ==> is_digit(#[trigger] b[i]),
        !is_digit(b[start + k]),
    ensures
        digits_end(b, start) == start + k,
    decreases k,
{
    if k > 0 {
        lemma_digits_end_at(b, start + 1, k - 1);
    }
}

/// Where the canonical digits of `n` sit at `start`, followed by a
/// non-digit, the run of digits there is exactly them.
proof fn lemma_scan_decimal(b: Seq<u8>, start: int, n: nat)
    requires
        0 <= start,
        start + decimal_bytes(n).len() < b.len(),
        b.subrange(start, start + decimal_bytes(n).len()) == decimal_bytes(n),
        !is_digit(b[start + decimal_bytes(n).len()]),
    ensures
        digits_end(b, start) == start + decimal_bytes(n).len(),
        b.subrange(start, digits_end(b, start)) == decimal_bytes(n),
        canonical_digits(decimal_bytes(n)),
        digits_value(decimal_bytes(n)) == n,
        n >= 1 ==> decimal_bytes(n)[0] != 48,
        is_digit(b[start]),
{
    let s = decimal_bytes(n);
    lemma_decimal_bytes(n);
    assert forall|i: int| start <= i < start + s.len() implies is_digit(#[trigger] b[i]) by {
        assert(b[i] == s[i - start]);
    }
    lemma_digits_end_at(b, start, s.len() as int);
    assert(b[start] == s[0]);
}


/// A value that the format carries at nesting depth `depth`: integers fit
/// in 64 bits, lists and dictionaries nest at most `MAX_DEPTH` deep,
/// dictionary keys rise strictly, and each entry's bytes are the encoding
/// of its value.
pub open spec fn well_formed(v: BValue, depth: int) -> bool
    decreases v,
{
    match v {
        BValue::Int(n) => i64::MIN <= n <= i64::MAX,
        BValue::Bytes(_) => true,
        BValue::List(l) => depth < MAX_DEPTH && forall|i: int|
            0 <= i < l.len() ==> well_formed(#[trigger] l[i], depth + 1),
        BValue::Dict(d) => depth < MAX_DEPTH && (forall|i: int|
            0 <= i < d.len() ==> well_formed(#[trigger] d[i].value, depth + 1) && d[i].raw
                == encode(d[i].value)) && (forall|i: int|
            1 <= i < d.len() ==> key_less(d[i - 1].key, #[trigger] d[i].key)),
    }
}

proof fn lemma_encoding_starts(v: BValue)
    ensures
        encode(v).len() >= 1,
        encode(v)[0] != 101,
{
    match v {
        BValue::Bytes(s) => {
            lemma_decimal_bytes(s.len());
            assert(encode(v)[0] == decimal_bytes(s.len())[0]);
        },
        _ => {},
    }
}

proof fn lemma_items_prefix(l: Seq<BValue>, k: nat, n: nat)
    requires
        k <= n <= l.len(),
    ensures
        encode_items(l, n).subrange(0, encode_items(l, k).len() as int) == encode_items(l, k),
        encode_items(l, k).len() <= encode_items(l, n).len(),
    decreases n - k,
{
    if k < n {
        lemma_items_prefix(l, k, (n - 1) as nat);
        assert(encode_items(l, n) == encode_items(l, (n - 1) as nat) + encode(l[n - 1]));
        assert(encode_items(l, n).subrange(0, encode_items(l, k).len() as int) =~= encode_items(
            l,
            (n - 1) as nat,
        ).subrange(0, encode_items(l, k).len() as int));
    }
}

proof fn lemma_entries_prefix(d: Seq<BEntry>, k: nat, n: nat)
    requires
        k <= n <= d.len(),
    ensures
        encode_entries(d, n).subrange(0, encode_entries(d, k).len() as int) == encode_entries(d, k),
        encode_entries(d, k).len() <= encode_entries(d, n).len(),
    decreases n - k,
{
    if k < n {
        lemma_entries_prefix(d, k, (n - 1) as nat);
        assert(encode_entries(d, n) == encode_entries(d, (n - 1) as nat) + encode_bytes(
            d[n - 1].key,
        ) + encode(d[n - 1].value));
        assert(encode_entries(d, n).subrange(0, encode_entries(d, k).len() as int)
            =~= encode_entries(d, (n - 1) as nat).subrange(0, encode_entries(d, k).len() as int));
    }
}

proof fn lemma_window(b: Seq<u8>, pos: int, w: Seq<u8>, off: int, part: Seq<u8>)
    requires
        0 <= pos,
        pos + w.len() <= b.len(),
        b.subrange(pos, pos + w.len()) == w,
        0 <= off,
        off + part.len() <= w.len(),
        w.subrange(off, off + part.len()) == part,
    ensures
        b.subrange(pos + off, pos + off + part.len()) == part,
{
    assert forall|j: int| 0 <= j < part.len() implies b.subrange(
        pos + off,
        pos + off + part.len(),
    )[j] == part[j] by {
        assert(b.subrange(pos, pos + w.len())[off + j] == w[off + j]);
        assert(w.subrange(off, off + part.len())[j] == w[off + j]);
    }
    assert(b.subrange(pos + off, pos + off + part.len()) =~= part);
}

proof fn lemma_parse_bytes_encoding(b: Seq<u8>, pos: int, s: Seq<u8>)
    requires
        0 <= pos,
        pos + encode_bytes(s).len() <= b.len(),
        b.subrange(pos, pos + encode_bytes(s).len()) == encode_bytes(s),
    ensures
        bytes_at(b, pos) == Some((s, pos + encode_bytes(s).len())),
        is_digit(b[pos]),
{
    let ds = decimal_bytes(s.len());
    let end = pos + ds.len();
    let w = encode_bytes(s);
    assert(b.subrange(pos, pos + w.len())[ds.len() as int] == b[end]);
    assert(b[end] == w[ds.len() as int]);
    assert(w.subrange(0, ds.len() as int) =~= ds);
    lemma_window(b, pos, w, 0, ds);
    lemma_scan_decimal(b, pos, s.len());
    assert(w.subrange(ds.len() + 1int, ds.len() + 1int + s.len()) =~= s);
    lemma_window(b, pos, w, ds.len() + 1int, s);
}

#[verifier::rlimit(40)]
proof fn lemma_parse_encoding(b: Seq<u8>, pos: int, depth: int, v: BValue)
    requires
        well_formed(v, depth),
        0 <= pos,
        pos + encode(v).len() <= b.len(),
        b.subrange(pos, pos + encode(v).len()) == encode(v),
    ensures
        value_at(b, pos, depth) == Some((v, pos + encode(v).len())),
    decreases v, 0nat,
{
    let ev = encode(v);
    let e = pos + ev.len();
    assert forall|i: int| 0 <= i < ev.len() implies b[pos + i] == #[trigger] ev[i] by {
        assert(b.subrange(pos, e)[i] == b[pos + i]);
    }
    match v {
        BValue::Int(n) => {
            if n < 0 {
                let ds = decimal_bytes((-n) as nat);
                assert(ev.subrange(2, 2 + ds.len() as int) =~= ds);
                lemma_window(b, pos, ev, 2, ds);
                assert(b[pos + 2 + ds.len()] == ev[2 + ds.len() as int]);
                assert(ev[2 + ds.len() as int] == 101);
                assert(b[pos] == ev[0] && ev[0] == 105);
                assert(b[pos + 1] == ev[1] && ev[1] == 45);
                lemma_scan_decimal(b, pos + 2, (-n) as nat);
                assert(int_at(b, pos + 1) == Some((n, e)));
                assert(0 <= pos < b.len());
                assert(value_at(b, pos, depth) == Some((v, e)));
            } else {
                let ds = decimal_bytes(n as nat);
                assert(ev.subrange(1, 1 + ds.len() as int) =~= ds);
                lemma_window(b, pos, ev, 1, ds);
                assert(b[pos + 1 + ds.len()] == ev[1 + ds.len() as int]);
                assert(ev[1 + ds.len() as int] == 101);
                assert(b[pos] == ev[0] && ev[0] == 105);
                lemma_scan_decimal(b, pos + 1, n as nat);
                assert(b[pos + 1] == ds[0]);
                assert(int_at(b, pos + 1) == Some((n, e)));
                assert(0 <= pos < b.len());
                assert(value_at(b, pos, depth) == Some((v, e)));
            }
        },
        BValue::Bytes(s) => {
            lemma_parse_bytes_encoding(b, pos, s);
            lemma_decimal_bytes(s.len());
            assert(b[pos] == ev[0] && ev[0] == decimal_bytes(s.len())[0]);
        },
        BValue::List(l) => {
            let inner = encode_items(l, l.len());
            assert(ev.subrange(1, ev.len() as int) =~= inner + seq![101u8]);
            lemma_window(b, pos, ev, 1, inner + seq![101u8]);
            assert(encode_items(l, 0) =~= Seq::<u8>::empty());
            assert(l.subrange(0, 0) =~= Seq::<BValue>::empty());
            lemma_parse_items(b, pos + 1, depth + 1, l, 0);
            assert(b[pos] == ev[0] && ev[0] == 108);
        },
        BValue::Dict(d) => {
            let inner = encode_entries(d, d.len());
            assert(ev.subrange(1, ev.len() as int) =~= inner + seq![101u8]);
            lemma_window(b, pos, ev, 1, inner + seq![101u8]);
            assert(encode_entries(d, 0) =~= Seq::<u8>::empty());
            assert(d.subrange(0, 0) =~= Seq::<BEntry>::empty());
            lemma_parse_entries(b, pos + 1, depth + 1, d, 0);
            assert(b[pos] == ev[0] && ev[0] == 100);
        },
    }
}

#[verifier::rlimit(40)]
proof fn lemma_parse_items(b: Seq<u8>, start: int, depth: int, l: Seq<BValue>, k: nat)
    requires
        k <= l.len(),
        forall|i: int| 0 <= i < l.len() ==> well_formed(#[trigger] l[i], depth),
        0 <= start,
        start + encode_items(l, l.len()).len() + 1 <= b.len(),
        b.subrange(start, start + encode_items(l, l.len()).len() + 1) == encode_items(l, l.len())
            + seq![101u8],
    ensures
        list_items(b, start + encode_items(l, k).len(), depth, l.subrange(0, k as int)) == Some(
            (l, start + encode_items(l, l.len()).len() + 1),
        ),
    decreases l, l.len() - k,
{
    let all = encode_items(l, l.len());
    let whole = all + seq![101u8];
    let end = start + all.len() + 1;
    let pk = start + encode_items(l, k).len();
    lemma_items_prefix(l, k, l.len());
    assert forall|i: int| 0 <= i < whole.len() implies b[start + i] == #[trigger] whole[i] by {
        assert(b.subrange(start, end)[i] == b[start + i]);
    }
    if k == l.len() {
        assert(b[pk] == whole[all.len() as int]);
        assert(l.subrange(0, k as int) =~= l);
    } else {
        let x = l[k as int];
        let k1 = (k + 1) as nat;
        lemma_items_prefix(l, k1, l.len());
        assert(encode_items(l, k1) == encode_items(l, k) + encode(x));
        let ex = encode(x);
        assert forall|i: int| 0 <= i < ex.len() implies b[pk + i] == #[trigger] ex[i] by {
            assert(encode_items(l, k1)[encode_items(l, k).len() + i] == ex[i]);
            assert(all.subrange(0, encode_items(l, k1).len() as int)[encode_items(l, k).len()
                + i] == all[encode_items(l, k).len() + i]);
            assert(whole[encode_items(l, k).len() + i] == all[encode_items(l, k).len() + i]);
        }
        assert(b.subrange(pk, pk + ex.len()) =~= ex);
        lemma_encoding_starts(x);
        assert(b[pk] == ex[0]);
        lemma_parse_encoding(b, pk, depth, x);
        assert(l.subrange(0, k as int).push(x) =~= l.subrange(0, k1 as int));
        lemma_parse_items(b, start, depth, l, k1);
    }
}

#[verifier::rlimit(40)]
proof fn lemma_parse_entries(b: Seq<u8>, start: int, depth: int, d: Seq<BEntry>, k: nat)
    requires
        k <= d.len(),
        forall|i: int|
            0 <= i < d.len() ==> well_formed(#[trigger] d[i].value, depth) && d[i].raw == encode(
                d[i].value,
            ),
        forall|i: int| 1 <= i < d.len() ==> key_less(d[i - 1].key, #[trigger] d[i].key),
        0 <= start,
        start + encode_entries(d, d.len()).len() + 1 <= b.len(),
        b.subrange(start, start + encode_entries(d, d.len()).len() + 1) == encode_entries(
            d,
            d.len(),
        ) + seq![101u8],
    ensures
        dict_items(b, start + encode_entries(d, k).len(), depth, d.subrange(0, k as int)) == Some(
            (d, start + encode_entries(d, d.len()).len() + 1),
        ),
    decreases d, d.len() - k,
{
    let all = encode_entries(d, d.len());
    let whole = all + seq![101u8];
    let end = start + all.len() + 1;
    let pk = start + encode_entries(d, k).len();
    lemma_entries_prefix(d, k, d.len());
    assert forall|i: int| 0 <= i < whole.len() implies b[start + i] == #[trigger] whole[i] by {
        assert(b.subrange(start, end)[i] == b[start + i]);
    }
    if k == d.len() {
        assert(b[pk] == whole[all.len() as int]);
        assert(d.subrange(0, k as int) =~= d);
    } else {
        let x = d[k as int];
        let k1 = (k + 1) as nat;
        lemma_entries_prefix(d, k1, d.len());
        let ek = encode_bytes(x.key);
        let ev = encode(x.value);
        assert(encode_entries(d, k1) == encode_entries(d, k) + ek + ev);
        let base = encode_entries(d, k).len();
        assert forall|i: int| 0 <= i < ek.len() + ev.len() implies b[pk + i] == #[trigger] (ek
            + ev)[i] by {
            assert(encode_entries(d, k1)[base + i] == (ek + ev)[i]);
            assert(all.subrange(0, encode_entries(d, k1).len() as int)[base + i] == all[base
                + i]);
            assert(whole[base + i] == all[base + i]);
        }
        let ke = pk + ek.len();
        assert(b.subrange(pk, pk + ek.len() + ev.len()) =~= ek + ev);
        assert((ek + ev).subrange(0, ek.len() as int) =~= ek);
        assert((ek + ev).subrange(ek.len() as int, ek.len() + ev.len() as int) =~= ev);
        lemma_window(b, pk, ek + ev, 0, ek);
        lemma_window(b, pk, ek + ev, ek.len() as int, ev);
        lemma_parse_bytes_encoding(b, pk, x.key);
        lemma_parse_encoding(b, ke, depth, x.value);
        lemma_encoding_starts(BValue::Bytes(x.key));
        let acc = d.subrange(0, k as int);
        if k > 0 {
            assert(acc.last() == d[k - 1]);
        }
        assert(b.subrange(ke, ke + ev.len()) == x.raw);
        assert(BEntry { key: x.key, value: x.value, raw: b.subrange(ke, ke + ev.len()) } == x);
        assert(acc.push(x) =~= d.subrange(0, k1 as int));
        lemma_parse_entries(b, start, depth, d, k1);
    }
}

/// Encoding a value that the format carries and parsing the result gives
/// the value back.
pub proof fn parse_after_encode(v: BValue)
    requires
        well_formed(v, 0),
    ensures
        parse_spec(encode(v)) == Some(v),
{
    let b = encode(v);
    assert(b.subrange(0, b.len() as int) =~= b);
    lemma_parse_encoding(b, 0, 0, v);
}

} // verus!
