//! Decoding inverts canonical encoding.
use vstd::prelude::*;
use crate::bytes::{lex_lt, lemma_lex_asymmetric, lemma_lex_irreflexive, lemma_lex_transitive};
use crate::value::{dict_insert, has_key, keys_sorted, lemma_insert_last, lemma_insert_sorted, Value};
use crate::encode::{encode_entries, encode_int_spec, encode_items, encode_str_spec, encode_value, int_text, nat_digits};
use crate::decode::{decode_spec, digits_end, digits_value, is_digit, parse_at, parse_entries, parse_int, parse_items, parse_str};

verus! {

broadcast use vstd::seq::group_seq_axioms;

/// A value that encoding and decoding carry unchanged: no empty value anywhere,
/// integers within 64 signed bits, dictionary keys strictly ascending.
pub open spec fn canonical(v: Value) -> bool
    decreases v,
{
    match v {
        Value::Empty => false,
        Value::Int(n) => i64::MIN <= n <= i64::MAX,
        Value::Str(_) => true,
        Value::List(vs) => forall|i: int| 0 <= i < vs.len() ==> canonical(#[trigger] vs[i]),
        Value::Dict(es) => keys_sorted(es) && forall|i: int| 0 <= i < es.len() ==> canonical(#[trigger] es[i].1),
    }
}

/// Lists and dictionaries in `v` nest at most `d` deep.
pub open spec fn fits_depth(v: Value, d: nat) -> bool
    decreases v,
{
    match v {
        Value::List(vs) => d > 0 && forall|i: int| 0 <= i < vs.len() ==> fits_depth(#[trigger] vs[i], (d - 1) as nat),
        Value::Dict(es) => d > 0 && forall|i: int| 0 <= i < es.len() ==> fits_depth(#[trigger] es[i].1, (d - 1) as nat),
        _ => true,
    }
}

proof fn lemma_digits_shape(m: nat)
    ensures
        nat_digits(m).len() >= 1,
        forall|i: int| 0 <= i < nat_digits(m).len() ==> is_digit(#[trigger] nat_digits(m)[i]),
        nat_digits(m)[0] == 48 ==> m == 0 && nat_digits(m).len() == 1,
    decreases m,
{
    if m >= 10 {
        lemma_digits_shape(m / 10);
    }
}

proof fn lemma_digits_read(s: Seq<u8>, a: int, m: nat)
    requires
        0 <= a,
        a + nat_digits(m).len() <= s.len(),
        s.subrange(a, a + nat_digits(m).len()) == nat_digits(m),
    ensures
        digits_value(s, a, a + nat_digits(m).len()) == m,
    decreases m,
{
    let ds = nat_digits(m);
    let l = ds.len() as int;
    lemma_digits_shape(m);
    if m >= 10 {
        let pre = nat_digits(m / 10);
        assert(s.subrange(a, a + pre.len()) =~= pre) by {
            assert forall|i: int| 0 <= i < pre.len() implies s.subrange(a, a + pre.len())[i] == pre[i] by {
                assert(s.subrange(a, a + l)[i] == ds[i]);
            }
        }
        lemma_digits_read(s, a, m / 10);
        assert(s[a + l - 1] == s.subrange(a, a + l)[l - 1]);
        assert(pre.len() == l - 1);
        assert(s[a + l - 1] == (48 + m % 10) as u8);
        assert(digits_value(s, a, a + l) == digits_value(s, a, a + l - 1) * 10 + (s[a + l - 1] - 48) as nat);
        assert((m / 10) * 10 + m % 10 == m);
    } else {
        assert(s[a] == s.subrange(a, a + l)[0]);
        assert(digits_value(s, a, a) == 0);
        assert(digits_value(s, a, a + 1) == digits_value(s, a, a) * 10 + (s[a] - 48) as nat);
    }
}

proof fn lemma_digits_end_at(s: Seq<u8>, a: int, q: int)
    requires
        0 <= a <= q <= s.len(),
        forall|j: int| a <= j < q ==> is_digit(#[trigger] s[j]),
        q == s.len() || !is_digit(s[q]),
    ensures
        digits_end(s, a) == q,
    decreases q - a,
{
    if a < q {
        lemma_digits_end_at(s, a + 1, q);
    }
}

/// The number written at `a` is read back, and its digits end where it ends.
proof fn lemma_number_at(s: Seq<u8>, a: int, m: nat)
    requires
        0 <= a,
        a + nat_digits(m).len() < s.len(),
        s.subrange(a, a + nat_digits(m).len()) == nat_digits(m),
        !is_digit(s[a + nat_digits(m).len()]),
    ensures
        digits_end(s, a) == a + nat_digits(m).len(),
        digits_value(s, a, a + nat_digits(m).len()) == m,
        is_digit(s[a]),
        s[a] == 48 ==> m == 0 && nat_digits(m).len() == 1,
{
    let ds = nat_digits(m);
    lemma_digits_shape(m);
    assert forall|j: int| a <= j < a + ds.len() implies is_digit(#[trigger] s[j]) by {
        assert(s[j] == s.subrange(a, a + ds.len())[j - a]);
    }
    assert(s[a] == s.subrange(a, a + ds.len())[0]);
    lemma_digits_end_at(s, a, a + ds.len());
    lemma_digits_read(s, a, m);
}

proof fn lemma_parse_int_encoded(s: Seq<u8>, p: int, n: int)
    requires
        0 <= p,
        i64::MIN <= n <= i64::MAX,
        p + encode_int_spec(n).len() <= s.len(),
        s.subrange(p, p + encode_int_spec(n).len()) == encode_int_spec(n),
    ensures
        parse_int(s, p) == Ok::<(Value, int), crate::decode::DecodeError>((Value::Int(n), p + encode_int_spec(n).len())),
{
    let e = encode_int_spec(n);
    let m: nat = if n < 0 { (-n) as nat } else { n as nat };
    let ds = if n < 0 { p + 2 } else { p + 1 };
    let l = nat_digits(m).len() as int;
    lemma_digits_shape(m);
    assert forall|j: int| 0 <= j < e.len() implies s[p + j] == #[trigger] e[j] by {
        assert(s.subrange(p, p + e.len())[j] == e[j]);
    }
    assert(s.subrange(ds, ds + l) =~= nat_digits(m)) by {
        assert forall|j: int| 0 <= j < l implies s.subrange(ds, ds + l)[j] == nat_digits(m)[j] by {
            assert(s[ds + j] == e[ds - p + j]);
        }
    }
    assert(s[ds + l] == e[ds - p + l]);
    assert(s[p + 1] == e[1]);
    lemma_number_at(s, ds, m);
}

proof fn lemma_parse_str_encoded(s: Seq<u8>, p: int, b: Seq<u8>)
    requires
        0 <= p,
        p + encode_str_spec(b).len() <= s.len(),
        s.subrange(p, p + encode_str_spec(b).len()) == encode_str_spec(b),
    ensures
        parse_str(s, p) == Ok::<(Seq<u8>, int), crate::decode::DecodeError>((b, p + encode_str_spec(b).len())),
        is_digit(s[p]),
{
    let e = encode_str_spec(b);
    let l = nat_digits(b.len()).len() as int;
    lemma_digits_shape(b.len());
    assert forall|j: int| 0 <= j < e.len() implies s[p + j] == #[trigger] e[j] by {
        assert(s.subrange(p, p + e.len())[j] == e[j]);
    }
    assert(s.subrange(p, p + l) =~= nat_digits(b.len())) by {
        assert forall|j: int| 0 <= j < l implies s.subrange(p, p + l)[j] == nat_digits(b.len())[j] by {
            assert(s[p + j] == e[j]);
        }
    }
    assert(s[p + l] == e[l]);
    lemma_number_at(s, p, b.len());
    assert(s.subrange(p + l + 1, p + l + 1 + b.len()) =~= b) by {
        assert forall|j: int| 0 <= j < b.len() implies s.subrange(p + l + 1, p + l + 1 + b.len())[j] == b[j] by {
            assert(s[p + l + 1 + j] == e[l + 1 + j]);
        }
    }
}

proof fn lemma_items_front(vs: Seq<Value>)
    requires
        vs.len() > 0,
    ensures
        encode_items(vs) == encode_value(vs[0]) + encode_items(vs.drop_first()),
    decreases vs.len(),
{
    if vs.len() > 1 {
        lemma_items_front(vs.drop_last());
        assert(vs.drop_last().drop_first() =~= vs.drop_first().drop_last());
        assert(vs.drop_first().last() == vs.last());
        assert(encode_items(vs) =~= encode_value(vs[0]) + encode_items(vs.drop_first()));
    } else {
        assert(vs.drop_last() =~= Seq::<Value>::empty());
        assert(vs.drop_first() =~= Seq::<Value>::empty());
        assert(encode_items(vs) =~= encode_value(vs[0]) + encode_items(vs.drop_first()));
    }
}

proof fn lemma_entries_front(es: Seq<(Seq<u8>, Value)>)
    requires
        es.len() > 0,
    ensures
        encode_entries(es) == encode_str_spec(es[0].0) + encode_value(es[0].1) + encode_entries(es.drop_first()),
    decreases es.len(),
{
    if es.len() > 1 {
        lemma_entries_front(es.drop_last());
        assert(es.drop_last().drop_first() =~= es.drop_first().drop_last());
        assert(es.drop_first().last() == es.last());
        assert(encode_entries(es) =~= encode_str_spec(es[0].0) + encode_value(es[0].1) + encode_entries(es.drop_first()));
    } else {
        assert(es.drop_last() =~= Seq::<(Seq<u8>, Value)>::empty());
        assert(es.drop_first() =~= Seq::<(Seq<u8>, Value)>::empty());
        assert(encode_entries(es) =~= encode_str_spec(es[0].0) + encode_value(es[0].1) + encode_entries(es.drop_first()));
    }
}

/// The encoding of a canonical value is not empty, and does not start with `e`.
proof fn lemma_encoding_head(v: Value)
    requires
        canonical(v),
    ensures
        encode_value(v).len() > 0,
        encode_value(v)[0] != 101,
{
    match v {
        Value::Str(b) => {
            lemma_digits_shape(b.len());
        },
        _ => {},
    }
}

/// The bytes `e` stand at `p` in `s`.
pub open spec fn bytes_at(s: Seq<u8>, p: int, e: Seq<u8>) -> bool {
    0 <= p && p + e.len() <= s.len() && s.subrange(p, p + e.len()) == e
}

proof fn lemma_bytes_split(s: Seq<u8>, p: int, a: Seq<u8>, b: Seq<u8>)
    requires
        bytes_at(s, p, a + b),
    ensures
        bytes_at(s, p, a),
        bytes_at(s, p + a.len(), b),
{
    let e = a + b;
    assert(s.subrange(p, p + a.len()) =~= a) by {
        assert forall|j: int| 0 <= j < a.len() implies s.subrange(p, p + a.len())[j] == a[j] by {
            assert(s.subrange(p, p + e.len())[j] == e[j]);
        }
    }
    assert(s.subrange(p + a.len(), p + a.len() + b.len()) =~= b) by {
        assert forall|j: int| 0 <= j < b.len() implies s.subrange(p + a.len(), p + a.len() + b.len())[j] == b[j] by {
            assert(s.subrange(p, p + e.len())[a.len() + j] == e[a.len() + j]);
        }
    }
}

/// A canonical value encoded at `p` parses back from `p`, to the end of its encoding.
pub proof fn lemma_parse_encoded(s: Seq<u8>, p: int, v: Value, d: nat)
    requires
        canonical(v),
        fits_depth(v, d),
        bytes_at(s, p, encode_value(v)),
    ensures
        parse_at(s, p, d) == Ok::<(Value, int), crate::decode::DecodeError>((v, p + encode_value(v).len())),
    decreases v,
{
    let e = encode_value(v);
    lemma_encoding_head(v);
    assert(s[p] == e[0]) by {
        assert(s.subrange(p, p + e.len())[0] == e[0]);
    }
    match v {
        Value::Empty => {},
        Value::Int(n) => {
            lemma_parse_int_encoded(s, p, n);
        },
        Value::Str(b) => {
            lemma_parse_str_encoded(s, p, b);
        },
        Value::List(vs) => {
            let inner = encode_items(vs);
            assert(e == seq![108u8] + inner + seq![101u8]);
            lemma_bytes_split(s, p, seq![108u8] + inner, seq![101u8]);
            lemma_bytes_split(s, p, seq![108u8], inner);
            assert(s[p + 1 + inner.len()] == 101u8) by {
                assert(s.subrange(p + 1 + inner.len(), p + 2 + inner.len())[0] == 101u8);
            }
            lemma_parse_items_encoded(s, p + 1, (d - 1) as nat, vs, Seq::empty());
            assert(Seq::<Value>::empty() + vs =~= vs);
        },
        Value::Dict(es) => {
            let inner = encode_entries(es);
            assert(e == seq![100u8] + inner + seq![101u8]);
            lemma_bytes_split(s, p, seq![100u8] + inner, seq![101u8]);
            lemma_bytes_split(s, p, seq![100u8], inner);
            assert(s[p + 1 + inner.len()] == 101u8) by {
                assert(s.subrange(p + 1 + inner.len(), p + 2 + inner.len())[0] == 101u8);
            }
            lemma_parse_entries_encoded(s, p + 1, (d - 1) as nat, es, Seq::empty());
            assert(Seq::<(Seq<u8>, Value)>::empty() + es =~= es);
        },
    }
}

proof fn lemma_parse_items_encoded(s: Seq<u8>, q: int, d: nat, vs: Seq<Value>, acc: Seq<Value>)
    requires
        forall|i: int| 0 <= i < vs.len() ==> canonical(#[trigger] vs[i]) && fits_depth(vs[i], d),
        bytes_at(s, q, encode_items(vs)),
        q + encode_items(vs).len() < s.len(),
        s[q + encode_items(vs).len()] == 101,
    ensures
        parse_items(s, q, d, acc) == Ok::<(Seq<Value>, int), crate::decode::DecodeError>((acc + vs, q + encode_items(vs).len() + 1)),
    decreases vs,
{
    if vs.len() == 0 {
        assert(acc + vs =~= acc);
    } else {
        let v = vs[0];
        let rest = vs.drop_first();
        lemma_items_front(vs);
        lemma_bytes_split(s, q, encode_value(v), encode_items(rest));
        lemma_parse_encoded(s, q, v, d);
        lemma_encoding_head(v);
        assert(s[q] == encode_value(v)[0]) by {
            assert(s.subrange(q, q + encode_value(v).len())[0] == encode_value(v)[0]);
        }
        assert forall|i: int| 0 <= i < rest.len() implies canonical(#[trigger] rest[i]) && fits_depth(rest[i], d) by {
            assert(rest[i] == vs[i + 1]);
        }
        lemma_parse_items_encoded(s, q + encode_value(v).len(), d, rest, acc.push(v));
        assert(acc.push(v) + rest =~= acc + vs);
    }
}

proof fn lemma_parse_entries_encoded(s: Seq<u8>, q: int, d: nat, es: Seq<(Seq<u8>, Value)>, acc: Seq<(Seq<u8>, Value)>)
    requires
        forall|i: int| 0 <= i < es.len() ==> canonical(#[trigger] es[i].1) && fits_depth(es[i].1, d),
        keys_sorted(es),
        forall|i: int, j: int| 0 <= i < acc.len() && 0 <= j < es.len() ==> lex_lt(#[trigger] acc[i].0, #[trigger] es[j].0),
        bytes_at(s, q, encode_entries(es)),
        q + encode_entries(es).len() < s.len(),
        s[q + encode_entries(es).len()] == 101,
    ensures
        parse_entries(s, q, d, acc) == Ok::<(Seq<(Seq<u8>, Value)>, int), crate::decode::DecodeError>((acc + es, q + encode_entries(es).len() + 1)),
    decreases es,
{
    if es.len() == 0 {
        assert(acc + es =~= acc);
    } else {
        let k = es[0].0;
        let v = es[0].1;
        let rest = es.drop_first();
        let ks = encode_str_spec(k);
        lemma_entries_front(es);
        lemma_bytes_split(s, q, ks + encode_value(v), encode_entries(rest));
        lemma_bytes_split(s, q, ks, encode_value(v));
        lemma_parse_str_encoded(s, q, k);
        lemma_parse_encoded(s, q + ks.len(), v, d);
        assert forall|i: int| 0 <= i < acc.len() implies lex_lt(#[trigger] acc[i].0, k) by {
            assert(lex_lt(acc[i].0, es[0].0));
        }
        lemma_insert_last(acc, k, v);
        let acc2 = acc.push((k, v));
        assert(dict_insert(acc, k, v) == acc2);
        assert(!has_key(acc, k));
        assert forall|i: int| 0 <= i < rest.len() implies canonical(#[trigger] rest[i].1) && fits_depth(rest[i].1, d) by {
            assert(rest[i] == es[i + 1]);
        }
        assert forall|i: int, j: int| 0 <= i < acc2.len() && 0 <= j < rest.len() implies lex_lt(#[trigger] acc2[i].0, #[trigger] rest[j].0) by {
            assert(rest[j] == es[j + 1]);
            if i < acc.len() {
            } else {
                assert(lex_lt(es[0].0, es[j + 1].0));
            }
        }
        lemma_parse_entries_encoded(s, q + ks.len() + encode_value(v).len(), d, rest, acc2);
        assert(acc2 + rest =~= acc + es);
    }
}

/// Decoding the canonical encoding of a value gives back the value, and reports
/// exactly the encoding's length as consumed; bytes that follow it are not read.
pub proof fn lemma_decode_encode(v: Value, d: nat, rest: Seq<u8>)
    requires
        canonical(v),
        fits_depth(v, d),
    ensures
        decode_spec(encode_value(v) + rest, d) == Ok::<(Value, int), crate::decode::DecodeError>((v, encode_value(v).len() as int)),
{
    let s = encode_value(v) + rest;
    assert(s.subrange(0, encode_value(v).len() as int) =~= encode_value(v));
    lemma_parse_encoded(s, 0, v, d);
}

/// Whatever decodes is canonical and nests no deeper than allowed: in particular every
/// decoded dictionary lists its keys in strictly ascending order, whatever order the
/// input gave them in.
pub proof fn lemma_decoded_canonical(s: Seq<u8>, p: int, d: nat)
    ensures
        parse_at(s, p, d) matches Ok((v, _)) ==> canonical(v) && fits_depth(v, d),
    decreases d, 0int,
{
    if 0 <= p < s.len() && (s[p] == 108 || s[p] == 100) && d > 0 {
        if s[p] == 108 {
            lemma_items_canonical(s, p + 1, (d - 1) as nat, Seq::empty());
        } else {
            lemma_entries_canonical(s, p + 1, (d - 1) as nat, Seq::empty());
        }
    }
}

proof fn lemma_items_canonical(s: Seq<u8>, p: int, d: nat, acc: Seq<Value>)
    requires
        forall|i: int| 0 <= i < acc.len() ==> canonical(#[trigger] acc[i]) && fits_depth(acc[i], d),
    ensures
        parse_items(s, p, d, acc) matches Ok((vs, _)) ==> forall|i: int| 0 <= i < vs.len() ==> canonical(#[trigger] vs[i]) && fits_depth(vs[i], d),
    decreases d, s.len() - p + 1,
{
    if 0 <= p < s.len() && s[p] != 101 {
        lemma_decoded_canonical(s, p, d);
        if let Ok((v, q)) = parse_at(s, p, d) {
            if p < q <= s.len() {
                let acc2 = acc.push(v);
                assert forall|i: int| 0 <= i < acc2.len() implies canonical(#[trigger] acc2[i]) && fits_depth(acc2[i], d) by {
                    if i < acc.len() {
                        assert(acc2[i] == acc[i]);
                    }
                }
                lemma_items_canonical(s, q, d, acc2);
            }
        }
    }
}

proof fn lemma_entries_canonical(s: Seq<u8>, p: int, d: nat, acc: Seq<(Seq<u8>, Value)>)
    requires
        keys_sorted(acc),
        forall|i: int| 0 <= i < acc.len() ==> canonical(#[trigger] acc[i].1) && fits_depth(acc[i].1, d),
    ensures
        parse_entries(s, p, d, acc) matches Ok((es, _)) ==> keys_sorted(es) && forall|i: int| 0 <= i < es.len() ==> canonical(#[trigger] es[i].1) && fits_depth(es[i].1, d),
    decreases d, s.len() - p + 1,
{
    if 0 <= p < s.len() && s[p] != 101 && is_digit(s[p]) {
        if let Ok((k, q)) = parse_str(s, p) {
            lemma_decoded_canonical(s, q, d);
            if let Ok((v, r)) = parse_at(s, q, d) {
                if p < r <= s.len() && !has_key(acc, k) {
                    lemma_insert_sorted(acc, k, v);
                    crate::value::lemma_rank_bounds(acc, k);
                    let acc2 = dict_insert(acc, k, v);
                    assert forall|i: int| 0 <= i < acc2.len() implies canonical(#[trigger] acc2[i].1) && fits_depth(acc2[i].1, d) by {
                        let r = crate::value::rank(acc, k) as int;
                        if i < r {
                            assert(acc2[i] == acc[i]);
                        } else if i > r {
                            assert(acc2[i] == acc[i - 1]);
                        }
                    }
                    lemma_entries_canonical(s, r, d, acc2);
                }
            }
        }
    }
}

/// Decoding what `encode_int` writes for a 64-bit integer gives the integer back, and
/// consumes exactly those bytes.
pub proof fn lemma_decode_encode_int(n: i64, d: nat, rest: Seq<u8>)
    ensures
        decode_spec(encode_int_spec(n as int) + rest, d) == Ok::<(Value, int), crate::decode::DecodeError>((Value::Int(n as int), encode_int_spec(n as int).len() as int)),
{
    lemma_decode_encode(Value::Int(n as int), d, rest);
}

/// Decoding what `encode_str` writes for some bytes gives the bytes back, and
/// consumes exactly those bytes.
pub proof fn lemma_decode_encode_str(b: Seq<u8>, d: nat, rest: Seq<u8>)
    ensures
        decode_spec(encode_str_spec(b) + rest, d) == Ok::<(Value, int), crate::decode::DecodeError>((Value::Str(b), encode_str_spec(b).len() as int)),
{
    lemma_decode_encode(Value::Str(b), d, rest);
}

/// No two entries share a key.
pub open spec fn keys_distinct(es: Seq<(Seq<u8>, Value)>) -> bool {
    forall|i: int, j: int| 0 <= i < es.len() && 0 <= j < es.len() && i != j ==> #[trigger] es[i].0 != #[trigger] es[j].0
}

/// A dictionary written with its entries in the order given.
pub open spec fn dict_bytes(es: Seq<(Seq<u8>, Value)>) -> Seq<u8> {
    seq![100u8] + encode_entries(es) + seq![101u8]
}

/// Two sequences with strictly ascending keys that hold the same entries are equal.
proof fn lemma_sorted_unique(a: Seq<(Seq<u8>, Value)>, b: Seq<(Seq<u8>, Value)>)
    requires
        keys_sorted(a),
        keys_sorted(b),
        forall|x: (Seq<u8>, Value)| a.contains(x) <==> b.contains(x),
    ensures
        a == b,
    decreases a.len(),
{
    if a.len() == 0 {
        if b.len() > 0 {
            assert(b.contains(b[0]));
        }
        assert(a =~= b);
    } else if b.len() == 0 {
        assert(a.contains(a[0]));
    } else {
        assert(a.contains(a[0]));
        assert(b.contains(b[0]));
        let j = choose|j: int| 0 <= j < b.len() && b[j] == a[0];
        let i = choose|i: int| 0 <= i < a.len() && a[i] == b[0];
        if j > 0 {
            assert(lex_lt(b[0].0, b[j].0));
            if i > 0 {
                assert(lex_lt(a[0].0, a[i].0));
                lemma_lex_asymmetric(a[0].0, b[0].0);
            } else {
                lemma_lex_irreflexive(b[0].0);
            }
        }
        assert(a[0] == b[0]);
        let ta = a.drop_first();
        let tb = b.drop_first();
        assert forall|x: (Seq<u8>, Value)| ta.contains(x) <==> tb.contains(x) by {
            if ta.contains(x) {
                let k = choose|k: int| 0 <= k < ta.len() && ta[k] == x;
                assert(a[k + 1] == x);
                assert(b.contains(x));
                let m = choose|m: int| 0 <= m < b.len() && b[m] == x;
                if m == 0 {
                    assert(lex_lt(a[0].0, a[k + 1].0));
                    lemma_lex_irreflexive(a[0].0);
                }
                assert(tb[m - 1] == x);
            }
            if tb.contains(x) {
                let k = choose|k: int| 0 <= k < tb.len() && tb[k] == x;
                assert(b[k + 1] == x);
                assert(a.contains(x));
                let m = choose|m: int| 0 <= m < a.len() && a[m] == x;
                if m == 0 {
                    assert(lex_lt(b[0].0, b[k + 1].0));
                    lemma_lex_irreflexive(b[0].0);
                }
                assert(ta[m - 1] == x);
            }
        }
        lemma_sorted_unique(ta, tb);
        assert(a =~= b) by {
            assert forall|k: int| 0 <= k < a.len() implies a[k] == b[k] by {
                if k > 0 {
                    assert(a[k] == ta[k - 1]);
                    assert(b[k] == tb[k - 1]);
                }
            }
        }
    }
}

/// Entries with distinct keys, in any order, parse into ascending keys holding
/// exactly the entries read and those already there.
proof fn lemma_parse_entries_any_order(s: Seq<u8>, q: int, d: nat, es: Seq<(Seq<u8>, Value)>, acc: Seq<(Seq<u8>, Value)>)
    requires
        forall|i: int| 0 <= i < es.len() ==> canonical(#[trigger] es[i].1) && fits_depth(es[i].1, d),
        keys_distinct(es),
        keys_sorted(acc),
        forall|i: int, j: int| 0 <= i < acc.len() && 0 <= j < es.len() ==> #[trigger] acc[i].0 != #[trigger] es[j].0,
        bytes_at(s, q, encode_entries(es)),
        q + encode_entries(es).len() < s.len(),
        s[q + encode_entries(es).len()] == 101,
    ensures
        parse_entries(s, q, d, acc) matches Ok((r, e)) && e == q + encode_entries(es).len() + 1 && keys_sorted(r)
            && forall|x: (Seq<u8>, Value)| r.contains(x) <==> (acc.contains(x) || es.contains(x)),
    decreases es.len(),
{
    if es.len() == 0 {
        assert forall|x: (Seq<u8>, Value)| acc.contains(x) <==> (acc.contains(x) || es.contains(x)) by {}
    } else {
        let k = es[0].0;
        let v = es[0].1;
        let rest = es.drop_first();
        let ks = encode_str_spec(k);
        lemma_entries_front(es);
        lemma_bytes_split(s, q, ks + encode_value(v), encode_entries(rest));
        lemma_bytes_split(s, q, ks, encode_value(v));
        lemma_parse_str_encoded(s, q, k);
        lemma_parse_encoded(s, q + ks.len(), v, d);
        assert(!has_key(acc, k)) by {
            if has_key(acc, k) {
                let i = choose|i: int| 0 <= i < acc.len() && #[trigger] acc[i].0 == k;
                assert(acc[i].0 != es[0].0);
            }
        }
        lemma_insert_sorted(acc, k, v);
        crate::value::lemma_rank_bounds(acc, k);
        let acc2 = dict_insert(acc, k, v);
        let rk = crate::value::rank(acc, k) as int;
        assert forall|x: (Seq<u8>, Value)| acc2.contains(x) <==> (acc.contains(x) || x == (k, v)) by {
            if acc2.contains(x) {
                let m = choose|m: int| 0 <= m < acc2.len() && acc2[m] == x;
                if m < rk {
                    assert(acc[m] == x);
                } else if m > rk {
                    assert(acc[m - 1] == x);
                }
            }
            if acc.contains(x) {
                let m = choose|m: int| 0 <= m < acc.len() && acc[m] == x;
                if m < rk {
                    assert(acc2[m] == x);
                } else {
                    assert(acc2[m + 1] == x);
                }
            }
            if x == (k, v) {
                assert(acc2[rk] == x);
            }
        }
        assert forall|i: int| 0 <= i < rest.len() implies canonical(#[trigger] rest[i].1) && fits_depth(rest[i].1, d) by {
            assert(rest[i] == es[i + 1]);
        }
        assert forall|i: int, j: int| 0 <= i < acc2.len() && 0 <= j < rest.len() implies #[trigger] acc2[i].0 != #[trigger] rest[j].0 by {
            assert(rest[j] == es[j + 1]);
            assert(acc2.contains(acc2[i]));
            if acc.contains(acc2[i]) {
                let m = choose|m: int| 0 <= m < acc.len() && acc[m] == acc2[i];
                assert(acc[m].0 != es[j + 1].0);
            } else {
                assert(es[0].0 != es[j + 1].0);
            }
        }
        assert forall|i: int, j: int| 0 <= i < rest.len() && 0 <= j < rest.len() && i != j implies #[trigger] rest[i].0 != #[trigger] rest[j].0 by {
            assert(rest[i] == es[i + 1]);
            assert(rest[j] == es[j + 1]);
        }
        lemma_parse_entries_any_order(s, q + ks.len() + encode_value(v).len(), d, rest, acc2);
        assert forall|x: (Seq<u8>, Value)| es.contains(x) <==> (x == (k, v) || rest.contains(x)) by {
            if es.contains(x) {
                let m = choose|m: int| 0 <= m < es.len() && es[m] == x;
                if m > 0 {
                    assert(rest[m - 1] == x);
                }
            }
            if rest.contains(x) {
                let m = choose|m: int| 0 <= m < rest.len() && rest[m] == x;
                assert(es[m + 1] == x);
            }
            if x == (k, v) {
                assert(es[0] == x);
            }
        }
    }
}

proof fn lemma_decode_dict_bytes(es: Seq<(Seq<u8>, Value)>, d: nat)
    requires
        d > 0,
        keys_distinct(es),
        forall|i: int| 0 <= i < es.len() ==> canonical(#[trigger] es[i].1) && fits_depth(es[i].1, (d - 1) as nat),
    ensures
        decode_spec(dict_bytes(es), d) matches Ok((Value::Dict(r), n)) && n == dict_bytes(es).len() && keys_sorted(r)
            && forall|x: (Seq<u8>, Value)| r.contains(x) <==> es.contains(x),
{
    let s = dict_bytes(es);
    let inner = encode_entries(es);
    assert(s.subrange(1, 1 + inner.len() as int) =~= inner);
    assert(s[1 + inner.len() as int] == 101u8);
    assert(s[0] == 100u8);
    let empty = Seq::<(Seq<u8>, Value)>::empty();
    lemma_parse_entries_any_order(s, 1, (d - 1) as nat, es, empty);
    assert forall|x: (Seq<u8>, Value)| (empty.contains(x) || es.contains(x)) <==> es.contains(x) by {}
}

/// The order in which a dictionary's entries are written does not change what it
/// decodes to: two writings of the same entries, with distinct keys, decode to the
/// same dictionary, which holds exactly those entries in ascending key order.
pub proof fn lemma_key_order_irrelevant(e1: Seq<(Seq<u8>, Value)>, e2: Seq<(Seq<u8>, Value)>, d: nat)
    requires
        d > 0,
        keys_distinct(e1),
        keys_distinct(e2),
        forall|x: (Seq<u8>, Value)| e1.contains(x) <==> e2.contains(x),
        forall|i: int| 0 <= i < e1.len() ==> canonical(#[trigger] e1[i].1) && fits_depth(e1[i].1, (d - 1) as nat),
    ensures
        decode_spec(dict_bytes(e1), d) matches Ok((_, n1)) && n1 == dict_bytes(e1).len(),
        decode_spec(dict_bytes(e2), d) matches Ok((_, n2)) && n2 == dict_bytes(e2).len(),
        decode_spec(dict_bytes(e1), d)->Ok_0.0 == decode_spec(dict_bytes(e2), d)->Ok_0.0,
        decode_spec(dict_bytes(e1), d)->Ok_0.0 matches Value::Dict(r) && keys_sorted(r)
            && forall|x: (Seq<u8>, Value)| r.contains(x) <==> e1.contains(x),
{
    assert forall|i: int| 0 <= i < e2.len() implies canonical(#[trigger] e2[i].1) && fits_depth(e2[i].1, (d - 1) as nat) by {
        assert(e2.contains(e2[i]));
        let m = choose|m: int| 0 <= m < e1.len() && e1[m] == e2[i];
        assert(canonical(e1[m].1));
    }
    lemma_decode_dict_bytes(e1, d);
    lemma_decode_dict_bytes(e2, d);
    let r1 = decode_spec(dict_bytes(e1), d)->Ok_0.0->Dict_0;
    let r2 = decode_spec(dict_bytes(e2), d)->Ok_0.0->Dict_0;
    lemma_sorted_unique(r1, r2);
}

} // verus!
