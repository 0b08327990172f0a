//! Decoding: a parser over byte positions, and the decoder that follows it.
use vstd::prelude::*;
use crate::bytes::{copy_range, BEStr};
use crate::value::{dict_insert, has_key, views, BEDict, BEncodedData, Value};

verus! {

broadcast use {vstd::std_specs::vec::group_vec_axioms, vstd::seq::group_seq_axioms};

/// How deeply lists and dictionaries may nest in what `decode_bencoded_value` accepts.
pub const MAX_DEPTH: usize = 64;

/// Why a buffer does not decode; each carries the offset of the value at fault.
#[derive(Debug, Clone, Copy, PartialEq, Eq, Structural)]
pub enum DecodeError {
    InvalidLeadingByte(usize),
    MalformedInteger(usize),
    Truncated(usize),
    NonStringKey(usize),
    DuplicateKey(usize),
    MaxDepthExceeded(usize),
}

pub open spec fn is_digit(b: u8) -> bool {
    48 <= b <= 57
}

/// Where the run of decimal digits that starts at `p` ends.
pub open spec fn digits_end(s: Seq<u8>, p: int) -> int
    decreases s.len() - p,
{
    if 0 <= p < s.len() && is_digit(s[p]) {
        digits_end(s, p + 1)
    } else {
        p
    }
}

/// The number that the digits `s[p..q]` write in base ten.
pub open spec fn digits_value(s: Seq<u8>, p: int, q: int) -> nat
    decreases q - p,
{
    if q <= p {
        0
    } else {
        digits_value(s, p, q - 1) * 10 + (s[q - 1] - 48) as nat
    }
}

/// `i<digits>e` at `p`: an optional `-`, then digits with no leading zero, no `-0`,
/// and a value that fits in 64 signed bits.
pub open spec fn parse_int(s: Seq<u8>, p: int) -> Result<(Value, int), DecodeError> {
    let neg = p + 1 < s.len() && s[p + 1] == 45;
    let ds = if neg { p + 2 } else { p + 1 };
    let de = digits_end(s, ds);
    let mag = digits_value(s, ds, de);
    let n: int = if neg { -mag } else { mag as int };
    if de == ds || de >= s.len() || s[de] != 101 || (s[ds] == 48 && (de > ds + 1 || neg))
        || n < i64::MIN || n > i64::MAX {
        Err(DecodeError::MalformedInteger(p as usize))
    } else {
        Ok((Value::Int(n), de + 1))
    }
}

/// `<length>:<bytes>` at `p`: the bytes and where they end.
pub open spec fn parse_str(s: Seq<u8>, p: int) -> Result<(Seq<u8>, int), DecodeError> {
    let de = digits_end(s, p);
    let n = digits_value(s, p, de);
    if de >= s.len() || s[de] != 58 || de + 1 + n > s.len() {
        Err(DecodeError::Truncated(p as usize))
    } else {
        Ok((s.subrange(de + 1, de + 1 + n), de + 1 + n))
    }
}

/// The value that starts at `p`, and the position just past it; lists and
/// dictionaries may nest `d` deep.
pub open spec fn parse_at(s: Seq<u8>, p: int, d: nat) -> Result<(Value, int), DecodeError>
    decreases d, 0int,
{
    if p < 0 || p >= s.len() {
        Err(DecodeError::Truncated(p as usize))
    } else if s[p] == 105 {
        parse_int(s, p)
    } else if is_digit(s[p]) {
        match parse_str(s, p) {
            Ok((b, q)) => Ok((Value::Str(b), q)),
            Err(e) => Err(e),
        }
    } else if s[p] == 108 || s[p] == 100 {
        if d == 0 {
            Err(DecodeError::MaxDepthExceeded(p as usize))
        } else if s[p] == 108 {
            match parse_items(s, p + 1, (d - 1) as nat, Seq::empty()) {
                Ok((vs, q)) => Ok((Value::List(vs), q)),
                Err(e) => Err(e),
            }
        } else {
            match parse_entries(s, p + 1, (d - 1) as nat, Seq::empty()) {
                Ok((es, q)) => Ok((Value::Dict(es), q)),
                Err(e) => Err(e),
            }
        }
    } else {
        Err(DecodeError::InvalidLeadingByte(p as usize))
    }
}

/// The items of a list from `p` up to its `e`, after the items `acc` already read.
pub open spec fn parse_items(s: Seq<u8>, p: int, d: nat, acc: Seq<Value>) -> Result<(Seq<Value>, int), DecodeError>
    decreases d, s.len() - p + 1,
{
    if p < 0 || p >= s.len() {
        Err(DecodeError::Truncated(p as usize))
    } else if s[p] == 101 {
        Ok((acc, p + 1))
    } else {
        match parse_at(s, p, d) {
            Err(e) => Err(e),
            Ok((v, q)) => {
                // a value always takes at least one byte of the buffer
                if q <= p || q > s.len() {
                    Err(DecodeError::Truncated(p as usize))
                } else {
                    parse_items(s, q, d, acc.push(v))
                }
            },
        }
    }
}

/// The entries of a dictionary from `p` up to its `e`, inserted in key order into
/// the entries `acc` already read; a key read twice is an error.
pub open spec fn parse_entries(s: Seq<u8>, p: int, d: nat, acc: Seq<(Seq<u8>, Value)>) -> Result<(Seq<(Seq<u8>, Value)>, int), DecodeError>
    decreases d, s.len() - p + 1,
{
    if p < 0 || p >= s.len() {
        Err(DecodeError::Truncated(p as usize))
    } else if s[p] == 101 {
        Ok((acc, p + 1))
    } else if !is_digit(s[p]) {
        Err(DecodeError::NonStringKey(p as usize))
    } else {
        match parse_str(s, p) {
            Err(e) => Err(e),
            Ok((k, q)) => match parse_at(s, q, d) {
                Err(e) => Err(e),
                Ok((v, r)) => {
                    if r <= p || r > s.len() {
                        Err(DecodeError::Truncated(p as usize))
                    } else if has_key(acc, k) {
                        Err(DecodeError::DuplicateKey(p as usize))
                    } else {
                        parse_entries(s, r, d, dict_insert(acc, k, v))
                    }
                },
            },
        }
    }
}

/// What decoding the front of `s` gives, nesting at most `d` deep.
pub open spec fn decode_spec(s: Seq<u8>, d: nat) -> Result<(Value, int), DecodeError> {
    parse_at(s, 0, d)
}

/// The model of an executable decoding result.
pub open spec fn result_view<T>(r: Result<(BEncodedData, T), DecodeError>, f: spec_fn(T) -> int) -> Result<(Value, int), DecodeError> {
    match r {
        Ok((v, q)) => Ok((v.view(), f(q))),
        Err(e) => Err(e),
    }
}

proof fn lemma_digits_end(s: Seq<u8>, p: int)
    requires
        0 <= p,
    ensures
        p <= digits_end(s, p),
        digits_end(s, p) <= s.len() || digits_end(s, p) == p,
        forall|j: int| p <= j < digits_end(s, p) ==> is_digit(#[trigger] s[j]),
        digits_end(s, p) < s.len() ==> !is_digit(s[digits_end(s, p)]),
    decreases s.len() - p,
{
    if 0 <= p < s.len() && is_digit(s[p]) {
        lemma_digits_end(s, p + 1);
    }
}

proof fn lemma_digits_monotone(s: Seq<u8>, p: int, k: int, q: int)
    requires
        p <= k <= q,
        forall|j: int| p <= j < q ==> is_digit(#[trigger] s[j]),
    ensures
        digits_value(s, p, k) <= digits_value(s, p, q),
    decreases q - k,
{
    if k < q {
        lemma_digits_monotone(s, p, k, q - 1);
        assert(is_digit(s[q - 1]));
    }
}

fn decode_int(buf: &[u8], p: usize) -> (r: Result<(BEncodedData, usize), DecodeError>)
    requires
        p < buf.len(),
        buf@[p as int] == 105,
    ensures
        result_view(r, |q: usize| q as int) == parse_int(buf@, p as int),
        r matches Ok((_, q)) ==> p < q <= buf.len(),
{
    let ghost s = buf@;
    let len = buf.len();
    let neg = p + 1 < len && buf[p + 1] == 45;
    let ds = if neg { p + 2 } else { p + 1 };
    let mut i: usize = ds;
    let mut acc: u64 = 0;
    proof {
        lemma_digits_end(s, ds as int);
    }
    while i < len && 48 <= buf[i] && buf[i] <= 57
        invariant
            ds <= i <= len == s.len(),
            s == buf@,
            p < len,
            neg == (p + 1 < s.len() && s[p + 1] == 45),
            ds == if neg { p + 2 } else { p + 1 },
            acc == digits_value(s, ds as int, i as int),
            acc <= 0x8000_0000_0000_0000u64,
            digits_end(s, ds as int) == digits_end(s, i as int),
            forall|j: int| ds <= j < digits_end(s, ds as int) ==> is_digit(#[trigger] s[j]),
        decreases len - i,
    {
        let dgt = (buf[i] - 48) as u64;
        proof {
            lemma_digits_end(s, i + 1);
        }
        if acc > 922337203685477580u64 || (acc == 922337203685477580u64 && dgt > 8) {
            proof {
                lemma_digits_monotone(s, ds as int, i + 1, digits_end(s, ds as int));
                assert(digits_value(s, ds as int, i + 1) == acc * 10 + dgt);
                let mag = digits_value(s, ds as int, digits_end(s, ds as int));
                assert(mag > 0x8000_0000_0000_0000u64);
            }
            return Err(DecodeError::MalformedInteger(p));
        }
        acc = acc * 10 + dgt;
        i = i + 1;
    }
    if i == ds || i >= len || buf[i] != 101 {
        return Err(DecodeError::MalformedInteger(p));
    }
    if buf[ds] == 48 && (i > ds + 1 || neg) {
        return Err(DecodeError::MalformedInteger(p));
    }
    let n: i64 = if neg {
        if acc == 0x8000_0000_0000_0000u64 {
            i64::MIN
        } else {
            -(acc as i64)
        }
    } else {
        if acc > 0x7fff_ffff_ffff_ffffu64 {
            return Err(DecodeError::MalformedInteger(p));
        }
        acc as i64
    };
    Ok((BEncodedData::Num(n), i + 1))
}

pub(crate) fn decode_str(buf: &[u8], p: usize) -> (r: Result<(Vec<u8>, usize), DecodeError>)
    requires
        p < buf.len(),
        is_digit(buf@[p as int]),
    ensures
        match r {
            Ok((b, q)) => parse_str(buf@, p as int) == Ok::<(Seq<u8>, int), DecodeError>((b@, q as int)) && p < q <= buf.len(),
            Err(e) => parse_str(buf@, p as int) == Err::<(Seq<u8>, int), DecodeError>(e),
        },
{
    let ghost s = buf@;
    let len = buf.len();
    let mut i: usize = p;
    let mut acc: usize = 0;
    proof {
        lemma_digits_end(s, p as int);
    }
    while i < len && 48 <= buf[i] && buf[i] <= 57
        invariant
            p <= i <= len == s.len(),
            s == buf@,
            acc == digits_value(s, p as int, i as int),
            acc <= len,
            digits_end(s, p as int) == digits_end(s, i as int),
            forall|j: int| p <= j < digits_end(s, p as int) ==> is_digit(#[trigger] s[j]),
        decreases len - i,
    {
        let dgt = (buf[i] - 48) as usize;
        proof {
            lemma_digits_end(s, i + 1);
        }
        if acc > len / 10 || dgt > len || acc * 10 > len - dgt {
            proof {
                assert(acc * 10 + dgt > len) by (nonlinear_arith)
                    requires
                        acc > len / 10 || dgt > len || acc * 10 > len - dgt,
                        dgt >= 0,
                ;
                lemma_digits_monotone(s, p as int, i + 1, digits_end(s, p as int));
            }
            return Err(DecodeError::Truncated(p));
        }
        acc = acc * 10 + dgt;
        i = i + 1;
    }
    if i >= len || buf[i] != 58 || acc > len - (i + 1) {
        return Err(DecodeError::Truncated(p));
    }
    let b = copy_range(buf, i + 1, i + 1 + acc);
    Ok((b, i + 1 + acc))
}

/// Decodes the value at `p`, with lists and dictionaries nesting at most `d` deep.
pub(crate) fn decode_value(buf: &[u8], p: usize, d: usize) -> (r: Result<(BEncodedData, usize), DecodeError>)
    requires
        p <= buf.len(),
    ensures
        result_view(r, |q: usize| q as int) == parse_at(buf@, p as int, d as nat),
        r matches Ok((_, q)) ==> p < q <= buf.len(),
    decreases d, 0nat,
{
    if p >= buf.len() {
        return Err(DecodeError::Truncated(p));
    }
    let c = buf[p];
    if c == 105 {
        decode_int(buf, p)
    } else if 48 <= c && c <= 57 {
        match decode_str(buf, p) {
            Ok((b, q)) => Ok((BEncodedData::ByteStr(BEStr::new(b)), q)),
            Err(e) => Err(e),
        }
    } else if c == 108 || c == 100 {
        if d == 0 {
            Err(DecodeError::MaxDepthExceeded(p))
        } else if c == 108 {
            match decode_list(buf, p + 1, d - 1) {
                Ok((l, q)) => Ok((BEncodedData::List(l), q)),
                Err(e) => Err(e),
            }
        } else {
            match decode_dict(buf, p + 1, d - 1) {
                Ok((dict, q)) => Ok((BEncodedData::Dict(dict), q)),
                Err(e) => Err(e),
            }
        }
    } else {
        Err(DecodeError::InvalidLeadingByte(p))
    }
}

/// Decodes list items from `p` through the closing `e`.
fn decode_list(buf: &[u8], p: usize, d: usize) -> (r: Result<(Vec<BEncodedData>, usize), DecodeError>)
    requires
        1 <= p <= buf.len(),
    ensures
        match r {
            Ok((l, q)) => parse_items(buf@, p as int, d as nat, Seq::empty()) == Ok::<(Seq<Value>, int), DecodeError>((views(l@), q as int)) && p < q <= buf.len(),
            Err(e) => parse_items(buf@, p as int, d as nat, Seq::empty()) == Err::<(Seq<Value>, int), DecodeError>(e),
        },
    decreases d, 1nat,
{
    let ghost s = buf@;
    let mut vals: Vec<BEncodedData> = Vec::new();
    let mut i: usize = p;
    assert(views(vals@) =~= Seq::<Value>::empty());
    loop
        invariant
            p <= i <= buf.len(),
            s == buf@,
            parse_items(s, p as int, d as nat, Seq::empty()) == parse_items(s, i as int, d as nat, views(vals@)),
        decreases buf.len() - i,
    {
        if i >= buf.len() {
            return Err(DecodeError::Truncated(i));
        }
        if buf[i] == 101 {
            return Ok((vals, i + 1));
        }
        match decode_value(buf, i, d) {
            Err(e) => {
                return Err(e);
            },
            Ok((v, q)) => {
                let ghost old_views = views(vals@);
                let ghost vv = v.view();
                vals.push(v);
                assert(views(vals@) =~= old_views.push(vv));
                i = q;
            },
        }
    }
}

/// Decodes dictionary entries from `p` through the closing `e`.
fn decode_dict(buf: &[u8], p: usize, d: usize) -> (r: Result<(BEDict, usize), DecodeError>)
    requires
        1 <= p <= buf.len(),
    ensures
        match r {
            Ok((dict, q)) => parse_entries(buf@, p as int, d as nat, Seq::empty()) == Ok::<(Seq<(Seq<u8>, Value)>, int), DecodeError>((dict.view_entries(), q as int)) && p < q <= buf.len() && dict.wf(),
            Err(e) => parse_entries(buf@, p as int, d as nat, Seq::empty()) == Err::<(Seq<(Seq<u8>, Value)>, int), DecodeError>(e),
        },
    decreases d, 1nat,
{
    let ghost s = buf@;
    let mut dict = BEDict::new();
    let mut i: usize = p;
    loop
        invariant
            p <= i <= buf.len(),
            s == buf@,
            dict.wf(),
            parse_entries(s, p as int, d as nat, Seq::empty()) == parse_entries(s, i as int, d as nat, dict.view_entries()),
        decreases buf.len() - i,
    {
        if i >= buf.len() {
            return Err(DecodeError::Truncated(i));
        }
        let c = buf[i];
        if c == 101 {
            return Ok((dict, i + 1));
        }
        if !(48 <= c && c <= 57) {
            return Err(DecodeError::NonStringKey(i));
        }
        let (key, q) = match decode_str(buf, i) {
            Err(e) => {
                return Err(e);
            },
            Ok(kq) => kq,
        };
        let (val, r) = match decode_value(buf, q, d) {
            Err(e) => {
                return Err(e);
            },
            Ok(vr) => vr,
        };
        if !dict.insert(BEStr::new(key), val) {
            return Err(DecodeError::DuplicateKey(i));
        }
        i = r;
    }
}

/// Decodes the value at the front of `buf`, with lists and dictionaries nesting at
/// most `max_depth` deep: the number of bytes it takes, and the value.
pub fn decode_with_max_depth(buf: &[u8], max_depth: usize) -> (r: Result<(usize, BEncodedData), DecodeError>)
    ensures
        match r {
            Ok((n, v)) => decode_spec(buf@, max_depth as nat) == Ok::<(Value, int), DecodeError>((v.view(), n as int)) && 1 <= n <= buf.len(),
            Err(e) => decode_spec(buf@, max_depth as nat) == Err::<(Value, int), DecodeError>(e),
        },
{
    match decode_value(buf, 0, max_depth) {
        Ok((v, n)) => Ok((n, v)),
        Err(e) => Err(e),
    }
}

/// Decodes the value at the front of `buf`: the number of bytes it takes, and the value.
pub fn decode_bencoded_value(buf: &[u8]) -> (r: Result<(usize, BEncodedData), DecodeError>)
    ensures
        match r {
            Ok((n, v)) => decode_spec(buf@, MAX_DEPTH as nat) == Ok::<(Value, int), DecodeError>((v.view(), n as int)) && 1 <= n <= buf.len(),
            Err(e) => decode_spec(buf@, MAX_DEPTH as nat) == Err::<(Value, int), DecodeError>(e),
        },
{
    decode_with_max_depth(buf, MAX_DEPTH)
}

} // verus!
