//! Canonical encoding of values.
use vstd::prelude::*;
use vstd::string::StringSliceAdditionalSpecFns;
use crate::value::{BEncodedData, Value};

verus! {

broadcast use {vstd::std_specs::vec::group_vec_axioms, vstd::seq::group_seq_axioms};

/// The decimal digits of `n`, most significant first, with no leading zero.
pub open spec fn nat_digits(n: nat) -> Seq<u8>
    decreases n,
{
    if n < 10 {
        seq![(48 + n) as u8]
    } else {
        nat_digits(n / 10).push((48 + n % 10) as u8)
    }
}

/// The decimal text of `n`: a `-` before the digits of a negative number.
pub open spec fn int_text(n: int) -> Seq<u8> {
    if n < 0 {
        seq![45u8] + nat_digits((-n) as nat)
    } else {
        nat_digits(n as nat)
    }
}

/// `i<decimal>e`.
pub open spec fn encode_int_spec(n: int) -> Seq<u8> {
    seq![105u8] + int_text(n) + seq![101u8]
}

/// `<length>:<bytes>`.
pub open spec fn encode_str_spec(b: Seq<u8>) -> Seq<u8> {
    nat_digits(b.len()) + seq![58u8] + b
}

/// The canonical encoding of a value; the empty value has none.
pub open spec fn encode_value(v: Value) -> Seq<u8>
    decreases v,
{
    match v {
        Value::Empty => Seq::empty(),
        Value::Int(n) => encode_int_spec(n),
        Value::Str(b) => encode_str_spec(b),
        Value::List(vs) => seq![108u8] + encode_items(vs) + seq![101u8],
        Value::Dict(es) => seq![100u8] + encode_entries(es) + seq![101u8],
    }
}

/// The encodings of the items, one after the other.
pub open spec fn encode_items(vs: Seq<Value>) -> Seq<u8>
    decreases vs,
{
    if vs.len() == 0 {
        Seq::empty()
    } else {
        encode_items(vs.drop_last()) + encode_value(vs.last())
    }
}

/// Each key's encoding followed by its value's, in the order given.
pub open spec fn encode_entries(es: Seq<(Seq<u8>, Value)>) -> Seq<u8>
    decreases es,
{
    if es.len() == 0 {
        Seq::empty()
    } else {
        encode_entries(es.drop_last()) + encode_str_spec(es.last().0) + encode_value(es.last().1)
    }
}

/// An integer type that can be written as a bencoded integer.
pub trait EncodableInt {
    spec fn int_value(&self) -> int;

    /// Whether the number is negative, and its absolute value.
    fn sign_and_magnitude(&self) -> (r: (bool, u128))
        ensures
            r.0 == (self.int_value() < 0),
            r.1 as int == if self.int_value() < 0 { -self.int_value() } else { self.int_value() },
    ;
}

impl EncodableInt for u8 {
    open spec fn int_value(&self) -> int { *self as int }

    fn sign_and_magnitude(&self) -> (r: (bool, u128)) { (false, *self as u128) }
}

impl EncodableInt for u16 {
    open spec fn int_value(&self) -> int { *self as int }

    fn sign_and_magnitude(&self) -> (r: (bool, u128)) { (false, *self as u128) }
}

impl EncodableInt for u32 {
    open spec fn int_value(&self) -> int { *self as int }

    fn sign_and_magnitude(&self) -> (r: (bool, u128)) { (false, *self as u128) }
}

impl EncodableInt for u64 {
    open spec fn int_value(&self) -> int { *self as int }

    fn sign_and_magnitude(&self) -> (r: (bool, u128)) { (false, *self as u128) }
}

impl EncodableInt for u128 {
    open spec fn int_value(&self) -> int { *self as int }

    fn sign_and_magnitude(&self) -> (r: (bool, u128)) { (false, *self) }
}

impl EncodableInt for usize {
    open spec fn int_value(&self) -> int { *self as int }

    fn sign_and_magnitude(&self) -> (r: (bool, u128)) { (false, *self as u128) }
}

impl EncodableInt for i8 {
    open spec fn int_value(&self) -> int { *self as int }

    fn sign_and_magnitude(&self) -> (r: (bool, u128)) { signed_parts(*self as i128) }
}

impl EncodableInt for i16 {
    open spec fn int_value(&self) -> int { *self as int }

    fn sign_and_magnitude(&self) -> (r: (bool, u128)) { signed_parts(*self as i128) }
}

impl EncodableInt for i32 {
    open spec fn int_value(&self) -> int { *self as int }

    fn sign_and_magnitude(&self) -> (r: (bool, u128)) { signed_parts(*self as i128) }
}

impl EncodableInt for i64 {
    open spec fn int_value(&self) -> int { *self as int }

    fn sign_and_magnitude(&self) -> (r: (bool, u128)) { signed_parts(*self as i128) }
}

impl EncodableInt for i128 {
    open spec fn int_value(&self) -> int { *self as int }

    fn sign_and_magnitude(&self) -> (r: (bool, u128)) { signed_parts(*self) }
}

impl EncodableInt for isize {
    open spec fn int_value(&self) -> int { *self as int }

    fn sign_and_magnitude(&self) -> (r: (bool, u128)) { signed_parts(*self as i128) }
}

fn signed_parts(n: i128) -> (r: (bool, u128))
    ensures
        r.0 == (n < 0),
        r.1 as int == if n < 0 { -n } else { n as int },
{
    if n >= 0 {
        (false, n as u128)
    } else if n == i128::MIN {
        (true, 0x8000_0000_0000_0000_0000_0000_0000_0000u128)
    } else {
        (true, (-n) as u128)
    }
}

/// Appends the decimal digits of `n`.
fn push_digits(out: &mut Vec<u8>, n: u128)
    ensures
        final(out)@ == old(out)@ + nat_digits(n as nat),
    decreases n,
{
    if n < 10 {
        out.push((48 + n) as u8);
    } else {
        push_digits(out, n / 10);
        out.push((48 + n % 10) as u8);
    }
}

fn push_bytes(out: &mut Vec<u8>, b: &[u8])
    ensures
        final(out)@ == old(out)@ + b@,
{
    let ghost start = out@;
    let mut i: usize = 0;
    while i < b.len()
        invariant
            i <= b.len(),
            out@ == start + b@.subrange(0, i as int),
        decreases b.len() - i,
    {
        out.push(b[i]);
        assert(b@.subrange(0, i + 1) =~= b@.subrange(0, i as int).push(b[i as int]));
        i = i + 1;
    }
    assert(b@.subrange(0, b.len() as int) =~= b@);
}

fn push_str(out: &mut Vec<u8>, b: &[u8])
    ensures
        final(out)@ == old(out)@ + encode_str_spec(b@),
{
    let ghost start = out@;
    push_digits(out, b.len() as u128);
    out.push(58u8);
    push_bytes(out, b);
    assert(out@ =~= start + encode_str_spec(b@));
}

fn push_int(out: &mut Vec<u8>, neg: bool, magnitude: u128)
    ensures
        final(out)@ == old(out)@ + encode_int_spec(if neg && magnitude > 0 { -magnitude } else { magnitude as int }),
{
    let ghost start = out@;
    out.push(105u8);
    if neg && magnitude > 0 {
        out.push(45u8);
    }
    push_digits(out, magnitude);
    out.push(101u8);
    let ghost n: int = if neg && magnitude > 0 { -magnitude } else { magnitude as int };
    assert(out@ =~= start + encode_int_spec(n));
}

/// Appends the canonical encoding of `v`.
pub fn encode_into(v: &BEncodedData, out: &mut Vec<u8>)
    ensures
        final(out)@ == old(out)@ + encode_value(v.view()),
    decreases v,
{
    let ghost start = out@;
    match v {
        BEncodedData::Empty => {
            assert(out@ =~= start + encode_value(v.view()));
        },
        BEncodedData::Num(n) => {
            let (neg, m) = signed_parts(*n as i128);
            push_int(out, neg, m);
        },
        BEncodedData::ByteStr(s) => {
            push_str(out, s.as_bytes());
        },
        BEncodedData::List(l) => {
            let ghost vs = match v.view() {
                Value::List(vs) => vs,
                _ => Seq::empty(),
            };
            out.push(108u8);
            let mut i: usize = 0;
            assert(vs.take(0) =~= Seq::<Value>::empty());
            while i < l.len()
                invariant
                    i <= l.len() == vs.len(),
                    v.view() == Value::List(vs),
                    *v == BEncodedData::List(*l),
                    forall|j: int| 0 <= j < l.len() ==> vs[j] == (#[trigger] l@[j]).view(),
                    out@ == start + seq![108u8] + encode_items(vs.take(i as int)),
                decreases l.len() - i,
            {
                encode_into(&l[i], out);
                assert(vs.take(i + 1).drop_last() =~= vs.take(i as int));
                i = i + 1;
            }
            assert(vs.take(l.len() as int) =~= vs);
            out.push(101u8);
            assert(out@ =~= start + encode_value(v.view()));
        },
        BEncodedData::Dict(d) => {
            let ghost es = d.view_entries();
            proof {
                d.lemma_view_entries();
            }
            out.push(100u8);
            let mut i: usize = 0;
            assert(es.take(0) =~= Seq::<(Seq<u8>, Value)>::empty());
            while i < d.entries.len()
                invariant
                    i <= d.entries.len() == es.len(),
                    es == d.view_entries(),
                    forall|j: int| 0 <= j < d.entries@.len() ==> #[trigger] es[j] == (d.entries@[j].0@, d.entries@[j].1.view()),
                    v.view() == Value::Dict(es),
                    *v == BEncodedData::Dict(*d),
                    out@ == start + seq![100u8] + encode_entries(es.take(i as int)),
                decreases d.entries.len() - i,
            {
                let e = &d.entries[i];
                assert(es[i as int] == (e.0@, e.1.view()));
                push_str(out, e.0.as_bytes());
                encode_into(&e.1, out);
                assert(es.take(i + 1).drop_last() =~= es.take(i as int));
                i = i + 1;
            }
            assert(es.take(d.entries.len() as int) =~= es);
            out.push(101u8);
            assert(out@ =~= start + encode_value(v.view()));
        },
    }
}

/// The canonical encoding of `v`.
pub fn encode(v: &BEncodedData) -> (r: Vec<u8>)
    ensures
        r@ == encode_value(v.view()),
{
    let mut out: Vec<u8> = Vec::new();
    encode_into(v, &mut out);
    assert(out@ =~= encode_value(v.view()));
    out
}

/// `i<decimal>e` for any integer type.
pub fn encode_int<I: EncodableInt>(num: &I) -> (r: Vec<u8>)
    ensures
        r@ == encode_int_spec(num.int_value()),
{
    let (neg, m) = num.sign_and_magnitude();
    let mut out: Vec<u8> = Vec::new();
    push_int(&mut out, neg, m);
    assert(out@ =~= encode_int_spec(num.int_value()));
    out
}

/// `<length>:<bytes>` for the bytes of `text`.
pub fn encode_str(text: &str) -> (r: Vec<u8>)
    ensures
        r@ == encode_str_spec(text.spec_bytes()),
{
    let mut out: Vec<u8> = Vec::new();
    push_str(&mut out, text.as_bytes());
    assert(out@ =~= encode_str_spec(text.spec_bytes()));
    out
}

} // verus!
