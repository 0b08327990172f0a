//! Piece hashes, the info-hash digest, and hex rendering.
use vstd::prelude::*;
use sha1::Digest;
use crate::bytes::{compare_bytes, copy_range};
use crate::decode::{decode_bencoded_value, decode_spec, decode_str, decode_value, is_digit, parse_at, parse_str, MAX_DEPTH};

verus! {

broadcast use {vstd::std_specs::vec::group_vec_axioms, vstd::seq::group_seq_axioms};

/// What SHA-1 gives for the bytes `b`.
pub uninterp spec fn sha1_of(b: Seq<u8>) -> Seq<u8>;

/// Relies on sha1::Sha1 through digest::Digest::digest: the SHA-1 digest of `data`,
/// which depends on the bytes alone and is 20 bytes long.
#[verifier::external_body]
fn sha1_digest(data: &[u8]) -> (r: Vec<u8>)
    ensures
        r@ == sha1_of(data@),
        r@.len() == 20,
{
    sha1::Sha1::digest(data).to_vec()
}

/// The lower-case hex digit for `n` below 16.
pub open spec fn hex_digit(n: int) -> char {
    seq!['0', '1', '2', '3', '4', '5', '6', '7', '8', '9', 'a', 'b', 'c', 'd', 'e', 'f'][n]
}

/// Two lower-case hex digits per byte, high half first.
pub open spec fn hex_text(b: Seq<u8>) -> Seq<char>
    decreases b.len(),
{
    if b.len() == 0 {
        Seq::empty()
    } else {
        hex_text(b.drop_last()) + seq![hex_digit(b.last() as int / 16), hex_digit(b.last() as int % 16)]
    }
}

/// Relies on hex::encode: each byte becomes two lower-case hex digits, high half first.
#[verifier::external_body]
fn hex_encode(data: &[u8]) -> (r: String)
    ensures
        r@ == hex_text(data@),
{
    hex::encode(data)
}

/// The 20-byte chunks of `b`, in order.
pub open spec fn chunks20(b: Seq<u8>) -> Seq<Seq<u8>> {
    Seq::new(b.len() / 20, |i: int| b.subrange(20 * i, 20 * i + 20))
}

/// The SHA-1 digests of a torrent's pieces, one per piece, in piece order.
#[derive(Debug, Clone)]
pub struct Hashes(pub Vec<[u8; 20]>);

impl Hashes {
    pub open spec fn view(&self) -> Seq<Seq<u8>> {
        Seq::new(self.0@.len(), |i: int| self.0@[i]@)
    }

    /// Splits a byte string into 20-byte digests; none where its length is not a
    /// multiple of 20.
    pub fn from_bytes(b: &[u8]) -> (r: Option<Hashes>)
        ensures
            match r {
                Some(h) => b@.len() % 20 == 0 && h.view() == chunks20(b@),
                None => b@.len() % 20 != 0,
            },
    {
        if b.len() % 20 != 0 {
            return None;
        }
        let n = b.len() / 20;
        let mut out: Vec<[u8; 20]> = Vec::new();
        let mut i: usize = 0;
        while i < n
            invariant
                n == b@.len() / 20,
                i <= n,
                out@.len() == i,
                forall|j: int| 0 <= j < i ==> (#[trigger] out@[j])@ == b@.subrange(20 * j, 20 * j + 20),
            decreases n - i,
        {
            assert(20 * i + 20 <= b.len()) by (nonlinear_arith)
                requires
                    i < n,
                    n == b@.len() / 20,
            ;
            let mut h: [u8; 20] = [0u8; 20];
            let mut k: usize = 0;
            while k < 20
                invariant
                    k <= 20,
                    20 * i + 20 <= b.len(),
                    h@.len() == 20,
                    forall|m: int| 0 <= m < k ==> h@[m] == b@[20 * i + m],
                decreases 20 - k,
            {
                h[k] = b[20 * i + k];
                k = k + 1;
            }
            assert(h@ =~= b@.subrange(20 * i, 20 * i + 20));
            out.push(h);
            i = i + 1;
        }
        let r = Hashes(out);
        assert(r.view() =~= chunks20(b@));
        Some(r)
    }

    pub fn len(&self) -> (r: usize)
        ensures
            r == self.view().len(),
    {
        self.0.len()
    }

    /// Each digest in lower-case hex, in piece order.
    pub fn to_hex(&self) -> (r: Vec<String>)
        ensures
            r@.len() == self.view().len(),
            forall|i: int| 0 <= i < r@.len() ==> (#[trigger] r@[i])@ == hex_text(self.view()[i]),
    {
        let mut out: Vec<String> = Vec::new();
        let mut i: usize = 0;
        while i < self.0.len()
            invariant
                i <= self.0@.len(),
                out@.len() == i,
                forall|j: int| 0 <= j < i ==> (#[trigger] out@[j])@ == hex_text(self.view()[j]),
            decreases self.0.len() - i,
        {
            out.push(hex_encode(self.0[i].as_slice()));
            i = i + 1;
        }
        out
    }
}

/// The bytes of the key `info`.
pub open spec fn info_key() -> Seq<u8> {
    seq![105u8, 110u8, 102u8, 111u8]
}

/// Where the value under the key `k` lies, walking dictionary entries from `p`:
/// the first such entry's value span, if the entries before it read well.
pub open spec fn entry_span(s: Seq<u8>, p: int, d: nat, k: Seq<u8>) -> Option<(int, int)>
    decreases s.len() - p,
{
    if p < 0 || p >= s.len() || !is_digit(s[p]) {
        None
    } else {
        match parse_str(s, p) {
            Err(_) => None,
            Ok((key, q)) => match parse_at(s, q, d) {
                Err(_) => None,
                Ok((_, r)) => if r <= p || r > s.len() {
                    None
                } else if key == k {
                    Some((q, r))
                } else {
                    entry_span(s, r, d, k)
                },
            },
        }
    }
}

/// The span of the `info` value of the dictionary at the front of `s`; none unless
/// the whole value at the front of `s` decodes.
pub open spec fn info_span(s: Seq<u8>) -> Option<(int, int)> {
    if decode_spec(s, MAX_DEPTH as nat) is Ok && s.len() > 0 && s[0] == 100 {
        entry_span(s, 1, (MAX_DEPTH - 1) as nat, info_key())
    } else {
        None
    }
}

fn find_info_span(buf: &[u8]) -> (r: Option<(usize, usize)>)
    ensures
        match r {
            Some((a, b)) => info_span(buf@) == Some((a as int, b as int)) && a <= b <= buf.len(),
            None => info_span(buf@) is None,
        },
{
    let ghost s = buf@;
    if let Err(_) = decode_bencoded_value(buf) {
        return None;
    }
    if buf.len() == 0 || buf[0] != 100 {
        return None;
    }
    let key: Vec<u8> = vec![105u8, 110u8, 102u8, 111u8];
    assert(key@ =~= info_key());
    let d = MAX_DEPTH - 1;
    let mut i: usize = 1;
    loop
        invariant
            1 <= i <= buf.len(),
            s == buf@,
            key@ == info_key(),
            d == MAX_DEPTH - 1,
            info_span(s) == entry_span(s, i as int, d as nat, info_key()),
        decreases buf.len() - i,
    {
        if i >= buf.len() || !(48 <= buf[i] && buf[i] <= 57) {
            return None;
        }
        let (k, q) = match decode_str(buf, i) {
            Ok(kq) => kq,
            Err(_) => {
                return None;
            },
        };
        let r = match decode_value(buf, q, d) {
            Ok((_, r)) => r,
            Err(_) => {
                return None;
            },
        };
        if compare_bytes(k.as_slice(), key.as_slice()) == 0 {
            return Some((q, r));
        }
        i = r;
    }
}

/// The info-hash of a torrent file: the SHA-1 digest of the bytes of its `info`
/// value exactly as they stand in the file; none where the file is not a dictionary
/// that decodes and has an `info` entry.
pub fn info_hash(buf: &[u8]) -> (r: Option<Vec<u8>>)
    ensures
        match info_span(buf@) {
            Some((a, b)) => r matches Some(h) && h@ == sha1_of(buf@.subrange(a, b)),
            None => r is None,
        },
{
    match find_info_span(buf) {
        Some((a, b)) => {
            let bytes = copy_range(buf, a, b);
            Some(sha1_digest(bytes.as_slice()))
        },
        None => None,
    }
}

/// The info-hash in lower-case hex.
pub fn info_hash_hex(buf: &[u8]) -> (r: Option<String>)
    ensures
        match info_span(buf@) {
            Some((a, b)) => r matches Some(h) && h@ == hex_text(sha1_of(buf@.subrange(a, b))),
            None => r is None,
        },
{
    match info_hash(buf) {
        Some(h) => Some(hex_encode(h.as_slice())),
        None => None,
    }
}

} // verus!
