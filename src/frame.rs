//! The frame: a 16-byte little-endian length header followed by the payload,
//! optionally protected by Reed-Solomon codewords.
use vstd::prelude::*;
use crate::ecc::{
    chunk_of, codeword_of, create_transmission_bytes, decipher_transmission_bytes, decoded_upto,
    encoded_upto, is_codeword, num_codewords, num_data_chunks, rs_decoded, rs_encoded,
    CODEWORD_LEN,
};

verus! {

/// Bytes in the length header.
pub const HEADER_LEN: usize = 16;

/// Why a capture could not be decoded.
#[derive(Clone, Copy, Debug, PartialEq, Eq, Structural)]
pub enum DecodeError {
    /// Fewer samples than one frame's preamble remain after synchronisation.
    InsufficientSamples,
    /// The correlation peak gives no sensible frame start.
    SyncFailure,
    /// A Reed-Solomon codeword is beyond repair.
    CorruptedFrame,
    /// Fewer bytes than the length header.
    ShortFrame,
    /// The header announces more payload than was received.
    BadLength,
}

/// `256^n`.
pub open spec fn pow256(n: nat) -> nat
    decreases n,
{
    if n == 0 {
        1
    } else {
        256 * pow256((n - 1) as nat)
    }
}

/// The `n` low bytes of `v`, least significant first.
pub open spec fn le_bytes(v: nat, n: nat) -> Seq<u8>
    decreases n,
{
    if n == 0 {
        Seq::empty()
    } else {
        seq![(v % 256) as u8] + le_bytes(v / 256, (n - 1) as nat)
    }
}

/// The number that `s` encodes, least significant byte first.
pub open spec fn le_value(s: Seq<u8>) -> nat
    decreases s.len(),
{
    if s.len() == 0 {
        0
    } else {
        (s[0] + 256 * le_value(s.drop_first())) as nat
    }
}

proof fn lemma_le_bytes_len(v: nat, n: nat)
    ensures
        le_bytes(v, n).len() == n,
    decreases n,
{
    if n > 0 {
        lemma_le_bytes_len(v / 256, (n - 1) as nat);
    }
}

proof fn lemma_le_round_trip(v: nat, n: nat)
    requires
        v < pow256(n),
    ensures
        le_value(le_bytes(v, n)) == v,
    decreases n,
{
    if n > 0 {
        let b = le_bytes(v, n);
        lemma_le_bytes_len(v, n);
        assert(b.drop_first() =~= le_bytes(v / 256, (n - 1) as nat));
        lemma_le_round_trip(v / 256, (n - 1) as nat);
    }
}

proof fn lemma_le_value_bound(s: Seq<u8>)
    ensures
        le_value(s) < pow256(s.len()),
    decreases s.len(),
{
    if s.len() > 0 {
        lemma_le_value_bound(s.drop_first());
    }
}

proof fn lemma_pow256_16()
    ensures
        pow256(16) == 0x1_0000_0000_0000_0000_0000_0000_0000_0000nat,
{
    reveal_with_fuel(pow256, 17);
}

/// The length header of a frame.
#[derive(Clone, Copy, Debug, PartialEq, Eq, Structural)]
pub struct Header {
    /// Number of payload bytes that follow the header.
    pub packet_length: u128,
}

impl Header {
    pub fn new(packet_length: u128) -> (h: Header)
        ensures
            h.packet_length == packet_length,
    {
        Header { packet_length }
    }

    /// The 16 bytes of the header: the length, least significant byte first.
    pub fn to_bytes(&self) -> (r: Vec<u8>)
        ensures
            r@ == le_bytes(self.packet_length as nat, HEADER_LEN as nat),
    {
        let mut out: Vec<u8> = Vec::with_capacity(HEADER_LEN);
        let mut v: u128 = self.packet_length;
        let mut i: usize = 0;
        while i < HEADER_LEN
            invariant
                i <= HEADER_LEN,
                out@ + le_bytes(v as nat, (HEADER_LEN - i) as nat) == le_bytes(
                    self.packet_length as nat,
                    HEADER_LEN as nat,
                ),
            decreases HEADER_LEN - i,
        {
            let ghost before = out@;
            out.push((v % 256) as u8);
            proof {
                let m = (HEADER_LEN - i) as nat;
                assert(le_bytes(v as nat, m) == seq![(v % 256) as u8] + le_bytes(
                    (v / 256) as nat,
                    (m - 1) as nat,
                ));
                assert(out@ + le_bytes((v / 256) as nat, (m - 1) as nat) =~= before + le_bytes(
                    v as nat,
                    m,
                ));
            }
            v = v / 256;
            i = i + 1;
        }
        assert(out@ =~= out@ + le_bytes(v as nat, 0));
        out
    }

    /// Reads a header from the first 16 bytes of `bytes`; `None` if there are fewer.
    pub fn from_bytes(bytes: &[u8]) -> (r: Option<Header>)
        ensures
            bytes@.len() < HEADER_LEN ==> r is None,
            bytes@.len() >= HEADER_LEN ==> (r matches Some(h) && h.packet_length == le_value(
                bytes@.subrange(0, HEADER_LEN as int),
            )),
    {
        if bytes.len() < HEADER_LEN {
            return None;
        }
        let ghost s = bytes@.subrange(0, HEADER_LEN as int);
        let mut acc: u128 = 0;
        let mut i: usize = HEADER_LEN;
        while i > 0
            invariant
                i <= HEADER_LEN,
                bytes@.len() >= HEADER_LEN,
                s == bytes@.subrange(0, HEADER_LEN as int),
                acc == le_value(s.subrange(i as int, HEADER_LEN as int)),
            decreases i,
        {
            let ghost tail = s.subrange(i as int, HEADER_LEN as int);
            let ghost longer = s.subrange(i - 1, HEADER_LEN as int);
            proof {
                assert(longer.drop_first() =~= tail);
                lemma_le_value_bound(tail);
                lemma_pow256_16();
                assert(pow256(tail.len()) <= pow256(15)) by {
                    lemma_pow256_monotone(tail.len(), 15);
                }
                reveal_with_fuel(pow256, 2);
                assert(256 * pow256(15) == pow256(16));
            }
            acc = acc * 256 + bytes[i - 1] as u128;
            i = i - 1;
        }
        assert(s.subrange(0, HEADER_LEN as int) =~= s);
        Some(Header { packet_length: acc })
    }
}

proof fn lemma_pow256_monotone(a: nat, b: nat)
    requires
        a <= b,
    ensures
        pow256(a) <= pow256(b),
    decreases b,
{
    if a < b {
        lemma_pow256_monotone(a, (b - 1) as nat);
    }
}

/// The frame of a payload before protection: header, then payload.
pub open spec fn plain_frame(p: Seq<u8>) -> Seq<u8> {
    le_bytes(p.len(), HEADER_LEN as nat) + p
}

/// The bytes sent for payload `p`.
pub open spec fn framed(p: Seq<u8>, ecc: bool) -> Seq<u8> {
    if ecc {
        rs_encoded(plain_frame(p))
    } else {
        plain_frame(p)
    }
}

/// The payload announced by the header of `f`.
pub open spec fn parsed(f: Seq<u8>) -> Result<Seq<u8>, DecodeError> {
    if f.len() < HEADER_LEN {
        Err(DecodeError::ShortFrame)
    } else {
        let n = le_value(f.subrange(0, HEADER_LEN as int));
        if n > f.len() - HEADER_LEN {
            Err(DecodeError::BadLength)
        } else {
            Ok(f.subrange(HEADER_LEN as int, HEADER_LEN + n))
        }
    }
}

/// The whole codewords at the front of `r`; a shorter tail is no codeword.
pub open spec fn whole_codewords(r: Seq<u8>) -> Seq<u8> {
    r.subrange(0, ((r.len() / 255) * 255) as int)
}

/// The payload recovered from received bytes `r`.
pub open spec fn deframed(r: Seq<u8>, ecc: bool) -> Result<Seq<u8>, DecodeError> {
    if ecc {
        match rs_decoded(whole_codewords(r)) {
            Some(f) => parsed(f),
            None => Err(DecodeError::CorruptedFrame),
        }
    } else {
        parsed(r)
    }
}

/// Builds the frame of `payload`: the header, the payload, and, with `ecc`,
/// Reed-Solomon protection of both.
pub fn frame(payload: &[u8], ecc: bool) -> (r: Vec<u8>)
    ensures
        r@ == framed(payload@, ecc),
{
    let header = Header::new(payload.len() as u128);
    let mut out = header.to_bytes();
    let mut i: usize = 0;
    while i < payload.len()
        invariant
            i <= payload@.len(),
            out@ == le_bytes(payload@.len(), HEADER_LEN as nat) + payload@.subrange(0, i as int),
        decreases payload@.len() - i,
    {
        out.push(payload[i]);
        proof {
            assert(payload@.subrange(0, i + 1) =~= payload@.subrange(0, i as int).push(payload@[i as int]));
        }
        i = i + 1;
    }
    assert(payload@.subrange(0, payload@.len() as int) =~= payload@);
    if ecc {
        create_transmission_bytes(out.as_slice())
    } else {
        out
    }
}

/// Reads the payload out of a plain frame.
fn parse(f: &[u8]) -> (r: Result<Vec<u8>, DecodeError>)
    ensures
        match r {
            Ok(v) => parsed(f@) == Ok::<Seq<u8>, DecodeError>(v@),
            Err(e) => parsed(f@) == Err::<Seq<u8>, DecodeError>(e),
        },
{
    match Header::from_bytes(f) {
        None => Err(DecodeError::ShortFrame),
        Some(header) => {
            let avail = f.len() - HEADER_LEN;
            if header.packet_length > avail as u128 {
                Err(DecodeError::BadLength)
            } else {
                let n = header.packet_length as usize;
                let mut out: Vec<u8> = Vec::with_capacity(n);
                let mut i: usize = 0;
                while i < n
                    invariant
                        i <= n,
                        n <= avail,
                        avail == f@.len() - HEADER_LEN,
                        f@.len() >= HEADER_LEN,
                        avail + HEADER_LEN == f.len(),
                        out@ == f@.subrange(HEADER_LEN as int, HEADER_LEN + i),
                    decreases n - i,
                {
                    out.push(f[HEADER_LEN + i]);
                    proof {
                        assert(f@.subrange(HEADER_LEN as int, HEADER_LEN + i + 1) =~= f@.subrange(
                            HEADER_LEN as int,
                            HEADER_LEN + i,
                        ).push(f@[HEADER_LEN + i]));
                    }
                    i = i + 1;
                }
                Ok(out)
            }
        },
    }
}

/// Recovers the payload from received bytes: with `ecc`, the whole 255-byte
/// codewords at the front are corrected first.
pub fn deframe(received: &[u8], ecc: bool) -> (r: Result<Vec<u8>, DecodeError>)
    ensures
        match r {
            Ok(v) => deframed(received@, ecc) == Ok::<Seq<u8>, DecodeError>(v@),
            Err(e) => deframed(received@, ecc) == Err::<Seq<u8>, DecodeError>(e),
        },
{
    if ecc {
        let whole = (received.len() / CODEWORD_LEN) * CODEWORD_LEN;
        let mut words: Vec<u8> = Vec::with_capacity(whole);
        let mut i: usize = 0;
        while i < whole
            invariant
                i <= whole,
                whole <= received@.len(),
                whole == (received@.len() / 255) * 255,
                words@ == received@.subrange(0, i as int),
            decreases whole - i,
        {
            words.push(received[i]);
            proof {
                assert(received@.subrange(0, i + 1) =~= received@.subrange(0, i as int).push(received@[i as int]));
            }
            i = i + 1;
        }
        match decipher_transmission_bytes(words.as_slice()) {
            Some(f) => parse(f.as_slice()),
            None => Err(DecodeError::CorruptedFrame),
        }
    } else {
        parse(received)
    }
}

proof fn lemma_parsed_plain(p: Seq<u8>, rest: Seq<u8>)
    requires
        p.len() <= usize::MAX,
    ensures
        parsed(plain_frame(p) + rest) == Ok::<Seq<u8>, DecodeError>(p),
{
    let h = le_bytes(p.len(), HEADER_LEN as nat);
    let f = plain_frame(p) + rest;
    lemma_le_bytes_len(p.len(), HEADER_LEN as nat);
    lemma_pow256_16();
    lemma_le_round_trip(p.len(), HEADER_LEN as nat);
    assert(f.subrange(0, HEADER_LEN as int) =~= h);
    assert(f.subrange(HEADER_LEN as int, HEADER_LEN + p.len()) =~= p);
}

proof fn lemma_encoded_blocks(s: Seq<u8>, k: int)
    requires
        0 <= k,
    ensures
        encoded_upto(s, k).len() == 255 * k,
        forall|j: int|
            0 <= j < k ==> #[trigger] encoded_upto(s, k).subrange(255 * j, 255 * j + 255)
                == codeword_of(chunk_of(s, j, 223)),
    decreases k,
{
    if k > 0 {
        lemma_encoded_blocks(s, k - 1);
        let e = encoded_upto(s, k - 1);
        let c = codeword_of(chunk_of(s, k - 1, 223));
        assert(c.len() == 255);
        assert forall|j: int| 0 <= j < k implies #[trigger] encoded_upto(s, k).subrange(
            255 * j,
            255 * j + 255,
        ) == codeword_of(chunk_of(s, j, 223)) by {
            if j < k - 1 {
                assert((e + c).subrange(255 * j, 255 * j + 255) =~= e.subrange(255 * j, 255 * j + 255));
            } else {
                assert((e + c).subrange(255 * j, 255 * j + 255) =~= c);
            }
        }
    }
}

/// `s` followed by zeros up to length `n`.
pub open spec fn zero_padded(s: Seq<u8>, n: int) -> Seq<u8> {
    Seq::new(n as nat, |t: int| if t < s.len() { s[t] } else { 0u8 })
}

proof fn lemma_decoded_codewords(s: Seq<u8>, k: int, j: int)
    requires
        0 <= j <= k,
        k == num_data_chunks(s),
    ensures
        decoded_upto(rs_encoded(s), j) == Some(zero_padded(s, 223 * j)),
    decreases j,
{
    let f = rs_encoded(s);
    lemma_encoded_blocks(s, k);
    if j > 0 {
        lemma_decoded_codewords(s, k, j - 1);
        let block = chunk_of(f, j - 1, 255);
        let chunk = chunk_of(s, j - 1, 223);
        assert(block =~= f.subrange(255 * (j - 1), 255 * (j - 1) + 255));
        assert(block == codeword_of(chunk));
        assert(block.subrange(0, 223) =~= chunk);
        assert(is_codeword(block));
        assert(zero_padded(s, 223 * (j - 1)) + chunk =~= zero_padded(s, 223 * j));
    }
}

/// Deframing what framing produced gives the payload back, also when bytes
/// follow the frame; with Reed-Solomon protection, fewer than a codeword's
/// worth of them.
pub proof fn lemma_frame_round_trip(p: Seq<u8>, ecc: bool, tail: Seq<u8>)
    requires
        p.len() <= usize::MAX,
        ecc ==> tail.len() < CODEWORD_LEN,
    ensures
        deframed(framed(p, ecc) + tail, ecc) == Ok::<Seq<u8>, DecodeError>(p),
{
    if ecc {
        let s = plain_frame(p);
        let f = rs_encoded(s);
        let k = num_data_chunks(s);
        lemma_le_bytes_len(p.len(), HEADER_LEN as nat);
        lemma_encoded_blocks(s, k);
        let r = f + tail;
        assert(r.len() / 255 == k);
        assert(whole_codewords(r) =~= f);
        assert(num_codewords(f) == k);
        lemma_decoded_codewords(s, k, k);
        assert(223 * k >= s.len());
        let zeros = Seq::new((223 * k - s.len()) as nat, |t: int| 0u8);
        assert(zero_padded(s, 223 * k) =~= s + zeros);
        lemma_parsed_plain(p, zeros);
    } else {
        lemma_parsed_plain(p, tail);
    }
}

} // verus!
