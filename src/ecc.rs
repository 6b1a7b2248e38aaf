//! Reed-Solomon RS(255, 223) protection of a byte stream.
//!
//! A stream is cut into 223-byte chunks, the last one padded with zeros, and
//! each chunk is sent as a 255-byte codeword: the chunk followed by 32 parity
//! bytes. The code is computed by the `reed_solomon` crate.
use vstd::prelude::*;
use reed_solomon::{Decoder, DecoderError, Encoder};

verus! {

/// Data bytes in one codeword.
pub const DATA_LEN: usize = 223;

/// Parity bytes in one codeword.
pub const PARITY_LEN: usize = 32;

/// Bytes in one codeword.
pub const CODEWORD_LEN: usize = 255;

#[verifier::external_type_specification]
#[verifier::external_body]
pub struct ExDecoderError(reed_solomon::DecoderError);

/// The 32 parity bytes that the encoder appends to a 223-byte chunk.
pub uninterp spec fn rs_parity(data: Seq<u8>) -> [u8; 32];

/// What the decoder makes of a 255-byte block: the corrected 223 data bytes,
/// or nothing when it finds the block beyond repair.
pub uninterp spec fn rs_corrected(block: Seq<u8>) -> Option<Seq<u8>>;

/// The codeword sent for a 223-byte chunk.
pub open spec fn codeword_of(chunk: Seq<u8>) -> Seq<u8> {
    chunk + rs_parity(chunk)@
}

/// A block that the encoder could have produced, untouched.
pub open spec fn is_codeword(block: Seq<u8>) -> bool {
    block.len() == CODEWORD_LEN && block == codeword_of(block.subrange(0, DATA_LEN as int))
}

/// The data that decoding a 255-byte block yields, if any.
pub open spec fn block_decoded(block: Seq<u8>) -> Option<Seq<u8>> {
    if is_codeword(block) {
        Some(block.subrange(0, DATA_LEN as int))
    } else {
        rs_corrected(block)
    }
}

/// Relies on `reed_solomon::Encoder::encode` with 32 parity bytes: the result
/// is the data followed by the parity, as `Encoder::encode` copies the data
/// in front of the remainder it computes.
#[verifier::external_body]
fn encode_chunk(data: &[u8]) -> (r: Vec<u8>)
    requires
        data@.len() == DATA_LEN,
    ensures
        r@ == data@ + rs_parity(data@)@,
{
    Encoder::new(PARITY_LEN).encode(data)[..].to_vec()
}

/// Relies on `reed_solomon::Decoder::correct` with 32 parity bytes and no
/// known erasures: on success it hands back the 223 data bytes of the
/// corrected block; a block whose syndromes are all zero, as those of an
/// encoder's output are, comes back unchanged.
#[verifier::external_body]
fn correct_block(block: &[u8]) -> (r: Result<Vec<u8>, DecoderError>)
    requires
        block@.len() == CODEWORD_LEN,
    ensures
        r is Ok <==> rs_corrected(block@) is Some,
        r matches Ok(v) ==> rs_corrected(block@) == Some(v@),
        r matches Ok(v) ==> (is_codeword(block@) ==> v@ == block@.subrange(0, DATA_LEN as int)),
        is_codeword(block@) ==> r is Ok,
{
    match Decoder::new(PARITY_LEN).correct(block, None) {
        Ok(buffer) => Ok(buffer.data().to_vec()),
        Err(e) => Err(e),
    }
}

/// Chunk `i` of `s` cut into pieces of `n` bytes, the last one padded with zeros.
pub open spec fn chunk_of(s: Seq<u8>, i: int, n: int) -> Seq<u8> {
    Seq::new(n as nat, |k: int| if i * n + k < s.len() { s[i * n + k] } else { 0u8 })
}

/// Number of 223-byte chunks that `s` is cut into.
pub open spec fn num_data_chunks(s: Seq<u8>) -> int {
    ((s.len() + 222) / 223) as int
}

/// The codewords of the first `k` chunks of `s`.
pub open spec fn encoded_upto(s: Seq<u8>, k: int) -> Seq<u8>
    decreases k,
{
    if k <= 0 {
        Seq::empty()
    } else {
        encoded_upto(s, k - 1) + codeword_of(chunk_of(s, k - 1, 223))
    }
}

/// The protected form of `s`: one codeword for each 223-byte chunk.
pub open spec fn rs_encoded(s: Seq<u8>) -> Seq<u8> {
    encoded_upto(s, num_data_chunks(s))
}

/// Number of 255-byte blocks that `s` is cut into.
pub open spec fn num_codewords(s: Seq<u8>) -> int {
    ((s.len() + 254) / 255) as int
}

/// The data of the first `k` blocks of `s`, or nothing if one is beyond repair.
pub open spec fn decoded_upto(s: Seq<u8>, k: int) -> Option<Seq<u8>>
    decreases k,
{
    if k <= 0 {
        Some(Seq::empty())
    } else {
        match (decoded_upto(s, k - 1), block_decoded(chunk_of(s, k - 1, 255))) {
            (Some(a), Some(b)) => Some(a + b),
            _ => None,
        }
    }
}

/// The data carried by the codewords of `s`, a trailing partial block padded
/// with zeros; nothing if a block is beyond repair.
pub open spec fn rs_decoded(s: Seq<u8>) -> Option<Seq<u8>> {
    decoded_upto(s, num_codewords(s))
}

proof fn lemma_decoded_stays_none(s: Seq<u8>, k: int, m: int)
    requires
        k <= m,
        decoded_upto(s, k) is None,
    ensures
        decoded_upto(s, m) is None,
    decreases m - k,
{
    if k < m {
        lemma_decoded_stays_none(s, k, m - 1);
    }
}

/// Copies chunk `i` of `s`, cut into `n`-byte pieces, padding with zeros.
fn copy_chunk(s: &[u8], start: usize, n: usize) -> (r: Vec<u8>)
    requires
        start <= s@.len(),
    ensures
        r@.len() == n,
        forall|k: int| 0 <= k < n ==> r@[k] == if start + k < s@.len() { s@[start + k] } else { 0u8 },
{
    let mut r: Vec<u8> = Vec::with_capacity(n);
    let mut k: usize = 0;
    while k < n
        invariant
            k <= n,
            start <= s@.len(),
            r@.len() == k,
            forall|j: int| 0 <= j < k ==> r@[j] == if start + j < s@.len() { s@[start + j] } else { 0u8 },
        decreases n - k,
    {
        if k < s.len() - start {
            r.push(s[start + k]);
        } else {
            r.push(0u8);
        }
        k = k + 1;
    }
    r
}

/// Protects `bytes`: each 223-byte chunk, the last one padded with zeros,
/// becomes a 255-byte codeword.
pub fn create_transmission_bytes(bytes: &[u8]) -> (r: Vec<u8>)
    ensures
        r@ == rs_encoded(bytes@),
        r@.len() == CODEWORD_LEN * num_data_chunks(bytes@),
{
    let len = bytes.len();
    let n = len / DATA_LEN + if len % DATA_LEN != 0 { 1usize } else { 0usize };
    assert(n == num_data_chunks(bytes@));
    let mut out: Vec<u8> = Vec::new();
    let mut i: usize = 0;
    let mut start: usize = 0;
    while i < n
        invariant
            i <= n,
            n == num_data_chunks(bytes@),
            i < n ==> start == i * 223,
            len == bytes@.len(),
            out@ == encoded_upto(bytes@, i as int),
            out@.len() == 255 * i,
        decreases n - i,
    {
        assert(start < len);
        let chunk = copy_chunk(bytes, start, DATA_LEN);
        assert(chunk@ =~= chunk_of(bytes@, i as int, 223));
        let mut word = encode_chunk(chunk.as_slice());
        out.append(&mut word);
        if i + 1 < n {
            start = start + DATA_LEN;
        }
        i = i + 1;
    }
    out
}

/// Corrects each 255-byte block of `bytes`, a trailing partial block padded
/// with zeros, and returns the data they carry; `None` if a block is beyond
/// repair.
pub fn decipher_transmission_bytes(bytes: &[u8]) -> (r: Option<Vec<u8>>)
    ensures
        match r {
            Some(v) => rs_decoded(bytes@) == Some(v@),
            None => rs_decoded(bytes@) is None,
        },
{
    let len = bytes.len();
    let n = len / CODEWORD_LEN + if len % CODEWORD_LEN != 0 { 1usize } else { 0usize };
    assert(n == num_codewords(bytes@));
    let mut out: Vec<u8> = Vec::new();
    let mut i: usize = 0;
    let mut start: usize = 0;
    while i < n
        invariant
            i <= n,
            n == num_codewords(bytes@),
            i < n ==> start == i * 255,
            len == bytes@.len(),
            decoded_upto(bytes@, i as int) == Some(out@),
        decreases n - i,
    {
        assert(start < len);
        let block = copy_chunk(bytes, start, CODEWORD_LEN);
        assert(block@ =~= chunk_of(bytes@, i as int, 255));
        match correct_block(block.as_slice()) {
            Ok(data) => {
                let mut data = data;
                out.append(&mut data);
            },
            Err(_) => {
                proof {
                    lemma_decoded_stays_none(bytes@, i as int + 1, n as int);
                }
                return None;
            },
        }
        if i + 1 < n {
            start = start + CODEWORD_LEN;
        }
        i = i + 1;
    }
    Some(out)
}

} // verus!
