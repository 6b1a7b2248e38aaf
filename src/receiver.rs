//! The discrete ends of the transmit and receive chains, and frame
//! synchronisation.
//!
//! On the transmit side a payload is framed, modulated and laid out over
//! blocks of 64 subcarriers; what remains (inverse FFT, cyclic prefix,
//! preamble, normalisation) works on complex samples. On the receive side the
//! equalised blocks, reduced to the signs of their samples, are read back
//! into the payload.
use vstd::prelude::*;
use crate::block::{
    block_data, blocks_of, data_per_block, data_symbols, encode_blocks, lemma_blocks_round_trip,
    num_blocks,
};
use crate::frame::{deframe, deframed, frame, framed, lemma_frame_round_trip, DecodeError};
use crate::modulation::{
    demodulate, demodulated, lemma_modulation_round_trip, modulate, modulated, zero_symbol,
    ModulationScheme, Symbol,
};

verus! {

/// Samples before the first payload block: one locking block, four CFO
/// preamble blocks and five training blocks of 80 samples each.
pub const PREAMBLE_LEN: usize = 800;

/// Where the correlation of a capture with the locking block puts the frame
/// start, given the index of its largest magnitude and its length.
pub open spec fn synced(idx_max: int, corr_len: int, capture_len: int) -> Result<usize, DecodeError> {
    if corr_len < 1 || idx_max < (corr_len - 1) / 2 + 1 {
        Err(DecodeError::SyncFailure)
    } else {
        let offset = idx_max - ((corr_len - 1) / 2 + 1);
        if offset > capture_len || capture_len - offset < PREAMBLE_LEN {
            Err(DecodeError::InsufficientSamples)
        } else {
            Ok(offset as usize)
        }
    }
}

/// The offset of the frame in a capture of `capture_len` samples, from the
/// peak `idx_max` of their `corr_len`-long FFT-shifted correlation with the
/// locking block. Fails when the peak lies before the correlation's centre,
/// or when fewer samples than the preamble remain after the offset.
pub fn sync_offset(idx_max: usize, corr_len: usize, capture_len: usize) -> (r: Result<usize, DecodeError>)
    ensures
        r == synced(idx_max as int, corr_len as int, capture_len as int),
{
    if corr_len < 1 {
        return Err(DecodeError::SyncFailure);
    }
    let centre = (corr_len - 1) / 2 + 1;
    if idx_max < centre {
        return Err(DecodeError::SyncFailure);
    }
    let offset = idx_max - centre;
    if offset > capture_len || capture_len - offset < PREAMBLE_LEN {
        Err(DecodeError::InsufficientSamples)
    } else {
        Ok(offset)
    }
}

/// The subcarrier values of the blocks that carry `payload`.
pub open spec fn encoded_symbols(
    payload: Seq<u8>,
    guard_bands: bool,
    ecc: bool,
    scheme: ModulationScheme,
) -> Seq<Symbol> {
    blocks_of(modulated(framed(payload, ecc), scheme), guard_bands)
}

/// The payload read back from the subcarrier values of whole blocks.
pub open spec fn decoded_symbols(
    blocks: Seq<Symbol>,
    guard_bands: bool,
    ecc: bool,
    scheme: ModulationScheme,
) -> Result<Seq<u8>, DecodeError> {
    deframed(demodulated(block_data(blocks, guard_bands), scheme), ecc)
}

/// Frames, modulates and lays out `data` over blocks of 64 subcarriers,
/// ready for the inverse FFT.
pub fn encode_symbols(data: &[u8], guard_bands: bool, ecc: bool, modulation: &ModulationScheme) -> (r:
    Vec<Symbol>)
    ensures
        r@ == encoded_symbols(data@, guard_bands, ecc, *modulation),
{
    let framed_bytes = frame(data, ecc);
    let symbols = modulate(framed_bytes.as_slice(), modulation);
    encode_blocks(symbols.as_slice(), guard_bands)
}

/// Reads the payload back from equalised blocks of 64 subcarriers, each
/// value reduced to the signs of its coordinates.
pub fn decode_symbols(blocks: &[Symbol], guard_bands: bool, ecc: bool, modulation: ModulationScheme) -> (r:
    Result<Vec<u8>, DecodeError>)
    ensures
        match r {
            Ok(v) => decoded_symbols(blocks@, guard_bands, ecc, modulation) == Ok::<
                Seq<u8>,
                DecodeError,
            >(v@),
            Err(e) => decoded_symbols(blocks@, guard_bands, ecc, modulation) == Err::<
                Seq<u8>,
                DecodeError,
            >(e),
        },
{
    let data = data_symbols(blocks, guard_bands);
    proof {
        let nb = blocks@.len() / 64;
        assert((nb * data_per_block(guard_bands)) % 8 == 0) by (nonlinear_arith)
            requires
                data_per_block(guard_bands) == 48 || data_per_block(guard_bands) == 64,
                nb >= 0,
        ;
    }
    let bytes = demodulate(data, modulation);
    deframe(bytes.as_slice(), ecc)
}

/// Reading back the blocks that carry a payload gives the payload, for BPSK
/// and QPSK, with or without guard bands and Reed-Solomon protection.
pub proof fn lemma_symbols_round_trip(
    payload: Seq<u8>,
    guard_bands: bool,
    ecc: bool,
    scheme: ModulationScheme,
)
    requires
        payload.len() <= usize::MAX,
        scheme != ModulationScheme::Qam,
    ensures
        decoded_symbols(encoded_symbols(payload, guard_bands, ecc, scheme), guard_bands, ecc, scheme)
            == Ok::<Seq<u8>, DecodeError>(payload),
{
    let f = framed(payload, ecc);
    let m = modulated(f, scheme);
    let per = data_per_block(guard_bands);
    let x = blocks_of(m, guard_bands);
    let d = block_data(x, guard_bands);
    lemma_blocks_round_trip(m, guard_bands);
    let nb = num_blocks(m.len() as int, guard_bands);
    assert(x.len() / 64 == nb);
    assert(d.len() == nb * per);
    let pad = Seq::new((d.len() - m.len()) as nat, |k: int| zero_symbol());
    assert(d =~= m + pad);
    assert((nb * per) % 8 == 0) by (nonlinear_arith)
        requires
            per == 48 || per == 64,
            nb >= 0,
    ;
    assert(nb * per <= m.len() + per - 1) by (nonlinear_arith)
        requires
            nb == (m.len() + per - 1) / per,
            per > 0,
    ;
    lemma_modulation_round_trip(f, scheme, pad);
    let b = demodulated(d, scheme);
    let tail = b.subrange(f.len() as int, b.len() as int);
    assert(b =~= f + tail);
    if scheme == ModulationScheme::Bpsk {
        assert(tail.len() < 8);
    } else {
        assert(tail.len() < 16);
    }
    lemma_frame_round_trip(payload, ecc, tail);
}

} // verus!
