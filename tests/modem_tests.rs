use ofdm::block::{data_symbols, encode_block, encode_blocks, subcarrier, Subcarrier};
use ofdm::ecc::{create_transmission_bytes, decipher_transmission_bytes};
use ofdm::frame::{deframe, frame, DecodeError, Header};
use ofdm::modulation::{demodulate, modulate, ModulationScheme, Symbol};
use ofdm::receiver::{decode_symbols, encode_symbols, sync_offset};
use ofdm::signals::{
    cyclic_prefix, fft_shift, ifft_shift, pad_chunk, split_into_chunks, strip_cyclic_prefix,
};
use ofdm::utils::{create_transmission_text, Analysis};

fn sym(re: i8, im: i8) -> Symbol {
    Symbol { re, im }
}

#[test]
fn fft_shift_demo_even() {
    let mut data = vec![1, 2, 3, 4, 5, 6, 7];
    fft_shift(&mut data);
    assert_eq!(data, vec![5, 6, 7, 1, 2, 3, 4]);
}

#[test]
fn fft_shift_demo_odd() {
    let mut data = vec![1, 2, 3, 4, 5, 6];
    fft_shift(&mut data);
    assert_eq!(data, vec![4, 5, 6, 1, 2, 3]);
}

#[test]
fn ifftshift_works() {
    let mut vals1: Vec<(f64, f64)> =
        vec![(1.0, 0.0), (2.0, 0.0), (3.0, 0.0), (4.0, 0.0), (5.0, 0.0), (6.0, 0.0), (7.0, 0.0)];
    let before = vals1.clone();
    fft_shift(&mut vals1);
    ifft_shift(&mut vals1);
    assert_eq!(vals1, before);
}

#[test]
fn fftshift_works() {
    let mut vals1: Vec<(f64, f64)> =
        vec![(1.0, 0.0), (2.0, 0.0), (3.0, 0.0), (4.0, 0.0), (5.0, 0.0), (6.0, 0.0), (7.0, 0.0)];
    fft_shift(&mut vals1);
    assert_eq!(vals1[0], (5.0, 0.0));
    assert_eq!(vals1[3], (1.0, 0.0));
}

#[test]
fn fft_shift_twice_on_even_length_is_identity() {
    let mut data: Vec<u32> = (0..64).collect();
    fft_shift(&mut data);
    fft_shift(&mut data);
    assert_eq!(data, (0..64).collect::<Vec<u32>>());
}

#[test]
fn fft_shift_twice_on_odd_length_is_not_identity() {
    let mut data = vec![1, 2, 3];
    fft_shift(&mut data);
    fft_shift(&mut data);
    assert_eq!(data, vec![2, 3, 1]);
}

#[test]
fn ifft_shift_of_empty_is_empty() {
    let mut data: Vec<u8> = Vec::new();
    fft_shift(&mut data);
    ifft_shift(&mut data);
    assert!(data.is_empty());
}

#[test]
fn demodulate_works() {
    let input_text = "alskdjas";
    let symbols = modulate(input_text.as_bytes(), &ModulationScheme::Qpsk);
    let final_text = String::from_utf8(demodulate(symbols, ModulationScheme::Qpsk)).unwrap();
    assert_eq!(input_text, final_text)
}

#[test]
fn bpsk_maps_bits_lsb_first() {
    let out = modulate(&[0b0000_0101], &ModulationScheme::Bpsk);
    let expected: Vec<Symbol> = [1, -1, 1, -1, -1, -1, -1, -1].iter().map(|&re| sym(re, 0)).collect();
    assert_eq!(out, expected);
}

#[test]
fn qpsk_maps_bit_pairs() {
    let out = modulate(&[0b1110_0100], &ModulationScheme::Qpsk);
    assert_eq!(out, vec![sym(-1, -1), sym(1, -1), sym(-1, 1), sym(1, 1)]);
}

#[test]
fn qam_carries_nothing() {
    assert!(modulate(b"abc", &ModulationScheme::Qam).is_empty());
    assert!(demodulate(vec![sym(1, 1); 8], ModulationScheme::Qam).is_empty());
}

#[test]
fn demodulate_decides_on_signs() {
    let mut bpsk = vec![sym(-1, 0); 8];
    bpsk[0] = sym(1, 0);
    bpsk[1] = sym(0, 0);
    assert_eq!(demodulate(bpsk, ModulationScheme::Bpsk), vec![1]);

    let qpsk = vec![sym(0, 0), sym(-1, -1), sym(-1, -1), sym(-1, 0), sym(1, 1), sym(1, 1), sym(1, 1), sym(1, 1)];
    assert_eq!(demodulate(qpsk, ModulationScheme::Qpsk), vec![0b1000_0011, 0xff]);
}

#[test]
fn bands_work() {
    let data: Vec<Symbol> = (0..52).map(|v| sym(v as i8, 0)).collect();
    let out = encode_block(&data, 0, true);
    assert_eq!(out.len(), 64);
    assert_eq!(out[0], sym(0, 0));
    assert_eq!(out[5], sym(0, 0));
    assert_eq!(out[6], sym(1, 0));
    assert_eq!(out[7], sym(0, 0));
    assert_eq!(out[8], sym(1, 0));
    assert_eq!(out[24], sym(17, 0));
    assert_eq!(out[25], sym(1, 0));
    assert_eq!(out[26], sym(18, 0));
    assert_eq!(out[32], sym(0, 0));
    assert_eq!(out[33], sym(24, 0));
    assert_eq!(out[39], sym(1, 0));
    assert_eq!(out[57], sym(47, 0));
    assert_eq!(out[58], sym(1, 0));
    assert_eq!(out[59], sym(0, 0));
    assert_eq!(out[63], sym(0, 0));
}

#[test]
fn block_without_guard_bands_is_all_data() {
    let data: Vec<Symbol> = (0..10).map(|v| sym(v as i8, 1)).collect();
    let out = encode_block(&data, 3, false);
    assert_eq!(out[0], sym(3, 1));
    assert_eq!(out[6], sym(9, 1));
    assert_eq!(out[7], sym(0, 0));
    assert_eq!(out[63], sym(0, 0));
}

#[test]
fn subcarrier_roles() {
    assert_eq!(subcarrier(0, true), Subcarrier::Guard);
    assert_eq!(subcarrier(32, true), Subcarrier::Guard);
    assert_eq!(subcarrier(59, true), Subcarrier::Guard);
    assert_eq!(subcarrier(6, true), Subcarrier::Pilot);
    assert_eq!(subcarrier(58, true), Subcarrier::Pilot);
    assert_eq!(subcarrier(7, true), Subcarrier::Data);
    assert_eq!(subcarrier(32, false), Subcarrier::Data);
}

#[test]
fn blocks_round_trip_with_zero_fill() {
    let data: Vec<Symbol> = (0..100).map(|v| sym(v as i8, -1)).collect();
    let blocks = encode_blocks(&data, true);
    assert_eq!(blocks.len(), 3 * 64);
    let back = data_symbols(&blocks, true);
    assert_eq!(back.len(), 144);
    assert_eq!(&back[..100], &data[..]);
    assert!(back[100..].iter().all(|s| *s == sym(0, 0)));
}

#[test]
fn cyclic_prefix_round_trip() {
    let block: Vec<u32> = (0..64).collect();
    let out = cyclic_prefix(&block);
    assert_eq!(out.len(), 80);
    assert_eq!(&out[..16], &block[48..]);
    assert_eq!(&out[16..], &block[..]);
    assert_eq!(strip_cyclic_prefix(&out), block);
}

#[test]
fn chunks_are_padded() {
    let samples: Vec<u32> = (0..170).collect();
    let chunks = split_into_chunks(samples, 0);
    assert_eq!(chunks.len(), 3);
    assert_eq!(chunks[1][0], 80);
    assert_eq!(chunks[2][9], 169);
    assert_eq!(chunks[2][10], 0);
    assert_eq!(pad_chunk(&[7u8, 8], 1).len(), 80);
    assert_eq!(pad_chunk(&[7u8, 8], 1)[2], 1);
    assert!(split_into_chunks(Vec::<u8>::new(), 0).is_empty());
}

#[test]
fn header_size() {
    let sample_header = Header::new(100);
    let bytes = sample_header.to_bytes();
    assert_eq!(bytes.len(), 16);
    assert_eq!(bytes[0], 100);
    assert!(bytes[1..].iter().all(|b| *b == 0));
    let decoded = Header::from_bytes(&bytes);
    assert_eq!(decoded, Some(sample_header));
}

#[test]
fn header_is_little_endian() {
    let bytes = Header::new(0x0102_0304).to_bytes();
    assert_eq!(&bytes[..5], &[4, 3, 2, 1, 0]);
    assert_eq!(Header::from_bytes(&bytes[..15]), None);
    let big = Header::new(u128::MAX);
    assert_eq!(Header::from_bytes(&big.to_bytes()), Some(big));
}

#[test]
fn frame_without_ecc() {
    let f = frame(b"abc", false);
    assert_eq!(f.len(), 19);
    assert_eq!(f[0], 3);
    assert_eq!(&f[16..], b"abc");
    assert_eq!(deframe(&f, false), Ok(b"abc".to_vec()));
}

#[test]
fn frame_with_ecc() {
    let f = frame(b"abc", true);
    assert_eq!(f.len(), 255);
    let mut received = f.clone();
    received.extend_from_slice(&[9, 9, 9]);
    assert_eq!(deframe(&received, true), Ok(b"abc".to_vec()));
}

#[test]
fn deframe_errors() {
    assert_eq!(deframe(&[0u8; 15], false), Err(DecodeError::ShortFrame));
    let mut f = frame(b"abc", false);
    f.truncate(18);
    assert_eq!(deframe(&f, false), Err(DecodeError::BadLength));
    assert_eq!(deframe(&[0u8; 10], true), Err(DecodeError::ShortFrame));
    let mut bad = vec![0u8; 255];
    for (i, b) in bad.iter_mut().enumerate().take(40) {
        *b = (i * 37 + 11) as u8;
    }
    assert_eq!(deframe(&bad, true), Err(DecodeError::CorruptedFrame));
}

#[test]
fn rs_round_trip_pads_last_chunk() {
    let data: Vec<u8> = (0..300).map(|i| (i % 251) as u8).collect();
    let protected = create_transmission_bytes(&data);
    assert_eq!(protected.len(), 510);
    assert_ne!(&protected[223..255], &[0u8; 32][..]);
    let back = decipher_transmission_bytes(&protected).unwrap();
    assert_eq!(back.len(), 446);
    assert_eq!(&back[..300], &data[..]);
    assert!(back[300..].iter().all(|b| *b == 0));
    assert_eq!(create_transmission_bytes(&[]), Vec::<u8>::new());
    assert_eq!(decipher_transmission_bytes(&[]), Some(Vec::new()));
}

#[test]
fn rs_corrects_three_flipped_bytes() {
    let data: Vec<u8> = create_transmission_text(223, false);
    let mut protected = create_transmission_bytes(&data);
    assert_eq!(protected.len(), 255);
    for i in [5usize, 50, 200] {
        protected[i] ^= 0xa5;
    }
    assert_eq!(decipher_transmission_bytes(&protected), Some(data));
}

#[test]
fn rs_corrects_sixteen_flipped_bytes() {
    let data: Vec<u8> = (0..223).map(|i| (i * 7 + 3) as u8).collect();
    let mut protected = create_transmission_bytes(&data);
    for k in 0..16 {
        protected[k * 15 + 2] ^= 0x3c;
    }
    assert_eq!(decipher_transmission_bytes(&protected), Some(data));
}

#[test]
fn rs_gives_up_on_seventeen_flipped_bytes() {
    let data: Vec<u8> = (0..223).map(|i| (i * 7 + 3) as u8).collect();
    let mut protected = create_transmission_bytes(&data);
    for k in 0..17 {
        protected[k * 15 + 2] ^= 0x3c;
    }
    assert_eq!(decipher_transmission_bytes(&protected), None);
    let mut received = frame(&data[..100], true);
    for k in 0..17 {
        received[k * 15 + 2] ^= 0x3c;
    }
    assert_eq!(deframe(&received, true), Err(DecodeError::CorruptedFrame));
}

#[test]
fn abc_round_trip_bpsk_guard_bands() {
    let data = vec![0x61, 0x62, 0x63];
    let blocks = encode_symbols(&data, true, false, &ModulationScheme::Bpsk);
    let decoded = decode_symbols(&blocks, true, false, ModulationScheme::Bpsk).unwrap();
    assert_eq!(decoded, data);
    assert_eq!(Analysis::new(&data, &decoded).num_errs, 0);
}

#[test]
fn corpus_round_trip_qpsk_ecc() {
    let data = create_transmission_text(400, false);
    let blocks = encode_symbols(&data, true, true, &ModulationScheme::Qpsk);
    let decoded = decode_symbols(&blocks, true, true, ModulationScheme::Qpsk).unwrap();
    assert_eq!(decoded, data);
    assert_eq!(Analysis::new(&data, &decoded).num_errs, 0);
}

#[test]
fn long_round_trip_bpsk_ecc() {
    let data: Vec<u8> = (0..2500u32).map(|i| (i * 13 % 256) as u8).collect();
    let first = encode_symbols(&data, true, true, &ModulationScheme::Bpsk);
    let second = encode_symbols(&data, true, true, &ModulationScheme::Bpsk);
    assert_eq!(first, second);
    let decoded = decode_symbols(&first, true, true, ModulationScheme::Bpsk).unwrap();
    assert_eq!(decoded, data);
}

#[test]
fn round_trip_without_guard_bands() {
    let data = b"without guard bands".to_vec();
    for scheme in [ModulationScheme::Bpsk, ModulationScheme::Qpsk] {
        let blocks = encode_symbols(&data, false, false, &scheme);
        assert_eq!(blocks.len() % 64, 0);
        assert_eq!(decode_symbols(&blocks, false, false, scheme), Ok(data.clone()));
    }
}

#[test]
fn flipped_point_is_corrected_by_ecc() {
    let data = b"flip".to_vec();
    let mut blocks = encode_symbols(&data, true, true, &ModulationScheme::Bpsk);
    blocks[7].re = -blocks[7].re;
    assert_eq!(decode_symbols(&blocks, true, true, ModulationScheme::Bpsk), Ok(data));
}

#[test]
fn sync_offset_on_long_capture() {
    let capture = 3_000_000usize;
    let corr = 2 * capture - 1;
    let centre = (corr - 1) / 2 + 1;
    assert_eq!(sync_offset(centre + 1234, corr, capture), Ok(1234));
    assert_eq!(sync_offset(centre + capture - 800, corr, capture), Ok(capture - 800));
    assert_eq!(sync_offset(centre + capture - 799, corr, capture), Err(DecodeError::InsufficientSamples));
    assert_eq!(sync_offset(centre - 1, corr, capture), Err(DecodeError::SyncFailure));
    assert_eq!(sync_offset(0, 0, capture), Err(DecodeError::SyncFailure));
}

#[test]
fn empty_payload_round_trip() {
    for ecc in [false, true] {
        let blocks = encode_symbols(&[], true, ecc, &ModulationScheme::Qpsk);
        assert_eq!(blocks.len(), 64 * if ecc { 22 } else { 2 });
        assert_eq!(decode_symbols(&blocks, true, ecc, ModulationScheme::Qpsk), Ok(Vec::new()));
    }
}
