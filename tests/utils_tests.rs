use ofdm::ecc::create_transmission_bytes;
use ofdm::utils::{
    bools_to_u8, create_transmission_text, decipher_transmision_colorspace,
    decipher_transmission_text, trim_to, Analysis, CustomRgb, GetBitAt, CORPUS,
};

#[test]
fn get_bit_at_is_right() {
    let val: u8 = 255;
    (0..8).for_each(|pos| assert_eq!(val.get_bit_at(pos), true));

    let val: u8 = 0;
    (0..8).for_each(|pos| assert_eq!(val.get_bit_at(pos), false));

    let val: u8 = 127;
    (0..7).for_each(|pos| assert_eq!(val.get_bit_at(pos), true));
    assert_eq!(val.get_bit_at(7), false);
}

#[test]
fn get_bit_at_out_of_range_is_false() {
    assert_eq!(255u8.get_bit_at(8), false);
    assert_eq!(255u8.get_bit_at(200), false);
    assert_eq!(0b0000_0100u8.get_bit_at(2), true);
    assert_eq!(0b0000_0100u8.get_bit_at(3), false);
}

#[test]
fn errs_is_right() {
    let Analysis { num_errs, num_bits, .. } = Analysis::new(&[1, 0, 1, 0], &[1, 0, 1, 0]);
    assert_eq!((num_errs, num_bits), (0, 32));

    let Analysis { num_errs, num_bits, .. } = Analysis::new(&[1, 0, 0, 0], &[1, 0, 1, 0]);
    assert_eq!((num_errs, num_bits), (1, 32));

    let Analysis { num_errs, num_bits, .. } = Analysis::new(&[0, 0, 0, 0], &[1, 0, 1, 0]);
    assert_eq!((num_errs, num_bits), (2, 32));
}

#[test]
fn analysis_counts_bits_and_bytes() {
    let a = Analysis::new(&[0xff, 0x00, 0x0f], &[0x00, 0x00, 0x0e]);
    assert_eq!(a.num_errs, 9);
    assert_eq!(a.num_block_errs, 2);
    assert_eq!(a.num_bits, 24);
}

#[test]
fn analysis_of_identical_streams_is_zero() {
    let data = create_transmission_text(300, false);
    let a = Analysis::new(&data, &data);
    assert_eq!(a, Analysis { num_errs: 0, num_block_errs: 0, num_bits: 2400 });
}

#[test]
fn analysis_of_empty_streams() {
    let a = Analysis::new(&[], &[]);
    assert_eq!(a, Analysis { num_errs: 0, num_block_errs: 0, num_bits: 0 });
}

#[test]
fn create_transmission_cycle() {}

#[test]
fn bools_and_back() {
    for num in 0..100_u8 {
        let bools = num.to_bools();
        assert_eq!(bools_to_u8(bools), num);
    }
}

#[test]
fn bools_and_back_every_byte() {
    for num in 0..=255_u8 {
        assert_eq!(bools_to_u8(num.to_bools()), num);
    }
}

#[test]
fn to_bools_is_lsb_first() {
    assert_eq!(0b1000_0001u8.to_bools(), [true, false, false, false, false, false, false, true]);
    assert_eq!(bools_to_u8([false, true, false, false, false, false, false, false]), 2);
    assert_eq!(bools_to_u8([false, false, false, false, false, false, false, true]), 128);
}

#[test]
fn ecc_packets() {
    let ecced = create_transmission_text(1024, true);

    assert_eq!(ecced.len(), 5 * 255);

    let text = decipher_transmission_text(1024, ecced, true);
    let expected_bytes = CORPUS.bytes().cycle().take(1024).collect::<Vec<u8>>();
    assert_eq!(text, String::from_utf8(expected_bytes).ok());
}

#[test]
fn transmission_text_cycles_the_corpus() {
    let corpus = CORPUS.as_bytes();
    let text = create_transmission_text(corpus.len() + 5, false);
    assert_eq!(&text[..corpus.len()], corpus);
    assert_eq!(&text[corpus.len()..], &corpus[..5]);
    assert_eq!(create_transmission_text(0, false), Vec::<u8>::new());
}

#[test]
fn transmission_text_with_ecc_is_protected() {
    let plain = create_transmission_text(400, false);
    let protected = create_transmission_text(400, true);
    assert_eq!(protected, create_transmission_bytes(&plain));
    assert_eq!(protected.len(), 2 * 255);
    assert_eq!(&protected[..223], &plain[..223]);
    assert_eq!(&protected[255..255 + 177], &plain[223..]);
}

#[test]
fn decipher_text_without_ecc() {
    let text = decipher_transmission_text(3, b"abc".to_vec(), false);
    assert_eq!(text, Some(String::from("abc")));
    assert_eq!(decipher_transmission_text(3, vec![0xff, 0xfe], false), None);
}

#[test]
fn decipher_text_with_ecc_keeps_requested_bytes() {
    let protected = create_transmission_bytes(b"hello world");
    let text = decipher_transmission_text(5, protected, true);
    assert_eq!(text, Some(String::from("hello")));
}

#[test]
fn trim_to_keeps_the_front() {
    assert_eq!(trim_to(vec![1, 2, 3, 4], 2), vec![1, 2]);
    assert_eq!(trim_to(vec![1, 2, 3, 4], 4), vec![1, 2, 3, 4]);
    assert_eq!(trim_to(vec![1, 2, 3, 4], 0), Vec::<u8>::new());
}

fn palette() -> Vec<CustomRgb> {
    (0..=255u8).map(|i| CustomRgb { r: i, g: 255 - i, b: i / 2 }).collect()
}

#[test]
fn colorspace_maps_bytes_to_rgb_words() {
    let out = decipher_transmision_colorspace(&[0, 1, 255], false, &palette());
    assert_eq!(out, Some(vec![0x00ff00, 0x01fe00, 0xff007f]));
}

#[test]
fn colorspace_with_ecc_corrects_first() {
    let mut protected = create_transmission_bytes(&[2, 3]);
    protected[0] ^= 0x55;
    let out = decipher_transmision_colorspace(&protected, true, &palette()).unwrap();
    assert_eq!(out.len(), 223);
    assert_eq!(&out[..3], &[0x02fd01, 0x03fc01, 0x00ff00]);
}
