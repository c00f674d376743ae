use blackhole::bits::{BitReader, BitWriter};
use blackhole::coder::{ArithmeticDecoder, ArithmeticEncoder};
use blackhole::error::Error;
use blackhole::model::BitContextModel;
use blackhole::range::{range_decode, range_encode};

#[test]
fn writer_packs_bits_from_the_top() {
    let mut writer = BitWriter::new();
    for bit in [true, false, true, true, false, false, false, true, true, true] {
        writer.write(bit);
    }
    assert_eq!(writer.finish(), vec![0b1011_0001, 0b1100_0000]);
    assert_eq!(BitWriter::new().finish(), Vec::<u8>::new());
}

#[test]
fn reader_hands_out_bits_and_ends() {
    let bytes = [0b1010_0000u8, 0b0000_0001];
    let mut reader = BitReader::new(&bytes);
    let mut bits = Vec::new();
    for _ in 0..16 {
        bits.push(reader.read().unwrap());
    }
    assert_eq!(
        bits,
        vec![
            true, false, true, false, false, false, false, false, false, false, false, false,
            false, false, false, true
        ]
    );
    assert_eq!(reader.read(), Err(Error::TruncatedRangePayload));
    assert_eq!(reader.read(), Err(Error::TruncatedRangePayload));
}

#[test]
fn model_counts_and_halves() {
    let mut model = BitContextModel::new();
    assert_eq!(model.counts(3, 5), (1, 1));
    model.update(3, 5, true);
    model.update(3, 5, false);
    model.update(3, 5, true);
    assert_eq!(model.counts(3, 5), (2, 3));
    assert_eq!(model.counts(3, 4), (1, 1));
    assert_eq!(model.counts(255, 255), (1, 1));
    for _ in 0..65533 {
        model.update(9, 0, true);
    }
    assert_eq!(model.counts(9, 0), (1, 65534));
    model.update(9, 0, true);
    assert_eq!(model.counts(9, 0), (1, 32768));
}

#[test]
fn encoder_settles_on_a_quarter() {
    assert_eq!(ArithmeticEncoder::new().finish(), vec![0b0100_0000]);
    let mut encoder = ArithmeticEncoder::new();
    encoder.encode(true, 1, 1);
    assert_eq!(encoder.finish(), vec![0b1010_0000]);
    let mut encoder = ArithmeticEncoder::new();
    encoder.encode(false, 1, 3);
    assert_eq!(encoder.finish(), vec![0b0001_0000]);
    let mut encoder = ArithmeticEncoder::new();
    encoder.encode(false, 3, 1);
    encoder.encode(true, 1, 2);
    assert_eq!(encoder.finish(), vec![0b0110_0000]);
}

#[test]
fn decoder_finds_the_bits_again() {
    let bits = [
        true, true, false, true, false, false, false, true, true, false, true, true,
    ];
    let counts = [(1, 1), (7, 2), (1, 65534), (300, 5), (2, 2), (65534, 1)];
    let mut encoder = ArithmeticEncoder::new();
    for (index, bit) in bits.iter().enumerate() {
        let (zeros, ones) = counts[index % counts.len()];
        encoder.encode(*bit, zeros, ones);
    }
    let mut code = encoder.finish();
    code.extend_from_slice(&[0; 4]);
    let mut decoder = ArithmeticDecoder::new(&code).unwrap();
    for (index, bit) in bits.iter().enumerate() {
        let (zeros, ones) = counts[index % counts.len()];
        assert_eq!(decoder.decode(zeros, ones), Ok(*bit));
    }
}

#[test]
fn decoder_needs_four_bytes() {
    assert!(ArithmeticDecoder::new(&[1, 2, 3]).is_err());
    let mut decoder = ArithmeticDecoder::new(&[0; 4]).ok().unwrap();
    assert_eq!(decoder.decode(1, 1), Err(Error::TruncatedRangePayload));
}

#[test]
fn range_container_of_nothing_is_exact() {
    assert_eq!(
        range_encode(&[]).unwrap(),
        vec![
            0x47, 0x53, 0x38, 0x52, 1, 0, 0, 0, 0, 0, 0, 0, 0, 0b0100_0000, 0, 0, 0, 0
        ]
    );
}

#[test]
fn range_container_of_a_zero_byte_is_exact() {
    let container = range_encode(&[0]).unwrap();
    assert_eq!(&container[..13], &[0x47, 0x53, 0x38, 0x52, 1, 1, 0, 0, 0, 0, 0, 0, 0]);
    assert_eq!(range_decode(&container), Ok(vec![0]));
}

#[test]
fn range_coding_round_trips() {
    let mut payloads: Vec<Vec<u8>> = vec![vec![], vec![255], (0..=255).collect()];
    payloads.push(vec![0; 70_000]);
    payloads.push(vec![255; 70_000]);
    payloads.push((0..5_000u32).map(|index| (index * index >> 3) as u8).collect());
    payloads.push((0..5_000u32).map(|index| (index.wrapping_mul(2_654_435_761) >> 13) as u8).collect());
    for payload in payloads {
        let container = range_encode(&payload).unwrap();
        assert_eq!(range_decode(&container), Ok(payload.clone()));
        let mut longer = container;
        longer.extend_from_slice(&[0xFF, 0x12]);
        assert_eq!(range_decode(&longer), Ok(payload));
    }
}

#[test]
fn range_coding_shrinks_repetition() {
    let container = range_encode(&vec![0; 70_000]).unwrap();
    assert!(container.len() < 200);
}

#[test]
fn malformed_range_containers_are_refused() {
    assert_eq!(range_decode(b"GS8R\x01"), Err(Error::InvalidRangeHeader));
    assert_eq!(
        range_decode(b"GS8Q\x01\0\0\0\0\0\0\0\0\0\0\0\0"),
        Err(Error::InvalidRangeHeader)
    );
    assert_eq!(
        range_decode(b"GS8R\x02\0\0\0\0\0\0\0\0\0\0\0\0"),
        Err(Error::UnsupportedRangeVersion)
    );
    assert_eq!(
        range_decode(b"GS8R\x01\0\0\0\0\0\0\0\0\0\0\0"),
        Err(Error::TruncatedRangePayload)
    );
    assert_eq!(
        range_decode(b"GS8R\x01\x09\0\0\0\0\0\0\0\x55\x55\x55\x55\x55"),
        Err(Error::TruncatedRangePayload)
    );
    let huge = range_decode(b"GS8R\x01\xFF\xFF\xFF\xFF\xFF\xFF\xFF\xFF\x55\x55\x55\x55\x55");
    if usize::BITS == 64 {
        assert_eq!(huge, Err(Error::TruncatedRangePayload));
    } else {
        assert_eq!(huge, Err(Error::PayloadTooLarge));
    }
}
