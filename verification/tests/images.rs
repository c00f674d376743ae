use blackhole::archive::{
    decode_container, decode_legacy_payload, decode_new_payload, decode_payload,
    encode_new_payload, make_header, pixel_count, smallest, uses_unknown_filter, MAGIC_HEADER,
    MODE_ADAPTIVE, MODE_RAW, VERSIONED_MAGIC_HEADER,
};
use blackhole::deflate::deflate_encode;
use blackhole::error::Error;
use blackhole::filter::{adaptive_filtered_data, filtered_data};
use blackhole::range::{range_encode, RANGE_MAGIC_HEADER};

#[test]
fn new_payload_round_trips_structured_pixels() {
    let width = 17;
    let height = 9;
    let pixels: Vec<u8> = (0..width * height)
        .map(|index| ((index / width) * 7 + index % width * 3) as u8)
        .collect();
    let compressed = encode_new_payload(&pixels, width as u32, height as u32).unwrap();

    let (decoded_width, decoded_height, decoded) =
        decode_payload(&decode_container(&compressed).unwrap()).unwrap();
    assert_eq!(
        (decoded_width, decoded_height),
        (width as u32, height as u32)
    );
    assert_eq!(decoded, pixels);
}

#[test]
fn new_payload_round_trips_noisy_pixels() {
    let pixels: Vec<u8> = (0..128).map(|index| (index * 73 + 19) as u8).collect();
    let compressed = encode_new_payload(&pixels, 16, 8).unwrap();

    let (_, _, decoded) = decode_payload(&decode_container(&compressed).unwrap()).unwrap();
    assert_eq!(decoded, pixels);
}

#[test]
fn new_payload_round_trips_large_constant_image() {
    let pixels = vec![42; 128 * 1024];
    let compressed = encode_new_payload(&pixels, 128, 1024).unwrap();

    let (_, _, decoded) = decode_payload(&decode_container(&compressed).unwrap()).unwrap();
    assert_eq!(decoded, pixels);
}

#[test]
fn legacy_payload_remains_readable() {
    let mut payload = Vec::from(MAGIC_HEADER.as_slice());
    payload.extend_from_slice(&2u32.to_le_bytes());
    payload.extend_from_slice(&2u32.to_le_bytes());
    payload.extend_from_slice(&[0, 10, 20, 30]);

    let (width, height, pixels) = decode_legacy_payload(&payload).unwrap();
    assert_eq!((width, height), (2, 2));
    assert_eq!(pixels, vec![0, 10, 20, 50]);
}

fn versioned(mode: u8, width: u32, height: u32, body: &[u8]) -> Vec<u8> {
    let mut payload = make_header(mode, width, height);
    payload.extend_from_slice(body);
    payload
}

fn ramp(count: usize) -> Vec<u8> {
    (0..count).map(|index| (index * index * 11 + 3 * index) as u8).collect()
}

#[test]
fn magics_are_the_documented_letters() {
    assert_eq!(&MAGIC_HEADER, b"GS8B");
    assert_eq!(&VERSIONED_MAGIC_HEADER, b"GS8C");
    assert_eq!(&RANGE_MAGIC_HEADER, b"GS8R");
}

#[test]
fn header_bytes_are_exact() {
    assert_eq!(
        make_header(6, 0x01020304, 0xA0B0C0D0),
        vec![0x47, 0x53, 0x38, 0x43, 1, 6, 4, 3, 2, 1, 0xD0, 0xC0, 0xB0, 0xA0]
    );
}

#[test]
fn pixel_counts_multiply() {
    assert_eq!(pixel_count(17, 9), Ok(153));
    assert_eq!(pixel_count(0, u32::MAX), Ok(0));
    if usize::BITS == 64 {
        assert_eq!(
            pixel_count(u32::MAX, u32::MAX),
            Ok(u32::MAX as usize * u32::MAX as usize)
        );
    } else {
        assert_eq!(pixel_count(u32::MAX, u32::MAX), Err(Error::DimensionsTooLarge));
    }
}

#[test]
fn empty_images_round_trip() {
    for (width, height) in [(0u32, 0u32), (0, 3), (5, 0)] {
        let compressed = encode_new_payload(&[], width, height).unwrap();
        let payload = decode_container(&compressed).unwrap();
        assert!(!uses_unknown_filter(&payload));
        assert_eq!(decode_payload(&payload), Ok((width, height, Vec::new())));
    }
}

#[test]
fn every_mode_is_read_back() {
    let pixels = ramp(12);
    let raw = versioned(MODE_RAW, 4, 3, &pixels);
    assert_eq!(decode_payload(&raw), Ok((4, 3, pixels.clone())));
    for filter in 0..5u8 {
        let data = filtered_data(&pixels, 4, 3, filter);
        let payload = versioned(filter + 1, 4, 3, &data);
        assert_eq!(decode_new_payload(&payload), Ok((4, 3, pixels.clone())));
    }
    let (filters, data) = adaptive_filtered_data(&pixels, 4, 3);
    assert_eq!(filters.len(), 3);
    let mut body = filters;
    body.extend_from_slice(&data);
    let adaptive = versioned(MODE_ADAPTIVE, 4, 3, &body);
    assert!(!uses_unknown_filter(&adaptive));
    assert_eq!(decode_payload(&adaptive), Ok((4, 3, pixels)));
}

#[test]
fn older_paeth_rows_are_read() {
    let payload = versioned(MODE_ADAPTIVE, 1, 1, &[4, 3]);
    assert!(!uses_unknown_filter(&payload));
    assert_eq!(decode_payload(&payload), Ok((1, 1, vec![254])));
}

#[test]
fn unknown_filters_are_found() {
    let payload = versioned(MODE_ADAPTIVE, 1, 2, &[0, 5, 9, 9]);
    assert!(uses_unknown_filter(&payload));
    let without_columns = versioned(MODE_ADAPTIVE, 0, 2, &[0, 5]);
    assert!(!uses_unknown_filter(&without_columns));
    assert_eq!(decode_payload(&without_columns), Ok((0, 2, Vec::new())));
    let too_short = versioned(MODE_ADAPTIVE, 1, 2, &[0, 5, 9]);
    assert!(!uses_unknown_filter(&too_short));
    assert_eq!(decode_payload(&too_short), Err(Error::FilteredLengthMismatch));
}

#[test]
fn malformed_legacy_payloads_are_refused() {
    assert_eq!(decode_legacy_payload(b"GS8B"), Err(Error::InvalidLegacyHeader));
    assert_eq!(
        decode_legacy_payload(b"GS8X00000000"),
        Err(Error::InvalidLegacyHeader)
    );
    let mut payload = Vec::from(MAGIC_HEADER.as_slice());
    payload.extend_from_slice(&2u32.to_le_bytes());
    payload.extend_from_slice(&1u32.to_le_bytes());
    payload.push(7);
    assert_eq!(decode_payload(&payload), Err(Error::LegacyLengthMismatch));
    payload.push(7);
    assert_eq!(decode_payload(&payload), Ok((2, 1, vec![7, 14])));
}

#[test]
fn malformed_versioned_payloads_are_refused() {
    assert_eq!(decode_new_payload(b"GS8C"), Err(Error::InvalidVersionedHeader));
    assert_eq!(
        decode_new_payload(b"GS8B\x01\x00\0\0\0\0\0\0\0\0"),
        Err(Error::InvalidVersionedHeader)
    );
    assert_eq!(
        decode_payload(b"GS8C\x02\x00\0\0\0\0\0\0\0\0"),
        Err(Error::UnsupportedVersion)
    );
    assert_eq!(
        decode_payload(&versioned(MODE_RAW, 2, 2, &[1, 2, 3])),
        Err(Error::RawLengthMismatch)
    );
    assert_eq!(
        decode_payload(&versioned(1, 2, 2, &[1, 2, 3])),
        Err(Error::FilteredLengthMismatch)
    );
    assert_eq!(
        decode_payload(&versioned(MODE_ADAPTIVE, 2, 2, &[0])),
        Err(Error::MissingFilterMetadata)
    );
    assert_eq!(decode_payload(&versioned(7, 0, 0, &[])), Err(Error::UnknownMode));
    assert_eq!(decode_payload(b"PNG"), Err(Error::UnrecognizedArchive));
}

#[test]
fn shortest_candidate_is_the_first_of_its_length() {
    assert_eq!(smallest(Vec::new()), None);
    assert_eq!(
        smallest(vec![vec![1, 1, 1], vec![2, 2], vec![3, 3], vec![4, 4, 4]]),
        Some(vec![2, 2])
    );
    assert_eq!(smallest(vec![vec![9]]), Some(vec![9]));
}

#[test]
fn archive_is_the_shortest_container() {
    let pixels = ramp(60);
    let archive = encode_new_payload(&pixels, 10, 6).unwrap();
    let mut payloads = vec![versioned(MODE_RAW, 10, 6, &pixels)];
    for filter in 0..4u8 {
        payloads.push(versioned(
            filter + 1,
            10,
            6,
            &filtered_data(&pixels, 10, 6, filter),
        ));
    }
    let (mut body, data) = adaptive_filtered_data(&pixels, 10, 6);
    body.extend_from_slice(&data);
    payloads.push(versioned(MODE_ADAPTIVE, 10, 6, &body));
    let mut candidates = Vec::new();
    for payload in &payloads {
        candidates.push(range_encode(payload).unwrap());
        candidates.push(deflate_encode(payload).unwrap());
    }
    assert_eq!(Some(archive), smallest(candidates));
}

#[test]
fn deflate_archives_are_read() {
    let payload = versioned(MODE_RAW, 3, 1, &[5, 6, 7]);
    let stream = deflate_encode(&payload).unwrap();
    assert_ne!(stream, payload);
    assert_eq!(stream[0] & 6 == 6, false);
    assert_eq!(decode_container(&stream), Ok(payload));
    let empty = deflate_encode(&[]).unwrap();
    assert_eq!(decode_container(&empty), Ok(Vec::new()));
}

#[test]
fn deflate_shrinks_repetition() {
    let payload = vec![7; 100_000];
    let stream = deflate_encode(&payload).unwrap();
    assert!(stream.len() < 1_000);
    assert_eq!(decode_container(&stream), Ok(payload));
}

#[test]
fn broken_deflate_streams_are_refused() {
    assert_eq!(decode_container(&[0x47]), Err(Error::CorruptDeflate));
    assert_eq!(decode_container(&[]), Err(Error::IncompleteDeflate));
    let payload = ramp(500);
    let mut stream = deflate_encode(&payload).unwrap();
    stream.truncate(stream.len() / 2);
    assert_eq!(decode_container(&stream), Err(Error::IncompleteDeflate));
}

#[test]
fn legacy_archives_are_read() {
    let mut payload = Vec::from(MAGIC_HEADER.as_slice());
    payload.extend_from_slice(&2u32.to_le_bytes());
    payload.extend_from_slice(&2u32.to_le_bytes());
    payload.extend_from_slice(&[0, 10, 20, 30]);
    let stream = deflate_encode(&payload).unwrap();
    let unpacked = decode_container(&stream).unwrap();
    assert_eq!(decode_payload(&unpacked), Ok((2, 2, vec![0, 10, 20, 50])));
}
