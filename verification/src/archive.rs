//! Payloads and archives: how an image becomes bytes, and bytes an image.
use vstd::arithmetic::power2::lemma2_to64;
use vstd::prelude::*;

use crate::bytes::{
    begins_with, contents, has_magic, lemma_little_endian_bound, lemma_little_endian_len,
    little_endian, little_endian_reads_back, little_endian_value, push_little_endian,
    read_little_endian,
};
use crate::deflate::{deflate_encode, deflated, inflate, inflated, reserved_block};
use crate::error::Error;
use crate::filter::{
    adaptive_filtered_data, best_filter_is_least, best_filters, filtered_data,
    filtering_is_lossless, legacy_filtering_is_lossless, legacy_reconstruct, legacy_reconstructed,
    legacy_residuals, lemma_legacy_reconstructed_len, lemma_reconstructed_len, reconstruct,
    reconstructed, residuals, uniform_filters, ENCODER_FILTERS, KNOWN_FILTERS,
};
use crate::laws::archive::{archive_is_no_longer_than_any_container, archives_need_six_streams};
use crate::range::{
    range_coding_is_lossless, range_decode, range_decoded, range_encode, range_encoded,
    FORMAT_VERSION, RANGE_MAGIC_HEADER,
};

verus! {

/// The first bytes of a legacy payload: `GS8B`.
pub const MAGIC_HEADER: [u8; 4] = [0x47, 0x53, 0x38, 0x42];

/// The first bytes of a versioned payload: `GS8C`.
pub const VERSIONED_MAGIC_HEADER: [u8; 4] = [0x47, 0x53, 0x38, 0x43];

/// The mode of a payload that holds plain pixels.
pub const MODE_RAW: u8 = 0;

/// The mode of a payload in which each row has its own filter.
pub const MODE_ADAPTIVE: u8 = 6;

/// The width, the height and the pixels of an image, taken as a sequence.
pub open spec fn image(result: Result<(u32, u32, Vec<u8>), Error>) -> Result<
    (u32, u32, Seq<u8>),
    Error,
> {
    match result {
        Ok((width, height, pixels)) => Ok((width, height, pixels@)),
        Err(error) => Err(error),
    }
}

/// The header of a versioned payload.
pub open spec fn header(mode: u8, width: u32, height: u32) -> Seq<u8> {
    VERSIONED_MAGIC_HEADER@ + seq![FORMAT_VERSION, mode] + little_endian(width as nat, 4)
        + little_endian(height as nat, 4)
}

/// The payload that holds the pixels as they are.
pub open spec fn raw_payload(pixels: Seq<u8>, width: u32, height: u32) -> Seq<u8> {
    header(MODE_RAW, width, height) + pixels
}

/// The payload that holds the residuals under one filter.
pub open spec fn filtered_payload(pixels: Seq<u8>, width: u32, height: u32, filter: u8) -> Seq<
    u8,
> {
    header((filter + 1) as u8, width, height) + residuals(
        uniform_filters(filter, height as nat),
        pixels,
        width as int,
        (width * height) as nat,
    )
}

/// The payload that holds the residuals under the best filter of each row.
pub open spec fn adaptive_payload(pixels: Seq<u8>, width: u32, height: u32) -> Seq<u8> {
    let filters = best_filters(pixels, width as int, height as nat);
    header(MODE_ADAPTIVE, width, height) + filters + residuals(
        filters,
        pixels,
        width as int,
        (width * height) as nat,
    )
}

/// The legacy payload of an image.
pub open spec fn legacy_payload(pixels: Seq<u8>, width: u32, height: u32) -> Seq<u8> {
    MAGIC_HEADER@ + little_endian(width as nat, 4) + little_endian(height as nat, 4)
        + legacy_residuals(pixels, width as int, (width * height) as nat)
}

/// The image in a legacy payload.
pub open spec fn legacy_image(payload: Seq<u8>) -> Result<(u32, u32, Seq<u8>), Error> {
    let width = little_endian_value(payload.subrange(4, 8)) as u32;
    let height = little_endian_value(payload.subrange(8, 12)) as u32;
    if payload.len() < 12 || !begins_with(payload, MAGIC_HEADER@) {
        Err(Error::InvalidLegacyHeader)
    } else if width * height > usize::MAX {
        Err(Error::DimensionsTooLarge)
    } else if payload.len() - 12 != width * height {
        Err(Error::LegacyLengthMismatch)
    } else {
        Ok(
            (
                width,
                height,
                legacy_reconstructed(payload.skip(12), width as int, (width * height) as nat),
            ),
        )
    }
}

/// The width that the header of a versioned payload declares.
pub open spec fn declared_width(payload: Seq<u8>) -> u32 {
    little_endian_value(payload.subrange(6, 10)) as u32
}

/// The height that the header of a versioned payload declares.
pub open spec fn declared_height(payload: Seq<u8>) -> u32 {
    little_endian_value(payload.subrange(10, 14)) as u32
}

/// The image in a versioned payload.
pub open spec fn versioned_image(payload: Seq<u8>) -> Result<(u32, u32, Seq<u8>), Error> {
    let mode = payload[5];
    let width = declared_width(payload);
    let height = declared_height(payload);
    let count = (width * height) as nat;
    let table_end = 14 + height;
    if payload.len() < 14 || !begins_with(payload, VERSIONED_MAGIC_HEADER@) {
        Err(Error::InvalidVersionedHeader)
    } else if payload[4] != FORMAT_VERSION {
        Err(Error::UnsupportedVersion)
    } else if count > usize::MAX {
        Err(Error::DimensionsTooLarge)
    } else if mode == MODE_RAW {
        if payload.len() - 14 != count {
            Err(Error::RawLengthMismatch)
        } else {
            Ok((width, height, payload.skip(14)))
        }
    } else if mode == MODE_ADAPTIVE {
        if table_end > usize::MAX {
            Err(Error::FilterMetadataTooLarge)
        } else if table_end > payload.len() {
            Err(Error::MissingFilterMetadata)
        } else if payload.len() - table_end != count {
            Err(Error::FilteredLengthMismatch)
        } else {
            Ok(
                (
                    width,
                    height,
                    reconstructed(
                        payload.skip(table_end),
                        payload.subrange(14, table_end),
                        width as int,
                        count,
                    ),
                ),
            )
        }
    } else if mode <= KNOWN_FILTERS {
        if payload.len() - 14 != count {
            Err(Error::FilteredLengthMismatch)
        } else {
            Ok(
                (
                    width,
                    height,
                    reconstructed(
                        payload.skip(14),
                        uniform_filters((mode - 1) as u8, height as nat),
                        width as int,
                        count,
                    ),
                ),
            )
        }
    } else {
        Err(Error::UnknownMode)
    }
}

/// A versioned payload that would be an image but for a row whose filter does
/// not exist.
pub open spec fn has_unknown_filter(payload: Seq<u8>) -> bool {
    &&& versioned_image(payload) is Ok
    &&& payload[5] == MODE_ADAPTIVE
    &&& declared_width(payload) > 0
    &&& exists|y: int|
        0 <= y < declared_height(payload) && #[trigger] payload[14 + y] >= KNOWN_FILTERS
}

/// The image in a payload.
pub open spec fn payload_image(payload: Seq<u8>) -> Result<(u32, u32, Seq<u8>), Error> {
    if begins_with(payload, MAGIC_HEADER@) {
        legacy_image(payload)
    } else if begins_with(payload, VERSIONED_MAGIC_HEADER@) {
        versioned_image(payload)
    } else {
        Err(Error::UnrecognizedArchive)
    }
}

/// The payload in a container.
pub open spec fn container_payload(container: Seq<u8>) -> Result<Seq<u8>, Error> {
    if begins_with(container, RANGE_MAGIC_HEADER@) {
        range_decoded(container)
    } else {
        inflated(container)
    }
}

/// Returns the header of a versioned payload.
pub fn make_header(mode: u8, width: u32, height: u32) -> (bytes: Vec<u8>)
    ensures
        bytes@ == header(mode, width, height),
{
    let mut bytes: Vec<u8> = Vec::new();
    bytes.extend_from_slice(&VERSIONED_MAGIC_HEADER);
    bytes.push(FORMAT_VERSION);
    bytes.push(mode);
    push_little_endian(&mut bytes, width as u64, 4);
    push_little_endian(&mut bytes, height as u64, 4);
    assert(bytes@ =~= header(mode, width, height));
    bytes
}

/// Returns the number of pixels, or fails where it does not fit in `usize`.
pub fn pixel_count(width: u32, height: u32) -> (count: Result<usize, Error>)
    ensures
        if width * height <= usize::MAX {
            count == Ok::<usize, Error>((width * height) as usize)
        } else {
            count == Err::<usize, Error>(Error::DimensionsTooLarge)
        },
{
    match (width as usize).checked_mul(height as usize) {
        Some(count) => Ok(count),
        None => Err(Error::DimensionsTooLarge),
    }
}

/// Four bytes spell a number of 32 bits.
proof fn lemma_four_bytes(bytes: Seq<u8>)
    requires
        bytes.len() == 4,
    ensures
        little_endian_value(bytes) <= u32::MAX,
{
    lemma_little_endian_bound(bytes);
    lemma2_to64();
}

/// Reads the 32-bit number in the four bytes from `start` on.
fn read_u32(bytes: &[u8], start: usize) -> (value: u32)
    requires
        start + 4 <= bytes.len(),
    ensures
        value == little_endian_value(bytes@.subrange(start as int, start + 4)),
        value == little_endian_value(bytes@.subrange(start as int, start + 4)) as u32,
{
    let value: u64 = read_little_endian(bytes, start, 4);
    proof {
        lemma_four_bytes(bytes@.subrange(start as int, start + 4));
    }
    value as u32
}

/// Decodes the image in a legacy payload.
pub fn decode_legacy_payload(payload: &[u8]) -> (decoded: Result<(u32, u32, Vec<u8>), Error>)
    ensures
        image(decoded) == legacy_image(payload@),
{
    if payload.len() < 12 || !has_magic(payload, MAGIC_HEADER) {
        return Err(Error::InvalidLegacyHeader);
    }
    let width: u32 = read_u32(payload, 4);
    let height: u32 = read_u32(payload, 8);
    let count: usize = match pixel_count(width, height) {
        Ok(count) => count,
        Err(error) => {
            return Err(error);
        },
    };
    let data = vstd::slice::slice_subrange(payload, 12, payload.len());
    assert(data@ =~= payload@.skip(12));
    if data.len() != count {
        return Err(Error::LegacyLengthMismatch);
    }
    proof {
        lemma_empty_without_columns(width, height);
    }
    Ok((width, height, legacy_reconstruct(data, width as usize)))
}

/// An image without columns has no pixels.
proof fn lemma_empty_without_columns(width: u32, height: u32)
    ensures
        width == 0 ==> width * height == 0,
        width > 0 && height > 0 ==> width * height > 0,
        height == 0 ==> width * height == 0,
{
    assert(width == 0 ==> width * height == 0) by (nonlinear_arith);
    assert(height == 0 ==> width * height == 0) by (nonlinear_arith);
    assert(width > 0 && height > 0 ==> width * height > 0) by (nonlinear_arith);
}

/// Decodes the image in a versioned payload. The filters of its rows must
/// exist.
pub fn decode_new_payload(payload: &[u8]) -> (decoded: Result<(u32, u32, Vec<u8>), Error>)
    requires
        !has_unknown_filter(payload@),
    ensures
        image(decoded) == versioned_image(payload@),
{
    if payload.len() < 14 || !has_magic(payload, VERSIONED_MAGIC_HEADER) {
        return Err(Error::InvalidVersionedHeader);
    }
    if payload[4] != FORMAT_VERSION {
        return Err(Error::UnsupportedVersion);
    }
    let mode: u8 = payload[5];
    let width: u32 = read_u32(payload, 6);
    let height: u32 = read_u32(payload, 10);
    let count: usize = match pixel_count(width, height) {
        Ok(count) => count,
        Err(error) => {
            return Err(error);
        },
    };
    proof {
        lemma_empty_without_columns(width, height);
    }
    if mode == MODE_RAW {
        let data = vstd::slice::slice_subrange(payload, 14, payload.len());
        assert(data@ =~= payload@.skip(14));
        if data.len() != count {
            return Err(Error::RawLengthMismatch);
        }
        return Ok((width, height, vstd::slice::slice_to_vec(data)));
    }
    if mode == MODE_ADAPTIVE {
        let table_end: usize = match 14usize.checked_add(height as usize) {
            Some(end) => end,
            None => {
                return Err(Error::FilterMetadataTooLarge);
            },
        };
        if table_end > payload.len() {
            return Err(Error::MissingFilterMetadata);
        }
        let filters = vstd::slice::slice_subrange(payload, 14, table_end);
        let data = vstd::slice::slice_subrange(payload, table_end, payload.len());
        assert(data@ =~= payload@.skip(table_end as int));
        if data.len() != count {
            return Err(Error::FilteredLengthMismatch);
        }
        proof {
            assert(versioned_image(payload@) is Ok);
            if count > 0 {
                assert forall|y: int| 0 <= y < filters@.len() implies filters@[y]
                    < KNOWN_FILTERS by {
                    assert(filters@[y] == payload@[14 + y]);
                }
            }
        }
        return Ok((width, height, reconstruct(data, filters, width as usize)));
    }
    if mode > KNOWN_FILTERS {
        return Err(Error::UnknownMode);
    }
    let filters: Vec<u8> = vec![mode - 1; height as usize];
    let data = vstd::slice::slice_subrange(payload, 14, payload.len());
    assert(data@ =~= payload@.skip(14));
    assert(filters@ =~= uniform_filters((mode - 1) as u8, height as nat));
    if data.len() != count {
        return Err(Error::FilteredLengthMismatch);
    }
    Ok((width, height, reconstruct(data, filters.as_slice(), width as usize)))
}

/// Tells whether a payload would be an image but for a row whose filter does
/// not exist.
pub fn uses_unknown_filter(payload: &[u8]) -> (found: bool)
    ensures
        found == has_unknown_filter(payload@),
{
    if payload.len() < 14 || !has_magic(payload, VERSIONED_MAGIC_HEADER) || payload[4]
        != FORMAT_VERSION || payload[5] != MODE_ADAPTIVE {
        return false;
    }
    let width: u32 = read_u32(payload, 6);
    let height: u32 = read_u32(payload, 10);
    let count: usize = match pixel_count(width, height) {
        Ok(count) => count,
        Err(_) => {
            return false;
        },
    };
    let rows: usize = height as usize;
    if width == 0 || rows > payload.len() - 14 || payload.len() - 14 - rows != count {
        return false;
    }
    let mut y: usize = 0;
    while y < rows
        invariant
            y <= rows,
            rows == declared_height(payload@),
            14 + rows <= payload.len(),
            declared_width(payload@) > 0,
            payload@[5] == MODE_ADAPTIVE,
            versioned_image(payload@) is Ok,
            forall|earlier: int|
                0 <= earlier < y ==> #[trigger] payload@[14 + earlier] < KNOWN_FILTERS,
        decreases rows - y,
    {
        if payload[14 + y] >= KNOWN_FILTERS {
            assert(payload@[14 + y as int] >= KNOWN_FILTERS);
            return true;
        }
        y = y + 1;
    }
    false
}

/// Decodes the image in a payload of any known kind.
pub fn decode_payload(payload: &[u8]) -> (decoded: Result<(u32, u32, Vec<u8>), Error>)
    requires
        !has_unknown_filter(payload@),
    ensures
        image(decoded) == payload_image(payload@),
{
    if has_magic(payload, MAGIC_HEADER) {
        decode_legacy_payload(payload)
    } else if has_magic(payload, VERSIONED_MAGIC_HEADER) {
        decode_new_payload(payload)
    } else {
        Err(Error::UnrecognizedArchive)
    }
}

/// Decodes the payload in a container of any known kind.
pub fn decode_container(container: &[u8]) -> (payload: Result<Vec<u8>, Error>)
    ensures
        contents(payload) == container_payload(container@),
{
    if has_magic(container, RANGE_MAGIC_HEADER) {
        return range_decode(container);
    }
    inflate(container)
}

/// The payloads that are tried for an image, in order.
pub open spec fn payload_candidates(pixels: Seq<u8>, width: u32, height: u32) -> Seq<Seq<u8>> {
    seq![
        raw_payload(pixels, width, height),
        filtered_payload(pixels, width, height, 0),
        filtered_payload(pixels, width, height, 1),
        filtered_payload(pixels, width, height, 2),
        filtered_payload(pixels, width, height, 3),
        adaptive_payload(pixels, width, height),
    ]
}

/// The containers of `payloads`: of each the range-coded one, then the DEFLATE
/// stream.
pub open spec fn container_candidates(payloads: Seq<Seq<u8>>) -> Seq<Seq<u8>> {
    Seq::new(
        2 * payloads.len(),
        |k: int|
            if k % 2 == 0 {
                range_encoded(payloads[k / 2])
            } else {
                deflated(payloads[k / 2])->Ok_0
            },
    )
}

/// The place of the shortest candidate, the first of those.
pub open spec fn shortest(candidates: Seq<Seq<u8>>) -> int
    decreases candidates.len(),
{
    if candidates.len() <= 1 {
        0
    } else {
        let best = shortest(candidates.drop_last());
        if candidates.last().len() < candidates[best].len() {
            candidates.len() - 1
        } else {
            best
        }
    }
}

/// The archive of an image: the shortest container of all candidates.
pub open spec fn image_archive(pixels: Seq<u8>, width: u32, height: u32) -> Result<
    Seq<u8>,
    Error,
> {
    let payloads = payload_candidates(pixels, width, height);
    let containers = container_candidates(payloads);
    if exists|j: int| 0 <= j < payloads.len() && #[trigger] deflated(payloads[j]) is Err {
        Err(Error::DeflateFailed)
    } else {
        Ok(containers[shortest(containers)])
    }
}

/// `container` holds the image, and it can be decoded.
pub open spec fn holds_image(
    container: Seq<u8>,
    pixels: Seq<u8>,
    width: u32,
    height: u32,
) -> bool {
    &&& container_payload(container) matches Ok(payload)
    &&& !has_unknown_filter(payload)
    &&& payload_image(payload) == Ok::<(u32, u32, Seq<u8>), Error>((width, height, pixels))
}

/// No candidate is shorter than the one chosen, and those before it are
/// longer.
pub proof fn shortest_is_first_of_least(candidates: Seq<Seq<u8>>, k: int)
    requires
        0 <= k < candidates.len(),
    ensures
        0 <= shortest(candidates) < candidates.len(),
        candidates[shortest(candidates)].len() <= candidates[k].len(),
        k < shortest(candidates) ==> candidates[shortest(candidates)].len() < candidates[k].len(),
    decreases candidates.len(),
{
    if candidates.len() > 1 {
        let before = candidates.drop_last();
        if k < before.len() {
            shortest_is_first_of_least(before, k);
        } else {
            shortest_is_first_of_least(before, 0);
        }
    }
}

/// The header of a versioned payload is found where it was put.
proof fn lemma_header_read(mode: u8, width: u32, height: u32, body: Seq<u8>)
    ensures
        ({
            let payload = header(mode, width, height) + body;
            &&& payload.len() == 14 + body.len()
            &&& begins_with(payload, VERSIONED_MAGIC_HEADER@)
            &&& !begins_with(payload, MAGIC_HEADER@)
            &&& payload[4] == FORMAT_VERSION
            &&& payload[5] == mode
            &&& declared_width(payload) == width
            &&& declared_height(payload) == height
            &&& payload.skip(14) == body
        }),
{
    let payload = header(mode, width, height) + body;
    lemma2_to64();
    lemma_little_endian_len(width as nat, 4);
    lemma_little_endian_len(height as nat, 4);
    little_endian_reads_back(width as nat, 4);
    little_endian_reads_back(height as nat, 4);
    assert(payload.take(4) =~= VERSIONED_MAGIC_HEADER@);
    assert(payload.take(4)[3] != MAGIC_HEADER@[3]);
    assert(payload.subrange(6, 10) =~= little_endian(width as nat, 4));
    assert(payload.subrange(10, 14) =~= little_endian(height as nat, 4));
    assert(payload.skip(14) =~= body);
}

/// Every image is read back from its raw payload.
pub proof fn raw_payload_is_lossless(pixels: Seq<u8>, width: u32, height: u32)
    requires
        pixels.len() == width * height,
        pixels.len() <= usize::MAX,
    ensures
        payload_image(raw_payload(pixels, width, height)) == Ok::<(u32, u32, Seq<u8>), Error>(
            (width, height, pixels),
        ),
        !has_unknown_filter(raw_payload(pixels, width, height)),
{
    lemma_header_read(MODE_RAW, width, height, pixels);
}

/// Every image is read back from the payload of any one filter.
pub proof fn filtered_payload_is_lossless(pixels: Seq<u8>, width: u32, height: u32, filter: u8)
    requires
        pixels.len() == width * height,
        pixels.len() <= usize::MAX,
        filter < KNOWN_FILTERS,
    ensures
        payload_image(filtered_payload(pixels, width, height, filter)) == Ok::<
            (u32, u32, Seq<u8>),
            Error,
        >((width, height, pixels)),
        !has_unknown_filter(filtered_payload(pixels, width, height, filter)),
{
    let filters = uniform_filters(filter, height as nat);
    let count = (width * height) as nat;
    lemma_header_read(
        (filter + 1) as u8,
        width,
        height,
        residuals(filters, pixels, width as int, count),
    );
    lemma_empty_without_columns(width, height);
    filtering_is_lossless(filters, pixels, width as int, count);
    assert(pixels.take(count as int) =~= pixels);
}

/// Every image is read back from its adaptive payload.
pub proof fn adaptive_payload_is_lossless(pixels: Seq<u8>, width: u32, height: u32)
    requires
        pixels.len() == width * height,
        adaptive_payload(pixels, width, height).len() <= usize::MAX,
    ensures
        payload_image(adaptive_payload(pixels, width, height)) == Ok::<
            (u32, u32, Seq<u8>),
            Error,
        >((width, height, pixels)),
        !has_unknown_filter(adaptive_payload(pixels, width, height)),
{
    let filters = best_filters(pixels, width as int, height as nat);
    let count = (width * height) as nat;
    let data = residuals(filters, pixels, width as int, count);
    let payload = adaptive_payload(pixels, width, height);
    lemma_header_read(MODE_ADAPTIVE, width, height, filters + data);
    assert(payload =~= header(MODE_ADAPTIVE, width, height) + (filters + data));
    assert(payload.skip(14 + height) =~= data) by {
        assert(payload.skip(14 + height) =~= payload.skip(14).skip(height as int));
    }
    assert(payload.subrange(14, 14 + height) =~= filters) by {
        assert(payload.subrange(14, 14 + height) =~= payload.skip(14).take(height as int));
    }
    lemma_empty_without_columns(width, height);
    filtering_is_lossless(filters, pixels, width as int, count);
    assert(pixels.take(count as int) =~= pixels);
    assert forall|y: int| 0 <= y < height implies #[trigger] payload[14 + y] < KNOWN_FILTERS by {
        assert(payload[14 + y] == payload.skip(14)[y]);
        best_filter_is_least(pixels, width as int, y, 0);
    }
}

/// Every image is read back from its legacy payload.
pub proof fn legacy_payload_is_lossless(pixels: Seq<u8>, width: u32, height: u32)
    requires
        pixels.len() == width * height,
        pixels.len() <= usize::MAX,
    ensures
        payload_image(legacy_payload(pixels, width, height)) == Ok::<(u32, u32, Seq<u8>), Error>(
            (width, height, pixels),
        ),
{
    let payload = legacy_payload(pixels, width, height);
    let count = (width * height) as nat;
    let data = legacy_residuals(pixels, width as int, count);
    lemma2_to64();
    lemma_little_endian_len(width as nat, 4);
    lemma_little_endian_len(height as nat, 4);
    little_endian_reads_back(width as nat, 4);
    little_endian_reads_back(height as nat, 4);
    assert(payload.take(4) =~= MAGIC_HEADER@);
    assert(payload.subrange(4, 8) =~= little_endian(width as nat, 4));
    assert(payload.subrange(8, 12) =~= little_endian(height as nat, 4));
    assert(payload.skip(12) =~= data);
    lemma_empty_without_columns(width, height);
    legacy_filtering_is_lossless(pixels, width as int, count);
    assert(pixels.take(count as int) =~= pixels);
}

/// Every image that is decoded has as many pixels as its size says.
pub proof fn decoded_images_are_complete(payload: Seq<u8>)
    ensures
        payload_image(payload) matches Ok((width, height, pixels)) ==> pixels.len() == width
            * height,
{
    let legacy_width = little_endian_value(payload.subrange(4, 8)) as u32;
    let legacy_height = little_endian_value(payload.subrange(8, 12)) as u32;
    lemma_legacy_reconstructed_len(
        payload.skip(12),
        legacy_width as int,
        (legacy_width * legacy_height) as nat,
    );
    let width = declared_width(payload);
    let height = declared_height(payload);
    let count = (width * height) as nat;
    lemma_reconstructed_len(
        payload.skip(14 + height),
        payload.subrange(14, 14 + height),
        width as int,
        count,
    );
    lemma_reconstructed_len(
        payload.skip(14),
        uniform_filters((payload[5] - 1) as u8, height as nat),
        width as int,
        count,
    );
}

/// A DEFLATE stream is chosen only where it is shorter than the range-coded
/// container of the same payload.
pub proof fn deflate_is_a_fallback(payloads: Seq<Seq<u8>>)
    requires
        payloads.len() > 0,
    ensures
        ({
            let containers = container_candidates(payloads);
            let best = shortest(containers);
            best % 2 == 1 ==> containers[best].len() < range_encoded(payloads[best / 2]).len()
        }),
{
    let containers = container_candidates(payloads);
    let best = shortest(containers);
    shortest_is_first_of_least(containers, 0);
    if best % 2 == 1 {
        shortest_is_first_of_least(containers, best - 1);
        assert((best - 1) / 2 == best / 2);
    }
}

/// The candidates with their bytes taken as sequences.
pub open spec fn listing(candidates: Seq<Vec<u8>>) -> Seq<Seq<u8>> {
    Seq::new(candidates.len(), |k: int| candidates[k]@)
}

/// Returns the shortest candidate, the first of those, if there is any.
pub fn smallest(candidates: Vec<Vec<u8>>) -> (chosen: Option<Vec<u8>>)
    ensures
        candidates@.len() == 0 <==> chosen is None,
        chosen matches Some(container) ==> container@ == listing(candidates@)[shortest(
            listing(candidates@),
        )],
        chosen matches Some(container) ==> exists|k: int|
            {
                &&& 0 <= k < candidates@.len()
                &&& container@ == #[trigger] candidates@[k]@
                &&& forall|j: int|
                    0 <= j < candidates@.len() ==> container@.len() <= #[trigger] candidates@[j]@.len()
                        && (j < k ==> container@.len() < candidates@[j]@.len())
            },
{
    let mut remaining = candidates;
    if remaining.len() == 0 {
        return None;
    }
    let mut best: usize = 0;
    let mut next: usize = 1;
    let ghost all = listing(candidates@);
    while next < remaining.len()
        invariant
            1 <= next <= remaining.len(),
            remaining@ == candidates@,
            all == listing(candidates@),
            best < next,
            best == shortest(all.take(next as int)),
        decreases remaining.len() - next,
    {
        proof {
            let tried = all.take(next + 1);
            assert(tried.drop_last() =~= all.take(next as int));
        }
        if remaining[next].len() < remaining[best].len() {
            best = next;
        }
        next = next + 1;
    }
    assert(all.take(next as int) =~= all);
    proof {
        assert forall|j: int| 0 <= j < candidates@.len() implies all[best as int].len()
            <= #[trigger] candidates@[j]@.len() && (j < best ==> all[best as int].len()
            < candidates@[j]@.len()) by {
            shortest_is_first_of_least(all, j);
        }
        assert(all[best as int] == candidates@[best as int]@);
    }
    Some(remaining.swap_remove(best))
}

/// Every container of `payloads` holds its payload.
spec fn containers_hold(payloads: Seq<Seq<u8>>) -> bool {
    &&& forall|j: int| 0 <= j < payloads.len() ==> #[trigger] deflated(payloads[j]) is Ok
    &&& forall|k: int|
        0 <= k < 2 * payloads.len() ==> #[trigger] container_payload(
            container_candidates(payloads)[k],
        ) == Ok::<Seq<u8>, Error>(payloads[k / 2])
}

/// Adds both containers of `payload` to the candidates.
fn add_containers(
    candidates: &mut Vec<Vec<u8>>,
    payload: &[u8],
    Ghost(payloads): Ghost<Seq<Seq<u8>>>,
) -> (added: Result<(), Error>)
    requires
        listing(old(candidates)@) == container_candidates(payloads),
        containers_hold(payloads),
    ensures
        deflated(payload@) is Ok <==> added is Ok,
        added matches Err(error) ==> error == Error::DeflateFailed,
        added is Ok ==> {
            &&& listing(final(candidates)@) == container_candidates(payloads.push(payload@))
            &&& containers_hold(payloads.push(payload@))
        },
{
    let coded = match range_encode(payload) {
        Ok(coded) => coded,
        Err(error) => {
            return Err(error);
        },
    };
    let stream = match deflate_encode(payload) {
        Ok(stream) => stream,
        Err(error) => {
            return Err(error);
        },
    };
    proof {
        let longer = payloads.push(payload@);
        let containers = container_candidates(longer);
        let count = payloads.len() as int;
        assert(containers[2 * count] == coded@);
        assert(containers[2 * count + 1] == stream@);
        assert(payload.len() == payload@.len());
        range_coding_is_lossless(payload@);
        lemma_streams_are_not_range_coded(stream@[0]);
        assert(begins_with(coded@, RANGE_MAGIC_HEADER@)) by {
            assert(coded@.take(4) =~= RANGE_MAGIC_HEADER@);
        }
        assert(!begins_with(stream@, RANGE_MAGIC_HEADER@)) by {
            if stream@.len() >= 4 {
                assert(stream@.take(4)[0] == stream@[0]);
            }
        }
        assert forall|j: int| 0 <= j < longer.len() implies #[trigger] deflated(
            longer[j],
        ) is Ok by {
            if j < count {
                assert(longer[j] == payloads[j]);
            }
        }
        assert forall|k: int| 0 <= k < 2 * longer.len() implies #[trigger] container_payload(
            containers[k],
        ) == Ok::<Seq<u8>, Error>(longer[k / 2]) by {
            if k < 2 * count {
                assert(containers[k] == container_candidates(payloads)[k]);
            }
        }
        assert(containers =~= container_candidates(payloads).push(coded@).push(stream@));
    }
    candidates.push(coded);
    candidates.push(stream);
    assert(listing(candidates@) =~= listing(old(candidates)@).push(coded@).push(stream@));
    Ok(())
}

/// A stream that begins with a block of an existing type does not begin with
/// the magic of a range-coded container.
proof fn lemma_streams_are_not_range_coded(first: u8)
    requires
        !reserved_block(first),
    ensures
        first != RANGE_MAGIC_HEADER@[0],
{
    assert(0x47u8 & 6 == 6) by (bit_vector);
}

/// No container of any candidate is shorter than the archive.
proof fn lemma_no_container_is_shorter(pixels: Seq<u8>, width: u32, height: u32)
    ensures
        image_archive(pixels, width, height) matches Ok(archive) ==> {
            &&& archive.len() <= range_encoded(raw_payload(pixels, width, height)).len()
            &&& archive.len() <= deflated(raw_payload(pixels, width, height))->Ok_0.len()
            &&& forall|filter: u8|
                filter < 4 ==> archive.len() <= range_encoded(
                    #[trigger] filtered_payload(pixels, width, height, filter),
                ).len() && archive.len() <= deflated(
                    filtered_payload(pixels, width, height, filter),
                )->Ok_0.len()
            &&& archive.len() <= range_encoded(adaptive_payload(pixels, width, height)).len()
            &&& archive.len() <= deflated(adaptive_payload(pixels, width, height))->Ok_0.len()
        },
{
    if let Ok(archive) = image_archive(pixels, width, height) {
        archive_is_no_longer_than_any_container(pixels, width, height, 0, archive);
        assert forall|filter: u8| filter < 4 implies archive.len() <= range_encoded(
            #[trigger] filtered_payload(pixels, width, height, filter),
        ).len() && archive.len() <= deflated(
            filtered_payload(pixels, width, height, filter),
        )->Ok_0.len() by {
            archive_is_no_longer_than_any_container(pixels, width, height, filter, archive);
        }
    }
}

/// Returns both containers of an image tried raw, under each filter and under
/// the best filter of each row.
fn all_containers(pixels: &[u8], width: u32, height: u32) -> (containers: Result<
    Vec<Vec<u8>>,
    Error,
>)
    requires
        width * height <= pixels@.len(),
    ensures
        containers is Ok <==> image_archive(pixels@, width, height) is Ok,
        containers matches Err(error) ==> error == Error::DeflateFailed,
        containers matches Ok(candidates) ==> {
            &&& candidates@.len() == 12
            &&& image_archive(pixels@, width, height) == Ok::<Seq<u8>, Error>(
                listing(candidates@)[shortest(listing(candidates@))],
            )
            &&& pixels@.len() == width * height ==> holds_image(
                listing(candidates@)[shortest(listing(candidates@))],
                pixels@,
                width,
                height,
            )
        },
{
    let ghost payloads = payload_candidates(pixels@, width, height);
    let mut candidates: Vec<Vec<u8>> = Vec::new();
    assert(listing(candidates@) =~= container_candidates(Seq::empty()));
    let mut raw: Vec<u8> = make_header(MODE_RAW, width, height);
    raw.extend_from_slice(pixels);
    assert(raw@ =~= payloads[0]);
    match add_containers(&mut candidates, raw.as_slice(), Ghost(Seq::empty())) {
        Ok(()) => {},
        Err(error) => {
            return Err(error);
        },
    }
    assert(Seq::<Seq<u8>>::empty().push(raw@) =~= payloads.take(1));
    let mut filter: u8 = 0;
    while filter < ENCODER_FILTERS
        invariant
            filter <= ENCODER_FILTERS,
            width * height <= pixels@.len(),
            payloads == payload_candidates(pixels@, width, height),
            listing(candidates@) == container_candidates(payloads.take(filter + 1)),
            containers_hold(payloads.take(filter + 1)),
        decreases ENCODER_FILTERS - filter,
    {
        let mut candidate: Vec<u8> = make_header(filter + 1, width, height);
        let data: Vec<u8> = filtered_data(pixels, width, height, filter);
        candidate.extend_from_slice(data.as_slice());
        assert(candidate@ =~= payloads[filter + 1]);
        match add_containers(
            &mut candidates,
            candidate.as_slice(),
            Ghost(payloads.take(filter + 1)),
        ) {
            Ok(()) => {},
            Err(error) => {
                assert(deflated(payloads[filter + 1]) is Err);
                return Err(error);
            },
        }
        assert(payloads.take(filter + 1).push(candidate@) =~= payloads.take(filter + 2));
        filter = filter + 1;
    }
    let (filters, data): (Vec<u8>, Vec<u8>) = adaptive_filtered_data(pixels, width, height);
    let mut adaptive: Vec<u8> = make_header(MODE_ADAPTIVE, width, height);
    adaptive.extend_from_slice(filters.as_slice());
    adaptive.extend_from_slice(data.as_slice());
    assert(adaptive@ =~= payloads[5]);
    match add_containers(&mut candidates, adaptive.as_slice(), Ghost(payloads.take(5))) {
        Ok(()) => {},
        Err(error) => {
            assert(deflated(payloads[5]) is Err);
            return Err(error);
        },
    }
    assert(payloads.take(5).push(adaptive@) =~= payloads);
    proof {
        assert(adaptive.len() == adaptive@.len());
        assert(pixels.len() == pixels@.len());
        if pixels@.len() == width * height {
            lemma_archive_holds_image(pixels@, width, height);
        }
    }
    Ok(candidates)
}

/// Every image is read back from each of its candidates.
proof fn lemma_candidate_read_back(pixels: Seq<u8>, width: u32, height: u32, j: int)
    requires
        pixels.len() == width * height,
        adaptive_payload(pixels, width, height).len() <= usize::MAX,
        pixels.len() <= usize::MAX,
        0 <= j < 6,
    ensures
        payload_image(payload_candidates(pixels, width, height)[j]) == Ok::<
            (u32, u32, Seq<u8>),
            Error,
        >((width, height, pixels)),
        !has_unknown_filter(payload_candidates(pixels, width, height)[j]),
{
    let payload = payload_candidates(pixels, width, height)[j];
    if j == 0 {
        assert(payload == raw_payload(pixels, width, height));
        raw_payload_is_lossless(pixels, width, height);
    } else if j <= 4 {
        assert(payload == filtered_payload(pixels, width, height, (j - 1) as u8));
        filtered_payload_is_lossless(pixels, width, height, (j - 1) as u8);
    } else {
        assert(payload == adaptive_payload(pixels, width, height));
        adaptive_payload_is_lossless(pixels, width, height);
    }
}

/// The archive of an image holds it.
proof fn lemma_archive_holds_image(pixels: Seq<u8>, width: u32, height: u32)
    requires
        pixels.len() == width * height,
        adaptive_payload(pixels, width, height).len() <= usize::MAX,
        pixels.len() <= usize::MAX,
        containers_hold(payload_candidates(pixels, width, height)),
    ensures
        image_archive(pixels, width, height) matches Ok(archive) ==> holds_image(
            archive,
            pixels,
            width,
            height,
        ),
{
    let payloads = payload_candidates(pixels, width, height);
    let containers = container_candidates(payloads);
    let best = shortest(containers);
    shortest_is_first_of_least(containers, 0);
    assert(container_payload(containers[best]) == Ok::<Seq<u8>, Error>(payloads[best / 2]));
    lemma_candidate_read_back(pixels, width, height, best / 2);
}

/// Compresses an image: tries it raw, under each filter and under the best
/// filter of each row, and returns the shortest container of all these.
pub fn encode_new_payload(pixels: &[u8], width: u32, height: u32) -> (container: Result<
    Vec<u8>,
    Error,
>)
    requires
        width * height <= pixels@.len(),
    ensures
        contents(container) == image_archive(pixels@, width, height),
        container matches Ok(archive) ==> pixels@.len() == width * height ==> holds_image(
            archive@,
            pixels@,
            width,
            height,
        ),
        container is Ok <==> {
            &&& deflated(raw_payload(pixels@, width, height)) is Ok
            &&& deflated(filtered_payload(pixels@, width, height, 0)) is Ok
            &&& deflated(filtered_payload(pixels@, width, height, 1)) is Ok
            &&& deflated(filtered_payload(pixels@, width, height, 2)) is Ok
            &&& deflated(filtered_payload(pixels@, width, height, 3)) is Ok
            &&& deflated(adaptive_payload(pixels@, width, height)) is Ok
        },
        container matches Ok(archive) ==> {
            &&& archive@.len() <= range_encoded(raw_payload(pixels@, width, height)).len()
            &&& archive@.len() <= deflated(raw_payload(pixels@, width, height))->Ok_0.len()
            &&& forall|filter: u8|
                filter < 4 ==> archive@.len() <= range_encoded(
                    #[trigger] filtered_payload(pixels@, width, height, filter),
                ).len() && archive@.len() <= deflated(
                    filtered_payload(pixels@, width, height, filter),
                )->Ok_0.len()
            &&& archive@.len() <= range_encoded(adaptive_payload(pixels@, width, height)).len()
            &&& archive@.len() <= deflated(adaptive_payload(pixels@, width, height))->Ok_0.len()
        },
{
    proof {
        archives_need_six_streams(pixels@, width, height);
        lemma_no_container_is_shorter(pixels@, width, height);
    }
    let candidates: Vec<Vec<u8>> = match all_containers(pixels, width, height) {
        Ok(candidates) => candidates,
        Err(error) => {
            return Err(error);
        },
    };
    match smallest(candidates) {
        Some(container) => Ok(container),
        None => Err(Error::NoCandidates),
    }
}

} // verus!
