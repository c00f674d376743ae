//! Laws of payloads and archives.
use vstd::prelude::*;

use crate::archive::{
    adaptive_payload, container_candidates, container_payload, declared_height, declared_width,
    filtered_payload, has_unknown_filter, header, holds_image, image, image_archive, legacy_image,
    legacy_payload, listing, payload_candidates, payload_image, raw_payload, shortest,
    shortest_is_first_of_least, versioned_image,
};
use crate::bytes::{begins_with, contents, lemma_little_endian_len, little_endian};
use crate::deflate::{deflated, inflated};
use crate::error::Error;
use crate::filter::{
    best_filters, lemma_position, predicted, residual, residuals, uniform_filters,
};
use crate::laws::bits::{bytes_read_least_first, four_bytes_least_first};
use crate::laws::filter::{
    chosen_filter_has_least_sum, legacy_reconstructed_pixel, legacy_residual_is_difference,
    reconstructed_pixel, residuals_row_by_row,
};
use crate::range::{range_decoded, range_encoded};

verus! {

/// A result is described by the bytes in it, or by its error.
pub proof fn results_are_described_by_their_bytes(
    bytes: Vec<u8>,
    width: u32,
    height: u32,
    error: Error,
)
    ensures
        contents(Ok::<Vec<u8>, Error>(bytes)) == Ok::<Seq<u8>, Error>(bytes@),
        contents(Err::<Vec<u8>, Error>(error)) == Err::<Seq<u8>, Error>(error),
        image(Ok::<(u32, u32, Vec<u8>), Error>((width, height, bytes))) == Ok::<
            (u32, u32, Seq<u8>),
            Error,
        >((width, height, bytes@)),
        image(Err::<(u32, u32, Vec<u8>), Error>(error)) == Err::<(u32, u32, Seq<u8>), Error>(error),
{
}

/// Bytes begin with a magic of four bytes where those are their first four.
pub proof fn magic_is_the_first_four_bytes(bytes: Seq<u8>, magic: Seq<u8>)
    requires
        magic.len() == 4,
    ensures
        begins_with(bytes, magic) <==> bytes.len() >= 4 && bytes[0] == magic[0] && bytes[1]
            == magic[1] && bytes[2] == magic[2] && bytes[3] == magic[3],
{
    if bytes.len() >= 4 {
        assert(bytes.take(4)[0] == bytes[0] && bytes.take(4)[1] == bytes[1] && bytes.take(4)[2]
            == bytes[2] && bytes.take(4)[3] == bytes[3]);
        if bytes[0] == magic[0] && bytes[1] == magic[1] && bytes[2] == magic[2] && bytes[3]
            == magic[3] {
            assert(bytes.take(4) =~= magic);
        }
    }
}

/// The fourteen bytes of a header: `GS8C`, the version 1, the mode, and the
/// width and the height with their least byte first.
pub proof fn bytes_of_a_header(mode: u8, width: u32, height: u32)
    ensures
        ({
            let bytes = header(mode, width, height);
            &&& bytes.len() == 14
            &&& bytes[0] == 0x47
            &&& bytes[1] == 0x53
            &&& bytes[2] == 0x38
            &&& bytes[3] == 0x43
            &&& bytes[4] == 1
            &&& bytes[5] == mode
            &&& width == bytes[6] + 0x100 * bytes[7] + 0x1_0000 * bytes[8] + 0x100_0000 * bytes[9]
            &&& height == bytes[10] + 0x100 * bytes[11] + 0x1_0000 * bytes[12] + 0x100_0000
                * bytes[13]
        }),
{
    let bytes = header(mode, width, height);
    four_bytes_least_first(width as nat);
    four_bytes_least_first(height as nat);
    let across = little_endian(width as nat, 4);
    let down = little_endian(height as nat, 4);
    assert(bytes[6] == across[0] && bytes[7] == across[1] && bytes[8] == across[2] && bytes[9]
        == across[3]);
    assert(bytes[10] == down[0] && bytes[11] == down[1] && bytes[12] == down[2] && bytes[13]
        == down[3]);
}

/// The raw payload is the header of mode 0 and the pixels.
pub proof fn bytes_of_a_raw_payload(pixels: Seq<u8>, width: u32, height: u32, i: int)
    ensures
        raw_payload(pixels, width, height).len() == 14 + pixels.len(),
        0 <= i < 14 ==> raw_payload(pixels, width, height)[i] == header(0, width, height)[i],
        0 <= i < pixels.len() ==> raw_payload(pixels, width, height)[14 + i] == pixels[i],
{
    bytes_of_a_header(0, width, height);
}

/// The payload of a filter is the header of the mode one above it, and the
/// residual of each pixel under that filter, row by row.
pub proof fn bytes_of_a_filtered_payload(
    pixels: Seq<u8>,
    width: u32,
    height: u32,
    filter: u8,
    x: int,
    y: int,
)
    requires
        0 <= x < width,
        0 <= y < height,
        filter < 255,
    ensures
        ({
            let payload = filtered_payload(pixels, width, height, filter);
            &&& payload.len() == 14 + width * height
            &&& payload.take(14) == header((filter + 1) as u8, width, height)
            &&& payload[14 + (y * width + x)] == residual(
                filter,
                pixels,
                width as int,
                y * width + x,
            )
        }),
{
    let payload = filtered_payload(pixels, width, height, filter);
    let filters = uniform_filters(filter, height as nat);
    bytes_of_a_header((filter + 1) as u8, width, height);
    residuals_row_by_row(filters, pixels, width as int, height as int, x, y);
    lemma_position(width as int, height as int, y, x);
    assert(width * height == height * width) by (nonlinear_arith);
    assert(payload.take(14) =~= header((filter + 1) as u8, width, height));
}

/// How long the payloads of an image are, with what header they begin, and
/// that the filters of the rows follow that header in the adaptive one. This
/// holds of images without columns or rows too.
pub proof fn sizes_of_payloads(pixels: Seq<u8>, width: u32, height: u32, filter: u8, y: int)
    requires
        filter < 255,
    ensures
        ({
            let filtered = filtered_payload(pixels, width, height, filter);
            let adaptive = adaptive_payload(pixels, width, height);
            &&& filtered.len() == 14 + width * height
            &&& filtered.take(14) == header((filter + 1) as u8, width, height)
            &&& adaptive.len() == 14 + height + width * height
            &&& adaptive.take(14) == header(6, width, height)
            &&& 0 <= y < height ==> adaptive[14 + y] == best_filters(
                pixels,
                width as int,
                height as nat,
            )[y]
            &&& legacy_payload(pixels, width, height).len() == 12 + width * height
        }),
{
    assert(width * height >= 0) by (nonlinear_arith);
    bytes_of_a_header((filter + 1) as u8, width, height);
    bytes_of_a_header(6, width, height);
    lemma_little_endian_len(width as nat, 4);
    lemma_little_endian_len(height as nat, 4);
    assert(filtered_payload(pixels, width, height, filter).take(14) =~= header(
        (filter + 1) as u8,
        width,
        height,
    ));
    assert(adaptive_payload(pixels, width, height).take(14) =~= header(6, width, height));
}

/// The adaptive payload is the header of mode 6, the filter of each row, and
/// the residual of each pixel under the filter of its row. That filter is one
/// of the four, has the least sum of residuals in its row, and is the first
/// such.
pub proof fn bytes_of_an_adaptive_payload(
    pixels: Seq<u8>,
    width: u32,
    height: u32,
    x: int,
    y: int,
    other: u8,
)
    requires
        0 <= x < width,
        0 <= y < height,
        other < 4,
    ensures
        ({
            let payload = adaptive_payload(pixels, width, height);
            let filter = payload[14 + y];
            let sum = |f: u8|
                Seq::new(
                    width as nat,
                    |column: int| residual(f, pixels, width as int, y * width + column) as int,
                ).fold_left(0int, |sum: int, value: int| sum + value);
            &&& payload.len() == 14 + height + width * height
            &&& payload.take(14) == header(6, width, height)
            &&& filter < 4
            &&& sum(filter) <= sum(other)
            &&& other < filter ==> sum(filter) < sum(other)
            &&& payload[14 + height + (y * width + x)] == residual(
                filter,
                pixels,
                width as int,
                y * width + x,
            )
        }),
{
    let payload = adaptive_payload(pixels, width, height);
    let filters = best_filters(pixels, width as int, height as nat);
    bytes_of_a_header(6, width, height);
    residuals_row_by_row(filters, pixels, width as int, height as int, x, y);
    lemma_position(width as int, height as int, y, x);
    assert(width * height == height * width) by (nonlinear_arith);
    assert(payload.take(14) =~= header(6, width, height));
    assert(payload[14 + y] == filters[y]);
    chosen_filter_has_least_sum(pixels, width as nat, height as nat, y, other);
}

/// A legacy payload is `GS8B`, the width and the height with their least byte
/// first, and the plain difference of each pixel from its guess.
pub proof fn bytes_of_a_legacy_payload(pixels: Seq<u8>, width: u32, height: u32, x: int, y: int)
    requires
        0 <= x < width,
        0 <= y < height,
    ensures
        ({
            let payload = legacy_payload(pixels, width, height);
            let i = y * width + x;
            &&& payload.len() == 12 + width * height
            &&& payload.take(4) == seq![0x47u8, 0x53u8, 0x38u8, 0x42u8]
            &&& width == payload[4] + 0x100 * payload[5] + 0x1_0000 * payload[6] + 0x100_0000
                * payload[7]
            &&& height == payload[8] + 0x100 * payload[9] + 0x1_0000 * payload[10] + 0x100_0000
                * payload[11]
            &&& (pixels[i] - predicted(4, pixels, width as int, i) - payload[12 + i]) % 256 == 0
        }),
{
    let payload = legacy_payload(pixels, width, height);
    let across = little_endian(width as nat, 4);
    let down = little_endian(height as nat, 4);
    four_bytes_least_first(width as nat);
    four_bytes_least_first(height as nat);
    assert(payload[4] == across[0] && payload[5] == across[1] && payload[6] == across[2]
        && payload[7] == across[3]);
    assert(payload[8] == down[0] && payload[9] == down[1] && payload[10] == down[2] && payload[11]
        == down[3]);
    legacy_residual_is_difference(pixels, width as int, height as int, x, y);
    lemma_position(width as int, height as int, y, x);
    assert(width * height == height * width) by (nonlinear_arith);
    assert(payload.take(4) =~= seq![0x47u8, 0x53u8, 0x38u8, 0x42u8]);
}

/// Legacy payloads are read or refused by their first bytes and their length.
pub proof fn legacy_payloads_by_their_bytes(payload: Seq<u8>, width: u32, height: u32)
    requires
        payload.len() >= 12 ==> width == payload[4] + 0x100 * payload[5] + 0x1_0000 * payload[6]
            + 0x100_0000 * payload[7],
        payload.len() >= 12 ==> height == payload[8] + 0x100 * payload[9] + 0x1_0000 * payload[10]
            + 0x100_0000 * payload[11],
    ensures
        ({
            let found = legacy_image(payload);
            let known = payload.len() >= 12 && payload[0] == 0x47 && payload[1] == 0x53
                && payload[2] == 0x38 && payload[3] == 0x42;
            &&& !known <==> found == Err::<(u32, u32, Seq<u8>), Error>(Error::InvalidLegacyHeader)
            &&& known && width * height > usize::MAX <==> found == Err::<
                (u32, u32, Seq<u8>),
                Error,
            >(Error::DimensionsTooLarge)
            &&& known && width * height <= usize::MAX && payload.len() != 12 + width * height
                <==> found == Err::<(u32, u32, Seq<u8>), Error>(Error::LegacyLengthMismatch)
            &&& known && width * height <= usize::MAX && payload.len() == 12 + width * height
                <==> found is Ok
            &&& found matches Ok((across, down, pixels)) ==> across == width && down == height
        }),
{
    magic_is_the_first_four_bytes(payload, crate::archive::MAGIC_HEADER@);
    if payload.len() >= 12 {
        bytes_read_least_first(payload.subrange(4, 8));
        bytes_read_least_first(payload.subrange(8, 12));
    }
}

/// A pixel of a legacy payload is its guess plus its byte, modulo 256. The
/// guess is made from the pixels decoded before it.
pub proof fn legacy_pixels_by_column_and_row(
    payload: Seq<u8>,
    width: u32,
    height: u32,
    pixels: Seq<u8>,
    x: int,
    y: int,
)
    requires
        legacy_image(payload) == Ok::<(u32, u32, Seq<u8>), Error>((width, height, pixels)),
        0 <= x < width,
        0 <= y < height,
    ensures
        pixels.len() == width * height,
        (pixels[y * width + x] - predicted(4, pixels, width as int, y * width + x) - payload[12 + (y
            * width + x)]) % 256 == 0,
{
    let data = payload.skip(12);
    legacy_reconstructed_pixel(data, width as int, height as int, x, y);
    lemma_position(width as int, height as int, y, x);
    assert(width * height == height * width) by (nonlinear_arith);
}

/// Versioned payloads are read or refused by their first bytes, their mode
/// and their length.
pub proof fn versioned_payloads_by_their_bytes(payload: Seq<u8>, width: u32, height: u32)
    requires
        payload.len() >= 14 ==> width == payload[6] + 0x100 * payload[7] + 0x1_0000 * payload[8]
            + 0x100_0000 * payload[9],
        payload.len() >= 14 ==> height == payload[10] + 0x100 * payload[11] + 0x1_0000 * payload[12]
            + 0x100_0000 * payload[13],
    ensures
        ({
            let found = versioned_image(payload);
            let mode = payload[5];
            let count = width * height;
            let known = payload.len() >= 14 && payload[0] == 0x47 && payload[1] == 0x53
                && payload[2] == 0x38 && payload[3] == 0x43;
            let current = known && payload[4] == 1;
            let sized = current && count <= usize::MAX;
            &&& !known <==> found == Err::<(u32, u32, Seq<u8>), Error>(
                Error::InvalidVersionedHeader,
            )
            &&& known && payload[4] != 1 <==> found == Err::<(u32, u32, Seq<u8>), Error>(
                Error::UnsupportedVersion,
            )
            &&& current && count > usize::MAX <==> found == Err::<(u32, u32, Seq<u8>), Error>(
                Error::DimensionsTooLarge,
            )
            &&& sized && mode > 6 <==> found == Err::<(u32, u32, Seq<u8>), Error>(
                Error::UnknownMode,
            )
            &&& sized && mode == 0 && payload.len() != 14 + count <==> found == Err::<
                (u32, u32, Seq<u8>),
                Error,
            >(Error::RawLengthMismatch)
            &&& sized && mode == 6 && 14 + height > usize::MAX <==> found == Err::<
                (u32, u32, Seq<u8>),
                Error,
            >(Error::FilterMetadataTooLarge)
            &&& sized && mode == 6 && payload.len() < 14 + height <= usize::MAX <==> found == Err::<
                (u32, u32, Seq<u8>),
                Error,
            >(Error::MissingFilterMetadata)
            &&& sized && (1 <= mode <= 5 && payload.len() != 14 + count || mode == 6 && 14 + height
                <= usize::MAX && 14 + height <= payload.len() && payload.len() != 14 + height
                + count) <==> found == Err::<(u32, u32, Seq<u8>), Error>(
                Error::FilteredLengthMismatch,
            )
            &&& sized && (mode <= 5 && payload.len() == 14 + count || mode == 6 && 14 + height
                <= usize::MAX && payload.len() == 14 + height + count) <==> found is Ok
            &&& found matches Ok((across, down, pixels)) ==> across == width && down == height
        }),
{
    magic_is_the_first_four_bytes(payload, crate::archive::VERSIONED_MAGIC_HEADER@);
    assert(width * height >= 0) by (nonlinear_arith);
    if payload.len() >= 14 {
        bytes_read_least_first(payload.subrange(6, 10));
        bytes_read_least_first(payload.subrange(10, 14));
    }
}

/// In mode 0 the pixels are the bytes after the header.
pub proof fn raw_pixels_are_bytes(
    payload: Seq<u8>,
    width: u32,
    height: u32,
    pixels: Seq<u8>,
    i: int,
)
    requires
        versioned_image(payload) == Ok::<(u32, u32, Seq<u8>), Error>((width, height, pixels)),
        payload[5] == 0,
        0 <= i < pixels.len(),
    ensures
        pixels[i] == payload[14 + i],
        pixels.len() == width * height,
{
}

/// In the modes 1 to 5 a pixel is its guess by the filter one below the mode
/// plus its unfolded byte, modulo 256. Even bytes lie above the guess, odd
/// ones below.
pub proof fn filtered_pixels_by_column_and_row(
    payload: Seq<u8>,
    width: u32,
    height: u32,
    pixels: Seq<u8>,
    x: int,
    y: int,
)
    requires
        versioned_image(payload) == Ok::<(u32, u32, Seq<u8>), Error>((width, height, pixels)),
        1 <= payload[5] <= 5,
        0 <= x < width,
        0 <= y < height,
    ensures
        ({
            let i = y * width + x;
            let guess = predicted((payload[5] - 1) as u8, pixels, width as int, i);
            let byte = payload[14 + i];
            &&& pixels.len() == width * height
            &&& byte % 2 == 0 ==> (pixels[i] - guess - byte / 2) % 256 == 0
            &&& byte % 2 == 1 ==> (pixels[i] - guess + (byte + 1) / 2) % 256 == 0
        }),
{
    let data = payload.skip(14);
    let filters = uniform_filters((payload[5] - 1) as u8, height as nat);
    reconstructed_pixel(data, filters, width as int, height as int, x, y);
    lemma_position(width as int, height as int, y, x);
    assert(width * height == height * width) by (nonlinear_arith);
    assert(data[y * width + x] == payload[14 + (y * width + x)]);
}

/// In mode 6 each row has its own filter, and the bytes of the pixels follow
/// those of the filters.
pub proof fn adaptive_pixels_by_column_and_row(
    payload: Seq<u8>,
    width: u32,
    height: u32,
    pixels: Seq<u8>,
    x: int,
    y: int,
)
    requires
        versioned_image(payload) == Ok::<(u32, u32, Seq<u8>), Error>((width, height, pixels)),
        payload[5] == 6,
        0 <= x < width,
        0 <= y < height,
    ensures
        ({
            let i = y * width + x;
            let guess = predicted(payload[14 + y], pixels, width as int, i);
            let byte = payload[14 + height + i];
            &&& pixels.len() == width * height
            &&& byte % 2 == 0 ==> (pixels[i] - guess - byte / 2) % 256 == 0
            &&& byte % 2 == 1 ==> (pixels[i] - guess + (byte + 1) / 2) % 256 == 0
        }),
{
    let data = payload.skip(14 + height);
    let filters = payload.subrange(14, 14 + height);
    reconstructed_pixel(data, filters, width as int, height as int, x, y);
    lemma_position(width as int, height as int, y, x);
    assert(width * height == height * width) by (nonlinear_arith);
    assert(data[y * width + x] == payload[14 + height + (y * width + x)]);
    assert(filters[y] == payload[14 + y]);
}

/// A filter that does not exist is reported exactly where a pixel would need
/// it: in mode 6, in a row that has columns.
pub proof fn unknown_filters_by_their_bytes(payload: Seq<u8>, width: u32, height: u32)
    requires
        versioned_image(payload) matches Ok((across, down, pixels)) && across == width && down
            == height,
    ensures
        has_unknown_filter(payload) <==> payload[5] == 6 && width > 0 && exists|y: int|
            0 <= y < height && #[trigger] payload[14 + y] > 4,
{
    if payload[5] == 6 && width > 0 && exists|y: int|
        0 <= y < height && #[trigger] payload[14 + y] > 4 {
        let y = choose|y: int| 0 <= y < height && #[trigger] payload[14 + y] > 4;
        assert(payload[14 + y] >= 5);
    }
}

/// What is no image has no unknown filter either.
pub proof fn only_images_have_unknown_filters(payload: Seq<u8>)
    ensures
        versioned_image(payload) is Err ==> !has_unknown_filter(payload),
{
}

/// The first four bytes tell legacy payloads, versioned ones and others apart.
pub proof fn payloads_by_their_magic(payload: Seq<u8>)
    ensures
        ({
            let common = payload.len() >= 4 && payload[0] == 0x47 && payload[1] == 0x53
                && payload[2] == 0x38;
            &&& common && payload[3] == 0x42 ==> payload_image(payload) == legacy_image(payload)
            &&& common && payload[3] == 0x43 ==> payload_image(payload) == versioned_image(payload)
            &&& !common || payload[3] != 0x42 && payload[3] != 0x43 <==> payload_image(payload)
                == Err::<(u32, u32, Seq<u8>), Error>(Error::UnrecognizedArchive)
        }),
{
    magic_is_the_first_four_bytes(payload, crate::archive::MAGIC_HEADER@);
    magic_is_the_first_four_bytes(payload, crate::archive::VERSIONED_MAGIC_HEADER@);
}

/// Containers that begin with `GS8R` are range-coded, and all others are
/// DEFLATE streams.
pub proof fn containers_by_their_magic(container: Seq<u8>)
    ensures
        ({
            let coded = container.len() >= 4 && container[0] == 0x47 && container[1] == 0x53
                && container[2] == 0x38 && container[3] == 0x52;
            &&& coded ==> container_payload(container) == range_decoded(container)
            &&& !coded ==> container_payload(container) == inflated(container)
        }),
{
    magic_is_the_first_four_bytes(container, crate::range::RANGE_MAGIC_HEADER@);
}

/// An archive is made exactly where DEFLATE takes the raw payload, that of
/// each of the four filters and the adaptive one. Otherwise DEFLATE failed.
pub proof fn archives_need_six_streams(pixels: Seq<u8>, width: u32, height: u32)
    ensures
        image_archive(pixels, width, height) is Ok <==> {
            &&& deflated(raw_payload(pixels, width, height)) is Ok
            &&& deflated(filtered_payload(pixels, width, height, 0)) is Ok
            &&& deflated(filtered_payload(pixels, width, height, 1)) is Ok
            &&& deflated(filtered_payload(pixels, width, height, 2)) is Ok
            &&& deflated(filtered_payload(pixels, width, height, 3)) is Ok
            &&& deflated(adaptive_payload(pixels, width, height)) is Ok
        },
        image_archive(pixels, width, height) matches Err(error) ==> error == Error::DeflateFailed,
{
    let payloads = payload_candidates(pixels, width, height);
    assert(payloads[0] == raw_payload(pixels, width, height));
    assert(payloads[1] == filtered_payload(pixels, width, height, 0));
    assert(payloads[2] == filtered_payload(pixels, width, height, 1));
    assert(payloads[3] == filtered_payload(pixels, width, height, 2));
    assert(payloads[4] == filtered_payload(pixels, width, height, 3));
    assert(payloads[5] == adaptive_payload(pixels, width, height));
    if image_archive(pixels, width, height) is Err {
        let j = choose|j: int| 0 <= j < payloads.len() && #[trigger] deflated(payloads[j]) is Err;
        assert(j == 0 || j == 1 || j == 2 || j == 3 || j == 4 || j == 5);
    }
}

/// No container of the raw payload, of the residuals under any of the four
/// filters, or of those under the best filter of each row is shorter than the
/// archive.
pub proof fn archive_is_no_longer_than_any_container(
    pixels: Seq<u8>,
    width: u32,
    height: u32,
    filter: u8,
    archive: Seq<u8>,
)
    requires
        filter < 4,
        image_archive(pixels, width, height) == Ok::<Seq<u8>, Error>(archive),
    ensures
        ({
            let count = (width * height) as nat;
            let filters = best_filters(pixels, width as int, height as nat);
            let raw = header(0, width, height) + pixels;
            let filtered = header((filter + 1) as u8, width, height) + residuals(
                uniform_filters(filter, height as nat),
                pixels,
                width as int,
                count,
            );
            let adaptive = header(6, width, height) + filters + residuals(
                filters,
                pixels,
                width as int,
                count,
            );
            &&& archive.len() <= range_encoded(raw).len()
            &&& deflated(raw) matches Ok(stream) && archive.len() <= stream.len()
            &&& archive.len() <= range_encoded(filtered).len()
            &&& deflated(filtered) matches Ok(stream) && archive.len() <= stream.len()
            &&& archive.len() <= range_encoded(adaptive).len()
            &&& deflated(adaptive) matches Ok(stream) && archive.len() <= stream.len()
        }),
{
    let payloads = payload_candidates(pixels, width, height);
    let containers = container_candidates(payloads);
    archives_need_six_streams(pixels, width, height);
    shortest_is_first_of_least(containers, 0);
    shortest_is_first_of_least(containers, 1);
    shortest_is_first_of_least(containers, 2 * filter + 2);
    shortest_is_first_of_least(containers, 2 * filter + 3);
    shortest_is_first_of_least(containers, 10);
    shortest_is_first_of_least(containers, 11);
    assert(payloads[0] == raw_payload(pixels, width, height));
    assert(filter == 0 || filter == 1 || filter == 2 || filter == 3);
    assert(payloads[filter + 1] == filtered_payload(pixels, width, height, filter));
    assert(payloads[5] == adaptive_payload(pixels, width, height));
    assert((2 * filter + 2) / 2 == filter + 1 && (2 * filter + 3) / 2 == filter + 1);
}

/// The archive is one of twelve containers: of the raw payload, of those of
/// the four filters and of the adaptive one, the range-coded container and
/// then the DEFLATE stream. It is the first of the shortest.
pub proof fn archive_is_first_of_twelve(
    pixels: Seq<u8>,
    width: u32,
    height: u32,
    archive: Seq<u8>,
)
    requires
        image_archive(pixels, width, height) == Ok::<Seq<u8>, Error>(archive),
    ensures
        ({
            let payload = |j: int|
                if j == 0 {
                    raw_payload(pixels, width, height)
                } else if j <= 4 {
                    filtered_payload(pixels, width, height, (j - 1) as u8)
                } else {
                    adaptive_payload(pixels, width, height)
                };
            let container = |k: int|
                if k % 2 == 0 {
                    range_encoded(payload(k / 2))
                } else {
                    deflated(payload(k / 2))->Ok_0
                };
            exists|k: int|
                {
                    &&& 0 <= k < 12
                    &&& #[trigger] container(k) == archive
                    &&& forall|j: int|
                        0 <= j < 12 ==> archive.len() <= #[trigger] container(j).len() && (j < k
                            ==> archive.len() < container(j).len())
                }
        }),
{
    let payloads = payload_candidates(pixels, width, height);
    let containers = container_candidates(payloads);
    let payload = |j: int|
        if j == 0 {
            raw_payload(pixels, width, height)
        } else if j <= 4 {
            filtered_payload(pixels, width, height, (j - 1) as u8)
        } else {
            adaptive_payload(pixels, width, height)
        };
    let container = |k: int|
        if k % 2 == 0 {
            range_encoded(payload(k / 2))
        } else {
            deflated(payload(k / 2))->Ok_0
        };
    assert forall|j: int| 0 <= j < 6 implies payloads[j] == #[trigger] payload(j) by {
        assert(j == 0 || j == 1 || j == 2 || j == 3 || j == 4 || j == 5);
    }
    assert forall|j: int| 0 <= j < 12 implies containers[j] == #[trigger] container(j) by {
        assert(payloads[j / 2] == payload(j / 2));
    }
    let k = shortest(containers);
    shortest_is_first_of_least(containers, 0);
    assert forall|j: int| 0 <= j < 12 implies archive.len() <= #[trigger] container(j).len() && (j
        < k ==> archive.len() < container(j).len()) by {
        shortest_is_first_of_least(containers, j);
    }
    assert(container(k) == archive);
}

/// A container holds an image where decoding it, and then the payload found
/// in it, gives that image, and no row needs a filter that does not exist.
pub proof fn holding_is_decoding(container: Seq<u8>, pixels: Seq<u8>, width: u32, height: u32)
    ensures
        holds_image(container, pixels, width, height) <==> {
            &&& container_payload(container) is Ok
            &&& payload_image(container_payload(container)->Ok_0) == Ok::<
                (u32, u32, Seq<u8>),
                Error,
            >((width, height, pixels))
            &&& !has_unknown_filter(container_payload(container)->Ok_0)
        },
{
}

/// Candidates are listed by their bytes, in order.
pub proof fn candidates_are_listed_in_order(candidates: Seq<Vec<u8>>, k: int)
    requires
        0 <= k < candidates.len(),
    ensures
        listing(candidates).len() == candidates.len(),
        listing(candidates)[k] == candidates[k]@,
{
}

/// The sizes that a versioned payload declares are its bytes 6 to 13.
pub proof fn declared_sizes_by_their_bytes(payload: Seq<u8>)
    requires
        payload.len() >= 14,
    ensures
        declared_width(payload) == payload[6] + 0x100 * payload[7] + 0x1_0000 * payload[8]
            + 0x100_0000 * payload[9],
        declared_height(payload) == payload[10] + 0x100 * payload[11] + 0x1_0000 * payload[12]
            + 0x100_0000 * payload[13],
{
    bytes_read_least_first(payload.subrange(6, 10));
    bytes_read_least_first(payload.subrange(10, 14));
}

} // verus!
