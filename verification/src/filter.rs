//! Prediction filters: every pixel is replaced by its difference from a guess
//! made of its neighbours, folded so that small differences are small numbers.
use vstd::arithmetic::div_mod::{lemma_fundamental_div_mod, lemma_fundamental_div_mod_converse};
use vstd::arithmetic::mul::lemma_mul_inequality;
use vstd::prelude::*;

use crate::laws::filter::guess_by_column_and_row;

verus! {

/// The number of filters an encoder chooses among: none, left, top, average.
pub const ENCODER_FILTERS: u8 = 4;

/// The filter that only older archives use.
pub const PAETH_FILTER: u8 = 4;

/// The number of filters a decoder knows: those of the encoder, and Paeth.
pub const KNOWN_FILTERS: u8 = 5;

/// `a - b` modulo 256.
pub open spec fn difference(a: u8, b: u8) -> u8 {
    if a >= b {
        (a - b) as u8
    } else {
        (a - b + 256) as u8
    }
}

/// `a + b` modulo 256.
pub open spec fn total(a: u8, b: u8) -> u8 {
    if a + b < 256 {
        (a + b) as u8
    } else {
        (a + b - 256) as u8
    }
}

/// A residual as a signed number, from -128 to 127.
pub open spec fn signed(residual: u8) -> int {
    if residual < 128 {
        residual as int
    } else {
        residual - 256
    }
}

/// The folding of signed numbers onto 0, 1, 2, ...: 0, -1, 1, -2, 2, ...
pub open spec fn zigzag(residual: u8) -> u8 {
    if signed(residual) >= 0 {
        (2 * signed(residual)) as u8
    } else {
        (-2 * signed(residual) - 1) as u8
    }
}

/// The residual that `value` is the folding of.
pub open spec fn unzigzag(value: u8) -> u8 {
    if value % 2 == 0 {
        (value / 2) as u8
    } else {
        (256 - (value + 1) / 2) as u8
    }
}

/// Folding loses nothing, and every byte is the folding of one residual.
pub proof fn zigzag_is_lossless(value: u8)
    ensures
        unzigzag(zigzag(value)) == value,
        zigzag(unzigzag(value)) == value,
{
}

/// A pixel is restored from a guess and its folded difference from it, and
/// the other way round.
pub proof fn residual_restores_pixel(pixel: u8, guess: u8)
    ensures
        total(unzigzag(zigzag(difference(pixel, guess))), guess) == pixel,
        zigzag(difference(total(unzigzag(pixel), guess), guess)) == pixel,
{
    zigzag_is_lossless(difference(pixel, guess));
    zigzag_is_lossless(pixel);
    assert(total(difference(pixel, guess), guess) == pixel);
    assert(difference(total(unzigzag(pixel), guess), guess) == unzigzag(pixel));
}

/// Residuals nearer to 0 fold onto smaller numbers.
pub proof fn zigzag_orders_by_size(near: u8, far: u8)
    requires
        distance(signed(near), 0) < distance(signed(far), 0),
    ensures
        zigzag(near) < zigzag(far),
{
}

/// How far apart two numbers are.
pub open spec fn distance(a: int, b: int) -> int {
    if a < b {
        b - a
    } else {
        a - b
    }
}

/// The neighbour that is nearest to `left + top - top_left`; of those equally
/// near the left one, or else the top one.
pub open spec fn paeth(left: u8, top: u8, top_left: u8) -> u8 {
    let estimate = left + top - top_left;
    let to_left = distance(estimate, left as int);
    let to_top = distance(estimate, top as int);
    let to_top_left = distance(estimate, top_left as int);
    if to_left <= to_top && to_left <= to_top_left {
        left
    } else if to_top <= to_top_left {
        top
    } else {
        top_left
    }
}

/// The Paeth guess is one of the neighbours, and none is nearer.
pub proof fn paeth_is_nearest(left: u8, top: u8, top_left: u8)
    ensures
        ({
            let estimate = left + top - top_left;
            let guess = paeth(left, top, top_left);
            &&& guess == left || guess == top || guess == top_left
            &&& distance(estimate, guess as int) <= distance(estimate, left as int)
            &&& distance(estimate, guess as int) <= distance(estimate, top as int)
            &&& distance(estimate, guess as int) <= distance(estimate, top_left as int)
        }),
{
}

/// What a filter guesses from the neighbours of a pixel.
pub open spec fn prediction(filter: u8, left: u8, top: u8, top_left: u8) -> u8 {
    if filter == 0 {
        0
    } else if filter == 1 {
        left
    } else if filter == 2 {
        top
    } else if filter == 3 {
        ((left + top) / 2) as u8
    } else {
        paeth(left, top, top_left)
    }
}

/// The pixel to the left of pixel `i`, or 0 in the first column.
pub open spec fn left_of(pixels: Seq<u8>, width: int, i: int) -> u8 {
    if i % width > 0 {
        pixels[i - 1]
    } else {
        0
    }
}

/// The pixel above pixel `i`, or 0 in the first row.
pub open spec fn top_of(pixels: Seq<u8>, width: int, i: int) -> u8 {
    if i / width > 0 {
        pixels[i - width]
    } else {
        0
    }
}

/// The pixel above and to the left of pixel `i`, or 0 at those two edges.
pub open spec fn top_left_of(pixels: Seq<u8>, width: int, i: int) -> u8 {
    if i % width > 0 && i / width > 0 {
        pixels[i - width - 1]
    } else {
        0
    }
}

/// What a filter guesses for pixel `i` of an image `width` pixels wide.
pub open spec fn predicted(filter: u8, pixels: Seq<u8>, width: int, i: int) -> u8 {
    prediction(
        filter,
        left_of(pixels, width, i),
        top_of(pixels, width, i),
        top_left_of(pixels, width, i),
    )
}

/// The folded difference of pixel `i` from what a filter guesses for it.
pub open spec fn residual(filter: u8, pixels: Seq<u8>, width: int, i: int) -> u8 {
    zigzag(difference(pixels[i], predicted(filter, pixels, width, i)))
}

/// The residuals of an image whose row `y` has the filter `filters[y]`.
pub open spec fn residuals(filters: Seq<u8>, pixels: Seq<u8>, width: int, count: nat) -> Seq<u8> {
    Seq::new(count, |i: int| residual(filters[i / width], pixels, width, i))
}

/// The first `count` pixels of the image that has the residuals `data`, if
/// row `y` has the filter `filters[y]`.
pub open spec fn reconstructed(data: Seq<u8>, filters: Seq<u8>, width: int, count: nat) -> Seq<u8>
    decreases count,
{
    if count == 0 {
        Seq::empty()
    } else {
        let before = reconstructed(data, filters, width, (count - 1) as nat);
        let i = count - 1;
        before.push(total(unzigzag(data[i]), predicted(filters[i / width], before, width, i)))
    }
}

/// The residuals of older archives: plain differences from the Paeth guess.
pub open spec fn legacy_residuals(pixels: Seq<u8>, width: int, count: nat) -> Seq<u8> {
    Seq::new(count, |i: int| difference(pixels[i], predicted(PAETH_FILTER, pixels, width, i)))
}

/// The first `count` pixels of the image that has the legacy residuals `data`.
pub open spec fn legacy_reconstructed(data: Seq<u8>, width: int, count: nat) -> Seq<u8>
    decreases count,
{
    if count == 0 {
        Seq::empty()
    } else {
        let before = legacy_reconstructed(data, width, (count - 1) as nat);
        before.push(total(data[count - 1], predicted(PAETH_FILTER, before, width, count - 1)))
    }
}

/// The sum of the first `count` residuals of row `y`.
pub open spec fn row_score(filter: u8, pixels: Seq<u8>, width: int, y: int, count: nat) -> nat
    decreases count,
{
    if count == 0 {
        0
    } else {
        row_score(filter, pixels, width, y, (count - 1) as nat) + residual(
            filter,
            pixels,
            width,
            y * width + count - 1,
        ) as nat
    }
}

/// The filter with the least sum of residuals in row `y`, the first of those.
pub open spec fn best_filter(pixels: Seq<u8>, width: int, y: int) -> u8 {
    let none = row_score(0, pixels, width, y, width as nat);
    let left = row_score(1, pixels, width, y, width as nat);
    let top = row_score(2, pixels, width, y, width as nat);
    let average = row_score(3, pixels, width, y, width as nat);
    if none <= left && none <= top && none <= average {
        0
    } else if left <= top && left <= average {
        1
    } else if top <= average {
        2
    } else {
        3
    }
}

/// The best filter of each row.
pub open spec fn best_filters(pixels: Seq<u8>, width: int, height: nat) -> Seq<u8> {
    Seq::new(height, |y: int| best_filter(pixels, width, y))
}

/// The same filter for each row.
pub open spec fn uniform_filters(filter: u8, height: nat) -> Seq<u8> {
    Seq::new(height, |y: int| filter)
}

/// As many legacy pixels are reconstructed as asked for.
pub proof fn lemma_legacy_reconstructed_len(data: Seq<u8>, width: int, count: nat)
    ensures
        legacy_reconstructed(data, width, count).len() == count,
    decreases count,
{
    if count > 0 {
        lemma_legacy_reconstructed_len(data, width, (count - 1) as nat);
    }
}

/// Where a pixel is, and that its neighbours come before it.
pub proof fn lemma_neighbours_before(width: int, i: int)
    requires
        width > 0,
        i >= 0,
    ensures
        0 <= i % width < width,
        0 <= i / width,
        i % width > 0 ==> i >= 1,
        i / width > 0 ==> i >= width,
        i / width > 0 && i % width > 0 ==> i >= width + 1,
{
    lemma_fundamental_div_mod(i, width);
    if i / width > 0 {
        lemma_mul_inequality(1, i / width, width);
        assert(width * (i / width) == (i / width) * width) by (nonlinear_arith);
    }
    if i / width < 0 {
        assert(false) by (nonlinear_arith)
            requires
                i == width * (i / width) + i % width,
                i >= 0,
                i / width < 0,
                0 <= i % width < width,
                width > 0,
        ;
    }
}

/// The rows and columns of a pixel.
pub proof fn lemma_position(width: int, height: int, y: int, x: int)
    requires
        0 <= x < width,
        0 <= y < height,
    ensures
        (y * width + x) / width == y,
        (y * width + x) % width == x,
        0 <= y * width,
        y * width + x < height * width,
        y * width + width <= height * width,
        y > 0 ==> y * width >= width,
{
    lemma_fundamental_div_mod_converse(y * width + x, width, y, x);
    assert(y * width + width <= height * width) by (nonlinear_arith)
        requires
            0 <= y < height,
            0 < width,
    ;
    assert(0 <= y * width) by (nonlinear_arith)
        requires
            0 <= y,
            0 < width,
    ;
    assert(y > 0 ==> y * width >= width) by (nonlinear_arith)
        requires
            0 < width,
    ;
}

/// The row of a pixel is one of the rows of the image.
pub proof fn lemma_row_in_image(width: int, height: int, i: int)
    requires
        0 <= i < width * height,
        width > 0,
    ensures
        0 <= i / width < height,
{
    lemma_fundamental_div_mod(i, width);
    assert(0 <= i / width < height) by (nonlinear_arith)
        requires
            i == width * (i / width) + i % width,
            0 <= i % width < width,
            0 <= i < width * height,
            width > 0,
    ;
}

/// A guess for a pixel looks only at the pixels before it.
pub proof fn lemma_prediction_looks_back(
    filter: u8,
    pixels: Seq<u8>,
    width: int,
    i: int,
)
    requires
        width > 0,
        0 <= i <= pixels.len(),
    ensures
        predicted(filter, pixels.take(i), width, i) == predicted(filter, pixels, width, i),
{
    lemma_neighbours_before(width, i);
}

/// As many pixels are reconstructed as asked for.
pub proof fn lemma_reconstructed_len(data: Seq<u8>, filters: Seq<u8>, width: int, count: nat)
    ensures
        reconstructed(data, filters, width, count).len() == count,
    decreases count,
{
    if count > 0 {
        lemma_reconstructed_len(data, filters, width, (count - 1) as nat);
    }
}

/// The pixels reconstructed first do not change when more are reconstructed.
proof fn lemma_reconstructed_grows(
    data: Seq<u8>,
    filters: Seq<u8>,
    width: int,
    count: nat,
    more: nat,
)
    requires
        count <= more,
    ensures
        reconstructed(data, filters, width, more).take(count as int) == reconstructed(
            data,
            filters,
            width,
            count,
        ),
    decreases more,
{
    lemma_reconstructed_len(data, filters, width, more);
    if count == more {
        assert(reconstructed(data, filters, width, more).take(count as int) =~= reconstructed(
            data,
            filters,
            width,
            count,
        ));
    } else {
        lemma_reconstructed_grows(data, filters, width, count, (more - 1) as nat);
        assert(reconstructed(data, filters, width, more).take(count as int) =~= reconstructed(
            data,
            filters,
            width,
            (more - 1) as nat,
        ).take(count as int));
    }
}

/// Reconstructing from the residuals of an image gives that image, whatever
/// filter each row has.
pub proof fn filtering_is_lossless(filters: Seq<u8>, pixels: Seq<u8>, width: int, count: nat)
    requires
        width > 0 || count == 0,
        count <= pixels.len(),
    ensures
        reconstructed(residuals(filters, pixels, width, count), filters, width, count)
            == pixels.take(count as int),
{
    lemma_lossless_up_to(filters, pixels, width, count, count);
}

/// The first `count` pixels are restored one by one.
proof fn lemma_lossless_up_to(
    filters: Seq<u8>,
    pixels: Seq<u8>,
    width: int,
    total_count: nat,
    count: nat,
)
    requires
        width > 0 || total_count == 0,
        count <= total_count <= pixels.len(),
    ensures
        reconstructed(residuals(filters, pixels, width, total_count), filters, width, count)
            == pixels.take(count as int),
    decreases count,
{
    let data = residuals(filters, pixels, width, total_count);
    if count == 0 {
        assert(pixels.take(0) =~= Seq::<u8>::empty());
    } else {
        let i = count - 1;
        lemma_lossless_up_to(filters, pixels, width, total_count, i as nat);
        lemma_prediction_looks_back(filters[i / width], pixels, width, i);
        let guess = predicted(filters[i / width], pixels, width, i);
        residual_restores_pixel(pixels[i], guess);
        assert(pixels.take(i).push(pixels[i]) =~= pixels.take(count as int));
    }
}

/// The reconstructed image has the residuals that it was reconstructed from.
pub proof fn reconstruction_has_its_residuals(
    data: Seq<u8>,
    filters: Seq<u8>,
    width: int,
    count: nat,
)
    requires
        width > 0 || count == 0,
        count == data.len(),
    ensures
        residuals(filters, reconstructed(data, filters, width, count), width, count) == data,
{
    let pixels = reconstructed(data, filters, width, count);
    lemma_reconstructed_len(data, filters, width, count);
    assert forall|i: int| 0 <= i < count implies residual(filters[i / width], pixels, width, i)
        == data[i] by {
        let before = reconstructed(data, filters, width, i as nat);
        let guess = predicted(filters[i / width], before, width, i);
        lemma_reconstructed_grows(data, filters, width, i as nat, count);
        lemma_reconstructed_grows(data, filters, width, (i + 1) as nat, count);
        lemma_reconstructed_len(data, filters, width, i as nat);
        lemma_prediction_looks_back(filters[i / width], pixels, width, i);
        assert(pixels[i] == pixels.take(i + 1)[i]);
        assert(pixels[i] == total(unzigzag(data[i]), guess));
        residual_restores_pixel(data[i], guess);
    }
    assert(residuals(filters, pixels, width, count) =~= data);
}

/// Reconstructing from the legacy residuals of an image gives that image.
pub proof fn legacy_filtering_is_lossless(pixels: Seq<u8>, width: int, count: nat)
    requires
        width > 0 || count == 0,
        count <= pixels.len(),
    ensures
        legacy_reconstructed(legacy_residuals(pixels, width, count), width, count) == pixels.take(
            count as int,
        ),
{
    lemma_legacy_lossless_up_to(pixels, width, count, count);
}

/// The first `count` pixels are restored one by one from legacy residuals.
proof fn lemma_legacy_lossless_up_to(
    pixels: Seq<u8>,
    width: int,
    total_count: nat,
    count: nat,
)
    requires
        width > 0 || total_count == 0,
        count <= total_count <= pixels.len(),
    ensures
        legacy_reconstructed(legacy_residuals(pixels, width, total_count), width, count)
            == pixels.take(count as int),
    decreases count,
{
    if count == 0 {
        assert(pixels.take(0) =~= Seq::<u8>::empty());
    } else {
        let i = count - 1;
        lemma_legacy_lossless_up_to(pixels, width, total_count, i as nat);
        lemma_prediction_looks_back(PAETH_FILTER, pixels, width, i);
        let guess = predicted(PAETH_FILTER, pixels, width, i);
        assert(total(difference(pixels[i], guess), guess) == pixels[i]);
        assert(pixels.take(i).push(pixels[i]) =~= pixels.take(count as int));
    }
}

/// No filter of the encoder gives a row a smaller sum of residuals than the
/// best filter, and none before it gives an equal one.
pub proof fn best_filter_is_least(pixels: Seq<u8>, width: int, y: int, filter: u8)
    requires
        filter < ENCODER_FILTERS,
    ensures
        best_filter(pixels, width, y) < ENCODER_FILTERS,
        row_score(best_filter(pixels, width, y), pixels, width, y, width as nat) <= row_score(
            filter,
            pixels,
            width,
            y,
            width as nat,
        ),
        filter < best_filter(pixels, width, y) ==> row_score(
            best_filter(pixels, width, y),
            pixels,
            width,
            y,
            width as nat,
        ) < row_score(filter, pixels, width, y, width as nat),
{
}

/// Folds a residual so that small differences are small numbers.
pub fn zigzag_encode(residual: u8) -> (value: u8)
    ensures
        value == zigzag(residual),
        residual < 128 ==> value == 2 * residual,
        residual >= 128 ==> value == 2 * (256 - residual) - 1,
{
    if residual < 128 {
        2 * residual
    } else {
        2 * (255 - residual) + 1
    }
}

/// Unfolds a residual.
pub fn zigzag_decode(value: u8) -> (residual: u8)
    ensures
        residual == unzigzag(value),
        value % 2 == 0 ==> 2 * residual == value,
        value % 2 == 1 ==> 2 * (256 - residual) - 1 == value,
{
    if value % 2 == 0 {
        value / 2
    } else {
        255 - value / 2
    }
}

/// Returns how far apart two numbers are.
fn gap(a: i32, b: i32) -> (gap: i32)
    requires
        -0x1000 <= a <= 0x1000,
        -0x1000 <= b <= 0x1000,
    ensures
        gap == distance(a as int, b as int),
{
    if a < b {
        b - a
    } else {
        a - b
    }
}

/// Guesses a pixel as the neighbour that continues the slope best. No encoder
/// here chooses it, but older archives were filtered with it.
pub fn paeth_predict(left: u8, top: u8, top_left: u8) -> (guess: u8)
    ensures
        guess == paeth(left, top, top_left),
{
    let estimate: i32 = left as i32 + top as i32 - top_left as i32;
    let to_left: i32 = gap(estimate, left as i32);
    let to_top: i32 = gap(estimate, top as i32);
    let to_top_left: i32 = gap(estimate, top_left as i32);
    if to_left <= to_top && to_left <= to_top_left {
        left
    } else if to_top <= to_top_left {
        top
    } else {
        top_left
    }
}

/// Guesses a pixel from its neighbours.
pub fn predict(filter: u8, left: u8, top: u8, top_left: u8) -> (guess: u8)
    requires
        filter < KNOWN_FILTERS,
    ensures
        guess == prediction(filter, left, top, top_left),
        filter == 0 ==> guess == 0,
        filter == 1 ==> guess == left,
        filter == 2 ==> guess == top,
        filter == 3 ==> left <= guess <= top || top <= guess <= left,
        filter == 3 ==> 2 * guess == left + top || 2 * guess == left + top - 1,
        filter == 4 ==> guess == left || guess == top || guess == top_left,
{
    match filter {
        0 => 0,
        1 => left,
        2 => top,
        3 => ((left as u16 + top as u16) / 2) as u8,
        _ => paeth_predict(left, top, top_left),
    }
}

/// Guesses pixel `index`, in column `x` and row `y`, from the pixels before it.
fn predict_at(filter: u8, pixels: &[u8], width: usize, x: usize, y: usize, index: usize) -> (guess:
    u8)
    requires
        filter < KNOWN_FILTERS,
        width > 0,
        index <= pixels.len(),
        x == index % width,
        y == index / width,
    ensures
        guess == predicted(filter, pixels@, width as int, index as int),
        guess == prediction(
            filter,
            if x > 0 {
                pixels@[y * width + (x - 1)]
            } else {
                0
            },
            if y > 0 {
                pixels@[(y - 1) * width + x]
            } else {
                0
            },
            if x > 0 && y > 0 {
                pixels@[(y - 1) * width + (x - 1)]
            } else {
                0
            },
        ),
{
    proof {
        lemma_neighbours_before(width as int, index as int);
        lemma_fundamental_div_mod(index as int, width as int);
        assert(y * width == width * y) by (nonlinear_arith);
        guess_by_column_and_row(filter, pixels@, width as int, x as int, y as int);
    }
    let left: u8 = if x > 0 {
        pixels[index - 1]
    } else {
        0
    };
    let top: u8 = if y > 0 {
        pixels[index - width]
    } else {
        0
    };
    let top_left: u8 = if x > 0 && y > 0 {
        pixels[index - width - 1]
    } else {
        0
    };
    predict(filter, left, top, top_left)
}

/// Returns the folded difference of pixel `index` from what a filter guesses.
fn residual_at(filter: u8, pixels: &[u8], width: usize, x: usize, y: usize, index: usize) -> (value:
    u8)
    requires
        filter < KNOWN_FILTERS,
        width > 0,
        index < pixels.len(),
        x == index % width,
        y == index / width,
    ensures
        value == residual(filter, pixels@, width as int, index as int),
{
    let pixel: u8 = pixels[index];
    let guess: u8 = predict_at(filter, pixels, width, x, y, index);
    zigzag_encode(pixel.wrapping_sub(guess))
}

/// Filters every row of an image with the same filter.
pub fn filtered_data(pixels: &[u8], width: u32, height: u32, filter: u8) -> (data: Vec<u8>)
    requires
        width * height <= pixels@.len(),
        width * height > 0 ==> filter < KNOWN_FILTERS,
    ensures
        data@ == residuals(
            uniform_filters(filter, height as nat),
            pixels@,
            width as int,
            (width * height) as nat,
        ),
{
    let columns: usize = width as usize;
    let rows: usize = height as usize;
    let mut data: Vec<u8> = Vec::new();
    let mut y: usize = 0;
    while y < rows
        invariant
            y <= rows,
            columns == width,
            rows == height,
            width * height <= pixels.len(),
            width * height > 0 ==> filter < KNOWN_FILTERS,
            data@.len() == y * columns,
            forall|i: int|
                0 <= i < data@.len() ==> data@[i] == residual(filter, pixels@, columns as int, i),
        decreases rows - y,
    {
        let mut x: usize = 0;
        while x < columns
            invariant
                x <= columns,
                y < rows,
                columns == width,
                rows == height,
                width * height <= pixels.len(),
                width * height > 0 ==> filter < KNOWN_FILTERS,
                data@.len() == y * columns + x,
                forall|i: int|
                    0 <= i < data@.len() ==> data@[i] == residual(
                        filter,
                        pixels@,
                        columns as int,
                        i,
                    ),
            decreases columns - x,
        {
            proof {
                lemma_position(columns as int, rows as int, y as int, x as int);
            }
            let index: usize = y * columns + x;
            data.push(residual_at(filter, pixels, columns, x, y, index));
            x = x + 1;
        }
        assert((y + 1) * columns == y * columns + columns) by (nonlinear_arith);
        y = y + 1;
    }
    proof {
        let filters = uniform_filters(filter, height as nat);
        let expected = residuals(filters, pixels@, width as int, (width * height) as nat);
        assert(rows * columns == width * height) by (nonlinear_arith)
            requires
                rows == height,
                columns == width,
        ;
        assert forall|i: int| 0 <= i < expected.len() implies data@[i] == expected[i] by {
            assert(width > 0) by (nonlinear_arith)
                requires
                    width * height > 0,
                    width >= 0,
            ;
            lemma_row_in_image(width as int, height as int, i);
        }
        assert(data@ =~= expected);
    }
    data
}

/// Returns the sum of the residuals of row `y` under a filter.
fn score_row(filter: u8, pixels: &[u8], width: u32, height: u32, y: usize) -> (score: u64)
    requires
        filter < KNOWN_FILTERS,
        y < height,
        width * height <= pixels@.len(),
    ensures
        score == row_score(filter, pixels@, width as int, y as int, width as nat),
{
    let columns: usize = width as usize;
    let mut score: u64 = 0;
    let mut x: usize = 0;
    while x < columns
        invariant
            x <= columns,
            columns == width,
            filter < KNOWN_FILTERS,
            y < height,
            width * height <= pixels.len(),
            score == row_score(filter, pixels@, width as int, y as int, x as nat),
            score <= 255 * x,
        decreases columns - x,
    {
        proof {
            lemma_position(columns as int, height as int, y as int, x as int);
            assert(height * columns == width * height) by (nonlinear_arith)
                requires
                    columns == width,
            ;
        }
        let index: usize = y * columns + x;
        score = score + residual_at(filter, pixels, columns, x, y, index) as u64;
        x = x + 1;
    }
    score
}

/// Returns the filter with the least sum of residuals in row `y`, the first
/// of those.
fn choose_filter(pixels: &[u8], width: u32, height: u32, y: usize) -> (filter: u8)
    requires
        y < height,
        width * height <= pixels@.len(),
    ensures
        filter == best_filter(pixels@, width as int, y as int),
{
    let mut best: u8 = 0;
    let mut best_score: u64 = score_row(0, pixels, width, height, y);
    let mut filter: u8 = 1;
    while filter < ENCODER_FILTERS
        invariant
            1 <= filter <= ENCODER_FILTERS,
            y < height,
            width * height <= pixels@.len(),
            best < filter,
            best_score == row_score(best, pixels@, width as int, y as int, width as nat),
            forall|g: u8|
                g < filter ==> best_score <= #[trigger] row_score(
                    g,
                    pixels@,
                    width as int,
                    y as int,
                    width as nat,
                ),
            forall|g: u8|
                g < best ==> best_score < #[trigger] row_score(
                    g,
                    pixels@,
                    width as int,
                    y as int,
                    width as nat,
                ),
        decreases ENCODER_FILTERS - filter,
    {
        let score: u64 = score_row(filter, pixels, width, height, y);
        if score < best_score {
            best_score = score;
            best = filter;
        }
        filter = filter + 1;
    }
    best
}

/// Filters each row of an image with the filter that suits it best. Returns
/// the filters of the rows, and the residuals.
pub fn adaptive_filtered_data(pixels: &[u8], width: u32, height: u32) -> (filtered: (
    Vec<u8>,
    Vec<u8>,
))
    requires
        width * height <= pixels@.len(),
    ensures
        filtered.0@ == best_filters(pixels@, width as int, height as nat),
        filtered.1@ == residuals(
            best_filters(pixels@, width as int, height as nat),
            pixels@,
            width as int,
            (width * height) as nat,
        ),
{
    let columns: usize = width as usize;
    let rows: usize = height as usize;
    let mut filters: Vec<u8> = Vec::new();
    let mut data: Vec<u8> = Vec::new();
    let ghost best = best_filters(pixels@, width as int, height as nat);
    let mut y: usize = 0;
    while y < rows
        invariant
            y <= rows,
            columns == width,
            rows == height,
            width * height <= pixels.len(),
            best == best_filters(pixels@, width as int, height as nat),
            filters@ == best.take(y as int),
            data@.len() == y * columns,
            forall|i: int|
                0 <= i < data@.len() ==> data@[i] == residual(
                    best[i / columns as int],
                    pixels@,
                    columns as int,
                    i,
                ),
        decreases rows - y,
    {
        let filter: u8 = choose_filter(pixels, width, height, y);
        filters.push(filter);
        assert(filters@ =~= best.take(y + 1));
        let mut x: usize = 0;
        while x < columns
            invariant
                x <= columns,
                y < rows,
                columns == width,
                rows == height,
                width * height <= pixels.len(),
                best == best_filters(pixels@, width as int, height as nat),
                filter == best[y as int],
                filter < KNOWN_FILTERS,
                data@.len() == y * columns + x,
                forall|i: int|
                    0 <= i < data@.len() ==> data@[i] == residual(
                        best[i / columns as int],
                        pixels@,
                        columns as int,
                        i,
                    ),
            decreases columns - x,
        {
            proof {
                lemma_position(columns as int, rows as int, y as int, x as int);
            }
            let index: usize = y * columns + x;
            data.push(residual_at(filter, pixels, columns, x, y, index));
            x = x + 1;
        }
        assert((y + 1) * columns == y * columns + columns) by (nonlinear_arith);
        y = y + 1;
    }
    proof {
        assert(best.take(rows as int) =~= best);
        assert(rows * columns == width * height) by (nonlinear_arith)
            requires
                rows == height,
                columns == width,
        ;
        assert(data@ =~= residuals(best, pixels@, width as int, (width * height) as nat));
    }
    (filters, data)
}

/// Reconstructs an image from its residuals and the filters of its rows.
pub(crate) fn reconstruct(data: &[u8], filters: &[u8], width: usize) -> (pixels: Vec<u8>)
    requires
        data@.len() == width * filters@.len(),
        data@.len() > 0 ==> forall|y: int|
            0 <= y < filters@.len() ==> filters@[y] < KNOWN_FILTERS,
    ensures
        pixels@ == reconstructed(data@, filters@, width as int, data@.len()),
{
    let mut pixels: Vec<u8> = Vec::new();
    let mut index: usize = 0;
    while index < data.len()
        invariant
            index <= data.len(),
            data@.len() == width * filters@.len(),
            data@.len() > 0 ==> forall|y: int|
                0 <= y < filters@.len() ==> filters@[y] < KNOWN_FILTERS,
            pixels@.len() == index,
            pixels@ == reconstructed(data@, filters@, width as int, index as nat),
        decreases data.len() - index,
    {
        proof {
            assert(width > 0) by (nonlinear_arith)
                requires
                    width * filters@.len() > 0,
                    width >= 0,
            ;
            lemma_row_in_image(width as int, filters@.len() as int, index as int);
        }
        let x: usize = index % width;
        let y: usize = index / width;
        let value: u8 = data[index];
        let guess: u8 = predict_at(filters[y], pixels.as_slice(), width, x, y, index);
        pixels.push(zigzag_decode(value).wrapping_add(guess));
        index = index + 1;
    }
    pixels
}

/// Reconstructs an image from its legacy residuals.
pub(crate) fn legacy_reconstruct(data: &[u8], width: usize) -> (pixels: Vec<u8>)
    requires
        width > 0 || data@.len() == 0,
    ensures
        pixels@ == legacy_reconstructed(data@, width as int, data@.len()),
{
    let mut pixels: Vec<u8> = Vec::new();
    let mut index: usize = 0;
    while index < data.len()
        invariant
            index <= data.len(),
            width > 0 || data@.len() == 0,
            pixels@.len() == index,
            pixels@ == legacy_reconstructed(data@, width as int, index as nat),
        decreases data.len() - index,
    {
        let x: usize = index % width;
        let y: usize = index / width;
        let value: u8 = data[index];
        let guess: u8 = predict_at(PAETH_FILTER, pixels.as_slice(), width, x, y, index);
        pixels.push(value.wrapping_add(guess));
        index = index + 1;
    }
    pixels
}

} // verus!
