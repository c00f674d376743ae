//! Laws of the filters.
use vstd::math::abs;
use vstd::prelude::*;

use crate::filter::{
    best_filter, best_filter_is_least, best_filters, difference, left_of, legacy_reconstructed,
    legacy_residuals, lemma_legacy_reconstructed_len, lemma_position, lemma_prediction_looks_back,
    lemma_reconstructed_len, paeth, predicted, prediction, reconstructed,
    reconstruction_has_its_residuals, residual, residuals, row_score, top_left_of, top_of, total,
    uniform_filters, unzigzag, zigzag,
};

verus! {

/// Bytes are subtracted and added modulo 256.
pub proof fn bytes_wrap_around(a: u8, b: u8)
    ensures
        (difference(a, b) + b - a) % 256 == 0,
        (a + b - total(a, b)) % 256 == 0,
        total(difference(a, b), b) == a,
        difference(total(a, b), b) == a,
{
}

/// Residuals 0 to 127 fold onto the even numbers in order, and 255 down to 128
/// onto the odd ones.
pub proof fn folding_alternates(residual: u8)
    ensures
        zigzag(0) == 0,
        zigzag(255) == 1,
        residual < 127 ==> zigzag((residual + 1) as u8) == zigzag(residual) + 2,
        128 < residual ==> zigzag((residual - 1) as u8) == zigzag(residual) + 2,
        unzigzag(zigzag(residual)) == residual,
        zigzag(unzigzag(residual)) == residual,
{
}

/// A residual and its opposite fold onto neighbours, the positive one above.
pub proof fn opposites_fold_together(residual: u8)
    requires
        0 < residual < 128,
    ensures
        zigzag((256 - residual) as u8) + 1 == zigzag(residual),
{
}

/// Without a filter nothing is guessed. The next two filters guess a
/// neighbour, and the fourth the middle between both, rounded down.
pub proof fn guesses_of_the_encoder(left: u8, top: u8, top_left: u8)
    ensures
        prediction(0, left, top, top_left) == 0,
        prediction(1, left, top, top_left) == left,
        prediction(2, left, top, top_left) == top,
        left <= prediction(3, left, top, top_left) <= top || top <= prediction(
            3,
            left,
            top,
            top_left,
        ) <= left,
        2 * prediction(3, left, top, top_left) == left + top || 2 * prediction(
            3,
            left,
            top,
            top_left,
        ) == left + top - 1,
{
}

/// The fourth filter does not tell left from top, and equal neighbours are
/// guessed as they are.
pub proof fn average_is_fair(left: u8, top: u8, top_left: u8, other: u8)
    ensures
        prediction(3, left, top, top_left) == prediction(3, top, left, other),
        prediction(3, left, left, top_left) == left,
{
}

/// The filter of older archives guesses a neighbour that no other one beats
/// in being near to `left + top - top_left`. The left one wins ties, and the
/// top one those against the top-left one.
pub proof fn guesses_of_older_archives(filter: u8, left: u8, top: u8, top_left: u8)
    requires
        filter >= 4,
    ensures
        ({
            let guess = prediction(filter, left, top, top_left);
            &&& guess == paeth(left, top, top_left)
            &&& guess == left || guess == top || guess == top_left
            &&& abs(left + top - top_left - guess) <= abs(top - top_left)
            &&& abs(left + top - top_left - guess) <= abs(left - top_left)
            &&& abs(left + top - top_left - guess) <= abs(left + top - top_left - top_left)
            &&& abs(top - top_left) <= abs(left + top - top_left - guess) ==> guess == left
            &&& guess != left && abs(left - top_left) <= abs(left + top - top_left - guess)
                ==> guess == top
        }),
{
}

/// The three neighbours of the pixel in column `x` and row `y`. Outside the
/// image there are zeros.
pub proof fn neighbours_by_column_and_row(pixels: Seq<u8>, width: int, x: int, y: int)
    requires
        0 <= x < width,
        0 <= y,
    ensures
        x > 0 ==> left_of(pixels, width, y * width + x) == pixels[y * width + (x - 1)],
        y > 0 ==> top_of(pixels, width, y * width + x) == pixels[(y - 1) * width + x],
        x > 0 && y > 0 ==> top_left_of(pixels, width, y * width + x) == pixels[(y - 1) * width + (x
            - 1)],
        x == 0 ==> left_of(pixels, width, y * width + x) == 0,
        y == 0 ==> top_of(pixels, width, y * width + x) == 0,
        x == 0 || y == 0 ==> top_left_of(pixels, width, y * width + x) == 0,
{
    lemma_position(width, y + 1, y, x);
    assert((y - 1) * width == y * width - width) by (nonlinear_arith);
}

/// A pixel is guessed from the pixels to the left of it, above it, and to the
/// left of that one, with zeros outside the image.
pub proof fn guess_by_column_and_row(filter: u8, pixels: Seq<u8>, width: int, x: int, y: int)
    requires
        0 <= x < width,
        0 <= y,
    ensures
        predicted(filter, pixels, width, y * width + x) == prediction(
            filter,
            if x > 0 {
                pixels[y * width + (x - 1)]
            } else {
                0
            },
            if y > 0 {
                pixels[(y - 1) * width + x]
            } else {
                0
            },
            if x > 0 && y > 0 {
                pixels[(y - 1) * width + (x - 1)]
            } else {
                0
            },
        ),
{
    neighbours_by_column_and_row(pixels, width, x, y);
}

/// A residual says how far a pixel is from its guess, modulo 256: even ones
/// how far above, odd ones how far below.
pub proof fn residual_is_folded_difference(filter: u8, pixels: Seq<u8>, width: int, i: int)
    ensures
        residual(filter, pixels, width, i) % 2 == 0 ==> (pixels[i] - predicted(
            filter,
            pixels,
            width,
            i,
        ) - residual(filter, pixels, width, i) / 2) % 256 == 0,
        residual(filter, pixels, width, i) % 2 == 1 ==> (pixels[i] - predicted(
            filter,
            pixels,
            width,
            i,
        ) + (residual(filter, pixels, width, i) + 1) / 2) % 256 == 0,
{
}

/// The residuals of an image are those of its pixels, each by the filter of
/// its row.
pub proof fn residuals_row_by_row(
    filters: Seq<u8>,
    pixels: Seq<u8>,
    width: int,
    height: int,
    x: int,
    y: int,
)
    requires
        0 <= x < width,
        0 <= y < height,
    ensures
        residuals(filters, pixels, width, (width * height) as nat).len() == width * height,
        residuals(filters, pixels, width, (width * height) as nat)[y * width + x] == residual(
            filters[y],
            pixels,
            width,
            y * width + x,
        ),
{
    lemma_position(width, height, y, x);
    assert(width * height == height * width) by (nonlinear_arith);
}

/// One filter for all rows is the filter of each row.
pub proof fn one_filter_for_all_rows(filter: u8, height: nat, y: int)
    requires
        0 <= y < height,
    ensures
        uniform_filters(filter, height).len() == height,
        uniform_filters(filter, height)[y] == filter,
{
}

/// A reconstructed pixel is its guess plus its unfolded residual, modulo 256.
/// The guess is made from the reconstructed image itself.
pub proof fn reconstructed_pixel(
    data: Seq<u8>,
    filters: Seq<u8>,
    width: int,
    height: int,
    x: int,
    y: int,
)
    requires
        0 <= x < width,
        0 <= y < height,
        data.len() == width * height,
    ensures
        ({
            let pixels = reconstructed(data, filters, width, data.len());
            let i = y * width + x;
            &&& pixels.len() == width * height
            &&& data[i] % 2 == 0 ==> (pixels[i] - predicted(filters[y], pixels, width, i) - data[i]
                / 2) % 256 == 0
            &&& data[i] % 2 == 1 ==> (pixels[i] - predicted(filters[y], pixels, width, i) + (data[i]
                + 1) / 2) % 256 == 0
        }),
{
    let pixels = reconstructed(data, filters, width, data.len());
    let i = y * width + x;
    lemma_position(width, height, y, x);
    assert(width * height == height * width) by (nonlinear_arith);
    lemma_reconstructed_len(data, filters, width, data.len());
    reconstruction_has_its_residuals(data, filters, width, data.len());
    assert(residuals(filters, pixels, width, data.len())[i] == data[i]);
    residual_is_folded_difference(filters[y], pixels, width, i);
}

/// The legacy pixels reconstructed first do not change when more are.
proof fn lemma_legacy_grows(data: Seq<u8>, width: int, count: nat, more: nat)
    requires
        count <= more,
    ensures
        legacy_reconstructed(data, width, more).take(count as int) == legacy_reconstructed(
            data,
            width,
            count,
        ),
    decreases more,
{
    lemma_legacy_reconstructed_len(data, width, more);
    if count == more {
        assert(legacy_reconstructed(data, width, more).take(count as int) =~= legacy_reconstructed(
            data,
            width,
            count,
        ));
    } else {
        lemma_legacy_grows(data, width, count, (more - 1) as nat);
        assert(legacy_reconstructed(data, width, more).take(count as int) =~= legacy_reconstructed(
            data,
            width,
            (more - 1) as nat,
        ).take(count as int));
    }
}

/// A pixel of an older archive is its guess by the filter of older archives
/// plus its residual as it stands, modulo 256.
pub proof fn legacy_reconstructed_pixel(data: Seq<u8>, width: int, height: int, x: int, y: int)
    requires
        0 <= x < width,
        0 <= y < height,
        data.len() == width * height,
    ensures
        ({
            let pixels = legacy_reconstructed(data, width, data.len());
            let i = y * width + x;
            &&& pixels.len() == width * height
            &&& (pixels[i] - predicted(4, pixels, width, i) - data[i]) % 256 == 0
        }),
{
    let count = data.len();
    let pixels = legacy_reconstructed(data, width, count);
    let i = y * width + x;
    lemma_position(width, height, y, x);
    assert(width * height == height * width) by (nonlinear_arith);
    lemma_legacy_reconstructed_len(data, width, count);
    lemma_legacy_reconstructed_len(data, width, i as nat);
    lemma_legacy_grows(data, width, i as nat, count);
    lemma_legacy_grows(data, width, (i + 1) as nat, count);
    lemma_prediction_looks_back(4, pixels, width, i);
    assert(pixels[i] == pixels.take(i + 1)[i]);
    assert(pixels[i] == total(data[i], predicted(4, pixels, width, i)));
}

/// A legacy residual is the plain difference from the guess of the filter of
/// older archives, modulo 256.
pub proof fn legacy_residual_is_difference(
    pixels: Seq<u8>,
    width: int,
    height: int,
    x: int,
    y: int,
)
    requires
        0 <= x < width,
        0 <= y < height,
    ensures
        ({
            let data = legacy_residuals(pixels, width, (width * height) as nat);
            let i = y * width + x;
            &&& data.len() == width * height
            &&& (pixels[i] - predicted(4, pixels, width, i) - data[i]) % 256 == 0
        }),
{
    lemma_position(width, height, y, x);
    assert(width * height == height * width) by (nonlinear_arith);
}

/// The score of a row is the sum of its residuals, from left to right.
pub proof fn score_is_sum_of_residuals(
    filter: u8,
    pixels: Seq<u8>,
    width: int,
    y: int,
    count: nat,
)
    ensures
        row_score(filter, pixels, width, y, count) == Seq::new(
            count,
            |x: int| residual(filter, pixels, width, y * width + x) as int,
        ).fold_left(0int, |sum: int, value: int| sum + value),
    decreases count,
{
    let values = Seq::new(count, |x: int| residual(filter, pixels, width, y * width + x) as int);
    if count > 0 {
        let fewer = Seq::new(
            (count - 1) as nat,
            |x: int| residual(filter, pixels, width, y * width + x) as int,
        );
        score_is_sum_of_residuals(filter, pixels, width, y, (count - 1) as nat);
        assert(values.drop_last() =~= fewer);
    }
}

/// Each row has the filter, of the four, under which its residuals have the
/// least sum, and of several such filters the first.
pub proof fn chosen_filter_has_least_sum(
    pixels: Seq<u8>,
    width: nat,
    height: nat,
    y: int,
    filter: u8,
)
    requires
        0 <= y < height,
        filter < 4,
    ensures
        ({
            let sum = |f: u8|
                Seq::new(width, |x: int| residual(f, pixels, width as int, y * width + x) as int)
                    .fold_left(0int, |sum: int, value: int| sum + value);
            let chosen = best_filters(pixels, width as int, height)[y];
            &&& best_filters(pixels, width as int, height).len() == height
            &&& chosen < 4
            &&& sum(chosen) <= sum(filter)
            &&& filter < chosen ==> sum(chosen) < sum(filter)
        }),
{
    let chosen = best_filter(pixels, width as int, y);
    best_filter_is_least(pixels, width as int, y, filter);
    score_is_sum_of_residuals(chosen, pixels, width as int, y, width);
    score_is_sum_of_residuals(filter, pixels, width as int, y, width);
}

} // verus!
