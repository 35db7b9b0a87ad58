//! Detection of black bars (letterboxing and pillarboxing) in a BGRA frame.
//!
//! A frame is `height` rows of `bytes_per_row` bytes; pixel `(x, y)` starts
//! at byte `y * bytes_per_row + x * 4` and holds blue, green, red and alpha.
use vstd::prelude::*;
use crate::crop::{CropInsets, no_insets};

verus! {

/// A channel value at or below this level counts as black.
pub const DARK_LEVEL: u8 = 24;

/// Bands are scanned this many pixels at a time.
pub const BAND_SIZE: usize = 4;

/// The pixel starting at byte `offset` is dark: its blue, green and red
/// channels are all at most `DARK_LEVEL`.
pub open spec fn dark_at(pixels: Seq<u8>, offset: int) -> bool {
    &&& pixels[offset] <= DARK_LEVEL
    &&& pixels[offset + 1] <= DARK_LEVEL
    &&& pixels[offset + 2] <= DARK_LEVEL
}

/// How many of the pixels `x0 + j * xstep` for `j < nx`, in the row starting
/// at byte `row`, are dark.
pub open spec fn row_dark_count(pixels: Seq<u8>, row: int, x0: int, xstep: int, nx: nat) -> nat
    decreases nx,
{
    if nx == 0 {
        0
    } else {
        row_dark_count(pixels, row, x0, xstep, (nx - 1) as nat) + if dark_at(
            pixels,
            row + (x0 + (nx - 1) * xstep) * 4,
        ) {
            1nat
        } else {
            0nat
        }
    }
}

/// How many of the sampled pixels `(x0 + j * xstep, y0 + k * ystep)` for
/// `j < nx` and `k < ny` are dark.
pub open spec fn grid_dark_count(
    pixels: Seq<u8>,
    bytes_per_row: int,
    y0: int,
    ystep: int,
    ny: nat,
    x0: int,
    xstep: int,
    nx: nat,
) -> nat
    decreases ny,
{
    if ny == 0 {
        0
    } else {
        grid_dark_count(pixels, bytes_per_row, y0, ystep, (ny - 1) as nat, x0, xstep, nx)
            + row_dark_count(pixels, (y0 + (ny - 1) * ystep) * bytes_per_row, x0, xstep, nx)
    }
}

/// Every sampled pixel of the grid lies inside a buffer of `len` bytes, and
/// the sampled row indices fit in a `usize`.
pub open spec fn grid_in_bounds(
    len: int,
    bytes_per_row: int,
    y0: int,
    ystep: int,
    ny: int,
    x0: int,
    xstep: int,
    nx: int,
) -> bool {
    ny == 0 || nx == 0 || {
        &&& y0 + (ny - 1) * ystep <= usize::MAX
        &&& (y0 + (ny - 1) * ystep) * bytes_per_row + (x0 + (nx - 1) * xstep) * 4 + 4 <= len
    }
}

/// One sample every `n / 96` pixels, but at least every pixel.
pub open spec fn sample_step(n: int) -> int {
    if n / 96 >= 1 {
        n / 96
    } else {
        1
    }
}

/// How many of `0, step, 2 * step, ...` are below `n`.
pub open spec fn sample_count(n: int, step: int) -> int {
    n / step + if n % step != 0 {
        1int
    } else {
        0int
    }
}

/// How many of the indices `start .. start + len` are below `limit`.
pub open spec fn span(start: int, len: int, limit: int) -> int {
    let end = if start + len < limit {
        start + len
    } else {
        limit
    };
    if end > start {
        end - start
    } else {
        0
    }
}

/// At least 98% of a non-empty set of samples are dark.
pub open spec fn mostly_dark(samples: int, dark: int) -> bool {
    samples > 0 && dark * 100 >= samples * 98
}

/// The vertical band of columns `start_x .. start_x + band_width` (cut at the
/// frame's width) is dark: every column of it is sampled on the rows
/// `0, step, 2 * step, ...` below `height`, `step` being `sample_step(height)`.
pub open spec fn vertical_band_dark(
    pixels: Seq<u8>,
    width: int,
    height: int,
    bytes_per_row: int,
    start_x: int,
    band_width: int,
) -> bool {
    let step = sample_step(height);
    let ny = sample_count(height, step);
    let nx = span(start_x, band_width, width);
    mostly_dark(
        ny * nx,
        grid_dark_count(pixels, bytes_per_row, 0, step, ny as nat, start_x, 1, nx as nat) as int,
    )
}

/// The horizontal band of rows `start_y .. start_y + band_height` (cut at the
/// frame's height) is dark: every row of it is sampled on the columns
/// `0, step, 2 * step, ...` below `width`, `step` being `sample_step(width)`.
pub open spec fn horizontal_band_dark(
    pixels: Seq<u8>,
    width: int,
    height: int,
    bytes_per_row: int,
    start_y: int,
    band_height: int,
) -> bool {
    let step = sample_step(width);
    let nx = sample_count(width, step);
    let ny = span(start_y, band_height, height);
    mostly_dark(
        ny * nx,
        grid_dark_count(pixels, bytes_per_row, start_y, 1, ny as nat, 0, step, nx as nat) as int,
    )
}

/// Every pixel that `vertical_band_dark` samples lies inside the buffer, and
/// the end of the band fits in a `usize`.
pub open spec fn vertical_band_in_bounds(
    len: int,
    width: int,
    height: int,
    bytes_per_row: int,
    start_x: int,
    band_width: int,
) -> bool {
    let step = sample_step(height);
    &&& start_x + band_width <= usize::MAX
    &&& grid_in_bounds(
        len,
        bytes_per_row,
        0,
        step,
        sample_count(height, step),
        start_x,
        1,
        span(start_x, band_width, width),
    )
}

/// Every pixel that `horizontal_band_dark` samples lies inside the buffer,
/// and the end of the band fits in a `usize`.
pub open spec fn horizontal_band_in_bounds(
    len: int,
    width: int,
    height: int,
    bytes_per_row: int,
    start_y: int,
    band_height: int,
) -> bool {
    let step = sample_step(width);
    &&& start_y + band_height <= usize::MAX
    &&& grid_in_bounds(
        len,
        bytes_per_row,
        start_y,
        1,
        span(start_y, band_height, height),
        0,
        step,
        sample_count(width, step),
    )
}

/// `sample_count(n, step)` counts exactly the multiples of `step` below `n`.
pub proof fn lemma_sample_count(n: int, step: int, k: int)
    requires
        n >= 0,
        step >= 1,
        k >= 0,
    ensures
        sample_count(n, step) >= 0,
        (k < sample_count(n, step)) <==> (k * step < n),
{
    let q = n / step;
    let r = n % step;
    vstd::arithmetic::div_mod::lemma_fundamental_div_mod(n, step);
    assert(0 <= r < step);
    assert(q >= 0) by (nonlinear_arith)
        requires
            n == step * q + r,
            0 <= r < step,
            n >= 0,
    ;
    if k <= q - 1 {
        assert(k * step <= (q - 1) * step) by (nonlinear_arith)
            requires
                k <= q - 1,
                step >= 1,
        ;
        assert((q - 1) * step == step * q - step) by (nonlinear_arith);
    } else if k == q {
        assert(k * step == step * q) by (nonlinear_arith)
            requires
                k == q,
        ;
    } else {
        assert(k * step >= (q + 1) * step) by (nonlinear_arith)
            requires
                k >= q + 1,
                step >= 1,
        ;
        assert((q + 1) * step == step * q + step) by (nonlinear_arith);
    }
}

/// A pixel of the sampled grid starts at or before the grid's last pixel.
proof fn lemma_grid_offset(
    len: int,
    bytes_per_row: int,
    y0: int,
    ystep: int,
    ny: int,
    x0: int,
    xstep: int,
    nx: int,
    k: int,
    j: int,
)
    requires
        grid_in_bounds(len, bytes_per_row, y0, ystep, ny, x0, xstep, nx),
        0 <= k < ny,
        0 <= j < nx,
        y0 >= 0,
        x0 >= 0,
        ystep >= 0,
        xstep >= 0,
        bytes_per_row >= 0,
    ensures
        0 <= y0 + k * ystep <= y0 + (ny - 1) * ystep,
        0 <= (y0 + k * ystep) * bytes_per_row,
        0 <= x0 + j * xstep,
        (y0 + k * ystep) * bytes_per_row + (x0 + j * xstep) * 4 + 4 <= len,
{
    assert(0 <= k * ystep <= (ny - 1) * ystep) by (nonlinear_arith)
        requires
            0 <= k <= ny - 1,
            ystep >= 0,
    ;
    assert(0 <= j * xstep <= (nx - 1) * xstep) by (nonlinear_arith)
        requires
            0 <= j <= nx - 1,
            xstep >= 0,
    ;
    let yk = y0 + k * ystep;
    let ymax = y0 + (ny - 1) * ystep;
    assert(0 <= yk * bytes_per_row <= ymax * bytes_per_row) by (nonlinear_arith)
        requires
            0 <= yk <= ymax,
            bytes_per_row >= 0,
    ;
}

/// A row count is at most the number of sampled pixels in the row.
proof fn lemma_row_dark_count_bound(pixels: Seq<u8>, row: int, x0: int, xstep: int, nx: nat)
    ensures
        row_dark_count(pixels, row, x0, xstep, nx) <= nx,
    decreases nx,
{
    if nx > 0 {
        lemma_row_dark_count_bound(pixels, row, x0, xstep, (nx - 1) as nat);
    }
}

/// Whether the pixel whose bytes start `pixel` is dark: its first three
/// channels (blue, green, red) are all at most `DARK_LEVEL`.
pub fn pixel_is_dark(pixel: &[u8]) -> (r: bool)
    requires
        pixel@.len() >= 3,
    ensures
        r == dark_at(pixel@, 0),
{
    pixel[0] <= DARK_LEVEL && pixel[1] <= DARK_LEVEL && pixel[2] <= DARK_LEVEL
}

/// Count the dark pixels of a sampled grid.
fn count_dark_samples(
    pixels: &[u8],
    bytes_per_row: usize,
    y0: usize,
    ystep: usize,
    ny: usize,
    x0: usize,
    xstep: usize,
    nx: usize,
) -> (dark: u128)
    requires
        grid_in_bounds(
            pixels@.len() as int,
            bytes_per_row as int,
            y0 as int,
            ystep as int,
            ny as int,
            x0 as int,
            xstep as int,
            nx as int,
        ),
    ensures
        dark == grid_dark_count(
            pixels@,
            bytes_per_row as int,
            y0 as int,
            ystep as int,
            ny as nat,
            x0 as int,
            xstep as int,
            nx as nat,
        ),
{
    let total: usize = pixels.len();
    let ghost len = pixels@.len() as int;
    let mut dark: u128 = 0;
    let mut k: usize = 0;
    while k < ny
        invariant
            k <= ny,
            len == pixels@.len(),
            len == total,
            grid_in_bounds(
                len,
                bytes_per_row as int,
                y0 as int,
                ystep as int,
                ny as int,
                x0 as int,
                xstep as int,
                nx as int,
            ),
            dark == grid_dark_count(
                pixels@,
                bytes_per_row as int,
                y0 as int,
                ystep as int,
                k as nat,
                x0 as int,
                xstep as int,
                nx as nat,
            ),
            dark <= (k as int) * (nx as int),
        decreases ny - k,
    {
        if nx == 0 {
            proof {
                assert(row_dark_count(pixels@, (y0 + k * ystep) * bytes_per_row, x0 as int, xstep as int, 0) == 0);
            }
            k = k + 1;
            continue;
        }
        proof {
            lemma_grid_offset(
                len,
                bytes_per_row as int,
                y0 as int,
                ystep as int,
                ny as int,
                x0 as int,
                xstep as int,
                nx as int,
                k as int,
                0,
            );
        }
        let y: usize = y0 + k * ystep;
        assert(y * bytes_per_row <= len);
        let row: usize = y * bytes_per_row;
        let mut row_dark: u128 = 0;
        let mut j: usize = 0;
        while j < nx
            invariant
                j <= nx,
                k < ny,
                len == pixels@.len(),
                len == total,
                y == y0 + k * ystep,
                row == y * bytes_per_row,
                grid_in_bounds(
                    len,
                    bytes_per_row as int,
                    y0 as int,
                    ystep as int,
                    ny as int,
                    x0 as int,
                    xstep as int,
                    nx as int,
                ),
                row_dark == row_dark_count(pixels@, row as int, x0 as int, xstep as int, j as nat),
                row_dark <= j,
            decreases nx - j,
        {
            proof {
                lemma_grid_offset(
                    len,
                    bytes_per_row as int,
                    y0 as int,
                    ystep as int,
                    ny as int,
                    x0 as int,
                    xstep as int,
                    nx as int,
                    k as int,
                    j as int,
                );
            }
            assert(0 <= (x0 + j * xstep) * 4 <= len);
            assert(j * xstep <= x0 + j * xstep);
            let x: usize = x0 + j * xstep;
            let offset: usize = row + x * 4;
            let pixel = &pixels[offset..offset + 4];
            if pixel_is_dark(pixel) {
                row_dark = row_dark + 1;
            }
            j = j + 1;
        }
        proof {
            assert((k as int) * (nx as int) + (nx as int) == ((k + 1) as int) * (nx as int))
                by (nonlinear_arith);
            assert(((k + 1) as int) * (nx as int) <= (usize::MAX as int) * (usize::MAX as int))
                by (nonlinear_arith)
                requires
                    0 <= k + 1 <= usize::MAX,
                    0 <= nx <= usize::MAX,
            ;
            assert((usize::MAX as int) * (usize::MAX as int) < u128::MAX) by (nonlinear_arith)
                requires
                    usize::MAX <= u64::MAX,
            ;
        }
        dark = dark + row_dark;
        k = k + 1;
    }
    dark
}

/// `mostly_dark` on machine integers, without the products that could overflow:
/// `100 * dark >= 98 * samples` is `49 * (samples - dark) <= dark`.
fn enough_dark_samples(samples: u128, dark: u128) -> (r: bool)
    requires
        dark <= samples,
    ensures
        r == mostly_dark(samples as int, dark as int),
{
    if samples == 0 {
        return false;
    }
    let missing: u128 = samples - dark;
    proof {
        let q = (dark as int) / 49;
        let r = (dark as int) % 49;
        vstd::arithmetic::div_mod::lemma_fundamental_div_mod(dark as int, 49);
        if missing <= q {
            assert(49 * (missing as int) <= 49 * q) by (nonlinear_arith)
                requires
                    missing <= q,
            ;
        } else {
            assert(49 * (missing as int) >= 49 * (q + 1)) by (nonlinear_arith)
                requires
                    missing >= q + 1,
            ;
        }
    }
    missing <= dark / 49
}

/// Whether the vertical band `start_x .. start_x + band_width` of the frame is
/// dark: at least 98% of its sampled pixels are.
pub fn vertical_band_is_dark(
    pixels: &[u8],
    width: usize,
    height: usize,
    bytes_per_row: usize,
    start_x: usize,
    band_width: usize,
) -> (r: bool)
    requires
        vertical_band_in_bounds(
            pixels@.len() as int,
            width as int,
            height as int,
            bytes_per_row as int,
            start_x as int,
            band_width as int,
        ),
    ensures
        r == vertical_band_dark(
            pixels@,
            width as int,
            height as int,
            bytes_per_row as int,
            start_x as int,
            band_width as int,
        ),
{
    let sample_step: usize = if height / 96 >= 1 {
        height / 96
    } else {
        1
    };
    proof {
        if sample_step == 1 {
            assert(height % 1 == 0);
        } else {
            assert(height / sample_step <= height / 2) by (nonlinear_arith)
                requires
                    sample_step >= 2,
                    height >= 0,
            ;
        }
    }
    let rows: usize = height / sample_step + if height % sample_step != 0 {
        1
    } else {
        0
    };
    let end_x: usize = if start_x + band_width < width {
        start_x + band_width
    } else {
        width
    };
    let columns: usize = if end_x > start_x {
        end_x - start_x
    } else {
        0
    };
    let dark = count_dark_samples(pixels, bytes_per_row, 0, sample_step, rows, start_x, 1, columns);
    proof {
        assert(rows as int == sample_count(height as int, sample_step as int));
        lemma_grid_dark_count_bound(
            pixels@,
            bytes_per_row as int,
            0,
            sample_step as int,
            rows as nat,
            start_x as int,
            1,
            columns as nat,
        );
        lemma_u64_square_fits(rows, columns);
    }
    enough_dark_samples((rows as u128) * (columns as u128), dark)
}

/// Whether the horizontal band `start_y .. start_y + band_height` of the
/// frame is dark: at least 98% of its sampled pixels are.
pub fn horizontal_band_is_dark(
    pixels: &[u8],
    width: usize,
    height: usize,
    bytes_per_row: usize,
    start_y: usize,
    band_height: usize,
) -> (r: bool)
    requires
        horizontal_band_in_bounds(
            pixels@.len() as int,
            width as int,
            height as int,
            bytes_per_row as int,
            start_y as int,
            band_height as int,
        ),
    ensures
        r == horizontal_band_dark(
            pixels@,
            width as int,
            height as int,
            bytes_per_row as int,
            start_y as int,
            band_height as int,
        ),
{
    let sample_step: usize = if width / 96 >= 1 {
        width / 96
    } else {
        1
    };
    proof {
        if sample_step == 1 {
            assert(width % 1 == 0);
        } else {
            assert(width / sample_step <= width / 2) by (nonlinear_arith)
                requires
                    sample_step >= 2,
                    width >= 0,
            ;
        }
    }
    let columns: usize = width / sample_step + if width % sample_step != 0 {
        1
    } else {
        0
    };
    let end_y: usize = if start_y + band_height < height {
        start_y + band_height
    } else {
        height
    };
    let rows: usize = if end_y > start_y {
        end_y - start_y
    } else {
        0
    };
    let dark = count_dark_samples(pixels, bytes_per_row, start_y, 1, rows, 0, sample_step, columns);
    proof {
        assert(columns as int == sample_count(width as int, sample_step as int));
        lemma_grid_dark_count_bound(
            pixels@,
            bytes_per_row as int,
            start_y as int,
            1,
            rows as nat,
            0,
            sample_step as int,
            columns as nat,
        );
        lemma_u64_square_fits(rows, columns);
    }
    enough_dark_samples((rows as u128) * (columns as u128), dark)
}

/// A grid count is at most the number of sampled pixels.
proof fn lemma_grid_dark_count_bound(
    pixels: Seq<u8>,
    bytes_per_row: int,
    y0: int,
    ystep: int,
    ny: nat,
    x0: int,
    xstep: int,
    nx: nat,
)
    ensures
        grid_dark_count(pixels, bytes_per_row, y0, ystep, ny, x0, xstep, nx) <= ny * nx,
    decreases ny,
{
    if ny > 0 {
        lemma_grid_dark_count_bound(pixels, bytes_per_row, y0, ystep, (ny - 1) as nat, x0, xstep, nx);
        lemma_row_dark_count_bound(pixels, (y0 + (ny - 1) * ystep) * bytes_per_row, x0, xstep, nx);
        assert(((ny - 1) as nat) * nx + nx == ny * nx) by (nonlinear_arith)
            requires
                ny >= 1,
        ;
    }
}

/// The product of two `usize` values fits in a `u128`.
proof fn lemma_u64_square_fits(a: usize, b: usize)
    ensures
        (a as int) * (b as int) <= u128::MAX,
{
    assert((a as int) * (b as int) <= (u64::MAX as int) * (u64::MAX as int)) by (nonlinear_arith)
        requires
            0 <= a <= u64::MAX,
            0 <= b <= u64::MAX,
    ;
}

/// A side of the frame, scanned inwards for dark bands.
pub enum Edge {
    Left,
    Right,
    Top,
    Bottom,
}

/// A frame that the detector examines: at least 64 by 64 pixels, rows long
/// enough for their pixels, and a buffer long enough for its rows.
pub open spec fn frame_ok(len: int, width: int, height: int, bytes_per_row: int) -> bool {
    &&& width >= 64
    &&& height >= 64
    &&& bytes_per_row >= width * 4
    &&& len >= bytes_per_row * height
}

/// The scan from an edge stops after a third of the frame.
pub open spec fn edge_limit(width: int, height: int, edge: Edge) -> int {
    match edge {
        Edge::Left | Edge::Right => width / 3,
        Edge::Top | Edge::Bottom => height / 3,
    }
}

/// The band of `BAND_SIZE` pixels that lies `depth` pixels in from `edge` is dark.
pub open spec fn edge_band_dark(
    pixels: Seq<u8>,
    width: int,
    height: int,
    bytes_per_row: int,
    edge: Edge,
    depth: int,
) -> bool {
    let band = BAND_SIZE as int;
    match edge {
        Edge::Left => vertical_band_dark(pixels, width, height, bytes_per_row, depth, band),
        Edge::Right => vertical_band_dark(
            pixels,
            width,
            height,
            bytes_per_row,
            width - depth - band,
            band,
        ),
        Edge::Top => horizontal_band_dark(pixels, width, height, bytes_per_row, depth, band),
        Edge::Bottom => horizontal_band_dark(
            pixels,
            width,
            height,
            bytes_per_row,
            height - depth - band,
            band,
        ),
    }
}

/// How deep the dark bands reach from `edge`, starting the scan at `depth`:
/// bands are taken one `BAND_SIZE` step at a time while the next band is dark
/// and stays within the edge's limit.
pub open spec fn dark_depth(
    pixels: Seq<u8>,
    width: int,
    height: int,
    bytes_per_row: int,
    edge: Edge,
    depth: int,
) -> int
    decreases edge_limit(width, height, edge) - depth,
{
    if depth + BAND_SIZE <= edge_limit(width, height, edge) && edge_band_dark(
        pixels,
        width,
        height,
        bytes_per_row,
        edge,
        depth,
    ) {
        dark_depth(pixels, width, height, bytes_per_row, edge, depth + BAND_SIZE)
    } else {
        depth
    }
}

/// A bar thinner than 1% of the frame is not kept.
pub open spec fn drop_thin(depth: int, extent: int) -> int {
    if depth < extent / 100 {
        0
    } else {
        depth
    }
}

/// Two opposite bars covering more than half of the frame are both dropped.
pub open spec fn drop_excessive(a: int, b: int, extent: int) -> (int, int) {
    if a + b > extent / 2 {
        (0, 0)
    } else {
        (a, b)
    }
}

/// The black bars of a BGRA frame, as insets in pixels of a `width` by
/// `height` frame; no insets when the frame is too small or its buffer too short.
pub open spec fn detected_insets(
    pixels: Seq<u8>,
    width: int,
    height: int,
    bytes_per_row: int,
) -> CropInsets {
    if !frame_ok(pixels.len() as int, width, height, bytes_per_row) {
        no_insets()
    } else {
        let left = drop_thin(dark_depth(pixels, width, height, bytes_per_row, Edge::Left, 0), width);
        let right = drop_thin(dark_depth(pixels, width, height, bytes_per_row, Edge::Right, 0), width);
        let top = drop_thin(dark_depth(pixels, width, height, bytes_per_row, Edge::Top, 0), height);
        let bottom = drop_thin(
            dark_depth(pixels, width, height, bytes_per_row, Edge::Bottom, 0),
            height,
        );
        let (left, right) = drop_excessive(left, right, width);
        let (top, bottom) = drop_excessive(top, bottom, height);
        CropInsets {
            left: left as u64,
            right: right as u64,
            top: top as u64,
            bottom: bottom as u64,
            width: width as u64,
            height: height as u64,
        }
    }
}

/// Every band of `BAND_SIZE` columns inside an acceptable frame can be examined.
proof fn lemma_vertical_band_in_frame(len: int, width: int, height: int, bytes_per_row: int, start_x: int)
    requires
        frame_ok(len, width, height, bytes_per_row),
        0 <= start_x,
        start_x + BAND_SIZE <= width,
        width <= usize::MAX,
        height <= usize::MAX,
    ensures
        vertical_band_in_bounds(len, width, height, bytes_per_row, start_x, BAND_SIZE as int),
{
    let step = sample_step(height);
    let ny = sample_count(height, step);
    lemma_sample_count(height, step, 0);
    lemma_sample_count(height, step, ny - 1);
    let ymax = (ny - 1) * step;
    assert(ymax * bytes_per_row <= (height - 1) * bytes_per_row) by (nonlinear_arith)
        requires
            0 <= ymax <= height - 1,
            bytes_per_row >= 0,
    ;
    assert((height - 1) * bytes_per_row + bytes_per_row == bytes_per_row * height)
        by (nonlinear_arith);
    assert(span(start_x, BAND_SIZE as int, width) == 4);
}

/// Every band of `BAND_SIZE` rows inside an acceptable frame can be examined.
proof fn lemma_horizontal_band_in_frame(len: int, width: int, height: int, bytes_per_row: int, start_y: int)
    requires
        frame_ok(len, width, height, bytes_per_row),
        0 <= start_y,
        start_y + BAND_SIZE <= height,
        width <= usize::MAX,
        height <= usize::MAX,
    ensures
        horizontal_band_in_bounds(len, width, height, bytes_per_row, start_y, BAND_SIZE as int),
{
    let step = sample_step(width);
    let nx = sample_count(width, step);
    lemma_sample_count(width, step, 0);
    lemma_sample_count(width, step, nx - 1);
    let ymax = start_y + 3;
    assert(ymax * bytes_per_row <= (height - 1) * bytes_per_row) by (nonlinear_arith)
        requires
            0 <= ymax <= height - 1,
            bytes_per_row >= 0,
    ;
    assert((height - 1) * bytes_per_row + bytes_per_row == bytes_per_row * height)
        by (nonlinear_arith);
    assert(span(start_y, BAND_SIZE as int, height) == 4);
}

/// Measure the black bars of a BGRA frame of `width` by `height` pixels whose
/// rows are `bytes_per_row` bytes apart.
///
/// From each edge, bands of four pixels are taken inwards while they are dark,
/// up to a third of the frame. A bar thinner than 1% of the frame is ignored,
/// and when the two bars of an axis together would cover more than half of the
/// frame, neither is kept: a frame that is black for a moment is not padding.
pub fn detect_black_bars_bgra(
    pixels: &[u8],
    width: usize,
    height: usize,
    bytes_per_row: usize,
) -> (r: CropInsets)
    ensures
        r == detected_insets(pixels@, width as int, height as int, bytes_per_row as int),
{
    let len: usize = pixels.len();
    if width < 64 || height < 64 || bytes_per_row / 4 < width {
        return CropInsets::none();
    }
    let frame_bytes: usize = match bytes_per_row.checked_mul(height) {
        Some(n) => n,
        None => {
            return CropInsets::none();
        },
    };
    if len < frame_bytes {
        return CropInsets::none();
    }
    let ghost p = pixels@;
    let ghost (w, h, bpr) = (width as int, height as int, bytes_per_row as int);
    assert(frame_ok(len as int, w, h, bpr));

    let max_horizontal_crop: usize = width / 3;
    let mut left: usize = 0;
    loop
        invariant
            p == pixels@,
            frame_ok(p.len() as int, w, h, bpr),
            w == width,
            h == height,
            bpr == bytes_per_row,
            max_horizontal_crop == w / 3,
            left <= max_horizontal_crop,
            dark_depth(p, w, h, bpr, Edge::Left, 0) == dark_depth(p, w, h, bpr, Edge::Left, left as int),
        ensures
            dark_depth(p, w, h, bpr, Edge::Left, 0) == left,
            left <= max_horizontal_crop,
        decreases max_horizontal_crop - left,
    {
        if left + BAND_SIZE > max_horizontal_crop {
            break;
        }
        proof {
            lemma_vertical_band_in_frame(p.len() as int, w, h, bpr, left as int);
        }
        if !vertical_band_is_dark(pixels, width, height, bytes_per_row, left, BAND_SIZE) {
            break;
        }
        left = left + BAND_SIZE;
    }
    let mut right: usize = 0;
    loop
        invariant
            p == pixels@,
            frame_ok(p.len() as int, w, h, bpr),
            w == width,
            h == height,
            bpr == bytes_per_row,
            max_horizontal_crop == w / 3,
            right <= max_horizontal_crop,
            dark_depth(p, w, h, bpr, Edge::Right, 0) == dark_depth(p, w, h, bpr, Edge::Right, right as int),
        ensures
            dark_depth(p, w, h, bpr, Edge::Right, 0) == right,
            right <= max_horizontal_crop,
        decreases max_horizontal_crop - right,
    {
        if right + BAND_SIZE > max_horizontal_crop {
            break;
        }
        let start_x: usize = width - right - BAND_SIZE;
        proof {
            lemma_vertical_band_in_frame(p.len() as int, w, h, bpr, start_x as int);
        }
        if !vertical_band_is_dark(pixels, width, height, bytes_per_row, start_x, BAND_SIZE) {
            break;
        }
        right = right + BAND_SIZE;
    }

    let max_vertical_crop: usize = height / 3;
    let mut top: usize = 0;
    loop
        invariant
            p == pixels@,
            frame_ok(p.len() as int, w, h, bpr),
            w == width,
            h == height,
            bpr == bytes_per_row,
            max_vertical_crop == h / 3,
            top <= max_vertical_crop,
            dark_depth(p, w, h, bpr, Edge::Top, 0) == dark_depth(p, w, h, bpr, Edge::Top, top as int),
        ensures
            dark_depth(p, w, h, bpr, Edge::Top, 0) == top,
            top <= max_vertical_crop,
        decreases max_vertical_crop - top,
    {
        if top + BAND_SIZE > max_vertical_crop {
            break;
        }
        proof {
            lemma_horizontal_band_in_frame(p.len() as int, w, h, bpr, top as int);
        }
        if !horizontal_band_is_dark(pixels, width, height, bytes_per_row, top, BAND_SIZE) {
            break;
        }
        top = top + BAND_SIZE;
    }
    let mut bottom: usize = 0;
    loop
        invariant
            p == pixels@,
            frame_ok(p.len() as int, w, h, bpr),
            w == width,
            h == height,
            bpr == bytes_per_row,
            max_vertical_crop == h / 3,
            bottom <= max_vertical_crop,
            dark_depth(p, w, h, bpr, Edge::Bottom, 0) == dark_depth(p, w, h, bpr, Edge::Bottom, bottom as int),
        ensures
            dark_depth(p, w, h, bpr, Edge::Bottom, 0) == bottom,
            bottom <= max_vertical_crop,
        decreases max_vertical_crop - bottom,
    {
        if bottom + BAND_SIZE > max_vertical_crop {
            break;
        }
        let start_y: usize = height - bottom - BAND_SIZE;
        proof {
            lemma_horizontal_band_in_frame(p.len() as int, w, h, bpr, start_y as int);
        }
        if !horizontal_band_is_dark(pixels, width, height, bytes_per_row, start_y, BAND_SIZE) {
            break;
        }
        bottom = bottom + BAND_SIZE;
    }

    if left < width / 100 {
        left = 0;
    }
    if right < width / 100 {
        right = 0;
    }
    if top < height / 100 {
        top = 0;
    }
    if bottom < height / 100 {
        bottom = 0;
    }
    if left + right > width / 2 {
        left = 0;
        right = 0;
    }
    if top + bottom > height / 2 {
        top = 0;
        bottom = 0;
    }
    CropInsets {
        left: left as u64,
        right: right as u64,
        top: top as u64,
        bottom: bottom as u64,
        width: width as u64,
        height: height as u64,
    }
}

/// The pixel at column `x` of row `y` is dark.
pub open spec fn dark_pixel(pixels: Seq<u8>, bytes_per_row: int, x: int, y: int) -> bool {
    dark_at(pixels, y * bytes_per_row + x * 4)
}

/// Every pixel of the `width` by `height` frame is dark.
pub open spec fn frame_all_dark(pixels: Seq<u8>, width: int, height: int, bytes_per_row: int) -> bool {
    forall|x: int, y: int|
        0 <= x < width && 0 <= y < height ==> #[trigger] dark_pixel(pixels, bytes_per_row, x, y)
}

/// Scanning from `depth` never goes back, never passes the edge's limit, and
/// moves by whole bands.
pub proof fn lemma_dark_depth_bounds(
    pixels: Seq<u8>,
    width: int,
    height: int,
    bytes_per_row: int,
    edge: Edge,
    depth: int,
)
    requires
        0 <= depth <= edge_limit(width, height, edge),
    ensures
        depth <= dark_depth(pixels, width, height, bytes_per_row, edge, depth) <= edge_limit(
            width,
            height,
            edge,
        ),
        (dark_depth(pixels, width, height, bytes_per_row, edge, depth) - depth) % (BAND_SIZE as int)
            == 0,
    decreases edge_limit(width, height, edge) - depth,
{
    if depth + BAND_SIZE <= edge_limit(width, height, edge) && edge_band_dark(
        pixels,
        width,
        height,
        bytes_per_row,
        edge,
        depth,
    ) {
        lemma_dark_depth_bounds(pixels, width, height, bytes_per_row, edge, depth + BAND_SIZE);
    }
}

/// Whatever the frame holds, the detected insets are well formed, each bar
/// is a whole number of bands, at most a third of the frame and at least 1%
/// of it when present, and the two bars of an axis never cover more than half
/// of the frame.
pub proof fn lemma_detected_insets_bounded(
    pixels: Seq<u8>,
    width: int,
    height: int,
    bytes_per_row: int,
)
    requires
        0 <= width <= u64::MAX,
        0 <= height <= u64::MAX,
    ensures
        ({
            let r = detected_insets(pixels, width, height, bytes_per_row);
            &&& r.well_formed()
            &&& r.left + r.right <= r.width / 2
            &&& r.top + r.bottom <= r.height / 2
            &&& r.left <= r.width / 3 && r.right <= r.width / 3
            &&& r.top <= r.height / 3 && r.bottom <= r.height / 3
            &&& r.left % 4 == 0 && r.right % 4 == 0 && r.top % 4 == 0 && r.bottom % 4 == 0
            &&& r.left == 0 || r.left >= r.width / 100
            &&& r.right == 0 || r.right >= r.width / 100
            &&& r.top == 0 || r.top >= r.height / 100
            &&& r.bottom == 0 || r.bottom >= r.height / 100
        }),
{
    if frame_ok(pixels.len() as int, width, height, bytes_per_row) {
        lemma_dark_depth_bounds(pixels, width, height, bytes_per_row, Edge::Left, 0);
        lemma_dark_depth_bounds(pixels, width, height, bytes_per_row, Edge::Right, 0);
        lemma_dark_depth_bounds(pixels, width, height, bytes_per_row, Edge::Top, 0);
        lemma_dark_depth_bounds(pixels, width, height, bytes_per_row, Edge::Bottom, 0);
    }
}

/// In an all-dark frame, a row of samples is dark throughout.
proof fn lemma_row_all_dark(
    pixels: Seq<u8>,
    width: int,
    height: int,
    bytes_per_row: int,
    y: int,
    x0: int,
    xstep: int,
    nx: nat,
)
    requires
        frame_all_dark(pixels, width, height, bytes_per_row),
        0 <= y < height,
        x0 >= 0,
        xstep >= 0,
        nx > 0 ==> x0 + (nx - 1) * xstep < width,
    ensures
        row_dark_count(pixels, y * bytes_per_row, x0, xstep, nx) == nx,
    decreases nx,
{
    if nx > 0 {
        let x = x0 + (nx - 1) * xstep;
        assert(0 <= (nx - 1) * xstep) by (nonlinear_arith)
            requires
                nx >= 1,
                xstep >= 0,
        ;
        assert(dark_pixel(pixels, bytes_per_row, x, y));
        if nx > 1 {
            assert((nx - 2) * xstep <= (nx - 1) * xstep) by (nonlinear_arith)
                requires
                    nx >= 2,
                    xstep >= 0,
            ;
        }
        lemma_row_all_dark(pixels, width, height, bytes_per_row, y, x0, xstep, (nx - 1) as nat);
    }
}

/// In an all-dark frame, every sample of a grid inside the frame is dark.
proof fn lemma_grid_all_dark(
    pixels: Seq<u8>,
    width: int,
    height: int,
    bytes_per_row: int,
    y0: int,
    ystep: int,
    ny: nat,
    x0: int,
    xstep: int,
    nx: nat,
)
    requires
        frame_all_dark(pixels, width, height, bytes_per_row),
        y0 >= 0,
        ystep >= 0,
        x0 >= 0,
        xstep >= 0,
        ny > 0 ==> y0 + (ny - 1) * ystep < height,
        nx > 0 ==> x0 + (nx - 1) * xstep < width,
    ensures
        grid_dark_count(pixels, bytes_per_row, y0, ystep, ny, x0, xstep, nx) == ny * nx,
    decreases ny,
{
    if ny > 0 {
        assert(0 <= (ny - 1) * ystep) by (nonlinear_arith)
            requires
                ny >= 1,
                ystep >= 0,
        ;
        if ny > 1 {
            assert((ny - 2) * ystep <= (ny - 1) * ystep) by (nonlinear_arith)
                requires
                    ny >= 2,
                    ystep >= 0,
            ;
        }
        lemma_grid_all_dark(pixels, width, height, bytes_per_row, y0, ystep, (ny - 1) as nat, x0, xstep, nx);
        lemma_row_all_dark(pixels, width, height, bytes_per_row, y0 + (ny - 1) * ystep, x0, xstep, nx);
        assert(((ny - 1) as nat) * nx + nx == ny * nx) by (nonlinear_arith)
            requires
                ny >= 1,
        ;
    } else {
        assert(ny * nx == 0) by (nonlinear_arith)
            requires
                ny == 0,
        ;
    }
}

/// In an all-dark frame, every full band inside the frame is dark.
proof fn lemma_band_dark_in_dark_frame(
    pixels: Seq<u8>,
    width: int,
    height: int,
    bytes_per_row: int,
    edge: Edge,
    depth: int,
)
    requires
        frame_ok(pixels.len() as int, width, height, bytes_per_row),
        frame_all_dark(pixels, width, height, bytes_per_row),
        0 <= depth,
        depth + BAND_SIZE <= edge_limit(width, height, edge),
    ensures
        edge_band_dark(pixels, width, height, bytes_per_row, edge, depth),
{
    let band = BAND_SIZE as int;
    match edge {
        Edge::Left | Edge::Right => {
            let start = if edge is Left {
                depth
            } else {
                width - depth - band
            };
            let step = sample_step(height);
            let ny = sample_count(height, step);
            lemma_sample_count(height, step, 0);
            lemma_sample_count(height, step, ny - 1);
            assert(span(start, band, width) == 4);
            lemma_grid_all_dark(pixels, width, height, bytes_per_row, 0, step, ny as nat, start, 1, 4);
        },
        Edge::Top | Edge::Bottom => {
            let start = if edge is Top {
                depth
            } else {
                height - depth - band
            };
            let step = sample_step(width);
            let nx = sample_count(width, step);
            lemma_sample_count(width, step, 0);
            lemma_sample_count(width, step, nx - 1);
            assert(span(start, band, height) == 4);
            lemma_grid_all_dark(pixels, width, height, bytes_per_row, start, 1, 4, 0, step, nx as nat);
        },
    }
}

/// In an all-dark frame the scan from any edge runs up to its limit.
proof fn lemma_dark_depth_in_dark_frame(
    pixels: Seq<u8>,
    width: int,
    height: int,
    bytes_per_row: int,
    edge: Edge,
    depth: int,
)
    requires
        frame_ok(pixels.len() as int, width, height, bytes_per_row),
        frame_all_dark(pixels, width, height, bytes_per_row),
        0 <= depth <= edge_limit(width, height, edge),
    ensures
        dark_depth(pixels, width, height, bytes_per_row, edge, depth) + BAND_SIZE > edge_limit(
            width,
            height,
            edge,
        ),
    decreases edge_limit(width, height, edge) - depth,
{
    if depth + BAND_SIZE <= edge_limit(width, height, edge) {
        lemma_band_dark_in_dark_frame(pixels, width, height, bytes_per_row, edge, depth);
        lemma_dark_depth_in_dark_frame(pixels, width, height, bytes_per_row, edge, depth + BAND_SIZE);
    }
}

/// A frame that is black all over (a dark scene, a source still starting) is
/// not mistaken for padding: no bars are detected.
pub proof fn lemma_black_frame_has_no_bars(
    pixels: Seq<u8>,
    width: int,
    height: int,
    bytes_per_row: int,
)
    requires
        frame_all_dark(pixels, width, height, bytes_per_row),
        0 <= width <= u64::MAX,
        0 <= height <= u64::MAX,
    ensures
        ({
            let r = detected_insets(pixels, width, height, bytes_per_row);
            r.left == 0 && r.right == 0 && r.top == 0 && r.bottom == 0
        }),
{
    if frame_ok(pixels.len() as int, width, height, bytes_per_row) {
        lemma_dark_depth_in_dark_frame(pixels, width, height, bytes_per_row, Edge::Left, 0);
        lemma_dark_depth_in_dark_frame(pixels, width, height, bytes_per_row, Edge::Right, 0);
        lemma_dark_depth_in_dark_frame(pixels, width, height, bytes_per_row, Edge::Top, 0);
        lemma_dark_depth_in_dark_frame(pixels, width, height, bytes_per_row, Edge::Bottom, 0);
        lemma_dark_depth_bounds(pixels, width, height, bytes_per_row, Edge::Left, 0);
        lemma_dark_depth_bounds(pixels, width, height, bytes_per_row, Edge::Right, 0);
        lemma_dark_depth_bounds(pixels, width, height, bytes_per_row, Edge::Top, 0);
        lemma_dark_depth_bounds(pixels, width, height, bytes_per_row, Edge::Bottom, 0);
    }
}

} // verus!
