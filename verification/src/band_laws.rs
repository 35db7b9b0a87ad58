//! Laws of black-bar detection: what the detector reads of a frame, and how
//! it behaves under darkening, mirroring, flipping and transposition.
use vstd::prelude::*;
use crate::bars::{
    BAND_SIZE, Edge, dark_at, dark_pixel, dark_depth, detected_insets, edge_band_dark, edge_limit, frame_ok,
    grid_dark_count, horizontal_band_dark, lemma_sample_count, row_dark_count, sample_count,
    sample_step, span, vertical_band_dark,
};

verus! {

/// Byte `c` of the pixel at column `x` of row `y`: 0 is blue, 1 green, 2 red
/// and 3 alpha.
pub open spec fn channel(pixels: Seq<u8>, bytes_per_row: int, x: int, y: int, c: int) -> u8 {
    pixels[y * bytes_per_row + x * 4 + c]
}

/// The byte offset of sample `j` of the row that starts at byte `row`.
pub open spec fn row_sample(row: int, x0: int, xstep: int, j: int) -> int {
    row + (x0 + j * xstep) * 4
}

/// The byte offset at which sampled row `k` of a grid starts.
pub open spec fn grid_row(bytes_per_row: int, y0: int, ystep: int, k: int) -> int {
    (y0 + k * ystep) * bytes_per_row
}

/// The pixels of `q` have the colours of those of `p`: blue, green and red
/// agree on every pixel of the frame. Alpha, the padding at the end of each
/// row and the bytes after the frame may differ.
pub open spec fn same_colors(p: Seq<u8>, q: Seq<u8>, width: int, height: int, bytes_per_row: int) -> bool {
    forall|x: int, y: int, c: int|
        0 <= x < width && 0 <= y < height && 0 <= c < 3 ==> #[trigger] channel(q, bytes_per_row, x, y, c)
            == channel(p, bytes_per_row, x, y, c)
}

/// A row count of `q` is at least that of `p` when every sample that is
/// dark in `p` is dark in `q`.
proof fn lemma_row_count_le(p: Seq<u8>, rp: int, q: Seq<u8>, rq: int, x0: int, xstep: int, nx: nat)
    requires
        forall|j: int|
            0 <= j < nx ==> (dark_at(p, #[trigger] row_sample(rp, x0, xstep, j)) ==> dark_at(
                q,
                row_sample(rq, x0, xstep, j),
            )),
    ensures
        row_dark_count(p, rp, x0, xstep, nx) <= row_dark_count(q, rq, x0, xstep, nx),
    decreases nx,
{
    if nx > 0 {
        assert(dark_at(p, row_sample(rp, x0, xstep, nx - 1)) ==> dark_at(
            q,
            row_sample(rq, x0, xstep, nx - 1),
        ));
        lemma_row_count_le(p, rp, q, rq, x0, xstep, (nx - 1) as nat);
    }
}

/// A grid count of `q` is at least that of `p` when every sample that is
/// dark in `p` is dark in `q`.
proof fn lemma_grid_count_le(
    p: Seq<u8>,
    q: Seq<u8>,
    bytes_per_row: int,
    y0: int,
    ystep: int,
    ny: nat,
    x0: int,
    xstep: int,
    nx: nat,
)
    requires
        forall|k: int, j: int|
            0 <= k < ny && 0 <= j < nx ==> (dark_at(
                p,
                #[trigger] row_sample(grid_row(bytes_per_row, y0, ystep, k), x0, xstep, j),
            ) ==> dark_at(q, row_sample(grid_row(bytes_per_row, y0, ystep, k), x0, xstep, j))),
    ensures
        grid_dark_count(p, bytes_per_row, y0, ystep, ny, x0, xstep, nx) <= grid_dark_count(
            q,
            bytes_per_row,
            y0,
            ystep,
            ny,
            x0,
            xstep,
            nx,
        ),
    decreases ny,
{
    if ny > 0 {
        lemma_grid_count_le(p, q, bytes_per_row, y0, ystep, (ny - 1) as nat, x0, xstep, nx);
        let row = grid_row(bytes_per_row, y0, ystep, ny - 1);
        assert forall|j: int| 0 <= j < nx implies (!dark_at(p, #[trigger] row_sample(row, x0, xstep, j))
            || dark_at(q, row_sample(row, x0, xstep, j))) by {
            assert(row_sample(grid_row(bytes_per_row, y0, ystep, ny - 1), x0, xstep, j) == row_sample(
                row,
                x0,
                xstep,
                j,
            ));
        }
        lemma_row_count_le(p, row, q, row, x0, xstep, nx);
    }
}

/// Darkening the pixels of a vertical band never makes it light: if `q` is
/// nowhere brighter than `p` in any channel on the band, and the band is dark
/// in `p`, it is dark in `q`.
pub proof fn lemma_darker_vertical_band_stays_dark(
    p: Seq<u8>,
    q: Seq<u8>,
    width: int,
    height: int,
    bytes_per_row: int,
    start_x: int,
    band_width: int,
)
    requires
        0 <= start_x,
        0 <= height,
        forall|x: int, y: int, c: int|
            start_x <= x < start_x + band_width && x < width && 0 <= y < height && 0 <= c < 3
                ==> #[trigger] channel(q, bytes_per_row, x, y, c) <= channel(p, bytes_per_row, x, y, c),
    ensures
        vertical_band_dark(p, width, height, bytes_per_row, start_x, band_width) ==> vertical_band_dark(
            q,
            width,
            height,
            bytes_per_row,
            start_x,
            band_width,
        ),
{
    let step = sample_step(height);
    let ny = sample_count(height, step);
    let nx = span(start_x, band_width, width);
    lemma_sample_count(height, step, 0);
    assert forall|k: int, j: int| 0 <= k < ny && 0 <= j < nx implies (!dark_at(
        p,
        #[trigger] row_sample(grid_row(bytes_per_row, 0, step, k), start_x, 1, j),
    ) || dark_at(q, row_sample(grid_row(bytes_per_row, 0, step, k), start_x, 1, j))) by {
        lemma_sample_count(height, step, k);
        let x = start_x + j;
        let y = k * step;
        assert(row_sample(grid_row(bytes_per_row, 0, step, k), start_x, 1, j) == y * bytes_per_row
            + x * 4);
        assert(channel(q, bytes_per_row, x, y, 0) <= channel(p, bytes_per_row, x, y, 0));
        assert(channel(q, bytes_per_row, x, y, 1) <= channel(p, bytes_per_row, x, y, 1));
        assert(channel(q, bytes_per_row, x, y, 2) <= channel(p, bytes_per_row, x, y, 2));
    }
    lemma_grid_count_le(p, q, bytes_per_row, 0, step, ny as nat, start_x, 1, nx as nat);
}

/// Darkening the pixels of a horizontal band never makes it light.
pub proof fn lemma_darker_horizontal_band_stays_dark(
    p: Seq<u8>,
    q: Seq<u8>,
    width: int,
    height: int,
    bytes_per_row: int,
    start_y: int,
    band_height: int,
)
    requires
        0 <= start_y,
        0 <= width,
        forall|x: int, y: int, c: int|
            0 <= x < width && start_y <= y < start_y + band_height && y < height && 0 <= c < 3
                ==> #[trigger] channel(q, bytes_per_row, x, y, c) <= channel(p, bytes_per_row, x, y, c),
    ensures
        horizontal_band_dark(p, width, height, bytes_per_row, start_y, band_height)
            ==> horizontal_band_dark(q, width, height, bytes_per_row, start_y, band_height),
{
    let step = sample_step(width);
    let nx = sample_count(width, step);
    let ny = span(start_y, band_height, height);
    lemma_sample_count(width, step, 0);
    assert forall|k: int, j: int| 0 <= k < ny && 0 <= j < nx implies (!dark_at(
        p,
        #[trigger] row_sample(grid_row(bytes_per_row, start_y, 1, k), 0, step, j),
    ) || dark_at(q, row_sample(grid_row(bytes_per_row, start_y, 1, k), 0, step, j))) by {
        lemma_sample_count(width, step, j);
        let x = j * step;
        let y = start_y + k;
        assert(row_sample(grid_row(bytes_per_row, start_y, 1, k), 0, step, j) == y * bytes_per_row
            + x * 4);
        assert(channel(q, bytes_per_row, x, y, 0) <= channel(p, bytes_per_row, x, y, 0));
        assert(channel(q, bytes_per_row, x, y, 1) <= channel(p, bytes_per_row, x, y, 1));
        assert(channel(q, bytes_per_row, x, y, 2) <= channel(p, bytes_per_row, x, y, 2));
    }
    lemma_grid_count_le(p, q, bytes_per_row, start_y, 1, ny as nat, 0, step, nx as nat);
}

/// Frames of the same colours have the same dark bands.
proof fn lemma_same_colors_bands(
    p: Seq<u8>,
    q: Seq<u8>,
    width: int,
    height: int,
    bytes_per_row: int,
    start: int,
)
    requires
        same_colors(p, q, width, height, bytes_per_row),
        0 <= start,
        0 <= width,
        0 <= height,
    ensures
        vertical_band_dark(q, width, height, bytes_per_row, start, BAND_SIZE as int)
            == vertical_band_dark(p, width, height, bytes_per_row, start, BAND_SIZE as int),
        horizontal_band_dark(q, width, height, bytes_per_row, start, BAND_SIZE as int)
            == horizontal_band_dark(p, width, height, bytes_per_row, start, BAND_SIZE as int),
{
    let band = BAND_SIZE as int;
    lemma_darker_vertical_band_stays_dark(p, q, width, height, bytes_per_row, start, band);
    lemma_darker_vertical_band_stays_dark(q, p, width, height, bytes_per_row, start, band);
    lemma_darker_horizontal_band_stays_dark(p, q, width, height, bytes_per_row, start, band);
    lemma_darker_horizontal_band_stays_dark(q, p, width, height, bytes_per_row, start, band);
}

/// Frames of the same colours are scanned equally deep from every edge.
proof fn lemma_same_colors_depth(
    p: Seq<u8>,
    q: Seq<u8>,
    width: int,
    height: int,
    bytes_per_row: int,
    edge: Edge,
    depth: int,
)
    requires
        same_colors(p, q, width, height, bytes_per_row),
        0 <= width,
        0 <= height,
        0 <= depth <= edge_limit(width, height, edge),
    ensures
        dark_depth(q, width, height, bytes_per_row, edge, depth) == dark_depth(
            p,
            width,
            height,
            bytes_per_row,
            edge,
            depth,
        ),
    decreases edge_limit(width, height, edge) - depth,
{
    let band = BAND_SIZE as int;
    if depth + band <= edge_limit(width, height, edge) {
        match edge {
            Edge::Left => lemma_same_colors_bands(p, q, width, height, bytes_per_row, depth),
            Edge::Right => lemma_same_colors_bands(
                p,
                q,
                width,
                height,
                bytes_per_row,
                width - depth - band,
            ),
            Edge::Top => lemma_same_colors_bands(p, q, width, height, bytes_per_row, depth),
            Edge::Bottom => lemma_same_colors_bands(
                p,
                q,
                width,
                height,
                bytes_per_row,
                height - depth - band,
            ),
        }
        lemma_same_colors_depth(p, q, width, height, bytes_per_row, edge, depth + band);
    }
}

/// The detector reads only the colour channels of the frame's pixels: alpha
/// bytes, the padding at the end of each row and the bytes after the frame
/// never change the detected insets.
pub proof fn lemma_detection_reads_only_colors(
    p: Seq<u8>,
    q: Seq<u8>,
    width: int,
    height: int,
    bytes_per_row: int,
)
    requires
        p.len() == q.len(),
        0 <= width,
        0 <= height,
        same_colors(p, q, width, height, bytes_per_row),
    ensures
        detected_insets(q, width, height, bytes_per_row) == detected_insets(
            p,
            width,
            height,
            bytes_per_row,
        ),
{
    if frame_ok(p.len() as int, width, height, bytes_per_row) {
        lemma_same_colors_depth(p, q, width, height, bytes_per_row, Edge::Left, 0);
        lemma_same_colors_depth(p, q, width, height, bytes_per_row, Edge::Right, 0);
        lemma_same_colors_depth(p, q, width, height, bytes_per_row, Edge::Top, 0);
        lemma_same_colors_depth(p, q, width, height, bytes_per_row, Edge::Bottom, 0);
    }
}

/// One when `b` holds, zero otherwise.
pub open spec fn bit(b: bool) -> nat {
    if b {
        1
    } else {
        0
    }
}

/// `q` is `p` mirrored left to right: the colours of column `x` of `p` are
/// those of column `width - 1 - x` of `q`, on every row.
pub open spec fn mirrored(p: Seq<u8>, q: Seq<u8>, width: int, height: int, bytes_per_row: int) -> bool {
    forall|x: int, y: int, c: int|
        0 <= x < width && 0 <= y < height && 0 <= c < 3 ==> channel(q, bytes_per_row, width - 1 - x, y, c)
            == #[trigger] channel(p, bytes_per_row, x, y, c)
}

/// `q` is `p` flipped top to bottom: the colours of row `y` of `p` are those
/// of row `height - 1 - y` of `q`, on every column.
pub open spec fn flipped(p: Seq<u8>, q: Seq<u8>, width: int, height: int, bytes_per_row: int) -> bool {
    forall|x: int, y: int, c: int|
        0 <= x < width && 0 <= y < height && 0 <= c < 3 ==> channel(q, bytes_per_row, x, height - 1 - y, c)
            == #[trigger] channel(p, bytes_per_row, x, y, c)
}

/// A row of four consecutive samples, written out.
proof fn lemma_row_of_four(p: Seq<u8>, row: int, x0: int)
    ensures
        row_dark_count(p, row, x0, 1, 4) == bit(dark_at(p, row + x0 * 4)) + bit(
            dark_at(p, row + (x0 + 1) * 4),
        ) + bit(dark_at(p, row + (x0 + 2) * 4)) + bit(dark_at(p, row + (x0 + 3) * 4)),
{
    reveal_with_fuel(row_dark_count, 5);
}

/// Mirroring maps the pixel at column `x` to column `width - 1 - x`.
proof fn lemma_mirror_pixel(p: Seq<u8>, q: Seq<u8>, width: int, height: int, bytes_per_row: int, x: int, y: int)
    requires
        mirrored(p, q, width, height, bytes_per_row),
        0 <= x < width,
        0 <= y < height,
    ensures
        dark_at(q, y * bytes_per_row + (width - 1 - x) * 4) == dark_at(p, y * bytes_per_row + x * 4),
{
    assert(channel(p, bytes_per_row, x, y, 0) == channel(q, bytes_per_row, width - 1 - x, y, 0));
    assert(channel(p, bytes_per_row, x, y, 1) == channel(q, bytes_per_row, width - 1 - x, y, 1));
    assert(channel(p, bytes_per_row, x, y, 2) == channel(q, bytes_per_row, width - 1 - x, y, 2));
}

/// Flipping maps the pixel at row `y` to row `height - 1 - y`.
proof fn lemma_flip_pixel(p: Seq<u8>, q: Seq<u8>, width: int, height: int, bytes_per_row: int, x: int, y: int)
    requires
        flipped(p, q, width, height, bytes_per_row),
        0 <= x < width,
        0 <= y < height,
    ensures
        dark_at(q, (height - 1 - y) * bytes_per_row + x * 4) == dark_at(p, y * bytes_per_row + x * 4),
{
    assert(channel(p, bytes_per_row, x, y, 0) == channel(q, bytes_per_row, x, height - 1 - y, 0));
    assert(channel(p, bytes_per_row, x, y, 1) == channel(q, bytes_per_row, x, height - 1 - y, 1));
    assert(channel(p, bytes_per_row, x, y, 2) == channel(q, bytes_per_row, x, height - 1 - y, 2));
}

/// The sampled rows of a vertical band at `start` in a mirrored frame count
/// as many dark pixels as those of the band at `width - start - 4` in the frame.
proof fn lemma_mirror_columns(
    p: Seq<u8>,
    q: Seq<u8>,
    width: int,
    height: int,
    bytes_per_row: int,
    step: int,
    ny: nat,
    start: int,
)
    requires
        mirrored(p, q, width, height, bytes_per_row),
        0 <= start,
        start + 4 <= width,
        step >= 0,
        ny > 0 ==> (ny - 1) * step < height,
    ensures
        grid_dark_count(q, bytes_per_row, 0, step, ny, start, 1, 4) == grid_dark_count(
            p,
            bytes_per_row,
            0,
            step,
            ny,
            width - start - 4,
            1,
            4,
        ),
    decreases ny,
{
    if ny > 0 {
        assert(0 <= (ny - 1) * step) by (nonlinear_arith)
            requires
                ny >= 1,
                step >= 0,
        ;
        if ny > 1 {
            assert((ny - 2) * step <= (ny - 1) * step) by (nonlinear_arith)
                requires
                    ny >= 2,
                    step >= 0,
            ;
        }
        lemma_mirror_columns(p, q, width, height, bytes_per_row, step, (ny - 1) as nat, start);
        let y = (ny - 1) * step;
        let row = (0 + (ny - 1) * step) * bytes_per_row;
        assert(row == y * bytes_per_row);
        let other = width - start - 4;
        lemma_row_of_four(q, row, start);
        lemma_row_of_four(p, row, other);
        lemma_mirror_pixel(p, q, width, height, bytes_per_row, other, y);
        lemma_mirror_pixel(p, q, width, height, bytes_per_row, other + 1, y);
        lemma_mirror_pixel(p, q, width, height, bytes_per_row, other + 2, y);
        lemma_mirror_pixel(p, q, width, height, bytes_per_row, other + 3, y);
    }
}

/// A vertical band of a mirrored frame is dark exactly when the mirror-image
/// band of the frame is.
proof fn lemma_mirror_vertical_band(
    p: Seq<u8>,
    q: Seq<u8>,
    width: int,
    height: int,
    bytes_per_row: int,
    start: int,
)
    requires
        mirrored(p, q, width, height, bytes_per_row),
        0 <= start,
        start + 4 <= width,
        0 <= height,
    ensures
        vertical_band_dark(q, width, height, bytes_per_row, start, BAND_SIZE as int)
            == vertical_band_dark(p, width, height, bytes_per_row, width - start - 4, BAND_SIZE as int),
{
    let step = sample_step(height);
    let ny = sample_count(height, step);
    lemma_sample_count(height, step, 0);
    if ny > 0 {
        lemma_sample_count(height, step, ny - 1);
    }
    assert(span(start, BAND_SIZE as int, width) == 4);
    assert(span(width - start - 4, BAND_SIZE as int, width) == 4);
    lemma_mirror_columns(p, q, width, height, bytes_per_row, step, ny as nat, start);
}

/// In a mirrored frame the scan from the left goes as deep as the scan from
/// the right of the frame, and the other way round.
proof fn lemma_mirror_depths(
    p: Seq<u8>,
    q: Seq<u8>,
    width: int,
    height: int,
    bytes_per_row: int,
    depth: int,
)
    requires
        mirrored(p, q, width, height, bytes_per_row),
        0 <= depth <= width / 3,
        0 <= height,
    ensures
        dark_depth(q, width, height, bytes_per_row, Edge::Left, depth) == dark_depth(
            p,
            width,
            height,
            bytes_per_row,
            Edge::Right,
            depth,
        ),
        dark_depth(q, width, height, bytes_per_row, Edge::Right, depth) == dark_depth(
            p,
            width,
            height,
            bytes_per_row,
            Edge::Left,
            depth,
        ),
    decreases width / 3 - depth,
{
    if depth + BAND_SIZE <= width / 3 {
        lemma_mirror_vertical_band(p, q, width, height, bytes_per_row, depth);
        lemma_mirror_vertical_band(p, q, width, height, bytes_per_row, width - depth - 4);
        assert(edge_band_dark(q, width, height, bytes_per_row, Edge::Left, depth) == edge_band_dark(
            p,
            width,
            height,
            bytes_per_row,
            Edge::Right,
            depth,
        ));
        assert(edge_band_dark(q, width, height, bytes_per_row, Edge::Right, depth) == edge_band_dark(
            p,
            width,
            height,
            bytes_per_row,
            Edge::Left,
            depth,
        ));
        lemma_mirror_depths(p, q, width, height, bytes_per_row, depth + BAND_SIZE);
    }
}

/// Mirroring a frame left to right swaps the detected left and right bars.
pub proof fn lemma_mirror_swaps_left_and_right(
    p: Seq<u8>,
    q: Seq<u8>,
    width: int,
    height: int,
    bytes_per_row: int,
)
    requires
        p.len() == q.len(),
        0 <= width,
        0 <= height,
        mirrored(p, q, width, height, bytes_per_row),
    ensures
        ({
            let a = detected_insets(p, width, height, bytes_per_row);
            let m = detected_insets(q, width, height, bytes_per_row);
            m.left == a.right && m.right == a.left && m.width == a.width && m.height == a.height
        }),
{
    if frame_ok(p.len() as int, width, height, bytes_per_row) {
        lemma_mirror_depths(p, q, width, height, bytes_per_row, 0);
    }
}

/// A sampled row of a flipped frame counts as many dark pixels as the
/// matching row of the frame.
proof fn lemma_flip_row(
    p: Seq<u8>,
    q: Seq<u8>,
    width: int,
    height: int,
    bytes_per_row: int,
    y: int,
    step: int,
    nx: nat,
)
    requires
        flipped(p, q, width, height, bytes_per_row),
        0 <= y < height,
        step >= 0,
        nx > 0 ==> (nx - 1) * step < width,
    ensures
        row_dark_count(q, (height - 1 - y) * bytes_per_row, 0, step, nx) == row_dark_count(
            p,
            y * bytes_per_row,
            0,
            step,
            nx,
        ),
{
    let rq = (height - 1 - y) * bytes_per_row;
    let rp = y * bytes_per_row;
    assert forall|j: int| 0 <= j < nx implies #[trigger] row_sample(rp, 0, step, j) == rp + (j
        * step) * 4 && dark_at(q, row_sample(rq, 0, step, j)) == dark_at(
        p,
        row_sample(rp, 0, step, j),
    ) by {
        assert(0 <= j * step <= (nx - 1) * step) by (nonlinear_arith)
            requires
                0 <= j < nx,
                step >= 0,
        ;
        lemma_flip_pixel(p, q, width, height, bytes_per_row, j * step, y);
    }
    lemma_row_count_le(p, rp, q, rq, 0, step, nx);
    assert forall|j: int| 0 <= j < nx implies (!dark_at(q, #[trigger] row_sample(rq, 0, step, j))
        || dark_at(p, row_sample(rp, 0, step, j))) by {
        assert(row_sample(rp, 0, step, j) == rp + (j * step) * 4);
    }
    lemma_row_count_le(q, rq, p, rp, 0, step, nx);
}

/// A horizontal band of a flipped frame is dark exactly when the mirror-image
/// band of the frame is.
proof fn lemma_flip_horizontal_band(
    p: Seq<u8>,
    q: Seq<u8>,
    width: int,
    height: int,
    bytes_per_row: int,
    start: int,
)
    requires
        flipped(p, q, width, height, bytes_per_row),
        0 <= start,
        start + 4 <= height,
        0 <= width,
    ensures
        horizontal_band_dark(q, width, height, bytes_per_row, start, BAND_SIZE as int)
            == horizontal_band_dark(p, width, height, bytes_per_row, height - start - 4, BAND_SIZE as int),
{
    let step = sample_step(width);
    let nx = sample_count(width, step);
    lemma_sample_count(width, step, 0);
    if nx > 0 {
        lemma_sample_count(width, step, nx - 1);
    }
    assert(span(start, BAND_SIZE as int, height) == 4);
    assert(span(height - start - 4, BAND_SIZE as int, height) == 4);
    let other = height - start - 4;
    lemma_flip_row(p, q, width, height, bytes_per_row, other, step, nx as nat);
    lemma_flip_row(p, q, width, height, bytes_per_row, other + 1, step, nx as nat);
    lemma_flip_row(p, q, width, height, bytes_per_row, other + 2, step, nx as nat);
    lemma_flip_row(p, q, width, height, bytes_per_row, other + 3, step, nx as nat);
    reveal_with_fuel(grid_dark_count, 5);
    assert(grid_dark_count(q, bytes_per_row, start, 1, 4, 0, step, nx as nat) == grid_dark_count(
        p,
        bytes_per_row,
        other,
        1,
        4,
        0,
        step,
        nx as nat,
    ));
}

/// In a flipped frame the scan from the top goes as deep as the scan from
/// the bottom of the frame, and the other way round.
proof fn lemma_flip_depths(
    p: Seq<u8>,
    q: Seq<u8>,
    width: int,
    height: int,
    bytes_per_row: int,
    depth: int,
)
    requires
        flipped(p, q, width, height, bytes_per_row),
        0 <= depth <= height / 3,
        0 <= width,
    ensures
        dark_depth(q, width, height, bytes_per_row, Edge::Top, depth) == dark_depth(
            p,
            width,
            height,
            bytes_per_row,
            Edge::Bottom,
            depth,
        ),
        dark_depth(q, width, height, bytes_per_row, Edge::Bottom, depth) == dark_depth(
            p,
            width,
            height,
            bytes_per_row,
            Edge::Top,
            depth,
        ),
    decreases height / 3 - depth,
{
    if depth + BAND_SIZE <= height / 3 {
        lemma_flip_horizontal_band(p, q, width, height, bytes_per_row, depth);
        lemma_flip_horizontal_band(p, q, width, height, bytes_per_row, height - depth - 4);
        assert(edge_band_dark(q, width, height, bytes_per_row, Edge::Top, depth) == edge_band_dark(
            p,
            width,
            height,
            bytes_per_row,
            Edge::Bottom,
            depth,
        ));
        assert(edge_band_dark(q, width, height, bytes_per_row, Edge::Bottom, depth) == edge_band_dark(
            p,
            width,
            height,
            bytes_per_row,
            Edge::Top,
            depth,
        ));
        lemma_flip_depths(p, q, width, height, bytes_per_row, depth + BAND_SIZE);
    }
}

/// Flipping a frame top to bottom swaps the detected top and bottom bars.
pub proof fn lemma_flip_swaps_top_and_bottom(
    p: Seq<u8>,
    q: Seq<u8>,
    width: int,
    height: int,
    bytes_per_row: int,
)
    requires
        p.len() == q.len(),
        0 <= width,
        0 <= height,
        flipped(p, q, width, height, bytes_per_row),
    ensures
        ({
            let a = detected_insets(p, width, height, bytes_per_row);
            let f = detected_insets(q, width, height, bytes_per_row);
            f.top == a.bottom && f.bottom == a.top && f.width == a.width && f.height == a.height
        }),
{
    if frame_ok(p.len() as int, width, height, bytes_per_row) {
        lemma_flip_depths(p, q, width, height, bytes_per_row, 0);
    }
}

/// `t` is `p` transposed: the colours of the pixel at column `x` of row `y`
/// of `p` are those of the pixel at column `y` of row `x` of `t`, whose rows
/// are `transposed_bytes_per_row` bytes apart.
pub open spec fn transposed(
    p: Seq<u8>,
    t: Seq<u8>,
    width: int,
    height: int,
    bytes_per_row: int,
    transposed_bytes_per_row: int,
) -> bool {
    forall|x: int, y: int, c: int|
        0 <= x < width && 0 <= y < height && 0 <= c < 3 ==> channel(t, transposed_bytes_per_row, y, x, c)
            == #[trigger] channel(p, bytes_per_row, x, y, c)
}

/// `g(k, 0) + ... + g(k, b - 1)`.
pub open spec fn row_sum(g: spec_fn(int, int) -> nat, k: int, b: nat) -> nat
    decreases b,
{
    if b == 0 {
        0
    } else {
        row_sum(g, k, (b - 1) as nat) + g(k, b - 1)
    }
}

/// `g(0, j) + ... + g(a - 1, j)`.
pub open spec fn column_sum(g: spec_fn(int, int) -> nat, j: int, a: nat) -> nat
    decreases a,
{
    if a == 0 {
        0
    } else {
        column_sum(g, j, (a - 1) as nat) + g(a - 1, j)
    }
}

/// The sum of `g` over `a` rows of `b` columns, row by row.
pub open spec fn sum_by_rows(g: spec_fn(int, int) -> nat, a: nat, b: nat) -> nat
    decreases a,
{
    if a == 0 {
        0
    } else {
        sum_by_rows(g, (a - 1) as nat, b) + row_sum(g, a - 1, b)
    }
}

/// The sum of `g` over `a` rows of `b` columns, column by column.
pub open spec fn sum_by_columns(g: spec_fn(int, int) -> nat, a: nat, b: nat) -> nat
    decreases b,
{
    if b == 0 {
        0
    } else {
        sum_by_columns(g, a, (b - 1) as nat) + column_sum(g, b - 1, a)
    }
}

proof fn lemma_sum_by_columns_last_row(g: spec_fn(int, int) -> nat, a: nat, b: nat)
    requires
        a > 0,
    ensures
        sum_by_columns(g, a, b) == sum_by_columns(g, (a - 1) as nat, b) + row_sum(g, a - 1, b),
    decreases b,
{
    if b > 0 {
        lemma_sum_by_columns_last_row(g, a, (b - 1) as nat);
    }
}

proof fn lemma_sum_by_columns_no_rows(g: spec_fn(int, int) -> nat, b: nat)
    ensures
        sum_by_columns(g, 0, b) == 0,
    decreases b,
{
    if b > 0 {
        lemma_sum_by_columns_no_rows(g, (b - 1) as nat);
    }
}

/// A finite double sum does not depend on the order of summation.
proof fn lemma_sum_order(g: spec_fn(int, int) -> nat, a: nat, b: nat)
    ensures
        sum_by_rows(g, a, b) == sum_by_columns(g, a, b),
    decreases a,
{
    if a > 0 {
        lemma_sum_order(g, (a - 1) as nat, b);
        lemma_sum_by_columns_last_row(g, a, b);
    } else {
        lemma_sum_by_columns_no_rows(g, b);
    }
}

/// The rows of `h` are the columns of `g`.
proof fn lemma_rows_of_transpose(
    g: spec_fn(int, int) -> nat,
    h: spec_fn(int, int) -> nat,
    a: nat,
    b: nat,
)
    requires
        forall|i: int, k: int| 0 <= i < a && 0 <= k < b ==> #[trigger] h(i, k) == g(k, i),
    ensures
        sum_by_rows(h, a, b) == sum_by_columns(g, b, a),
    decreases a,
{
    if a > 0 {
        lemma_rows_of_transpose(g, h, (a - 1) as nat, b);
        lemma_row_is_column(g, h, a - 1, b);
    }
}

proof fn lemma_row_is_column(g: spec_fn(int, int) -> nat, h: spec_fn(int, int) -> nat, i: int, b: nat)
    requires
        forall|k: int| 0 <= k < b ==> #[trigger] h(i, k) == g(k, i),
    ensures
        row_sum(h, i, b) == column_sum(g, i, b),
    decreases b,
{
    if b > 0 {
        lemma_row_is_column(g, h, i, (b - 1) as nat);
    }
}

/// A grid count is the row-by-row sum of its samples.
proof fn lemma_grid_as_sum(
    p: Seq<u8>,
    bytes_per_row: int,
    y0: int,
    ystep: int,
    ny: nat,
    x0: int,
    xstep: int,
    nx: nat,
    g: spec_fn(int, int) -> nat,
)
    requires
        forall|k: int, j: int|
            #[trigger] g(k, j) == bit(
                dark_at(p, row_sample(grid_row(bytes_per_row, y0, ystep, k), x0, xstep, j)),
            ),
    ensures
        grid_dark_count(p, bytes_per_row, y0, ystep, ny, x0, xstep, nx) == sum_by_rows(g, ny, nx),
    decreases ny,
{
    if ny > 0 {
        lemma_grid_as_sum(p, bytes_per_row, y0, ystep, (ny - 1) as nat, x0, xstep, nx, g);
        lemma_row_as_sum(p, grid_row(bytes_per_row, y0, ystep, ny - 1), x0, xstep, nx, g, ny - 1);
    }
}

proof fn lemma_row_as_sum(
    p: Seq<u8>,
    row: int,
    x0: int,
    xstep: int,
    nx: nat,
    g: spec_fn(int, int) -> nat,
    k: int,
)
    requires
        forall|j: int| #[trigger] g(k, j) == bit(dark_at(p, row_sample(row, x0, xstep, j))),
    ensures
        row_dark_count(p, row, x0, xstep, nx) == row_sum(g, k, nx),
    decreases nx,
{
    if nx > 0 {
        lemma_row_as_sum(p, row, x0, xstep, (nx - 1) as nat, g, k);
        assert(g(k, nx - 1) == bit(dark_at(p, row_sample(row, x0, xstep, nx - 1))));
    }
}

/// A horizontal band of a transposed frame is dark exactly when the vertical
/// band at the same place of the frame is: the two sample the same pixels.
pub proof fn lemma_transposed_bands(
    p: Seq<u8>,
    t: Seq<u8>,
    width: int,
    height: int,
    bytes_per_row: int,
    transposed_bytes_per_row: int,
    start: int,
    band: int,
)
    requires
        transposed(p, t, width, height, bytes_per_row, transposed_bytes_per_row),
        0 <= start,
        0 <= height,
    ensures
        horizontal_band_dark(t, height, width, transposed_bytes_per_row, start, band)
            == vertical_band_dark(p, width, height, bytes_per_row, start, band),
{
    let tb = transposed_bytes_per_row;
    let step = sample_step(height);
    let rows = sample_count(height, step);
    let columns = span(start, band, width);
    lemma_sample_count(height, step, 0);
    let gp = |k: int, j: int|
        bit(dark_at(p, row_sample(grid_row(bytes_per_row, 0, step, k), start, 1, j)));
    let gt = |i: int, k: int| bit(dark_at(t, row_sample(grid_row(tb, start, 1, i), 0, step, k)));
    lemma_grid_as_sum(p, bytes_per_row, 0, step, rows as nat, start, 1, columns as nat, gp);
    lemma_grid_as_sum(t, tb, start, 1, columns as nat, 0, step, rows as nat, gt);
    assert forall|i: int, k: int| 0 <= i < columns && 0 <= k < rows implies #[trigger] gt(i, k) == gp(
        k,
        i,
    ) by {
        lemma_sample_count(height, step, k);
        let x = start + i;
        let y = k * step;
        assert(channel(p, bytes_per_row, x, y, 0) == channel(t, tb, y, x, 0));
        assert(channel(p, bytes_per_row, x, y, 1) == channel(t, tb, y, x, 1));
        assert(channel(p, bytes_per_row, x, y, 2) == channel(t, tb, y, x, 2));
        assert(row_sample(grid_row(tb, start, 1, i), 0, step, k) == x * tb + y * 4);
        assert(row_sample(grid_row(bytes_per_row, 0, step, k), start, 1, i) == y * bytes_per_row + x
            * 4);
    }
    lemma_rows_of_transpose(gp, gt, columns as nat, rows as nat);
    lemma_sum_order(gp, rows as nat, columns as nat);
    assert(columns * rows == rows * columns) by (nonlinear_arith);
}

/// A letterboxed picture: rows `0..top` and `height - bottom..height` of the
/// frame are black, and no pixel of the rows between is dark.
pub open spec fn letterboxed(
    p: Seq<u8>,
    width: int,
    height: int,
    bytes_per_row: int,
    top: int,
    bottom: int,
) -> bool {
    forall|x: int, y: int|
        0 <= x < width && 0 <= y < height ==> (#[trigger] dark_pixel(p, bytes_per_row, x, y) <==> (y
            < top || y >= height - bottom))
}

/// A pillarboxed picture: columns `0..left` and `width - right..width` of the
/// frame are black, and no pixel of the columns between is dark.
pub open spec fn pillarboxed(
    p: Seq<u8>,
    width: int,
    height: int,
    bytes_per_row: int,
    left: int,
    right: int,
) -> bool {
    forall|x: int, y: int|
        0 <= x < width && 0 <= y < height ==> (#[trigger] dark_pixel(p, bytes_per_row, x, y) <==> (x
            < left || x >= width - right))
}

/// A row sampled every `step` columns whose pixels are all dark, or all
/// light, counts all or none of its samples.
proof fn lemma_uniform_row(
    p: Seq<u8>,
    bytes_per_row: int,
    width: int,
    y: int,
    step: int,
    nx: nat,
    dark: bool,
)
    requires
        step >= 0,
        nx > 0 ==> (nx - 1) * step < width,
        forall|x: int| 0 <= x < width ==> #[trigger] dark_pixel(p, bytes_per_row, x, y) == dark,
    ensures
        row_dark_count(p, y * bytes_per_row, 0, step, nx) == if dark {
            nx
        } else {
            0
        },
    decreases nx,
{
    if nx > 0 {
        assert(0 <= (nx - 1) * step) by (nonlinear_arith)
            requires
                nx >= 1,
                step >= 0,
        ;
        if nx > 1 {
            assert((nx - 2) * step <= (nx - 1) * step) by (nonlinear_arith)
                requires
                    nx >= 2,
                    step >= 0,
            ;
        }
        lemma_uniform_row(p, bytes_per_row, width, y, step, (nx - 1) as nat, dark);
        assert(dark_pixel(p, bytes_per_row, (nx - 1) * step, y) == dark);
    }
}

/// In a letterboxed frame a horizontal band is dark exactly when its four
/// rows all lie in the bars.
proof fn lemma_letterbox_band(
    p: Seq<u8>,
    width: int,
    height: int,
    bytes_per_row: int,
    top: int,
    bottom: int,
    start: int,
)
    requires
        letterboxed(p, width, height, bytes_per_row, top, bottom),
        width >= 1,
        0 <= start,
        start + 4 <= height,
    ensures
        horizontal_band_dark(p, width, height, bytes_per_row, start, BAND_SIZE as int) == ((start
            < top || start >= height - bottom) && (start + 1 < top || start + 1 >= height - bottom)
            && (start + 2 < top || start + 2 >= height - bottom) && (start + 3 < top || start + 3
            >= height - bottom)),
{
    let step = sample_step(width);
    let nx = sample_count(width, step);
    lemma_sample_count(width, step, 0);
    lemma_sample_count(width, step, nx - 1);
    assert(span(start, BAND_SIZE as int, height) == 4);
    let bar0 = start < top || start >= height - bottom;
    let bar1 = start + 1 < top || start + 1 >= height - bottom;
    let bar2 = start + 2 < top || start + 2 >= height - bottom;
    let bar3 = start + 3 < top || start + 3 >= height - bottom;
    lemma_uniform_row(p, bytes_per_row, width, start, step, nx as nat, bar0);
    lemma_uniform_row(p, bytes_per_row, width, start + 1, step, nx as nat, bar1);
    lemma_uniform_row(p, bytes_per_row, width, start + 2, step, nx as nat, bar2);
    lemma_uniform_row(p, bytes_per_row, width, start + 3, step, nx as nat, bar3);
    reveal_with_fuel(grid_dark_count, 5);
    let count = grid_dark_count(p, bytes_per_row, start, 1, 4, 0, step, nx as nat);
    assert(count == bit(bar0) * nx + bit(bar1) * nx + bit(bar2) * nx + bit(bar3) * nx);
}

/// In a pillarboxed frame every sampled row of a vertical band counts the
/// same number of dark pixels.
proof fn lemma_pillarbox_columns(
    p: Seq<u8>,
    width: int,
    height: int,
    bytes_per_row: int,
    left: int,
    right: int,
    start: int,
    step: int,
    ny: nat,
)
    requires
        pillarboxed(p, width, height, bytes_per_row, left, right),
        0 <= start,
        start + 4 <= width,
        step >= 0,
        ny > 0 ==> (ny - 1) * step < height,
    ensures
        grid_dark_count(p, bytes_per_row, 0, step, ny, start, 1, 4) == ny * (bit(
            start < left || start >= width - right,
        ) + bit(start + 1 < left || start + 1 >= width - right) + bit(
            start + 2 < left || start + 2 >= width - right,
        ) + bit(start + 3 < left || start + 3 >= width - right)),
    decreases ny,
{
    let c = bit(start < left || start >= width - right) + bit(
        start + 1 < left || start + 1 >= width - right,
    ) + bit(start + 2 < left || start + 2 >= width - right) + bit(
        start + 3 < left || start + 3 >= width - right,
    );
    if ny > 0 {
        assert(0 <= (ny - 1) * step) by (nonlinear_arith)
            requires
                ny >= 1,
                step >= 0,
        ;
        if ny > 1 {
            assert((ny - 2) * step <= (ny - 1) * step) by (nonlinear_arith)
                requires
                    ny >= 2,
                    step >= 0,
            ;
        }
        lemma_pillarbox_columns(p, width, height, bytes_per_row, left, right, start, step, (ny - 1) as nat);
        let y = (ny - 1) * step;
        let row = (0 + (ny - 1) * step) * bytes_per_row;
        assert(row == y * bytes_per_row);
        lemma_row_of_four(p, row, start);
        assert(dark_pixel(p, bytes_per_row, start, y) == (start < left || start >= width - right));
        assert(dark_pixel(p, bytes_per_row, start + 1, y) == (start + 1 < left || start + 1 >= width - right));
        assert(dark_pixel(p, bytes_per_row, start + 2, y) == (start + 2 < left || start + 2 >= width - right));
        assert(dark_pixel(p, bytes_per_row, start + 3, y) == (start + 3 < left || start + 3 >= width - right));
        assert(((ny - 1) as nat) * c + c == ny * c) by (nonlinear_arith)
            requires
                ny >= 1,
        ;
    } else {
        assert(ny * c == 0) by (nonlinear_arith)
            requires
                ny == 0,
        ;
    }
}

/// In a pillarboxed frame a vertical band is dark exactly when its four
/// columns all lie in the bars.
proof fn lemma_pillarbox_band(
    p: Seq<u8>,
    width: int,
    height: int,
    bytes_per_row: int,
    left: int,
    right: int,
    start: int,
)
    requires
        pillarboxed(p, width, height, bytes_per_row, left, right),
        height >= 1,
        0 <= start,
        start + 4 <= width,
    ensures
        vertical_band_dark(p, width, height, bytes_per_row, start, BAND_SIZE as int) == ((start
            < left || start >= width - right) && (start + 1 < left || start + 1 >= width - right)
            && (start + 2 < left || start + 2 >= width - right) && (start + 3 < left || start + 3
            >= width - right)),
{
    let step = sample_step(height);
    let ny = sample_count(height, step);
    lemma_sample_count(height, step, 0);
    lemma_sample_count(height, step, ny - 1);
    assert(span(start, BAND_SIZE as int, width) == 4);
    lemma_pillarbox_columns(p, width, height, bytes_per_row, left, right, start, step, ny as nat);
    let c = bit(start < left || start >= width - right) + bit(
        start + 1 < left || start + 1 >= width - right,
    ) + bit(start + 2 < left || start + 2 >= width - right) + bit(
        start + 3 < left || start + 3 >= width - right,
    );
    assert(0 <= c <= 4);
    assert((ny * c) * 100 >= (ny * 4) * 98 <==> c == 4) by (nonlinear_arith)
        requires
            ny >= 1,
            0 <= c <= 4,
    ;
}

/// The scan from the top of a letterboxed frame stops at the top bar's
/// depth, rounded down to whole bands.
proof fn lemma_letterbox_top_depth(
    p: Seq<u8>,
    width: int,
    height: int,
    bytes_per_row: int,
    top: int,
    bottom: int,
    depth: int,
)
    requires
        letterboxed(p, width, height, bytes_per_row, top, bottom),
        width >= 1,
        0 <= top,
        0 <= bottom,
        3 * top < height,
        top + bottom < height,
        0 <= depth <= top - top % 4,
        depth % 4 == 0,
    ensures
        dark_depth(p, width, height, bytes_per_row, Edge::Top, depth) == top - top % 4,
    decreases top - depth,
{
    if depth < top - top % 4 {
        lemma_letterbox_band(p, width, height, bytes_per_row, top, bottom, depth);
        lemma_letterbox_top_depth(p, width, height, bytes_per_row, top, bottom, depth + 4);
    } else if depth + 4 <= height / 3 {
        lemma_letterbox_band(p, width, height, bytes_per_row, top, bottom, depth);
    }
}

/// The scan from the bottom of a letterboxed frame stops at the bottom bar's
/// depth, rounded down to whole bands.
proof fn lemma_letterbox_bottom_depth(
    p: Seq<u8>,
    width: int,
    height: int,
    bytes_per_row: int,
    top: int,
    bottom: int,
    depth: int,
)
    requires
        letterboxed(p, width, height, bytes_per_row, top, bottom),
        width >= 1,
        0 <= top,
        0 <= bottom,
        3 * bottom < height,
        top + bottom < height,
        0 <= depth <= bottom - bottom % 4,
        depth % 4 == 0,
    ensures
        dark_depth(p, width, height, bytes_per_row, Edge::Bottom, depth) == bottom - bottom % 4,
    decreases bottom - depth,
{
    if depth < bottom - bottom % 4 {
        lemma_letterbox_band(p, width, height, bytes_per_row, top, bottom, height - depth - 4);
        lemma_letterbox_bottom_depth(p, width, height, bytes_per_row, top, bottom, depth + 4);
    } else if depth + 4 <= height / 3 {
        lemma_letterbox_band(p, width, height, bytes_per_row, top, bottom, height - depth - 4);
    }
}

/// The scan from the left of a pillarboxed frame stops at the left bar's
/// width, rounded down to whole bands.
proof fn lemma_pillarbox_left_depth(
    p: Seq<u8>,
    width: int,
    height: int,
    bytes_per_row: int,
    left: int,
    right: int,
    depth: int,
)
    requires
        pillarboxed(p, width, height, bytes_per_row, left, right),
        height >= 1,
        0 <= left,
        0 <= right,
        3 * left < width,
        left + right < width,
        0 <= depth <= left - left % 4,
        depth % 4 == 0,
    ensures
        dark_depth(p, width, height, bytes_per_row, Edge::Left, depth) == left - left % 4,
    decreases left - depth,
{
    if depth < left - left % 4 {
        lemma_pillarbox_band(p, width, height, bytes_per_row, left, right, depth);
        lemma_pillarbox_left_depth(p, width, height, bytes_per_row, left, right, depth + 4);
    } else if depth + 4 <= width / 3 {
        lemma_pillarbox_band(p, width, height, bytes_per_row, left, right, depth);
    }
}

/// The scan from the right of a pillarboxed frame stops at the right bar's
/// width, rounded down to whole bands.
proof fn lemma_pillarbox_right_depth(
    p: Seq<u8>,
    width: int,
    height: int,
    bytes_per_row: int,
    left: int,
    right: int,
    depth: int,
)
    requires
        pillarboxed(p, width, height, bytes_per_row, left, right),
        height >= 1,
        0 <= left,
        0 <= right,
        3 * right < width,
        left + right < width,
        0 <= depth <= right - right % 4,
        depth % 4 == 0,
    ensures
        dark_depth(p, width, height, bytes_per_row, Edge::Right, depth) == right - right % 4,
    decreases right - depth,
{
    if depth < right - right % 4 {
        lemma_pillarbox_band(p, width, height, bytes_per_row, left, right, width - depth - 4);
        lemma_pillarbox_right_depth(p, width, height, bytes_per_row, left, right, depth + 4);
    } else if depth + 4 <= width / 3 {
        lemma_pillarbox_band(p, width, height, bytes_per_row, left, right, width - depth - 4);
    }
}

/// Letterbox bars are found: in a frame whose picture rows span the full
/// width between a black bar at the top and one at the bottom, each bar under
/// a third of the height and the two together at most half of it, the
/// detected top and bottom insets are the bars' heights rounded down to
/// whole bands of four rows, or zero for a bar under 1% of the height.
pub proof fn lemma_letterbox_bars_detected(
    p: Seq<u8>,
    width: int,
    height: int,
    bytes_per_row: int,
    top: int,
    bottom: int,
)
    requires
        64 <= width <= u64::MAX,
        64 <= height <= u64::MAX,
        bytes_per_row >= width * 4,
        p.len() >= bytes_per_row * height,
        letterboxed(p, width, height, bytes_per_row, top, bottom),
        0 <= top,
        0 <= bottom,
        3 * top < height,
        3 * bottom < height,
        top + bottom <= height / 2,
    ensures
        ({
            let r = detected_insets(p, width, height, bytes_per_row);
            let top_bands = top - top % 4;
            let bottom_bands = bottom - bottom % 4;
            &&& r.top == (if top_bands < height / 100 {
                0
            } else {
                top_bands
            })
            &&& r.bottom == (if bottom_bands < height / 100 {
                0
            } else {
                bottom_bands
            })
            &&& r.width == width
            &&& r.height == height
        }),
{
    assert(frame_ok(p.len() as int, width, height, bytes_per_row));
    lemma_letterbox_top_depth(p, width, height, bytes_per_row, top, bottom, 0);
    lemma_letterbox_bottom_depth(p, width, height, bytes_per_row, top, bottom, 0);
}

/// Pillarbox bars are found: in a frame whose picture columns span the full
/// height between a black bar on the left and one on the right, each bar
/// under a third of the width and the two together at most half of it, the
/// detected left and right insets are the bars' widths rounded down to whole
/// bands of four columns, or zero for a bar under 1% of the width.
pub proof fn lemma_pillarbox_bars_detected(
    p: Seq<u8>,
    width: int,
    height: int,
    bytes_per_row: int,
    left: int,
    right: int,
)
    requires
        64 <= width <= u64::MAX,
        64 <= height <= u64::MAX,
        bytes_per_row >= width * 4,
        p.len() >= bytes_per_row * height,
        pillarboxed(p, width, height, bytes_per_row, left, right),
        0 <= left,
        0 <= right,
        3 * left < width,
        3 * right < width,
        left + right <= width / 2,
    ensures
        ({
            let r = detected_insets(p, width, height, bytes_per_row);
            let left_bands = left - left % 4;
            let right_bands = right - right % 4;
            &&& r.left == (if left_bands < width / 100 {
                0
            } else {
                left_bands
            })
            &&& r.right == (if right_bands < width / 100 {
                0
            } else {
                right_bands
            })
            &&& r.width == width
            &&& r.height == height
        }),
{
    assert(frame_ok(p.len() as int, width, height, bytes_per_row));
    lemma_pillarbox_left_depth(p, width, height, bytes_per_row, left, right, 0);
    lemma_pillarbox_right_depth(p, width, height, bytes_per_row, left, right, 0);
}

} // verus!
