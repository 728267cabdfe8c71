use vstd::prelude::*;

use crate::frame_buffer::{frame_ok, in_frame, lemma_pixel_index, pixel_index, solid_frame, write_pixel, FrameBuffer};

verus! {

/// The packed ARGB value (`0xAARRGGBB`) of an opaque color.
pub open spec fn argb(r: int, g: int, b: int) -> int {
    0xFF00_0000 + r * 0x1_0000 + g * 0x100 + b
}

/// Packs three 8-bit channels into an opaque ARGB pixel (`0xFFRRGGBB`).
pub fn rgb(r: u8, g: u8, b: u8) -> (pixel: u32)
    ensures
        pixel == argb(r as int, g as int, b as int),
{
    let pixel = (0xFFu32 << 24u32) | ((r as u32) << 16u32) | ((g as u32) << 8u32) | (b as u32);
    assert(pixel == argb(r as int, g as int, b as int)) by (bit_vector)
        requires
            pixel == (0xFFu32 << 24u32) | ((r as u32) << 16u32) | ((g as u32) << 8u32) | (b as u32),
    ;
    pixel
}

/// An opaque color packs its channels into disjoint bytes: alpha is `0xFF` and
/// red, green and blue read back unchanged, so distinct channels give distinct pixels.
pub proof fn lemma_argb_channels(r: u8, g: u8, b: u8)
    ensures
        0 <= argb(r as int, g as int, b as int) <= u32::MAX,
        (argb(r as int, g as int, b as int) as u32) >> 24u32 == 0xFFu32,
        ((argb(r as int, g as int, b as int) as u32) >> 16u32) & 0xFFu32 == r as u32,
        ((argb(r as int, g as int, b as int) as u32) >> 8u32) & 0xFFu32 == g as u32,
        (argb(r as int, g as int, b as int) as u32) & 0xFFu32 == b as u32,
{
    let p: u32 = (argb(r as int, g as int, b as int)) as u32;
    assert(0 <= argb(r as int, g as int, b as int) <= u32::MAX);
    let rr = r as u32;
    let gg = g as u32;
    let bb = b as u32;
    assert(p == 0xFF00_0000u32 + rr * 0x1_0000u32 + gg * 0x100u32 + bb);
    assert(p >> 24u32 == 0xFFu32 && (p >> 16u32) & 0xFFu32 == rr && (p >> 8u32) & 0xFFu32 == gg && p
        & 0xFFu32 == bb) by (bit_vector)
        requires
            rr < 256,
            gg < 256,
            bb < 256,
            p == 0xFF00_0000u32 + rr * 0x1_0000u32 + gg * 0x100u32 + bb,
    ;
}

/// An opaque gray of level `level` has alpha `0xFF` and red, green and blue all equal to `level`.
pub proof fn lemma_gray_pixel_channels(level: u8)
    ensures
        0 <= gray_pixel(level as int) <= u32::MAX,
        (gray_pixel(level as int) as u32) >> 24u32 == 0xFFu32,
        ((gray_pixel(level as int) as u32) >> 16u32) & 0xFFu32 == level as u32,
        ((gray_pixel(level as int) as u32) >> 8u32) & 0xFFu32 == level as u32,
        (gray_pixel(level as int) as u32) & 0xFFu32 == level as u32,
{
    lemma_argb_channels(level, level, level);
}

/// Channel level `0..=254` of coordinate `v` along an axis of `len` pixels in the test gradient.
pub open spec fn gradient_level(v: int, len: int) -> int {
    v * 255 / len
}

/// Color of pixel `(x, y)` of the test gradient on a `width` x `height` frame:
/// red grows left to right, green top to bottom, blue stays at 128.
pub open spec fn gradient_pixel(width: int, height: int, x: int, y: int) -> int {
    argb(gradient_level(x, width), gradient_level(y, height), 128)
}

proof fn lemma_gradient_level(v: int, len: int)
    requires
        0 <= v < len,
    ensures
        0 <= gradient_level(v, len) < 255,
{
    assert(0 <= v * 255 / len < 255) by (nonlinear_arith)
        requires
            0 <= v < len,
    ;
}

/// Opaque gray pixel with all three channels at `level`.
pub open spec fn gray_pixel(level: int) -> int {
    argb(level, level, level)
}

/// Color of pixel `(x, y)` when a `grid_width` x `grid_height` grid of gray levels
/// (row-major in `levels`) is drawn on an opaque-black frame, each cell as a
/// `scale` x `scale` block with its top-left corner at `(i * scale, j * scale)`.
/// Pixels that no cell covers stay black.
pub open spec fn grayscale_pixel_at(
    levels: Seq<u8>,
    grid_width: int,
    grid_height: int,
    scale: int,
    x: int,
    y: int,
) -> int {
    if scale > 0 && x / scale < grid_width && y / scale < grid_height {
        gray_pixel(levels[(y / scale) * grid_width + x / scale] as int)
    } else {
        0xFF00_0000
    }
}

/// Every pixel of a grayscale drawing is an opaque gray: its three channels are
/// one level (black where no cell lies).
pub proof fn lemma_grayscale_is_gray(
    levels: Seq<u8>,
    grid_width: int,
    grid_height: int,
    scale: int,
    x: int,
    y: int,
)
    requires
        levels.len() == grid_width * grid_height,
        x >= 0,
        y >= 0,
    ensures
        exists|level: u8|
            grayscale_pixel_at(levels, grid_width, grid_height, scale, x, y) == #[trigger] gray_pixel(
                level as int,
            ),
{
    if scale > 0 && x / scale < grid_width && y / scale < grid_height {
        let level = levels[(y / scale) * grid_width + x / scale];
        assert(grayscale_pixel_at(levels, grid_width, grid_height, scale, x, y) == gray_pixel(
            level as int,
        ));
    } else {
        assert(grayscale_pixel_at(levels, grid_width, grid_height, scale, x, y) == gray_pixel(0u8 as int));
    }
}

/// Gray level that the grayscale drawing shows at pixel `(x, y)`: the level of
/// the cell `(x / scale, y / scale)` when that cell is in the grid, else 0.
pub open spec fn grayscale_level_at(
    levels: Seq<u8>,
    grid_width: int,
    grid_height: int,
    scale: int,
    x: int,
    y: int,
) -> u8 {
    if scale > 0 && x / scale < grid_width && y / scale < grid_height {
        levels[(y / scale) * grid_width + x / scale]
    } else {
        0u8
    }
}

/// A frame showing a grayscale drawing has, at every pixel, alpha `0xFF` and
/// red, green and blue all equal to the level of the cell that covers the
/// pixel (0 where no cell does).
pub proof fn lemma_grayscale_channels(
    pixels: Seq<u32>,
    width: int,
    height: int,
    levels: Seq<u8>,
    grid_width: int,
    grid_height: int,
    scale: int,
)
    requires
        forall|x: int, y: int|
            #![trigger pixels[pixel_index(width, x, y)]]
            in_frame(width, height, x, y) ==> pixels[pixel_index(width, x, y)] == grayscale_pixel_at(
                levels,
                grid_width,
                grid_height,
                scale,
                x,
                y,
            ),
    ensures
        forall|x: int, y: int|
            #![trigger pixels[pixel_index(width, x, y)]]
            in_frame(width, height, x, y) ==> {
                let p = pixels[pixel_index(width, x, y)];
                let level = grayscale_level_at(levels, grid_width, grid_height, scale, x, y) as u32;
                &&& p >> 24u32 == 0xFFu32
                &&& (p >> 16u32) & 0xFFu32 == level
                &&& (p >> 8u32) & 0xFFu32 == level
                &&& p & 0xFFu32 == level
            },
{
    assert forall|x: int, y: int|
        #![trigger pixels[pixel_index(width, x, y)]]
        in_frame(width, height, x, y) implies {
            let p = pixels[pixel_index(width, x, y)];
            let level = grayscale_level_at(levels, grid_width, grid_height, scale, x, y) as u32;
            &&& p >> 24u32 == 0xFFu32
            &&& (p >> 16u32) & 0xFFu32 == level
            &&& (p >> 8u32) & 0xFFu32 == level
            &&& p & 0xFFu32 == level
        } by {
        let l = grayscale_level_at(levels, grid_width, grid_height, scale, x, y);
        lemma_argb_channels(l, l, l);
        assert(pixels[pixel_index(width, x, y)] == argb(l as int, l as int, l as int));
    }
}

/// Whether pixel `(x, y)` belongs to a cell before cell `(i, j)` in row-major order.
spec fn cell_before(scale: int, x: int, y: int, j: int, i: int) -> bool {
    scale > 0 && (y / scale < j || (y / scale == j && x / scale < i))
}

/// Whether pixel `(x, y)` lies in cell `(i, j)` and before its offset `(dx, dy)` in row-major order.
spec fn block_prefix(scale: int, x: int, y: int, j: int, i: int, dy: int, dx: int) -> bool {
    &&& scale > 0
    &&& y / scale == j
    &&& x / scale == i
    &&& (y - j * scale < dy || (y - j * scale == dy && x - i * scale < dx))
}

/// Whether the grayscale drawing has reached pixel `(x, y)` once it stands at offset `(dx, dy)` of cell `(i, j)`.
spec fn painted(scale: int, x: int, y: int, j: int, i: int, dy: int, dx: int) -> bool {
    cell_before(scale, x, y, j, i) || block_prefix(scale, x, y, j, i, dy, dx)
}

/// Pixel `v` lies in block `c` of size `scale` exactly when `v / scale == c`.
proof fn lemma_block_of(scale: int, v: int, c: int)
    requires
        scale > 0,
        v >= 0,
    ensures
        v / scale == c <==> c * scale <= v < c * scale + scale,
        v / scale >= 0,
{
    vstd::arithmetic::div_mod::lemma_fundamental_div_mod(v, scale);
    let q = v / scale;
    let r = v % scale;
    assert(0 <= r < scale);
    assert(q >= 0) by (nonlinear_arith)
        requires
            v == scale * q + r,
            0 <= r < scale,
            v >= 0,
            scale > 0,
    ;
    if c * scale <= v < c * scale + scale {
        vstd::arithmetic::div_mod::lemma_fundamental_div_mod_converse(v, scale, c, v - c * scale);
    }
    if q == c {
        assert(c * scale <= v < c * scale + scale) by (nonlinear_arith)
            requires
                v == scale * q + r,
                0 <= r < scale,
                q == c,
        ;
    }
}

/// The pixels of a frame part-way through the grayscale drawing: pixels already
/// reached show their final color, the others are still black.
spec fn drawn_up_to(
    pixels: Seq<u32>,
    width: int,
    height: int,
    levels: Seq<u8>,
    grid_width: int,
    grid_height: int,
    scale: int,
    j: int,
    i: int,
    dy: int,
    dx: int,
) -> bool {
    &&& pixels.len() == width * height
    &&& forall|x: int, y: int|
        #![trigger pixels[pixel_index(width, x, y)]]
        in_frame(width, height, x, y) ==> pixels[pixel_index(width, x, y)] == if painted(
            scale,
            x,
            y,
            j,
            i,
            dy,
            dx,
        ) {
            grayscale_pixel_at(levels, grid_width, grid_height, scale, x, y)
        } else {
            0xFF00_0000
        }
}

/// Writing the cell's gray at offset `(dx, dy)` of cell `(i, j)` advances the drawing by one pixel.
proof fn lemma_drawn_step(
    pixels: Seq<u32>,
    width: int,
    height: int,
    levels: Seq<u8>,
    grid_width: int,
    grid_height: int,
    scale: int,
    j: int,
    i: int,
    dy: int,
    dx: int,
    pixel: u32,
)
    requires
        drawn_up_to(pixels, width, height, levels, grid_width, grid_height, scale, j, i, dy, dx),
        scale > 0,
        0 <= j < grid_height,
        0 <= i < grid_width,
        0 <= dy < scale,
        0 <= dx < scale,
        levels.len() == grid_width * grid_height,
        in_frame(width, height, i * scale + dx, j * scale + dy),
        pixel == gray_pixel(levels[j * grid_width + i] as int),
    ensures
        drawn_up_to(
            pixels.update(pixel_index(width, i * scale + dx, j * scale + dy), pixel),
            width,
            height,
            levels,
            grid_width,
            grid_height,
            scale,
            j,
            i,
            dy,
            dx + 1,
        ),
{
    let px = i * scale + dx;
    let py = j * scale + dy;
    let new_pixels = pixels.update(pixel_index(width, px, py), pixel);
    lemma_pixel_index(width, height, px, py);
    lemma_block_of(scale, px, i);
    lemma_block_of(scale, py, j);
    assert forall|x: int, y: int|
        #![trigger new_pixels[pixel_index(width, x, y)]]
        in_frame(width, height, x, y) implies new_pixels[pixel_index(width, x, y)] == if painted(
            scale,
            x,
            y,
            j,
            i,
            dy,
            dx + 1,
        ) {
            grayscale_pixel_at(levels, grid_width, grid_height, scale, x, y)
        } else {
            0xFF00_0000
        } by {
        lemma_pixel_index(width, height, x, y);
        if x == px && y == py {
        } else {
            assert(pixels[pixel_index(width, x, y)] == new_pixels[pixel_index(width, x, y)]);
            assert(painted(scale, x, y, j, i, dy, dx + 1) == painted(scale, x, y, j, i, dy, dx));
        }
    }
}

/// Once a row of a block is written up to the frame's right edge, the drawing moves to the next row of the block.
proof fn lemma_drawn_block_row(
    pixels: Seq<u32>,
    width: int,
    height: int,
    levels: Seq<u8>,
    grid_width: int,
    grid_height: int,
    scale: int,
    j: int,
    i: int,
    dy: int,
    dx: int,
)
    requires
        drawn_up_to(pixels, width, height, levels, grid_width, grid_height, scale, j, i, dy, dx),
        scale > 0,
        0 <= i * scale < width,
        dx == if scale < width - i * scale { scale } else { width - i * scale },
    ensures
        drawn_up_to(pixels, width, height, levels, grid_width, grid_height, scale, j, i, dy + 1, 0),
{
    assert forall|x: int, y: int|
        #![trigger pixels[pixel_index(width, x, y)]]
        in_frame(width, height, x, y) implies pixels[pixel_index(width, x, y)] == if painted(
            scale,
            x,
            y,
            j,
            i,
            dy + 1,
            0,
        ) {
            grayscale_pixel_at(levels, grid_width, grid_height, scale, x, y)
        } else {
            0xFF00_0000
        } by {
        lemma_block_of(scale, x, i);
        assert(painted(scale, x, y, j, i, dy + 1, 0) == painted(scale, x, y, j, i, dy, dx));
    }
}

/// Once a block is written down to the frame's bottom edge, the drawing moves to the next cell of the row.
proof fn lemma_drawn_block(
    pixels: Seq<u32>,
    width: int,
    height: int,
    levels: Seq<u8>,
    grid_width: int,
    grid_height: int,
    scale: int,
    j: int,
    i: int,
    dy: int,
)
    requires
        drawn_up_to(pixels, width, height, levels, grid_width, grid_height, scale, j, i, dy, 0),
        scale >= 0,
        0 <= j * scale < height,
        dy == if scale < height - j * scale { scale } else { height - j * scale },
    ensures
        drawn_up_to(pixels, width, height, levels, grid_width, grid_height, scale, j, i + 1, 0, 0),
{
    assert forall|x: int, y: int|
        #![trigger pixels[pixel_index(width, x, y)]]
        in_frame(width, height, x, y) implies pixels[pixel_index(width, x, y)] == if painted(
            scale,
            x,
            y,
            j,
            i + 1,
            0,
            0,
        ) {
            grayscale_pixel_at(levels, grid_width, grid_height, scale, x, y)
        } else {
            0xFF00_0000
        } by {
        if scale > 0 {
            lemma_block_of(scale, x, i);
            lemma_block_of(scale, y, j);
            lemma_block_of(scale, x, i + 1);
        }
        assert(painted(scale, x, y, j, i + 1, 0, 0) == painted(scale, x, y, j, i, dy, 0));
    }
}

/// Once the visible cells of row `j` are drawn, the drawing moves to the next row of cells.
proof fn lemma_drawn_cell_row(
    pixels: Seq<u32>,
    width: int,
    height: int,
    levels: Seq<u8>,
    grid_width: int,
    grid_height: int,
    scale: int,
    j: int,
    i: int,
)
    requires
        drawn_up_to(pixels, width, height, levels, grid_width, grid_height, scale, j, i, 0, 0),
        scale >= 0,
        0 <= i,
        i >= grid_width || i * scale >= width,
    ensures
        drawn_up_to(pixels, width, height, levels, grid_width, grid_height, scale, j + 1, 0, 0, 0),
{
    assert forall|x: int, y: int|
        #![trigger pixels[pixel_index(width, x, y)]]
        in_frame(width, height, x, y) implies pixels[pixel_index(width, x, y)] == if painted(
            scale,
            x,
            y,
            j + 1,
            0,
            0,
            0,
        ) {
            grayscale_pixel_at(levels, grid_width, grid_height, scale, x, y)
        } else {
            0xFF00_0000
        } by {
        if scale > 0 {
            lemma_block_of(scale, x, x / scale);
            lemma_block_of(scale, y, j);
            lemma_block_of(scale, y, j + 1);
            assert(!block_prefix(scale, x, y, j + 1, 0, 0, 0));
            assert(!block_prefix(scale, x, y, j, i, 0, 0));
            if y / scale == j && x / scale >= i && i * scale >= width {
                assert(i * scale <= (x / scale) * scale) by (nonlinear_arith)
                    requires
                        i <= x / scale,
                        scale > 0,
                ;
            }
        }
    }
}

/// Once the visible rows of cells are drawn, every pixel shows its final color.
proof fn lemma_drawn_all(
    pixels: Seq<u32>,
    width: int,
    height: int,
    levels: Seq<u8>,
    grid_width: int,
    grid_height: int,
    scale: int,
    j: int,
)
    requires
        drawn_up_to(pixels, width, height, levels, grid_width, grid_height, scale, j, 0, 0, 0),
        scale >= 0,
        0 <= j,
        j >= grid_height || j * scale >= height,
    ensures
        forall|x: int, y: int|
            #![trigger pixels[pixel_index(width, x, y)]]
            in_frame(width, height, x, y) ==> pixels[pixel_index(width, x, y)]
                == grayscale_pixel_at(levels, grid_width, grid_height, scale, x, y),
{
    assert forall|x: int, y: int|
        #![trigger pixels[pixel_index(width, x, y)]]
        in_frame(width, height, x, y) implies pixels[pixel_index(width, x, y)]
            == grayscale_pixel_at(levels, grid_width, grid_height, scale, x, y) by {
        if scale > 0 {
            lemma_block_of(scale, x, x / scale);
            lemma_block_of(scale, y, y / scale);
            if y / scale >= j && j * scale >= height {
                assert(j * scale <= (y / scale) * scale) by (nonlinear_arith)
                    requires
                        j <= y / scale,
                        scale > 0,
                ;
            }
        }
    }
}

/// A black frame is the drawing before any cell.
proof fn lemma_drawn_start(
    width: int,
    height: int,
    levels: Seq<u8>,
    grid_width: int,
    grid_height: int,
    scale: int,
)
    requires
        width >= 0,
        height >= 0,
        scale >= 0,
    ensures
        drawn_up_to(
            solid_frame(width as nat, height as nat, 0xFF00_0000u32),
            width,
            height,
            levels,
            grid_width,
            grid_height,
            scale,
            0,
            0,
            0,
            0,
        ),
{
    let pixels = solid_frame(width as nat, height as nat, 0xFF00_0000u32);
    assert forall|x: int, y: int|
        #![trigger pixels[pixel_index(width, x, y)]]
        in_frame(width, height, x, y) implies pixels[pixel_index(width, x, y)] == if painted(
            scale,
            x,
            y,
            0,
            0,
            0,
            0,
        ) {
            grayscale_pixel_at(levels, grid_width, grid_height, scale, x, y)
        } else {
            0xFF00_0000
        } by {
        lemma_pixel_index(width, height, x, y);
        if scale > 0 {
            lemma_block_of(scale, x, x / scale);
            lemma_block_of(scale, y, y / scale);
        }
    }
}

/// Pixel coordinate of the center of cell `c` along an axis, for cells `scale` pixels wide.
pub open spec fn cell_center(c: int, scale: int) -> int {
    c * scale + scale / 2
}

/// Whether cell `(i, j)` of a `grid_width` x `grid_height` grid has its center at `(x, y)`
/// and a color to show there.
pub open spec fn paints_center(
    colors: Seq<Option<u32>>,
    grid_width: int,
    grid_height: int,
    scale: int,
    i: int,
    j: int,
    x: int,
    y: int,
) -> bool {
    &&& 0 <= i < grid_width
    &&& 0 <= j < grid_height
    &&& cell_center(i, scale) == x
    &&& cell_center(j, scale) == y
    &&& colors[j * grid_width + i] is Some
}

/// The frame after the cells `0..k` (row-major) have put their colors at their centers, in order.
spec fn centers_painted(
    pixels: Seq<u32>,
    width: int,
    height: int,
    colors: Seq<Option<u32>>,
    grid_width: int,
    scale: int,
    k: nat,
) -> Seq<u32>
    decreases k,
{
    if k == 0 {
        pixels
    } else {
        let prev = centers_painted(pixels, width, height, colors, grid_width, scale, (k - 1) as nat);
        let c = k - 1;
        match colors[c] {
            Some(color) => write_pixel(
                prev,
                width,
                height,
                cell_center(c % grid_width, scale),
                cell_center(c / grid_width, scale),
                color,
            ),
            None => prev,
        }
    }
}

/// Cell `j * grid_width + i` sits at column `i` and row `j`.
proof fn lemma_cell_coords(grid_width: int, i: int, j: int)
    requires
        0 <= i < grid_width,
        0 <= j,
    ensures
        (j * grid_width + i) % grid_width == i,
        (j * grid_width + i) / grid_width == j,
{
    vstd::arithmetic::div_mod::lemma_fundamental_div_mod_converse(j * grid_width + i, grid_width, j, i);
}

/// Every cell of row-major index `c < grid_width * grid_height` has coordinates inside the grid.
proof fn lemma_cell_of_index(grid_width: int, grid_height: int, c: int)
    requires
        0 <= c < grid_width * grid_height,
        grid_height >= 0,
    ensures
        grid_width > 0,
        0 <= c % grid_width < grid_width,
        0 <= c / grid_width < grid_height,
        c == (c / grid_width) * grid_width + c % grid_width,
{
    if grid_width <= 0 {
        assert(grid_width * grid_height <= 0) by (nonlinear_arith)
            requires
                grid_width <= 0,
                grid_height >= 0,
                c >= 0,
                c < grid_width * grid_height,
        ;
    }
    vstd::arithmetic::div_mod::lemma_fundamental_div_mod(c, grid_width);
    let q = c / grid_width;
    let r = c % grid_width;
    assert(0 <= q < grid_height) by (nonlinear_arith)
        requires
            c == grid_width * q + r,
            0 <= r < grid_width,
            0 <= c < grid_width * grid_height,
    ;
    assert(c == q * grid_width + r) by (nonlinear_arith)
        requires
            c == grid_width * q + r,
    ;
}

/// Painting centers keeps the number of pixels.
proof fn lemma_centers_len(
    pixels: Seq<u32>,
    width: int,
    height: int,
    colors: Seq<Option<u32>>,
    grid_width: int,
    scale: int,
    k: nat,
)
    requires
        pixels.len() == width * height,
    ensures
        centers_painted(pixels, width, height, colors, grid_width, scale, k).len() == pixels.len(),
    decreases k,
{
    if k > 0 {
        lemma_centers_len(pixels, width, height, colors, grid_width, scale, (k - 1) as nat);
        let c = k - 1;
        let cx = cell_center(c % grid_width, scale);
        let cy = cell_center(c / grid_width, scale);
        if in_frame(width, height, cx, cy) {
            lemma_pixel_index(width, height, cx, cy);
        }
    }
}

/// The color of a pixel changes only at the centers that cells paint.
proof fn lemma_centers_untouched(
    pixels: Seq<u32>,
    width: int,
    height: int,
    colors: Seq<Option<u32>>,
    grid_width: int,
    grid_height: int,
    scale: int,
    k: nat,
    x: int,
    y: int,
)
    requires
        pixels.len() == width * height,
        k <= grid_width * grid_height,
        grid_height >= 0,
        in_frame(width, height, x, y),
        forall|i: int, j: int|
            #![trigger cell_center(i, scale), cell_center(j, scale)]
            j * grid_width + i < k ==> !paints_center(colors, grid_width, grid_height, scale, i, j, x, y),
    ensures
        centers_painted(pixels, width, height, colors, grid_width, scale, k).len() == pixels.len(),
        centers_painted(pixels, width, height, colors, grid_width, scale, k)[pixel_index(width, x, y)]
            == pixels[pixel_index(width, x, y)],
    decreases k,
{
    if k > 0 {
        lemma_centers_untouched(pixels, width, height, colors, grid_width, grid_height, scale, (k - 1) as nat, x, y);
        let c = k - 1;
        lemma_cell_of_index(grid_width, grid_height, c);
        let i = c % grid_width;
        let j = c / grid_width;
        assert(j * grid_width + i < k);
        assert(!paints_center(colors, grid_width, grid_height, scale, i, j, x, y));
        lemma_pixel_index(width, height, x, y);
        let cx = cell_center(i, scale);
        let cy = cell_center(j, scale);
        if colors[c] is Some && in_frame(width, height, cx, cy) {
            lemma_pixel_index(width, height, cx, cy);
        }
    }
}

/// A pixel shows the color of the last cell (row-major) among `0..k` that paints it.
proof fn lemma_centers_last(
    pixels: Seq<u32>,
    width: int,
    height: int,
    colors: Seq<Option<u32>>,
    grid_width: int,
    grid_height: int,
    scale: int,
    k: nat,
    i: int,
    j: int,
)
    requires
        pixels.len() == width * height,
        k <= grid_width * grid_height,
        grid_height >= 0,
        j * grid_width + i < k,
        paints_center(
            colors,
            grid_width,
            grid_height,
            scale,
            i,
            j,
            cell_center(i, scale),
            cell_center(j, scale),
        ),
        in_frame(width, height, cell_center(i, scale), cell_center(j, scale)),
        forall|i2: int, j2: int|
            #![trigger cell_center(i2, scale), cell_center(j2, scale)]
            j * grid_width + i < j2 * grid_width + i2 < k ==> !paints_center(
                colors,
                grid_width,
                grid_height,
                scale,
                i2,
                j2,
                cell_center(i, scale),
                cell_center(j, scale),
            ),
    ensures
        centers_painted(pixels, width, height, colors, grid_width, scale, k).len() == pixels.len(),
        centers_painted(pixels, width, height, colors, grid_width, scale, k)[pixel_index(
            width,
            cell_center(i, scale),
            cell_center(j, scale),
        )] == colors[j * grid_width + i]->0,
    decreases k,
{
    let x = cell_center(i, scale);
    let y = cell_center(j, scale);
    let c = k - 1;
    lemma_pixel_index(width, height, x, y);
    lemma_cell_of_index(grid_width, grid_height, c);
    lemma_cell_coords(grid_width, i, j);
    if c == j * grid_width + i {
        lemma_centers_len(pixels, width, height, colors, grid_width, scale, c as nat);
    } else {
        lemma_centers_last(pixels, width, height, colors, grid_width, grid_height, scale, c as nat, i, j);
        let i2 = c % grid_width;
        let j2 = c / grid_width;
        assert(j * grid_width + i < j2 * grid_width + i2 < k);
        assert(!paints_center(colors, grid_width, grid_height, scale, i2, j2, x, y));
        let cx = cell_center(i2, scale);
        let cy = cell_center(j2, scale);
        if colors[c] is Some && in_frame(width, height, cx, cy) {
            lemma_pixel_index(width, height, cx, cy);
        }
    }
}

/// Whether the center of cell `c` (row-major) lies outside the frame.
spec fn center_off_frame(width: int, height: int, grid_width: int, scale: int, c: int) -> bool {
    !in_frame(width, height, cell_center(c % grid_width, scale), cell_center(c / grid_width, scale))
}

/// Cells whose centers lie outside the frame change nothing.
proof fn lemma_centers_skip(
    pixels: Seq<u32>,
    width: int,
    height: int,
    colors: Seq<Option<u32>>,
    grid_width: int,
    scale: int,
    from: nat,
    to: nat,
)
    requires
        from <= to,
        forall|c: int| from <= c < to ==> #[trigger] center_off_frame(width, height, grid_width, scale, c),
    ensures
        centers_painted(pixels, width, height, colors, grid_width, scale, to) == centers_painted(
            pixels,
            width,
            height,
            colors,
            grid_width,
            scale,
            from,
        ),
    decreases to,
{
    if to > from {
        lemma_centers_skip(pixels, width, height, colors, grid_width, scale, from, (to - 1) as nat);
        assert(center_off_frame(width, height, grid_width, scale, to - 1));
    }
}

/// Centers move right (down) as the column (row) grows.
proof fn lemma_center_monotonic(scale: int, a: int, b: int)
    requires
        0 <= a <= b,
        scale >= 0,
    ensures
        cell_center(a, scale) <= cell_center(b, scale),
{
    assert(a * scale <= b * scale) by (nonlinear_arith)
        requires
            0 <= a <= b,
            scale >= 0,
    ;
}

/// Renders grids onto frame buffers, each grid cell as a `scale` x `scale` block of pixels.
pub struct RendererCore {
    pub scale: usize,
}

impl RendererCore {
    /// Creates a renderer that draws each grid cell as a `scale` x `scale` block.
    pub fn new(scale: usize) -> (r: Self)
        requires
            scale > 0,
        ensures
            r.scale == scale,
    {
        RendererCore { scale }
    }

    /// Fills the whole frame with the test gradient (see `gradient_pixel`).
    pub fn draw_gradient(&self, fb: &mut impl FrameBuffer)
        requires
            frame_ok(old(fb)),
            (old(fb).frame_width() - 1) * 255 <= usize::MAX,
            (old(fb).frame_height() - 1) * 255 <= usize::MAX,
        ensures
            frame_ok(final(fb)),
            final(fb).frame_width() == old(fb).frame_width(),
            final(fb).frame_height() == old(fb).frame_height(),
            forall|x: int, y: int|
                #![trigger final(fb).frame_pixels()[pixel_index(final(fb).frame_width() as int, x, y)]]
                in_frame(final(fb).frame_width() as int, final(fb).frame_height() as int, x, y)
                    ==> final(fb).frame_pixels()[pixel_index(final(fb).frame_width() as int, x, y)]
                    == gradient_pixel(final(fb).frame_width() as int, final(fb).frame_height() as int, x, y),
    {
        let ghost w = fb.frame_width() as int;
        let ghost h = fb.frame_height() as int;
        let height = fb.height();
        for y in 0..height
            invariant
                frame_ok(fb),
                fb.frame_width() == w,
                fb.frame_height() == h,
                height == h,
                (w - 1) * 255 <= usize::MAX,
                (h - 1) * 255 <= usize::MAX,
                forall|x2: int, y2: int|
                    #![trigger fb.frame_pixels()[pixel_index(w, x2, y2)]]
                    in_frame(w, h, x2, y2) && y2 < y ==> fb.frame_pixels()[pixel_index(w, x2, y2)]
                        == gradient_pixel(w, h, x2, y2),
        {
            let width = fb.width();
            for x in 0..width
                invariant
                    frame_ok(fb),
                    fb.frame_width() == w,
                    fb.frame_height() == h,
                    width == w,
                    height == h,
                    0 <= y < h,
                    (w - 1) * 255 <= usize::MAX,
                    (h - 1) * 255 <= usize::MAX,
                    forall|x2: int, y2: int|
                        #![trigger fb.frame_pixels()[pixel_index(w, x2, y2)]]
                        in_frame(w, h, x2, y2) && (y2 < y || (y2 == y && x2 < x))
                            ==> fb.frame_pixels()[pixel_index(w, x2, y2)] == gradient_pixel(w, h, x2, y2),
            {
                proof {
                    lemma_gradient_level(x as int, w);
                    lemma_gradient_level(y as int, h);
                    lemma_pixel_index(w, h, x as int, y as int);
                    assert(x * 255 <= (w - 1) * 255) by (nonlinear_arith)
                        requires
                            x < w,
                    ;
                    assert(y * 255 <= (h - 1) * 255) by (nonlinear_arith)
                        requires
                            y < h,
                    ;
                }
                let r = (x * 255 / fb.width().max(1)) as u8;
                let g = (y * 255 / fb.height().max(1)) as u8;
                let b: u8 = 128;
                let ghost before = fb.frame_pixels();
                fb.set_pixel(x, y, rgb(r, g, b));
                assert forall|x2: int, y2: int|
                    #![trigger fb.frame_pixels()[pixel_index(w, x2, y2)]]
                    in_frame(w, h, x2, y2) && (y2 < y || (y2 == y && x2 <= x))
                        implies fb.frame_pixels()[pixel_index(w, x2, y2)] == gradient_pixel(w, h, x2, y2) by {
                    if x2 != x || y2 != y {
                        lemma_pixel_index(w, h, x2, y2);
                        assert(fb.frame_pixels()[pixel_index(w, x2, y2)] == before[pixel_index(w, x2, y2)]);
                    }
                }
            }
        }
    }

    /// Draws a grid of gray levels: clears the frame to opaque black, then paints
    /// each cell `(i, j)` as a `scale` x `scale` block of the gray
    /// `levels[j * grid_width + i]`, with its top-left corner at
    /// `(i * scale, j * scale)`, clipped at the frame's edges.
    pub fn draw_grayscale(
        &self,
        fb: &mut impl FrameBuffer,
        grid_width: usize,
        grid_height: usize,
        levels: &[u8],
    )
        requires
            frame_ok(old(fb)),
            levels@.len() == grid_width * grid_height,
        ensures
            frame_ok(final(fb)),
            final(fb).frame_width() == old(fb).frame_width(),
            final(fb).frame_height() == old(fb).frame_height(),
            forall|x: int, y: int|
                #![trigger final(fb).frame_pixels()[pixel_index(final(fb).frame_width() as int, x, y)]]
                in_frame(final(fb).frame_width() as int, final(fb).frame_height() as int, x, y)
                    ==> final(fb).frame_pixels()[pixel_index(final(fb).frame_width() as int, x, y)]
                    == grayscale_pixel_at(
                    levels@,
                    grid_width as int,
                    grid_height as int,
                    self.scale as int,
                    x,
                    y,
                ),
            forall|x: int, y: int|
                #![trigger final(fb).frame_pixels()[pixel_index(final(fb).frame_width() as int, x, y)]]
                in_frame(final(fb).frame_width() as int, final(fb).frame_height() as int, x, y) ==> {
                    let p = final(fb).frame_pixels()[pixel_index(final(fb).frame_width() as int, x, y)];
                    let level: u32 = if self.scale > 0 && x / (self.scale as int) < grid_width && y / (
                    self.scale as int) < grid_height {
                        levels@[(y / (self.scale as int)) * grid_width + x / (self.scale as int)] as u32
                    } else {
                        0u32
                    };
                    &&& p >> 24u32 == 0xFFu32
                    &&& (p >> 16u32) & 0xFFu32 == level
                    &&& (p >> 8u32) & 0xFFu32 == level
                    &&& p & 0xFFu32 == level
                },
    {
        fb.clear(0xFF00_0000);
        let buffer_width = fb.width();
        let buffer_height = fb.height();
        let ghost w = buffer_width as int;
        let ghost h = buffer_height as int;
        let ghost lv = levels@;
        let ghost gw = grid_width as int;
        let ghost gh = grid_height as int;
        let scale = self.scale;
        proof {
            lemma_drawn_start(w, h, lv, gw, gh, scale as int);
        }
        let buffer = fb.buffer_mut();
        proof {
            assert(buffer.len() == buffer@.len());
            assert(levels.len() == levels@.len());
        }
        let mut j: usize = 0;
        while j < grid_height
            invariant
                0 <= j <= grid_height,
                w > 0 && h > 0,
                w * h <= usize::MAX,
                gw * gh <= usize::MAX,
                buffer_width == w,
                buffer_height == h,
                lv == levels@,
                lv.len() == gw * gh,
                gw == grid_width,
                gh == grid_height,
                drawn_up_to(buffer@, w, h, lv, gw, gh, scale as int, j as int, 0, 0, 0),
            ensures
                drawn_up_to(buffer@, w, h, lv, gw, gh, scale as int, j as int, 0, 0, 0),
                j >= grid_height || j * scale >= h,
            decreases grid_height - j,
        {
            let buffer_y = match j.checked_mul(scale) {
                Some(v) => v,
                None => {
                    break;
                },
            };
            if buffer_y >= buffer_height {
                break;
            }
            let mut i: usize = 0;
            while i < grid_width
                invariant
                    0 <= j < grid_height,
                    0 <= i <= grid_width,
                    w > 0 && h > 0,
                w * h <= usize::MAX,
                gw * gh <= usize::MAX,
                    buffer_width == w,
                    buffer_height == h,
                    buffer_y == j * scale,
                    buffer_y < h,
                    lv == levels@,
                    lv.len() == gw * gh,
                    gw == grid_width,
                    gh == grid_height,
                    drawn_up_to(buffer@, w, h, lv, gw, gh, scale as int, j as int, i as int, 0, 0),
                ensures
                    drawn_up_to(buffer@, w, h, lv, gw, gh, scale as int, j as int, i as int, 0, 0),
                    i >= grid_width || i * scale >= w,
                decreases grid_width - i,
            {
                let buffer_x = match i.checked_mul(scale) {
                    Some(v) => v,
                    None => {
                        break;
                    },
                };
                if buffer_x >= buffer_width {
                    break;
                }
                proof {
                    assert(0 <= j * gw + i < gw * gh) by (nonlinear_arith)
                        requires
                            0 <= i < gw,
                            0 <= j < gh,
                    ;
                }
                let gray = levels[j * grid_width + i];
                let pixel = 0xFF00_0000u32 | ((gray as u32) << 16u32) | ((gray as u32) << 8u32) | (
                gray as u32);
                assert(pixel == gray_pixel(gray as int)) by (bit_vector)
                    requires
                        pixel == 0xFF00_0000u32 | ((gray as u32) << 16u32) | ((gray as u32) << 8u32)
                            | (gray as u32),
                ;
                let max_dy = scale.min(buffer_height - buffer_y);
                let max_dx = scale.min(buffer_width - buffer_x);
                let mut dy: usize = 0;
                while dy < max_dy
                    invariant
                        0 <= j < grid_height,
                        0 <= i < grid_width,
                        0 <= dy <= max_dy,
                        w > 0 && h > 0,
                w * h <= usize::MAX,
                gw * gh <= usize::MAX,
                        buffer_width == w,
                        buffer_height == h,
                        buffer_y == j * scale,
                        buffer_x == i * scale,
                        buffer_y < h,
                        buffer_x < w,
                        max_dy == if scale < h - buffer_y { scale as int } else { h - buffer_y },
                        max_dx == if scale < w - buffer_x { scale as int } else { w - buffer_x },
                        pixel == gray_pixel(lv[j * gw + i] as int),
                        lv == levels@,
                        lv.len() == gw * gh,
                        gw == grid_width,
                        gh == grid_height,
                        drawn_up_to(buffer@, w, h, lv, gw, gh, scale as int, j as int, i as int, dy as int, 0),
                    decreases max_dy - dy,
                {
                    let py = buffer_y + dy;
                    proof {
                        lemma_pixel_index(w, h, buffer_x as int, py as int);
                    }
                    let row_start = py * buffer_width + buffer_x;
                    let mut dx: usize = 0;
                    while dx < max_dx
                        invariant
                            0 <= j < grid_height,
                            0 <= i < grid_width,
                            0 <= dy < max_dy,
                            0 <= dx <= max_dx,
                            w > 0 && h > 0,
                w * h <= usize::MAX,
                gw * gh <= usize::MAX,
                            buffer_width == w,
                            buffer_height == h,
                            buffer_y == j * scale,
                            buffer_x == i * scale,
                            buffer_y < h,
                            buffer_x < w,
                            py == buffer_y + dy,
                            row_start == pixel_index(w, buffer_x as int, py as int),
                            max_dy == if scale < h - buffer_y { scale as int } else { h - buffer_y },
                            max_dx == if scale < w - buffer_x { scale as int } else { w - buffer_x },
                            pixel == gray_pixel(lv[j * gw + i] as int),
                            lv == levels@,
                            lv.len() == gw * gh,
                            gw == grid_width,
                            gh == grid_height,
                            drawn_up_to(
                                buffer@,
                                w,
                                h,
                                lv,
                                gw,
                                gh,
                                scale as int,
                                j as int,
                                i as int,
                                dy as int,
                                dx as int,
                            ),
                        decreases max_dx - dx,
                    {
                        proof {
                            lemma_pixel_index(w, h, buffer_x + dx, py as int);
                            lemma_drawn_step(
                                buffer@,
                                w,
                                h,
                                lv,
                                gw,
                                gh,
                                scale as int,
                                j as int,
                                i as int,
                                dy as int,
                                dx as int,
                                pixel,
                            );
                        }
                        buffer[row_start + dx] = pixel;
                        dx += 1;
                    }
                    proof {
                        lemma_drawn_block_row(
                            buffer@,
                            w,
                            h,
                            lv,
                            gw,
                            gh,
                            scale as int,
                            j as int,
                            i as int,
                            dy as int,
                            dx as int,
                        );
                    }
                    dy += 1;
                }
                proof {
                    lemma_drawn_block(buffer@, w, h, lv, gw, gh, scale as int, j as int, i as int, dy as int);
                }
                i += 1;
            }
            proof {
                lemma_drawn_cell_row(buffer@, w, h, lv, gw, gh, scale as int, j as int, i as int);
            }
            j += 1;
        }
        proof {
            lemma_drawn_all(buffer@, w, h, lv, gw, gh, scale as int, j as int);
            lemma_grayscale_channels(buffer@, w, h, lv, gw, gh, scale as int);
        }
    }

    /// Puts each grid cell's color, where it has one, at the center pixel
    /// `(i * scale + scale / 2, j * scale + scale / 2)` of its block; cells are
    /// visited row by row, so where centers coincide the last cell wins. Every
    /// other pixel keeps its color.
    pub fn draw_cell_centers(
        &self,
        fb: &mut impl FrameBuffer,
        grid_width: usize,
        grid_height: usize,
        colors: &[Option<u32>],
    )
        requires
            frame_ok(old(fb)),
            colors@.len() == grid_width * grid_height,
        ensures
            frame_ok(final(fb)),
            final(fb).frame_width() == old(fb).frame_width(),
            final(fb).frame_height() == old(fb).frame_height(),
            forall|x: int, y: int|
                #![trigger final(fb).frame_pixels()[pixel_index(final(fb).frame_width() as int, x, y)]]
                in_frame(final(fb).frame_width() as int, final(fb).frame_height() as int, x, y) && (
                forall|i: int, j: int|
                    !#[trigger] paints_center(
                        colors@,
                        grid_width as int,
                        grid_height as int,
                        self.scale as int,
                        i,
                        j,
                        x,
                        y,
                    )) ==> final(fb).frame_pixels()[pixel_index(final(fb).frame_width() as int, x, y)]
                    == old(fb).frame_pixels()[pixel_index(final(fb).frame_width() as int, x, y)],
            forall|i: int, j: int|
                #![trigger paints_center(colors@, grid_width as int, grid_height as int, self.scale as int, i, j, cell_center(i, self.scale as int), cell_center(j, self.scale as int))]
                paints_center(
                    colors@,
                    grid_width as int,
                    grid_height as int,
                    self.scale as int,
                    i,
                    j,
                    cell_center(i, self.scale as int),
                    cell_center(j, self.scale as int),
                ) && in_frame(
                    final(fb).frame_width() as int,
                    final(fb).frame_height() as int,
                    cell_center(i, self.scale as int),
                    cell_center(j, self.scale as int),
                ) && (forall|i2: int, j2: int|
                    j * grid_width + i < j2 * grid_width + i2 ==> !#[trigger] paints_center(
                        colors@,
                        grid_width as int,
                        grid_height as int,
                        self.scale as int,
                        i2,
                        j2,
                        cell_center(i, self.scale as int),
                        cell_center(j, self.scale as int),
                    )) ==> final(fb).frame_pixels()[pixel_index(
                    final(fb).frame_width() as int,
                    cell_center(i, self.scale as int),
                    cell_center(j, self.scale as int),
                )] == colors@[j * grid_width + i]->0,
            forall|k: int|
                #![trigger colors@[k]]
                0 <= k < grid_width * grid_height && colors@[k] is Some && in_frame(
                    final(fb).frame_width() as int,
                    final(fb).frame_height() as int,
                    (k % grid_width as int) * self.scale + self.scale / 2,
                    (k / grid_width as int) * self.scale + self.scale / 2,
                ) && (forall|k2: int|
                    #![trigger colors@[k2]]
                    k < k2 < grid_width * grid_height && (k2 % grid_width as int) * self.scale
                        == (k % grid_width as int) * self.scale && (k2 / grid_width as int) * self.scale
                        == (k / grid_width as int) * self.scale ==> colors@[k2] is None)
                    ==> final(fb).frame_pixels()[pixel_index(
                    final(fb).frame_width() as int,
                    (k % grid_width as int) * self.scale + self.scale / 2,
                    (k / grid_width as int) * self.scale + self.scale / 2,
                )] == colors@[k]->0,
            forall|x: int, y: int|
                #![trigger final(fb).frame_pixels()[pixel_index(final(fb).frame_width() as int, x, y)]]
                in_frame(final(fb).frame_width() as int, final(fb).frame_height() as int, x, y) && (
                forall|k: int|
                    #![trigger colors@[k]]
                    0 <= k < grid_width * grid_height && colors@[k] is Some ==> !((k % grid_width as int)
                        * self.scale + self.scale / 2 == x && (k / grid_width as int) * self.scale
                        + self.scale / 2 == y)) ==> final(fb).frame_pixels()[pixel_index(
                    final(fb).frame_width() as int,
                    x,
                    y,
                )] == old(fb).frame_pixels()[pixel_index(final(fb).frame_width() as int, x, y)],
    {
        let buffer_width = fb.width();
        let buffer_height = fb.height();
        let ghost w = buffer_width as int;
        let ghost h = buffer_height as int;
        let ghost start = fb.frame_pixels();
        let ghost cl = colors@;
        let ghost gw = grid_width as int;
        let ghost gh = grid_height as int;
        let scale = self.scale;
        let ghost s = scale as int;
        proof {
            assert(colors.len() == colors@.len());
        }
        let mut j: usize = 0;
        proof {
            if grid_height == 0 {
                assert(gw * gh == 0) by (nonlinear_arith)
                    requires
                        gh == 0,
                ;
            }
        }
        while j < grid_height
            invariant
                0 <= j <= grid_height,
                frame_ok(fb),
                fb.frame_width() == w,
                fb.frame_height() == h,
                buffer_width == w,
                buffer_height == h,
                start.len() == w * h,
                cl == colors@,
                cl.len() == gw * gh,
                gw * gh <= usize::MAX,
                gw == grid_width,
                gh == grid_height,
                s == scale,
                fb.frame_pixels() == centers_painted(start, w, h, cl, gw, s, (j * gw) as nat),
                j == grid_height ==> j * gw == gw * gh,
            ensures
                frame_ok(fb),
                fb.frame_width() == w,
                fb.frame_height() == h,
                fb.frame_pixels() == centers_painted(start, w, h, cl, gw, s, (gw * gh) as nat),
            decreases grid_height - j,
        {
            let center_y = match j.checked_mul(scale) {
                Some(v) => v.checked_add(scale / 2),
                None => None,
            };
            let pixel_y = match center_y {
                Some(v) if v < buffer_height => v,
                _ => {
                    proof {
                        assert(cell_center(j as int, s) >= h);
                        assert forall|c: int| (j * gw) <= c < gw * gh implies #[trigger] center_off_frame(
                            w,
                            h,
                            gw,
                            s,
                            c,
                        ) by {
                            lemma_cell_of_index(gw, gh, c);
                            let q = c / gw;
                            if q < j {
                                assert(c < j * gw) by (nonlinear_arith)
                                    requires
                                        c == q * gw + c % gw,
                                        c % gw < gw,
                                        q < j,
                                ;
                            }
                            lemma_center_monotonic(s, j as int, q);
                        }
                        assert(j * gw <= gw * gh) by (nonlinear_arith)
                            requires
                                0 <= j < gh,
                                gw >= 0,
                        ;
                        lemma_centers_skip(start, w, h, cl, gw, s, (j * gw) as nat, (gw * gh) as nat);
                    }
                    break;
                },
            };
            let mut i: usize = 0;
            while i < grid_width
                invariant
                    0 <= j < grid_height,
                    0 <= i <= grid_width,
                    frame_ok(fb),
                    fb.frame_width() == w,
                    fb.frame_height() == h,
                    buffer_width == w,
                    buffer_height == h,
                    pixel_y == cell_center(j as int, s),
                    pixel_y < h,
                    start.len() == w * h,
                    cl == colors@,
                    cl.len() == gw * gh,
                    gw * gh <= usize::MAX,
                    gw == grid_width,
                    gh == grid_height,
                    s == scale,
                    fb.frame_pixels() == centers_painted(start, w, h, cl, gw, s, (j * gw + i) as nat),
                ensures
                    frame_ok(fb),
                    fb.frame_width() == w,
                    fb.frame_height() == h,
                    fb.frame_pixels() == centers_painted(start, w, h, cl, gw, s, (j * gw + gw) as nat),
                decreases grid_width - i,
            {
                let center_x = match i.checked_mul(scale) {
                    Some(v) => v.checked_add(scale / 2),
                    None => None,
                };
                let pixel_x = match center_x {
                    Some(v) if v < buffer_width => v,
                    _ => {
                        proof {
                            assert(cell_center(i as int, s) >= w);
                            assert forall|c: int| (j * gw + i) <= c < j * gw + gw implies #[trigger] center_off_frame(
                                w,
                                h,
                                gw,
                                s,
                                c,
                            ) by {
                                lemma_cell_coords(gw, c - j * gw, j as int);
                                lemma_center_monotonic(s, i as int, c - j * gw);
                            }
                            lemma_centers_skip(start, w, h, cl, gw, s, (j * gw + i) as nat, (j * gw + gw) as nat);
                        }
                        break;
                    },
                };
                proof {
                    assert(0 <= j * gw + i < gw * gh) by (nonlinear_arith)
                        requires
                            0 <= i < gw,
                            0 <= j < gh,
                    ;
                    lemma_cell_coords(gw, i as int, j as int);
                }
                let k = j * grid_width + i;
                match colors[k] {
                    Some(color) => {
                        fb.set_pixel(pixel_x, pixel_y, color);
                    },
                    None => {},
                }
                i += 1;
            }
            j += 1;
            proof {
                assert((j - 1) * gw + gw == j * gw) by (nonlinear_arith);
                if j == grid_height {
                    assert(j * gw == gw * gh) by (nonlinear_arith)
                        requires
                            j == gh,
                    ;
                }
            }
        }
        proof {
            assert(gh * gw == gw * gh) by (nonlinear_arith);
            lemma_centers_len(start, w, h, cl, gw, s, (gw * gh) as nat);
            assert forall|x: int, y: int|
                #![trigger fb.frame_pixels()[pixel_index(w, x, y)]]
                in_frame(w, h, x, y) && (forall|i: int, j: int|
                    !#[trigger] paints_center(cl, gw, gh, s, i, j, x, y)) implies fb.frame_pixels()[pixel_index(w, x, y)]
                    == start[pixel_index(w, x, y)] by {
                lemma_centers_untouched(start, w, h, cl, gw, gh, s, (gw * gh) as nat, x, y);
            }
            assert forall|i: int, j: int|
                #![trigger paints_center(cl, gw, gh, s, i, j, cell_center(i, s), cell_center(j, s))]
                paints_center(cl, gw, gh, s, i, j, cell_center(i, s), cell_center(j, s)) && in_frame(
                    w,
                    h,
                    cell_center(i, s),
                    cell_center(j, s),
                ) && (forall|i2: int, j2: int|
                    j * gw + i < j2 * gw + i2 ==> !#[trigger] paints_center(
                        cl,
                        gw,
                        gh,
                        s,
                        i2,
                        j2,
                        cell_center(i, s),
                        cell_center(j, s),
                    )) implies fb.frame_pixels()[pixel_index(w, cell_center(i, s), cell_center(j, s))]
                    == cl[j * gw + i]->0 by {
                assert(j * gw + i < gw * gh) by (nonlinear_arith)
                    requires
                        0 <= i < gw,
                        0 <= j < gh,
                ;
                lemma_centers_last(start, w, h, cl, gw, gh, s, (gw * gh) as nat, i, j);
            }
            assert forall|k: int|
                #![trigger cl[k]]
                0 <= k < gw * gh && cl[k] is Some && in_frame(
                    w,
                    h,
                    (k % gw) * s + s / 2,
                    (k / gw) * s + s / 2,
                ) && (forall|k2: int|
                    #![trigger cl[k2]]
                    k < k2 < gw * gh && (k2 % gw) * s == (k % gw) * s && (k2 / gw) * s == (k / gw) * s
                        ==> cl[k2] is None) implies fb.frame_pixels()[pixel_index(
                    w,
                    (k % gw) * s + s / 2,
                    (k / gw) * s + s / 2,
                )] == cl[k]->0 by {
                lemma_cell_of_index(gw, gh, k);
                let i = k % gw;
                let j = k / gw;
                assert forall|i2: int, j2: int|
                    j * gw + i < j2 * gw + i2 implies !#[trigger] paints_center(
                        cl,
                        gw,
                        gh,
                        s,
                        i2,
                        j2,
                        cell_center(i, s),
                        cell_center(j, s),
                    ) by {
                    if paints_center(cl, gw, gh, s, i2, j2, cell_center(i, s), cell_center(j, s)) {
                        lemma_cell_coords(gw, i2, j2);
                        let k2 = j2 * gw + i2;
                        assert(k2 < gw * gh) by (nonlinear_arith)
                            requires
                                0 <= i2 < gw,
                                0 <= j2 < gh,
                                k2 == j2 * gw + i2,
                        ;
                        assert(cl[k2] is None);
                    }
                }
                lemma_centers_last(start, w, h, cl, gw, gh, s, (gw * gh) as nat, i, j);
            }
            assert forall|x: int, y: int|
                #![trigger fb.frame_pixels()[pixel_index(w, x, y)]]
                in_frame(w, h, x, y) && (forall|k: int|
                    #![trigger cl[k]]
                    0 <= k < gw * gh && cl[k] is Some ==> !((k % gw) * s + s / 2 == x && (k / gw) * s
                        + s / 2 == y)) implies fb.frame_pixels()[pixel_index(w, x, y)]
                    == start[pixel_index(w, x, y)] by {
                assert forall|i: int, j: int| !#[trigger] paints_center(cl, gw, gh, s, i, j, x, y) by {
                    if paints_center(cl, gw, gh, s, i, j, x, y) {
                        lemma_cell_coords(gw, i, j);
                        let k = j * gw + i;
                        assert(k < gw * gh) by (nonlinear_arith)
                            requires
                                0 <= i < gw,
                                0 <= j < gh,
                                k == j * gw + i,
                        ;
                        assert(cl[k] is Some);
                    }
                }
                lemma_centers_untouched(start, w, h, cl, gw, gh, s, (gw * gh) as nat, x, y);
            }
        }
    }

}

} // verus!
