use vstd::prelude::*;

verus! {

/// The side of the square tiles that the image is rendered in, in pixels.
pub const TILE_SIZE: u32 = 4;

/// Tile number `k` of an image `width` pixels wide: tiles are numbered row by
/// row, `width / 4` to a row.
pub open spec fn tile_spec(width: u32, k: int) -> (int, int) {
    let per_row = width as int / 4;
    (k % per_row, k / per_row)
}

/// The tiles of a `width` by `height` image, in the order in which they are
/// handed out for rendering: row by row, each tile given by its column and row.
pub fn tile_coords(width: u32, height: u32) -> (tiles: Vec<(u32, u32)>)
    requires
        width % 4 == 0,
        height % 4 == 0,
        width * height <= u32::MAX,
    ensures
        tiles@.len() == width * height / 16,
        forall|k: int|
            0 <= k < tiles@.len() ==> (#[trigger] tiles@[k]).0 as int == tile_spec(width, k).0
                && tiles@[k].1 as int == tile_spec(width, k).1,
{
    let count = width * height / 16;
    let per_row = width / 4;
    let mut tiles: Vec<(u32, u32)> = Vec::with_capacity(count as usize);
    let mut k: u32 = 0;
    while k < count
        invariant
            width % 4 == 0,
            per_row == width / 4,
            count == width * height / 16,
            width * height <= u32::MAX,
            k <= count,
            tiles@.len() == k,
            forall|j: int|
                0 <= j < k ==> (#[trigger] tiles@[j]).0 as int == tile_spec(width, j).0
                    && tiles@[j].1 as int == tile_spec(width, j).1,
        decreases count - k,
    {
        proof {
            assert(per_row > 0) by (nonlinear_arith)
                requires
                    width % 4 == 0,
                    k < count,
                    count == width * height / 16,
                    per_row == width / 4,
            ;
        }
        tiles.push((k % per_row, k / per_row));
        k += 1;
    }
    tiles
}

/// The position of pixel `(x, y)` in a row-by-row pixel buffer of an image
/// `width` pixels wide.
pub fn pixel_index(x: u32, y: u32, width: u32, height: u32) -> (index: usize)
    requires
        x < width,
        y < height,
        width * height <= u32::MAX,
    ensures
        index == y * width + x,
        index < width * height,
{
    proof {
        assert(y * width + x < width * height) by (nonlinear_arith)
            requires
                x < width,
                y < height,
        ;
        assert(0 <= y * width) by (nonlinear_arith);
    }
    (y * width + x) as usize
}

/// Packs three 8-bit channels into one word: red in bits 16 to 23, green in
/// bits 8 to 15, blue in bits 0 to 7.
pub fn pack_rgb(r: u8, g: u8, b: u8) -> (rgb: u32)
    ensures
        rgb == r * 65536 + g * 256 + b,
{
    let rgb = (r as u32) << 16 | (g as u32) << 8 | b as u32;
    assert(((r as u32) << 16 | (g as u32) << 8 | b as u32) == (r as u32) * 65536 + (g as u32)
        * 256 + (b as u32)) by (bit_vector);
    rgb
}

/// The three 8-bit channels of a packed word: bits 16 to 23, 8 to 15 and 0 to 7.
pub fn unpack_rgb(rgb: u32) -> (channels: (u8, u8, u8))
    ensures
        channels.0 == (rgb / 65536) % 256,
        channels.1 == (rgb / 256) % 256,
        channels.2 == rgb % 256,
{
    let r = rgb >> 16;
    let g = (rgb >> 8) & 0xFF;
    let b = rgb & 0xFF;
    assert((rgb >> 16) as u8 == (rgb / 65536) % 256) by (bit_vector);
    assert(((rgb >> 8) & 0xFF) as u8 == (rgb / 256) % 256) by (bit_vector);
    assert((rgb & 0xFF) as u8 == rgb % 256) by (bit_vector);
    (r as u8, g as u8, b as u8)
}

/// Unpacking a packed word gives back the three channels that were packed.
pub proof fn lemma_unpack_pack(r: u8, g: u8, b: u8)
    ensures
        ((r * 65536 + g * 256 + b) / 65536) % 256 == r,
        ((r * 65536 + g * 256 + b) / 256) % 256 == g,
        (r * 65536 + g * 256 + b) % 256 == b,
{
    assert(((r as u32) * 65536 + (g as u32) * 256 + (b as u32)) / 65536 % 256 == r as u32) by (bit_vector);
    assert(((r as u32) * 65536 + (g as u32) * 256 + (b as u32)) / 256 % 256 == g as u32) by (bit_vector);
    assert(((r as u32) * 65536 + (g as u32) * 256 + (b as u32)) % 256 == b as u32) by (bit_vector);
}

/// The tiles cover the image exactly once: pixel `(x, y)` lies in tile number
/// `(y / 4) * (width / 4) + x / 4`, at offset `(x % 4, y % 4)` inside it, and any
/// tile number and offset that land on `(x, y)` are those.
pub proof fn lemma_tiles_cover_each_pixel_once(width: u32, height: u32, x: int, y: int, k: int, px: int, py: int)
    requires
        width % 4 == 0,
        height % 4 == 0,
        0 <= x < width,
        0 <= y < height,
        0 <= k < width * height / 16,
        0 <= px < 4,
        0 <= py < 4,
    ensures
        ({
            let home = (y / 4) * (width as int / 4) + x / 4;
            &&& 0 <= home < width * height / 16
            &&& 4 * tile_spec(width, home).0 + x % 4 == x
            &&& 4 * tile_spec(width, home).1 + y % 4 == y
            &&& (4 * tile_spec(width, k).0 + px == x && 4 * tile_spec(width, k).1 + py == y)
                ==> (k == home && px == x % 4 && py == y % 4)
        }),
{
    let w4 = width as int / 4;
    let h4 = height as int / 4;
    let home = (y / 4) * w4 + x / 4;
    assert(width as int == 4 * w4 && height as int == 4 * h4);
    assert(w4 > 0);
    assert(width * height / 16 == w4 * h4) by (nonlinear_arith)
        requires
            width as int == 4 * w4,
            height as int == 4 * h4,
    ;
    assert(0 <= home < w4 * h4) by (nonlinear_arith)
        requires
            home == (y / 4) * w4 + x / 4,
            0 <= x / 4 < w4,
            0 <= y / 4 < h4,
    ;
    assert(home % w4 == x / 4 && home / w4 == y / 4) by (nonlinear_arith)
        requires
            home == (y / 4) * w4 + x / 4,
            0 <= x / 4 < w4,
            0 <= y / 4,
            w4 > 0,
    ;
    if 4 * tile_spec(width, k).0 + px == x && 4 * tile_spec(width, k).1 + py == y {
        let c = k % w4;
        let r = k / w4;
        assert(k == r * w4 + c) by (nonlinear_arith)
            requires
                c == k % w4,
                r == k / w4,
                w4 > 0,
        ;
        assert(0 <= c < w4) by (nonlinear_arith)
            requires
                c == k % w4,
                w4 > 0,
        ;
        assert(c == x / 4 && px == x % 4);
        assert(r == y / 4 && py == y % 4);
    }
}

} // verus!
