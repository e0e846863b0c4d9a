use vstd::prelude::*;

verus! {

/// An RGB image used as a texture. The channel values are kept as the bit
/// patterns of their 32-bit floating-point values, row by row from the top, three
/// channels per pixel.
pub struct ImageTexture {
    width: u32,
    height: u32,
    data: Vec<u32>,
}

impl ImageTexture {
    pub closed spec fn width_spec(&self) -> u32 {
        self.width
    }

    pub closed spec fn height_spec(&self) -> u32 {
        self.height
    }

    pub closed spec fn data_seq(&self) -> Seq<u32> {
        self.data@
    }

    /// Three channel values for each pixel.
    pub closed spec fn wf(&self) -> bool {
        self.data@.len() == 3 * (self.width as int) * (self.height as int)
    }

    /// The position in the channel data of the first channel of pixel `(x, y)`.
    pub open spec fn pixel_start(&self, x: int, y: int) -> int {
        3 * (y * self.width_spec() + x)
    }

    /// The pixel that a texture lookup reads for the whole-pixel coordinates
    /// `(tx, ty)`: each coordinate is clamped to the last column or row.
    pub open spec fn texel_spec(&self, tx: u32, ty: u32) -> (u32, u32, u32) {
        let x = if tx < self.width_spec() - 1 { tx as int } else { self.width_spec() - 1 };
        let y = if ty < self.height_spec() - 1 { ty as int } else { self.height_spec() - 1 };
        let start = self.pixel_start(x, y);
        (self.data_seq()[start], self.data_seq()[start + 1], self.data_seq()[start + 2])
    }

    /// A texture over an image of `width` by `height` pixels whose channel values
    /// are `data`.
    pub fn new(width: u32, height: u32, data: Vec<u32>) -> (texture: Self)
        requires
            data@.len() == 3 * (width as int) * (height as int),
        ensures
            texture.wf(),
            texture.width_spec() == width,
            texture.height_spec() == height,
            texture.data_seq() == data@,
    {
        Self { width, height, data }
    }

    pub fn width(&self) -> (width: u32)
        ensures
            width == self.width_spec(),
    {
        self.width
    }

    pub fn height(&self) -> (height: u32)
        ensures
            height == self.height_spec(),
    {
        self.height
    }

    /// The channel values of the pixel that a lookup at whole-pixel coordinates
    /// `(tx, ty)` samples, each coordinate clamped to the image.
    pub fn texel(&self, tx: u32, ty: u32) -> (channels: (u32, u32, u32))
        requires
            self.wf(),
            self.width_spec() > 0,
            self.height_spec() > 0,
        ensures
            channels == self.texel_spec(tx, ty),
            // Inside the image: the pixel at (tx, ty) itself.
            tx < self.width_spec() && ty < self.height_spec() ==> channels == (
                self.data_seq()[3 * (ty * self.width_spec() + tx)],
                self.data_seq()[3 * (ty * self.width_spec() + tx) + 1],
                self.data_seq()[3 * (ty * self.width_spec() + tx) + 2],
            ),
            // Right of the image: the last column, row ty.
            tx >= self.width_spec() && ty < self.height_spec() ==> channels == (
                self.data_seq()[3 * (ty * self.width_spec() + self.width_spec() - 1)],
                self.data_seq()[3 * (ty * self.width_spec() + self.width_spec() - 1) + 1],
                self.data_seq()[3 * (ty * self.width_spec() + self.width_spec() - 1) + 2],
            ),
            // Below the image: the last row, column tx.
            tx < self.width_spec() && ty >= self.height_spec() ==> channels == (
                self.data_seq()[3 * ((self.height_spec() - 1) * self.width_spec() + tx)],
                self.data_seq()[3 * ((self.height_spec() - 1) * self.width_spec() + tx) + 1],
                self.data_seq()[3 * ((self.height_spec() - 1) * self.width_spec() + tx) + 2],
            ),
            // Beyond both edges: the last pixel of the image.
            tx >= self.width_spec() && ty >= self.height_spec() ==> channels == (
                self.data_seq()[3 * (self.width_spec() * self.height_spec()) - 3],
                self.data_seq()[3 * (self.width_spec() * self.height_spec()) - 2],
                self.data_seq()[3 * (self.width_spec() * self.height_spec()) - 1],
            ),
    {
        let x = if tx < self.width - 1 { tx } else { self.width - 1 };
        let y = if ty < self.height - 1 { ty } else { self.height - 1 };
        let w = self.width as usize;
        let h = self.height as usize;
        let len = self.data.len();
        proof {
            let wi = w as int;
            let hi = h as int;
            let xi = x as int;
            let yi = y as int;
            assert(yi * wi + xi < wi * hi) by (nonlinear_arith)
                requires
                    0 <= xi < wi,
                    0 <= yi < hi,
            ;
            assert(0 <= yi * wi) by (nonlinear_arith)
                requires
                    0 <= yi,
                    0 <= wi,
            ;
            assert(yi * wi <= wi * hi) by (nonlinear_arith)
                requires
                    0 <= yi < hi,
                    0 <= wi,
            ;
            assert(3 * wi * hi == 3 * (wi * hi)) by (nonlinear_arith);
            assert((hi - 1) * wi + (wi - 1) == wi * hi - 1) by (nonlinear_arith);
            assert(len as int == 3 * (wi * hi));
        }
        let start = 3 * ((y as usize) * w + (x as usize));
        (self.data[start], self.data[start + 1], self.data[start + 2])
    }
}

} // verus!
