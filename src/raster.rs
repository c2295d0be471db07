use vstd::prelude::*;

verus! {

/// A decoded 8-bit RGB image, row-major, three bytes per pixel, row 0 on top.
#[derive(Clone, Debug)]
pub struct Raster {
    width: u32,
    height: u32,
    data: Vec<u8>,
}

pub open spec fn clamp_below(x: u32, n: u32) -> u32 {
    if x < n { x } else { (n - 1) as u32 }
}

impl Raster {
    pub closed spec fn width_spec(&self) -> u32 {
        self.width
    }

    pub closed spec fn height_spec(&self) -> u32 {
        self.height
    }

    pub closed spec fn data_seq(&self) -> Seq<u8> {
        self.data@
    }

    pub open spec fn wf(&self) -> bool {
        &&& self.width_spec() > 0
        &&& self.height_spec() > 0
        &&& self.data_seq().len() == 3 * self.width_spec() * self.height_spec()
    }

    /// The three channels of the pixel in column `col` and row `row`.
    pub open spec fn pixel_spec(&self, col: int, row: int) -> (u8, u8, u8) {
        let at = 3 * (row * self.width_spec() + col);
        (self.data_seq()[at], self.data_seq()[at + 1], self.data_seq()[at + 2])
    }

    /// Wraps decoded pixel bytes; `None` when the image is empty or the
    /// bytes do not fill `width * height` pixels exactly.
    pub fn new(width: u32, height: u32, data: Vec<u8>) -> (r: Option<Raster>)
        ensures
            r is Some <==> (width > 0 && height > 0 && data@.len() == 3 * width * height),
            r matches Some(img) ==> img.width_spec() == width && img.height_spec() == height
                && img.data_seq() == data@,
    {
        if width == 0 || height == 0 {
            return None;
        }
        let w = width as u64;
        let h = height as u64;
        proof {
            assert(w * h <= 0xffff_ffff * 0xffff_ffff) by (nonlinear_arith)
                requires
                    w <= 0xffff_ffff,
                    h <= 0xffff_ffff,
            ;
        }
        let pixels = w * h;
        if pixels > (usize::MAX / 3) as u64 {
            assert(data@.len() == data.len());
            assert(3 * width * height > usize::MAX) by (nonlinear_arith)
                requires
                    pixels == width * height,
                    pixels > usize::MAX / 3,
            ;
            return None;
        }
        assert(3 * pixels == 3 * width * height) by (nonlinear_arith)
            requires
                pixels == width * height,
        ;
        if data.len() as u64 != 3 * pixels {
            return None;
        }
        Some(Raster { width, height, data })
    }

    pub fn width(&self) -> (r: u32)
        ensures
            r == self.width_spec(),
    {
        self.width
    }

    pub fn height(&self) -> (r: u32)
        ensures
            r == self.height_spec(),
    {
        self.height
    }

    /// The pixel at column `col` and row `row`, each clamped to the last one
    /// of the image.
    pub fn texel(&self, col: u32, row: u32) -> (r: (u8, u8, u8))
        requires
            self.wf(),
        ensures
            r == self.pixel_spec(
                clamp_below(col, self.width_spec()) as int,
                clamp_below(row, self.height_spec()) as int,
            ),
    {
        let c = if col < self.width { col } else { self.width - 1 };
        let r = if row < self.height { row } else { self.height - 1 };
        let w = self.width as usize;
        let h = self.height as usize;
        let (cu, ru) = (c as usize, r as usize);
        proof {
            assert(ru * w + cu < w * h) by (nonlinear_arith)
                requires
                    ru < h,
                    cu < w,
            ;
            assert(3 * (ru * w + cu) + 2 < 3 * w * h) by (nonlinear_arith)
                requires
                    ru * w + cu < w * h,
            ;
            assert(self.data@.len() == self.data.len());
        }
        let at = 3 * (ru * w + cu);
        (self.data[at], self.data[at + 1], self.data[at + 2])
    }
}

} // verus!
