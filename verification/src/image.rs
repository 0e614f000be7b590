//! A decoded raster image: a plain pixel buffer with accessors. Decoding
//! image files is I/O and happens outside the library; the buffer
//! arrives here as bytes.

use vstd::prelude::*;

verus! {

pub struct Image {
    width: u32,
    height: u32,
    bdata: Option<Vec<u8>>,
    bytes_per_pixel: u32,
    bytes_per_scanline: u32,
}

/// `x` forced into `[0, high)`.
pub open spec fn spec_clamp(x: int, high: int) -> int {
    if x < 0 {
        0
    } else if x < high {
        x
    } else {
        high - 1
    }
}

impl Image {
    /// The buffer, if present, matches the dimensions: three bytes per
    /// pixel, row-major.
    #[verifier::type_invariant]
    pub closed spec fn wf(self) -> bool {
        match self.bdata {
            None => self.width == 0 && self.height == 0,
            Some(d) => {
                &&& self.width > 0
                &&& self.height > 0
                &&& self.width < 0x8000
                &&& self.height < 0x8000
                &&& self.bytes_per_pixel == 3
                &&& self.bytes_per_scanline == self.width * 3
                &&& d@.len() == self.height * self.bytes_per_scanline
            },
        }
    }

    pub closed spec fn spec_width(&self) -> u32 {
        self.width
    }

    pub closed spec fn spec_height(&self) -> u32 {
        self.height
    }

    pub closed spec fn has_data(&self) -> bool {
        self.bdata is Some
    }

    /// The pixel at `(x, y)` after clamping, or magenta when no data is
    /// loaded.
    pub closed spec fn spec_pixel_data(&self, x: u32, y: u32) -> (u8, u8, u8) {
        match self.bdata {
            None => (255u8, 0u8, 255u8),
            Some(d) => {
                let cx = spec_clamp(x as int, self.width as int);
                let cy = spec_clamp(y as int, self.height as int);
                let index = cy * self.bytes_per_scanline + cx * 3;
                (d@[index], d@[index + 1], d@[index + 2])
            },
        }
    }

    /// An image with no data; every lookup returns magenta.
    pub fn new() -> (img: Image)
        ensures
            !img.has_data(),
            img.width() == 0 && img.height() == 0,
            forall|x: u32, y: u32| #[trigger] img.spec_pixel_data(x, y) == (255u8, 0u8, 255u8),
    {
        Image { width: 0, height: 0, bdata: None, bytes_per_pixel: 3, bytes_per_scanline: 0 }
    }

    /// An image over a row-major RGB byte buffer.
    pub fn from_raw(width: u32, height: u32, data: Vec<u8>) -> (img: Image)
        requires
            0 < width < 0x8000,
            0 < height < 0x8000,
            data@.len() == height * (width * 3),
        ensures
            img.width() == width,
            img.height() == height,
            img.has_data(),
            forall|x: u32, y: u32| x < width && y < height ==> #[trigger] img.spec_pixel_data(x,
                y) == (data@[y * (width * 3) + x * 3], data@[y * (width * 3) + x * 3 + 1],
                data@[y * (width * 3) + x * 3 + 2]),
    {
        proof {
            assert(height * (width * 3) == height as int * (width as int * 3));
        }
        Image {
            width,
            height,
            bdata: Some(data),
            bytes_per_pixel: 3,
            bytes_per_scanline: width * 3,
        }
    }

    #[verifier::when_used_as_spec(spec_width)]
    pub fn width(&self) -> (w: u32)
        ensures
            w == self.spec_width(),
    {
        self.width
    }

    #[verifier::when_used_as_spec(spec_height)]
    pub fn height(&self) -> (h: u32)
        ensures
            h == self.spec_height(),
            h > 0 ==> 0 < self.spec_width() < 0x8000 && h < 0x8000 && self.has_data(),
    {
        proof {
            use_type_invariant(self);
        }
        self.height
    }

    /// The RGB bytes of the pixel at `(x, y)`, clamped into range;
    /// magenta when no data is loaded.
    pub fn pixel_data(&self, x: u32, y: u32) -> (px: (u8, u8, u8))
        ensures
            px == self.spec_pixel_data(x, y),
    {
        proof {
            use_type_invariant(self);
        }
        match &self.bdata {
            None => (255, 0, 255),
            Some(d) => {
                let cx = Self::clamp(x, 0, self.width);
                let cy = Self::clamp(y, 0, self.height);
                proof {
                    assert(cy as int * (self.width as int * 3) + cx as int * 3 + 3
                        <= self.height as int * (self.width as int * 3))
                        by (nonlinear_arith)
                        requires
                            cy as int <= self.height as int - 1,
                            cx as int <= self.width as int - 1,
                            self.width > 0 && self.height > 0;
                }
                proof {
                    assert(cy as int * (self.bytes_per_scanline as int) + cx as int * 3
                        < 0xC000_0000) by (nonlinear_arith)
                        requires
                            cy < 0x8000,
                            0 <= cy,
                            0 <= cx,
                            cx < 0x8000,
                            self.bytes_per_scanline as int == self.width as int * 3,
                            self.width < 0x8000;
                    assert(cy as int * (self.width as int * 3) + cx as int * 3
                        == cy as int * (self.bytes_per_scanline as int) + cx as int * 3);
                }
                let index64 = (cy as u64) * (self.bytes_per_scanline as u64) + (cx as u64) * 3;
                let index = index64 as usize;
                (d[index], d[index + 1], d[index + 2])
            },
        }
    }

    /// `x` forced into `[low, high)`; `high` must be positive.
    fn clamp(x: u32, low: u32, high: u32) -> (r: u32)
        requires
            low == 0,
            high > 0,
        ensures
            r == spec_clamp(x as int, high as int),
            r < high,
    {
        if x < low {
            low
        } else if x < high {
            x
        } else {
            high - 1
        }
    }
}

} // verus!
