use vstd::prelude::*;

verus! {

/// Why a stage refused its input.
#[derive(Debug, Clone, Copy, PartialEq, Eq, Structural)]
pub enum HazeError {
    /// The grid has no pixel, or two arrays that must be of one size are not.
    InvalidDimensions,
    /// A tuning constant lies outside its domain.
    InvalidParameter,
}

/// One pixel: red, green and blue samples in `0..=255`.
#[derive(Debug, Clone, Copy, PartialEq, Eq, Structural)]
pub struct Rgb {
    pub r: u8,
    pub g: u8,
    pub b: u8,
}

/// The exact fraction `num / den`; meaningful only when `den > 0`.
#[derive(Debug, Clone, Copy, PartialEq, Eq, Structural)]
pub struct Fraction {
    pub num: u32,
    pub den: u32,
}

impl Fraction {
    /// The fraction lies strictly between zero and one.
    pub open spec fn in_open_unit(self) -> bool {
        0 < self.num && self.num < self.den
    }

    /// The fraction lies in `(0, 1]`.
    pub open spec fn in_half_open_unit(self) -> bool {
        0 < self.num && self.num <= self.den
    }

    pub fn new(num: u32, den: u32) -> (r: Fraction)
        ensures
            r.num == num,
            r.den == den,
    {
        Fraction { num, den }
    }
}

pub open spec fn min3(a: int, b: int, c: int) -> int {
    if a <= b && a <= c {
        a
    } else if b <= c {
        b
    } else {
        c
    }
}

pub open spec fn max3(a: int, b: int, c: int) -> int {
    if a >= b && a >= c {
        a
    } else if b >= c {
        b
    } else {
        c
    }
}

impl Rgb {
    /// The darkest of the three samples.
    pub open spec fn darkest(self) -> int {
        min3(self.r as int, self.g as int, self.b as int)
    }

    /// The brightest of the three samples.
    pub open spec fn brightest(self) -> int {
        max3(self.r as int, self.g as int, self.b as int)
    }

    pub fn min_channel(&self) -> (r: u8)
        ensures
            r as int == self.darkest(),
    {
        let m = if self.r <= self.g { self.r } else { self.g };
        if m <= self.b { m } else { self.b }
    }

    pub fn max_channel(&self) -> (r: u8)
        ensures
            r as int == self.brightest(),
    {
        let m = if self.r >= self.g { self.r } else { self.g };
        if m >= self.b { m } else { self.b }
    }
}

/// The number of cells of a `w` by `h` grid.
pub fn area(w: u32, h: u32) -> (r: u64)
    ensures
        r == w as int * h as int,
{
    proof {
        assert(w as int * h as int <= u32::MAX as int * u32::MAX as int) by (nonlinear_arith)
            requires w <= u32::MAX, h <= u32::MAX, 0 <= w, 0 <= h;
    }
    w as u64 * h as u64
}

/// A grid of `width * height` RGB pixels in row-major order: the pixel at
/// column `x` and row `y` has index `y * width + x`. The stages accept it only
/// when it is well formed (`wf`): non-empty, with exactly that many pixels.
pub struct Image {
    pub width: u32,
    pub height: u32,
    pub pixels: Vec<Rgb>,
}

impl Image {
    pub open spec fn w(&self) -> int {
        self.width as int
    }

    pub open spec fn h(&self) -> int {
        self.height as int
    }

    /// The pixel at column `x`, row `y`.
    pub open spec fn at(&self, x: int, y: int) -> Rgb {
        self.pixels@[y * self.w() + x]
    }

    pub open spec fn wf(&self) -> bool {
        &&& self.width > 0
        &&& self.height > 0
        &&& self.pixels@.len() == self.w() * self.h()
    }

    /// Builds a grid from its pixels in row-major order.
    pub fn new(width: u32, height: u32, pixels: Vec<Rgb>) -> (r: Result<Image, HazeError>)
        ensures
            match r {
                Ok(img) => {
                    &&& img.wf()
                    &&& img.width == width
                    &&& img.height == height
                    &&& img.pixels@ == pixels@
                },
                Err(e) => e == HazeError::InvalidDimensions,
            },
            r.is_ok() <==> (width > 0 && height > 0 && pixels@.len() == width as int
                * height as int),
    {
        if width == 0 || height == 0 || pixels.len() as u64 != area(width, height) {
            return Err(HazeError::InvalidDimensions);
        }
        Ok(Image { width, height, pixels })
    }

    /// Builds a grid from interleaved samples, `channels` (3 or 4) per pixel in
    /// row-major order; a fourth sample (alpha) is dropped.
    pub fn from_samples(width: u32, height: u32, channels: u32, samples: &Vec<u8>) -> (r: Result<Image, HazeError>)
        ensures
            match r {
                Ok(img) => {
                    &&& img.wf()
                    &&& img.width == width
                    &&& img.height == height
                    &&& forall|i: int|
                        0 <= i < img.pixels@.len() ==> #[trigger] img.pixels@[i] == (Rgb {
                            r: samples@[channels * i],
                            g: samples@[channels * i + 1],
                            b: samples@[channels * i + 2],
                        })
                },
                Err(e) => if channels != 3 && channels != 4 {
                    e == HazeError::InvalidParameter
                } else {
                    e == HazeError::InvalidDimensions
                },
            },
            r.is_ok() <==> (channels == 3 || channels == 4) && width > 0 && height > 0
                && samples@.len() == channels * width * height,
    {
        if channels != 3 && channels != 4 {
            return Err(HazeError::InvalidParameter);
        }
        let n = area(width, height);
        if width == 0 || height == 0 || n > samples.len() as u64 / channels as u64
            || samples.len() as u64 != n * channels as u64 {
            proof {
                if samples@.len() == channels * width * height {
                    assert(channels * width * height == (width * height) * channels) by (nonlinear_arith);
                    assert(samples@.len() as int / channels as int == n) by (nonlinear_arith)
                        requires samples@.len() == n * channels, channels > 0;
                }
            }
            return Err(HazeError::InvalidDimensions);
        }
        proof {
            assert(channels * width * height == (width * height) * channels) by (nonlinear_arith);
        }
        let c = channels as usize;
        let len = samples.len();
        let count = len / c;
        proof {
            assert(count == n) by (nonlinear_arith)
                requires len == n * c, c > 0, count == len / c;
        }
        let mut pixels: Vec<Rgb> = Vec::new();
        let mut i: usize = 0;
        while i < count
            invariant
                c == channels,
                len == samples@.len(),
                count == n,
                c == 3 || c == 4,
                n == width as int * height as int,
                samples@.len() == n * c,
                i <= n,
                pixels@.len() == i,
                forall|j: int|
                    0 <= j < i ==> #[trigger] pixels@[j] == (Rgb {
                        r: samples@[channels * j],
                        g: samples@[channels * j + 1],
                        b: samples@[channels * j + 2],
                    }),
            decreases n - i,
        {
            proof {
                assert(c * i + c <= c * n) by (nonlinear_arith)
                    requires i < n, c > 0;
            }
            let k = c * i;
            pixels.push(Rgb { r: samples[k], g: samples[k + 1], b: samples[k + 2] });
            i = i + 1;
        }
        Ok(Image { width, height, pixels })
    }

    /// Tells whether the grid is well formed.
    pub fn is_valid(&self) -> (r: bool)
        ensures
            r == self.wf(),
    {
        self.width > 0 && self.height > 0 && self.pixels.len() as u64 == area(self.width, self.height)
    }

    pub fn width(&self) -> (r: u32)
        ensures
            r == self.width,
    {
        self.width
    }

    pub fn height(&self) -> (r: u32)
        ensures
            r == self.height,
    {
        self.height
    }

    pub fn len(&self) -> (r: usize)
        ensures
            r == self.pixels@.len(),
    {
        self.pixels.len()
    }

    pub fn pixel(&self, i: usize) -> (r: Rgb)
        requires
            i < self.pixels@.len(),
        ensures
            r == self.pixels@[i as int],
    {
        self.pixels[i]
    }
}

} // verus!
