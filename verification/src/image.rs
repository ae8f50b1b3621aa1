//! A 2D matrix of colors, used to hold a rendered image.
use vstd::prelude::*;

verus! {

/// Represents a 2D-matrix of `Color`s. This is only used to save the final
/// result and show it on the screen. The data is saved contiguous line by
/// line:
///
///  [0] [1] [2]
///  [3] [4] [5]
///  [6] [7] [8]
///
pub struct PixelImage {
    width: usize,
    height: usize,
    data: Vec<Color>,
}

/// The mathematical content of a `PixelImage`.
pub struct PixelImageView {
    pub width: int,
    pub height: int,
    pub data: Seq<Color>,
}

impl View for PixelImage {
    type V = PixelImageView;

    closed spec fn view(&self) -> PixelImageView {
        PixelImageView { width: self.width as int, height: self.height as int, data: self.data@ }
    }
}

/// An RGB color with eight bits per channel.
#[derive(Clone, Copy, Debug, PartialEq, Eq, Structural)]
pub struct Color {
    pub r: u8,
    pub g: u8,
    pub b: u8,
}

/// The color packed into the lower 24 bits of a `u32`: red in the highest
/// of them, blue in the lowest.
pub open spec fn packed_color(c: Color) -> u32 {
    (c.r as int * 0x10000 + c.g as int * 0x100 + c.b as int) as u32
}

impl PixelImage {
    /// Creates an image of the given size where every pixel has the same
    /// color.
    pub fn monochrome(width: usize, height: usize, color: Color) -> (r: Self)
        requires
            width * height <= usize::MAX,
        ensures
            r@.width == width,
            r@.height == height,
            r@.data == Seq::new((width * height) as nat, |i: int| color),
    {
        let n = width * height;
        let mut data: Vec<Color> = Vec::new();
        let mut i: usize = 0;
        while i < n
            invariant
                i <= n,
                data@ == Seq::new(i as nat, |k: int| color),
            decreases n - i,
        {
            data.push(color);
            i = i + 1;
            assert(data@ =~= Seq::new(i as nat, |k: int| color));
        }
        PixelImage { width: width, height: height, data: data }
    }

    /// Builds the image from pixel data that was computed elsewhere, line by
    /// line; `None` if the data does not hold `width · height` pixels.
    pub fn from_data(width: usize, height: usize, data: Vec<Color>) -> (r: Option<Self>)
        ensures
            data@.len() == width * height <==> r is Some,
            r matches Some(img) ==> img@.width == width && img@.height == height && img@.data
                == data@,
    {
        let len = data.len();
        match width.checked_mul(height) {
            Some(n) => if n == len {
                Some(PixelImage { width: width, height: height, data: data })
            } else {
                None
            },
            None => None,
        }
    }

    /// Creates an image of the given size where the pixel in column `x` and
    /// line `y` gets the color `func(x, y)`.
    pub fn from_pixels<F>(width: usize, height: usize, func: F) -> (r: Self) where
        F: Fn(usize, usize) -> Color,

        requires
            width * height <= usize::MAX,
            forall|x: usize, y: usize| x < width && y < height ==> call_requires(func, (x, y)),
        ensures
            r@.width == width,
            r@.height == height,
            r@.data.len() == width * height,
            forall|i: int|
                0 <= i < width * height ==> call_ensures(
                    func,
                    ((i % width as int) as usize, (i / width as int) as usize),
                    #[trigger] r@.data[i],
                ),
    {
        let n = width * height;
        let mut data: Vec<Color> = Vec::new();
        let mut i: usize = 0;
        while i < n
            invariant
                i <= n,
                n == width * height,
                data@.len() == i,
                forall|x: usize, y: usize| x < width && y < height ==> call_requires(func, (x, y)),
                forall|k: int|
                    0 <= k < i ==> call_ensures(
                        func,
                        ((k % width as int) as usize, (k / width as int) as usize),
                        #[trigger] data@[k],
                    ),
            decreases n - i,
        {
            proof {
                assert(width > 0);
                assert(i / width < height) by (nonlinear_arith)
                    requires
                        i < width * height,
                        width > 0,
                ;
            }
            let c = func(i % width, i / width);
            data.push(c);
            i = i + 1;
        }
        PixelImage { width: width, height: height, data: data }
    }

    /// Returns all pixels packed into `u32`s (see `Color::to_u32`).
    pub fn to_u32_buffer(&self) -> (r: Vec<u32>)
        ensures
            r@.len() == self@.data.len(),
            forall|i: int| 0 <= i < r@.len() ==> #[trigger] r@[i] == packed_color(self@.data[i]),
    {
        let mut out: Vec<u32> = Vec::new();
        let mut i: usize = 0;
        while i < self.data.len()
            invariant
                i <= self.data@.len(),
                out@.len() == i,
                forall|k: int| 0 <= k < i ==> #[trigger] out@[k] == packed_color(self.data@[k]),
            decreases self.data@.len() - i,
        {
            out.push(self.data[i].to_u32());
            i = i + 1;
        }
        out
    }
}

impl Color {
    /// Black.
    pub fn black() -> (r: Self)
        ensures
            r == (Color { r: 0, g: 0, b: 0 }),
    {
        Color { r: 0, g: 0, b: 0 }
    }

    /// White.
    pub fn white() -> (r: Self)
        ensures
            r == (Color { r: 255, g: 255, b: 255 }),
    {
        Color { r: 255, g: 255, b: 255 }
    }

    /// Red.
    pub fn red() -> (r: Self)
        ensures
            r == (Color { r: 255, g: 0, b: 0 }),
    {
        Color { r: 255, g: 0, b: 0 }
    }

    /// Green.
    pub fn green() -> (r: Self)
        ensures
            r == (Color { r: 0, g: 255, b: 0 }),
    {
        Color { r: 0, g: 255, b: 0 }
    }

    /// Blue.
    pub fn blue() -> (r: Self)
        ensures
            r == (Color { r: 0, g: 0, b: 255 }),
    {
        Color { r: 0, g: 0, b: 255 }
    }

    /// A grey with the given brightness in all three channels.
    pub fn greyscale(level: u8) -> (r: Self)
        ensures
            r == (Color { r: level, g: level, b: level }),
    {
        Color { r: level, g: level, b: level }
    }

    /// The color packed into a `u32` as `0x00RRGGBB`.
    pub fn to_u32(&self) -> (r: u32)
        ensures
            r == packed_color(*self),
    {
        let r = self.r as u32;
        let g = self.g as u32;
        let b = self.b as u32;
        let out = (r << 16u32) | (g << 8u32) | (b << 0u32);
        assert(out == r * 0x10000 + g * 0x100 + b) by (bit_vector)
            requires
                r < 256,
                g < 256,
                b < 256,
                out == (r << 16u32) | (g << 8u32) | (b << 0u32),
        ;
        out
    }
}

/// Packing keeps the channels apart: each channel can be read back from
/// the packed color.
pub proof fn lemma_packed_color_channels(c: Color)
    ensures
        packed_color(c) / 0x10000 == c.r,
        (packed_color(c) / 0x100) % 0x100 == c.g,
        packed_color(c) % 0x100 == c.b,
{
}

} // verus!
