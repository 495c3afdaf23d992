//! The values that flow along graph edges: an evaluation produces an
//! artifact, most commonly an RGBA raster image, and a plain integer for
//! value-producing nodes.

use vstd::prelude::*;

verus! {

/// One straight-alpha RGBA pixel, eight bits per channel.
#[derive(Clone, Copy, Debug, PartialEq, Eq, Structural)]
pub struct Pixel {
    pub r: u8,
    pub g: u8,
    pub b: u8,
    pub a: u8,
}

impl Pixel {
    pub fn rgba(r: u8, g: u8, b: u8, a: u8) -> (p: Pixel)
        ensures
            p == (Pixel { r, g, b, a }),
    {
        Pixel { r, g, b, a }
    }
}

/// The mathematical model of an image: its size and its pixel grid.
pub struct ImageView {
    pub width: nat,
    pub height: nat,
    pub pixels: Seq<Pixel>,
}

impl ImageView {
    /// The pixel store holds exactly one pixel per coordinate.
    pub open spec fn wf(&self) -> bool {
        self.pixels.len() == self.width * self.height
    }

    /// The pixel at a coordinate.
    pub open spec fn pixel(&self, x: int, y: int) -> Pixel {
        self.pixels[y * self.width + x]
    }
}

/// An owned raster image in row-major order.
#[derive(Clone, Debug, PartialEq)]
pub struct ImageBuf {
    pub width: u32,
    pub height: u32,
    pub pixels: Vec<Pixel>,
}

impl View for ImageBuf {
    type V = ImageView;

    open spec fn view(&self) -> ImageView {
        ImageView {
            width: self.width as nat,
            height: self.height as nat,
            pixels: self.pixels@,
        }
    }
}

impl ImageBuf {
    /// A solid image of the given size.
    pub fn new_filled(width: u32, height: u32, fill: Pixel) -> (img: ImageBuf)
        requires
            width * height <= usize::MAX,
        ensures
            img@.wf(),
            img@.width == width,
            img@.height == height,
            forall|x: int, y: int|
                0 <= x < width && 0 <= y < height ==> img@.pixel(x, y) == fill,
    {
        let count = (width as usize) * (height as usize);
        let pixels = vec![fill; count];
        let img = ImageBuf { width, height, pixels };
        proof {
            assert forall|x: int, y: int|
                0 <= x < width && 0 <= y < height implies img@.pixel(x, y) == fill by {
                lemma_row_major_index_in_range(width as int, height as int, x, y);
            }
        }
        img
    }

    pub fn get_width(&self) -> (w: u32)
        ensures
            w == self@.width,
    {
        self.width
    }

    pub fn get_height(&self) -> (h: u32)
        ensures
            h == self@.height,
    {
        self.height
    }

    pub fn get_pixel(&self, x: u32, y: u32) -> (p: Pixel)
        requires
            self@.wf(),
            x < self@.width,
            y < self@.height,
        ensures
            p == self@.pixel(x as int, y as int),
    {
        let n = self.pixels.len();
        proof {
            lemma_row_major_index_in_range(self.width as int, self.height as int, x as int, y as int);
        }
        let index = (y as usize) * (self.width as usize) + (x as usize);
        self.pixels[index]
    }

    pub fn set_pixel(&mut self, x: u32, y: u32, p: Pixel)
        requires
            old(self)@.wf(),
            x < old(self)@.width,
            y < old(self)@.height,
        ensures
            final(self)@.wf(),
            final(self)@.width == old(self)@.width,
            final(self)@.height == old(self)@.height,
            final(self)@.pixels == old(self)@.pixels.update(y * old(self)@.width + x, p),
    {
        let n = self.pixels.len();
        proof {
            lemma_row_major_index_in_range(self.width as int, self.height as int, x as int, y as int);
        }
        let index = (y as usize) * (self.width as usize) + (x as usize);
        self.pixels.set(index, p);
    }

    /// A copy whose model equals this image's, unlike the derived `Clone`.
    pub fn duplicate(&self) -> (r: ImageBuf)
        ensures
            r@ == self@,
    {
        let mut pixels: Vec<Pixel> = Vec::new();
        let mut i: usize = 0;
        let n = self.pixels.len();
        while i < n
            invariant
                i <= n,
                n == self.pixels@.len(),
                pixels@ == self.pixels@.take(i as int),
            decreases n - i,
        {
            pixels.push(self.pixels[i]);
            i = i + 1;
        }
        assert(pixels@ =~= self.pixels@);
        let r = ImageBuf { width: self.width, height: self.height, pixels };
        assert(r@ =~~= self@);
        r
    }
}

/// A row-major coordinate lies inside the pixel store.
pub proof fn lemma_row_major_index_in_range(w: int, h: int, x: int, y: int) by (nonlinear_arith)
    requires
        0 <= x < w,
        0 <= y < h,
    ensures
        0 <= y * w + x < w * h,
{
}

/// The mathematical model of an artifact.
pub enum ArtifactView {
    Image(ImageView),
    Int(int),
}

/// What a node evaluation hands to its consumers.
#[derive(Clone, Debug, PartialEq)]
pub enum Artifact {
    Image(ImageBuf),
    Int(i64),
}

impl View for Artifact {
    type V = ArtifactView;

    open spec fn view(&self) -> ArtifactView {
        match self {
            Artifact::Image(img) => ArtifactView::Image(img@),
            Artifact::Int(v) => ArtifactView::Int(*v as int),
        }
    }
}

impl Artifact {
    /// A copy whose model equals this artifact's, unlike the derived `Clone`.
    pub fn duplicate(&self) -> (r: Artifact)
        ensures
            r@ == self@,
    {
        match self {
            Artifact::Image(img) => Artifact::Image(img.duplicate()),
            Artifact::Int(v) => Artifact::Int(*v),
        }
    }
}

} // verus!
