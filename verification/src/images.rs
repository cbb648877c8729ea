use vstd::pervasive::VecAdditionalExecFns;
use vstd::prelude::*;

verus! {

/// The background value every atlas pixel starts from: a fully transparent
/// RGBA pixel packed into one `u32`.
pub const BACKGROUND: u32 = 0;

/// One input asset: an identifier and a `width` x `height` grid of RGBA
/// pixels, stored row-major with each pixel packed into one `u32`.
pub struct SourceImage {
    pub id: String,
    pub width: u32,
    pub height: u32,
    pub pixels: Vec<u32>,
}

impl SourceImage {
    /// A well-formed image has positive dimensions and exactly
    /// `width * height` pixels.
    pub open spec fn wf(self) -> bool {
        &&& self.width >= 1
        &&& self.height >= 1
        &&& self.pixels@.len() == self.width * self.height
    }

    /// The pixel at column `x`, row `y` of the row-major grid.
    pub open spec fn spec_pixel(self, x: int, y: int) -> u32 {
        self.pixels@[y * self.width + x]
    }

    /// Builds a well-formed image, or returns `None` when the dimensions are
    /// zero or do not match the number of pixels supplied.
    pub fn new(id: String, width: u32, height: u32, pixels: Vec<u32>) -> (r: Option<SourceImage>)
        ensures
            match r {
                Some(img) => {
                    &&& img.wf()
                    &&& img.id == id
                    &&& img.width == width
                    &&& img.height == height
                    &&& img.pixels == pixels
                },
                None => !(width >= 1 && height >= 1 && pixels@.len() == width * height),
            },
            (width >= 1 && height >= 1 && pixels@.len() == width * height) ==> r is Some,
    {
        if width >= 1 && height >= 1 {
            proof {
                assert((width as int) * (height as int) <= u64::MAX as int) by (nonlinear_arith)
                    requires
                        width <= u32::MAX,
                        height <= u32::MAX,
                ;
            }
            let need: u64 = (width as u64) * (height as u64);
            if (pixels.len() as u64) == need {
                return Some(SourceImage { id, width, height, pixels });
            }
        }
        None
    }

    /// Reads the pixel at `(x, y)`.
    pub fn pixel(&self, x: u32, y: u32) -> (r: u32)
        requires
            self.wf(),
            x < self.width,
            y < self.height,
        ensures
            r == self.spec_pixel(x as int, y as int),
    {
        let n: usize = self.pixels.len();
        proof {
            lemma_grid_index(self.width as int, self.height as int, x as int, y as int);
        }
        let idx: usize = (y as usize) * (self.width as usize) + (x as usize);
        assert(idx < n);
        self.pixels[idx]
    }
}

/// A linear row-major index stays inside a `w` x `h` grid.
pub proof fn lemma_grid_index(w: int, h: int, x: int, y: int)
    requires
        0 <= x < w,
        0 <= y < h,
    ensures
        0 <= y * w + x,
        y * w + x < h * w,
        y * w <= y * w + x,
{
    assert(y * w + x < h * w) by (nonlinear_arith)
        requires
            0 <= x < w,
            0 <= y < h,
    ;
    assert(0 <= y * w) by (nonlinear_arith)
        requires
            0 <= y,
            0 <= w,
    ;
}

/// Distinct grid coordinates map to distinct row-major indices.
pub proof fn lemma_grid_index_injective(w: int, x1: int, y1: int, x2: int, y2: int)
    requires
        0 <= x1 < w,
        0 <= x2 < w,
        0 <= y1,
        0 <= y2,
        y1 * w + x1 == y2 * w + x2,
    ensures
        x1 == x2,
        y1 == y2,
{
    assert(y1 == y2) by (nonlinear_arith)
        requires
            0 <= x1 < w,
            0 <= x2 < w,
            0 <= y1,
            0 <= y2,
            y1 * w + x1 == y2 * w + x2,
    ;
}

/// The single output canvas: a mutable `size` x `size` grid of RGBA pixels,
/// stored row-major with each pixel packed into one `u32`.
pub struct AtlasBuffer {
    pub size: u32,
    pub pixels: Vec<u32>,
}

impl AtlasBuffer {
    /// A well-formed atlas holds exactly `size * size` pixels.
    pub open spec fn wf(self) -> bool {
        self.pixels@.len() == self.size * self.size
    }

    /// The pixel at column `x`, row `y` of the row-major grid.
    pub open spec fn spec_pixel(self, x: int, y: int) -> u32 {
        self.pixels@[y * self.size + x]
    }

    /// Builds an atlas with every pixel at the background value.
    pub fn new(size: u32) -> (r: AtlasBuffer)
        requires
            (size as int) * (size as int) <= usize::MAX as int,
        ensures
            r.wf(),
            r.size == size,
            forall|x: int, y: int|
                0 <= x < size && 0 <= y < size ==> r.spec_pixel(x, y) == BACKGROUND,
    {
        let n: usize = (size as usize) * (size as usize);
        let mut pixels: Vec<u32> = Vec::new();
        let mut i: usize = 0;
        while i < n
            invariant
                i <= n,
                pixels@.len() == i,
                forall|j: int| 0 <= j < i ==> pixels@[j] == BACKGROUND,
            decreases n - i,
        {
            pixels.push(BACKGROUND);
            i = i + 1;
        }
        let r = AtlasBuffer { size, pixels };
        proof {
            assert forall|x: int, y: int|
                0 <= x < size && 0 <= y < size implies r.spec_pixel(x, y) == BACKGROUND by {
                lemma_grid_index(size as int, size as int, x, y);
            }
        }
        r
    }

    /// Reads the pixel at `(x, y)`.
    pub fn pixel(&self, x: u32, y: u32) -> (r: u32)
        requires
            self.wf(),
            x < self.size,
            y < self.size,
        ensures
            r == self.spec_pixel(x as int, y as int),
    {
        let n: usize = self.pixels.len();
        proof {
            lemma_grid_index(self.size as int, self.size as int, x as int, y as int);
        }
        let idx: usize = (y as usize) * (self.size as usize) + (x as usize);
        assert(idx < n);
        self.pixels[idx]
    }

    /// Overwrites the pixel at `(x, y)`, leaving every other pixel unchanged.
    pub fn set_pixel(&mut self, x: u32, y: u32, v: u32)
        requires
            old(self).wf(),
            x < old(self).size,
            y < old(self).size,
        ensures
            final(self).wf(),
            final(self).size == old(self).size,
            final(self).spec_pixel(x as int, y as int) == v,
            forall|x2: int, y2: int|
                0 <= x2 < old(self).size && 0 <= y2 < old(self).size && !(x2 == x && y2 == y)
                    ==> final(self).spec_pixel(x2, y2) == old(self).spec_pixel(x2, y2),
    {
        let n: usize = self.pixels.len();
        proof {
            lemma_grid_index(self.size as int, self.size as int, x as int, y as int);
        }
        let idx: usize = (y as usize) * (self.size as usize) + (x as usize);
        assert(idx < n);
        self.pixels.set(idx, v);
        proof {
            assert forall|x2: int, y2: int|
                0 <= x2 < self.size && 0 <= y2 < self.size && !(x2 == x && y2 == y)
                    implies self.spec_pixel(x2, y2) == old(self).spec_pixel(x2, y2) by {
                lemma_grid_index(self.size as int, self.size as int, x2, y2);
                if y2 * self.size + x2 == y * self.size + x {
                    lemma_grid_index_injective(self.size as int, x2, y2, x as int, y as int);
                }
            }
        }
    }
}

/// One line of the output manifest: an identifier and the rectangle the
/// image of that identifier was placed at.
pub struct ManifestEntry {
    pub id: String,
    pub x: u32,
    pub y: u32,
    pub width: u32,
    pub height: u32,
}

} // verus!
