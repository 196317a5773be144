use vstd::prelude::*;

verus! {

/// An 8-bit RGBA pixel: red, green, blue, alpha.
pub type Rgba = [u8; 4];

/// The pixel every grid starts with: transparent black.
pub open spec fn clear_pixel() -> Rgba {
    [0u8, 0u8, 0u8, 0u8]
}

/// Where pixel (x, y) lives in the row-major buffer of a grid `width` wide.
pub open spec fn pixel_index(width: int, x: int, y: int) -> int {
    x + y * width
}

/// A width x height grid of RGBA pixels, stored row by row.
pub struct Bitmap {
    width: u32,
    height: u32,
    buffer: Vec<Rgba>,
}

impl Bitmap {
    pub closed spec fn spec_width(&self) -> nat {
        self.width as nat
    }

    pub closed spec fn spec_height(&self) -> nat {
        self.height as nat
    }

    /// The pixels, row after row.
    pub closed spec fn pixels(&self) -> Seq<Rgba> {
        self.buffer@
    }

    /// One pixel per coordinate, and the coordinates fit in `u32` arithmetic.
    pub open spec fn wf(&self) -> bool {
        &&& self.pixels().len() == self.spec_width() * self.spec_height()
        &&& self.spec_width() * self.spec_height() <= u32::MAX
    }

    /// The pixel at (x, y), for a coordinate inside the grid.
    pub open spec fn pixel_at(&self, x: int, y: int) -> Rgba {
        self.pixels()[pixel_index(self.spec_width() as int, x, y)]
    }

    /// A grid of the given size, every pixel transparent black.
    pub fn new(width: u32, height: u32) -> (r: Bitmap)
        requires
            width as int * height as int <= u32::MAX,
        ensures
            r.wf(),
            r.spec_width() == width,
            r.spec_height() == height,
            r.pixels() == Seq::new((width * height) as nat, |i: int| clear_pixel()),
    {
        let n: u32 = width * height;
        let mut buffer: Vec<Rgba> = Vec::new();
        let mut i: u32 = 0;
        while i < n
            invariant
                i <= n,
                buffer@ == Seq::new(i as nat, |j: int| clear_pixel()),
            decreases n - i,
        {
            buffer.push([0u8, 0u8, 0u8, 0u8]);
            assert(buffer@ =~= Seq::new((i + 1) as nat, |j: int| clear_pixel()));
            i = i + 1;
        }
        let r = Bitmap { width, height, buffer };
        assert(r.pixels() =~= Seq::new((width * height) as nat, |i: int| clear_pixel()));
        r
    }

    pub fn width(&self) -> (r: u32)
        ensures
            r == self.spec_width(),
    {
        self.width
    }

    pub fn height(&self) -> (r: u32)
        ensures
            r == self.spec_height(),
    {
        self.height
    }

    /// The pixel at (x, y).
    pub fn pixel(&self, x: u32, y: u32) -> (r: Rgba)
        requires
            self.wf(),
            x < self.spec_width(),
            y < self.spec_height(),
        ensures
            r == self.pixel_at(x as int, y as int),
    {
        proof {
            lemma_index_in_grid(self.width as int, self.height as int, x as int, y as int);
        }
        self.buffer[(x + y * self.width) as usize]
    }

    /// Writes one pixel. A coordinate outside the grid is ignored.
    pub fn set_pixel(&mut self, x: u32, y: u32, color: Rgba)
        requires
            old(self).wf(),
        ensures
            final(self).wf(),
            final(self).spec_width() == old(self).spec_width(),
            final(self).spec_height() == old(self).spec_height(),
            x < old(self).spec_width() && y < old(self).spec_height() ==> final(self).pixels()
                == old(self).pixels().update(
                pixel_index(old(self).spec_width() as int, x as int, y as int),
                color,
            ),
            !(x < old(self).spec_width() && y < old(self).spec_height()) ==> final(self).pixels()
                == old(self).pixels(),
    {
        if x < self.width && y < self.height {
            proof {
                lemma_index_in_grid(self.width as int, self.height as int, x as int, y as int);
            }
            let i: u32 = x + y * self.width;
            self.buffer.set(i as usize, color);
        }
    }

    /// The grid as a flat RGBA byte buffer, four bytes per pixel, row after row:
    /// the layout an image encoder takes.
    pub fn rgba_bytes(&self) -> (r: Vec<u8>)
        requires
            self.wf(),
        ensures
            r@.len() == 4 * self.pixels().len(),
            forall|i: int, k: int|
                0 <= i < self.pixels().len() && 0 <= k < 4 ==> #[trigger] r@[4 * i + k]
                    == self.pixels()[i][k],
    {
        let n: usize = self.buffer.len();
        let mut out: Vec<u8> = Vec::new();
        let mut i: usize = 0;
        while i < n
            invariant
                n == self.pixels().len(),
                n <= u32::MAX,
                i <= n,
                out@.len() == 4 * i,
                forall|j: int, k: int|
                    0 <= j < i && 0 <= k < 4 ==> #[trigger] out@[4 * j + k] == self.pixels()[j][k],
            decreases n - i,
        {
            let p: Rgba = self.buffer[i];
            out.push(p[0]);
            out.push(p[1]);
            out.push(p[2]);
            out.push(p[3]);
            assert forall|j: int, k: int|
                0 <= j < i + 1 && 0 <= k < 4 implies #[trigger] out@[4 * j + k]
                == self.pixels()[j][k] by {
                if j == i {
                    assert(4 * j + k == 4 * i + k);
                }
            }
            i = i + 1;
        }
        out
    }
}

/// A coordinate inside a width x height grid indexes inside its buffer.
pub proof fn lemma_index_in_grid(width: int, height: int, x: int, y: int)
    requires
        0 <= x < width,
        0 <= y < height,
    ensures
        0 <= pixel_index(width, x, y) < width * height,
{
    assert(y * width + x < width * height) by (nonlinear_arith)
        requires
            0 <= x < width,
            0 <= y < height,
    ;
    assert(0 <= y * width) by (nonlinear_arith)
        requires
            0 <= y,
            0 <= width,
    ;
}

} // verus!
