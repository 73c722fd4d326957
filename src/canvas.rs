use crate::pixel::Pixel;
use crate::search::RecoveredPixel;
use vstd::prelude::*;

verus! {

/// The pixel value of a fresh canvas: every channel zero.
pub open spec fn blank() -> Pixel {
    Pixel { r: 0, g: 0, b: 0, a: 0 }
}

/// A `width` x `height` grid of pixels, stored row-major: pixel `(x, y)` at
/// `y * width + x`.
pub struct Canvas {
    pub width: u32,
    pub height: u32,
    pub pixels: Vec<Pixel>,
}

/// `base` after writing each recovered pixel at its linear index, in order.
pub open spec fn painted(base: Seq<Pixel>, rs: Seq<RecoveredPixel>) -> Seq<Pixel>
    decreases rs.len(),
{
    if rs.len() == 0 {
        base
    } else {
        painted(base, rs.drop_last()).update(rs.last().linear_index as int, rs.last().value)
    }
}

impl Canvas {
    pub open spec fn wf(&self) -> bool {
        self.pixels@.len() == self.width * self.height
    }

    /// A canvas of the given size with every pixel blank.
    pub fn new(width: u32, height: u32) -> (c: Canvas)
        requires
            width * height <= usize::MAX,
        ensures
            c.width == width,
            c.height == height,
            c.wf(),
            forall|i: int| 0 <= i < c.pixels@.len() ==> #[trigger] c.pixels@[i] == blank(),
    {
        let n: usize = width as usize * height as usize;
        let mut pixels: Vec<Pixel> = Vec::new();
        let mut i: usize = 0;
        while i < n
            invariant
                i <= n,
                pixels@.len() == i,
                forall|j: int| 0 <= j < i ==> #[trigger] pixels@[j] == blank(),
            decreases n - i,
        {
            pixels.push(Pixel { r: 0, g: 0, b: 0, a: 0 });
            i = i + 1;
        }
        Canvas { width, height, pixels }
    }

    /// The pixel at column `x` of row `y`.
    pub fn get_pixel(&self, x: u32, y: u32) -> (p: Pixel)
        requires
            self.wf(),
            x < self.width,
            y < self.height,
        ensures
            p == self.pixels@[y * self.width + x],
    {
        proof {
            lemma_cell_in_grid(x as int, y as int, self.width as int, self.height as int);
            assert(y * self.width + x < self.pixels.len());
        }
        self.pixels[y as usize * self.width as usize + x as usize]
    }

    /// Writes `p` at column `x` of row `y`.
    pub fn put_pixel(&mut self, x: u32, y: u32, p: Pixel)
        requires
            old(self).wf(),
            x < old(self).width,
            y < old(self).height,
        ensures
            final(self).width == old(self).width,
            final(self).height == old(self).height,
            final(self).pixels@ == old(self).pixels@.update(y * old(self).width + x, p),
    {
        proof {
            lemma_cell_in_grid(x as int, y as int, self.width as int, self.height as int);
            assert(y * self.width + x < self.pixels.len());
        }
        let i = y as usize * self.width as usize + x as usize;
        self.pixels.set(i, p);
    }

    /// Writes each recovered pixel at column `linear_index % width` of row
    /// `linear_index / width`, in order.
    pub fn assemble(&mut self, recovered: &Vec<RecoveredPixel>)
        requires
            old(self).wf(),
            forall|i: int|
                0 <= i < recovered@.len() ==> (#[trigger] recovered@[i]).linear_index < old(self).width
                    * old(self).height,
        ensures
            final(self).width == old(self).width,
            final(self).height == old(self).height,
            final(self).pixels@ == painted(old(self).pixels@, recovered@),
    {
        let ghost base = self.pixels@;
        let mut k: usize = 0;
        while k < recovered.len()
            invariant
                self.wf(),
                self.width == old(self).width,
                self.height == old(self).height,
                base == old(self).pixels@,
                k <= recovered@.len(),
                forall|i: int|
                    0 <= i < recovered@.len() ==> (#[trigger] recovered@[i]).linear_index < self.width
                        * self.height,
                self.pixels@ == painted(base, recovered@.subrange(0, k as int)),
            decreases recovered@.len() - k,
        {
            let rp = recovered[k];
            let w = self.width as usize;
            let idx = rp.linear_index;
            proof {
                lemma_index_to_cell(idx as int, self.width as int, self.height as int);
            }
            let x = (idx % w) as u32;
            let y = (idx / w) as u32;
            self.put_pixel(x, y, rp.value);
            assert(recovered@.subrange(0, k + 1).drop_last() =~= recovered@.subrange(0, k as int));
            k = k + 1;
        }
        assert(recovered@.subrange(0, recovered@.len() as int) =~= recovered@);
    }
}

proof fn lemma_cell_in_grid(x: int, y: int, w: int, h: int)
    requires
        0 <= x < w,
        0 <= y < h,
    ensures
        0 <= y * w + x < w * h,
{
    assert(y * w + x < w * h) by (nonlinear_arith)
        requires
            0 <= x < w,
            0 <= y < h,
    ;
    assert(0 <= y * w) by (nonlinear_arith)
        requires
            0 <= y,
            0 <= w,
    ;
}

proof fn lemma_index_to_cell(i: int, w: int, h: int)
    requires
        0 <= i < w * h,
        0 <= w,
        0 <= h,
    ensures
        w > 0,
        0 <= i % w < w,
        0 <= i / w < h,
        (i / w) * w + i % w == i,
{
    assert(w > 0) by (nonlinear_arith)
        requires
            0 <= i < w * h,
            0 <= w,
            0 <= h,
    ;
    assert(i / w < h) by (nonlinear_arith)
        requires
            0 <= i < w * h,
            w > 0,
    ;
    assert((i / w) * w + i % w == i) by (nonlinear_arith)
        requires
            w > 0,
    ;
}

/// When the `j`-th recovered pixel goes to index `j`, painting them all over
/// a canvas at least that long sets the first pixels to their values.
pub proof fn lemma_painted_in_order(base: Seq<Pixel>, rs: Seq<RecoveredPixel>)
    requires
        base.len() >= rs.len(),
        forall|j: int| 0 <= j < rs.len() ==> (#[trigger] rs[j]).linear_index == j,
    ensures
        painted(base, rs).len() == base.len(),
        forall|j: int| 0 <= j < rs.len() ==> #[trigger] painted(base, rs)[j] == rs[j].value,
    decreases rs.len(),
{
    if rs.len() > 0 {
        let front = rs.drop_last();
        assert forall|j: int| 0 <= j < front.len() implies (#[trigger] front[j]).linear_index == j by {
            assert(front[j] == rs[j]);
        }
        lemma_painted_in_order(base, front);
    }
}

} // verus!
