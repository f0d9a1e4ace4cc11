use vstd::prelude::*;

verus! {

/// One sample of one pixel: column `i`, row `j`, and `n`, the number of the
/// pass over the image that it belongs to.
#[derive(Debug, Clone, Copy, PartialEq, Eq, Structural)]
pub struct SamplePosition {
    pub i: usize,
    pub j: usize,
    pub n: usize,
}

/// Position of a pixel in the row-major colour buffer of an image
/// `image_width` pixels wide.
pub open spec fn spec_pixel_index(image_width: int, i: int, j: int) -> int {
    j * image_width + i
}

/// Position of a pixel in the row-major colour buffer.
pub fn pixel_index(image_width: usize, i: usize, j: usize) -> (index: usize)
    requires
        j * image_width + i <= usize::MAX,
    ensures
        index == spec_pixel_index(image_width as int, i as int, j as int),
{
    j * image_width + i
}

/// Law: inside an image of `image_width` by `image_height` pixels, each pixel
/// has its own buffer position, below `image_width * image_height`.
pub proof fn lemma_pixel_index_in_buffer(image_width: int, image_height: int, i1: int, j1: int, i2: int, j2: int)
    requires
        0 <= i1 < image_width,
        0 <= j1 < image_height,
        0 <= i2 < image_width,
        0 <= j2 < image_height,
    ensures
        0 <= spec_pixel_index(image_width, i1, j1) < image_width * image_height,
        spec_pixel_index(image_width, i1, j1) == spec_pixel_index(image_width, i2, j2) ==> i1 == i2 && j1 == j2,
{
    assert(0 <= j1 * image_width + i1 < image_width * image_height) by (nonlinear_arith)
        requires
            0 <= i1 < image_width,
            0 <= j1 < image_height,
    ;
    if j1 * image_width + i1 == j2 * image_width + i2 {
        assert(j1 == j2 && i1 == i2) by (nonlinear_arith)
            requires
                0 <= i1 < image_width,
                0 <= i2 < image_width,
                0 <= j1,
                0 <= j2,
                j1 * image_width + i1 == j2 * image_width + i2,
        {
            if j1 < j2 {
                assert(j1 * image_width + image_width <= j2 * image_width);
            } else if j2 < j1 {
                assert(j2 * image_width + image_width <= j1 * image_width);
            }
        }
    }
}

/// Place of a sample in the scanline order: passes one after the other; in a
/// pass, rows from the bottom one up; in a row, columns from the right one to
/// the left.
pub open spec fn scanline_rank(image_width: int, image_height: int, p: SamplePosition) -> int {
    p.n * (image_width * image_height) + (image_height - 1 - p.j) * image_width + (image_width - 1 - p.i)
}

/// The sample lies inside an image of the given size, in one of its passes.
pub open spec fn in_image(image_width: int, image_height: int, samples_per_pixel: int, p: SamplePosition) -> bool {
    &&& p.i < image_width
    &&& p.j < image_height
    &&& p.n < samples_per_pixel
}

/// Law: in the scanline order, every sample of every pixel has its own
/// place, and the places are exactly `0 .. width * height * samples`.
pub proof fn lemma_scanline_rank_bounds(image_width: int, image_height: int, samples_per_pixel: int, p: SamplePosition)
    requires
        in_image(image_width, image_height, samples_per_pixel, p),
    ensures
        0 <= scanline_rank(image_width, image_height, p) < samples_per_pixel * (image_width * image_height),
{
    let w = image_width;
    let h = image_height;
    let a = (h - 1 - p.j) * w + (w - 1 - p.i);
    assert(0 <= a < w * h) by (nonlinear_arith)
        requires
            0 <= p.i < w,
            0 <= p.j < h,
            a == (h - 1 - p.j) * w + (w - 1 - p.i),
    ;
    assert(0 <= p.n * (w * h) + a < samples_per_pixel * (w * h)) by (nonlinear_arith)
        requires
            0 <= a < w * h,
            0 <= p.n < samples_per_pixel,
    ;
}

/// Law: two samples with the same place in the scanline order are the same.
pub proof fn lemma_scanline_rank_injective(
    image_width: int,
    image_height: int,
    samples_per_pixel: int,
    p: SamplePosition,
    q: SamplePosition,
)
    requires
        in_image(image_width, image_height, samples_per_pixel, p),
        in_image(image_width, image_height, samples_per_pixel, q),
        scanline_rank(image_width, image_height, p) == scanline_rank(image_width, image_height, q),
    ensures
        p == q,
{
    let w = image_width;
    let h = image_height;
    let ap = (h - 1 - p.j) * w + (w - 1 - p.i);
    let aq = (h - 1 - q.j) * w + (w - 1 - q.i);
    lemma_pixel_index_in_buffer(w, h, (w - 1 - p.i) as int, (h - 1 - p.j) as int, (w - 1 - q.i) as int, (h - 1 - q.j) as int);
    lemma_pixel_index_in_buffer(w, h, (w - 1 - q.i) as int, (h - 1 - q.j) as int, (w - 1 - p.i) as int, (h - 1 - p.j) as int);
    assert(p.n == q.n) by (nonlinear_arith)
        requires
            0 <= ap < w * h,
            0 <= aq < w * h,
            p.n >= 0,
            q.n >= 0,
            p.n * (w * h) + ap == q.n * (w * h) + aq,
    {
        if p.n < q.n {
            assert(p.n * (w * h) + w * h <= q.n * (w * h));
        } else if q.n < p.n {
            assert(q.n * (w * h) + w * h <= p.n * (w * h));
        }
    }
}

/// The first sample rendered in scanline order, if the image has any: the
/// bottom right pixel of the first pass. The display sizes its canvas from
/// the first pixel it receives, so this one has to come first.
pub fn scanline_first(image_width: usize, image_height: usize, samples_per_pixel: usize) -> (first: Option<SamplePosition>)
    ensures
        first is None <==> (image_width == 0 || image_height == 0 || samples_per_pixel == 0),
        first matches Some(p) ==> p == (SamplePosition { i: (image_width - 1) as usize, j: (image_height - 1) as usize, n: 0 }),
        first matches Some(p) ==> scanline_rank(image_width as int, image_height as int, p) == 0,
{
    if image_width == 0 || image_height == 0 || samples_per_pixel == 0 {
        None
    } else {
        let p = SamplePosition { i: image_width - 1, j: image_height - 1, n: 0 };
        proof {
            let w = image_width as int;
            assert(0 * (w * (image_height as int)) + 0 * w + 0 == 0) by (nonlinear_arith);
        }
        Some(p)
    }
}

/// The sample rendered after `p` in scanline order, if any: the pixel to the
/// left, or else the right end of the row above, or else the bottom right
/// pixel of the next pass.
pub fn scanline_next(image_width: usize, image_height: usize, samples_per_pixel: usize, p: SamplePosition) -> (next: Option<SamplePosition>)
    requires
        in_image(image_width as int, image_height as int, samples_per_pixel as int, p),
    ensures
        next is None <==> scanline_rank(image_width as int, image_height as int, p) + 1
            == samples_per_pixel * (image_width * image_height),
        next matches Some(q) ==> in_image(image_width as int, image_height as int, samples_per_pixel as int, q),
        next matches Some(q) ==> scanline_rank(image_width as int, image_height as int, q)
            == scanline_rank(image_width as int, image_height as int, p) + 1,
{
    let ghost w = image_width as int;
    let ghost h = image_height as int;
    let ghost s = samples_per_pixel as int;
    proof {
        lemma_scanline_rank_bounds(w, h, s, p);
    }
    if p.i > 0 {
        let q = SamplePosition { i: p.i - 1, j: p.j, n: p.n };
        proof {
            lemma_scanline_rank_bounds(w, h, s, q);
        }
        Some(q)
    } else if p.j > 0 {
        let q = SamplePosition { i: image_width - 1, j: p.j - 1, n: p.n };
        proof {
            lemma_scanline_rank_bounds(w, h, s, q);
            assert((h - 1 - (p.j - 1)) * w == (h - 1 - p.j) * w + w) by (nonlinear_arith);
        }
        Some(q)
    } else if p.n + 1 < samples_per_pixel {
        let q = SamplePosition { i: image_width - 1, j: image_height - 1, n: p.n + 1 };
        proof {
            lemma_scanline_rank_bounds(w, h, s, q);
            assert((p.n + 1) * (w * h) == p.n * (w * h) + w * h) by (nonlinear_arith);
            assert((h - 1) * w + (w - 1) + 1 == w * h) by (nonlinear_arith);
            assert(0 * w == 0) by (nonlinear_arith);
        }
        Some(q)
    } else {
        proof {
            assert((h - 1) * w + (w - 1) + 1 == w * h) by (nonlinear_arith);
            assert(s * (w * h) == p.n * (w * h) + w * h) by (nonlinear_arith)
                requires
                    p.n + 1 == s,
            ;
        }
        None
    }
}

/// Records one more sample of pixel `(i, j)` in the per-pixel sample counts
/// of random-order rendering, and returns its new count.
pub fn shotgun_sample(pixel_count: &mut Vec<usize>, image_width: usize, i: usize, j: usize) -> (n: usize)
    requires
        spec_pixel_index(image_width as int, i as int, j as int) < old(pixel_count).len(),
        old(pixel_count)[spec_pixel_index(image_width as int, i as int, j as int)] < usize::MAX,
    ensures
        final(pixel_count)@ == old(pixel_count)@.update(
            spec_pixel_index(image_width as int, i as int, j as int),
            (old(pixel_count)[spec_pixel_index(image_width as int, i as int, j as int)] + 1) as usize,
        ),
        n == old(pixel_count)[spec_pixel_index(image_width as int, i as int, j as int)] + 1,
{
    let index = pixel_index(image_width, i, j);
    let n = pixel_count[index] + 1;
    pixel_count.set(index, n);
    n
}

} // verus!
