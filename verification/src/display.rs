use vstd::prelude::*;

use crate::camera::{lemma_pixel_index_in_buffer, spec_pixel_index};
use crate::worker::Pixel;

verus! {

/// Position of the red byte of pixel `p` in an RGB buffer of an image
/// `image_width` pixels wide: three bytes per pixel, row after row.
pub open spec fn pixel_offset(image_width: int, p: Pixel) -> int {
    3 * spec_pixel_index(image_width, p.i as int, p.j as int)
}

/// `buffer` after writing the colour of each of `pixels`, first to last.
pub open spec fn painted(buffer: Seq<u8>, image_width: int, pixels: Seq<Pixel>) -> Seq<u8>
    decreases pixels.len(),
{
    if pixels.len() == 0 {
        buffer
    } else {
        let p = pixels.last();
        let o = pixel_offset(image_width, p);
        painted(buffer, image_width, pixels.drop_last())
            .update(o, p.rgb[0])
            .update(o + 1, p.rgb[1])
            .update(o + 2, p.rgb[2])
    }
}

/// Every pixel of `pixels` has its three bytes inside a buffer of length `len`.
pub open spec fn fits_buffer(len: int, image_width: int, pixels: Seq<Pixel>) -> bool {
    forall|k: int| 0 <= k < pixels.len() ==> #[trigger] pixel_offset(image_width, pixels[k]) + 2 < len
}

/// Whether every pixel of `pixels` has its three bytes inside a buffer of
/// length `len`, for an image `image_width` pixels wide.
pub fn scanline_fits(len: usize, image_width: usize, pixels: &Vec<Pixel>) -> (fits: bool)
    ensures
        fits == fits_buffer(len as int, image_width as int, pixels@),
{
    let count = pixels.len();
    for k in 0..count
        invariant
            count == pixels.len(),
            forall|m: int| 0 <= m < k ==> #[trigger] pixel_offset(image_width as int, pixels@[m]) + 2 < len,
    {
        let p = pixels[k];
        let ghost o = pixel_offset(image_width as int, p);
        let index = match p.j.checked_mul(image_width) {
            Some(row) => match row.checked_add(p.i) {
                Some(index) => index,
                None => {
                    proof {
                        assert(o + 2 >= len) by (nonlinear_arith)
                            requires
                                o == 3 * (p.j * image_width + p.i),
                                p.j * image_width + p.i > usize::MAX,
                        ;
                    }
                    return false;
                },
            },
            None => {
                proof {
                    assert(o + 2 >= len) by (nonlinear_arith)
                        requires
                            o == 3 * (p.j * image_width + p.i),
                            p.j * image_width > usize::MAX,
                            p.i >= 0,
                    ;
                }
                return false;
            },
        };
        assert(o == 3 * index);
        if index >= len / 3 {
            assert(o + 2 >= len);
            return false;
        }
        assert(o + 2 < len);
    }
    true
}

/// A black image of the given size: three zero bytes per pixel.
pub fn init_pixels(image_width: usize, image_height: usize) -> (pixels: Vec<u8>)
    requires
        image_width * image_height * 3 <= usize::MAX,
    ensures
        pixels.len() == image_width * image_height * 3,
        forall|k: int| 0 <= k < pixels.len() ==> #[trigger] pixels[k] == 0,
{
    proof {
        assert(image_width * image_height <= image_width * image_height * 3) by (nonlinear_arith);
    }
    vec![0u8; image_width * image_height * 3]
}

/// Writes the colours of a rendered row into the RGB buffer of the display.
pub fn apply_scanline(pixels: &mut Vec<u8>, image_width: usize, scanline: &Vec<Pixel>)
    requires
        fits_buffer(old(pixels).len() as int, image_width as int, scanline@),
    ensures
        final(pixels)@ == painted(old(pixels)@, image_width as int, scanline@),
{
    let len = scanline.len();
    for k in 0..len
        invariant
            len == scanline.len(),
            pixels.len() == old(pixels).len(),
            fits_buffer(pixels.len() as int, image_width as int, scanline@),
            pixels@ == painted(old(pixels)@, image_width as int, scanline@.take(k as int)),
    {
        let p = scanline[k];
        let ghost o = pixel_offset(image_width as int, p);
        assert(o + 2 < pixels.len()) by {
            assert(scanline@[k as int] == p);
        }
        proof {
            assert(p.j * image_width <= p.j * image_width * 3) by (nonlinear_arith);
            assert(o == p.j * image_width * 3 + p.i * 3) by (nonlinear_arith)
                requires
                    o == 3 * (p.j * image_width + p.i),
            ;
        }
        let index = p.j * image_width * 3 + p.i * 3;
        pixels.set(index, p.rgb[0]);
        pixels.set(index + 1, p.rgb[1]);
        pixels.set(index + 2, p.rgb[2]);
        assert(scanline@.take(k + 1).drop_last() == scanline@.take(k as int));
    }
    assert(scanline@.take(len as int) == scanline@);
}

/// Two pixels of a row that are not at the same place own disjoint bytes.
proof fn lemma_offsets_apart(image_width: int, p: Pixel, q: Pixel)
    requires
        p.i < image_width,
        q.i < image_width,
        (p.i, p.j) != (q.i, q.j),
    ensures
        pixel_offset(image_width, p) + 3 <= pixel_offset(image_width, q)
            || pixel_offset(image_width, q) + 3 <= pixel_offset(image_width, p),
{
    let h = if p.j > q.j { p.j + 1 } else { q.j + 1 };
    lemma_pixel_index_in_buffer(image_width, h as int, p.i as int, p.j as int, q.i as int, q.j as int);
}

/// Law: after a batch of pixels at distinct places of the image has been
/// written, the buffer gives back the colour of each of them, and every byte
/// that belongs to none of them is as it was.
pub proof fn lemma_painted_reads_back(buffer: Seq<u8>, image_width: int, pixels: Seq<Pixel>)
    requires
        fits_buffer(buffer.len() as int, image_width, pixels),
        forall|k: int| 0 <= k < pixels.len() ==> #[trigger] pixels[k].i < image_width,
        forall|k: int, m: int|
            0 <= k < pixels.len() && 0 <= m < pixels.len() && k != m
                ==> (#[trigger] pixels[k].i, pixels[k].j) != (#[trigger] pixels[m].i, pixels[m].j),
    ensures
        painted(buffer, image_width, pixels).len() == buffer.len(),
        forall|k: int, c: int|
            0 <= k < pixels.len() && 0 <= c < 3
                ==> #[trigger] painted(buffer, image_width, pixels)[pixel_offset(image_width, pixels[k]) + c]
                == pixels[k].rgb[c],
        forall|b: int|
            0 <= b < buffer.len() && (forall|k: int| 0 <= k < pixels.len()
                ==> !(pixel_offset(image_width, #[trigger] pixels[k]) <= b < pixel_offset(image_width, pixels[k]) + 3))
                ==> #[trigger] painted(buffer, image_width, pixels)[b] == buffer[b],
    decreases pixels.len(),
{
    if pixels.len() > 0 {
        let rest = pixels.drop_last();
        let last = pixels.last();
        let n = pixels.len() - 1;
        assert forall|k: int| 0 <= k < rest.len() implies #[trigger] pixel_offset(image_width, rest[k]) + 2 < buffer.len() by {
            assert(rest[k] == pixels[k]);
        }
        assert forall|k: int| 0 <= k < rest.len() implies #[trigger] rest[k].i < image_width by {
            assert(rest[k] == pixels[k]);
        }
        assert forall|k: int, m: int|
            0 <= k < rest.len() && 0 <= m < rest.len() && k != m
                implies (#[trigger] rest[k].i, rest[k].j) != (#[trigger] rest[m].i, rest[m].j) by {
            assert(rest[k] == pixels[k]);
            assert(rest[m] == pixels[m]);
        }
        lemma_painted_reads_back(buffer, image_width, rest);
        let before = painted(buffer, image_width, rest);
        let after = painted(buffer, image_width, pixels);
        let o = pixel_offset(image_width, last);
        assert(pixel_offset(image_width, pixels[n]) + 2 < buffer.len());
        assert forall|k: int, c: int| 0 <= k < pixels.len() && 0 <= c < 3 implies
            #[trigger] after[pixel_offset(image_width, pixels[k]) + c] == pixels[k].rgb[c] by {
            if k < n {
                assert(rest[k] == pixels[k]);
                lemma_offsets_apart(image_width, pixels[k], last);
                assert(before[pixel_offset(image_width, rest[k]) + c] == rest[k].rgb[c]);
            }
        }
        assert forall|b: int|
            0 <= b < buffer.len() && (forall|k: int| 0 <= k < pixels.len()
                ==> !(pixel_offset(image_width, #[trigger] pixels[k]) <= b < pixel_offset(image_width, pixels[k]) + 3))
            implies #[trigger] after[b] == buffer[b] by {
            assert(!(o <= b < o + 3)) by {
                assert(pixels[n] == last);
            }
            assert forall|k: int| 0 <= k < rest.len() implies
                !(pixel_offset(image_width, #[trigger] rest[k]) <= b < pixel_offset(image_width, rest[k]) + 3) by {
                assert(rest[k] == pixels[k]);
            }
        }
    }
}


/// The pixels of row `j` coloured left to right with `rgbs`, as a render
/// worker hands them over.
pub open spec fn row_pixels(j: usize, rgbs: Seq<[u8; 3]>) -> Seq<Pixel> {
    Seq::new(rgbs.len(), |k: int| Pixel { i: k as usize, j, rgb: rgbs[k] })
}

/// Law: once a whole rendered row has been written into the buffer of an
/// image at least as wide as the row, each of its pixels reads back with its
/// colour, and the bytes of the other rows are as they were.
pub proof fn lemma_row_reads_back(buffer: Seq<u8>, image_width: int, j: usize, rgbs: Seq<[u8; 3]>)
    requires
        rgbs.len() <= image_width,
        image_width <= usize::MAX,
        fits_buffer(buffer.len() as int, image_width, row_pixels(j, rgbs)),
    ensures
        forall|k: int, c: int|
            0 <= k < rgbs.len() && 0 <= c < 3
                ==> #[trigger] painted(buffer, image_width, row_pixels(j, rgbs))[3 * (j * image_width + k) + c]
                == rgbs[k][c],
        forall|b: int|
            0 <= b < buffer.len() && !(3 * (j * image_width) <= b < 3 * (j * image_width + image_width))
                ==> #[trigger] painted(buffer, image_width, row_pixels(j, rgbs))[b] == buffer[b],
{
    let pixels = row_pixels(j, rgbs);
    assert forall|k: int| 0 <= k < pixels.len() implies #[trigger] pixels[k].i < image_width by {}
    assert forall|k: int, m: int|
        0 <= k < pixels.len() && 0 <= m < pixels.len() && k != m
            implies (#[trigger] pixels[k].i, pixels[k].j) != (#[trigger] pixels[m].i, pixels[m].j) by {}
    lemma_painted_reads_back(buffer, image_width, pixels);
    assert forall|k: int, c: int| 0 <= k < rgbs.len() && 0 <= c < 3 implies
        #[trigger] painted(buffer, image_width, pixels)[3 * (j * image_width + k) + c] == rgbs[k][c] by {
        assert(pixel_offset(image_width, pixels[k]) == 3 * (j * image_width + k));
    }
    assert forall|b: int|
        0 <= b < buffer.len() && !(3 * (j * image_width) <= b < 3 * (j * image_width + image_width))
        implies #[trigger] painted(buffer, image_width, pixels)[b] == buffer[b] by {
        assert forall|k: int| 0 <= k < pixels.len() implies
            !(pixel_offset(image_width, #[trigger] pixels[k]) <= b < pixel_offset(image_width, pixels[k]) + 3) by {
            assert(pixel_offset(image_width, pixels[k]) == 3 * (j * image_width + k));
        }
    }
}

} // verus!
