//! The frame model: packed 2D BGRX framebuffers addressed as `stride * y + x`,
//! 24-bit pixel comparison, and change rectangles.
use vstd::prelude::*;

verus! {

/// Mask that drops the undefined high (X/alpha) byte of a BGRX pixel.
pub const PIXEL_MASK: u32 = 0x00ff_ffff;

/// The pixel value used for comparison and stored in `prev`: high byte zeroed.
pub open spec fn masked(p: u32) -> u32 {
    p & 0x00ff_ffff
}

/// Index of pixel (x, y) in a packed buffer with the given row stride.
pub open spec fn pix_idx(stride: int, x: int, y: int) -> int {
    y * stride + x
}

/// A half-open change rectangle [x0, x1) x [y0, y1).
#[derive(Clone, Copy, PartialEq, Eq, Structural, Debug)]
pub struct Rect {
    pub x0: usize,
    pub y0: usize,
    pub x1: usize,
    pub y1: usize,
}

/// A rectangle is non-empty and lies inside the w x h frame.
pub open spec fn rect_valid(r: Rect, w: int, h: int) -> bool {
    &&& 0 <= r.x0 < r.x1 <= w
    &&& 0 <= r.y0 < r.y1 <= h
}

/// Pixel (x, y) lies inside the rectangle.
pub open spec fn rect_contains(r: Rect, x: int, y: int) -> bool {
    &&& r.x0 <= x < r.x1
    &&& r.y0 <= y < r.y1
}

/// Pixel (x, y) lies inside at least one rectangle of the sequence.
pub open spec fn covered(rects: Seq<Rect>, x: int, y: int) -> bool {
    exists|i: int| 0 <= i < rects.len() && rect_contains(#[trigger] rects[i], x, y)
}

/// Some index of region [x0, x1) x [y0, y1) equals `j`.
pub open spec fn index_in_region(stride: int, j: int, x0: int, y0: int, x1: int, y1: int) -> bool {
    exists|x: int, y: int|
        x0 <= x < x1 && y0 <= y < y1 && j == #[trigger] pix_idx(stride, x, y)
}

/// `post` equals `pre` at every index outside region [x0, x1) x [y0, y1).
pub open spec fn unchanged_outside(
    pre: Seq<u32>,
    post: Seq<u32>,
    stride: int,
    x0: int,
    y0: int,
    x1: int,
    y1: int,
) -> bool {
    &&& post.len() == pre.len()
    &&& forall|j: int|
        0 <= j < pre.len() && !index_in_region(stride, j, x0, y0, x1, y1) ==> post[j] == pre[j]
}

/// Pixel indices are injective: distinct in-row coordinates give distinct
/// flat indices.
pub proof fn lemma_pix_idx_inj(stride: int, x1: int, y1: int, x2: int, y2: int)
    by (nonlinear_arith)
    requires
        0 <= x1 < stride,
        0 <= x2 < stride,
        0 <= y1,
        0 <= y2,
        pix_idx(stride, x1, y1) == pix_idx(stride, x2, y2),
    ensures
        x1 == x2 && y1 == y2,
{
}

/// A pixel of row y < h at column x < stride lies inside the buffer.
pub proof fn lemma_pix_idx_bound(stride: int, x: int, y: int, h: int)
    by (nonlinear_arith)
    requires
        0 <= x < stride,
        0 <= y < h,
    ensures
        0 <= pix_idx(stride, x, y),
        pix_idx(stride, x, y) < stride * h,
{
}

/// A pixel outside a region is not mapped to any index of that region.
pub proof fn lemma_not_in_region(stride: int, x: int, y: int, x0: int, y0: int, x1: int, y1: int)
    requires
        0 <= x < stride,
        0 <= y,
        0 <= x0,
        0 <= y0,
        x1 <= stride,
        !(x0 <= x < x1 && y0 <= y < y1),
    ensures
        !index_in_region(stride, pix_idx(stride, x, y), x0, y0, x1, y1),
{
    assert forall|xx: int, yy: int|
        x0 <= xx < x1 && y0 <= yy < y1 implies pix_idx(stride, x, y) != #[trigger] pix_idx(
        stride,
        xx,
        yy,
    ) by {
        if pix_idx(stride, x, y) == pix_idx(stride, xx, yy) {
            lemma_pix_idx_inj(stride, x, y, xx, yy);
        }
    }
}

/// Exec computation of a pixel index, proved in bounds.
pub fn pixel_index(stride: usize, x: usize, y: usize, len: usize) -> (i: usize)
    requires
        x < stride,
        (y + 1) * stride <= len,
    ensures
        i == pix_idx(stride as int, x as int, y as int),
        i < len,
{
    proof {
        lemma_pix_idx_bound(stride as int, x as int, y as int, (y + 1) as int);
        assert(stride * (y + 1) == (y + 1) * stride) by (nonlinear_arith);
        assert(y * stride == stride * y) by (nonlinear_arith);
    }
    y * stride + x
}

} // verus!
