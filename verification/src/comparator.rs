//! Damage detectors: diff two equal-sized BGRX framebuffers, update the
//! previous buffer toward the next one, and report changed rectangles.
//!
//! Every detector meets the same contract, stated on the `Comparator` trait:
//! the reported rectangles are valid, each contains a pixel that actually
//! changed, together they cover every changed pixel, and afterwards `prev`
//! agrees with the masked `next` on the whole frame while pixels outside the
//! frame are untouched.
use vstd::prelude::*;
use vstd::slice::slice_index_get;
use crate::frame::{
    masked, pix_idx, Rect, rect_valid, rect_contains, covered, index_in_region,
    unchanged_outside, lemma_pix_idx_inj, lemma_pix_idx_bound, lemma_not_in_region,
    pixel_index, PIXEL_MASK,
};

verus! {

/// `prev` agrees with the masked `next` on region [x0, x1) x [y0, y1):
/// the region holds no differing pixel.
pub open spec fn region_synced(
    prev: Seq<u32>,
    next: Seq<u32>,
    stride: int,
    x0: int,
    y0: int,
    x1: int,
    y1: int,
) -> bool {
    forall|x: int, y: int|
        x0 <= x < x1 && y0 <= y < y1 ==> prev[#[trigger] pix_idx(stride, x, y)] == masked(
            next[pix_idx(stride, x, y)],
        )
}

/// Two buffers agree pointwise on region [x0, x1) x [y0, y1).
pub open spec fn region_eq(
    p1: Seq<u32>,
    p2: Seq<u32>,
    stride: int,
    x0: int,
    y0: int,
    x1: int,
    y1: int,
) -> bool {
    forall|x: int, y: int|
        x0 <= x < x1 && y0 <= y < y1 ==> p1[#[trigger] pix_idx(stride, x, y)] == p2[pix_idx(
            stride,
            x,
            y,
        )]
}

/// Every pixel of region [x0, x1) x [y0, y1) that differs between `prev0` and
/// the masked `next` lies in the box [bx0, bx1) x [by0, by1).
pub open spec fn diffs_in_box(
    prev0: Seq<u32>,
    next: Seq<u32>,
    stride: int,
    x0: int,
    y0: int,
    x1: int,
    y1: int,
    bx0: int,
    by0: int,
    bx1: int,
    by1: int,
) -> bool {
    forall|x: int, y: int|
        x0 <= x < x1 && y0 <= y < y1 && prev0[#[trigger] pix_idx(stride, x, y)] != masked(
            next[pix_idx(stride, x, y)],
        ) ==> bx0 <= x < bx1 && by0 <= y < by1
}

/// The box [bx0, bx1) x [by0, by1) holds at least one pixel that differs
/// between `prev0` and the masked `next`.
pub open spec fn box_has_diff(
    prev0: Seq<u32>,
    next: Seq<u32>,
    stride: int,
    bx0: int,
    by0: int,
    bx1: int,
    by1: int,
) -> bool {
    exists|x: int, y: int|
        bx0 <= x < bx1 && by0 <= y < by1 && prev0[#[trigger] pix_idx(stride, x, y)] != masked(
            next[pix_idx(stride, x, y)],
        )
}

/// The rectangle holds at least one pixel that differs between `prev0` and
/// the masked `next`.
pub open spec fn rect_has_diff(prev0: Seq<u32>, next: Seq<u32>, stride: int, r: Rect) -> bool {
    box_has_diff(prev0, next, stride, r.x0 as int, r.y0 as int, r.x1 as int, r.y1 as int)
}

/// The box is the tight bounding box of the differing pixels it holds: its
/// top and bottom rows and its left and right columns each meet one.
/// Opaque: callers carry it as one fact and reveal it where it is used.
#[verifier::opaque]
pub open spec fn box_tight(
    prev0: Seq<u32>,
    next: Seq<u32>,
    stride: int,
    bx0: int,
    by0: int,
    bx1: int,
    by1: int,
) -> bool {
    &&& box_has_diff(prev0, next, stride, bx0, by0, bx1, by0 + 1)
    &&& box_has_diff(prev0, next, stride, bx0, by1 - 1, bx1, by1)
    &&& box_has_diff(prev0, next, stride, bx0, by0, bx0 + 1, by1)
    &&& box_has_diff(prev0, next, stride, bx1 - 1, by0, bx1, by1)
}

/// The rectangle is the tight bounding box of the differing pixels it holds.
pub open spec fn rect_tight(prev0: Seq<u32>, next: Seq<u32>, stride: int, r: Rect) -> bool {
    box_tight(prev0, next, stride, r.x0 as int, r.y0 as int, r.x1 as int, r.y1 as int)
}

/// `post` extends `pre`: nothing already reported is dropped or changed.
pub open spec fn rects_appended(pre: Seq<Rect>, post: Seq<Rect>) -> bool {
    &&& pre.len() <= post.len()
    &&& post.subrange(0, pre.len() as int) == pre
}

/// Every rectangle appended beyond `n0` is valid for the w x h frame and
/// contains a pixel that differs between `prev0` and the masked `next`.
pub open spec fn new_rects_ok(
    n0: int,
    post: Seq<Rect>,
    prev0: Seq<u32>,
    next: Seq<u32>,
    stride: int,
    w: int,
    h: int,
) -> bool {
    forall|i: int|
        n0 <= i < post.len() ==> rect_valid(#[trigger] post[i], w, h) && rect_has_diff(
            prev0,
            next,
            stride,
            post[i],
        )
}

/// Every pixel of region [x0, x1) x [y0, y1) that differs between `prev0` and
/// the masked `next` is covered by a rectangle appended beyond `n0`.
pub open spec fn diffs_covered(
    n0: int,
    post: Seq<Rect>,
    prev0: Seq<u32>,
    next: Seq<u32>,
    stride: int,
    x0: int,
    y0: int,
    x1: int,
    y1: int,
) -> bool {
    forall|x: int, y: int|
        x0 <= x < x1 && y0 <= y < y1 && prev0[#[trigger] pix_idx(stride, x, y)] != masked(
            next[pix_idx(stride, x, y)],
        ) ==> covered(post.subrange(n0, post.len() as int), x, y)
}

/// An index inside a sub-region is inside any enclosing region.
pub proof fn lemma_region_mono(
    stride: int,
    j: int,
    x0: int,
    y0: int,
    x1: int,
    y1: int,
    wx0: int,
    wy0: int,
    wx1: int,
    wy1: int,
)
    requires
        wx0 <= x0,
        wy0 <= y0,
        x1 <= wx1,
        y1 <= wy1,
        index_in_region(stride, j, x0, y0, x1, y1),
    ensures
        index_in_region(stride, j, wx0, wy0, wx1, wy1),
{
    let (x, y): (int, int) = choose|x: int, y: int|
        x0 <= x < x1 && y0 <= y < y1 && j == #[trigger] pix_idx(stride, x, y);
    assert(wx0 <= x < wx1 && wy0 <= y < wy1 && j == pix_idx(stride, x, y));
}

/// Writes confined to a sub-region are confined to any enclosing region.
pub proof fn lemma_unchanged_mono(
    pre: Seq<u32>,
    post: Seq<u32>,
    stride: int,
    x0: int,
    y0: int,
    x1: int,
    y1: int,
    wx0: int,
    wy0: int,
    wx1: int,
    wy1: int,
)
    requires
        wx0 <= x0,
        wy0 <= y0,
        x1 <= wx1,
        y1 <= wy1,
        unchanged_outside(pre, post, stride, x0, y0, x1, y1),
    ensures
        unchanged_outside(pre, post, stride, wx0, wy0, wx1, wy1),
{
    assert forall|j: int|
        0 <= j < pre.len() && !index_in_region(stride, j, wx0, wy0, wx1, wy1) implies post[j]
        == pre[j] by {
        if index_in_region(stride, j, x0, y0, x1, y1) {
            lemma_region_mono(stride, j, x0, y0, x1, y1, wx0, wy0, wx1, wy1);
        }
    }
}

/// Writes confined to a region leave every pixel outside it unchanged.
pub proof fn lemma_unchanged_pixel(
    pre: Seq<u32>,
    post: Seq<u32>,
    stride: int,
    x0: int,
    y0: int,
    x1: int,
    y1: int,
    x: int,
    y: int,
)
    requires
        unchanged_outside(pre, post, stride, x0, y0, x1, y1),
        0 <= x < stride,
        0 <= y,
        0 <= x0,
        0 <= y0,
        x1 <= stride,
        !(x0 <= x < x1 && y0 <= y < y1),
        0 <= pix_idx(stride, x, y) < pre.len(),
    ensures
        post[pix_idx(stride, x, y)] == pre[pix_idx(stride, x, y)],
{
    lemma_not_in_region(stride, x, y, x0, y0, x1, y1);
}

/// Effect of writing one pixel of row y < ymax: that pixel takes the new
/// value and every other pixel of the first ymax rows is unchanged.
pub proof fn lemma_write_pixel(
    pre: Seq<u32>,
    post: Seq<u32>,
    stride: int,
    x: int,
    y: int,
    q: u32,
    ymax: int,
)
    requires
        0 < stride,
        0 <= x < stride,
        0 <= y < ymax,
        ymax * stride <= pre.len(),
        post == pre.update(pix_idx(stride, x, y), q),
    ensures
        post.len() == pre.len(),
        post[pix_idx(stride, x, y)] == q,
        0 <= pix_idx(stride, x, y) < pre.len(),
        forall|xx: int, yy: int|
            0 <= xx < stride && 0 <= yy < ymax && !(xx == x && yy == y) ==> post[#[trigger] pix_idx(
                stride,
                xx,
                yy,
            )] == pre[pix_idx(stride, xx, yy)],
{
    lemma_pix_idx_bound(stride, x, y, ymax);
    assert(stride * ymax == ymax * stride) by (nonlinear_arith);
    assert forall|xx: int, yy: int|
        0 <= xx < stride && 0 <= yy < ymax && !(xx == x && yy == y) implies post[#[trigger] pix_idx(
        stride,
        xx,
        yy,
    )] == pre[pix_idx(stride, xx, yy)] by {
        lemma_pix_idx_bound(stride, xx, yy, ymax);
        if pix_idx(stride, xx, yy) == pix_idx(stride, x, y) {
            lemma_pix_idx_inj(stride, xx, yy, x, y);
        }
    }
}

/// A pixel covered by a rectangle sequence stays covered when it grows.
pub proof fn lemma_covered_push(s: Seq<Rect>, r: Rect, x: int, y: int)
    requires
        covered(s, x, y),
    ensures
        covered(s.push(r), x, y),
{
    let i = choose|i: int| 0 <= i < s.len() && rect_contains(#[trigger] s[i], x, y);
    assert(rect_contains(s.push(r)[i], x, y));
}

/// A pixel inside a pushed rectangle is covered by the grown sequence.
pub proof fn lemma_covered_new(s: Seq<Rect>, r: Rect, x: int, y: int)
    requires
        rect_contains(r, x, y),
    ensures
        covered(s.push(r), x, y),
{
    assert(rect_contains(s.push(r)[s.len() as int], x, y));
}

/// A damage detector. `compare` diffs `prev` against the masked `next`,
/// writes changed pixels of the frame through to `prev`, and appends the
/// changed rectangles to `rects`.
pub trait Comparator {
    /// Diff the w x h frame, update `prev`, and append change rectangles.
    fn compare(
        prev: &mut Vec<u32>,
        next: &[u32],
        stride: usize,
        w: usize,
        h: usize,
        rects: &mut Vec<Rect>,
    )
        requires
            w <= stride,
            h * stride <= old(prev)@.len(),
            next@.len() == old(prev)@.len(),
            old(prev)@.len() < 0x1000_0000_0000_0000,
        ensures
            final(prev)@.len() == old(prev)@.len(),
            rects_appended(old(rects)@, final(rects)@),
            new_rects_ok(
                old(rects)@.len() as int,
                final(rects)@,
                old(prev)@,
                next@,
                stride as int,
                w as int,
                h as int,
            ),
            diffs_covered(
                old(rects)@.len() as int,
                final(rects)@,
                old(prev)@,
                next@,
                stride as int,
                0,
                0,
                w as int,
                h as int,
            ),
            region_synced(final(prev)@, next@, stride as int, 0, 0, w as int, h as int),
            unchanged_outside(old(prev)@, final(prev)@, stride as int, 0, 0, w as int, h as int),
    ;
}

/// Scan one region exhaustively: write every differing pixel of
/// [x0, x1) x [y0, y1) through to `prev` (masked) and return the tight
/// bounding box of the differing pixels, or `None` when none differ.
fn compare_block(
    prev: &mut Vec<u32>,
    next: &[u32],
    stride: usize,
    x0: usize,
    y0: usize,
    x1: usize,
    y1: usize,
) -> (r: Option<Rect>)
    requires
        0 < stride,
        x0 < x1 <= stride,
        y0 < y1,
        y1 * stride <= old(prev)@.len(),
        next@.len() == old(prev)@.len(),
    ensures
        final(prev)@.len() == old(prev)@.len(),
        unchanged_outside(
            old(prev)@,
            final(prev)@,
            stride as int,
            x0 as int,
            y0 as int,
            x1 as int,
            y1 as int,
        ),
        region_synced(
            final(prev)@,
            next@,
            stride as int,
            x0 as int,
            y0 as int,
            x1 as int,
            y1 as int,
        ),
        r matches Some(b) ==> {
            &&& x0 <= b.x0 < b.x1 <= x1
            &&& y0 <= b.y0 < b.y1 <= y1
            &&& diffs_in_box(
                old(prev)@,
                next@,
                stride as int,
                x0 as int,
                y0 as int,
                x1 as int,
                y1 as int,
                b.x0 as int,
                b.y0 as int,
                b.x1 as int,
                b.y1 as int,
            )
            &&& rect_has_diff(old(prev)@, next@, stride as int, b)
            &&& rect_tight(old(prev)@, next@, stride as int, b)
        },
        r is None ==> region_synced(
            old(prev)@,
            next@,
            stride as int,
            x0 as int,
            y0 as int,
            x1 as int,
            y1 as int,
        ),
{
    let ghost prev0 = prev@;
    let ghost st = stride as int;
    let len = prev.len();
    let mut x_min: usize = x1;
    let mut y_min: usize = y1;
    let mut x_max: usize = x0;
    let mut y_max: usize = y0;
    let mut y = y0;
    while y < y1
        invariant
            0 < stride,
            x0 < x1 <= stride,
            y0 <= y <= y1,
            y1 * stride <= len,
            prev@.len() == len,
            next@.len() == len,
            prev0.len() == len,
            st == stride as int,
            unchanged_outside(prev0, prev@, st, x0 as int, y0 as int, x1 as int, y1 as int),
            region_synced(prev@, next@, st, x0 as int, y0 as int, x1 as int, y as int),
            region_eq(prev@, prev0, st, x0 as int, y as int, x1 as int, y1 as int),
            x_min < x_max ==> {
                &&& x0 <= x_min < x_max <= x1
                &&& y0 <= y_min < y_max <= y
            },
            x_min >= x_max ==> {
                &&& x_min == x1
                &&& x_max == x0
                &&& y_min == y1
                &&& y_max == y0
            },
            diffs_in_box(
                prev0,
                next@,
                st,
                x0 as int,
                y0 as int,
                x1 as int,
                y as int,
                x_min as int,
                y_min as int,
                x_max as int,
                y_max as int,
            ),
            x_min < x_max ==> box_tight(
                prev0,
                next@,
                st,
                x_min as int,
                y_min as int,
                x_max as int,
                y_max as int,
            ),
            x_min >= x_max ==> region_synced(prev0, next@, st, x0 as int, y0 as int, x1 as int, y as int),
        decreases y1 - y,
    {
        let mut x = x0;
        while x < x1
            invariant
                0 < stride,
                x0 < x1 <= stride,
                y0 <= y < y1,
                x0 <= x <= x1,
                y1 * stride <= len,
                prev@.len() == len,
                next@.len() == len,
                prev0.len() == len,
                st == stride as int,
                unchanged_outside(prev0, prev@, st, x0 as int, y0 as int, x1 as int, y1 as int),
                region_synced(prev@, next@, st, x0 as int, y0 as int, x1 as int, y as int),
                region_synced(prev@, next@, st, x0 as int, y as int, x as int, y as int + 1),
                region_eq(prev@, prev0, st, x as int, y as int, x1 as int, y as int + 1),
                region_eq(prev@, prev0, st, x0 as int, y as int + 1, x1 as int, y1 as int),
                x_min < x_max ==> {
                    &&& x0 <= x_min < x_max <= x1
                    &&& y0 <= y_min < y_max <= y + 1
                },
                x_min >= x_max ==> {
                    &&& x_min == x1
                    &&& x_max == x0
                    &&& y_min == y1
                    &&& y_max == y0
                },
                diffs_in_box(
                    prev0,
                    next@,
                    st,
                    x0 as int,
                    y0 as int,
                    x1 as int,
                    y as int,
                    x_min as int,
                    y_min as int,
                    x_max as int,
                    y_max as int,
                ),
                diffs_in_box(
                    prev0,
                    next@,
                    st,
                    x0 as int,
                    y as int,
                    x as int,
                    y as int + 1,
                    x_min as int,
                    y_min as int,
                    x_max as int,
                    y_max as int,
                ),
                x_min < x_max ==> box_tight(
                    prev0,
                    next@,
                    st,
                    x_min as int,
                    y_min as int,
                    x_max as int,
                    y_max as int,
                ),
                x_min >= x_max ==> region_synced(
                    prev0,
                    next@,
                    st,
                    x0 as int,
                    y0 as int,
                    x1 as int,
                    y as int,
                ),
                x_min >= x_max ==> region_synced(
                    prev0,
                    next@,
                    st,
                    x0 as int,
                    y as int,
                    x as int,
                    y as int + 1,
                ),
            decreases x1 - x,
        {
            proof {
                assert((y + 1) * stride <= y1 * stride) by (nonlinear_arith)
                    requires
                        y + 1 <= y1,
                        0 <= stride,
                ;
            }
            let i = pixel_index(stride, x, y, len);
            let p = prev[i];
            let q = *slice_index_get(next, i) & PIXEL_MASK;
            proof {
                assert(p == prev@[pix_idx(st, x as int, y as int)]);
                assert(q == masked(next@[pix_idx(st, x as int, y as int)]));
            }
            if p != q {
                let ghost pre_step = prev@;
                prev[i] = q;
                proof {
                    assert(index_in_region(st, i as int, x0 as int, y0 as int, x1 as int, y1 as int))
                        by {
                        assert(x0 <= x < x1 && y0 <= y < y1 && i as int == pix_idx(
                            st,
                            x as int,
                            y as int,
                        ));
                    }
                    lemma_write_pixel(pre_step, prev@, st, x as int, y as int, q, y1 as int);
                    // the pixel differed in the original buffer too
                    assert(pre_step[pix_idx(st, x as int, y as int)] == prev0[pix_idx(
                        st,
                        x as int,
                        y as int,
                    )]);
                    assert forall|j: int|
                        0 <= j < len && !index_in_region(
                            st,
                            j,
                            x0 as int,
                            y0 as int,
                            x1 as int,
                            y1 as int,
                        ) implies prev@[j] == prev0[j] by {}
                }
                let ghost bxm = x_min;
                let ghost bym = y_min;
                let ghost bxq = x_max;
                let ghost byq = y_max;
                if x < x_min {
                    x_min = x;
                }
                if x + 1 > x_max {
                    x_max = x + 1;
                }
                if y < y_min {
                    y_min = y;
                }
                if y + 1 > y_max {
                    y_max = y + 1;
                }
                proof {
                    reveal(box_tight);
                    let dx = x as int;
                    let dy = y as int;
                    assert(prev0[pix_idx(st, dx, dy)] != masked(next@[pix_idx(st, dx, dy)]));
                    if bxm >= bxq {
                        // first difference: the box is exactly this pixel
                        assert(x_min == x && x_max == x + 1 && y_min == y && y_max == y + 1);
                        assert(box_has_diff(prev0, next@, st, dx, dy, dx + 1, dy + 1));
                    } else {
                        // edges move only toward the new pixel
                        assert(y_min == bym && y_max == y + 1);
                        lemma_box_diff_mono(
                            prev0,
                            next@,
                            st,
                            bxm as int,
                            bym as int,
                            bxq as int,
                            bym as int + 1,
                            x_min as int,
                            y_min as int,
                            x_max as int,
                            y_min as int + 1,
                        );
                        assert(box_has_diff(
                            prev0,
                            next@,
                            st,
                            x_min as int,
                            y_max as int - 1,
                            x_max as int,
                            y_max as int,
                        )) by {
                            assert(x_min <= dx < x_max && y_max - 1 <= dy < y_max);
                        }
                        if x < bxm {
                            assert(box_has_diff(
                                prev0,
                                next@,
                                st,
                                x_min as int,
                                y_min as int,
                                x_min as int + 1,
                                y_max as int,
                            )) by {
                                assert(x_min <= dx < x_min + 1 && y_min <= dy < y_max);
                            }
                        } else {
                            lemma_box_diff_mono(
                                prev0,
                                next@,
                                st,
                                bxm as int,
                                bym as int,
                                bxm as int + 1,
                                byq as int,
                                x_min as int,
                                y_min as int,
                                x_min as int + 1,
                                y_max as int,
                            );
                        }
                        if x + 1 > bxq {
                            assert(box_has_diff(
                                prev0,
                                next@,
                                st,
                                x_max as int - 1,
                                y_min as int,
                                x_max as int,
                                y_max as int,
                            )) by {
                                assert(x_max - 1 <= dx < x_max && y_min <= dy < y_max);
                            }
                        } else {
                            lemma_box_diff_mono(
                                prev0,
                                next@,
                                st,
                                bxq as int - 1,
                                bym as int,
                                bxq as int,
                                byq as int,
                                x_max as int - 1,
                                y_min as int,
                                x_max as int,
                                y_max as int,
                            );
                        }
                    }
                }
            }
            x += 1;
        }
        y += 1;
    }
    proof {
        if x_min < x_max {
            reveal(box_tight);
            lemma_box_diff_mono(
                prev0,
                next@,
                st,
                x_min as int,
                y_min as int,
                x_max as int,
                y_min as int + 1,
                x_min as int,
                y_min as int,
                x_max as int,
                y_max as int,
            );
        }
    }
    if x_min < x_max {
        Some(Rect { x0: x_min, y0: y_min, x1: x_max, y1: y_max })
    } else {
        None
    }
}

/// A box with a differing pixel w.r.t. one buffer also has one w.r.t. a
/// buffer that agrees with it on the box.
proof fn lemma_box_diff_translate(
    p1: Seq<u32>,
    p2: Seq<u32>,
    next: Seq<u32>,
    stride: int,
    bx0: int,
    by0: int,
    bx1: int,
    by1: int,
)
    requires
        box_has_diff(p1, next, stride, bx0, by0, bx1, by1),
        region_eq(p1, p2, stride, bx0, by0, bx1, by1),
    ensures
        box_has_diff(p2, next, stride, bx0, by0, bx1, by1),
{
    let (x, y): (int, int) = choose|x: int, y: int|
        bx0 <= x < bx1 && by0 <= y < by1 && p1[#[trigger] pix_idx(stride, x, y)] != masked(
            next[pix_idx(stride, x, y)],
        );
    assert(bx0 <= x < bx1 && by0 <= y < by1 && p2[pix_idx(stride, x, y)] != masked(
        next[pix_idx(stride, x, y)],
    ));
}

/// A non-empty rectangle that lies inside region [x0, x1) x [y0, y1).
pub open spec fn rect_in(r: Rect, x0: int, y0: int, x1: int, y1: int) -> bool {
    &&& x0 <= r.x0 < r.x1 <= x1
    &&& y0 <= r.y0 < r.y1 <= y1
}

/// The start of the width-64 tile that holds coordinate v.
pub open spec fn tile_of(v: int) -> int {
    v / 64 * 64
}

/// A coordinate inside a 64-aligned tile maps back to that tile's start.
pub proof fn lemma_tile_of(v: int, b: int)
    requires
        b % 64 == 0,
        0 <= b,
        b <= v < b + 64,
    ensures
        tile_of(v) == b,
{
    vstd::arithmetic::div_mod::lemma_fundamental_div_mod(b, 64);
    vstd::arithmetic::div_mod::lemma_fundamental_div_mod_converse(v, 64, b / 64, v - b);
}

/// The optional rectangle contains pixel (x, y).
pub open spec fn opt_contains(r: Option<Rect>, x: int, y: int) -> bool {
    r matches Some(b) && rect_contains(b, x, y)
}

/// The optional rectangle, when present, lies inside the region and holds a
/// differing pixel.
pub open spec fn opt_rect_ok(
    r: Option<Rect>,
    prev0: Seq<u32>,
    next: Seq<u32>,
    stride: int,
    x0: int,
    y0: int,
    x1: int,
    y1: int,
) -> bool {
    r matches Some(b) ==> rect_in(b, x0, y0, x1, y1) && rect_has_diff(prev0, next, stride, b)
}

/// A rectangle within the Tight encoding's practical limits: width at most
/// 2048 and area at most (2 << 22) / 3 pixels.
pub open spec fn rect_capped(r: Rect) -> bool {
    &&& r.x1 - r.x0 <= 2048
    &&& (r.x1 - r.x0) * (r.y1 - r.y0) <= 0x2a_aaaa
}

/// The optional rectangle, when present, is within the size caps.
pub open spec fn opt_capped(r: Option<Rect>) -> bool {
    r matches Some(b) ==> rect_capped(b)
}

/// The optional rectangle, when present, is a tight bounding box.
pub open spec fn opt_tight(r: Option<Rect>, prev0: Seq<u32>, next: Seq<u32>, stride: int) -> bool {
    r matches Some(b) ==> rect_tight(prev0, next, stride, b)
}

/// The area of a rectangle in pixels.
pub open spec fn rect_area(r: Rect) -> int {
    (r.x1 - r.x0) * (r.y1 - r.y0)
}

/// The bounding box of two rectangles.
pub open spec fn rect_bbox(a: Rect, b: Rect) -> Rect {
    Rect {
        x0: if a.x0 <= b.x0 {
            a.x0
        } else {
            b.x0
        },
        y0: if a.y0 <= b.y0 {
            a.y0
        } else {
            b.y0
        },
        x1: if a.x1 >= b.x1 {
            a.x1
        } else {
            b.x1
        },
        y1: if a.y1 >= b.y1 {
            a.y1
        } else {
            b.y1
        },
    }
}

/// The quadtree's merge rule: two sibling boxes merge when the merged box
/// stays within the Tight caps and wastes little, at most 1024 extra pixels
/// or a sixteenth of the covered area.
pub open spec fn should_merge(a: Rect, b: Rect) -> bool {
    let m = rect_bbox(a, b);
    &&& m.x1 - m.x0 <= 2048
    &&& rect_area(m) <= 0x2a_aaaa
    &&& (rect_area(m) <= rect_area(a) + rect_area(b) + 1024 || 15 * rect_area(m) <= 16 * (
    rect_area(a) + rect_area(b)))
}

/// Every rectangle appended beyond `n0` lies inside the region and holds a
/// differing pixel.
pub open spec fn new_rects_in(
    n0: int,
    post: Seq<Rect>,
    prev0: Seq<u32>,
    next: Seq<u32>,
    stride: int,
    x0: int,
    y0: int,
    x1: int,
    y1: int,
) -> bool {
    forall|i: int|
        n0 <= i < post.len() ==> rect_in(#[trigger] post[i], x0, y0, x1, y1) && rect_has_diff(
            prev0,
            next,
            stride,
            post[i],
        )
}

/// A pixel covered by the rectangles appended beyond `n0` stays covered when
/// the sequence grows further.
pub proof fn lemma_covered_extend(s1: Seq<Rect>, s2: Seq<Rect>, n0: int, x: int, y: int)
    requires
        0 <= n0 <= s1.len(),
        rects_appended(s1, s2),
        covered(s1.subrange(n0, s1.len() as int), x, y),
    ensures
        covered(s2.subrange(n0, s2.len() as int), x, y),
{
    let sub1 = s1.subrange(n0, s1.len() as int);
    let i = choose|i: int| 0 <= i < sub1.len() && rect_contains(#[trigger] sub1[i], x, y);
    assert(s2[n0 + i] == s2.subrange(0, s1.len() as int)[n0 + i]);
    assert(rect_contains(s2.subrange(n0, s2.len() as int)[i], x, y));
}

/// A box with a differing pixel keeps one inside any enclosing box.
pub proof fn lemma_box_diff_mono(
    prev0: Seq<u32>,
    next: Seq<u32>,
    stride: int,
    bx0: int,
    by0: int,
    bx1: int,
    by1: int,
    wx0: int,
    wy0: int,
    wx1: int,
    wy1: int,
)
    requires
        wx0 <= bx0,
        wy0 <= by0,
        bx1 <= wx1,
        by1 <= wy1,
        box_has_diff(prev0, next, stride, bx0, by0, bx1, by1),
    ensures
        box_has_diff(prev0, next, stride, wx0, wy0, wx1, wy1),
{
    let (x, y): (int, int) = choose|x: int, y: int|
        bx0 <= x < bx1 && by0 <= y < by1 && prev0[#[trigger] pix_idx(stride, x, y)] != masked(
            next[pix_idx(stride, x, y)],
        );
    assert(wx0 <= x < wx1 && wy0 <= y < wy1 && prev0[pix_idx(stride, x, y)] != masked(
        next[pix_idx(stride, x, y)],
    ));
}

/// Tightness carries to a buffer that agrees with the first on the
/// rectangle.
proof fn lemma_tight_translate(p1: Seq<u32>, p2: Seq<u32>, next: Seq<u32>, stride: int, r: Rect)
    requires
        rect_tight(p1, next, stride, r),
        r.x0 < r.x1,
        r.y0 < r.y1,
        region_eq(p1, p2, stride, r.x0 as int, r.y0 as int, r.x1 as int, r.y1 as int),
    ensures
        rect_tight(p2, next, stride, r),
{
    reveal(box_tight);
    assert(region_eq(p1, p2, stride, r.x0 as int, r.y0 as int, r.x1 as int, r.y0 as int + 1));
    lemma_box_diff_translate(
        p1,
        p2,
        next,
        stride,
        r.x0 as int,
        r.y0 as int,
        r.x1 as int,
        r.y0 as int + 1,
    );
    assert(region_eq(p1, p2, stride, r.x0 as int, r.y1 as int - 1, r.x1 as int, r.y1 as int));
    lemma_box_diff_translate(
        p1,
        p2,
        next,
        stride,
        r.x0 as int,
        r.y1 as int - 1,
        r.x1 as int,
        r.y1 as int,
    );
    assert(region_eq(p1, p2, stride, r.x0 as int, r.y0 as int, r.x0 as int + 1, r.y1 as int));
    lemma_box_diff_translate(
        p1,
        p2,
        next,
        stride,
        r.x0 as int,
        r.y0 as int,
        r.x0 as int + 1,
        r.y1 as int,
    );
    assert(region_eq(p1, p2, stride, r.x1 as int - 1, r.y0 as int, r.x1 as int, r.y1 as int));
    lemma_box_diff_translate(
        p1,
        p2,
        next,
        stride,
        r.x1 as int - 1,
        r.y0 as int,
        r.x1 as int,
        r.y1 as int,
    );
}

/// The bounding box of two tight boxes is tight: each of its edges is an
/// edge of one of the two.
proof fn lemma_tight_merge(prev0: Seq<u32>, next: Seq<u32>, stride: int, a: Rect, b: Rect, m: Rect)
    requires
        rect_tight(prev0, next, stride, a),
        rect_tight(prev0, next, stride, b),
        a.x0 < a.x1,
        a.y0 < a.y1,
        b.x0 < b.x1,
        b.y0 < b.y1,
        m == rect_bbox(a, b),
    ensures
        rect_tight(prev0, next, stride, m),
{
    reveal(box_tight);
    let top = if a.y0 <= b.y0 {
        a
    } else {
        b
    };
    lemma_box_diff_mono(
        prev0,
        next,
        stride,
        top.x0 as int,
        top.y0 as int,
        top.x1 as int,
        top.y0 as int + 1,
        m.x0 as int,
        m.y0 as int,
        m.x1 as int,
        m.y0 as int + 1,
    );
    let bot = if a.y1 >= b.y1 {
        a
    } else {
        b
    };
    lemma_box_diff_mono(
        prev0,
        next,
        stride,
        bot.x0 as int,
        bot.y1 as int - 1,
        bot.x1 as int,
        bot.y1 as int,
        m.x0 as int,
        m.y1 as int - 1,
        m.x1 as int,
        m.y1 as int,
    );
    let lef = if a.x0 <= b.x0 {
        a
    } else {
        b
    };
    lemma_box_diff_mono(
        prev0,
        next,
        stride,
        lef.x0 as int,
        lef.y0 as int,
        lef.x0 as int + 1,
        lef.y1 as int,
        m.x0 as int,
        m.y0 as int,
        m.x0 as int + 1,
        m.y1 as int,
    );
    let rig = if a.x1 >= b.x1 {
        a
    } else {
        b
    };
    lemma_box_diff_mono(
        prev0,
        next,
        stride,
        rig.x1 as int - 1,
        rig.y0 as int,
        rig.x1 as int,
        rig.y1 as int,
        m.x1 as int - 1,
        m.y0 as int,
        m.x1 as int,
        m.y1 as int,
    );
}

/// Bookkeeping for one reported block rectangle: carry the scan's facts
/// over to the original buffer and extend the accumulated coverage by the
/// new rectangle.
#[verifier::rlimit(100)]
proof fn block_push_facts(
    p1: Seq<u32>,
    prev0: Seq<u32>,
    nexts: Seq<u32>,
    st: int,
    r0: Seq<Rect>,
    rpre: Seq<Rect>,
    rpost: Seq<Rect>,
    b: Rect,
    n0: int,
    w: int,
    h: int,
    bx: int,
    by: int,
    bxe: int,
    bye: int,
)
    requires
        n0 == r0.len(),
        n0 <= rpre.len(),
        rpre.subrange(0, n0) == r0,
        rpost == rpre.push(b),
        0 < st,
        0 <= bx < bxe <= w <= st,
        0 <= by < bye <= h,
        bx % 64 == 0,
        by % 64 == 0,
        bxe <= bx + 64,
        bye <= by + 64,
        bx <= b.x0 < b.x1 <= bxe,
        by <= b.y0 < b.y1 <= bye,
        diffs_in_box(
            p1,
            nexts,
            st,
            bx,
            by,
            bxe,
            bye,
            b.x0 as int,
            b.y0 as int,
            b.x1 as int,
            b.y1 as int,
        ),
        rect_tight(p1, nexts, st, b),
        region_eq(p1, prev0, st, bx, by, bxe, bye),
        new_rects_ok(n0, rpre, prev0, nexts, st, w, h),
        forall|i: int|
            n0 <= i < rpre.len() ==> (#[trigger] rpre[i]).x1 <= tile_of(rpre[i].x0 as int) + 64
                && rpre[i].y1 <= tile_of(rpre[i].y0 as int) + 64 && rect_tight(
                prev0,
                nexts,
                st,
                rpre[i],
            ),
        diffs_covered(n0, rpre, prev0, nexts, st, 0, 0, w, by),
        diffs_covered(n0, rpre, prev0, nexts, st, 0, by, bx, bye),
    ensures
        rpost.subrange(0, n0) == r0,
        new_rects_ok(n0, rpost, prev0, nexts, st, w, h),
        forall|i: int|
            n0 <= i < rpost.len() ==> (#[trigger] rpost[i]).x1 <= tile_of(rpost[i].x0 as int) + 64
                && rpost[i].y1 <= tile_of(rpost[i].y0 as int) + 64 && rect_tight(
                prev0,
                nexts,
                st,
                rpost[i],
            ),
        diffs_covered(n0, rpost, prev0, nexts, st, 0, 0, w, by),
        diffs_covered(n0, rpost, prev0, nexts, st, 0, by, bxe, bye),
{
    assert(rpost.subrange(0, n0) =~= r0);
    assert(region_eq(p1, prev0, st, b.x0 as int, b.y0 as int, b.x1 as int, b.y1 as int));
    lemma_tight_translate(p1, prev0, nexts, st, b);
    assert(rect_has_diff(prev0, nexts, st, b)) by {
        reveal(box_tight);
        lemma_box_diff_mono(
            prev0,
            nexts,
            st,
            b.x0 as int,
            b.y0 as int,
            b.x1 as int,
            b.y0 as int + 1,
            b.x0 as int,
            b.y0 as int,
            b.x1 as int,
            b.y1 as int,
        );
    }
    lemma_tile_of(b.x0 as int, bx);
    lemma_tile_of(b.y0 as int, by);
    assert forall|i: int|
        n0 <= i < rpost.len() implies rect_valid(#[trigger] rpost[i], w, h) && rect_has_diff(
        prev0,
        nexts,
        st,
        rpost[i],
    ) && rpost[i].x1 <= tile_of(rpost[i].x0 as int) + 64 && rpost[i].y1 <= tile_of(
        rpost[i].y0 as int,
    ) + 64 && rect_tight(prev0, nexts, st, rpost[i]) by {
        if i < rpre.len() {
            assert(rpost[i] == rpre[i]);
        } else {
            assert(rpost[i] == b);
        }
    }
    assert(rpost.subrange(n0, rpost.len() as int) =~= rpre.subrange(n0, rpre.len() as int).push(
        b,
    ));
    assert forall|x: int, y: int|
        ((0 <= x < w && 0 <= y < by) || (0 <= x < bx && by <= y < bye)) && prev0[
    #[trigger] pix_idx(st, x, y)] != masked(nexts[pix_idx(st, x, y)]) implies covered(
        rpost.subrange(n0, rpost.len() as int),
        x,
        y,
    ) by {
        lemma_covered_push(rpre.subrange(n0, rpre.len() as int), b, x, y);
    }
    assert forall|x: int, y: int|
        bx <= x < bxe && by <= y < bye && prev0[#[trigger] pix_idx(st, x, y)] != masked(
            nexts[pix_idx(st, x, y)],
        ) implies covered(rpost.subrange(n0, rpost.len() as int), x, y) by {
        assert(p1[pix_idx(st, x, y)] == prev0[pix_idx(st, x, y)]);
        assert(rect_contains(b, x, y));
        lemma_covered_new(rpre.subrange(n0, rpre.len() as int), b, x, y);
    }
}

/// Block strategy: tile the frame into 64 x 64 blocks (edges truncated) and
/// report the tight bounding box of the differing pixels of each block.
pub struct BlockComparator;

impl Comparator for BlockComparator {
    /// Each reported rectangle lies inside one 64 x 64 tile of the grid and
    /// is tight: each of its edges meets a changed pixel.
    #[verifier::rlimit(100)]
    fn compare(
        prev: &mut Vec<u32>,
        next: &[u32],
        stride: usize,
        w: usize,
        h: usize,
        rects: &mut Vec<Rect>,
    )
        ensures
            forall|i: int|
                old(rects)@.len() <= i < final(rects)@.len() ==> {
                    let rr = #[trigger] final(rects)@[i];
                    &&& rr.x1 <= tile_of(rr.x0 as int) + 64
                    &&& rr.y1 <= tile_of(rr.y0 as int) + 64
                    &&& rect_tight(old(prev)@, next@, stride as int, rr)
                },
    {
        let ghost prev0 = prev@;
        let ghost r0 = rects@;
        let ghost n0 = r0.len() as int;
        let ghost st = stride as int;
        proof {
            assert(rects@.subrange(0, n0) =~= r0);
        }
        if w == 0 || h == 0 {
            // an empty frame holds no pixels: nothing to report or update
            return;
        }
        let len = prev.len();
        proof {
            assert(h <= h * stride && w <= h * stride) by (nonlinear_arith)
                requires
                    1 <= stride,
                    1 <= h,
                    w <= stride,
            ;
        }
        let mut by: usize = 0;
        while by < h
            invariant
                0 < w <= stride,
                0 < h,
                h <= len,
                w <= len,
                len < 0x1000_0000_0000_0000,
                h * stride <= len,
                prev@.len() == len,
                next@.len() == len,
                prev0.len() == len,
                st == stride as int,
                by <= h,
                by % 64 == 0 || by == h,
                n0 == r0.len() as int,
                unchanged_outside(prev0, prev@, st, 0, 0, w as int, h as int),
                region_synced(prev@, next@, st, 0, 0, w as int, by as int),
                region_eq(prev@, prev0, st, 0, by as int, w as int, h as int),
                rects_appended(r0, rects@),
                new_rects_ok(n0, rects@, prev0, next@, st, w as int, h as int),
                diffs_covered(n0, rects@, prev0, next@, st, 0, 0, w as int, by as int),
                forall|i: int|
                    n0 <= i < rects@.len() ==> (#[trigger] rects@[i]).x1 <= tile_of(
                        rects@[i].x0 as int,
                    ) + 64 && rects@[i].y1 <= tile_of(rects@[i].y0 as int) + 64 && rect_tight(
                        prev0,
                        next@,
                        st,
                        rects@[i],
                    ),
            decreases h - by,
        {
            let bye = if h - by >= 64 { by + 64 } else { h };
            let mut bx: usize = 0;
            while bx < w
                invariant
                    0 < w <= stride,
                    0 < h,
                    h <= len,
                    w <= len,
                    len < 0x1000_0000_0000_0000,
                    h * stride <= len,
                    prev@.len() == len,
                    next@.len() == len,
                    prev0.len() == len,
                    st == stride as int,
                    by < bye <= h,
                    by % 64 == 0,
                    bye <= by + 64,
                    bx <= w,
                    bx % 64 == 0 || bx == w,
                    n0 == r0.len() as int,
                    unchanged_outside(prev0, prev@, st, 0, 0, w as int, h as int),
                    region_synced(prev@, next@, st, 0, 0, w as int, by as int),
                    region_synced(prev@, next@, st, 0, by as int, bx as int, bye as int),
                    region_eq(prev@, prev0, st, bx as int, by as int, w as int, bye as int),
                    region_eq(prev@, prev0, st, 0, bye as int, w as int, h as int),
                    rects_appended(r0, rects@),
                    new_rects_ok(n0, rects@, prev0, next@, st, w as int, h as int),
                    diffs_covered(n0, rects@, prev0, next@, st, 0, 0, w as int, by as int),
                    diffs_covered(
                        n0,
                        rects@,
                        prev0,
                        next@,
                        st,
                        0,
                        by as int,
                        bx as int,
                        bye as int,
                    ),
                    forall|i: int|
                        n0 <= i < rects@.len() ==> (#[trigger] rects@[i]).x1 <= tile_of(
                            rects@[i].x0 as int,
                        ) + 64 && rects@[i].y1 <= tile_of(rects@[i].y0 as int) + 64 && rect_tight(
                            prev0,
                            next@,
                            st,
                            rects@[i],
                        ),
                decreases w - bx,
            {
                let bxe = if w - bx >= 64 { bx + 64 } else { w };
                proof {
                    assert(bye * stride <= h * stride) by (nonlinear_arith)
                        requires
                            bye <= h,
                            0 <= stride,
                    ;
                }
                let ghost p1 = prev@;
                let r = compare_block(prev, next, stride, bx, by, bxe, bye);
                proof {
                    // pixels outside the cell kept their value
                    assert forall|xx: int, yy: int|
                        0 <= xx < w && 0 <= yy < h && !(bx <= xx < bxe && by <= yy
                            < bye) implies prev@[#[trigger] pix_idx(st, xx, yy)] == p1[pix_idx(
                        st,
                        xx,
                        yy,
                    )] by {
                        lemma_pix_idx_bound(st, xx, yy, h as int);
                        assert(stride * h == h * stride) by (nonlinear_arith);
                        lemma_unchanged_pixel(
                            p1,
                            prev@,
                            st,
                            bx as int,
                            by as int,
                            bxe as int,
                            bye as int,
                            xx,
                            yy,
                        );
                    }
                    lemma_unchanged_mono(
                        p1,
                        prev@,
                        st,
                        bx as int,
                        by as int,
                        bxe as int,
                        bye as int,
                        0,
                        0,
                        w as int,
                        h as int,
                    );
                    assert forall|j: int|
                        0 <= j < len && !index_in_region(
                            st,
                            j,
                            0,
                            0,
                            w as int,
                            h as int,
                        ) implies prev@[j] == prev0[j] by {}
                }
                match r {
                    Some(b) => {
                        let ghost rpre = rects@;
                        rects.push(b);
                        proof {
                            assert(region_eq(p1, prev0, st, bx as int, by as int, bxe as int, bye as int));
                            block_push_facts(
                                p1,
                                prev0,
                                next@,
                                st,
                                r0,
                                rpre,
                                rects@,
                                b,
                                n0,
                                w as int,
                                h as int,
                                bx as int,
                                by as int,
                                bxe as int,
                                bye as int,
                            );
                        }
                    },
                    None => {
                        proof {
                            assert forall|x: int, y: int|
                                bx <= x < bxe && by <= y < bye implies prev0[#[trigger] pix_idx(
                                st,
                                x,
                                y,
                            )] == masked(next@[pix_idx(st, x, y)]) by {
                                assert(p1[pix_idx(st, x, y)] == masked(next@[pix_idx(st, x, y)]));
                            }
                        }
                    },
                }
                bx = bxe;
            }
            by = bye;
        }
    }
}

/// Appending is transitive.
pub proof fn lemma_appended_trans(s0: Seq<Rect>, s1: Seq<Rect>, s2: Seq<Rect>)
    requires
        rects_appended(s0, s1),
        rects_appended(s1, s2),
    ensures
        rects_appended(s0, s2),
{
    assert forall|i: int| 0 <= i < s0.len() implies s2.subrange(0, s0.len() as int)[i]
        == s0[i] by {
        assert(s2[i] == s2.subrange(0, s1.len() as int)[i]);
        assert(s1[i] == s1.subrange(0, s0.len() as int)[i]);
    }
    assert(s2.subrange(0, s0.len() as int) =~= s0);
}

/// A pixel covered by rectangles appended beyond `n1` is covered by those
/// appended beyond any earlier point `n0`.
pub proof fn lemma_covered_widen(s: Seq<Rect>, n0: int, n1: int, x: int, y: int)
    requires
        0 <= n0 <= n1 <= s.len(),
        covered(s.subrange(n1, s.len() as int), x, y),
    ensures
        covered(s.subrange(n0, s.len() as int), x, y),
{
    let sub1 = s.subrange(n1, s.len() as int);
    let i = choose|i: int| 0 <= i < sub1.len() && rect_contains(#[trigger] sub1[i], x, y);
    assert(rect_contains(s.subrange(n0, s.len() as int)[n1 - n0 + i], x, y));
}

/// Combine the boxes returned by the two halves of a quadtree split: merge
/// them into one box when the waste stays small, else report the smaller one
/// right away and hand the larger one up for further merging.
fn merge_results(
    a: Option<Rect>,
    b: Option<Rect>,
    rects: &mut Vec<Rect>,
    Ghost(prev0): Ghost<Seq<u32>>,
    Ghost(nexts): Ghost<Seq<u32>>,
    Ghost(st): Ghost<int>,
    Ghost(rx0): Ghost<int>,
    Ghost(ry0): Ghost<int>,
    Ghost(rx1): Ghost<int>,
    Ghost(ry1): Ghost<int>,
) -> (r: Option<Rect>)
    requires
        0 < st,
        0 <= rx0 < rx1 <= st,
        0 <= ry0 < ry1,
        ry1 * st <= prev0.len(),
        prev0.len() < 0x1000_0000_0000_0000,
        prev0.len() <= usize::MAX,
        opt_rect_ok(a, prev0, nexts, st, rx0, ry0, rx1, ry1),
        opt_rect_ok(b, prev0, nexts, st, rx0, ry0, rx1, ry1),
        opt_capped(a),
        opt_capped(b),
        opt_tight(a, prev0, nexts, st),
        opt_tight(b, prev0, nexts, st),
    ensures
        rects_appended(old(rects)@, final(rects)@),
        new_rects_in(
            old(rects)@.len() as int,
            final(rects)@,
            prev0,
            nexts,
            st,
            rx0,
            ry0,
            rx1,
            ry1,
        ),
        opt_rect_ok(r, prev0, nexts, st, rx0, ry0, rx1, ry1),
        opt_capped(r),
        forall|i: int|
            old(rects)@.len() <= i < final(rects)@.len() ==> rect_capped(
                #[trigger] final(rects)@[i],
            ),
        forall|x: int, y: int|
            #![trigger opt_contains(a, x, y)]
            #![trigger opt_contains(b, x, y)]
            opt_contains(a, x, y) || opt_contains(b, x, y) ==> covered(
                final(rects)@.subrange(old(rects)@.len() as int, final(rects)@.len() as int),
                x,
                y,
            ) || opt_contains(r, x, y),
        opt_tight(r, prev0, nexts, st),
        forall|i: int|
            old(rects)@.len() <= i < final(rects)@.len() ==> rect_tight(
                prev0,
                nexts,
                st,
                #[trigger] final(rects)@[i],
            ),
        r is None <==> (a is None && b is None),
        a is Some && b is None ==> r == a && final(rects)@ == old(rects)@,
        a is None && b is Some ==> r == b && final(rects)@ == old(rects)@,
        a matches Some(ra) ==> b matches Some(rb) ==> {
            &&& (should_merge(ra, rb) ==> r == Some(rect_bbox(ra, rb))
                && final(rects)@ == old(rects)@)
            &&& (!should_merge(ra, rb) && rect_area(ra) < rect_area(rb) ==> r == b
                && final(rects)@ == old(rects)@.push(ra))
            &&& (!should_merge(ra, rb) && rect_area(ra) >= rect_area(rb) ==> r == a
                && final(rects)@ == old(rects)@.push(rb))
        },
{
    let ghost n0 = rects@.len() as int;
    proof {
        assert(rects@.subrange(0, n0) =~= rects@);
    }
    match (a, b) {
        (None, None) => None,
        (Some(ra), None) => Some(ra),
        (None, Some(rb)) => Some(rb),
        (Some(ra), Some(rb)) => {
            let mx0 = if ra.x0 <= rb.x0 { ra.x0 } else { rb.x0 };
            let my0 = if ra.y0 <= rb.y0 { ra.y0 } else { rb.y0 };
            let mx1 = if ra.x1 >= rb.x1 { ra.x1 } else { rb.x1 };
            let my1 = if ra.y1 >= rb.y1 { ra.y1 } else { rb.y1 };
            proof {
                assert((ra.x1 - ra.x0) * (ra.y1 - ra.y0) <= st * ry1) by (nonlinear_arith)
                    requires
                        0 <= ra.x1 - ra.x0 <= st,
                        0 <= ra.y1 - ra.y0 <= ry1,
                ;
                assert((rb.x1 - rb.x0) * (rb.y1 - rb.y0) <= st * ry1) by (nonlinear_arith)
                    requires
                        0 <= rb.x1 - rb.x0 <= st,
                        0 <= rb.y1 - rb.y0 <= ry1,
                ;
                assert((mx1 - mx0) * (my1 - my0) <= st * ry1) by (nonlinear_arith)
                    requires
                        0 <= mx1 - mx0 <= st,
                        0 <= my1 - my0 <= ry1,
                ;
                assert(st * ry1 == ry1 * st) by (nonlinear_arith);
            }
            let a_area: u64 = (ra.x1 - ra.x0) as u64 * (ra.y1 - ra.y0) as u64;
            let b_area: u64 = (rb.x1 - rb.x0) as u64 * (rb.y1 - rb.y0) as u64;
            let m_area: u64 = (mx1 - mx0) as u64 * (my1 - my0) as u64;
            // the width and area caps approximate the limits of the Tight
            // encoding; beyond them merging is never worthwhile
            proof {
                assert((Rect { x0: mx0, y0: my0, x1: mx1, y1: my1 }) == rect_bbox(ra, rb));
                assert(a_area as int == rect_area(ra) && b_area as int == rect_area(rb)
                    && m_area as int == rect_area(rect_bbox(ra, rb)));
            }
            // 0x2a_aaaa pixels is (2 << 22) / 3, the Tight payload limit
            if mx1 - mx0 <= 2048 && m_area <= 0x2a_aaaa && (m_area <= a_area + b_area + 1024 || 15
                * m_area <= 16 * (a_area + b_area)) {
                proof {
                    lemma_box_diff_mono(
                        prev0,
                        nexts,
                        st,
                        ra.x0 as int,
                        ra.y0 as int,
                        ra.x1 as int,
                        ra.y1 as int,
                        mx0 as int,
                        my0 as int,
                        mx1 as int,
                        my1 as int,
                    );
                    lemma_tight_merge(
                        prev0,
                        nexts,
                        st,
                        ra,
                        rb,
                        (Rect { x0: mx0, y0: my0, x1: mx1, y1: my1 }),
                    );
                }
                Some(Rect { x0: mx0, y0: my0, x1: mx1, y1: my1 })
            } else if a_area < b_area {
                let ghost rpre = rects@;
                rects.push(ra);
                proof {
                    assert(rects@.subrange(0, n0) =~= rpre);
                    assert forall|x: int, y: int| rect_contains(ra, x, y) implies covered(
                        rects@.subrange(n0, rects@.len() as int),
                        x,
                        y,
                    ) by {
                        lemma_covered_new(rpre.subrange(n0, rpre.len() as int), ra, x, y);
                        assert(rects@.subrange(n0, rects@.len() as int) =~= rpre.subrange(
                            n0,
                            rpre.len() as int,
                        ).push(ra));
                    }
                }
                Some(rb)
            } else {
                let ghost rpre = rects@;
                rects.push(rb);
                proof {
                    assert(rects@.subrange(0, n0) =~= rpre);
                    assert forall|x: int, y: int| rect_contains(rb, x, y) implies covered(
                        rects@.subrange(n0, rects@.len() as int),
                        x,
                        y,
                    ) by {
                        lemma_covered_new(rpre.subrange(n0, rpre.len() as int), rb, x, y);
                        assert(rects@.subrange(n0, rects@.len() as int) =~= rpre.subrange(
                            n0,
                            rpre.len() as int,
                        ).push(rb));
                    }
                }
                Some(ra)
            }
        },
    }
}

/// After a horizontal split at column m: the first half's writes left the
/// second half untouched, so the second call's tightness and quiet-region
/// facts carry over to the original buffer.
#[verifier::rlimit(100)]
proof fn quad_tight_join_h(
    p0: Seq<u32>,
    pm: Seq<u32>,
    nexts: Seq<u32>,
    st: int,
    na: int,
    rf: Seq<Rect>,
    b: Option<Rect>,
    x0: int,
    y0: int,
    x1: int,
    y1: int,
    m: int,
)
    requires
        0 < st,
        0 <= x0 < m < x1 <= st,
        0 <= y0 < y1,
        y1 * st <= p0.len(),
        pm.len() == p0.len(),
        nexts.len() == p0.len(),
        unchanged_outside(p0, pm, st, x0, y0, m, y1),
        0 <= na <= rf.len(),
        forall|i: int|
            na <= i < rf.len() ==> rect_in(#[trigger] rf[i], m, y0, x1, y1) && rect_tight(
                pm,
                nexts,
                st,
                rf[i],
            ),
        b matches Some(rb) ==> rect_in(rb, m, y0, x1, y1) && rect_tight(pm, nexts, st, rb),
        b is None ==> region_synced(pm, nexts, st, m, y0, x1, y1),
    ensures
        forall|i: int| na <= i < rf.len() ==> rect_tight(p0, nexts, st, #[trigger] rf[i]),
        opt_tight(b, p0, nexts, st),
        b is None ==> region_synced(p0, nexts, st, m, y0, x1, y1),
{
    assert(st * y1 == y1 * st) by (nonlinear_arith);
    assert forall|x: int, y: int| m <= x < x1 && y0 <= y < y1 implies pm[#[trigger] pix_idx(
        st,
        x,
        y,
    )] == p0[pix_idx(st, x, y)] by {
        lemma_pix_idx_bound(st, x, y, y1);
        lemma_unchanged_pixel(p0, pm, st, x0, y0, m, y1, x, y);
    }
    assert forall|i: int| na <= i < rf.len() implies rect_tight(
        p0,
        nexts,
        st,
        #[trigger] rf[i],
    ) by {
        let rr = rf[i];
        assert(region_eq(pm, p0, st, rr.x0 as int, rr.y0 as int, rr.x1 as int, rr.y1 as int));
        lemma_tight_translate(pm, p0, nexts, st, rr);
    }
    match b {
        Some(rb) => {
            assert(region_eq(pm, p0, st, rb.x0 as int, rb.y0 as int, rb.x1 as int, rb.y1 as int));
            lemma_tight_translate(pm, p0, nexts, st, rb);
        },
        None => {},
    }
}

/// After a vertical split at row m: as for the horizontal split.
#[verifier::rlimit(100)]
proof fn quad_tight_join_v(
    p0: Seq<u32>,
    pm: Seq<u32>,
    nexts: Seq<u32>,
    st: int,
    na: int,
    rf: Seq<Rect>,
    b: Option<Rect>,
    x0: int,
    y0: int,
    x1: int,
    y1: int,
    m: int,
)
    requires
        0 < st,
        0 <= x0 < x1 <= st,
        0 <= y0 < m < y1,
        y1 * st <= p0.len(),
        pm.len() == p0.len(),
        nexts.len() == p0.len(),
        unchanged_outside(p0, pm, st, x0, y0, x1, m),
        0 <= na <= rf.len(),
        forall|i: int|
            na <= i < rf.len() ==> rect_in(#[trigger] rf[i], x0, m, x1, y1) && rect_tight(
                pm,
                nexts,
                st,
                rf[i],
            ),
        b matches Some(rb) ==> rect_in(rb, x0, m, x1, y1) && rect_tight(pm, nexts, st, rb),
        b is None ==> region_synced(pm, nexts, st, x0, m, x1, y1),
    ensures
        forall|i: int| na <= i < rf.len() ==> rect_tight(p0, nexts, st, #[trigger] rf[i]),
        opt_tight(b, p0, nexts, st),
        b is None ==> region_synced(p0, nexts, st, x0, m, x1, y1),
{
    assert(st * y1 == y1 * st) by (nonlinear_arith);
    assert forall|x: int, y: int| x0 <= x < x1 && m <= y < y1 implies pm[#[trigger] pix_idx(
        st,
        x,
        y,
    )] == p0[pix_idx(st, x, y)] by {
        lemma_pix_idx_bound(st, x, y, y1);
        lemma_unchanged_pixel(p0, pm, st, x0, y0, x1, m, x, y);
    }
    assert forall|i: int| na <= i < rf.len() implies rect_tight(
        p0,
        nexts,
        st,
        #[trigger] rf[i],
    ) by {
        let rr = rf[i];
        assert(region_eq(pm, p0, st, rr.x0 as int, rr.y0 as int, rr.x1 as int, rr.y1 as int));
        lemma_tight_translate(pm, p0, nexts, st, rr);
    }
    match b {
        Some(rb) => {
            assert(region_eq(pm, p0, st, rb.x0 as int, rb.y0 as int, rb.x1 as int, rb.y1 as int));
            lemma_tight_translate(pm, p0, nexts, st, rb);
        },
        None => {},
    }
}

/// After a horizontal split at column m, combine the contracts of the two
/// recursive calls into facts about the whole region and the original buffer.
#[verifier::rlimit(100)]
proof fn quad_join_h(
    p0: Seq<u32>,
    pm: Seq<u32>,
    pf: Seq<u32>,
    nexts: Seq<u32>,
    st: int,
    n0: int,
    r0: Seq<Rect>,
    ra: Seq<Rect>,
    rf: Seq<Rect>,
    a: Option<Rect>,
    b: Option<Rect>,
    x0: int,
    y0: int,
    x1: int,
    y1: int,
    m: int,
)
    requires
        0 < st,
        0 <= x0 < m < x1 <= st,
        0 <= y0 < y1,
        y1 * st <= p0.len(),
        nexts.len() == p0.len(),
        n0 == r0.len(),
        pm.len() == p0.len(),
        unchanged_outside(p0, pm, st, x0, y0, m, y1),
        region_synced(pm, nexts, st, x0, y0, m, y1),
        rects_appended(r0, ra),
        new_rects_in(n0, ra, p0, nexts, st, x0, y0, m, y1),
        opt_rect_ok(a, p0, nexts, st, x0, y0, m, y1),
        opt_capped(a),
        forall|i: int| n0 <= i < ra.len() ==> rect_capped(#[trigger] ra[i]),
        forall|x: int, y: int|
            x0 <= x < m && y0 <= y < y1 && p0[#[trigger] pix_idx(st, x, y)] != masked(
                nexts[pix_idx(st, x, y)],
            ) ==> covered(ra.subrange(n0, ra.len() as int), x, y) || opt_contains(a, x, y),
        pf.len() == pm.len(),
        unchanged_outside(pm, pf, st, m, y0, x1, y1),
        region_synced(pf, nexts, st, m, y0, x1, y1),
        rects_appended(ra, rf),
        new_rects_in(ra.len() as int, rf, pm, nexts, st, m, y0, x1, y1),
        opt_rect_ok(b, pm, nexts, st, m, y0, x1, y1),
        opt_capped(b),
        forall|i: int| ra.len() <= i < rf.len() ==> rect_capped(#[trigger] rf[i]),
        forall|x: int, y: int|
            m <= x < x1 && y0 <= y < y1 && pm[#[trigger] pix_idx(st, x, y)] != masked(
                nexts[pix_idx(st, x, y)],
            ) ==> covered(rf.subrange(ra.len() as int, rf.len() as int), x, y) || opt_contains(
                b,
                x,
                y,
            ),
    ensures
        unchanged_outside(p0, pf, st, x0, y0, x1, y1),
        region_synced(pf, nexts, st, x0, y0, x1, y1),
        rects_appended(r0, rf),
        new_rects_in(n0, rf, p0, nexts, st, x0, y0, x1, y1),
        opt_rect_ok(a, p0, nexts, st, x0, y0, x1, y1),
        opt_rect_ok(b, p0, nexts, st, x0, y0, x1, y1),
        forall|i: int| n0 <= i < rf.len() ==> rect_capped(#[trigger] rf[i]),
        forall|x: int, y: int|
            x0 <= x < x1 && y0 <= y < y1 && p0[#[trigger] pix_idx(st, x, y)] != masked(
                nexts[pix_idx(st, x, y)],
            ) ==> covered(rf.subrange(n0, rf.len() as int), x, y) || opt_contains(a, x, y)
                || opt_contains(b, x, y),
{
    let na = ra.len() as int;
    assert(st * y1 == y1 * st) by (nonlinear_arith);
    assert forall|i: int| n0 <= i < na implies rect_capped(#[trigger] rf[i]) by {
        assert(rf[i] == rf.subrange(0, na)[i]);
        assert(rf[i] == ra[i]);
    }
    // the second call left the first half untouched, and vice versa
    assert forall|x: int, y: int| m <= x < x1 && y0 <= y < y1 implies pm[#[trigger] pix_idx(
        st,
        x,
        y,
    )] == p0[pix_idx(st, x, y)] by {
        lemma_pix_idx_bound(st, x, y, y1);
        lemma_unchanged_pixel(p0, pm, st, x0, y0, m, y1, x, y);
    }
    assert forall|x: int, y: int| x0 <= x < m && y0 <= y < y1 implies pf[#[trigger] pix_idx(
        st,
        x,
        y,
    )] == pm[pix_idx(st, x, y)] by {
        lemma_pix_idx_bound(st, x, y, y1);
        lemma_unchanged_pixel(pm, pf, st, m, y0, x1, y1, x, y);
    }
    assert forall|j: int|
        0 <= j < p0.len() && !index_in_region(st, j, x0, y0, x1, y1) implies pf[j] == p0[j] by {
        if index_in_region(st, j, x0, y0, m, y1) {
            lemma_region_mono(st, j, x0, y0, m, y1, x0, y0, x1, y1);
        }
        if index_in_region(st, j, m, y0, x1, y1) {
            lemma_region_mono(st, j, m, y0, x1, y1, x0, y0, x1, y1);
        }
    }
    match b {
        Some(rbx) => {
            assert(region_eq(
                pm,
                p0,
                st,
                rbx.x0 as int,
                rbx.y0 as int,
                rbx.x1 as int,
                rbx.y1 as int,
            ));
            lemma_box_diff_translate(
                pm,
                p0,
                nexts,
                st,
                rbx.x0 as int,
                rbx.y0 as int,
                rbx.x1 as int,
                rbx.y1 as int,
            );
        },
        None => {},
    }
    lemma_appended_trans(r0, ra, rf);
    assert forall|i: int| n0 <= i < rf.len() implies rect_in(
        #[trigger] rf[i],
        x0,
        y0,
        x1,
        y1,
    ) && rect_has_diff(p0, nexts, st, rf[i]) by {
        if i < na {
            assert(rf[i] == rf.subrange(0, na)[i]);
            assert(rf[i] == ra[i]);
        } else {
            let rr = rf[i];
            assert(rect_in(rr, m, y0, x1, y1) && rect_has_diff(pm, nexts, st, rr));
            assert(region_eq(pm, p0, st, rr.x0 as int, rr.y0 as int, rr.x1 as int, rr.y1 as int));
            lemma_box_diff_translate(
                pm,
                p0,
                nexts,
                st,
                rr.x0 as int,
                rr.y0 as int,
                rr.x1 as int,
                rr.y1 as int,
            );
        }
    }
    assert forall|x: int, y: int|
        x0 <= x < x1 && y0 <= y < y1 && p0[#[trigger] pix_idx(st, x, y)] != masked(
            nexts[pix_idx(st, x, y)],
        ) implies covered(rf.subrange(n0, rf.len() as int), x, y) || opt_contains(a, x, y)
        || opt_contains(b, x, y) by {
        if x < m {
            if covered(ra.subrange(n0, na), x, y) {
                lemma_covered_extend(ra, rf, n0, x, y);
            }
        } else {
            assert(pm[pix_idx(st, x, y)] != masked(nexts[pix_idx(st, x, y)]));
            if covered(rf.subrange(na, rf.len() as int), x, y) {
                lemma_covered_widen(rf, n0, na, x, y);
            }
        }
    }
}

/// After a vertical split at row m, combine the contracts of the two
/// recursive calls into facts about the whole region and the original buffer.
#[verifier::rlimit(100)]
proof fn quad_join_v(
    p0: Seq<u32>,
    pm: Seq<u32>,
    pf: Seq<u32>,
    nexts: Seq<u32>,
    st: int,
    n0: int,
    r0: Seq<Rect>,
    ra: Seq<Rect>,
    rf: Seq<Rect>,
    a: Option<Rect>,
    b: Option<Rect>,
    x0: int,
    y0: int,
    x1: int,
    y1: int,
    m: int,
)
    requires
        0 < st,
        0 <= x0 < x1 <= st,
        0 <= y0 < m < y1,
        y1 * st <= p0.len(),
        nexts.len() == p0.len(),
        n0 == r0.len(),
        pm.len() == p0.len(),
        unchanged_outside(p0, pm, st, x0, y0, x1, m),
        region_synced(pm, nexts, st, x0, y0, x1, m),
        rects_appended(r0, ra),
        new_rects_in(n0, ra, p0, nexts, st, x0, y0, x1, m),
        opt_rect_ok(a, p0, nexts, st, x0, y0, x1, m),
        opt_capped(a),
        forall|i: int| n0 <= i < ra.len() ==> rect_capped(#[trigger] ra[i]),
        forall|x: int, y: int|
            x0 <= x < x1 && y0 <= y < m && p0[#[trigger] pix_idx(st, x, y)] != masked(
                nexts[pix_idx(st, x, y)],
            ) ==> covered(ra.subrange(n0, ra.len() as int), x, y) || opt_contains(a, x, y),
        pf.len() == pm.len(),
        unchanged_outside(pm, pf, st, x0, m, x1, y1),
        region_synced(pf, nexts, st, x0, m, x1, y1),
        rects_appended(ra, rf),
        new_rects_in(ra.len() as int, rf, pm, nexts, st, x0, m, x1, y1),
        opt_rect_ok(b, pm, nexts, st, x0, m, x1, y1),
        opt_capped(b),
        forall|i: int| ra.len() <= i < rf.len() ==> rect_capped(#[trigger] rf[i]),
        forall|x: int, y: int|
            x0 <= x < x1 && m <= y < y1 && pm[#[trigger] pix_idx(st, x, y)] != masked(
                nexts[pix_idx(st, x, y)],
            ) ==> covered(rf.subrange(ra.len() as int, rf.len() as int), x, y) || opt_contains(
                b,
                x,
                y,
            ),
    ensures
        unchanged_outside(p0, pf, st, x0, y0, x1, y1),
        region_synced(pf, nexts, st, x0, y0, x1, y1),
        rects_appended(r0, rf),
        new_rects_in(n0, rf, p0, nexts, st, x0, y0, x1, y1),
        opt_rect_ok(a, p0, nexts, st, x0, y0, x1, y1),
        opt_rect_ok(b, p0, nexts, st, x0, y0, x1, y1),
        forall|i: int| n0 <= i < rf.len() ==> rect_capped(#[trigger] rf[i]),
        forall|x: int, y: int|
            x0 <= x < x1 && y0 <= y < y1 && p0[#[trigger] pix_idx(st, x, y)] != masked(
                nexts[pix_idx(st, x, y)],
            ) ==> covered(rf.subrange(n0, rf.len() as int), x, y) || opt_contains(a, x, y)
                || opt_contains(b, x, y),
{
    let na = ra.len() as int;
    assert(st * y1 == y1 * st) by (nonlinear_arith);
    assert forall|i: int| n0 <= i < na implies rect_capped(#[trigger] rf[i]) by {
        assert(rf[i] == rf.subrange(0, na)[i]);
        assert(rf[i] == ra[i]);
    }
    assert forall|x: int, y: int| x0 <= x < x1 && m <= y < y1 implies pm[#[trigger] pix_idx(
        st,
        x,
        y,
    )] == p0[pix_idx(st, x, y)] by {
        lemma_pix_idx_bound(st, x, y, y1);
        lemma_unchanged_pixel(p0, pm, st, x0, y0, x1, m, x, y);
    }
    assert forall|x: int, y: int| x0 <= x < x1 && y0 <= y < m implies pf[#[trigger] pix_idx(
        st,
        x,
        y,
    )] == pm[pix_idx(st, x, y)] by {
        lemma_pix_idx_bound(st, x, y, y1);
        lemma_unchanged_pixel(pm, pf, st, x0, m, x1, y1, x, y);
    }
    assert forall|j: int|
        0 <= j < p0.len() && !index_in_region(st, j, x0, y0, x1, y1) implies pf[j] == p0[j] by {
        if index_in_region(st, j, x0, y0, x1, m) {
            lemma_region_mono(st, j, x0, y0, x1, m, x0, y0, x1, y1);
        }
        if index_in_region(st, j, x0, m, x1, y1) {
            lemma_region_mono(st, j, x0, m, x1, y1, x0, y0, x1, y1);
        }
    }
    match b {
        Some(rbx) => {
            assert(region_eq(
                pm,
                p0,
                st,
                rbx.x0 as int,
                rbx.y0 as int,
                rbx.x1 as int,
                rbx.y1 as int,
            ));
            lemma_box_diff_translate(
                pm,
                p0,
                nexts,
                st,
                rbx.x0 as int,
                rbx.y0 as int,
                rbx.x1 as int,
                rbx.y1 as int,
            );
        },
        None => {},
    }
    lemma_appended_trans(r0, ra, rf);
    assert forall|i: int| n0 <= i < rf.len() implies rect_in(
        #[trigger] rf[i],
        x0,
        y0,
        x1,
        y1,
    ) && rect_has_diff(p0, nexts, st, rf[i]) by {
        if i < na {
            assert(rf[i] == rf.subrange(0, na)[i]);
            assert(rf[i] == ra[i]);
        } else {
            let rr = rf[i];
            assert(rect_in(rr, x0, m, x1, y1) && rect_has_diff(pm, nexts, st, rr));
            assert(region_eq(pm, p0, st, rr.x0 as int, rr.y0 as int, rr.x1 as int, rr.y1 as int));
            lemma_box_diff_translate(
                pm,
                p0,
                nexts,
                st,
                rr.x0 as int,
                rr.y0 as int,
                rr.x1 as int,
                rr.y1 as int,
            );
        }
    }
    assert forall|x: int, y: int|
        x0 <= x < x1 && y0 <= y < y1 && p0[#[trigger] pix_idx(st, x, y)] != masked(
            nexts[pix_idx(st, x, y)],
        ) implies covered(rf.subrange(n0, rf.len() as int), x, y) || opt_contains(a, x, y)
        || opt_contains(b, x, y) by {
        if y < m {
            if covered(ra.subrange(n0, na), x, y) {
                lemma_covered_extend(ra, rf, n0, x, y);
            }
        } else {
            assert(pm[pix_idx(st, x, y)] != masked(nexts[pix_idx(st, x, y)]));
            if covered(rf.subrange(na, rf.len() as int), x, y) {
                lemma_covered_widen(rf, n0, na, x, y);
            }
        }
    }
}


/// Combine the joined facts of the two halves with the merge step's contract
/// into the final contract of a quadtree node.
#[verifier::rlimit(100)]
proof fn quad_finish(
    p0: Seq<u32>,
    nexts: Seq<u32>,
    st: int,
    n0: int,
    r0: Seq<Rect>,
    rb: Seq<Rect>,
    rf: Seq<Rect>,
    a: Option<Rect>,
    b: Option<Rect>,
    r: Option<Rect>,
    x0: int,
    y0: int,
    x1: int,
    y1: int,
)
    requires
        n0 == r0.len(),
        rects_appended(r0, rb),
        forall|x: int, y: int|
            x0 <= x < x1 && y0 <= y < y1 && p0[#[trigger] pix_idx(st, x, y)] != masked(
                nexts[pix_idx(st, x, y)],
            ) ==> covered(rb.subrange(n0, rb.len() as int), x, y) || opt_contains(a, x, y)
                || opt_contains(b, x, y),
        rects_appended(rb, rf),
        new_rects_in(rb.len() as int, rf, p0, nexts, st, x0, y0, x1, y1),
        new_rects_in(n0, rb, p0, nexts, st, x0, y0, x1, y1),
        forall|i: int| n0 <= i < rb.len() ==> rect_capped(#[trigger] rb[i]),
        forall|i: int| rb.len() <= i < rf.len() ==> rect_capped(#[trigger] rf[i]),
        forall|x: int, y: int|
            #![trigger opt_contains(a, x, y)]
            #![trigger opt_contains(b, x, y)]
            opt_contains(a, x, y) || opt_contains(b, x, y) ==> covered(
                rf.subrange(rb.len() as int, rf.len() as int),
                x,
                y,
            ) || opt_contains(r, x, y),
    ensures
        rects_appended(r0, rf),
        new_rects_in(n0, rf, p0, nexts, st, x0, y0, x1, y1),
        forall|i: int| n0 <= i < rf.len() ==> rect_capped(#[trigger] rf[i]),
        forall|x: int, y: int|
            x0 <= x < x1 && y0 <= y < y1 && p0[#[trigger] pix_idx(st, x, y)] != masked(
                nexts[pix_idx(st, x, y)],
            ) ==> covered(rf.subrange(n0, rf.len() as int), x, y) || opt_contains(r, x, y),
{
    let nb = rb.len() as int;
    lemma_appended_trans(r0, rb, rf);
    assert forall|i: int| n0 <= i < nb implies rect_capped(#[trigger] rf[i]) by {
        assert(rf[i] == rf.subrange(0, nb)[i]);
        assert(rf[i] == rb[i]);
    }
    assert forall|i: int| n0 <= i < rf.len() implies rect_in(
        #[trigger] rf[i],
        x0,
        y0,
        x1,
        y1,
    ) && rect_has_diff(p0, nexts, st, rf[i]) by {
        if i < nb {
            assert(rf[i] == rf.subrange(0, nb)[i]);
            assert(rf[i] == rb[i]);
        }
    }
    assert forall|x: int, y: int|
        x0 <= x < x1 && y0 <= y < y1 && p0[#[trigger] pix_idx(st, x, y)] != masked(
            nexts[pix_idx(st, x, y)],
        ) implies covered(rf.subrange(n0, rf.len() as int), x, y) || opt_contains(r, x, y) by {
        if covered(rb.subrange(n0, nb), x, y) {
            lemma_covered_extend(rb, rf, n0, x, y);
        } else {
            assert(opt_contains(a, x, y) || opt_contains(b, x, y));
            if !opt_contains(r, x, y) {
                lemma_covered_widen(rf, n0, nb, x, y);
            }
        }
    }
}

/// Quadtree strategy: recursively subdivide the frame, scan small leaves
/// exhaustively, and merge sibling boxes while the merged waste stays small.
pub struct QuadtreeComparator;

impl QuadtreeComparator {
    /// Recursive subdivision of region [x0, x1) x [y0, y1): scans leaves of at
    /// most 1024 pixels, merges sibling boxes upward where cheap, and appends
    /// rectangles that will not merge further.
    #[verifier::rlimit(100)]
    pub fn compare_rec(
        prev: &mut Vec<u32>,
        next: &[u32],
        stride: usize,
        x0: usize,
        y0: usize,
        x1: usize,
        y1: usize,
        rects: &mut Vec<Rect>,
    ) -> (r: Option<Rect>)
        requires
            0 < stride,
            x0 < x1 <= stride,
            y0 < y1,
            y1 * stride <= old(prev)@.len(),
            next@.len() == old(prev)@.len(),
            old(prev)@.len() < 0x1000_0000_0000_0000,
        ensures
            final(prev)@.len() == old(prev)@.len(),
            unchanged_outside(
                old(prev)@,
                final(prev)@,
                stride as int,
                x0 as int,
                y0 as int,
                x1 as int,
                y1 as int,
            ),
            region_synced(
                final(prev)@,
                next@,
                stride as int,
                x0 as int,
                y0 as int,
                x1 as int,
                y1 as int,
            ),
            rects_appended(old(rects)@, final(rects)@),
            new_rects_in(
                old(rects)@.len() as int,
                final(rects)@,
                old(prev)@,
                next@,
                stride as int,
                x0 as int,
                y0 as int,
                x1 as int,
                y1 as int,
            ),
            opt_rect_ok(
                r,
                old(prev)@,
                next@,
                stride as int,
                x0 as int,
                y0 as int,
                x1 as int,
                y1 as int,
            ),
            opt_capped(r),
            forall|i: int|
                old(rects)@.len() <= i < final(rects)@.len() ==> rect_capped(
                    #[trigger] final(rects)@[i],
                ),
            opt_tight(r, old(prev)@, next@, stride as int),
            forall|i: int|
                old(rects)@.len() <= i < final(rects)@.len() ==> rect_tight(
                    old(prev)@,
                    next@,
                    stride as int,
                    #[trigger] final(rects)@[i],
                ),
            r is None ==> region_synced(
                old(prev)@,
                next@,
                stride as int,
                x0 as int,
                y0 as int,
                x1 as int,
                y1 as int,
            ),
            forall|x: int, y: int|
                x0 <= x < x1 && y0 <= y < y1 && old(prev)@[#[trigger] pix_idx(
                    stride as int,
                    x,
                    y,
                )] != masked(next@[pix_idx(stride as int, x, y)]) ==> covered(
                    final(rects)@.subrange(old(rects)@.len() as int, final(rects)@.len() as int),
                    x,
                    y,
                ) || opt_contains(r, x, y),
        decreases (x1 - x0) + (y1 - y0),
    {
        let ghost prev0 = prev@;
        let ghost r0 = rects@;
        let ghost n0 = r0.len() as int;
        let ghost st = stride as int;
        let len = prev.len();
        let w = x1 - x0;
        let h = y1 - y0;
        proof {
            assert(w * h <= stride * y1) by (nonlinear_arith)
                requires
                    0 <= w <= stride,
                    0 <= h <= y1,
            ;
            assert(stride * y1 == y1 * stride) by (nonlinear_arith);
            assert(rects@.subrange(0, n0) =~= r0);
        }
        if w * h <= 1024 {
            let r = compare_block(prev, next, stride, x0, y0, x1, y1);
            proof {
                match r {
                    Some(b) => {
                        // a leaf box of at most 1024 pixels is far below the caps
                        assert((b.x1 - b.x0) * (b.y1 - b.y0) <= w * h) by (nonlinear_arith)
                            requires
                                0 <= b.x1 - b.x0 <= w,
                                0 <= b.y1 - b.y0 <= h,
                                0 <= w,
                                0 <= h,
                        ;
                        assert(w <= w * h) by (nonlinear_arith)
                            requires
                                0 <= w,
                                1 <= h,
                        ;
                    },
                    None => {},
                }
            }
            r
        } else {
            let (a, b) = if h <= w {
                proof {
                    assert(w >= 33) by (nonlinear_arith)
                        requires
                            1 <= h <= w,
                            w * h > 1024,
                    ;
                }
                proof {
                    assert(stride <= y1 * stride) by (nonlinear_arith)
                        requires
                            1 <= y1,
                            0 <= stride,
                    ;
                }
                let sm: u64 = x0 as u64 + x1 as u64 + 8;
                let mq: u64 = sm / 16 * 8;
                proof {
                    assert(16 * (sm / 16) <= sm);
                    assert(sm < 16 * (sm / 16) + 16);
                    assert(x0 < mq < x1);
                }
                let m = mq as usize;
                let a = Self::compare_rec(prev, next, stride, x0, y0, m, y1, rects);
                let ghost pm = prev@;
                let ghost ra = rects@;
                let b = Self::compare_rec(prev, next, stride, m, y0, x1, y1, rects);
                proof {
                    quad_join_h(
                        prev0,
                        pm,
                        prev@,
                        next@,
                        st,
                        n0,
                        r0,
                        ra,
                        rects@,
                        a,
                        b,
                        x0 as int,
                        y0 as int,
                        x1 as int,
                        y1 as int,
                        m as int,
                    );
                    quad_tight_join_h(
                        prev0,
                        pm,
                        next@,
                        st,
                        ra.len() as int,
                        rects@,
                        b,
                        x0 as int,
                        y0 as int,
                        x1 as int,
                        y1 as int,
                        m as int,
                    );
                    assert forall|i: int| n0 <= i < rects@.len() implies rect_tight(
                        prev0,
                        next@,
                        st,
                        #[trigger] rects@[i],
                    ) by {
                        if i < ra.len() {
                            assert(rects@[i] == rects@.subrange(0, ra.len() as int)[i]);
                            assert(rects@[i] == ra[i]);
                        }
                    }
                    if a is None && b is None {
                        assert forall|x: int, y: int|
                            x0 <= x < x1 && y0 <= y < y1 implies prev0[#[trigger] pix_idx(
                            st,
                            x,
                            y,
                        )] == masked(next@[pix_idx(st, x, y)]) by {
                            if x >= m {
                                assert(prev0[pix_idx(st, x, y)] == masked(
                                    next@[pix_idx(st, x, y)],
                                ));
                            }
                        }
                    }
                }
                (a, b)
            } else {
                proof {
                    assert(h >= 33) by (nonlinear_arith)
                        requires
                            1 <= w < h,
                            w * h > 1024,
                    ;
                }
                proof {
                    assert(y1 <= y1 * stride) by (nonlinear_arith)
                        requires
                            1 <= stride,
                            0 <= y1,
                    ;
                }
                let sm: u64 = y0 as u64 + y1 as u64 + 8;
                let mq: u64 = sm / 16 * 8;
                proof {
                    assert(16 * (sm / 16) <= sm);
                    assert(sm < 16 * (sm / 16) + 16);
                    assert(y0 < mq < y1);
                }
                let m = mq as usize;
                proof {
                    assert(m * stride <= y1 * stride) by (nonlinear_arith)
                        requires
                            0 <= m <= y1,
                            0 <= stride,
                    ;
                }
                let a = Self::compare_rec(prev, next, stride, x0, y0, x1, m, rects);
                let ghost pm = prev@;
                let ghost ra = rects@;
                let b = Self::compare_rec(prev, next, stride, x0, m, x1, y1, rects);
                proof {
                    quad_join_v(
                        prev0,
                        pm,
                        prev@,
                        next@,
                        st,
                        n0,
                        r0,
                        ra,
                        rects@,
                        a,
                        b,
                        x0 as int,
                        y0 as int,
                        x1 as int,
                        y1 as int,
                        m as int,
                    );
                    quad_tight_join_v(
                        prev0,
                        pm,
                        next@,
                        st,
                        ra.len() as int,
                        rects@,
                        b,
                        x0 as int,
                        y0 as int,
                        x1 as int,
                        y1 as int,
                        m as int,
                    );
                    assert forall|i: int| n0 <= i < rects@.len() implies rect_tight(
                        prev0,
                        next@,
                        st,
                        #[trigger] rects@[i],
                    ) by {
                        if i < ra.len() {
                            assert(rects@[i] == rects@.subrange(0, ra.len() as int)[i]);
                            assert(rects@[i] == ra[i]);
                        }
                    }
                    if a is None && b is None {
                        assert forall|x: int, y: int|
                            x0 <= x < x1 && y0 <= y < y1 implies prev0[#[trigger] pix_idx(
                            st,
                            x,
                            y,
                        )] == masked(next@[pix_idx(st, x, y)]) by {
                            if y >= m {
                                assert(prev0[pix_idx(st, x, y)] == masked(
                                    next@[pix_idx(st, x, y)],
                                ));
                            }
                        }
                    }
                }
                (a, b)
            };
            let ghost rb = rects@;
            let r = merge_results(
                a,
                b,
                rects,
                Ghost(prev0),
                Ghost(next@),
                Ghost(st),
                Ghost(x0 as int),
                Ghost(y0 as int),
                Ghost(x1 as int),
                Ghost(y1 as int),
            );
            proof {
                quad_finish(
                    prev0,
                    next@,
                    st,
                    n0,
                    r0,
                    rb,
                    rects@,
                    a,
                    b,
                    r,
                    x0 as int,
                    y0 as int,
                    x1 as int,
                    y1 as int,
                );
                assert forall|i: int| n0 <= i < rects@.len() implies rect_tight(
                    prev0,
                    next@,
                    st,
                    #[trigger] rects@[i],
                ) by {
                    if i < rb.len() {
                        assert(rects@[i] == rects@.subrange(0, rb.len() as int)[i]);
                        assert(rects@[i] == rb[i]);
                    }
                }
            }
            r
        }
    }
}

impl Comparator for QuadtreeComparator {
    /// Each reported rectangle obeys the Tight size caps (width at most
    /// 2048, area at most (2 << 22) / 3 pixels) and is tight: each of its
    /// edges meets a changed pixel.
    fn compare(
        prev: &mut Vec<u32>,
        next: &[u32],
        stride: usize,
        w: usize,
        h: usize,
        rects: &mut Vec<Rect>,
    )
        ensures
            forall|i: int|
                old(rects)@.len() <= i < final(rects)@.len() ==> rect_capped(
                    #[trigger] final(rects)@[i],
                ) && rect_tight(old(prev)@, next@, stride as int, final(rects)@[i]),
    {
        let ghost prev0 = prev@;
        let ghost r0 = rects@;
        let ghost n0 = r0.len() as int;
        let ghost st = stride as int;
        proof {
            assert(rects@.subrange(0, n0) =~= r0);
        }
        if w == 0 || h == 0 {
            // an empty frame holds no pixels: nothing to report or update
            return;
        }
        let r = Self::compare_rec(prev, next, stride, 0, 0, w, h, rects);
        let ghost rb = rects@;
        match r {
            Some(root) => {
                rects.push(root);
                proof {
                    assert(rects@.subrange(0, rb.len() as int) =~= rb);
                    lemma_appended_trans(r0, rb, rects@);
                    assert forall|i: int| n0 <= i < rects@.len() implies rect_valid(
                        #[trigger] rects@[i],
                        w as int,
                        h as int,
                    ) && rect_has_diff(prev0, next@, st, rects@[i]) && rect_capped(
                        rects@[i],
                    ) && rect_tight(prev0, next@, st, rects@[i]) by {
                        if i < rb.len() {
                            assert(rects@[i] == rects@.subrange(0, rb.len() as int)[i]);
                            assert(rects@[i] == rb[i]);
                        } else {
                            assert(rects@[i] == root);
                        }
                    }
                    assert forall|x: int, y: int|
                        0 <= x < w && 0 <= y < h && prev0[#[trigger] pix_idx(st, x, y)] != masked(
                            next@[pix_idx(st, x, y)],
                        ) implies covered(rects@.subrange(n0, rects@.len() as int), x, y) by {
                        if covered(rb.subrange(n0, rb.len() as int), x, y) {
                            lemma_covered_extend(rb, rects@, n0, x, y);
                        } else {
                            assert(rect_contains(root, x, y));
                            assert(rect_contains(
                                rects@.subrange(n0, rects@.len() as int)[rects@.len() - 1 - n0],
                                x,
                                y,
                            ));
                        }
                    }
                }
            },
            None => {
                proof {
                    assert forall|x: int, y: int|
                        0 <= x < w && 0 <= y < h && prev0[#[trigger] pix_idx(st, x, y)] != masked(
                            next@[pix_idx(st, x, y)],
                        ) implies covered(rects@.subrange(n0, rects@.len() as int), x, y) by {}
                }
            },
        }
    }
}

/// Whether a row segment [xs, xe) of row y holds no differing pixel.
fn row_clean(prev: &Vec<u32>, next: &[u32], stride: usize, xs: usize, xe: usize, y: usize) -> (c:
    bool)
    requires
        0 < stride,
        xs < xe <= stride,
        (y + 1) * stride <= prev@.len(),
        next@.len() == prev@.len(),
    ensures
        c <==> region_synced(
            prev@,
            next@,
            stride as int,
            xs as int,
            y as int,
            xe as int,
            y as int + 1,
        ),
{
    let ghost st = stride as int;
    let len = prev.len();
    let mut x = xs;
    while x < xe
        invariant
            0 < stride,
            xs <= x <= xe,
            xs < xe <= stride,
            (y + 1) * stride <= len,
            prev@.len() == len,
            next@.len() == len,
            st == stride as int,
            region_synced(prev@, next@, st, xs as int, y as int, x as int, y as int + 1),
        decreases xe - x,
    {
        let i = pixel_index(stride, x, y, len);
        let p = prev[i];
        let q = *slice_index_get(next, i) & PIXEL_MASK;
        if p != q {
            proof {
                assert(prev@[pix_idx(st, x as int, y as int)] != masked(
                    next@[pix_idx(st, x as int, y as int)],
                ));
            }
            return false;
        }
        x += 1;
    }
    true
}

/// Scan one row segment [xs, xe) of row y: write every differing pixel
/// through to `prev` (masked), widen the running column box, and report
/// whether the row held any difference.
fn scan_row(
    prev: &mut Vec<u32>,
    next: &[u32],
    stride: usize,
    xs: usize,
    xe: usize,
    y: usize,
    x_min: &mut usize,
    x_max: &mut usize,
) -> (dirty: bool)
    requires
        0 < stride,
        xs < xe <= stride,
        (y + 1) * stride <= old(prev)@.len(),
        next@.len() == old(prev)@.len(),
    ensures
        final(prev)@.len() == old(prev)@.len(),
        unchanged_outside(
            old(prev)@,
            final(prev)@,
            stride as int,
            xs as int,
            y as int,
            xe as int,
            y as int + 1,
        ),
        region_synced(
            final(prev)@,
            next@,
            stride as int,
            xs as int,
            y as int,
            xe as int,
            y as int + 1,
        ),
        dirty <==> !region_synced(
            old(prev)@,
            next@,
            stride as int,
            xs as int,
            y as int,
            xe as int,
            y as int + 1,
        ),
        !dirty ==> *final(x_min) == *old(x_min) && *final(x_max) == *old(x_max),
        *final(x_min) <= *old(x_min),
        *final(x_max) >= *old(x_max),
        dirty ==> *final(x_min) < *final(x_max),
        *final(x_min) == *old(x_min) || (xs <= *final(x_min) && *final(x_min) < xe),
        *final(x_max) == *old(x_max) || (xs < *final(x_max) && *final(x_max) <= xe),
        *final(x_min) != *old(x_min) ==> old(prev)@[pix_idx(
            stride as int,
            *final(x_min) as int,
            y as int,
        )] != masked(next@[pix_idx(stride as int, *final(x_min) as int, y as int)]),
        *final(x_max) != *old(x_max) ==> old(prev)@[pix_idx(
            stride as int,
            *final(x_max) as int - 1,
            y as int,
        )] != masked(next@[pix_idx(stride as int, *final(x_max) as int - 1, y as int)]),
        dirty ==> box_has_diff(
            old(prev)@,
            next@,
            stride as int,
            *final(x_min) as int,
            y as int,
            *final(x_max) as int,
            y as int + 1,
        ),
        diffs_in_box(
            old(prev)@,
            next@,
            stride as int,
            xs as int,
            y as int,
            xe as int,
            y as int + 1,
            *final(x_min) as int,
            y as int,
            *final(x_max) as int,
            y as int + 1,
        ),
{
    let ghost prev0 = prev@;
    let ghost st = stride as int;
    let ghost m0 = *x_min;
    let ghost mx0 = *x_max;
    let len = prev.len();
    let mut dirty = false;
    let mut x = xs;
    while x < xe
        invariant
            0 < stride,
            xs <= x <= xe,
            xs < xe <= stride,
            (y + 1) * stride <= len,
            prev@.len() == len,
            next@.len() == len,
            prev0.len() == len,
            st == stride as int,
            m0 == *old(x_min),
            mx0 == *old(x_max),
            unchanged_outside(prev0, prev@, st, xs as int, y as int, xe as int, y as int + 1),
            region_synced(prev@, next@, st, xs as int, y as int, x as int, y as int + 1),
            region_eq(prev@, prev0, st, x as int, y as int, xe as int, y as int + 1),
            dirty <==> !region_synced(prev0, next@, st, xs as int, y as int, x as int, y as int + 1),
            !dirty ==> *x_min == m0 && *x_max == mx0,
            *x_min <= m0,
            *x_max >= mx0,
            dirty ==> *x_min < *x_max,
            *x_min == m0 || (xs <= *x_min && *x_min < xe),
            *x_max == mx0 || (xs < *x_max && *x_max <= xe),
            *x_min != m0 ==> prev0[pix_idx(st, *x_min as int, y as int)] != masked(
                next@[pix_idx(st, *x_min as int, y as int)],
            ),
            *x_max != mx0 ==> prev0[pix_idx(st, *x_max as int - 1, y as int)] != masked(
                next@[pix_idx(st, *x_max as int - 1, y as int)],
            ),
            diffs_in_box(
                prev0,
                next@,
                st,
                xs as int,
                y as int,
                x as int,
                y as int + 1,
                *x_min as int,
                y as int,
                *x_max as int,
                y as int + 1,
            ),
        decreases xe - x,
    {
        let i = pixel_index(stride, x, y, len);
        let p = prev[i];
        let q = *slice_index_get(next, i) & PIXEL_MASK;
        proof {
            assert(p == prev@[pix_idx(st, x as int, y as int)]);
            assert(q == masked(next@[pix_idx(st, x as int, y as int)]));
        }
        if p != q {
            let ghost pre_step = prev@;
            prev[i] = q;
            proof {
                assert(index_in_region(
                    st,
                    i as int,
                    xs as int,
                    y as int,
                    xe as int,
                    y as int + 1,
                )) by {
                    assert(xs <= x < xe && i as int == pix_idx(st, x as int, y as int));
                }
                lemma_write_pixel(pre_step, prev@, st, x as int, y as int, q, y as int + 1);
                assert(pre_step[pix_idx(st, x as int, y as int)] == prev0[pix_idx(
                    st,
                    x as int,
                    y as int,
                )]);
                assert(prev0[pix_idx(st, x as int, y as int)] != masked(
                    next@[pix_idx(st, x as int, y as int)],
                ));
                assert(!region_synced(
                    prev0,
                    next@,
                    st,
                    xs as int,
                    y as int,
                    x as int + 1,
                    y as int + 1,
                )) by {
                    assert(prev0[pix_idx(st, x as int, y as int)] != masked(
                        next@[pix_idx(st, x as int, y as int)],
                    ));
                }
                assert forall|j: int|
                    0 <= j < len && !index_in_region(
                        st,
                        j,
                        xs as int,
                        y as int,
                        xe as int,
                        y as int + 1,
                    ) implies prev@[j] == prev0[j] by {}
            }
            dirty = true;
            if x < *x_min {
                *x_min = x;
            }
            if x + 1 > *x_max {
                *x_max = x + 1;
            }
        }
        x += 1;
    }
    dirty
}

/// Every rectangle appended beyond `n0` lies inside the strip, holds a
/// differing pixel, and merges at most 128 rows.
pub open spec fn strip_rects_ok(
    n0: int,
    post: Seq<Rect>,
    prev0: Seq<u32>,
    next: Seq<u32>,
    stride: int,
    bx: int,
    xe: int,
    h: int,
) -> bool {
    forall|i: int|
        n0 <= i < post.len() ==> rect_in(#[trigger] post[i], bx, 0, xe, h) && rect_has_diff(
            prev0,
            next,
            stride,
            post[i],
        ) && post[i].y1 <= post[i].y0 + 128 && rect_tight(prev0, next, stride, post[i])
}

/// Strip strategy for one vertical strip [bx, xe) x [0, h): alternate a
/// search for the next differing row with an accumulation of up to 128 rows,
/// stopping a segment after a run of 8 quiet rows, and report one rectangle
/// per segment.
#[verifier::rlimit(100)]
fn strip_scan(
    prev: &mut Vec<u32>,
    next: &[u32],
    stride: usize,
    bx: usize,
    xe: usize,
    h: usize,
    rects: &mut Vec<Rect>,
)
    requires
        0 < stride,
        bx < xe <= stride,
        0 < h,
        h * stride <= old(prev)@.len(),
        next@.len() == old(prev)@.len(),
    ensures
        final(prev)@.len() == old(prev)@.len(),
        unchanged_outside(
            old(prev)@,
            final(prev)@,
            stride as int,
            bx as int,
            0,
            xe as int,
            h as int,
        ),
        region_synced(final(prev)@, next@, stride as int, bx as int, 0, xe as int, h as int),
        rects_appended(old(rects)@, final(rects)@),
        new_rects_in(
            old(rects)@.len() as int,
            final(rects)@,
            old(prev)@,
            next@,
            stride as int,
            bx as int,
            0,
            xe as int,
            h as int,
        ),
        diffs_covered(
            old(rects)@.len() as int,
            final(rects)@,
            old(prev)@,
            next@,
            stride as int,
            bx as int,
            0,
            xe as int,
            h as int,
        ),
        forall|i: int|
            old(rects)@.len() <= i < final(rects)@.len() ==> (#[trigger] final(rects)@[i]).y1
                <= final(rects)@[i].y0 + 128 && rect_tight(
                old(prev)@,
                next@,
                stride as int,
                final(rects)@[i],
            ),
{
    let ghost prev0 = prev@;
    let ghost r0 = rects@;
    let ghost n0 = r0.len() as int;
    let ghost st = stride as int;
    let len = prev.len();
    proof {
        assert(rects@.subrange(0, n0) =~= r0);
    }
    let mut y: usize = 0;
    while y < h
        invariant
            0 < stride,
            bx < xe <= stride,
            0 < h,
            y <= h,
            h * stride <= len,
            prev@.len() == len,
            next@.len() == len,
            prev0.len() == len,
            st == stride as int,
            n0 == r0.len() as int,
            unchanged_outside(prev0, prev@, st, bx as int, 0, xe as int, h as int),
            region_synced(prev@, next@, st, bx as int, 0, xe as int, y as int),
            region_eq(prev@, prev0, st, bx as int, y as int, xe as int, h as int),
            rects_appended(r0, rects@),
            strip_rects_ok(n0, rects@, prev0, next@, st, bx as int, xe as int, h as int),
            diffs_covered(n0, rects@, prev0, next@, st, bx as int, 0, xe as int, y as int),
        decreases h - y,
    {
        // search: advance y past rows that hold no difference
        loop
            invariant
                0 < stride,
                bx < xe <= stride,
                y <= h,
                h * stride <= len,
                prev@.len() == len,
                next@.len() == len,
                prev0.len() == len,
                st == stride as int,
                region_synced(prev@, next@, st, bx as int, 0, xe as int, y as int),
                region_eq(prev@, prev0, st, bx as int, y as int, xe as int, h as int),
            ensures
                y <= h,
                region_synced(prev@, next@, st, bx as int, 0, xe as int, y as int),
                region_eq(prev@, prev0, st, bx as int, y as int, xe as int, h as int),
                y < h ==> !region_synced(
                    prev@,
                    next@,
                    st,
                    bx as int,
                    y as int,
                    xe as int,
                    y as int + 1,
                ),
            decreases h - y,
        {
            if y >= h {
                break;
            }
            proof {
                assert((y + 1) * stride <= h * stride) by (nonlinear_arith)
                    requires
                        y + 1 <= h,
                        0 <= stride,
                ;
            }
            if !row_clean(prev, next, stride, bx, xe, y) {
                break;
            }
            y += 1;
        }
        let ys = y;
        if ys < h {
            proof {
                // the row that stopped the search differs from the original
                // buffer too: it has not been written yet
                assert(!region_synced(
                    prev0,
                    next@,
                    st,
                    bx as int,
                    ys as int,
                    xe as int,
                    ys as int + 1,
                )) by {
                    if region_synced(prev0, next@, st, bx as int, ys as int, xe as int, ys as int
                        + 1) {
                        assert forall|xx: int, yy: int|
                            bx <= xx < xe && ys <= yy < ys + 1 implies prev@[#[trigger] pix_idx(
                            st,
                            xx,
                            yy,
                        )] == masked(next@[pix_idx(st, xx, yy)]) by {
                            assert(prev@[pix_idx(st, xx, yy)] == prev0[pix_idx(st, xx, yy)]);
                        }
                    }
                }
            }
            let ye = if h - ys >= 128 { ys + 128 } else { h };
            let mut n: usize = 0;
            let mut x_min: usize = xe;
            let mut x_max: usize = bx;
            loop
                invariant
                    0 < stride,
                    bx < xe <= stride,
                    ys <= y <= ye <= h,
                    ys < ye,
                    ye <= ys + 128,
                    h * stride <= len,
                    prev@.len() == len,
                    next@.len() == len,
                    prev0.len() == len,
                    st == stride as int,
                    y == ys ==> n == 0,
                    y > ys ==> n <= y - ys - 1,
                    unchanged_outside(prev0, prev@, st, bx as int, 0, xe as int, h as int),
                    region_synced(prev@, next@, st, bx as int, 0, xe as int, y as int),
                    region_eq(prev@, prev0, st, bx as int, y as int, xe as int, h as int),
                    x_min < x_max ==> bx <= x_min < x_max <= xe,
                    x_min >= x_max ==> (x_min == xe && x_max == bx),
                    // the trailing n rows held no difference
                    region_synced(prev0, next@, st, bx as int, y as int - n, xe as int, y as int),
                    // every difference of the accumulated rows lies in the box
                    diffs_in_box(
                        prev0,
                        next@,
                        st,
                        bx as int,
                        ys as int,
                        xe as int,
                        y as int,
                        x_min as int,
                        ys as int,
                        x_max as int,
                        y as int - n,
                    ),
                    y > ys ==> box_has_diff(
                        prev0,
                        next@,
                        st,
                        x_min as int,
                        ys as int,
                        x_max as int,
                        ys as int + 1,
                    ),
                    y > ys ==> box_has_diff(
                        prev0,
                        next@,
                        st,
                        x_min as int,
                        y as int - n - 1,
                        x_max as int,
                        y as int - n,
                    ),
                    x_min < x_max ==> box_has_diff(
                        prev0,
                        next@,
                        st,
                        x_min as int,
                        ys as int,
                        x_min as int + 1,
                        y as int,
                    ),
                    x_min < x_max ==> box_has_diff(
                        prev0,
                        next@,
                        st,
                        x_max as int - 1,
                        ys as int,
                        x_max as int,
                        y as int,
                    ),
                    y == ys ==> !region_synced(
                        prev0,
                        next@,
                        st,
                        bx as int,
                        ys as int,
                        xe as int,
                        ys as int + 1,
                    ),
                ensures
                    ys < y <= ye <= h,
                    n <= y - ys - 1,
                    prev@.len() == len,
                    unchanged_outside(prev0, prev@, st, bx as int, 0, xe as int, h as int),
                    region_synced(prev@, next@, st, bx as int, 0, xe as int, y as int),
                    region_eq(prev@, prev0, st, bx as int, y as int, xe as int, h as int),
                    bx <= x_min < x_max <= xe,
                    region_synced(prev0, next@, st, bx as int, y as int - n, xe as int, y as int),
                    diffs_in_box(
                        prev0,
                        next@,
                        st,
                        bx as int,
                        ys as int,
                        xe as int,
                        y as int,
                        x_min as int,
                        ys as int,
                        x_max as int,
                        y as int - n,
                    ),
                    box_has_diff(
                        prev0,
                        next@,
                        st,
                        x_min as int,
                        ys as int,
                        x_max as int,
                        ys as int + 1,
                    ),
                    box_has_diff(
                        prev0,
                        next@,
                        st,
                        x_min as int,
                        y as int - n - 1,
                        x_max as int,
                        y as int - n,
                    ),
                    box_has_diff(
                        prev0,
                        next@,
                        st,
                        x_min as int,
                        ys as int,
                        x_min as int + 1,
                        y as int,
                    ),
                    box_has_diff(
                        prev0,
                        next@,
                        st,
                        x_max as int - 1,
                        ys as int,
                        x_max as int,
                        y as int,
                    ),
                decreases ye - y,
            {
                if y >= ye {
                    break;
                }
                proof {
                    assert((y + 1) * stride <= h * stride) by (nonlinear_arith)
                        requires
                            y + 1 <= h,
                            0 <= stride,
                    ;
                }
                let ghost p_pre = prev@;
                let ghost m_pre = x_min;
                let ghost mx_pre = x_max;
                let dirty = scan_row(prev, next, stride, bx, xe, y, &mut x_min, &mut x_max);
                proof {
                    // rows other than y kept their value
                    assert forall|xx: int, yy: int|
                        bx <= xx < xe && 0 <= yy < h && yy != y implies prev@[#[trigger] pix_idx(
                        st,
                        xx,
                        yy,
                    )] == p_pre[pix_idx(st, xx, yy)] by {
                        lemma_pix_idx_bound(st, xx, yy, h as int);
                        assert(stride * h == h * stride) by (nonlinear_arith);
                        lemma_unchanged_pixel(
                            p_pre,
                            prev@,
                            st,
                            bx as int,
                            y as int,
                            xe as int,
                            y as int + 1,
                            xx,
                            yy,
                        );
                    }
                    assert forall|j: int|
                        0 <= j < len && !index_in_region(
                            st,
                            j,
                            bx as int,
                            0,
                            xe as int,
                            h as int,
                        ) implies prev@[j] == prev0[j] by {
                        if index_in_region(st, j, bx as int, y as int, xe as int, y as int + 1) {
                            lemma_region_mono(
                                st,
                                j,
                                bx as int,
                                y as int,
                                xe as int,
                                y as int + 1,
                                bx as int,
                                0,
                                xe as int,
                                h as int,
                            );
                        }
                    }
                    if y > ys && x_min != m_pre {
                        lemma_box_diff_mono(
                            prev0,
                            next@,
                            st,
                            m_pre as int,
                            ys as int,
                            mx_pre as int,
                            ys as int + 1,
                            x_min as int,
                            ys as int,
                            x_max as int,
                            ys as int + 1,
                        );
                    }
                    if y > ys && x_min == m_pre && x_max != mx_pre {
                        lemma_box_diff_mono(
                            prev0,
                            next@,
                            st,
                            m_pre as int,
                            ys as int,
                            mx_pre as int,
                            ys as int + 1,
                            x_min as int,
                            ys as int,
                            x_max as int,
                            ys as int + 1,
                        );
                    }
                    // row y of the original buffer is what the scan saw
                    assert(region_eq(
                        p_pre,
                        prev0,
                        st,
                        bx as int,
                        y as int,
                        xe as int,
                        y as int + 1,
                    ));
                    if dirty {
                        lemma_box_diff_translate(
                            p_pre,
                            prev0,
                            next@,
                            st,
                            x_min as int,
                            y as int,
                            x_max as int,
                            y as int + 1,
                        );
                        if x_min != m_pre {
                            assert(p_pre[pix_idx(st, x_min as int, y as int)] == prev0[pix_idx(
                                st,
                                x_min as int,
                                y as int,
                            )]);
                            assert(box_has_diff(
                                prev0,
                                next@,
                                st,
                                x_min as int,
                                ys as int,
                                x_min as int + 1,
                                y as int + 1,
                            )) by {
                                assert(prev0[pix_idx(st, x_min as int, y as int)] != masked(
                                    next@[pix_idx(st, x_min as int, y as int)],
                                ));
                            }
                        } else if m_pre < mx_pre {
                            lemma_box_diff_mono(
                                prev0,
                                next@,
                                st,
                                m_pre as int,
                                ys as int,
                                m_pre as int + 1,
                                y as int,
                                x_min as int,
                                ys as int,
                                x_min as int + 1,
                                y as int + 1,
                            );
                        }
                        if x_max != mx_pre {
                            assert(p_pre[pix_idx(st, x_max as int - 1, y as int)] == prev0[
                            pix_idx(st, x_max as int - 1, y as int)]);
                            assert(box_has_diff(
                                prev0,
                                next@,
                                st,
                                x_max as int - 1,
                                ys as int,
                                x_max as int,
                                y as int + 1,
                            )) by {
                                assert(prev0[pix_idx(st, x_max as int - 1, y as int)] != masked(
                                    next@[pix_idx(st, x_max as int - 1, y as int)],
                                ));
                            }
                        } else if m_pre < mx_pre {
                            lemma_box_diff_mono(
                                prev0,
                                next@,
                                st,
                                mx_pre as int - 1,
                                ys as int,
                                mx_pre as int,
                                y as int,
                                x_max as int - 1,
                                ys as int,
                                x_max as int,
                                y as int + 1,
                            );
                        }
                    } else if m_pre < mx_pre {
                        lemma_box_diff_mono(
                            prev0,
                            next@,
                            st,
                            m_pre as int,
                            ys as int,
                            m_pre as int + 1,
                            y as int,
                            x_min as int,
                            ys as int,
                            x_min as int + 1,
                            y as int + 1,
                        );
                        lemma_box_diff_mono(
                            prev0,
                            next@,
                            st,
                            mx_pre as int - 1,
                            ys as int,
                            mx_pre as int,
                            y as int,
                            x_max as int - 1,
                            ys as int,
                            x_max as int,
                            y as int + 1,
                        );
                    }
                }
                if !dirty {
                    proof {
                        if y == ys {
                            let (xx, yy): (int, int) = choose|xx: int, yy: int|
                                bx <= xx < xe && ys <= yy < ys + 1 && prev0[#[trigger] pix_idx(
                                    st,
                                    xx,
                                    yy,
                                )] != masked(next@[pix_idx(st, xx, yy)]);
                            assert(p_pre[pix_idx(st, xx, yy)] == prev0[pix_idx(st, xx, yy)]);
                            assert(!region_synced(
                                p_pre,
                                next@,
                                st,
                                bx as int,
                                ys as int,
                                xe as int,
                                ys as int + 1,
                            )) by {
                                assert(p_pre[pix_idx(st, xx, yy)] != masked(
                                    next@[pix_idx(st, xx, yy)],
                                ));
                            }
                            assert(false);
                        }
                    }
                    if n >= 8 {
                        break;
                    }
                    n += 1;
                } else {
                    proof {
                        if y == ys {
                            // the first row differed in the original buffer
                            assert(box_has_diff(
                                prev0,
                                next@,
                                st,
                                x_min as int,
                                ys as int,
                                x_max as int,
                                ys as int + 1,
                            )) by {
                                let (xx, yy): (int, int) = choose|xx: int, yy: int|
                                    bx <= xx < xe && ys <= yy < ys + 1 && prev0[
                                    #[trigger] pix_idx(st, xx, yy)] != masked(
                                        next@[pix_idx(st, xx, yy)],
                                    );
                                assert(p_pre[pix_idx(st, xx, yy)] == prev0[pix_idx(st, xx, yy)]);
                                assert(x_min <= xx < x_max);
                            }
                        }
                    }
                    n = 0;
                }
                y += 1;
            }
            let y1 = y - n;
            proof {
                assert(ys < y1);
            }
            let r = Rect { x0: x_min, y0: ys, x1: x_max, y1: y1 };
            proof {
                reveal(box_tight);
                // the left edge's witness is a change, so it lies before the
                // quiet tail
                assert(box_has_diff(
                    prev0,
                    next@,
                    st,
                    x_min as int,
                    ys as int,
                    x_min as int + 1,
                    y1 as int,
                )) by {
                    let (xx, yy): (int, int) = choose|xx: int, yy: int|
                        x_min <= xx < x_min + 1 && ys <= yy < y && prev0[#[trigger] pix_idx(
                            st,
                            xx,
                            yy,
                        )] != masked(next@[pix_idx(st, xx, yy)]);
                    if yy >= y1 {
                        assert(prev0[pix_idx(st, xx, yy)] == masked(next@[pix_idx(st, xx, yy)]));
                    }
                }
                assert(box_has_diff(
                    prev0,
                    next@,
                    st,
                    x_max as int - 1,
                    ys as int,
                    x_max as int,
                    y1 as int,
                )) by {
                    let (xx, yy): (int, int) = choose|xx: int, yy: int|
                        x_max - 1 <= xx < x_max && ys <= yy < y && prev0[#[trigger] pix_idx(
                            st,
                            xx,
                            yy,
                        )] != masked(next@[pix_idx(st, xx, yy)]);
                    if yy >= y1 {
                        assert(prev0[pix_idx(st, xx, yy)] == masked(next@[pix_idx(st, xx, yy)]));
                    }
                }
                assert(rect_tight(prev0, next@, st, r));
            }
            let ghost rpre = rects@;
            rects.push(r);
            proof {
                assert(rects@.subrange(0, n0) =~= r0);
                lemma_box_diff_mono(
                    prev0,
                    next@,
                    st,
                    x_min as int,
                    ys as int,
                    x_max as int,
                    ys as int + 1,
                    x_min as int,
                    ys as int,
                    x_max as int,
                    y1 as int,
                );
                assert forall|i: int|
                    n0 <= i < rects@.len() implies rect_in(
                    #[trigger] rects@[i],
                    bx as int,
                    0,
                    xe as int,
                    h as int,
                ) && rect_has_diff(prev0, next@, st, rects@[i]) && rects@[i].y1 <= rects@[i].y0
                    + 128 && rect_tight(prev0, next@, st, rects@[i]) by {
                    if i < rpre.len() {
                        assert(rects@[i] == rpre[i]);
                    } else {
                        assert(rects@[i] == r);
                    }
                }
                assert(rects@.subrange(n0, rects@.len() as int) =~= rpre.subrange(
                    n0,
                    rpre.len() as int,
                ).push(r));
                assert forall|x: int, yy: int|
                    bx <= x < xe && 0 <= yy < y && prev0[#[trigger] pix_idx(st, x, yy)] != masked(
                        next@[pix_idx(st, x, yy)],
                    ) implies covered(rects@.subrange(n0, rects@.len() as int), x, yy) by {
                    if yy < ys {
                        lemma_covered_push(rpre.subrange(n0, rpre.len() as int), r, x, yy);
                    } else {
                        assert(rect_contains(r, x, yy));
                        lemma_covered_new(rpre.subrange(n0, rpre.len() as int), r, x, yy);
                    }
                }
            }
        }
    }
}

/// Bookkeeping after one strip: carry the strip's facts over to the
/// original buffer and extend the accumulated column coverage.
#[verifier::rlimit(100)]
proof fn strip_join_facts(
    p1: Seq<u32>,
    prev0: Seq<u32>,
    pf: Seq<u32>,
    nexts: Seq<u32>,
    st: int,
    r0: Seq<Rect>,
    rpre: Seq<Rect>,
    rpost: Seq<Rect>,
    n0: int,
    w: int,
    h: int,
    bx: int,
    xe: int,
)
    requires
        0 < st,
        0 <= bx < xe <= w <= st,
        0 < h,
        h * st <= p1.len(),
        prev0.len() == p1.len(),
        pf.len() == p1.len(),
        nexts.len() == p1.len(),
        bx % 64 == 0,
        xe <= bx + 64,
        n0 == r0.len(),
        unchanged_outside(prev0, p1, st, 0, 0, w, h),
        unchanged_outside(p1, pf, st, bx, 0, xe, h),
        region_synced(p1, nexts, st, 0, 0, bx, h),
        region_synced(pf, nexts, st, bx, 0, xe, h),
        region_eq(p1, prev0, st, bx, 0, w, h),
        rects_appended(r0, rpre),
        rects_appended(rpre, rpost),
        new_rects_ok(n0, rpre, prev0, nexts, st, w, h),
        new_rects_in(rpre.len() as int, rpost, p1, nexts, st, bx, 0, xe, h),
        forall|i: int|
            rpre.len() <= i < rpost.len() ==> (#[trigger] rpost[i]).y1 <= rpost[i].y0 + 128
                && rect_tight(p1, nexts, st, rpost[i]),
        diffs_covered(n0, rpre, prev0, nexts, st, 0, 0, bx, h),
        diffs_covered(rpre.len() as int, rpost, p1, nexts, st, bx, 0, xe, h),
        forall|i: int|
            n0 <= i < rpre.len() ==> (#[trigger] rpre[i]).x1 <= tile_of(rpre[i].x0 as int) + 64
                && rpre[i].y1 <= rpre[i].y0 + 128 && rect_tight(prev0, nexts, st, rpre[i]),
    ensures
        unchanged_outside(prev0, pf, st, 0, 0, w, h),
        region_synced(pf, nexts, st, 0, 0, xe, h),
        region_eq(pf, prev0, st, xe, 0, w, h),
        rects_appended(r0, rpost),
        new_rects_ok(n0, rpost, prev0, nexts, st, w, h),
        diffs_covered(n0, rpost, prev0, nexts, st, 0, 0, xe, h),
        forall|i: int|
            n0 <= i < rpost.len() ==> (#[trigger] rpost[i]).x1 <= tile_of(rpost[i].x0 as int) + 64
                && rpost[i].y1 <= rpost[i].y0 + 128 && rect_tight(prev0, nexts, st, rpost[i]),
{
    let np = rpre.len() as int;
    assert forall|xx: int, yy: int|
        0 <= xx < w && 0 <= yy < h && !(bx <= xx < xe) implies pf[#[trigger] pix_idx(st, xx, yy)]
        == p1[pix_idx(st, xx, yy)] by {
        lemma_pix_idx_bound(st, xx, yy, h);
        assert(st * h == h * st) by (nonlinear_arith);
        lemma_unchanged_pixel(p1, pf, st, bx, 0, xe, h, xx, yy);
    }
    assert forall|j: int|
        0 <= j < p1.len() && !index_in_region(st, j, 0, 0, w, h) implies pf[j] == prev0[j] by {
        if index_in_region(st, j, bx, 0, xe, h) {
            lemma_region_mono(st, j, bx, 0, xe, h, 0, 0, w, h);
        }
    }
    lemma_appended_trans(r0, rpre, rpost);
    assert forall|i: int|
        n0 <= i < rpost.len() implies rect_valid(#[trigger] rpost[i], w, h) && rect_has_diff(
        prev0,
        nexts,
        st,
        rpost[i],
    ) && rpost[i].x1 <= tile_of(rpost[i].x0 as int) + 64 && rpost[i].y1 <= rpost[i].y0 + 128
        && rect_tight(prev0, nexts, st, rpost[i]) by {
        if i < np {
            assert(rpost[i] == rpost.subrange(0, np)[i]);
            assert(rpost[i] == rpre[i]);
        } else {
            let rr = rpost[i];
            assert(rect_in(rr, bx, 0, xe, h) && rect_has_diff(p1, nexts, st, rr));
            lemma_tile_of(rr.x0 as int, bx);
            assert(region_eq(p1, prev0, st, rr.x0 as int, rr.y0 as int, rr.x1 as int, rr.y1 as int));
            lemma_box_diff_translate(
                p1,
                prev0,
                nexts,
                st,
                rr.x0 as int,
                rr.y0 as int,
                rr.x1 as int,
                rr.y1 as int,
            );
            lemma_tight_translate(p1, prev0, nexts, st, rr);
        }
    }
    assert forall|x: int, y: int|
        0 <= x < xe && 0 <= y < h && prev0[#[trigger] pix_idx(st, x, y)] != masked(
            nexts[pix_idx(st, x, y)],
        ) implies covered(rpost.subrange(n0, rpost.len() as int), x, y) by {
        if x < bx {
            lemma_covered_extend(rpre, rpost, n0, x, y);
        } else {
            assert(p1[pix_idx(st, x, y)] != masked(nexts[pix_idx(st, x, y)]));
            lemma_covered_widen(rpost, n0, np, x, y);
        }
    }
}

/// Strip strategy (the default): process vertical strips of width 64; inside
/// each strip merge vertically contiguous change into tall rectangles,
/// tolerating gaps of up to 8 quiet rows.
pub struct StripComparator;

impl Comparator for StripComparator {
    /// Each reported rectangle stays inside its width-64 strip, merges at
    /// most 128 rows, and is tight: each of its edges meets a changed pixel.
    #[verifier::rlimit(100)]
    fn compare(
        prev: &mut Vec<u32>,
        next: &[u32],
        stride: usize,
        w: usize,
        h: usize,
        rects: &mut Vec<Rect>,
    )
        ensures
            forall|i: int|
                old(rects)@.len() <= i < final(rects)@.len() ==> {
                    let rr = #[trigger] final(rects)@[i];
                    &&& rr.x1 <= tile_of(rr.x0 as int) + 64
                    &&& rr.y1 <= rr.y0 + 128
                    &&& rect_tight(old(prev)@, next@, stride as int, rr)
                },
    {
        let ghost prev0 = prev@;
        let ghost r0 = rects@;
        let ghost n0 = r0.len() as int;
        let ghost st = stride as int;
        proof {
            assert(rects@.subrange(0, n0) =~= r0);
        }
        if w == 0 || h == 0 {
            // an empty frame holds no pixels: nothing to report or update
            return;
        }
        let len = prev.len();
        proof {
            assert(h <= h * stride && w <= h * stride) by (nonlinear_arith)
                requires
                    1 <= stride,
                    1 <= h,
                    w <= stride,
            ;
        }
        let mut bx: usize = 0;
        while bx < w
            invariant
                0 < w <= stride,
                0 < h,
                h <= len,
                w <= len,
                len < 0x1000_0000_0000_0000,
                h * stride <= len,
                prev@.len() == len,
                next@.len() == len,
                prev0.len() == len,
                st == stride as int,
                bx <= w,
                n0 == r0.len() as int,
                unchanged_outside(prev0, prev@, st, 0, 0, w as int, h as int),
                region_synced(prev@, next@, st, 0, 0, bx as int, h as int),
                region_eq(prev@, prev0, st, bx as int, 0, w as int, h as int),
                rects_appended(r0, rects@),
                new_rects_ok(n0, rects@, prev0, next@, st, w as int, h as int),
                diffs_covered(n0, rects@, prev0, next@, st, 0, 0, bx as int, h as int),
                bx % 64 == 0 || bx == w,
                forall|i: int|
                    n0 <= i < rects@.len() ==> {
                        let rr = #[trigger] rects@[i];
                        &&& rr.x1 <= tile_of(rr.x0 as int) + 64
                        &&& rr.y1 <= rr.y0 + 128
                        &&& rect_tight(prev0, next@, st, rr)
                    },
            decreases w - bx,
        {
            let xe = if w - bx >= 64 { bx + 64 } else { w };
            let ghost p1 = prev@;
            let ghost rpre = rects@;
            strip_scan(prev, next, stride, bx, xe, h, rects);
            proof {
                strip_join_facts(
                    p1,
                    prev0,
                    prev@,
                    next@,
                    st,
                    r0,
                    rpre,
                    rects@,
                    n0,
                    w as int,
                    h as int,
                    bx as int,
                    xe as int,
                );
            }
            bx = xe;
        }
    }
}

} // verus!
