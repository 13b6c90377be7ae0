//! The Tight gradient filter: per-channel residual coding against the
//! predictor clamp(N + W - NW), its inverse, and the proof that decoding a
//! filtered rectangle reproduces it pixel-exactly (the alpha byte aside).
use vstd::prelude::*;
use vstd::arithmetic::div_mod::lemma_fundamental_div_mod_converse;

verus! {

/// Channel c of a BGRX pixel, in the output order 0 = R, 1 = G, 2 = B.
pub open spec fn chan(p: u32, c: int) -> u8 {
    if c == 0 {
        ((p >> 16) & 0xff) as u8
    } else if c == 1 {
        ((p >> 8) & 0xff) as u8
    } else {
        (p & 0xff) as u8
    }
}

/// Clamp an integer to the byte range.
pub open spec fn clamp255(v: int) -> int {
    if v < 0 {
        0
    } else if v > 255 {
        255
    } else {
        v
    }
}

/// The gradient predictor for channel c of rect-local pixel (x, y):
/// clamp(N + W - NW, 0, 255), with 0 standing in for missing neighbours.
pub open spec fn pred_at(px: spec_fn(int, int) -> u32, x: int, y: int, c: int) -> int {
    let nv: int = if y > 0 {
        chan(px(x, y - 1), c) as int
    } else {
        0
    };
    let wv: int = if x > 0 {
        chan(px(x - 1, y), c) as int
    } else {
        0
    };
    let nwv: int = if x > 0 && y > 0 {
        chan(px(x - 1, y - 1), c) as int
    } else {
        0
    };
    clamp255(nv + wv - nwv)
}

/// The residual byte for channel c of pixel (x, y): the channel minus the
/// predictor, as unsigned 8-bit wraparound.
pub open spec fn resid_at(px: spec_fn(int, int) -> u32, x: int, y: int, c: int) -> u8 {
    (((chan(px(x, y), c) as int) - pred_at(px, x, y, c)) % 256) as u8
}

/// The gradient residual stream of a w x h rectangle: three bytes per pixel
/// in row order, channels R, G, B.
pub open spec fn gradient_seq(px: spec_fn(int, int) -> u32, w: int, h: int) -> Seq<u8> {
    Seq::new((3 * w * h) as nat, |i: int| resid_at(px, (i / 3) % w, (i / 3) / w, i % 3))
}

/// The unfiltered RGB stream of a w x h rectangle: three bytes per pixel in
/// row order, channels R, G, B.
pub open spec fn rgb_seq(px: spec_fn(int, int) -> u32, w: int, h: int) -> Seq<u8> {
    Seq::new((3 * w * h) as nat, |i: int| chan(px((i / 3) % w, (i / 3) / w), i % 3))
}

/// The rect-local pixels of a packed u32 buffer whose top-left pixel sits at
/// index 0: pixel (x, y) at stride * y + x.
pub open spec fn screen_px(s: Seq<u32>, stride: int) -> spec_fn(int, int) -> u32 {
    |x: int, y: int| s[y * stride + x]
}

/// Channel c of the pixel (x, y) decoded from a residual stream: the
/// residual plus the predictor recomputed from the already-decoded
/// neighbours, as unsigned 8-bit wraparound.
pub open spec fn dec_at(res: Seq<u8>, w: int, x: int, y: int, c: int) -> u8
    decreases y, x,
    when 0 <= x && 0 <= y
{
    let nv: int = if y > 0 {
        dec_at(res, w, x, y - 1, c) as int
    } else {
        0
    };
    let wv: int = if x > 0 {
        dec_at(res, w, x - 1, y, c) as int
    } else {
        0
    };
    let nwv: int = if x > 0 && y > 0 {
        dec_at(res, w, x - 1, y - 1, c) as int
    } else {
        0
    };
    ((res[3 * (y * w + x) + c] as int + clamp255(nv + wv - nwv)) % 256) as u8
}

/// The residual stream indexes back to the residual of pixel (x, y).
proof fn lemma_gradient_seq_index(px: spec_fn(int, int) -> u32, w: int, h: int, x: int, y: int, c: int)
    requires
        0 < w,
        0 <= x < w,
        0 <= y < h,
        0 <= c < 3,
    ensures
        0 <= 3 * (y * w + x) + c < 3 * w * h,
        gradient_seq(px, w, h)[3 * (y * w + x) + c] == resid_at(px, x, y, c),
{
    let q = y * w + x;
    let i = 3 * q + c;
    assert(0 <= q < w * h && 0 <= i < 3 * w * h) by (nonlinear_arith)
        requires
            0 <= x < w,
            0 <= y < h,
            0 <= c < 3,
            q == y * w + x,
            i == 3 * q + c,
    ;
    lemma_fundamental_div_mod_converse(i, 3, q, c);
    lemma_fundamental_div_mod_converse(q, w, y, x);
}

/// Decoding the gradient residual stream of a rectangle reproduces every
/// channel of every pixel exactly.
pub proof fn lemma_gradient_roundtrip_at(
    px: spec_fn(int, int) -> u32,
    w: int,
    h: int,
    x: int,
    y: int,
    c: int,
)
    requires
        0 < w,
        0 <= x < w,
        0 <= y < h,
        0 <= c < 3,
    ensures
        dec_at(gradient_seq(px, w, h), w, x, y, c) == chan(px(x, y), c),
    decreases y, x,
{
    let res = gradient_seq(px, w, h);
    lemma_gradient_seq_index(px, w, h, x, y, c);
    if y > 0 {
        lemma_gradient_roundtrip_at(px, w, h, x, y - 1, c);
    }
    if x > 0 {
        lemma_gradient_roundtrip_at(px, w, h, x - 1, y, c);
    }
    if x > 0 && y > 0 {
        lemma_gradient_roundtrip_at(px, w, h, x - 1, y - 1, c);
    }
    let a = chan(px(x, y), c) as int;
    let p = pred_at(px, x, y, c);
    assert(0 <= a < 256 && 0 <= p < 256);
    assert((((a - p) % 256) + p) % 256 == a) by (nonlinear_arith)
        requires
            0 <= a < 256,
            0 <= p < 256,
    ;
}

/// Decoding the whole residual stream of a rectangle reproduces its RGB
/// stream byte for byte.
pub proof fn lemma_gradient_roundtrip(px: spec_fn(int, int) -> u32, w: int, h: int)
    requires
        0 < w,
        0 <= h,
    ensures
        forall|x: int, y: int, c: int|
            0 <= x < w && 0 <= y < h && 0 <= c < 3 ==> #[trigger] dec_at(
                gradient_seq(px, w, h),
                w,
                x,
                y,
                c,
            ) == chan(px(x, y), c),
{
    assert forall|x: int, y: int, c: int|
        0 <= x < w && 0 <= y < h && 0 <= c < 3 implies #[trigger] dec_at(
        gradient_seq(px, w, h),
        w,
        x,
        y,
        c,
    ) == chan(px(x, y), c) by {
        lemma_gradient_roundtrip_at(px, w, h, x, y, c);
    }
}

/// Decode a gradient residual stream back into packed RGB bytes. Each output
/// byte equals the decoded channel `dec_at` of its pixel.
pub fn gradient_unfilter(res: &Vec<u8>, w: usize, h: usize) -> (rgb: Vec<u8>)
    requires
        0 < w,
        res@.len() == 3 * w * h,
        w * h <= 0x1000_0000,
    ensures
        rgb@.len() == 3 * w * h,
        forall|x: int, y: int, c: int|
            0 <= x < w && 0 <= y < h && 0 <= c < 3 ==> rgb@[3 * (y * w + x) + c] == #[trigger] dec_at(
                res@,
                w as int,
                x,
                y,
                c,
            ),
{
    let mut rgb: Vec<u8> = Vec::new();
    proof {
        assert(3 * (w * h) == 3 * w * h) by (nonlinear_arith);
    }
    let mut y: usize = 0;
    while y < h
        invariant
            0 < w,
            y <= h,
            w * h <= 0x1000_0000,
            res@.len() == 3 * w * h,
            res@.len() == 3 * (w * h),
            rgb@.len() == 3 * (w * y),
            forall|xx: int, yy: int, c: int|
                0 <= xx < w && 0 <= yy < y && 0 <= c < 3 ==> rgb@[3 * (yy * w + xx) + c]
                    == #[trigger] dec_at(res@, w as int, xx, yy, c),
        decreases h - y,
    {
        let mut x: usize = 0;
        while x < w
            invariant
                0 < w,
                y < h,
                x <= w,
                w * h <= 0x1000_0000,
                res@.len() == 3 * (w * h),
                rgb@.len() == 3 * (w * y + x),
                forall|xx: int, yy: int, c: int|
                    0 <= xx < w && 0 <= yy < y && 0 <= c < 3 ==> rgb@[3 * (yy * w + xx) + c]
                        == #[trigger] dec_at(res@, w as int, xx, yy, c),
                forall|xx: int, c: int|
                    0 <= xx < x && 0 <= c < 3 ==> rgb@[3 * (y * w + xx) + c] == #[trigger] dec_at(
                        res@,
                        w as int,
                        xx,
                        y as int,
                        c,
                    ),
            decreases w - x,
        {
            proof {
                assert(3 * (w * y + x) + 3 <= 3 * (w * h)) by (nonlinear_arith)
                    requires
                        0 <= x < w,
                        0 <= y < h,
                ;
                assert(y * w == w * y) by (nonlinear_arith);
            }
            let base = 3 * (w * y + x);
            let mut c: usize = 0;
            while c < 3
                invariant
                    0 < w,
                    y < h,
                    x < w,
                    c <= 3,
                    w * h <= 0x1000_0000,
                    base == 3 * (w * y + x),
                    base + 3 <= 3 * (w * h),
                    res@.len() == 3 * (w * h),
                    rgb@.len() == base + c,
                    forall|xx: int, yy: int, cc: int|
                        0 <= xx < w && 0 <= yy < y && 0 <= cc < 3 ==> rgb@[3 * (yy * w + xx) + cc]
                            == #[trigger] dec_at(res@, w as int, xx, yy, cc),
                    forall|xx: int, cc: int|
                        0 <= xx < x && 0 <= cc < 3 ==> rgb@[3 * (y * w + xx) + cc]
                            == #[trigger] dec_at(res@, w as int, xx, y as int, cc),
                    forall|cc: int|
                        0 <= cc < c ==> rgb@[3 * (y * w + x) + cc] == #[trigger] dec_at(
                            res@,
                            w as int,
                            x as int,
                            y as int,
                            cc,
                        ),
                decreases 3 - c,
            {
                proof {
                    assert(y * w == w * y) by (nonlinear_arith);
                }
                let nv: u8 = if y > 0 {
                    proof {
                        assert(3 * ((y - 1) * w + x) + c < base) by (nonlinear_arith)
                            requires
                                0 <= x < w,
                                1 <= y,
                                0 <= c < 3,
                                base == 3 * (w * y + x),
                        ;
                    }
                    *vstd::slice::slice_index_get(rgb.as_slice(), 3 * ((y - 1) * w + x) + c)
                } else {
                    0
                };
                let wv: u8 = if x > 0 {
                    proof {
                        assert(3 * (y * w + (x - 1)) + c < base) by (nonlinear_arith)
                            requires
                                1 <= x,
                                0 <= y,
                                0 <= c < 3,
                                base == 3 * (w * y + x),
                                y * w == w * y,
                        ;
                    }
                    *vstd::slice::slice_index_get(rgb.as_slice(), 3 * (y * w + (x - 1)) + c)
                } else {
                    0
                };
                let nwv: u8 = if x > 0 && y > 0 {
                    proof {
                        assert(3 * ((y - 1) * w + (x - 1)) + c < base) by (nonlinear_arith)
                            requires
                                1 <= x,
                                1 <= y,
                                0 <= c < 3,
                                base == 3 * (w * y + x),
                        ;
                    }
                    *vstd::slice::slice_index_get(rgb.as_slice(), 3 * ((y - 1) * w + (x - 1)) + c)
                } else {
                    0
                };
                let pr: i32 = nv as i32 + wv as i32 - nwv as i32;
                let pr: i32 = if pr < 0 {
                    0
                } else if pr > 255 {
                    255
                } else {
                    pr
                };
                let pu8: u8 = pr as u8;
                proof {
                    assert(pu8 as int == clamp255(nv as int + wv as int - nwv as int));
                    if y > 0 {
                        assert(nv == dec_at(res@, w as int, x as int, y as int - 1, c as int));
                    }
                    if x > 0 {
                        assert(wv == dec_at(res@, w as int, x as int - 1, y as int, c as int));
                    }
                    if x > 0 && y > 0 {
                        assert(nwv == dec_at(res@, w as int, x as int - 1, y as int - 1, c as int));
                    }
                }
                let rb = *vstd::slice::slice_index_get(res.as_slice(), base + c);
                let decoded: u8 = rb.wrapping_add(pu8);
                proof {
                    assert(decoded as int == (rb as int + pu8 as int) % 256);
                }
                let ghost rgb_pre = rgb@;
                rgb.push(decoded);
                proof {
                    assert forall|xx: int, yy: int, cc: int|
                        0 <= xx < w && 0 <= yy < y && 0 <= cc < 3 implies rgb@[3 * (yy * w + xx)
                        + cc] == #[trigger] dec_at(res@, w as int, xx, yy, cc) by {
                        assert(0 <= 3 * (yy * w + xx) + cc < 3 * (w * y)) by (nonlinear_arith)
                            requires
                                0 <= xx < w,
                                0 <= yy < y,
                                0 <= cc < 3,
                                0 < w,
                        ;
                        assert(3 * (w * y) <= base) by (nonlinear_arith)
                            requires
                                base == 3 * (w * y + x),
                                0 <= x,
                        ;
                        assert(rgb@[3 * (yy * w + xx) + cc] == rgb_pre[3 * (yy * w + xx) + cc]);
                    }
                    assert forall|xx: int, cc: int|
                        0 <= xx < x && 0 <= cc < 3 implies rgb@[3 * (y as int * w + xx) + cc]
                        == #[trigger] dec_at(res@, w as int, xx, y as int, cc) by {
                        assert(0 <= 3 * (y as int * w + xx) + cc < 3 * (y as int * w + x))
                            by (nonlinear_arith)
                            requires
                                0 <= xx < x,
                                0 <= cc < 3,
                                0 <= y as int * w,
                        ;
                        assert(rgb@[3 * (y as int * w + xx) + cc] == rgb_pre[3 * (y as int * w + xx)
                            + cc]);
                    }
                    assert(rgb@[3 * (y as int * w + x as int) + c] == dec_at(
                        res@,
                        w as int,
                        x as int,
                        y as int,
                        c as int,
                    ));
                }
                c += 1;
            }
            x += 1;
            proof {
                assert(3 * (w * y + x) == 3 * (w * y + (x - 1)) + 3);
            }
        }
        y += 1;
        proof {
            assert(w * y == w * (y - 1) + w) by (nonlinear_arith);
            assert(3 * (w * (y - 1) + w) == 3 * (w * y));
        }
    }
    proof {
        assert(rgb@.len() == 3 * w * h);
    }
    rgb
}

} // verus!
