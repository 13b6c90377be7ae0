//! Rectangle encoders: turn a rectangle of the captured frame into wire
//! bytes. Each encoder receives the rectangle's top-left pixel as the start
//! of a stride-addressed slice and appends its payload, including the 4-byte
//! encoding id, to the shared output buffer.
use vstd::prelude::*;
use vstd::slice::slice_index_get;
use vstd::arithmetic::div_mod::lemma_fundamental_div_mod_converse;
use crate::frame::masked;
use crate::gradient::{chan, clamp255, resid_at, gradient_seq, rgb_seq, screen_px};
use crate::tight::{TightCompressor, tight_framed, tight_ctrl};

verus! {

/// The 4-byte encoding id of the Raw encoding.
pub open spec fn enc_id_raw() -> Seq<u8> {
    seq![0u8, 0u8, 0u8, 0u8]
}

/// The 4-byte encoding id of the Tight encoding.
pub open spec fn enc_id_tight() -> Seq<u8> {
    seq![0u8, 0u8, 0u8, 7u8]
}

/// Byte b (0 = lowest) of a pixel in memory order: B, G, R, X.
pub open spec fn pix_byte(p: u32, b: int) -> u8 {
    if b == 0 {
        (p & 0xff) as u8
    } else if b == 1 {
        ((p >> 8) & 0xff) as u8
    } else if b == 2 {
        ((p >> 16) & 0xff) as u8
    } else {
        ((p >> 24) & 0xff) as u8
    }
}

/// The raw pixel stream of a w x h rectangle: 4 bytes per pixel in row
/// order, lowest byte first.
pub open spec fn bgrx_seq(px: spec_fn(int, int) -> u32, w: int, h: int) -> Seq<u8> {
    Seq::new((4 * w * h) as nat, |i: int| pix_byte(px((i / 4) % w, (i / 4) / w), i % 4))
}

/// Channel c (0 = R, 1 = G, 2 = B) of a pixel, as executable code.
pub fn chan_of(p: u32, c: usize) -> (r: u8)
    requires
        c < 3,
    ensures
        r == chan(p, c as int),
{
    if c == 0 {
        ((p >> 16) & 0xff) as u8
    } else if c == 1 {
        ((p >> 8) & 0xff) as u8
    } else {
        (p & 0xff) as u8
    }
}

/// Decompose a 3-per-pixel stream index.
proof fn lemma_index3(w: int, h: int, x: int, y: int, c: int)
    requires
        0 < w,
        0 <= x < w,
        0 <= y < h,
        0 <= c < 3,
    ensures
        0 <= 3 * (y * w + x) + c < 3 * (w * h),
        (3 * (y * w + x) + c) / 3 == y * w + x,
        (3 * (y * w + x) + c) % 3 == c,
        (y * w + x) % w == x,
        (y * w + x) / w == y,
{
    let q = y * w + x;
    let i = 3 * q + c;
    assert(0 <= q < w * h && 0 <= i < 3 * (w * h)) by (nonlinear_arith)
        requires
            0 <= x < w,
            0 <= y < h,
            0 <= c < 3,
            q == y * w + x,
            i == 3 * q + c,
    ;
    lemma_fundamental_div_mod_converse(i, 3, q, c);
    lemma_fundamental_div_mod_converse(q, w, y, x);
}

/// Decompose a 4-per-pixel stream index.
proof fn lemma_index4(w: int, h: int, x: int, y: int, b: int)
    requires
        0 < w,
        0 <= x < w,
        0 <= y < h,
        0 <= b < 4,
    ensures
        0 <= 4 * (y * w + x) + b < 4 * (w * h),
        (4 * (y * w + x) + b) / 4 == y * w + x,
        (4 * (y * w + x) + b) % 4 == b,
        (y * w + x) % w == x,
        (y * w + x) / w == y,
{
    let q = y * w + x;
    let i = 4 * q + b;
    assert(0 <= q < w * h && 0 <= i < 4 * (w * h)) by (nonlinear_arith)
        requires
            0 <= x < w,
            0 <= y < h,
            0 <= b < 4,
            q == y * w + x,
            i == 4 * q + b,
    ;
    lemma_fundamental_div_mod_converse(i, 4, q, b);
    lemma_fundamental_div_mod_converse(q, w, y, x);
}

/// Index of the pixel (x, y) of a rectangle inside its stride-addressed
/// slice, proved in bounds for reads.
fn rect_index(stride: usize, x: usize, y: usize, w: usize, h: usize, len: usize) -> (i: usize)
    requires
        0 < w <= stride,
        x < w,
        y < h,
        (h - 1) * stride + w <= len,
    ensures
        i == y * stride + x,
        i < len,
{
    proof {
        assert(y * stride <= (h - 1) * stride) by (nonlinear_arith)
            requires
                y <= h - 1,
                0 <= stride,
        ;
    }
    y * stride + x
}

/// Append the RGB stream of the rectangle to `buf`: three bytes per pixel in
/// row order, R, G, B (BGRX swapped, top byte dropped).
pub fn fill_rgb(buf: &mut Vec<u8>, screen: &[u32], stride: usize, w: usize, h: usize)
    requires
        0 < w <= stride,
        0 < h,
        (h - 1) * stride + w <= screen@.len(),
        w * h <= 0x1000_0000,
    ensures
        final(buf)@ == old(buf)@ + rgb_seq(screen_px(screen@, stride as int), w as int, h as int),
{
    let ghost b0 = old(buf)@;
    let ghost px = screen_px(screen@, stride as int);
    let ghost rs = rgb_seq(px, w as int, h as int);
    proof {
        assert(3 * (w as int) * (h as int) == 3 * ((w as int) * (h as int))) by (nonlinear_arith);
    }
    let len = screen.len();
    let mut y: usize = 0;
    while y < h
        invariant
            0 < w <= stride,
            0 < h,
            y <= h,
            (h - 1) * stride + w <= len,
            w * h <= 0x1000_0000,
            screen@.len() == len,
            px == screen_px(screen@, stride as int),
            rs == rgb_seq(px, w as int, h as int),
            rs.len() == 3 * (w * h),
            buf@ == b0 + rs.subrange(0, 3 * ((w * y) as int)),
        decreases h - y,
    {
        let mut x: usize = 0;
        while x < w
            invariant
                0 < w <= stride,
                0 < h,
                y < h,
                x <= w,
                (h - 1) * stride + w <= len,
                w * h <= 0x1000_0000,
                screen@.len() == len,
                px == screen_px(screen@, stride as int),
                rs == rgb_seq(px, w as int, h as int),
                rs.len() == 3 * (w * h),
                buf@ == b0 + rs.subrange(0, 3 * ((w * y + x) as int)),
            decreases w - x,
        {
            proof {
                assert(w * y + x < w * h) by (nonlinear_arith)
                    requires
                        0 <= x < w,
                        0 <= y < h,
                ;
            }
            let i = rect_index(stride, x, y, w, h, len);
            let cur = *slice_index_get(screen, i);
            let b_r = chan_of(cur, 0);
            let b_g = chan_of(cur, 1);
            let b_b = chan_of(cur, 2);
            buf.push(b_r);
            buf.push(b_g);
            buf.push(b_b);
            proof {
                assert(y * w == w * y) by (nonlinear_arith);
                assert(px(x as int, y as int) == cur);
                lemma_index3(w as int, h as int, x as int, y as int, 0);
                lemma_index3(w as int, h as int, x as int, y as int, 1);
                lemma_index3(w as int, h as int, x as int, y as int, 2);
                assert(buf@ =~= b0 + rs.subrange(0, 3 * ((w * y + x + 1) as int)));
            }
            x += 1;
        }
        y += 1;
        proof {
            assert(w * y == w * (y - 1) + w) by (nonlinear_arith);
        }
    }
    proof {
        assert(rs.subrange(0, 3 * ((w * h) as int)) =~= rs);
    }
}

/// Compute one gradient residual byte: the channel of the current pixel
/// minus the clamped predictor from the three neighbour pixels, wrapping.
fn residual_byte(cur: u32, np: u32, wp: u32, nwp: u32, c: usize) -> (r: u8)
    requires
        c < 3,
    ensures
        r as int == ((chan(cur, c as int) as int) - clamp255(
            chan(np, c as int) as int + chan(wp, c as int) as int - chan(nwp, c as int) as int,
        )) % 256,
{
    let a = chan_of(cur, c);
    let n8 = chan_of(np, c);
    let w8 = chan_of(wp, c);
    let nw8 = chan_of(nwp, c);
    let pr: i32 = n8 as i32 + w8 as i32 - nw8 as i32;
    let pr: i32 = if pr < 0 {
        0
    } else if pr > 255 {
        255
    } else {
        pr
    };
    proof {
        assert(pr as int == clamp255(n8 as int + w8 as int - nw8 as int));
    }
    a.wrapping_sub(pr as u8)
}

/// Append the gradient residual stream of the rectangle to `buf`: for each
/// pixel the per-channel difference to the predictor clamp(N + W - NW), with
/// missing neighbours read as zero, channels R, G, B.
pub fn fill_gradient(buf: &mut Vec<u8>, screen: &[u32], stride: usize, w: usize, h: usize)
    requires
        0 < w <= stride,
        0 < h,
        (h - 1) * stride + w <= screen@.len(),
        w * h <= 0x1000_0000,
    ensures
        final(buf)@ == old(buf)@ + gradient_seq(
            screen_px(screen@, stride as int),
            w as int,
            h as int,
        ),
{
    let ghost b0 = old(buf)@;
    let ghost px = screen_px(screen@, stride as int);
    let ghost rs = gradient_seq(px, w as int, h as int);
    proof {
        assert(3 * (w as int) * (h as int) == 3 * ((w as int) * (h as int))) by (nonlinear_arith);
    }
    let len = screen.len();
    let mut y: usize = 0;
    while y < h
        invariant
            0 < w <= stride,
            0 < h,
            y <= h,
            (h - 1) * stride + w <= len,
            w * h <= 0x1000_0000,
            screen@.len() == len,
            px == screen_px(screen@, stride as int),
            rs == gradient_seq(px, w as int, h as int),
            rs.len() == 3 * (w * h),
            buf@ == b0 + rs.subrange(0, 3 * ((w * y) as int)),
        decreases h - y,
    {
        let mut x: usize = 0;
        while x < w
            invariant
                0 < w <= stride,
                0 < h,
                y < h,
                x <= w,
                (h - 1) * stride + w <= len,
                w * h <= 0x1000_0000,
                screen@.len() == len,
                px == screen_px(screen@, stride as int),
                rs == gradient_seq(px, w as int, h as int),
                rs.len() == 3 * (w * h),
                buf@ == b0 + rs.subrange(0, 3 * ((w * y + x) as int)),
            decreases w - x,
        {
            proof {
                assert(w * y + x < w * h) by (nonlinear_arith)
                    requires
                        0 <= x < w,
                        0 <= y < h,
                ;
            }
            let i = rect_index(stride, x, y, w, h, len);
            let cur = *slice_index_get(screen, i);
            let np: u32 = if y > 0 {
                *slice_index_get(screen, rect_index(stride, x, y - 1, w, h, len))
            } else {
                0
            };
            let wp: u32 = if x > 0 {
                *slice_index_get(screen, rect_index(stride, x - 1, y, w, h, len))
            } else {
                0
            };
            let nwp: u32 = if x > 0 && y > 0 {
                *slice_index_get(screen, rect_index(stride, x - 1, y - 1, w, h, len))
            } else {
                0
            };
            let r0 = residual_byte(cur, np, wp, nwp, 0);
            let r1 = residual_byte(cur, np, wp, nwp, 1);
            let r2 = residual_byte(cur, np, wp, nwp, 2);
            buf.push(r0);
            buf.push(r1);
            buf.push(r2);
            proof {
                assert(y * w == w * y) by (nonlinear_arith);
                assert(px(x as int, y as int) == cur);
                assert(chan(0u32, 0) == 0 && chan(0u32, 1) == 0 && chan(0u32, 2) == 0) by (bit_vector);
                assert forall|c: int| 0 <= c < 3 implies #[trigger] resid_at(
                    px,
                    x as int,
                    y as int,
                    c,
                ) as int == ((chan(cur, c) as int) - clamp255(
                    chan(np, c) as int + chan(wp, c) as int - chan(nwp, c) as int,
                )) % 256 by {
                    if y > 0 {
                        assert(px(x as int, y as int - 1) == np);
                    }
                    if x > 0 {
                        assert(px(x as int - 1, y as int) == wp);
                    }
                    if x > 0 && y > 0 {
                        assert(px(x as int - 1, y as int - 1) == nwp);
                    }
                }
                lemma_index3(w as int, h as int, x as int, y as int, 0);
                lemma_index3(w as int, h as int, x as int, y as int, 1);
                lemma_index3(w as int, h as int, x as int, y as int, 2);
                assert(buf@ =~= b0 + rs.subrange(0, 3 * ((w * y + x + 1) as int)));
            }
            x += 1;
        }
        y += 1;
        proof {
            assert(w * y == w * (y - 1) + w) by (nonlinear_arith);
        }
    }
    proof {
        assert(rs.subrange(0, 3 * ((w * h) as int)) =~= rs);
    }
}

/// A rectangle encoder: appends the payload for one rectangle of the frame,
/// starting with its 4-byte encoding id, to the output buffer. On failure
/// the buffer is left untouched.
pub trait Encoder: Sized {
    /// A fresh encoder for one connection.
    fn new() -> Self;

    /// Append the payload of the w x h rectangle whose top-left pixel starts
    /// the stride-addressed `screen` slice.
    fn encode(&mut self, out: &mut Vec<u8>, screen: &[u32], stride: usize, w: usize, h: usize) -> (r:
        bool)
        requires
            0 < w <= stride,
            0 < h,
            (h - 1) * stride + w <= screen@.len(),
            w * h <= 0x1000_0000,
        ensures
            final(out)@.len() >= old(out)@.len(),
            final(out)@.subrange(0, old(out)@.len() as int) == old(out)@,
            forall|j: int| 0 <= j < old(out)@.len() ==> final(out)@[j] == old(out)@[j],
            !r ==> final(out)@ == old(out)@,
    ;
}

/// Relies on rand::random to draw a uniformly random value.
pub assume_specification<T>[ rand::random::<T> ]() -> (r: T)
    where rand::distributions::Standard: rand::distributions::Distribution<T>,
;

/// A debugging encoder: fills every rectangle with one random colour using
/// the Tight fill sub-encoding.
pub struct RandomColorEncoder;

impl Encoder for RandomColorEncoder {
    fn new() -> Self {
        RandomColorEncoder
    }

    /// Appends the Tight encoding id, the fill control byte, and three
    /// random colour bytes.
    fn encode(&mut self, out: &mut Vec<u8>, screen: &[u32], stride: usize, w: usize, h: usize) -> (r:
        bool)
        ensures
            r,
            final(out)@.len() == old(out)@.len() + 8,
            final(out)@.subrange(0, old(out)@.len() as int + 5) == old(out)@ + enc_id_tight()
                + seq![0x80u8],
    {
        let ghost o0 = out@;
        out.push(0);
        out.push(0);
        out.push(0);
        out.push(7);
        out.push(0b1000_0000);
        out.push(rand::random::<u8>());
        out.push(rand::random::<u8>());
        out.push(rand::random::<u8>());
        proof {
            assert(out@.subrange(0, o0.len() as int + 5) =~= o0 + enc_id_tight() + seq![0x80u8]);
        }
        true
    }
}

/// The Raw encoder: the encoding id 0 followed by the rectangle's pixels as
/// 32-bit values in row order, lowest byte first.
pub struct RawEncoder;

impl Encoder for RawEncoder {
    fn new() -> Self {
        RawEncoder
    }

    /// Appends the Raw encoding id and the stride-copied pixel bytes.
    fn encode(&mut self, out: &mut Vec<u8>, screen: &[u32], stride: usize, w: usize, h: usize) -> (r:
        bool)
        ensures
            r,
            final(out)@ == old(out)@ + enc_id_raw() + bgrx_seq(
                screen_px(screen@, stride as int),
                w as int,
                h as int,
            ),
    {
        let ghost o0 = out@;
        let ghost px = screen_px(screen@, stride as int);
        let ghost rs = bgrx_seq(px, w as int, h as int);
        out.push(0);
        out.push(0);
        out.push(0);
        out.push(0);
        let ghost b0 = out@;
        proof {
            assert(b0 =~= o0 + enc_id_raw());
            assert(4 * (w as int) * (h as int) == 4 * ((w as int) * (h as int)))
                by (nonlinear_arith);
        }
        let len = screen.len();
        let mut y: usize = 0;
        while y < h
            invariant
                0 < w <= stride,
                0 < h,
                y <= h,
                (h - 1) * stride + w <= len,
                w * h <= 0x1000_0000,
                screen@.len() == len,
                px == screen_px(screen@, stride as int),
                rs == bgrx_seq(px, w as int, h as int),
                rs.len() == 4 * (w * h),
                out@ == b0 + rs.subrange(0, 4 * ((w * y) as int)),
            decreases h - y,
        {
            let mut x: usize = 0;
            while x < w
                invariant
                    0 < w <= stride,
                    0 < h,
                    y < h,
                    x <= w,
                    (h - 1) * stride + w <= len,
                    w * h <= 0x1000_0000,
                    screen@.len() == len,
                    px == screen_px(screen@, stride as int),
                    rs == bgrx_seq(px, w as int, h as int),
                    rs.len() == 4 * (w * h),
                    out@ == b0 + rs.subrange(0, 4 * ((w * y + x) as int)),
                decreases w - x,
            {
                proof {
                    assert(w * y + x < w * h) by (nonlinear_arith)
                        requires
                            0 <= x < w,
                            0 <= y < h,
                    ;
                }
                let i = rect_index(stride, x, y, w, h, len);
                let cur = *slice_index_get(screen, i);
                out.push((cur & 0xff) as u8);
                out.push(((cur >> 8) & 0xff) as u8);
                out.push(((cur >> 16) & 0xff) as u8);
                out.push(((cur >> 24) & 0xff) as u8);
                proof {
                    assert(y * w == w * y) by (nonlinear_arith);
                    assert(px(x as int, y as int) == cur);
                    lemma_index4(w as int, h as int, x as int, y as int, 0);
                    lemma_index4(w as int, h as int, x as int, y as int, 1);
                    lemma_index4(w as int, h as int, x as int, y as int, 2);
                    lemma_index4(w as int, h as int, x as int, y as int, 3);
                    assert(out@ =~= b0 + rs.subrange(0, 4 * ((w * y + x + 1) as int)));
                }
                x += 1;
            }
            y += 1;
            proof {
                assert(w * y == w * (y - 1) + w) by (nonlinear_arith);
            }
        }
        proof {
            assert(rs.subrange(0, 4 * ((w * h) as int)) =~= rs);
            assert(out@ =~= o0 + enc_id_raw() + rs);
            assert(out@.subrange(0, o0.len() as int) =~= o0);
        }
        true
    }
}

/// The Tight-Raw encoder: the Tight encoding id, then the rectangle's RGB
/// stream through the shared compressor on stream 0 with the copy filter.
pub struct TightRawEncoder {
    buffer: Vec<u8>,
    compressor: TightCompressor,
}

impl TightRawEncoder {
    /// Whether the zlib header is still owed by this encoder's stream.
    pub closed spec fn is_first(&self) -> bool {
        self.compressor.is_first()
    }
}

impl Encoder for TightRawEncoder {
    fn new() -> (r: Self)
        ensures
            r.is_first(),
    {
        TightRawEncoder { buffer: Vec::new(), compressor: TightCompressor::new() }
    }

    /// Appends the Tight encoding id and the compressed RGB stream of the
    /// rectangle.
    fn encode(&mut self, out: &mut Vec<u8>, screen: &[u32], stride: usize, w: usize, h: usize) -> (r:
        bool)
        ensures
            r && 3 * (w * h) >= 12 ==> exists|d: Seq<u8>|
                tight_framed(
                    old(out)@ + enc_id_tight(),
                    final(out)@,
                    0,
                    0,
                    old(self).is_first(),
                    d,
                ),
            r && 3 * (w * h) < 12 ==> final(out)@ == old(out)@ + enc_id_tight() + seq![
                tight_ctrl(0),
                0u8,
            ] + rgb_seq(screen_px(screen@, stride as int), w as int, h as int),
            3 * (w * h) < 12 ==> r && final(self).is_first() == old(self).is_first(),
            3 * (w * h) >= 12 ==> !final(self).is_first(),
    {
        let ghost o0 = out@;
        self.buffer.clear();
        fill_rgb(&mut self.buffer, screen, stride, w, h);
        proof {
            assert(3 * (w as int) * (h as int) == 3 * ((w as int) * (h as int)))
                by (nonlinear_arith);
            assert(self.buffer@ =~= rgb_seq(screen_px(screen@, stride as int), w as int, h as int));
        }
        let n0 = out.len();
        out.push(0);
        out.push(0);
        out.push(0);
        out.push(7);
        proof {
            assert(out@ =~= o0 + enc_id_tight());
        }
        let (ok, dg) = self.compressor.compress(self.buffer.as_slice(), out, 0, 0);
        if !ok {
            out.truncate(n0);
            proof {
                assert(out@ =~= o0);
            }
            return false;
        }
        proof {
            assert(out@.subrange(0, o0.len() as int) =~= o0);
            if 3 * (w * h) >= 12 {
                assert(tight_framed(
                    old(out)@ + enc_id_tight(),
                    out@,
                    0,
                    0,
                    old(self).is_first(),
                    dg@,
                ));
                assert(exists|d: Seq<u8>|
                    tight_framed(old(out)@ + enc_id_tight(), out@, 0, 0, old(self).is_first(), d));
            }
        }
        true
    }
}

/// The Tight-Gradient encoder: the Tight encoding id, then the rectangle's
/// gradient residual stream through the shared compressor on stream 0 with
/// the gradient filter.
pub struct TightGradientEncoder {
    buffer: Vec<u8>,
    compressor: TightCompressor,
}

impl TightGradientEncoder {
    /// Whether the zlib header is still owed by this encoder's stream.
    pub closed spec fn is_first(&self) -> bool {
        self.compressor.is_first()
    }
}

impl Encoder for TightGradientEncoder {
    fn new() -> (r: Self)
        ensures
            r.is_first(),
    {
        TightGradientEncoder { buffer: Vec::new(), compressor: TightCompressor::new() }
    }

    /// Appends the Tight encoding id and the compressed gradient residual
    /// stream of the rectangle, filter byte 2.
    fn encode(&mut self, out: &mut Vec<u8>, screen: &[u32], stride: usize, w: usize, h: usize) -> (r:
        bool)
        ensures
            r && 3 * (w * h) >= 12 ==> exists|d: Seq<u8>|
                tight_framed(
                    old(out)@ + enc_id_tight(),
                    final(out)@,
                    0,
                    2,
                    old(self).is_first(),
                    d,
                ),
            r && 3 * (w * h) < 12 ==> final(out)@ == old(out)@ + enc_id_tight() + seq![
                tight_ctrl(0),
                2u8,
            ] + gradient_seq(screen_px(screen@, stride as int), w as int, h as int),
            3 * (w * h) < 12 ==> r && final(self).is_first() == old(self).is_first(),
            3 * (w * h) >= 12 ==> !final(self).is_first(),
    {
        let ghost o0 = out@;
        self.buffer.clear();
        fill_gradient(&mut self.buffer, screen, stride, w, h);
        proof {
            assert(3 * (w as int) * (h as int) == 3 * ((w as int) * (h as int)))
                by (nonlinear_arith);
            assert(self.buffer@ =~= gradient_seq(
                screen_px(screen@, stride as int),
                w as int,
                h as int,
            ));
        }
        let n0 = out.len();
        out.push(0);
        out.push(0);
        out.push(0);
        out.push(7);
        proof {
            assert(out@ =~= o0 + enc_id_tight());
        }
        let (ok, dg) = self.compressor.compress(self.buffer.as_slice(), out, 0, 2);
        if !ok {
            out.truncate(n0);
            proof {
                assert(out@ =~= o0);
            }
            return false;
        }
        proof {
            assert(out@.subrange(0, o0.len() as int) =~= o0);
            if 3 * (w * h) >= 12 {
                assert(tight_framed(
                    old(out)@ + enc_id_tight(),
                    out@,
                    0,
                    2,
                    old(self).is_first(),
                    dg@,
                ));
                assert(exists|d: Seq<u8>|
                    tight_framed(old(out)@ + enc_id_tight(), out@, 0, 2, old(self).is_first(), d));
            }
        }
        true
    }
}

/// A pixel matches when its 24-bit colour equals its left neighbour's (top
/// row) or its upper or left neighbour's (other rows); the undefined top
/// byte is masked out, and a missing left neighbour reads as zero.
pub open spec fn match_at(px: spec_fn(int, int) -> u32, x: int, y: int) -> bool {
    if y == 0 {
        masked(px(x, 0)) == (if x > 0 {
            masked(px(x - 1, 0))
        } else {
            0u32
        })
    } else {
        masked(px(x, y)) == masked(px(x, y - 1)) || masked(px(x, y)) == (if x > 0 {
            masked(px(x - 1, y))
        } else {
            0u32
        })
    }
}

/// Number of matching pixels among the first k pixels in row order.
pub open spec fn count_matches(px: spec_fn(int, int) -> u32, w: int, k: int) -> int
    decreases k,
{
    if k <= 0 {
        0
    } else {
        count_matches(px, w, k - 1) + (if match_at(px, (k - 1) % w, (k - 1) / w) {
            1int
        } else {
            0int
        })
    }
}

/// The absolute value of a residual byte read as a signed 8-bit value.
pub open spec fn abs8(b: u8) -> int {
    if b < 128 {
        b as int
    } else {
        256 - b
    }
}

/// Sum of the absolute residuals of the first k bytes of a stream.
pub open spec fn sum_abs(res: Seq<u8>, k: int) -> int
    decreases k,
{
    if k <= 0 {
        0
    } else {
        sum_abs(res, k - 1) + abs8(res[k - 1])
    }
}

/// The Tight adaptive encoder: produces both the raw RGB stream and the
/// gradient residual stream of a rectangle, together with the match count
/// and the summed absolute residuals that the caller's cost heuristic needs,
/// and emits whichever stream the caller chose through its own compressor.
pub struct TightAdaptiveEncoder {
    buffer_raw: Vec<u8>,
    buffer_lin: Vec<u8>,
    compressor_raw: TightCompressor,
    compressor_lin: TightCompressor,
}

impl TightAdaptiveEncoder {
    /// The raw RGB scratch buffer as last filled by `scan`.
    pub closed spec fn raw_view(&self) -> Seq<u8> {
        self.buffer_raw@
    }

    /// The gradient residual scratch buffer as last filled by `scan`.
    pub closed spec fn lin_view(&self) -> Seq<u8> {
        self.buffer_lin@
    }

    /// Whether the raw stream still owes its zlib header.
    pub closed spec fn raw_is_first(&self) -> bool {
        self.compressor_raw.is_first()
    }

    /// Whether the gradient stream still owes its zlib header.
    pub closed spec fn lin_is_first(&self) -> bool {
        self.compressor_lin.is_first()
    }

    /// A fresh adaptive encoder with both compression streams unused.
    pub fn new() -> (r: Self) {
        TightAdaptiveEncoder {
            buffer_raw: Vec::new(),
            buffer_lin: Vec::new(),
            compressor_raw: TightCompressor::new(),
            compressor_lin: TightCompressor::new(),
        }
    }

    /// Scan the rectangle once: fill the raw RGB and gradient residual
    /// scratch buffers and return the statistics of the cost heuristic,
    /// the count of matching pixels and the summed absolute residuals of
    /// the gradient stream.
    pub fn scan(&mut self, screen: &[u32], stride: usize, w: usize, h: usize) -> (st: (usize, u64))
        requires
            0 < w <= stride,
            0 < h,
            (h - 1) * stride + w <= screen@.len(),
            w * h <= 0x1000_0000,
        ensures
            final(self).raw_view() == rgb_seq(
                screen_px(screen@, stride as int),
                w as int,
                h as int,
            ),
            final(self).lin_view() == gradient_seq(
                screen_px(screen@, stride as int),
                w as int,
                h as int,
            ),
            st.0 as int == count_matches(
                screen_px(screen@, stride as int),
                w as int,
                (w * h) as int,
            ),
            st.1 as int == sum_abs(
                gradient_seq(screen_px(screen@, stride as int), w as int, h as int),
                3 * ((w * h) as int),
            ),
            final(self).raw_is_first() == old(self).raw_is_first(),
            final(self).lin_is_first() == old(self).lin_is_first(),
    {
        let ghost px = screen_px(screen@, stride as int);
        self.buffer_raw.clear();
        self.buffer_lin.clear();
        fill_rgb(&mut self.buffer_raw, screen, stride, w, h);
        fill_gradient(&mut self.buffer_lin, screen, stride, w, h);
        proof {
            assert(3 * (w as int) * (h as int) == 3 * ((w as int) * (h as int)))
                by (nonlinear_arith);
            assert(self.buffer_raw@ =~= rgb_seq(px, w as int, h as int));
            assert(self.buffer_lin@ =~= gradient_seq(px, w as int, h as int));
        }
        let len = screen.len();
        // count matching pixels
        let mut n_matches: usize = 0;
        let mut y: usize = 0;
        while y < h
            invariant
                0 < w <= stride,
                0 < h,
                y <= h,
                (h - 1) * stride + w <= len,
                w * h <= 0x1000_0000,
                screen@.len() == len,
                px == screen_px(screen@, stride as int),
                n_matches <= w * y,
                n_matches as int == count_matches(px, w as int, (w * y) as int),
            decreases h - y,
        {
            let mut x: usize = 0;
            while x < w
                invariant
                    0 < w <= stride,
                    0 < h,
                    y < h,
                    x <= w,
                    (h - 1) * stride + w <= len,
                    w * h <= 0x1000_0000,
                    screen@.len() == len,
                    px == screen_px(screen@, stride as int),
                    n_matches <= w * y + x,
                    n_matches as int == count_matches(px, w as int, (w * y + x) as int),
                decreases w - x,
            {
                proof {
                    assert(w * y + x < w * h) by (nonlinear_arith)
                        requires
                            0 <= x < w,
                            0 <= y < h,
                    ;
                    assert(y * w == w * y) by (nonlinear_arith);
                    lemma_fundamental_div_mod_converse(
                        (w * y + x) as int,
                        w as int,
                        y as int,
                        x as int,
                    );
                }
                let cur = *slice_index_get(screen, rect_index(stride, x, y, w, h, len))
                    & 0x00ff_ffff;
                let left: u32 = if x > 0 {
                    *slice_index_get(screen, rect_index(stride, x - 1, y, w, h, len)) & 0x00ff_ffff
                } else {
                    0
                };
                let is_match: bool = if y == 0 {
                    cur == left
                } else {
                    let up = *slice_index_get(screen, rect_index(stride, x, y - 1, w, h, len))
                        & 0x00ff_ffff;
                    cur == up || cur == left
                };
                if is_match {
                    n_matches += 1;
                }
                proof {
                    assert(is_match == match_at(px, x as int, y as int));
                }
                x += 1;
            }
            y += 1;
            proof {
                assert(w * y == w * (y - 1) + w) by (nonlinear_arith);
            }
        }
        // sum the absolute residuals of the gradient stream
        let ghost rs = self.buffer_lin@;
        let rlen = self.buffer_lin.len();
        proof {
            assert(rlen <= 0x3000_0000);
        }
        let mut sum: u64 = 0;
        let mut k: usize = 0;
        while k < rlen
            invariant
                k <= rlen,
                rlen <= 0x3000_0000,
                rlen == rs.len(),
                self.buffer_lin@ == rs,
                sum <= 128 * (k as u64),
                sum as int == sum_abs(rs, k as int),
            decreases rlen - k,
        {
            let b = *slice_index_get(self.buffer_lin.as_slice(), k);
            let a: u64 = if b < 128 {
                b as u64
            } else {
                256 - (b as u64)
            };
            sum = sum + a;
            k += 1;
        }
        proof {
            assert(rs.len() == 3 * ((w * h) as int));
        }
        (n_matches, sum)
    }

    /// Emit the rectangle through the stream the caller chose: the raw RGB
    /// stream on compression stream 0 with the copy filter, or the gradient
    /// residual stream on compression stream 1 with the gradient filter.
    /// `scan` must have been called on the same rectangle first.
    pub fn encode(
        &mut self,
        out: &mut Vec<u8>,
        screen: &[u32],
        stride: usize,
        w: usize,
        h: usize,
        use_raw: bool,
    ) -> (r: bool)
        requires
            0 < w <= stride,
            0 < h,
            (h - 1) * stride + w <= screen@.len(),
            w * h <= 0x1000_0000,
        ensures
            final(out)@.len() >= old(out)@.len(),
            final(out)@.subrange(0, old(out)@.len() as int) == old(out)@,
            !r ==> final(out)@ == old(out)@,
            r && use_raw && 3 * (w * h) >= 12 ==> exists|d: Seq<u8>|
                tight_framed(
                    old(out)@ + enc_id_tight(),
                    final(out)@,
                    0,
                    0,
                    old(self).raw_is_first(),
                    d,
                ),
            r && !use_raw && 3 * (w * h) >= 12 ==> exists|d: Seq<u8>|
                tight_framed(
                    old(out)@ + enc_id_tight(),
                    final(out)@,
                    1,
                    2,
                    old(self).lin_is_first(),
                    d,
                ),
            r && use_raw && 3 * (w * h) < 12 ==> final(out)@ == old(out)@ + enc_id_tight() + seq![
                tight_ctrl(0),
                0u8,
            ] + rgb_seq(screen_px(screen@, stride as int), w as int, h as int),
            r && !use_raw && 3 * (w * h) < 12 ==> final(out)@ == old(out)@ + enc_id_tight() + seq![
                tight_ctrl(1),
                2u8,
            ] + gradient_seq(screen_px(screen@, stride as int), w as int, h as int),
            3 * (w * h) < 12 ==> r,
            use_raw ==> final(self).lin_is_first() == old(self).lin_is_first(),
            !use_raw ==> final(self).raw_is_first() == old(self).raw_is_first(),
            use_raw && 3 * (w * h) >= 12 ==> !final(self).raw_is_first(),
            !use_raw && 3 * (w * h) >= 12 ==> !final(self).lin_is_first(),
            use_raw && 3 * (w * h) < 12 ==> final(self).raw_is_first() == old(self).raw_is_first(),
            !use_raw && 3 * (w * h) < 12 ==> final(self).lin_is_first() == old(
                self,
            ).lin_is_first(),
    {
        let ghost o0 = out@;
        let n0 = out.len();
        out.push(0);
        out.push(0);
        out.push(0);
        out.push(7);
        proof {
            assert(out@ =~= o0 + enc_id_tight());
        }
        let (ok, dg): (bool, Ghost<Seq<u8>>) = if use_raw {
            self.buffer_raw.clear();
            fill_rgb(&mut self.buffer_raw, screen, stride, w, h);
            proof {
                assert(3 * (w as int) * (h as int) == 3 * ((w as int) * (h as int)))
                    by (nonlinear_arith);
                assert(self.buffer_raw@ =~= rgb_seq(
                    screen_px(screen@, stride as int),
                    w as int,
                    h as int,
                ));
            }
            self.compressor_raw.compress(self.buffer_raw.as_slice(), out, 0, 0)
        } else {
            self.buffer_lin.clear();
            fill_gradient(&mut self.buffer_lin, screen, stride, w, h);
            proof {
                assert(3 * (w as int) * (h as int) == 3 * ((w as int) * (h as int)))
                    by (nonlinear_arith);
                assert(self.buffer_lin@ =~= gradient_seq(
                    screen_px(screen@, stride as int),
                    w as int,
                    h as int,
                ));
            }
            self.compressor_lin.compress(self.buffer_lin.as_slice(), out, 1, 2)
        };
        if !ok {
            out.truncate(n0);
            proof {
                assert(out@ =~= o0);
            }
            return false;
        }
        proof {
            assert(out@.subrange(0, o0.len() as int) =~= o0);
            if use_raw && 3 * (w * h) >= 12 {
                assert(tight_framed(
                    old(out)@ + enc_id_tight(),
                    out@,
                    0,
                    0,
                    old(self).raw_is_first(),
                    dg@,
                ));
                assert(exists|d: Seq<u8>|
                    tight_framed(
                        old(out)@ + enc_id_tight(),
                        out@,
                        0,
                        0,
                        old(self).raw_is_first(),
                        d,
                    ));
            }
            if !use_raw && 3 * (w * h) >= 12 {
                assert(tight_framed(
                    old(out)@ + enc_id_tight(),
                    out@,
                    1,
                    2,
                    old(self).lin_is_first(),
                    dg@,
                ));
                assert(exists|d: Seq<u8>|
                    tight_framed(
                        old(out)@ + enc_id_tight(),
                        out@,
                        1,
                        2,
                        old(self).lin_is_first(),
                        d,
                    ));
            }
        }
        true
    }
}

} // verus!
