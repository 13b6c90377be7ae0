//! The Tight compressor: a persistent deflate stream per connection, and the
//! framing of compressed sub-messages with the compact length encoding.
use vstd::prelude::*;
use vstd::slice::{slice_index_get, slice_subrange};

verus! {

/// First byte of the Tight compact length encoding of `l`.
pub open spec fn compact_len0(l: u32) -> u8 {
    (0x80u32 | (l & 0x7f)) as u8
}

/// Second byte of the Tight compact length encoding of `l`.
pub open spec fn compact_len1(l: u32) -> u8 {
    (0x80u32 | ((l >> 7) & 0x7f)) as u8
}

/// Third byte of the Tight compact length encoding of `l`.
pub open spec fn compact_len2(l: u32) -> u8 {
    ((l >> 14) & 0xff) as u8
}

/// The Tight control byte for a compressed sub-message on the given stream:
/// use-compression, bits 4-5 carry the stream id, bit 6 asks the client to
/// read a filter byte.
pub open spec fn tight_ctrl(stream: u8) -> u8 {
    (0x40u8 | (stream << 4)) as u8
}

/// Compute the 3-byte compact length encoding of a length below 1 << 22.
pub fn compact_length(l: u32) -> (r: (u8, u8, u8))
    requires
        l < 0x40_0000,
    ensures
        r.0 == compact_len0(l),
        r.1 == compact_len1(l),
        r.2 == compact_len2(l),
{
    proof {
        assert(0x80u8 | ((l & 0x7f) as u8) == ((0x80u32 | (l & 0x7f)) as u8)) by (bit_vector);
        assert(0x80u8 | (((l >> 7) & 0x7f) as u8) == ((0x80u32 | ((l >> 7) & 0x7f)) as u8))
            by (bit_vector);
    }
    (0x80u8 | (l & 0x7f) as u8, 0x80u8 | ((l >> 7) & 0x7f) as u8, ((l >> 14) & 0xff) as u8)
}

/// The three compact length bytes determine the encoded length exactly: the
/// low 7 bits of the first two bytes and the full third byte reassemble `l`,
/// and the continuation bits of the first two bytes are set.
pub proof fn lemma_compact_len_roundtrip(l: u32)
    by (bit_vector)
    requires
        l < 0x40_0000,
    ensures
        ((compact_len0(l) & 0x7f) as u32) | (((compact_len1(l) & 0x7f) as u32) << 7) | ((
        compact_len2(l) as u32) << 14) == l,
        compact_len0(l) & 0x80 == 0x80,
        compact_len1(l) & 0x80 == 0x80,
{
}

/// Append every byte of `src` to `dst`.
pub fn append_bytes(dst: &mut Vec<u8>, src: &[u8])
    ensures
        final(dst)@ == old(dst)@ + src@,
{
    let ghost d0 = old(dst)@;
    let mut i: usize = 0;
    while i < src.len()
        invariant
            i <= src@.len(),
            dst@ == d0 + src@.subrange(0, i as int),
        decreases src@.len() - i,
    {
        dst.push(*slice_index_get(src, i));
        proof {
            assert(dst@ =~= d0 + src@.subrange(0, i as int + 1));
        }
        i += 1;
    }
    proof {
        assert(src@.subrange(0, src@.len() as int) =~= src@);
    }
}

/// Declaration of miniz_oxide's deflate stream state, held opaquely.
#[verifier::external_type_specification]
#[verifier::external_body]
pub struct ExCompressorOxide(miniz_oxide::deflate::core::CompressorOxide);

/// Relies on miniz_oxide's CompressorOxide::new: a fresh deflate stream state
/// with compression level 1 and greedy parsing, the Tight convention.
#[verifier::external_body]
fn new_deflate_state() -> miniz_oxide::deflate::core::CompressorOxide {
    miniz_oxide::deflate::core::CompressorOxide::new(
        1 | miniz_oxide::deflate::core::deflate_flags::TDEFL_GREEDY_PARSING_FLAG,
    )
}

/// Relies on miniz_oxide's deflate::core::compress with a Sync flush: it
/// continues the deflate stream held in `state`, consumes some prefix of
/// `src`, overwrites some prefix of `out` with stream bytes, and reports
/// success together with how much it consumed and wrote.
#[verifier::external_body]
fn deflate_sync_step(
    state: &mut miniz_oxide::deflate::core::CompressorOxide,
    src: &[u8],
    out: &mut Vec<u8>,
) -> (r: (bool, usize, usize))
    ensures
        final(out)@.len() == old(out)@.len(),
        r.1 <= src@.len(),
        r.2 <= old(out)@.len(),
{
    let (status, n_in, n_out) = miniz_oxide::deflate::core::compress(
        state,
        src,
        out.as_mut_slice(),
        miniz_oxide::deflate::core::TDEFLFlush::Sync,
    );
    (matches!(status, miniz_oxide::deflate::core::TDEFLStatus::Okay), n_in, n_out)
}

/// Feed all of `src` through the deflate stream, appending whatever the
/// stream emits to `dst`. On failure `dst` is restored. Nothing is promised
/// about the emitted bytes themselves: the stream state decides them.
fn deflate_append(
    state: &mut miniz_oxide::deflate::core::CompressorOxide,
    src: &[u8],
    dst: &mut Vec<u8>,
) -> (ok: bool)
    ensures
        ok ==> final(dst)@.len() >= old(dst)@.len() && final(dst)@.subrange(
            0,
            old(dst)@.len() as int,
        ) == old(dst)@,
        !ok ==> final(dst)@ == old(dst)@,
{
    let ghost d0 = old(dst)@;
    let n0 = dst.len();
    let mut consumed: usize = 0;
    let mut space: usize = if src.len() < 0x0100_0000 {
        src.len() / 2 + 128
    } else {
        0x0100_0000
    };
    let mut tries: usize = 0;
    loop
        invariant
            consumed <= src@.len(),
            d0 == old(dst)@,
            n0 == d0.len(),
            n0 <= dst@.len(),
            dst@.subrange(0, n0 as int) == d0,
            tries <= 16,
            128 <= space <= 0x0100_0000 + 128,
        ensures
            dst@.len() >= n0,
            dst@.subrange(0, n0 as int) == d0,
        decreases 16 - tries,
    {
        if tries >= 16 {
            break;
        }
        let mut buf = vec![0u8; space];
        let rem = slice_subrange(src, consumed, src.len());
        let (ok, n_in, n_out) = deflate_sync_step(state, rem, &mut buf);
        if !ok {
            break;
        }
        consumed = consumed + n_in;
        buf.truncate(n_out);
        let ghost dpre = dst@;
        dst.append(&mut buf);
        proof {
            assert(dst@.subrange(0, n0 as int) =~= d0);
        }
        if consumed >= src.len() && n_out < space {
            return true;
        }
        tries = tries + 1;
        if space <= 0x0080_0000 {
            space = space * 2;
        }
    }
    // the stream failed or made no progress: restore and report failure
    dst.truncate(n0);
    proof {
        assert(dst@ =~= d0);
    }
    false
}

/// Whether `post` extends `pre` with one Tight compressed sub-message that
/// carries `d` as its deflate-stream bytes: control byte, filter byte, the
/// 3-byte compact length of the zlib payload, the 2-byte zlib header when
/// `first` holds, then `d`.
pub open spec fn tight_framed(
    pre: Seq<u8>,
    post: Seq<u8>,
    stream: u8,
    filter: u8,
    first: bool,
    d: Seq<u8>,
) -> bool {
    let hdr: Seq<u8> = if first {
        seq![0x78u8, 0x01u8]
    } else {
        Seq::<u8>::empty()
    };
    let zl = hdr.len() + d.len();
    &&& zl < 0x40_0000
    &&& post == pre + seq![
        tight_ctrl(stream),
        filter,
        compact_len0(zl as u32),
        compact_len1(zl as u32),
        compact_len2(zl as u32),
    ] + hdr + d
}

/// A streaming Tight compressor: one deflate state whose sliding window
/// persists across all the sub-messages of a connection, and a flag that
/// emits the 2-byte zlib header exactly once, at the start of the first
/// compressed sub-message.
pub struct TightCompressor {
    state: miniz_oxide::deflate::core::CompressorOxide,
    first: bool,
}

impl TightCompressor {
    /// Whether the zlib header is still owed: true until the first compressed
    /// sub-message has been written.
    pub closed spec fn is_first(&self) -> bool {
        self.first
    }

    /// A fresh compressor: level-1 greedy deflate, header still owed.
    pub fn new() -> (r: TightCompressor)
        ensures
            r.is_first(),
    {
        TightCompressor { state: new_deflate_state(), first: true }
    }

    /// Append one Tight sub-message carrying `src` to `out`: control and
    /// filter bytes, then `src` verbatim when it is shorter than 12 bytes,
    /// else the compact-length-framed continuation of the deflate stream.
    /// On failure (the deflate stream failed, or the compressed payload did
    /// not fit in 22 bits) `out` is untouched and false is returned.
    pub fn compress(&mut self, src: &[u8], out: &mut Vec<u8>, stream: u8, filter: u8) -> (r: (
        bool,
        Ghost<Seq<u8>>,
    ))
        requires
            stream <= 3,
        ensures
            src@.len() < 12 ==> r.0 && final(self).is_first() == old(self).is_first()
                && final(out)@ == old(out)@ + seq![tight_ctrl(stream), filter] + src@,
            src@.len() >= 12 ==> !final(self).is_first(),
            r.0 && src@.len() >= 12 ==> tight_framed(
                old(out)@,
                final(out)@,
                stream,
                filter,
                old(self).is_first(),
                r.1@,
            ),
            !r.0 ==> final(out)@ == old(out)@,
    {
        let ghost o0 = out@;
        let ctrl = 0x40u8 | (stream << 4);
        proof {
            assert(ctrl == tight_ctrl(stream));
        }
        if src.len() < 12 {
            out.push(ctrl);
            out.push(filter);
            append_bytes(out, src);
            proof {
                assert(out@ =~= o0 + seq![tight_ctrl(stream), filter] + src@);
            }
            return (true, Ghost(Seq::empty()));
        }
        let ghost was_first = self.first;
        let mut payload: Vec<u8> = Vec::new();
        if self.first {
            payload.push(0x78);
            payload.push(0x01);
            self.first = false;
        }
        let ghost hdr = payload@;
        let ok = deflate_append(&mut self.state, src, &mut payload);
        if !ok {
            return (false, Ghost(Seq::empty()));
        }
        let zlib_len = payload.len();
        if zlib_len >= 0x40_0000 {
            return (false, Ghost(Seq::empty()));
        }
        out.push(ctrl);
        out.push(filter);
        let (b0, b1, b2) = compact_length(zlib_len as u32);
        out.push(b0);
        out.push(b1);
        out.push(b2);
        append_bytes(out, payload.as_slice());
        let ghost dw = payload@.subrange(hdr.len() as int, payload@.len() as int);
        proof {
            if was_first {
                assert(hdr =~= seq![0x78u8, 0x01u8]);
            } else {
                assert(hdr =~= Seq::<u8>::empty());
            }
            let d = dw;
            assert(payload@ =~= hdr + d);
            assert(out@ =~= o0 + seq![
                tight_ctrl(stream),
                filter,
                compact_len0(zlib_len as u32),
                compact_len1(zlib_len as u32),
                compact_len2(zlib_len as u32),
            ] + hdr + d);
            assert(tight_framed(o0, out@, stream, filter, was_first, d));
            assert(tight_framed(old(out)@, out@, stream, filter, old(self).is_first(), d));
        }
        (true, Ghost(dw))
    }
}

/// Append one Tight JPEG sub-message to `out`: the JPEG sub-encoding
/// control byte, the 3-byte compact length of the stream, then the JPEG
/// byte stream itself, which arrives as a plain argument. Fails, leaving
/// `out` untouched, exactly when the stream does not fit in 22 bits.
pub fn tight_jpeg_frame(out: &mut Vec<u8>, jpeg: &[u8]) -> (r: bool)
    ensures
        r <==> jpeg@.len() < 0x40_0000,
        r ==> final(out)@ == old(out)@ + seq![
            0x90u8,
            compact_len0(jpeg@.len() as u32),
            compact_len1(jpeg@.len() as u32),
            compact_len2(jpeg@.len() as u32),
        ] + jpeg@,
        !r ==> final(out)@ == old(out)@,
{
    let ghost o0 = out@;
    if jpeg.len() >= 0x40_0000 {
        return false;
    }
    out.push(0b1001_0000);
    let (b0, b1, b2) = compact_length(jpeg.len() as u32);
    out.push(b0);
    out.push(b1);
    out.push(b2);
    append_bytes(out, jpeg);
    proof {
        assert(out@ =~= o0 + seq![
            0x90u8,
            compact_len0(jpeg@.len() as u32),
            compact_len1(jpeg@.len() as u32),
            compact_len2(jpeg@.len() as u32),
        ] + jpeg@);
    }
    true
}

/// A 32-bit pixel assembled from its four memory bytes, lowest first.
pub open spec fn u32_of_bytes(b0: u8, b1: u8, b2: u8, b3: u8) -> u32 {
    (b0 as u32) | ((b1 as u32) << 8) | ((b2 as u32) << 16) | ((b3 as u32) << 24)
}

/// The rect-local pixels of a packed byte frame of width w: pixel (x, y) of
/// the rectangle whose top-left corner is (x0, y0).
pub open spec fn byte_px(s: Seq<u8>, w: int, x0: int, y0: int) -> spec_fn(int, int) -> u32 {
    |x: int, y: int|
        u32_of_bytes(
            s[4 * ((y0 + y) * w + (x0 + x))],
            s[4 * ((y0 + y) * w + (x0 + x)) + 1],
            s[4 * ((y0 + y) * w + (x0 + x)) + 2],
            s[4 * ((y0 + y) * w + (x0 + x)) + 3],
        )
}

/// Two pixel accessors that agree on a rectangle give the same gradient
/// residual stream.
proof fn lemma_gradient_seq_agree(
    p1: spec_fn(int, int) -> u32,
    p2: spec_fn(int, int) -> u32,
    w: int,
    h: int,
)
    requires
        0 < w,
        0 < h,
        forall|x: int, y: int| 0 <= x < w && 0 <= y < h ==> #[trigger] p1(x, y) == p2(x, y),
    ensures
        crate::gradient::gradient_seq(p1, w, h) == crate::gradient::gradient_seq(p2, w, h),
{
    let s1 = crate::gradient::gradient_seq(p1, w, h);
    let s2 = crate::gradient::gradient_seq(p2, w, h);
    assert(3 * w * h == 3 * (w * h)) by (nonlinear_arith);
    assert forall|i: int| 0 <= i < s1.len() implies s1[i] == s2[i] by {
        let q = i / 3;
        let c = i % 3;
        vstd::arithmetic::div_mod::lemma_mod_pos_bound(i, 3);
        vstd::arithmetic::div_mod::lemma_fundamental_div_mod(i, 3);
        assert(0 <= q < w * h) by (nonlinear_arith)
            requires
                0 <= i < 3 * (w * h),
                i == 3 * q + c,
                0 <= c < 3,
        ;
        let x = q % w;
        let y = q / w;
        vstd::arithmetic::div_mod::lemma_mod_pos_bound(q, w);
        vstd::arithmetic::div_mod::lemma_fundamental_div_mod(q, w);
        assert(0 <= y < h) by (nonlinear_arith)
            requires
                0 <= q < w * h,
                q == w * y + x,
                0 <= x < w,
                0 < w,
        ;
        assert(p1(x, y) == p2(x, y));
        if y > 0 {
            assert(p1(x, y - 1) == p2(x, y - 1));
        }
        if x > 0 {
            assert(p1(x - 1, y) == p2(x - 1, y));
        }
        if x > 0 && y > 0 {
            assert(p1(x - 1, y - 1) == p2(x - 1, y - 1));
        }
        assert(crate::gradient::resid_at(p1, x, y, c) == crate::gradient::resid_at(p2, x, y, c));
    }
    assert(s1 =~= s2);
}

/// Copy the pixels of a rectangle of a packed byte frame into a packed
/// vector of 32-bit pixels, rectangle-local.
fn extract_rect(screen: &[u8], w: usize, h: usize, x0: usize, y0: usize, x1: usize, y1: usize) -> (pix:
    Vec<u32>)
    requires
        0 < w,
        x0 < x1 <= w,
        y0 < y1 <= h,
        screen@.len() == 4 * (w * h),
        w * h <= 0x1000_0000,
    ensures
        pix@.len() == (x1 - x0) * (y1 - y0),
        forall|x: int, y: int|
            0 <= x < x1 - x0 && 0 <= y < y1 - y0 ==> pix@[y * ((x1 - x0) as int) + x]
                == #[trigger] (byte_px(screen@, w as int, x0 as int, y0 as int))(x, y),
{
    let rw = x1 - x0;
    let rh = y1 - y0;
    let ghost px = byte_px(screen@, w as int, x0 as int, y0 as int);
    let mut pix: Vec<u32> = Vec::new();
    let mut y: usize = 0;
    while y < rh
        invariant
            0 < w,
            x0 < x1 <= w,
            y0 < y1 <= h,
            rw == x1 - x0,
            rh == y1 - y0,
            y <= rh,
            screen@.len() == 4 * (w * h),
            w * h <= 0x1000_0000,
            px == byte_px(screen@, w as int, x0 as int, y0 as int),
            pix@.len() == rw * y,
            forall|xx: int, yy: int|
                0 <= xx < rw && 0 <= yy < y ==> pix@[yy * (rw as int) + xx] == #[trigger] px(
                    xx,
                    yy,
                ),
        decreases rh - y,
    {
        let mut x: usize = 0;
        while x < rw
            invariant
                0 < w,
                x0 < x1 <= w,
                y0 < y1 <= h,
                rw == x1 - x0,
                rh == y1 - y0,
                y < rh,
                x <= rw,
                screen@.len() == 4 * (w * h),
                w * h <= 0x1000_0000,
                px == byte_px(screen@, w as int, x0 as int, y0 as int),
                pix@.len() == rw * y + x,
                forall|xx: int, yy: int|
                    0 <= xx < rw && 0 <= yy < y ==> pix@[yy * (rw as int) + xx] == #[trigger] px(
                        xx,
                        yy,
                    ),
                forall|xx: int|
                    0 <= xx < x ==> pix@[y as int * (rw as int) + xx] == #[trigger] px(
                        xx,
                        y as int,
                    ),
            decreases rw - x,
        {
            proof {
                assert((y0 + y) * w + (x0 + x) < w * h) by (nonlinear_arith)
                    requires
                        0 <= x0 + x < w,
                        0 <= y0 + y < h,
                ;
                assert(rw * y + x < rw * rh) by (nonlinear_arith)
                    requires
                        0 <= x < rw,
                        0 <= y < rh,
                ;
            }
            let base = 4 * ((y0 + y) * w + (x0 + x));
            let b0 = *slice_index_get(screen, base);
            let b1 = *slice_index_get(screen, base + 1);
            let b2 = *slice_index_get(screen, base + 2);
            let b3 = *slice_index_get(screen, base + 3);
            let p: u32 = (b0 as u32) | ((b1 as u32) << 8) | ((b2 as u32) << 16) | ((b3 as u32)
                << 24);
            let ghost pix_pre = pix@;
            pix.push(p);
            proof {
                assert(p == px(x as int, y as int));
                assert(y as int * (rw as int) == (rw * y) as int) by (nonlinear_arith);
                assert forall|xx: int, yy: int|
                    0 <= xx < rw && 0 <= yy < y implies pix@[yy * (rw as int) + xx] == #[trigger] px(
                    xx,
                    yy,
                ) by {
                    assert(0 <= yy * (rw as int) + xx < (rw * y) as int) by (nonlinear_arith)
                        requires
                            0 <= xx < rw as int,
                            0 <= yy < y as int,
                            0 < rw,
                    ;
                    assert(pix@[yy * (rw as int) + xx] == pix_pre[yy * (rw as int) + xx]);
                }
            }
            x += 1;
        }
        y += 1;
        proof {
            assert(rw * y == rw * (y - 1) + rw) by (nonlinear_arith);
        }
    }
    proof {
        assert(rw * rh == (x1 - x0) * (y1 - y0)) by (nonlinear_arith)
            requires
                rw == x1 - x0,
                rh == y1 - y0,
        ;
    }
    pix
}

/// A standalone Tight gradient encoder over a packed byte frame: it filters
/// one rectangle with the gradient predictor and appends the framed,
/// compressed sub-message (without any encoding id) to the output.
pub struct TightEncoder {
    buffer: Vec<u8>,
    compressor: TightCompressor,
}

impl TightEncoder {
    /// Whether the zlib header is still owed by this encoder's stream.
    pub closed spec fn is_first(&self) -> bool {
        self.compressor.is_first()
    }

    /// A fresh encoder whose scratch buffer can hold the residuals of
    /// `pixels` pixels without growing.
    pub fn new(pixels: usize) -> (r: TightEncoder)
        requires
            pixels <= 0x1000_0000,
        ensures
            r.is_first(),
    {
        TightEncoder {
            buffer: Vec::with_capacity(pixels * 3 + 1),
            compressor: TightCompressor::new(),
        }
    }

    /// Append the gradient-filtered, compressed rectangle
    /// [x0, x1) x [y0, y1) of the packed w x h byte frame to `out`: the
    /// control byte for stream 0, the gradient filter byte, then the framed
    /// payload.
    pub fn encode(
        &mut self,
        out: &mut Vec<u8>,
        screen: &[u8],
        w: usize,
        h: usize,
        x0: usize,
        y0: usize,
        x1: usize,
        y1: usize,
    ) -> (r: bool)
        requires
            0 < w,
            x0 < x1 <= w,
            y0 < y1 <= h,
            screen@.len() == 4 * (w * h),
            w * h <= 0x1000_0000,
        ensures
            final(out)@.len() >= old(out)@.len(),
            final(out)@.subrange(0, old(out)@.len() as int) == old(out)@,
            !r ==> final(out)@ == old(out)@,
            r && 3 * ((x1 - x0) * (y1 - y0)) >= 12 ==> exists|d: Seq<u8>|
                tight_framed(old(out)@, final(out)@, 0, 2, old(self).is_first(), d),
            r && 3 * ((x1 - x0) * (y1 - y0)) < 12 ==> final(out)@ == old(out)@ + seq![
                tight_ctrl(0),
                2u8,
            ] + crate::gradient::gradient_seq(
                byte_px(screen@, w as int, x0 as int, y0 as int),
                (x1 - x0) as int,
                (y1 - y0) as int,
            ),
            3 * ((x1 - x0) * (y1 - y0)) < 12 ==> r && final(self).is_first() == old(
                self,
            ).is_first(),
            3 * ((x1 - x0) * (y1 - y0)) >= 12 ==> !final(self).is_first(),
    {
        let ghost o0 = out@;
        let rw = x1 - x0;
        let rh = y1 - y0;
        let pix = extract_rect(screen, w, h, x0, y0, x1, y1);
        proof {
            assert(rw * rh <= w * h) by (nonlinear_arith)
                requires
                    0 < rw <= w,
                    0 < rh <= h,
            ;
            assert((rh - 1) * rw + rw == rh * rw) by (nonlinear_arith);
            assert(rh * rw == rw * rh) by (nonlinear_arith);
        }
        self.buffer.clear();
        crate::encoder::fill_gradient(&mut self.buffer, pix.as_slice(), rw, rw, rh);
        proof {
            assert(3 * (rw as int) * (rh as int) == 3 * ((rw as int) * (rh as int)))
                by (nonlinear_arith);
            assert forall|x: int, y: int|
                0 <= x < rw && 0 <= y < rh implies #[trigger] (crate::gradient::screen_px(
                pix@,
                rw as int,
            ))(x, y) == (byte_px(screen@, w as int, x0 as int, y0 as int))(x, y) by {
                assert(pix@[y * (rw as int) + x] == (byte_px(
                    screen@,
                    w as int,
                    x0 as int,
                    y0 as int,
                ))(x, y));
            }
            lemma_gradient_seq_agree(
                crate::gradient::screen_px(pix@, rw as int),
                byte_px(screen@, w as int, x0 as int, y0 as int),
                rw as int,
                rh as int,
            );
            assert(self.buffer@ =~= crate::gradient::gradient_seq(
                byte_px(screen@, w as int, x0 as int, y0 as int),
                rw as int,
                rh as int,
            ));
        }
        let (ok, dg) = self.compressor.compress(self.buffer.as_slice(), out, 0, 2);
        if !ok {
            return false;
        }
        proof {
            assert(out@.subrange(0, o0.len() as int) =~= o0);
            if 3 * (rw * rh) >= 12 {
                assert(tight_framed(old(out)@, out@, 0, 2, old(self).is_first(), dg@));
                assert(exists|d: Seq<u8>|
                    tight_framed(old(out)@, out@, 0, 2, old(self).is_first(), d));
            }
        }
        true
    }
}

} // verus!
