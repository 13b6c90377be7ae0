//! The RFB session logic: the handshake byte strings and checks, the
//! ServerInit message, the assembly of FramebufferUpdate messages around a
//! damage detector and an encoder, and the backpressure predicate.
use vstd::prelude::*;
use vstd::slice::{slice_index_get, slice_subrange};
use crate::frame::{
    masked, pix_idx, Rect, rect_valid, covered, unchanged_outside, lemma_pix_idx_bound,
};
use crate::comparator::{
    Comparator, new_rects_ok, diffs_covered, region_synced, region_eq, rect_has_diff,
};
use crate::encoder::Encoder;

verus! {

/// The protocol version string "RFB 003.008\n".
pub open spec fn version_bytes() -> Seq<u8> {
    seq![
        0x52u8,
        0x46u8,
        0x42u8,
        0x20u8,
        0x30u8,
        0x30u8,
        0x33u8,
        0x2eu8,
        0x30u8,
        0x30u8,
        0x38u8,
        0x0au8,
    ]
}

/// The handshake failure reply: a 4-byte big-endian length 6 and "error.".
pub open spec fn error_bytes() -> Seq<u8> {
    seq![0u8, 0u8, 0u8, 6u8, 0x65u8, 0x72u8, 0x72u8, 0x6fu8, 0x72u8, 0x2eu8]
}

/// The ServerInit message for a w x h screen: dimensions, the 32-bit
/// true-colour pixel format with shifts 0/8/16 and maxima 255, and the
/// server name "mfxvnc".
pub open spec fn server_init_bytes(w: u16, h: u16) -> Seq<u8> {
    seq![
        (w >> 8) as u8,
        (w & 0xff) as u8,
        (h >> 8) as u8,
        (h & 0xff) as u8,
        32u8,
        24u8,
        0u8,
        1u8,
        0u8,
        255u8,
        0u8,
        255u8,
        0u8,
        255u8,
        0u8,
        8u8,
        16u8,
        0u8,
        0u8,
        0u8,
        0u8,
        0u8,
        0u8,
        6u8,
        0x6du8,
        0x66u8,
        0x78u8,
        0x76u8,
        0x6eu8,
        0x63u8,
    ]
}

/// The 8-byte rectangle header: x, y, width and height as big-endian 16-bit
/// values. The encoding id follows as part of the encoder's payload.
pub open spec fn rect_header_bytes(rc: Rect) -> Seq<u8> {
    seq![
        ((rc.x0 as u16) >> 8) as u8,
        ((rc.x0 as u16) & 0xff) as u8,
        ((rc.y0 as u16) >> 8) as u8,
        ((rc.y0 as u16) & 0xff) as u8,
        (((rc.x1 - rc.x0) as u16) >> 8) as u8,
        (((rc.x1 - rc.x0) as u16) & 0xff) as u8,
        (((rc.y1 - rc.y0) as u16) >> 8) as u8,
        (((rc.y1 - rc.y0) as u16) & 0xff) as u8,
    ]
}

/// The body of a FramebufferUpdate message: for each rectangle its 8-byte
/// header followed by its encoder payload, in order.
pub open spec fn update_body(rs: Seq<Rect>, ps: Seq<Seq<u8>>) -> Seq<u8>
    decreases rs.len(),
{
    if rs.len() == 0 {
        Seq::<u8>::empty()
    } else {
        update_body(rs.drop_last(), ps.drop_last()) + rect_header_bytes(rs.last()) + ps.last()
    }
}

/// Compare two byte strings.
pub fn bytes_equal(a: &[u8], b: &[u8]) -> (r: bool)
    ensures
        r <==> a@ == b@,
{
    if a.len() != b.len() {
        return false;
    }
    let n = a.len();
    let mut i: usize = 0;
    while i < n
        invariant
            i <= n,
            a@.len() == n,
            b@.len() == n,
            forall|j: int| 0 <= j < i ==> a@[j] == b@[j],
        decreases n - i,
    {
        if *slice_index_get(a, i) != *slice_index_get(b, i) {
            proof {
                assert(a@[i as int] != b@[i as int]);
            }
            return false;
        }
        i += 1;
    }
    proof {
        assert(a@ =~= b@);
    }
    true
}

/// The RFB session driver: the pure protocol strings, checks and message
/// assembly that the connection loop drives.
pub struct VncServer;

impl VncServer {
    /// The protocol version the server sends and requires.
    pub fn protocol_version() -> (r: Vec<u8>)
        ensures
            r@ == version_bytes(),
    {
        let mut v: Vec<u8> = Vec::new();
        v.push(0x52);
        v.push(0x46);
        v.push(0x42);
        v.push(0x20);
        v.push(0x30);
        v.push(0x30);
        v.push(0x33);
        v.push(0x2e);
        v.push(0x30);
        v.push(0x30);
        v.push(0x38);
        v.push(0x0a);
        proof {
            assert(v@ =~= version_bytes());
        }
        v
    }

    /// Whether the client's 12 version bytes match the server's version.
    pub fn check_version(buf: &[u8]) -> (r: bool)
        ensures
            r <==> buf@ == version_bytes(),
    {
        let expected = Self::protocol_version();
        bytes_equal(buf, expected.as_slice())
    }

    /// The security types message: one type, None.
    pub fn security_types_message() -> (r: Vec<u8>)
        ensures
            r@ == seq![1u8, 1u8],
    {
        let mut v: Vec<u8> = Vec::new();
        v.push(1);
        v.push(1);
        proof {
            assert(v@ =~= seq![1u8, 1u8]);
        }
        v
    }

    /// Whether the client chose the None security type.
    pub fn check_security_type(t: u8) -> (r: bool)
        ensures
            r <==> t == 1,
    {
        t == 1
    }

    /// The security result message: success.
    pub fn security_result_message() -> (r: Vec<u8>)
        ensures
            r@ == seq![0u8, 0u8, 0u8, 0u8],
    {
        let mut v: Vec<u8> = Vec::new();
        v.push(0);
        v.push(0);
        v.push(0);
        v.push(0);
        proof {
            assert(v@ =~= seq![0u8, 0u8, 0u8, 0u8]);
        }
        v
    }

    /// The reply written before closing when the handshake fails.
    pub fn error_message() -> (r: Vec<u8>)
        ensures
            r@ == error_bytes(),
    {
        let mut v: Vec<u8> = Vec::new();
        v.push(0);
        v.push(0);
        v.push(0);
        v.push(6);
        v.push(0x65);
        v.push(0x72);
        v.push(0x72);
        v.push(0x6f);
        v.push(0x72);
        v.push(0x2e);
        proof {
            assert(v@ =~= error_bytes());
        }
        v
    }

    /// The ServerInit message for a w x h screen.
    pub fn server_init_message(w: u16, h: u16) -> (r: Vec<u8>)
        ensures
            r@ == server_init_bytes(w, h),
    {
        let mut v: Vec<u8> = Vec::new();
        v.push((w >> 8) as u8);
        v.push((w & 0xff) as u8);
        v.push((h >> 8) as u8);
        v.push((h & 0xff) as u8);
        v.push(32);
        v.push(24);
        v.push(0);
        v.push(1);
        v.push(0);
        v.push(255);
        v.push(0);
        v.push(255);
        v.push(0);
        v.push(255);
        v.push(0);
        v.push(8);
        v.push(16);
        v.push(0);
        v.push(0);
        v.push(0);
        v.push(0);
        v.push(0);
        v.push(0);
        v.push(6);
        v.push(0x6d);
        v.push(0x66);
        v.push(0x78);
        v.push(0x76);
        v.push(0x6e);
        v.push(0x63);
        proof {
            assert(v@ =~= server_init_bytes(w, h));
        }
        v
    }

    /// Start a FramebufferUpdate message: message type 0, one padding byte,
    /// and a two-byte rectangle count placeholder.
    pub fn begin_update(buf: &mut Vec<u8>)
        ensures
            final(buf)@ == old(buf)@ + seq![0u8, 0u8, 0u8, 0u8],
    {
        let ghost b0 = buf@;
        buf.push(0);
        buf.push(0);
        buf.push(0);
        buf.push(0);
        proof {
            assert(buf@ =~= b0 + seq![0u8, 0u8, 0u8, 0u8]);
        }
    }

    /// Append the 8-byte header of one rectangle.
    pub fn rect_header(buf: &mut Vec<u8>, rc: Rect)
        requires
            rc.x0 < rc.x1 <= 0xffff,
            rc.y0 < rc.y1 <= 0xffff,
        ensures
            final(buf)@ == old(buf)@ + rect_header_bytes(rc),
    {
        let ghost b0 = buf@;
        let xv = rc.x0 as u16;
        let yv = rc.y0 as u16;
        let wv = (rc.x1 - rc.x0) as u16;
        let hv = (rc.y1 - rc.y0) as u16;
        buf.push((xv >> 8) as u8);
        buf.push((xv & 0xff) as u8);
        buf.push((yv >> 8) as u8);
        buf.push((yv & 0xff) as u8);
        buf.push((wv >> 8) as u8);
        buf.push((wv & 0xff) as u8);
        buf.push((hv >> 8) as u8);
        buf.push((hv & 0xff) as u8);
        proof {
            assert(buf@ =~= b0 + rect_header_bytes(rc));
        }
    }

    /// Write the rectangle count into the placeholder of a message begun
    /// with `begin_update`.
    pub fn patch_rect_count(buf: &mut Vec<u8>, n: u16)
        requires
            old(buf)@.len() >= 4,
        ensures
            final(buf)@.len() == old(buf)@.len(),
            final(buf)@[2] == (n >> 8) as u8,
            final(buf)@[3] == (n & 0xff) as u8,
            forall|j: int|
                0 <= j < old(buf)@.len() && j != 2 && j != 3 ==> final(buf)@[j] == old(buf)@[j],
    {
        buf[2] = (n >> 8) as u8;
        buf[3] = (n & 0xff) as u8;
    }

    /// Whether the writer should keep sleeping: the send queue still holds
    /// at least the previous and the current frame's bytes.
    pub fn should_throttle(queued: usize, prev_len: usize, cur_len: usize) -> (r: bool)
        ensures
            r <==> queued as int >= prev_len as int + cur_len as int,
    {
        queued >= prev_len && queued - prev_len >= cur_len
    }

    /// Assemble one FramebufferUpdate message: the 4-byte header, then per
    /// changed rectangle its 8-byte header followed by the encoder's payload,
    /// with the rectangle count patched in at the end. `prev` is brought up
    /// to date with the masked `next` frame. Returns the rectangle count, or
    /// None when a rectangle did not fit the wire format or the encoder
    /// failed.
    #[verifier::rlimit(100)]
    pub fn build_update<C: Comparator, E: Encoder>(
        enc: &mut E,
        prev: &mut Vec<u32>,
        next: &[u32],
        stride: usize,
        w: usize,
        h: usize,
        buf: &mut Vec<u8>,
    ) -> (r: Option<u16>)
        requires
            w <= stride,
            h * stride <= old(prev)@.len(),
            next@.len() == old(prev)@.len(),
            old(prev)@.len() < 0x1000_0000_0000_0000,
            w <= 0xffff,
            h <= 0xffff,
            w * h <= 0x1000_0000,
            old(buf)@.len() == 0,
        ensures
            final(prev)@.len() == old(prev)@.len(),
            unchanged_outside(old(prev)@, final(prev)@, stride as int, 0, 0, w as int, h as int),
            region_synced(final(prev)@, next@, stride as int, 0, 0, w as int, h as int),
            region_synced(old(prev)@, next@, stride as int, 0, 0, w as int, h as int) ==> r
                == Some(0u16),
            r matches Some(n) ==> {
                &&& final(buf)@.len() >= 4
                &&& final(buf)@[0] == 0u8
                &&& final(buf)@[1] == 0u8
                &&& final(buf)@[2] == (n >> 8) as u8
                &&& final(buf)@[3] == (n & 0xff) as u8
                &&& (n == 0 <==> region_synced(
                    old(prev)@,
                    next@,
                    stride as int,
                    0,
                    0,
                    w as int,
                    h as int,
                ))
                &&& (n == 0 ==> final(buf)@.len() == 4)
            },
            r matches Some(n) ==> exists|rs: Seq<Rect>, ps: Seq<Seq<u8>>|
                {
                    &&& rs.len() == n as int
                    &&& ps.len() == n as int
                    &&& new_rects_ok(0, rs, old(prev)@, next@, stride as int, w as int, h as int)
                    &&& diffs_covered(
                        0,
                        rs,
                        old(prev)@,
                        next@,
                        stride as int,
                        0,
                        0,
                        w as int,
                        h as int,
                    )
                    &&& final(buf)@ == seq![
                        0u8,
                        0u8,
                        (n >> 8) as u8,
                        (n & 0xff) as u8,
                    ] + update_body(rs, ps)
                },
    {
        let ghost prev0 = prev@;
        let ghost st = stride as int;
        Self::begin_update(buf);
        let mut rects: Vec<Rect> = Vec::new();
        C::compare(prev, next, stride, w, h, &mut rects);
        let nrects = rects.len();
        if nrects > 0xffff {
            proof {
                if region_synced(prev0, next@, st, 0, 0, w as int, h as int) {
                    lemma_identical_frames_no_rects(
                        prev0,
                        next@,
                        st,
                        w as int,
                        h as int,
                        0,
                        rects@,
                    );
                }
            }
            return None;
        }
        let len = next.len();
        proof {
            assert(stride * h == h * stride) by (nonlinear_arith);
        }
        let ghost mut rs: Seq<Rect> = Seq::<Rect>::empty();
        let ghost mut ps: Seq<Seq<u8>> = Seq::<Seq<u8>>::empty();
        proof {
            assert(rs =~= rects@.subrange(0, 0));
            assert(buf@ =~= seq![0u8, 0u8, 0u8, 0u8] + update_body(rs, ps));
        }
        if nrects > 0 {
            proof {
                assert(rect_valid(rects@[0], w as int, h as int));
            }
            let mut i: usize = 0;
            while i < nrects
                invariant
                    0 < w <= stride,
                    0 < h,
                    i <= nrects,
                    nrects == rects@.len(),
                    0 < nrects <= 0xffff,
                    w <= 0xffff,
                    h <= 0xffff,
                    w * h <= 0x1000_0000,
                    stride * h <= len,
                    next@.len() == len,
                    st == stride as int,
                    prev0 == old(prev)@,
                    prev@.len() == prev0.len(),
                    prev0.len() == len,
                    unchanged_outside(prev0, prev@, st, 0, 0, w as int, h as int),
                    region_synced(prev@, next@, st, 0, 0, w as int, h as int),
                    diffs_covered(0, rects@, prev0, next@, st, 0, 0, w as int, h as int),
                    new_rects_ok(0, rects@, prev0, next@, st, w as int, h as int),
                    rs == rects@.subrange(0, i as int),
                    ps.len() == i as int,
                    buf@ == seq![0u8, 0u8, 0u8, 0u8] + update_body(rs, ps),
                    buf@.len() >= 4,
                    buf@[0] == 0u8,
                    buf@[1] == 0u8,
                    buf@[2] == 0u8,
                    buf@[3] == 0u8,
                    forall|k: int|
                        0 <= k < rects@.len() ==> rect_valid(
                            #[trigger] rects@[k],
                            w as int,
                            h as int,
                        ),
                decreases nrects - i,
            {
                let rc = *vstd::std_specs::vec::vec_index(&rects, i);
                proof {
                    assert(rect_valid(rects@[i as int], w as int, h as int));
                }
                Self::rect_header(buf, rc);
                let rw = rc.x1 - rc.x0;
                let rh = rc.y1 - rc.y0;
                proof {
                    assert(stride * rc.y0 + rc.x0 + (rh - 1) * stride + rw <= stride * h)
                        by (nonlinear_arith)
                        requires
                            0 <= rc.y0,
                            0 <= rc.x0,
                            rc.y0 + rh <= h,
                            rc.x0 + rw <= w,
                            w <= stride,
                            0 < rw,
                            0 < rh,
                            rh == rc.y1 - rc.y0,
                            rw == rc.x1 - rc.x0,
                    ;
                    assert(rw * rh <= w * h) by (nonlinear_arith)
                        requires
                            0 < rw <= w,
                            0 < rh <= h,
                    ;
                }
                let off = stride * rc.y0 + rc.x0;
                let sub = slice_subrange(next, off, len);
                let ghost pre_enc = buf@;
                let ok = enc.encode(buf, sub, stride, rw, rh);
                if !ok {
                    proof {
                        if region_synced(prev0, next@, st, 0, 0, w as int, h as int) {
                            lemma_identical_frames_no_rects(
                                prev0,
                                next@,
                                st,
                                w as int,
                                h as int,
                                0,
                                rects@,
                            );
                        }
                    }
                    return None;
                }
                proof {
                    let payload = buf@.subrange(pre_enc.len() as int, buf@.len() as int);
                    assert(buf@ =~= pre_enc + payload);
                    let rs2 = rs.push(rc);
                    let ps2 = ps.push(payload);
                    assert(rs2.drop_last() =~= rs);
                    assert(ps2.drop_last() =~= ps);
                    assert(update_body(rs2, ps2) == update_body(rs, ps) + rect_header_bytes(rc)
                        + payload);
                    assert(buf@ =~= seq![0u8, 0u8, 0u8, 0u8] + update_body(rs2, ps2));
                    assert(rs2 =~= rects@.subrange(0, i as int + 1));
                    rs = rs2;
                    ps = ps2;
                    assert(buf@[0] == 0u8 && buf@[1] == 0u8 && buf@[2] == 0u8 && buf@[3] == 0u8);
                }
                i += 1;
            }
        }
        let n16 = nrects as u16;
        let ghost pre_patch = buf@;
        Self::patch_rect_count(buf, n16);
        proof {
            assert(rs =~= rects@.subrange(0, nrects as int));
            assert(rects@.subrange(0, nrects as int) =~= rects@);
            assert(buf@ =~= seq![0u8, 0u8, (n16 >> 8) as u8, (n16 & 0xff) as u8] + update_body(
                rs,
                ps,
            ));
            if nrects == 0 {
                assert forall|x: int, y: int|
                    0 <= x < w && 0 <= y < h implies prev0[#[trigger] pix_idx(st, x, y)] == masked(
                    next@[pix_idx(st, x, y)],
                ) by {
                    if prev0[pix_idx(st, x, y)] != masked(next@[pix_idx(st, x, y)]) {
                        assert(covered(rects@.subrange(0, rects@.len() as int), x, y));
                    }
                }
            } else {
                let rr = rects@[0];
                assert(rect_has_diff(prev0, next@, st, rr));
                let (xx, yy): (int, int) = choose|xx: int, yy: int|
                    rr.x0 <= xx < rr.x1 && rr.y0 <= yy < rr.y1 && prev0[#[trigger] pix_idx(
                        st,
                        xx,
                        yy,
                    )] != masked(next@[pix_idx(st, xx, yy)]);
                assert(rect_valid(rr, w as int, h as int));
                assert(!region_synced(prev0, next@, st, 0, 0, w as int, h as int));
            }
            assert((n16 >> 8) as u8 == 0u8 && (n16 & 0xff) as u8 == 0u8 ==> n16 == 0)
                by (bit_vector);
            assert(new_rects_ok(0, rs, prev0, next@, st, w as int, h as int));
            assert(diffs_covered(0, rs, prev0, next@, st, 0, 0, w as int, h as int));
            assert(exists|rsw: Seq<Rect>, psw: Seq<Seq<u8>>|
                {
                    &&& rsw.len() == n16 as int
                    &&& psw.len() == n16 as int
                    &&& new_rects_ok(0, rsw, old(prev)@, next@, stride as int, w as int, h as int)
                    &&& diffs_covered(
                        0,
                        rsw,
                        old(prev)@,
                        next@,
                        stride as int,
                        0,
                        0,
                        w as int,
                        h as int,
                    )
                    &&& buf@ == seq![
                        0u8,
                        0u8,
                        (n16 >> 8) as u8,
                        (n16 & 0xff) as u8,
                    ] + update_body(rsw, psw)
                }) by {
                assert({
                    &&& rs.len() == n16 as int
                    &&& ps.len() == n16 as int
                    &&& new_rects_ok(0, rs, old(prev)@, next@, stride as int, w as int, h as int)
                    &&& diffs_covered(
                        0,
                        rs,
                        old(prev)@,
                        next@,
                        stride as int,
                        0,
                        0,
                        w as int,
                        h as int,
                    )
                    &&& buf@ == seq![
                        0u8,
                        0u8,
                        (n16 >> 8) as u8,
                        (n16 & 0xff) as u8,
                    ] + update_body(rs, ps)
                });
            }
        }
        Some(n16)
    }
}

/// When a detector reports rectangles for a frame pair in which `prev`
/// already agrees with the masked `next`, it reports none: every reported
/// rectangle contains a changed pixel.
pub proof fn lemma_identical_frames_no_rects(
    prev0: Seq<u32>,
    next: Seq<u32>,
    stride: int,
    w: int,
    h: int,
    n0: int,
    rects: Seq<Rect>,
)
    requires
        region_synced(prev0, next, stride, 0, 0, w, h),
        new_rects_ok(n0, rects, prev0, next, stride, w, h),
        0 <= n0 <= rects.len(),
    ensures
        rects.len() == n0,
{
    if rects.len() > n0 {
        let rr = rects[n0];
        assert(rect_valid(rr, w, h) && rect_has_diff(prev0, next, stride, rr));
        let (xx, yy): (int, int) = choose|xx: int, yy: int|
            rr.x0 <= xx < rr.x1 && rr.y0 <= yy < rr.y1 && prev0[#[trigger] pix_idx(
                stride,
                xx,
                yy,
            )] != masked(next[pix_idx(stride, xx, yy)]);
        assert(prev0[pix_idx(stride, xx, yy)] == masked(next[pix_idx(stride, xx, yy)]));
    }
}

/// Paint the masked `next` frame over the covered pixels of a canvas.
pub open spec fn apply_rects(
    canvas: Seq<u32>,
    next: Seq<u32>,
    stride: int,
    rects: Seq<Rect>,
) -> Seq<u32> {
    Seq::new(canvas.len(), |j: int|
        if covered(rects, j % stride, j / stride) {
            masked(next[j])
        } else {
            canvas[j]
        })
}

/// Session round-trip: if a canvas agrees with the previous frame, then
/// painting the masked next frame over the rectangles a detector reported
/// reproduces the masked next frame on every pixel of the screen.
pub proof fn lemma_session_roundtrip(
    canvas: Seq<u32>,
    prev0: Seq<u32>,
    next: Seq<u32>,
    stride: int,
    w: int,
    h: int,
    n0: int,
    rects: Seq<Rect>,
)
    requires
        0 < w <= stride,
        0 < h,
        stride * h <= canvas.len(),
        canvas.len() == prev0.len(),
        canvas.len() == next.len(),
        region_eq(canvas, prev0, stride, 0, 0, w, h),
        diffs_covered(n0, rects, prev0, next, stride, 0, 0, w, h),
        0 <= n0 <= rects.len(),
    ensures
        region_synced(
            apply_rects(canvas, next, stride, rects.subrange(n0, rects.len() as int)),
            next,
            stride,
            0,
            0,
            w,
            h,
        ),
{
    let sub = rects.subrange(n0, rects.len() as int);
    let ap = apply_rects(canvas, next, stride, sub);
    assert forall|x: int, y: int|
        0 <= x < w && 0 <= y < h implies ap[#[trigger] pix_idx(stride, x, y)] == masked(
        next[pix_idx(stride, x, y)],
    ) by {
        lemma_pix_idx_bound(stride, x, y, h);
        let j = pix_idx(stride, x, y);
        vstd::arithmetic::div_mod::lemma_fundamental_div_mod_converse(j, stride, y, x);
        if !covered(sub, x, y) {
            assert(prev0[j] == masked(next[j]));
        }
    }
}

/// While the backpressure throttle admits a send-queue depth (the queue is
/// below the previous plus the current frame), the depth stays below twice
/// the largest frame ever sent.
pub proof fn lemma_throttle_bound(queued: int, prev_len: int, cur_len: int, max_frame: int)
    requires
        queued < prev_len + cur_len,
        prev_len <= max_frame,
        cur_len <= max_frame,
    ensures
        queued < 2 * max_frame,
{
}

} // verus!
