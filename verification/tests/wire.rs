use mfxvnc::encoder::{Encoder, RawEncoder, TightGradientEncoder, TightRawEncoder};
use mfxvnc::gradient::gradient_unfilter;
use mfxvnc::session::VncServer;
use mfxvnc::tight::{compact_length, TightCompressor, TightEncoder};

/// A streaming inflater mirroring a Tight client: one zlib stream whose
/// window persists across sub-messages.
struct Inflater {
    state: Box<miniz_oxide::inflate::core::DecompressorOxide>,
    out: Vec<u8>,
    pos: usize,
}

impl Inflater {
    fn new() -> Self {
        Inflater {
            state: Box::new(miniz_oxide::inflate::core::DecompressorOxide::new()),
            out: vec![0u8; 1 << 22],
            pos: 0,
        }
    }

    fn feed(&mut self, data: &[u8]) -> Vec<u8> {
        let flags = miniz_oxide::inflate::core::inflate_flags::TINFL_FLAG_PARSE_ZLIB_HEADER
            | miniz_oxide::inflate::core::inflate_flags::TINFL_FLAG_HAS_MORE_INPUT
            | miniz_oxide::inflate::core::inflate_flags::TINFL_FLAG_USING_NON_WRAPPING_OUTPUT_BUF;
        let (_status, n_in, n_out) = miniz_oxide::inflate::core::decompress(
            &mut self.state,
            data,
            &mut self.out,
            self.pos,
            flags,
        );
        assert_eq!(n_in, data.len(), "inflater did not consume the sub-message");
        let res = self.out[self.pos..self.pos + n_out].to_vec();
        self.pos += n_out;
        res
    }
}

/// Parse one Tight sub-message at `pos` (after any encoding id): returns
/// (control byte, filter byte, unpacked payload bytes).
fn parse_tight(buf: &[u8], pos: &mut usize, expected_len: usize, inf: &mut Inflater) -> (u8, u8, Vec<u8>) {
    let ctrl = buf[*pos];
    let filter = buf[*pos + 1];
    *pos += 2;
    if expected_len < 12 {
        let data = buf[*pos..*pos + expected_len].to_vec();
        *pos += expected_len;
        (ctrl, filter, data)
    } else {
        let b0 = buf[*pos];
        let b1 = buf[*pos + 1];
        let b2 = buf[*pos + 2];
        assert_eq!(b0 & 0x80, 0x80);
        assert_eq!(b1 & 0x80, 0x80);
        let zl = ((b0 & 0x7f) as usize) | (((b1 & 0x7f) as usize) << 7) | ((b2 as usize) << 14);
        *pos += 3;
        let data = inf.feed(&buf[*pos..*pos + zl]);
        *pos += zl;
        (ctrl, filter, data)
    }
}

fn expected_rgb(screen: &[u32], stride: usize, w: usize, h: usize) -> Vec<u8> {
    let mut v = Vec::new();
    for y in 0..h {
        for x in 0..w {
            let p = screen[y * stride + x];
            v.push(((p >> 16) & 0xff) as u8);
            v.push(((p >> 8) & 0xff) as u8);
            v.push((p & 0xff) as u8);
        }
    }
    v
}

#[test]
fn compact_length_field_bytes() {
    // the 1/2/3-byte continuation encoding for a few exact lengths
    assert_eq!(compact_length(0), (0x80, 0x80, 0x00));
    assert_eq!(compact_length(1), (0x81, 0x80, 0x00));
    assert_eq!(compact_length(0x7f), (0xff, 0x80, 0x00));
    assert_eq!(compact_length(0x80), (0x80, 0x81, 0x00));
    assert_eq!(compact_length(12345), (0x80 | (12345 & 0x7f) as u8, 0x80 | ((12345 >> 7) & 0x7f) as u8, (12345 >> 14) as u8));
    assert_eq!(compact_length(0x3f_ffff), (0xff, 0xff, 0xff));
}

#[test]
fn compressor_short_payload_is_verbatim() {
    let mut c = TightCompressor::new();
    let mut out: Vec<u8> = Vec::new();
    let (ok, _) = c.compress(&[9, 8, 7], &mut out, 1, 2);
    assert!(ok);
    assert_eq!(out, vec![0x40 | (1 << 4), 2, 9, 8, 7]);
}

#[test]
fn gradient_first_rectangle_framing() {
    // S5: on the first rectangle the payload carries the zlib header once;
    // the second rectangle continues the stream without it
    let w = 16;
    let h = 16;
    let screen = vec![0x0080_8080u32; w * h];
    let mut enc = TightGradientEncoder::new();
    let mut buf: Vec<u8> = Vec::new();
    assert!(enc.encode(&mut buf, &screen, w, w, h));
    assert_eq!(&buf[0..4], &[0, 0, 0, 7]);
    assert_eq!(buf[4], 0x40); // basic compression, stream 0, filter bit set
    assert_eq!(buf[5], 0x02); // gradient filter
    assert_eq!(buf[6] & 0x80, 0x80);
    assert_eq!(buf[7] & 0x80, 0x80);
    assert_eq!(&buf[9..11], &[0x78, 0x01]); // zlib header, once
    let first_len = buf.len();

    assert!(enc.encode(&mut buf, &screen, w, w, h));
    let second = &buf[first_len..];
    assert_eq!(&second[0..4], &[0, 0, 0, 7]);
    assert_eq!(second[4], 0x40);
    assert_eq!(second[5], 0x02);
    assert_ne!(&second[9..11], &[0x78, 0x01]);

    // both rectangles decode through one continuous stream
    let mut inf = Inflater::new();
    let mut pos = 4;
    let (_, _, data1) = parse_tight(&buf, &mut pos, 3 * w * h, &mut inf);
    pos += 4; // second encoding id
    let (_, _, data2) = parse_tight(&buf, &mut pos, 3 * w * h, &mut inf);
    assert_eq!(pos, buf.len());
    assert_eq!(data1.len(), 3 * w * h);
    assert_eq!(data2.len(), 3 * w * h);
    let rgb1 = gradient_unfilter(&data1, w, h);
    assert_eq!(rgb1, expected_rgb(&screen, w, w, h));
    let rgb2 = gradient_unfilter(&data2, w, h);
    assert_eq!(rgb2, expected_rgb(&screen, w, w, h));
}

#[test]
fn gradient_payload_reproduces_pixels() {
    // a patterned rectangle survives filter + deflate + inflate + unfilter
    let stride = 24;
    let w = 17;
    let h = 9;
    let mut screen = vec![0u32; stride * h];
    for y in 0..h {
        for x in 0..stride {
            screen[y * stride + x] =
                ((x as u32 * 37 + y as u32 * 101) % 256) << 16 | ((x as u32 * 5) % 256) << 8 | ((y as u32 * 29 + x as u32) % 256);
        }
    }
    let mut enc = TightGradientEncoder::new();
    let mut buf: Vec<u8> = Vec::new();
    assert!(enc.encode(&mut buf, &screen, stride, w, h));
    let mut inf = Inflater::new();
    let mut pos = 4;
    let (ctrl, filter, data) = parse_tight(&buf, &mut pos, 3 * w * h, &mut inf);
    assert_eq!(ctrl, 0x40);
    assert_eq!(filter, 2);
    let rgb = gradient_unfilter(&data, w, h);
    assert_eq!(rgb, expected_rgb(&screen, stride, w, h));
}

#[test]
fn tight_raw_payload_reproduces_pixels() {
    let w = 8;
    let h = 8;
    let screen: Vec<u32> = (0..w * h).map(|i| (i as u32) * 0x030201).collect();
    let mut enc = TightRawEncoder::new();
    let mut buf: Vec<u8> = Vec::new();
    assert!(enc.encode(&mut buf, &screen, w, w, h));
    let mut inf = Inflater::new();
    let mut pos = 4;
    let (ctrl, filter, data) = parse_tight(&buf, &mut pos, 3 * w * h, &mut inf);
    assert_eq!(ctrl, 0x40);
    assert_eq!(filter, 0);
    assert_eq!(data, expected_rgb(&screen, w, w, h));
}

#[test]
fn standalone_tight_encoder_rectangle() {
    // the byte-frame encoder filters a sub-rectangle of a packed frame
    let w = 12;
    let h = 6;
    let mut bytes = vec![0u8; 4 * w * h];
    for i in 0..bytes.len() {
        bytes[i] = ((i * 7) % 256) as u8;
    }
    let (x0, y0, x1, y1) = (2usize, 1usize, 9usize, 5usize);
    let rw = x1 - x0;
    let rh = y1 - y0;
    let mut enc = TightEncoder::new(w * h);
    let mut buf: Vec<u8> = Vec::new();
    assert!(enc.encode(&mut buf, &bytes, w, h, x0, y0, x1, y1));
    let mut inf = Inflater::new();
    let mut pos = 0;
    let (ctrl, filter, data) = parse_tight(&buf, &mut pos, 3 * rw * rh, &mut inf);
    assert_eq!(ctrl, 0x40);
    assert_eq!(filter, 2);
    assert_eq!(pos, buf.len());
    let rgb = gradient_unfilter(&data, rw, rh);
    // reconstruct the expected RGB stream from the byte frame
    let mut expect = Vec::new();
    for y in y0..y1 {
        for x in x0..x1 {
            let base = 4 * (y * w + x);
            expect.push(bytes[base + 2]);
            expect.push(bytes[base + 1]);
            expect.push(bytes[base]);
        }
    }
    assert_eq!(rgb, expect);
}

#[test]
fn standalone_tight_encoder_stream_continues() {
    // two rectangles through one standalone encoder: the zlib header appears
    // once and the second payload decodes through the same stream
    let w = 16;
    let h = 16;
    let mut bytes = vec![0u8; 4 * w * h];
    for i in 0..bytes.len() {
        bytes[i] = ((i * 13 + 5) % 256) as u8;
    }
    let mut enc = TightEncoder::new(w * h);
    let mut buf: Vec<u8> = Vec::new();
    assert!(enc.encode(&mut buf, &bytes, w, h, 0, 0, 16, 8));
    assert_eq!(buf[0], 0x40);
    assert_eq!(buf[1], 0x02);
    assert_eq!(&buf[5..7], &[0x78, 0x01]); // zlib header on the first payload
    let first_len = buf.len();
    assert!(enc.encode(&mut buf, &bytes, w, h, 0, 8, 16, 16));
    let second = &buf[first_len..];
    assert_ne!(&second[5..7], &[0x78, 0x01]);

    let mut inf = Inflater::new();
    let mut pos = 0;
    let (_, _, data1) = parse_tight(&buf, &mut pos, 3 * 16 * 8, &mut inf);
    let (_, _, data2) = parse_tight(&buf, &mut pos, 3 * 16 * 8, &mut inf);
    assert_eq!(pos, buf.len());
    let rgb1 = gradient_unfilter(&data1, 16, 8);
    let rgb2 = gradient_unfilter(&data2, 16, 8);
    for (k, rgb) in [(0usize, rgb1), (8usize, rgb2)] {
        let mut expect = Vec::new();
        for y in k..k + 8 {
            for x in 0..16 {
                let base = 4 * (y * w + x);
                expect.push(bytes[base + 2]);
                expect.push(bytes[base + 1]);
                expect.push(bytes[base]);
            }
        }
        assert_eq!(rgb, expect);
    }
}

#[test]
fn jpeg_framing_bytes() {
    // the JPEG sub-message: control byte 0x90, compact length, stream bytes
    let stream: Vec<u8> = (0..200u8).collect();
    let mut out: Vec<u8> = Vec::new();
    assert!(mfxvnc::tight::tight_jpeg_frame(&mut out, &stream));
    assert_eq!(out[0], 0x90);
    assert_eq!(out[1], 0x80 | (200 & 0x7f));
    assert_eq!(out[2], 0x80 | (200 >> 7));
    assert_eq!(out[3], 0);
    assert_eq!(&out[4..], &stream[..]);

    // an oversize stream is refused and the buffer left untouched
    let big = vec![0u8; 1 << 22];
    let mut out2: Vec<u8> = vec![1, 2, 3];
    assert!(!mfxvnc::tight::tight_jpeg_frame(&mut out2, &big));
    assert_eq!(out2, vec![1, 2, 3]);
}

#[test]
fn raw_encoder_bytes() {
    let screen = vec![0x04030201u32, 0x08070605, 0x0c0b0a09, 0x100f0e0d];
    let mut enc = RawEncoder::new();
    let mut buf: Vec<u8> = Vec::new();
    assert!(enc.encode(&mut buf, &screen, 2, 2, 2));
    let mut expect = vec![0, 0, 0, 0];
    expect.extend((1..=16u8).collect::<Vec<u8>>());
    assert_eq!(buf, expect);
}

#[test]
fn handshake_reject_wrong_version() {
    // S4: "RFB 003.007\n" is refused and answered with the error reply
    assert!(!VncServer::check_version(b"RFB 003.007\n"));
    assert!(VncServer::check_version(b"RFB 003.008\n"));
    assert_eq!(VncServer::protocol_version(), b"RFB 003.008\n".to_vec());
    assert_eq!(VncServer::error_message(), b"\x00\x00\x00\x06error.".to_vec());
    assert!(VncServer::check_security_type(1));
    assert!(!VncServer::check_security_type(2));
    assert_eq!(VncServer::security_types_message(), vec![1, 1]);
    assert_eq!(VncServer::security_result_message(), vec![0, 0, 0, 0]);
}

#[test]
fn server_init_layout() {
    let msg = VncServer::server_init_message(1280, 800);
    assert_eq!(msg.len(), 30);
    assert_eq!(&msg[0..4], &[5, 0, 3, 32]); // 1280 = 0x0500, 800 = 0x0320
    assert_eq!(&msg[4..8], &[32, 24, 0, 1]);
    assert_eq!(&msg[8..14], &[0, 255, 0, 255, 0, 255]);
    assert_eq!(&msg[14..17], &[0, 8, 16]);
    assert_eq!(&msg[20..24], &[0, 0, 0, 6]);
    assert_eq!(&msg[24..30], b"mfxvnc");
}
