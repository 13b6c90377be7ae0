use mfxvnc::comparator::StripComparator;
use mfxvnc::encoder::{Encoder, RandomColorEncoder, RawEncoder};
use mfxvnc::frame::Rect;
use mfxvnc::session::VncServer;

fn masked(p: u32) -> u32 {
    p & 0x00ff_ffff
}

/// Decode one FramebufferUpdate built around the Raw encoder and paint it
/// onto the canvas.
fn apply_raw_update(canvas: &mut [u32], stride: usize, buf: &[u8]) -> u16 {
    assert!(buf.len() >= 4);
    assert_eq!(buf[0], 0);
    assert_eq!(buf[1], 0);
    let n = ((buf[2] as u16) << 8) | buf[3] as u16;
    let mut pos = 4;
    for _ in 0..n {
        let x0 = ((buf[pos] as usize) << 8) | buf[pos + 1] as usize;
        let y0 = ((buf[pos + 2] as usize) << 8) | buf[pos + 3] as usize;
        let rw = ((buf[pos + 4] as usize) << 8) | buf[pos + 5] as usize;
        let rh = ((buf[pos + 6] as usize) << 8) | buf[pos + 7] as usize;
        pos += 8;
        assert_eq!(&buf[pos..pos + 4], &[0, 0, 0, 0]); // Raw encoding id
        pos += 4;
        for y in y0..y0 + rh {
            for x in x0..x0 + rw {
                let p = (buf[pos] as u32)
                    | ((buf[pos + 1] as u32) << 8)
                    | ((buf[pos + 2] as u32) << 16)
                    | ((buf[pos + 3] as u32) << 24);
                canvas[y * stride + x] = masked(p);
                pos += 4;
            }
        }
    }
    assert_eq!(pos, buf.len());
    n
}

#[test]
fn session_round_trip_reproduces_frames() {
    // a sequence of frames decoded on an initially zero canvas reproduces
    // every captured frame, modulo the alpha byte
    let w = 16;
    let h = 8;
    let frames: Vec<Vec<u32>> = vec![
        (0..w * h).map(|i| (i as u32) * 0x010101).collect(),
        (0..w * h).map(|i| if i % 5 == 0 { 0xff00ff } else { (i as u32) * 0x010101 }).collect(),
        vec![0xdead_beefu32; w * h],
        vec![0xdead_beefu32; w * h], // identical frame: empty update
    ];
    let mut prev = vec![0u32; w * h];
    let mut canvas = vec![0u32; w * h];
    let mut enc = RawEncoder::new();
    for (k, f) in frames.iter().enumerate() {
        let mut buf: Vec<u8> = Vec::new();
        let n = VncServer::build_update::<StripComparator, RawEncoder>(
            &mut enc, &mut prev, f, w, w, h, &mut buf,
        )
        .expect("update must assemble");
        apply_raw_update(&mut canvas, w, &buf);
        for i in 0..w * h {
            assert_eq!(canvas[i], masked(f[i]));
            assert_eq!(prev[i], masked(f[i]));
        }
        if k == 3 {
            assert_eq!(n, 0);
            assert_eq!(buf.len(), 4);
        }
    }
}

#[test]
fn empty_update_for_unchanged_frame() {
    let w = 32;
    let h = 16;
    let f: Vec<u32> = vec![0x00aa_bbcc; w * h];
    let mut prev: Vec<u32> = f.iter().map(|p| masked(*p)).collect();
    let mut enc = RawEncoder::new();
    let mut buf: Vec<u8> = Vec::new();
    let n = VncServer::build_update::<StripComparator, RawEncoder>(
        &mut enc, &mut prev, &f, w, w, h, &mut buf,
    )
    .unwrap();
    assert_eq!(n, 0);
    assert_eq!(buf, vec![0, 0, 0, 0]);
}

#[test]
fn throttle_predicate_bounds_queue() {
    // P7: the writer sleeps while the queue holds both frames' bytes
    assert!(VncServer::should_throttle(200, 100, 100));
    assert!(VncServer::should_throttle(201, 100, 100));
    assert!(!VncServer::should_throttle(199, 100, 100));
    assert!(!VncServer::should_throttle(0, 100, 100));
    assert!(VncServer::should_throttle(100, 100, 0));
}

#[test]
fn rect_header_layout() {
    let mut buf: Vec<u8> = Vec::new();
    VncServer::rect_header(&mut buf, Rect { x0: 0x1234, y0: 7, x1: 0x1244, y1: 10 });
    assert_eq!(buf, vec![0x12, 0x34, 0, 7, 0, 0x10, 0, 3]);
}

#[test]
fn random_color_encoder_shape() {
    let screen = vec![0u32; 16];
    let mut enc = RandomColorEncoder::new();
    let mut buf: Vec<u8> = Vec::new();
    assert!(enc.encode(&mut buf, &screen, 4, 4, 4));
    assert_eq!(buf.len(), 8);
    assert_eq!(&buf[0..5], &[0, 0, 0, 7, 0x80]);
}
