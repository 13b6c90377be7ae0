use mfxvnc::encoder::TightAdaptiveEncoder;

/// The adaptive cost heuristic: estimated bits-per-pixel / 8 of the raw
/// stream versus the gradient stream.
fn choose_raw(n_pixels: usize, n_matches: usize, sum_l1: u64) -> bool {
    let raw_ratio = (n_pixels - n_matches) as f64 / n_pixels as f64;
    let m = sum_l1 as f64;
    let lin_ratio = if m == 0.0 {
        0.0
    } else {
        (1.0 / f64::ln(2.0) + 1.0) / 8.0 + (1.0 / 8.0) * f64::log2(m / (3 * n_pixels) as f64)
    };
    raw_ratio < lin_ratio
}

#[test]
fn flat_rectangle_picks_gradient() {
    // S6: every pixel identical; the top-left pixel has no left neighbour,
    // so all but one pixel match; gradient is selected (raw is not strictly
    // cheaper)
    let w = 32;
    let h = 32;
    let screen = vec![0x0055_5555u32; w * h];
    let mut enc = TightAdaptiveEncoder::new();
    let (n_matches, sum) = enc.scan(&screen, w, w, h);
    assert_eq!(n_matches, w * h - 1);
    let use_raw = choose_raw(w * h, n_matches, sum);
    assert!(!use_raw);
    let mut buf: Vec<u8> = Vec::new();
    assert!(enc.encode(&mut buf, &screen, w, w, h, use_raw));
    assert_eq!(&buf[0..4], &[0, 0, 0, 7]);
    assert_eq!(buf[4], 0x40 | (1 << 4)); // gradient goes through stream 1
    assert_eq!(buf[5], 2);
}

#[test]
fn black_rectangle_has_zero_residuals() {
    let w = 32;
    let h = 32;
    let screen = vec![0u32; w * h];
    let mut enc = TightAdaptiveEncoder::new();
    let (n_matches, sum) = enc.scan(&screen, w, w, h);
    // black matches the zero stand-in for the missing left neighbour too
    assert_eq!(n_matches, w * h);
    assert_eq!(sum, 0);
    assert!(!choose_raw(w * h, n_matches, sum));
}

#[test]
fn smooth_image_with_small_noise_picks_gradient() {
    // a smooth ramp with tiny perturbations: residuals stay small, so the
    // gradient stream is estimated far cheaper than raw
    let w = 32;
    let h = 32;
    let mut state = 0x12345678u64;
    let mut screen = vec![0u32; w * h];
    for y in 0..h {
        for x in 0..w {
            state = state.wrapping_mul(6364136223846793005).wrapping_add(1442695040888963407);
            let base = (x as u32 * 2 + y as u32 * 3) & 0xff;
            let jitter = ((state >> 32) & 1) as u32;
            let c = (base + jitter) & 0xff;
            screen[y * w + x] = c << 16 | c << 8 | c;
        }
    }
    let mut enc = TightAdaptiveEncoder::new();
    let (n_matches, sum) = enc.scan(&screen, w, w, h);
    let use_raw = choose_raw(w * h, n_matches, sum);
    assert!(!use_raw);
}

#[test]
fn striped_rectangle_switches_to_raw() {
    // S6 adversarial case: even rows alternate black and white, odd rows are
    // flat grey; the grey rows match their left neighbour while the gradient
    // predictor saturates, so the raw stream is estimated cheaper
    let w = 32;
    let h = 32;
    let mut screen = vec![0u32; w * h];
    for y in 0..h {
        for x in 0..w {
            screen[y * w + x] = if y % 2 == 0 {
                if x % 2 == 0 {
                    0
                } else {
                    0x00ff_ffff
                }
            } else {
                0x0080_8080
            };
        }
    }
    let mut enc = TightAdaptiveEncoder::new();
    let (n_matches, sum) = enc.scan(&screen, w, w, h);
    let use_raw = choose_raw(w * h, n_matches, sum);
    assert!(use_raw);
    let mut buf: Vec<u8> = Vec::new();
    assert!(enc.encode(&mut buf, &screen, w, w, h, use_raw));
    assert_eq!(&buf[0..4], &[0, 0, 0, 7]);
    assert_eq!(buf[4], 0x40); // raw stays on stream 0
    assert_eq!(buf[5], 0); // copy filter
}

#[test]
fn scan_statistics_exact_on_small_rect() {
    // 2x2 rectangle, hand-computed statistics
    let w = 2;
    let h = 2;
    // pixels: (0,0)=10, (1,0)=10, (0,1)=20, (1,1)=30 in the blue channel
    let screen = vec![10u32, 10, 20, 30];
    let mut enc = TightAdaptiveEncoder::new();
    let (n_matches, sum) = enc.scan(&screen, w, w, h);
    // (0,0): left is zero, no match; (1,0): equals left; (0,1): above is 10,
    // left is zero, no match; (1,1): above 10, left 20, no match
    assert_eq!(n_matches, 1);
    // residuals (blue channel): (0,0): 10; (1,0): 10 - 10 = 0;
    // (0,1): 20 - 10 = 10; (1,1): 30 - clamp(10 + 20 - 10) = 10
    assert_eq!(sum, 30);
}
