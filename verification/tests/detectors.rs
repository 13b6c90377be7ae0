use mfxvnc::comparator::{BlockComparator, Comparator, QuadtreeComparator, StripComparator};
use mfxvnc::frame::Rect;

const WHITE: u32 = 0x00ff_ffff;

fn frame(w: usize, h: usize, f: impl Fn(usize, usize) -> u32) -> Vec<u32> {
    let mut v = Vec::with_capacity(w * h);
    for y in 0..h {
        for x in 0..w {
            v.push(f(x, y));
        }
    }
    v
}

fn masked(p: u32) -> u32 {
    p & 0x00ff_ffff
}

fn check_prev_synced(prev: &[u32], next: &[u32]) {
    for i in 0..prev.len() {
        assert_eq!(prev[i], masked(next[i]));
    }
}

fn covers(rects: &[Rect], x: usize, y: usize) -> bool {
    rects.iter().any(|r| r.x0 <= x && x < r.x1 && r.y0 <= y && y < r.y1)
}

#[test]
fn strip_single_pixel_change() {
    // S1: 128x128 all black, then pixel (100, 50) turns white
    let w = 128;
    let h = 128;
    let mut prev = vec![0u32; w * h];
    let next = frame(w, h, |x, y| if (x, y) == (100, 50) { WHITE } else { 0 });
    let mut rects: Vec<Rect> = Vec::new();
    StripComparator::compare(&mut prev, &next, w, w, h, &mut rects);
    assert_eq!(rects.len(), 1);
    let r = rects[0];
    assert!(r.x0 <= 100 && 100 < r.x1 && r.y0 <= 50 && 50 < r.y1);
    // within the 64-wide strip that holds the pixel
    assert!(r.x0 >= 64 && r.x1 <= 128);
    check_prev_synced(&prev, &next);
}

#[test]
fn strip_band_change_merges_rows() {
    // S2: rows 20..30 all white; one rectangle per strip with y0 = 20, y1 = 30
    let w = 128;
    let h = 64;
    let mut prev = vec![0u32; w * h];
    let next = frame(w, h, |_, y| if (20..30).contains(&y) { WHITE } else { 0 });
    let mut rects: Vec<Rect> = Vec::new();
    StripComparator::compare(&mut prev, &next, w, w, h, &mut rects);
    assert_eq!(rects.len(), 2);
    let mut sorted = rects.clone();
    sorted.sort_by_key(|r| r.x0);
    assert_eq!(sorted[0], Rect { x0: 0, y0: 20, x1: 64, y1: 30 });
    assert_eq!(sorted[1], Rect { x0: 64, y0: 20, x1: 128, y1: 30 });
    check_prev_synced(&prev, &next);
}

#[test]
fn quadtree_distant_squares_stay_separate() {
    // S3: two diagonal 16x16 changed squares centred at (64, 64) and
    // (192, 192); the merge heuristics must keep them apart
    let w = 256;
    let h = 256;
    let in_square = |x: usize, y: usize, cx: usize, cy: usize| {
        x >= cx - 8 && x < cx + 8 && y >= cy - 8 && y < cy + 8
    };
    let mut prev = vec![0u32; w * h];
    let next = frame(w, h, |x, y| {
        if in_square(x, y, 64, 64) || in_square(x, y, 192, 192) {
            WHITE
        } else {
            0
        }
    });
    let mut rects: Vec<Rect> = Vec::new();
    QuadtreeComparator::compare(&mut prev, &next, w, w, h, &mut rects);
    assert_eq!(rects.len(), 2);
    let mut sorted = rects.clone();
    sorted.sort_by_key(|r| r.x0);
    assert_eq!(sorted[0], Rect { x0: 56, y0: 56, x1: 72, y1: 72 });
    assert_eq!(sorted[1], Rect { x0: 184, y0: 184, x1: 200, y1: 200 });
    check_prev_synced(&prev, &next);
}

#[test]
fn identical_frames_give_no_rectangles() {
    // two back-to-back identical frames: every detector reports nothing
    let w = 96;
    let h = 80;
    let next = frame(w, h, |x, y| ((x * 7 + y * 13) as u32) * 0x1_0101);

    let mut prev = vec![0u32; w * h];
    let mut rects: Vec<Rect> = Vec::new();
    BlockComparator::compare(&mut prev, &next, w, w, h, &mut rects);
    rects.clear();
    BlockComparator::compare(&mut prev, &next, w, w, h, &mut rects);
    assert!(rects.is_empty());

    let mut prev = vec![0u32; w * h];
    let mut rects: Vec<Rect> = Vec::new();
    StripComparator::compare(&mut prev, &next, w, w, h, &mut rects);
    rects.clear();
    StripComparator::compare(&mut prev, &next, w, w, h, &mut rects);
    assert!(rects.is_empty());

    let mut prev = vec![0u32; w * h];
    let mut rects: Vec<Rect> = Vec::new();
    QuadtreeComparator::compare(&mut prev, &next, w, w, h, &mut rects);
    rects.clear();
    QuadtreeComparator::compare(&mut prev, &next, w, w, h, &mut rects);
    assert!(rects.is_empty());
}

#[test]
fn empty_frame_emits_nothing() {
    // a zero-area frame holds no pixels: every detector reports nothing and
    // touches nothing
    let mut prev: Vec<u32> = Vec::new();
    let next: Vec<u32> = Vec::new();
    let mut rects: Vec<Rect> = Vec::new();
    BlockComparator::compare(&mut prev, &next, 0, 0, 0, &mut rects);
    StripComparator::compare(&mut prev, &next, 0, 0, 0, &mut rects);
    QuadtreeComparator::compare(&mut prev, &next, 0, 0, 0, &mut rects);
    assert!(rects.is_empty());

    // a frame with rows but no columns likewise
    let mut prev = vec![7u32; 16];
    let next = vec![9u32; 16];
    BlockComparator::compare(&mut prev, &next, 4, 0, 4, &mut rects);
    StripComparator::compare(&mut prev, &next, 4, 0, 4, &mut rects);
    QuadtreeComparator::compare(&mut prev, &next, 4, 0, 4, &mut rects);
    assert!(rects.is_empty());
    assert_eq!(prev, vec![7u32; 16]);
}

#[test]
fn rects_confined_to_their_tiles() {
    // block rectangles stay inside one 64x64 tile, strip rectangles inside
    // one width-64 strip with at most 128 merged rows
    let w = 200;
    let h = 300;
    let next = frame(w, h, |x, y| if (x + y) % 97 == 0 { WHITE } else { 0 });
    let mut prev = vec![0u32; w * h];
    let mut rects: Vec<Rect> = Vec::new();
    BlockComparator::compare(&mut prev, &next, w, w, h, &mut rects);
    for r in &rects {
        assert!(r.x1 <= (r.x0 / 64) * 64 + 64);
        assert!(r.y1 <= (r.y0 / 64) * 64 + 64);
    }
    let mut prev = vec![0u32; w * h];
    rects.clear();
    StripComparator::compare(&mut prev, &next, w, w, h, &mut rects);
    for r in &rects {
        assert!(r.x1 <= (r.x0 / 64) * 64 + 64);
        assert!(r.y1 - r.y0 <= 128);
    }
}

#[test]
fn block_tight_box_per_block() {
    // one changed pixel gives exactly its 1x1 bounding box
    let w = 64;
    let h = 64;
    let mut prev = vec![0u32; w * h];
    let next = frame(w, h, |x, y| if (x, y) == (10, 20) { 0x123456 } else { 0 });
    let mut rects: Vec<Rect> = Vec::new();
    BlockComparator::compare(&mut prev, &next, w, w, h, &mut rects);
    assert_eq!(rects, vec![Rect { x0: 10, y0: 20, x1: 11, y1: 21 }]);
    check_prev_synced(&prev, &next);
}

#[test]
fn alpha_byte_is_masked_out() {
    // a change only in the undefined top byte is no change
    let w = 64;
    let h = 64;
    let mut prev = vec![0u32; w * h];
    let base = frame(w, h, |_, _| 0x0011_2233);
    let mut rects: Vec<Rect> = Vec::new();
    StripComparator::compare(&mut prev, &base, w, w, h, &mut rects);
    assert!(!rects.is_empty());
    let with_alpha = frame(w, h, |_, _| 0xab11_2233);
    rects.clear();
    StripComparator::compare(&mut prev, &with_alpha, w, w, h, &mut rects);
    assert!(rects.is_empty());
    check_prev_synced(&prev, &with_alpha);
}

#[test]
fn detectors_cover_every_changed_pixel() {
    // scattered change: the union of the rectangles covers every difference
    let w = 150;
    let h = 90;
    let next = frame(w, h, |x, y| {
        if (x * 31 + y * 17) % 23 == 0 {
            (x as u32) << 8 | y as u32
        } else {
            0
        }
    });
    let run = |rects: &mut Vec<Rect>, prev: &mut Vec<u32>, which: usize| {
        match which {
            0 => BlockComparator::compare(prev, &next, w, w, h, rects),
            1 => StripComparator::compare(prev, &next, w, w, h, rects),
            _ => QuadtreeComparator::compare(prev, &next, w, w, h, rects),
        };
    };
    for which in 0..3 {
        let mut prev = vec![0u32; w * h];
        let prev0 = prev.clone();
        let mut rects: Vec<Rect> = Vec::new();
        run(&mut rects, &mut prev, which);
        for y in 0..h {
            for x in 0..w {
                if prev0[y * w + x] != masked(next[y * w + x]) {
                    assert!(covers(&rects, x, y), "detector {which} missed ({x},{y})");
                }
            }
        }
        check_prev_synced(&prev, &next);
        for r in &rects {
            assert!(r.x0 < r.x1 && r.x1 <= w && r.y0 < r.y1 && r.y1 <= h);
        }
    }
}
