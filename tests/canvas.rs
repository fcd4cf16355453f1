use pixengine::canvas::PixelBuffer;
use pixengine::error::EngineError;

fn snapshot(fb: &PixelBuffer) -> Vec<[u8; 4]> {
    let mut out = Vec::new();
    for y in 0..fb.height() as i32 {
        for x in 0..fb.width() as i32 {
            out.push(fb.get(x, y).unwrap());
        }
    }
    out
}

fn canvas(w: u32, h: u32) -> PixelBuffer {
    match PixelBuffer::new(w, h) {
        Ok(fb) => fb,
        Err(e) => panic!("canvas refused: {:?}", e),
    }
}

#[test]
fn new_canvas_is_opaque_black() {
    let fb = canvas(4, 3);
    assert_eq!(fb.width(), 4);
    assert_eq!(fb.height(), 3);
    assert!(snapshot(&fb).iter().all(|p| *p == [0, 0, 0, 255]));
    assert_eq!(snapshot(&fb).len(), 12);
}

#[test]
fn new_rejects_empty_dimensions() {
    assert!(matches!(PixelBuffer::new(0, 5), Err(EngineError::EmptyDimensions)));
    assert!(matches!(PixelBuffer::new(5, 0), Err(EngineError::EmptyDimensions)));
}

#[test]
fn new_rejects_oversized_canvas() {
    assert!(matches!(PixelBuffer::new(u32::MAX, u32::MAX), Err(EngineError::CanvasTooLarge)));
}

#[test]
fn get_outside_is_none() {
    let fb = canvas(2, 2);
    assert_eq!(fb.get(-1, 0), None);
    assert_eq!(fb.get(0, 2), None);
    assert_eq!(fb.get(2, 0), None);
}

#[test]
fn put_then_read_in_bounds() {
    let mut fb = canvas(5, 4);
    fb.put(3, 2, [1, 2, 3, 4]);
    assert_eq!(fb.get(3, 2), Some([1, 2, 3, 4]));
    assert_eq!(fb.get(2, 3), Some([0, 0, 0, 255]));
    assert_eq!(fb.get(2, 2), Some([0, 0, 0, 255]));
}

#[test]
fn put_outside_leaves_canvas_unchanged() {
    let mut fb = canvas(5, 4);
    fb.put(1, 1, [9, 9, 9, 9]);
    let before = snapshot(&fb);
    fb.put(-1, 0, [200, 0, 0, 255]);
    fb.put(0, -1, [200, 0, 0, 255]);
    fb.put(5, 0, [200, 0, 0, 255]);
    fb.put(0, 4, [200, 0, 0, 255]);
    fb.put(i32::MIN, i32::MAX, [200, 0, 0, 255]);
    assert_eq!(snapshot(&fb), before);
}

#[test]
fn clear_forces_alpha_opaque() {
    let mut fb = canvas(3, 3);
    fb.put(1, 1, [5, 5, 5, 5]);
    fb.clear([10, 20, 30, 40]);
    assert!(snapshot(&fb).iter().all(|p| *p == [10, 20, 30, 255]));
    fb.clear([0, 0, 0, 255]);
    assert!(snapshot(&fb).iter().all(|p| *p == [0, 0, 0, 255]));
}

#[test]
fn zero_length_line_writes_one_pixel() {
    let mut fb = canvas(5, 5);
    let before = snapshot(&fb);
    fb.line(2, 3, 2, 3, [7, 7, 7, 255]);
    let after = snapshot(&fb);
    let changed: Vec<usize> = (0..after.len()).filter(|&i| after[i] != before[i]).collect();
    assert_eq!(changed, vec![3 * 5 + 2]);
}

#[test]
fn horizontal_line_covers_both_ends() {
    let mut fb = canvas(6, 3);
    fb.line(4, 1, 0, 1, [1, 1, 1, 255]);
    for x in 0..6 {
        let expect = if x <= 4 { [1, 1, 1, 255] } else { [0, 0, 0, 255] };
        assert_eq!(fb.get(x, 1), Some(expect));
    }
    assert_eq!(fb.get(0, 0), Some([0, 0, 0, 255]));
}

#[test]
fn diagonal_line_is_one_cell_per_step() {
    let mut fb = canvas(5, 5);
    fb.line(0, 0, 3, 3, [2, 2, 2, 255]);
    let after = snapshot(&fb);
    let lit: Vec<usize> = (0..after.len()).filter(|&i| after[i] == [2, 2, 2, 255]).collect();
    assert_eq!(lit, vec![0, 6, 12, 18]);
}

#[test]
fn shallow_line_matches_bresenham() {
    let mut fb = canvas(6, 3);
    fb.line(0, 0, 4, 2, [3, 3, 3, 255]);
    let mut lit = Vec::new();
    for y in 0..3 {
        for x in 0..6 {
            if fb.get(x, y) == Some([3, 3, 3, 255]) {
                lit.push((x, y));
            }
        }
    }
    assert_eq!(lit, vec![(0, 0), (1, 1), (2, 1), (3, 2), (4, 2)]);
}

#[test]
fn line_is_clipped_per_pixel() {
    let mut fb = canvas(3, 3);
    fb.line(-2, 1, 5, 1, [4, 4, 4, 255]);
    for x in 0..3 {
        assert_eq!(fb.get(x, 1), Some([4, 4, 4, 255]));
        assert_eq!(fb.get(x, 0), Some([0, 0, 0, 255]));
        assert_eq!(fb.get(x, 2), Some([0, 0, 0, 255]));
    }
}

#[test]
fn transparent_blit_changes_nothing() {
    let mut fb = canvas(6, 6);
    fb.clear([12, 34, 56, 255]);
    fb.put(2, 2, [1, 2, 3, 4]);
    let before = snapshot(&fb);
    let sprite = vec![[255, 255, 255, 0]; 16];
    fb.blit_rgba(1, 1, 4, 4, &sprite);
    assert_eq!(snapshot(&fb), before);
}

#[test]
fn opaque_blit_copies_pixels() {
    let mut fb = canvas(6, 5);
    fb.clear([9, 9, 9, 255]);
    let sprite: Vec<[u8; 4]> = (0..6u8).map(|i| [i, 10 + i, 20 + i, 255]).collect();
    fb.blit_rgba(2, 1, 3, 2, &sprite);
    for j in 0..2 {
        for i in 0..3 {
            let k = (j * 3 + i) as usize;
            assert_eq!(fb.get(2 + i, 1 + j), Some(sprite[k]));
        }
    }
    assert_eq!(fb.get(1, 1), Some([9, 9, 9, 255]));
    assert_eq!(fb.get(5, 1), Some([9, 9, 9, 255]));
    assert_eq!(fb.get(2, 3), Some([9, 9, 9, 255]));
}

#[test]
fn half_alpha_blit_blends_and_forces_opaque() {
    let mut fb = canvas(2, 1);
    fb.clear([0, 0, 255, 255]);
    fb.blit_rgba(0, 0, 1, 1, &[[255, 0, 0, 128]]);
    // (255*128 + 0*127) / 255 = 128 and (0*128 + 255*127) / 255 = 127
    assert_eq!(fb.get(0, 0), Some([128, 0, 127, 255]));
    assert_eq!(fb.get(1, 0), Some([0, 0, 255, 255]));
}

#[test]
fn blend_rounds_down() {
    let mut fb = canvas(1, 1);
    fb.clear([100, 200, 0, 255]);
    fb.blit_rgba(0, 0, 1, 1, &[[50, 10, 255, 1]]);
    // (50*1 + 100*254) / 255 = 99, (10*1 + 200*254) / 255 = 199, (255 + 0) / 255 = 1
    assert_eq!(fb.get(0, 0), Some([99, 199, 1, 255]));
}

#[test]
fn blit_is_clipped_at_edges() {
    let mut fb = canvas(3, 3);
    let sprite = vec![[50, 60, 70, 255]; 4];
    fb.blit_rgba(-1, 2, 2, 2, &sprite);
    assert_eq!(fb.get(0, 2), Some([50, 60, 70, 255]));
    assert_eq!(fb.get(1, 2), Some([0, 0, 0, 255]));
    assert_eq!(fb.get(0, 1), Some([0, 0, 0, 255]));
}

#[test]
fn bytes_follow_row_major_rgba_order() {
    let mut fb = canvas(2, 2);
    fb.put(1, 0, [1, 2, 3, 4]);
    fb.put(0, 1, [5, 6, 7, 8]);
    assert_eq!(
        fb.to_rgba_bytes(),
        vec![0, 0, 0, 255, 1, 2, 3, 4, 5, 6, 7, 8, 0, 0, 0, 255]
    );
}

#[test]
fn steep_reversed_line_keeps_both_ends() {
    let mut fb = canvas(3, 6);
    fb.line(1, 4, 0, 0, [6, 6, 6, 255]);
    assert_eq!(fb.get(1, 4), Some([6, 6, 6, 255]));
    assert_eq!(fb.get(0, 0), Some([6, 6, 6, 255]));
    let lit = snapshot(&fb).iter().filter(|p| **p == [6, 6, 6, 255]).count();
    assert_eq!(lit, 5);
}

#[test]
fn clone_is_an_independent_copy() {
    let mut fb = canvas(3, 2);
    fb.put(2, 1, [7, 8, 9, 10]);
    let copy = fb.clone();
    fb.put(2, 1, [1, 1, 1, 1]);
    fb.put(0, 0, [2, 2, 2, 2]);
    assert_eq!(copy.width(), 3);
    assert_eq!(copy.height(), 2);
    assert_eq!(copy.get(2, 1), Some([7, 8, 9, 10]));
    assert_eq!(copy.get(0, 0), Some([0, 0, 0, 255]));
}

#[test]
fn put_at_last_cell_and_just_past_it() {
    let mut fb = canvas(320, 180);
    fb.put(319, 179, [1, 2, 3, 4]);
    let after = snapshot(&fb);
    let changed: Vec<usize> = (0..after.len()).filter(|&i| after[i] != [0, 0, 0, 255]).collect();
    assert_eq!(changed, vec![179 * 320 + 319]);
    let before = snapshot(&fb);
    fb.put(320, 179, [255, 0, 0, 255]);
    assert_eq!(snapshot(&fb), before);
}

#[test]
fn line_cell_count_is_major_span_plus_one() {
    for &(x1, y1) in &[(7, 3), (3, 7), (-5, 2), (4, -4), (0, -6)] {
        let mut fb = canvas(20, 20);
        fb.line(10, 10, 10 + x1, 10 + y1, [5, 5, 5, 255]);
        let lit = snapshot(&fb).iter().filter(|p| **p == [5, 5, 5, 255]).count();
        let major = std::cmp::max(i32::abs(x1), i32::abs(y1)) as usize;
        assert_eq!(lit, major + 1);
    }
}
