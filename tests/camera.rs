use pixengine::camera::{scaled_extent, Camera};
use pixengine::canvas::PixelBuffer;
use pixengine::error::EngineError;

fn camera(w: u32, h: u32) -> Camera {
    match Camera::new(w, h) {
        Ok(c) => c,
        Err(e) => panic!("camera refused: {:?}", e),
    }
}

const MAGENTA: [u8; 4] = [255, 0, 255, 255];

#[test]
fn sprite_follows_camera_move() {
    let mut fb = PixelBuffer::new(320, 180).unwrap();
    let mut cam = camera(320, 180);
    let sprite = vec![MAGENTA; 64];
    assert_eq!(cam.world_to_screen(10, 20), (10, 20));
    fb.blit_to_camera(&cam, 8, 8, &sprite, 10, 20);
    assert_eq!(fb.get(10, 20), Some(MAGENTA));
    assert_eq!(fb.get(17, 27), Some(MAGENTA));
    assert_eq!(fb.get(18, 27), Some([0, 0, 0, 255]));
    cam.set_position(10, 20);
    assert_eq!(cam.world_to_screen(10, 20), (0, 0));
    fb.clear([0, 0, 0, 255]);
    fb.blit_to_camera(&cam, 8, 8, &sprite, 10, 20);
    assert_eq!(fb.get(0, 0), Some(MAGENTA));
    assert_eq!(fb.get(7, 7), Some(MAGENTA));
    assert_eq!(fb.get(8, 8), Some([0, 0, 0, 255]));
}

#[test]
fn offscreen_sprite_is_skipped() {
    let mut fb = PixelBuffer::new(16, 16).unwrap();
    let cam = camera(16, 16);
    let sprite = vec![MAGENTA; 4];
    fb.blit_to_camera(&cam, 2, 2, &sprite, 16, 0);
    fb.blit_to_camera(&cam, 2, 2, &sprite, -2, 0);
    fb.blit_to_camera(&cam, 2, 2, &sprite, 0, -2);
    for y in 0..16 {
        for x in 0..16 {
            assert_eq!(fb.get(x, y), Some([0, 0, 0, 255]));
        }
    }
    fb.blit_to_camera(&cam, 2, 2, &sprite, -1, -1);
    assert_eq!(fb.get(0, 0), Some(MAGENTA));
}

#[test]
fn zoom_widens_only_the_culling_box() {
    let mut fb = PixelBuffer::new(16, 16).unwrap();
    let mut cam = camera(16, 16);
    cam.set_zoom(2, 1).unwrap();
    let sprite = vec![MAGENTA; 4];
    // world -1 maps to screen -2; the zoomed box [-2, 2) meets the viewport,
    // the unscaled sprite covers [-2, 0) and so draws nothing.
    fb.blit_to_camera(&cam, 2, 2, &sprite, -1, 0);
    assert_eq!(fb.get(0, 0), Some([0, 0, 0, 255]));
    fb.blit_to_camera(&cam, 2, 2, &sprite, 1, 1);
    assert_eq!(fb.get(2, 2), Some(MAGENTA));
    assert_eq!(fb.get(3, 3), Some(MAGENTA));
    assert_eq!(fb.get(4, 4), Some([0, 0, 0, 255]));
}

#[test]
fn world_to_screen_floors_negative_coordinates() {
    let mut cam = camera(320, 180);
    cam.set_zoom(1, 2).unwrap();
    assert_eq!(cam.world_to_screen(-1, -3), (-1, -2));
    assert_eq!(cam.world_to_screen(3, 4), (1, 2));
    cam.set_position(5, 5);
    assert_eq!(cam.world_to_screen(0, 4), (-3, -1));
}

#[test]
fn screen_to_world_inverts_translation() {
    let mut cam = camera(320, 180);
    cam.set_position(-7, 12);
    let (sx, sy) = cam.world_to_screen(30, -40);
    assert_eq!((sx, sy), (37, -52));
    assert_eq!(cam.screen_to_world(sx, sy), (30, -40));
    cam.set_zoom(3, 1).unwrap();
    assert_eq!(cam.world_to_screen(1, 12), (24, 0));
    assert_eq!(cam.screen_to_world(25, -1), (1, 11));
}

#[test]
fn mapping_saturates_at_integer_range() {
    let mut cam = camera(320, 180);
    cam.set_zoom(4, 1).unwrap();
    assert_eq!(cam.world_to_screen(i32::MAX, i32::MIN), (i32::MAX, i32::MIN));
}

#[test]
fn visible_tiles_cover_viewport_with_margin() {
    let mut cam = camera(320, 180);
    cam.set_position(-5, 17);
    assert_eq!(cam.visible_tiles(16), (-1, 1, 21, 14));
    cam.set_position(0, 0);
    assert_eq!(cam.visible_tiles(16), (0, 0, 22, 13));
    assert_eq!(cam.visible_tiles(1000), (0, 0, 2, 2));
}

#[test]
fn zoom_must_be_positive() {
    let mut cam = camera(8, 8);
    assert_eq!(cam.set_zoom(0, 1), Err(EngineError::InvalidZoom));
    assert_eq!(cam.set_zoom(1, 0), Err(EngineError::InvalidZoom));
    assert_eq!(cam.zoom_num(), 1);
    assert_eq!(cam.zoom_den(), 1);
    assert_eq!(cam.set_zoom(3, 2), Ok(()));
    assert_eq!((cam.zoom_num(), cam.zoom_den()), (3, 2));
}

#[test]
fn empty_viewport_is_refused() {
    assert!(matches!(Camera::new(0, 180), Err(EngineError::EmptyDimensions)));
    assert!(matches!(Camera::new(320, 0), Err(EngineError::EmptyDimensions)));
    let cam = camera(320, 180);
    assert_eq!((cam.x(), cam.y(), cam.viewport_w(), cam.viewport_h()), (0, 0, 320, 180));
}

#[test]
fn scaled_extent_rounds_up() {
    assert_eq!(scaled_extent(8, 1, 1), 8);
    assert_eq!(scaled_extent(8, 3, 2), 12);
    assert_eq!(scaled_extent(7, 1, 2), 4);
    assert_eq!(scaled_extent(u32::MAX, u32::MAX, 1), i32::MAX);
}

#[test]
fn round_trip_at_fractional_zoom_is_within_one() {
    let mut cam = camera(320, 180);
    cam.set_zoom(3, 2).unwrap();
    // 5 * 3 / 2 = 7.5 -> 7; 7 * 2 / 3 = 4.67 -> 4
    assert_eq!(cam.world_to_screen(5, -5), (7, -8));
    assert_eq!(cam.screen_to_world(7, -8), (4, -6));
    for w in -20..20 {
        let (s, _) = cam.world_to_screen(w, 0);
        let (back, _) = cam.screen_to_world(s, 0);
        assert!(back == w || back == w - 1);
    }
}
