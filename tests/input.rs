use pixengine::arith::{div_to_floor, sprite_visible};
use pixengine::input::{InputEvent, InputLatch, Signal};

#[test]
fn repeated_press_reports_one_down() {
    let mut latch = InputLatch::new();
    assert_eq!(latch.apply(InputEvent::Press(7)), Some(Signal::KeyDown(7)));
    assert_eq!(latch.apply(InputEvent::Press(7)), None);
    assert!(latch.is_held(7));
    assert_eq!(latch.apply(InputEvent::Release(7)), Some(Signal::KeyUp(7)));
    assert_eq!(latch.apply(InputEvent::Release(7)), None);
    assert!(!latch.is_held(7));
}

#[test]
fn focus_loss_clears_without_key_up() {
    let mut latch = InputLatch::new();
    latch.apply(InputEvent::Press(1));
    latch.apply(InputEvent::Press(2));
    assert_eq!(latch.apply(InputEvent::Focus(true)), None);
    assert!(latch.is_held(1));
    assert_eq!(latch.apply(InputEvent::Focus(false)), Some(Signal::FocusLost));
    assert!(!latch.is_held(1));
    assert!(!latch.is_held(2));
    assert_eq!(latch.apply(InputEvent::Release(1)), None);
    assert_eq!(latch.apply(InputEvent::Press(2)), Some(Signal::KeyDown(2)));
}

#[test]
fn floor_division_rounds_down() {
    assert_eq!(div_to_floor(7, 2), 3);
    assert_eq!(div_to_floor(-7, 2), -4);
    assert_eq!(div_to_floor(7, -2), -4);
    assert_eq!(div_to_floor(-7, -2), 3);
    assert_eq!(div_to_floor(-6, 3), -2);
    assert_eq!(div_to_floor(0, -3), 0);
    assert_eq!(div_to_floor(i32::MIN, 1), i32::MIN);
    assert_eq!(div_to_floor(i32::MIN, -2), 1 << 30);
}

#[test]
fn visibility_is_rectangle_overlap() {
    assert!(sprite_visible(0, 0, 1, 1, 10, 10));
    assert!(sprite_visible(-7, -7, 8, 8, 10, 10));
    assert!(!sprite_visible(-8, 0, 8, 8, 10, 10));
    assert!(!sprite_visible(10, 0, 8, 8, 10, 10));
    assert!(!sprite_visible(0, 10, 8, 8, 10, 10));
    assert!(sprite_visible(i32::MAX - 1, 0, i32::MAX, 1, i32::MAX, 1));
    assert!(!sprite_visible(i32::MIN, 0, i32::MAX, 1, 10, 10));
}
