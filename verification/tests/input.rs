use rust_renderer::input::{
    block_action, client_area_on_screen, cursor_offset, plan_capture, BlockAction, ButtonRepeat, Rect,
};

#[test]
fn centre_of_a_rect() {
    let r = Rect { left: 100, top: 50, right: 901, bottom: 651 };
    assert_eq!(r.center(), (500, 350));
    let r = Rect { left: -1921, top: -10, right: -1, bottom: 1 };
    assert_eq!(r.center(), (-961, -4));
}

#[test]
fn client_area() {
    let client = Rect { left: 0, top: 0, right: 800, bottom: 600 };
    let r = client_area_on_screen((10, 20), client);
    assert_eq!((r.left, r.top, r.right, r.bottom), (10, 20, 810, 620));
}

#[test]
fn offsets() {
    assert_eq!(cursor_offset((510, 300), (500, 350)), (10, -50));
}

#[test]
fn button_fires_on_press() {
    let mut b = ButtonRepeat::new();
    assert!(b.sample(true, false));
    assert!(!b.sample(true, false));
    assert!(b.sample(true, true));
    assert!(!b.sample(false, true));
    assert!(b.sample(true, false));
    b.forget();
    assert!(!b.was_pressed);
    assert!(b.sample(true, false));
}

#[test]
fn capture_plans() {
    let p = plan_capture(true, false, true);
    assert!(p.steer && !p.release_mouse);
    let p = plan_capture(true, true, true);
    assert!(p.release_mouse && !p.steer);
    let p = plan_capture(true, false, false);
    assert!(p.release_mouse && !p.steer);
    let p = plan_capture(false, true, false);
    assert!(!p.release_mouse && !p.steer);
}

#[test]
fn block_actions() {
    assert_eq!(block_action(true, true, true, true), BlockAction::Break);
    assert_eq!(block_action(true, true, false, true), BlockAction::Place);
    assert_eq!(block_action(true, true, false, false), BlockAction::Nothing);
    assert_eq!(block_action(true, false, true, true), BlockAction::Nothing);
    assert_eq!(block_action(false, true, true, true), BlockAction::Nothing);
}
