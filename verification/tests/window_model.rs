use arplay::window::H264Window;

#[test]
fn starts_without_display() {
    let w = H264Window::new(String::from("peer"));
    assert!(!w.is_shown());
    assert_eq!(w.size(), (0, 0));
    assert_eq!(w.width(), 0);
    assert_eq!(w.height(), 0);
    assert_eq!(w.position(), None);
    assert_eq!(w.name().as_str(), "peer");
}

#[test]
fn first_draw_fixes_intrinsic_size() {
    let mut w = H264Window::new(String::from("peer"));
    w.draw(640, 480);
    assert!(w.is_shown());
    assert_eq!(w.size(), (640, 480));
    w.draw(1920, 1080);
    assert_eq!(w.size(), (640, 480), "intrinsic size is fixed once established");
}

#[test]
fn set_position_without_display_is_noop() {
    let mut w = H264Window::new(String::from("peer"));
    w.set_position(5, 6);
    assert_eq!(w.position(), None);
    w.draw(100, 100);
    assert_eq!(w.position(), None);
    w.set_position(7, -8);
    assert_eq!(w.position(), Some((7, -8)));
}

#[test]
fn hiding_keeps_the_display_record() {
    let mut w = H264Window::new(String::from("peer"));
    w.draw(320, 200);
    w.hide_window();
    assert!(w.is_shown());
    assert_eq!(w.size(), (320, 200));
}
