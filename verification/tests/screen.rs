use mdroll::screen::{Screen, Viewport};

#[test]
fn the_viewport_is_one_row_shorter_than_the_screen() {
    let screen = Screen::new(80, 24);
    assert_eq!(screen.viewport().rows, 23);
    assert_eq!(screen.viewport().cols, 80);
    assert_eq!(screen.status_row(), 23);
}

#[test]
fn a_zero_height_screen_does_not_underflow() {
    let screen = Screen::new(80, 0);
    assert_eq!(screen.viewport().rows, 0);
    assert_eq!(screen.status_row(), 0);
}

#[test]
fn a_viewport_keeps_what_it_is_given() {
    let v = Viewport::new(40, 10);
    assert_eq!((v.cols, v.rows), (40, 10));
}
