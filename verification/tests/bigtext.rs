use mdroll::bigtext::{draw_decor, HeadingDecor};
use mdroll::clipboard::Route;
use mdroll::graphics::{CellSize, Protocol};
use mdroll::layout::Options;
use mdroll::session::{GraphicsInfo, Match};

fn pixel(canvas: &[u8], width: u32, x: u32, y: u32) -> [u8; 4] {
    let i = ((y * width + x) * 4) as usize;
    [canvas[i], canvas[i + 1], canvas[i + 2], canvas[i + 3]]
}

#[test]
fn a_border_sits_below_the_text_and_starts_where_the_text_does() {
    let (w, h) = (40u32, 32u32);
    let mut canvas = vec![0u8; (w * h * 4) as usize];
    let decor = HeadingDecor { border: Some((1, 2, 3)), bar: None };
    draw_decor(&mut canvas, w, h, CellSize { w: 8, h: 16 }, 10, 30, decor);
    // Thickness and gap are both two pixels for a 16-pixel cell.
    assert_eq!(pixel(&canvas, w, 10, 28), [1, 2, 3, 255]);
    assert_eq!(pixel(&canvas, w, 29, 29), [1, 2, 3, 255]);
    assert_eq!(pixel(&canvas, w, 9, 28), [0, 0, 0, 0]);
    assert_eq!(pixel(&canvas, w, 30, 28), [0, 0, 0, 0]);
    assert_eq!(pixel(&canvas, w, 15, 30), [0, 0, 0, 0]);
    assert_eq!(pixel(&canvas, w, 15, 27), [0, 0, 0, 0]);
}

#[test]
fn a_bar_stops_short_of_the_first_letter() {
    let (w, h) = (40u32, 20u32);
    let mut canvas = vec![0u8; (w * h * 4) as usize];
    let decor = HeadingDecor { border: None, bar: Some((9, 9, 9)) };
    draw_decor(&mut canvas, w, h, CellSize { w: 8, h: 16 }, 12, 30, decor);
    // A bar two pixels wide, four pixels in front of the text.
    assert_eq!(pixel(&canvas, w, 6, 0), [9, 9, 9, 255]);
    assert_eq!(pixel(&canvas, w, 7, 19), [9, 9, 9, 255]);
    assert_eq!(pixel(&canvas, w, 8, 5), [0, 0, 0, 0]);
    assert_eq!(pixel(&canvas, w, 5, 5), [0, 0, 0, 0]);
}

#[test]
fn a_heading_with_nothing_in_front_of_it_gets_no_bar_rather_than_a_smudged_letter() {
    let (w, h) = (20u32, 10u32);
    let mut canvas = vec![0u8; (w * h * 4) as usize];
    let decor = HeadingDecor { border: None, bar: Some((9, 9, 9)) };
    draw_decor(&mut canvas, w, h, CellSize { w: 8, h: 16 }, 3, 10, decor);
    assert!(canvas.iter().all(|b| *b == 0));
    assert!(HeadingDecor::default().is_none());
    assert!(!decor.is_none());
}

#[test]
fn small_types_keep_their_values() {
    assert_eq!(Route::System.label(), "clipboard");
    assert_eq!(Route::Osc52.label(), "clipboard (OSC 52)");
    let g = GraphicsInfo::disabled();
    assert_eq!(g.protocol, Protocol::Off);
    assert_eq!(g.cell, CellSize { w: 8, h: 16 });
    assert!(!g.raster_headings);
    let m = Match { line: 1, start: 2, end: 3 };
    assert_eq!(m.end - m.start, 1);
    let o = Options::default();
    assert!(o.wrap && !o.images);
    assert_eq!(o.reflow_width(80), 80);
    let capped = Options { max_width: 20, ..o };
    assert_eq!(capped.reflow_width(80), 20);
    assert_eq!(capped.reflow_width(10), 10);
}
