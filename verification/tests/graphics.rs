use mdroll::graphics::{contains, device_attributes_seen, parse_cell_size, transmit, CellSize, Entry, ImageStore, Origin, Probe, Protocol, CHUNK};

#[test]
fn a_device_attributes_reply_ends_the_wait() {
    assert!(device_attributes_seen(b"\x1b[?62;4;6;22c"));
    assert!(!device_attributes_seen(b"\x1b[?62;4"));
    assert!(!device_attributes_seen(b""));
    assert!(!device_attributes_seen(b"c\x1b[?62"));
}

#[test]
fn a_graphics_reply_is_recognised_among_the_others() {
    let reply = b"\x1b_Gi=31;OK\x1b\\\x1b[6;38;19t\x1b[?62;4c";
    assert!(contains(reply, b"_Gi=31;OK"));
    assert!(device_attributes_seen(reply));
    assert_eq!(parse_cell_size(reply), Some(CellSize { w: 19, h: 38 }));
}

#[test]
fn a_terminal_that_will_not_say_its_cell_size_is_not_guessed_at() {
    assert_eq!(parse_cell_size(b"\x1b[?62;4c"), None);
    assert_eq!(parse_cell_size(b"\x1b[6;0;0t"), None);
    assert_eq!(parse_cell_size(b"\x1b[6;38t"), None);
    assert_eq!(parse_cell_size(b"\x1b[6;38;19"), None);
}

#[test]
fn tmux_disables_graphics() {
    assert!(!Protocol::Off.available());
    assert!(Protocol::Kitty.available());
}

#[test]
fn cell_size_fields_are_trimmed_and_must_fit() {
    assert_eq!(parse_cell_size(b"\x1b[6; 20 ; 10 t"), Some(CellSize { w: 10, h: 20 }));
    assert_eq!(parse_cell_size(b"\x1b[6;70000;10t"), None);
    assert_eq!(parse_cell_size(b"\x1b[6;\xff;10t"), None);
}

#[test]
fn a_terminal_that_was_not_asked_says_nothing() {
    let p = Probe::default();
    assert_eq!(p.protocol, None);
    assert_eq!(p.cell, None);
    assert_eq!(CellSize::default(), CellSize { w: 8, h: 16 });
    assert!(!contains(b"abc", b"abd"));
}

const CELL: CellSize = CellSize { w: 10, h: 20 };

fn no_files(_path: String, _target: (u32, u32)) -> Option<Vec<u8>> {
    None
}

#[test]
fn a_disabled_store_emits_nothing() {
    let mut store = ImageStore::disabled();
    let mut out = String::new();
    store.begin_frame();
    assert!(!store.place(&mut out, 0, 10, 5, 0, 5, &no_files));
    store.end_frame(&mut out);
    assert!(out.is_empty());
}

#[test]
fn a_placement_that_stays_on_screen_is_never_deleted() {
    let mut store = ImageStore::new(Protocol::Kitty, CELL);
    store.uploaded.insert(0, Entry { kitty_id: 9, cols: 4, rows: 2 });
    for _ in 0..3 {
        let mut out = String::new();
        store.begin_frame();
        store.place(&mut out, 0, 4, 2, 0, 2, &no_files);
        store.end_frame(&mut out);
        assert!(out.contains("a=p,i=9,p=9"), "{out:?}");
        assert!(!out.contains("a=d"), "still visible, so never deleted");
    }
}

#[test]
fn a_placement_that_scrolls_away_is_deleted_and_forgotten() {
    let mut store = ImageStore::new(Protocol::Kitty, CELL);
    store.uploaded.insert(0, Entry { kitty_id: 9, cols: 4, rows: 2 });
    store.origin.insert(9, Origin::Image(0));
    let mut out = String::new();
    store.begin_frame();
    store.place(&mut out, 0, 4, 2, 0, 2, &no_files);
    store.end_frame(&mut out);
    let mut out = String::new();
    store.begin_frame();
    store.end_frame(&mut out);
    assert!(out.contains("a=d,d=i,i=9,p=9"), "{out:?}");
    assert!(!store.uploaded.contains_key(&0));
}

#[test]
fn a_re_upload_survives_the_old_placement_being_retired() {
    let mut store = ImageStore::new(Protocol::Kitty, CELL);
    store.uploaded.insert(0, Entry { kitty_id: 9, cols: 4, rows: 2 });
    store.origin.insert(9, Origin::Image(0));
    let mut out = String::new();
    store.begin_frame();
    store.place(&mut out, 0, 4, 2, 0, 2, &no_files);
    store.end_frame(&mut out);
    store.begin_frame();
    store.uploaded.insert(0, Entry { kitty_id: 10, cols: 8, rows: 4 });
    store.origin.insert(10, Origin::Image(0));
    let mut out = String::new();
    store.place(&mut out, 0, 8, 4, 0, 4, &no_files);
    store.end_frame(&mut out);
    assert!(out.contains("a=d,d=i,i=9"), "the old one goes: {out:?}");
    assert_eq!(store.uploaded.get(&0).map(|e| e.kitty_id), Some(10));
}

#[test]
fn transmission_is_chunked_with_a_continuation_flag() {
    let mut out = String::new();
    let png = vec![0u8; CHUNK * 2];
    transmit(&mut out, 7, &png);
    assert!(out.starts_with("\x1b_Ga=t,f=100,i=7,q=2,m=1;"));
    assert!(out.contains("\x1b_Gm=1;"), "middle chunks continue");
    assert!(out.contains("\x1b_Gm=0;"), "the last chunk ends the sequence");
}

#[test]
fn a_short_image_transmits_in_one_chunk() {
    let mut out = String::new();
    transmit(&mut out, 3, b"tiny");
    assert!(out.starts_with("\x1b_Ga=t,f=100,i=3,q=2,m=0;"));
    assert_eq!(out.matches("\x1b_G").count(), 1);
}

#[test]
fn re_registering_a_different_path_invalidates_the_upload() {
    let mut store = ImageStore::new(Protocol::Kitty, CELL);
    store.register(0, "a.png".to_string());
    store.uploaded.insert(0, Entry { kitty_id: 1, cols: 4, rows: 4 });
    store.register(0, "b.png".to_string());
    assert!(store.uploaded.is_empty());
}

#[test]
fn placement_crops_the_top_when_scrolled_partly_off_screen() {
    let mut store = ImageStore::new(Protocol::Kitty, CELL);
    store.uploaded.insert(0, Entry { kitty_id: 9, cols: 10, rows: 8 });
    let mut out = String::new();
    assert!(store.place(&mut out, 0, 10, 8, 3, 5, &no_files));
    assert!(out.contains("i=9"));
    assert!(out.contains("r=5"), "only the visible rows are placed");
    assert!(out.contains("y=60"), "three rows of 20px are cropped off");
    assert!(out.contains("h=100"));
    assert!(out.contains("C=1"), "the cursor must not move");
}

#[test]
fn an_image_not_yet_on_the_terminal_is_sent_once_under_a_fresh_id() {
    let mut store = ImageStore::new(Protocol::Kitty, CELL);
    store.register(4, "pic.png".to_string());
    let encode = |path: String, target: (u32, u32)| {
        assert_eq!(path, "pic.png");
        assert_eq!(target, (30, 40));
        Some(vec![1u8, 2, 3])
    };
    let mut out = String::new();
    assert!(store.place(&mut out, 4, 3, 2, 0, 2, &encode));
    assert!(out.starts_with("\x1b_Ga=t,f=100,i=1,q=2,m=0;AQID\x1b\\"), "{out:?}");
    assert!(out.contains("\x1b_Ga=p,i=1,p=1,c=3,r=2,x=0,y=0,w=30,h=40,C=1,q=2"));
    assert_eq!(store.next_id, 2);
    let mut again = String::new();
    assert!(store.place(&mut again, 4, 3, 2, 0, 2, &encode));
    assert!(!again.contains("a=t"), "already on the terminal: {again:?}");
    assert!(!store.place(&mut again, 5, 3, 2, 0, 2, &encode), "no file registered");
}
