use oslo::paint::Panel;

#[test]
fn the_first_frame_reserves_before_it_draws() {
    let mut panel = Panel::at(0);
    let out = panel.draw("\r\na\r\nb", 2);
    let newlines = out.find("\n\n").expect("rows are reserved first");
    let content = out.find('a').expect("content is drawn");
    assert!(newlines < content, "reserved after drawing: {out:?}");
    assert!(out.starts_with("\n\n\x1b[2A"), "{out:?}");
}

#[test]
fn rows_are_reserved_once() {
    let mut panel = Panel::at(0);
    panel.draw("\r\na\r\nb", 2);
    let second = panel.draw("\r\nc\r\nd", 2);
    assert!(!second.starts_with('\n'), "reserved twice: {second:?}");
    assert_eq!(panel.reserved(), 2);
}

#[test]
fn growing_reserves_only_the_extra_rows() {
    let mut panel = Panel::at(0);
    panel.draw("\r\na", 1);
    let taller = panel.draw("\r\na\r\nb\r\nc", 3);
    assert!(taller.starts_with("\n\n\x1b[2A"), "{taller:?}");
    assert_eq!(panel.reserved(), 3);
}

#[test]
fn shrinking_keeps_the_rows_and_clears_below() {
    let mut panel = Panel::at(0);
    panel.draw("\r\na\r\nb\r\nc", 3);
    let shorter = panel.draw("\r\na", 1);
    assert!(!shorter.starts_with('\n'), "{shorter:?}");
    assert!(shorter.contains("\x1b[J"), "nothing clears below: {shorter:?}");
    assert_eq!(panel.reserved(), 3, "rows are kept, not given back");
}

#[test]
fn the_cursor_returns_to_its_column() {
    let mut panel = Panel::at(12);
    let out = panel.draw("\r\na", 1);
    assert!(out.ends_with("\r\x1b[12C"), "{out:?}");
    let mut origin = Panel::at(0);
    let out = origin.draw("\r\na", 1);
    assert!(out.ends_with('\r'), "{out:?}");
}

#[test]
fn the_shared_save_slot_is_never_touched() {
    let mut panel = Panel::at(5);
    let drawn = panel.draw("\r\na\r\nb", 2);
    let closed = panel.close();
    for out in [&drawn, &closed] {
        assert!(!out.contains("\x1b7"), "saves the cursor: {out:?}");
        assert!(!out.contains("\x1b8"), "restores the cursor: {out:?}");
    }
}

#[test]
fn closing_erases_and_forgets() {
    let mut panel = Panel::at(3);
    panel.draw("\r\na\r\nb", 2);
    let closed = panel.close();
    assert!(closed.contains("\x1b[J"), "{closed:?}");
    assert!(closed.ends_with("\r\x1b[3C"), "{closed:?}");
    assert_eq!(panel.reserved(), 0);
    assert_eq!(panel.close(), "");
}

#[test]
fn closing_an_unused_panel_is_nothing() {
    assert_eq!(Panel::at(4).close(), "");
}

#[test]
fn a_frame_is_drawn_exactly() {
    let mut panel = Panel::at(2);
    assert_eq!(panel.draw("\r\nx", 1), "\n\x1b[1A\r\nx\x1b[J\x1b[1A\r\x1b[2C");
    assert_eq!(panel.close(), "\x1b[B\r\x1b[J\x1b[A\r\x1b[2C");
}
