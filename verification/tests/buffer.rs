use oslo::edit::buffer::Buffer;

fn at(text: &str, cursor: usize) -> Buffer {
    let mut b = Buffer::new();
    b.set(text, cursor);
    b
}

#[test]
fn every_kill_is_put_back_by_a_yank() {
    let kills: [fn(&mut Buffer) -> bool; 5] = [
        Buffer::kill_to_end,
        Buffer::kill_to_start,
        Buffer::kill_word_left,
        Buffer::kill_word_right,
        Buffer::kill_space_word_left,
    ];
    for kill in kills {
        let mut b = at("git commit -m msg", 7);
        assert!(kill(&mut b));
        assert_ne!(b.text(), "git commit -m msg");
        assert!(b.yank());
        assert_eq!(b.text(), "git commit -m msg");
    }
}

#[test]
fn a_yank_with_nothing_killed_changes_nothing() {
    let mut b = Buffer::from_text("echo hi");
    assert!(!b.yank());
    assert_eq!(b.text(), "echo hi");
    assert_eq!(b.cursor(), 7);
}

#[test]
fn the_cursor_lands_after_what_was_put_back() {
    let mut b = at("one two three", 4);
    assert!(b.kill_word_right());
    assert_eq!(b.text(), "one  three");
    assert!(b.yank());
    assert_eq!(b.cursor(), 7);
}
