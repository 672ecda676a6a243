use oslo::marks::{base64, clipboard, Marks};

fn on() -> Marks {
    let mut m = Marks::new();
    m.set_enabled(true);
    m
}

#[test]
fn nothing_is_emitted_without_a_terminal() {
    let mut m = Marks::new();
    m.set_enabled(false);
    assert_eq!(m.prompt_start(), "");
    assert_eq!(m.output_start(), "");
    assert_eq!(m.command_end(0), "");
}

#[test]
fn one_block_carries_one_id_through_all_three_marks() {
    let mut m = on();
    m.set_next_id(7);
    let a = m.prompt_start();
    let c = m.output_start();
    let d = m.command_end(3);
    assert_eq!(a, "\x1b]133;A;aid=7\x1b\\");
    assert_eq!(c, "\x1b]133;C;aid=7\x1b\\");
    assert_eq!(d, "\x1b]133;D;3;aid=7\x1b\\");
    assert_eq!(m.prompt_start(), "\x1b]133;A;aid=8\x1b\\");
    assert_eq!(m.output_start(), "\x1b]133;C;aid=8\x1b\\");
}

#[test]
fn a_working_directory_is_percent_encoded() {
    let m = on();
    let osc = m.working_directory("/home/u/my dir/a#b");
    assert!(osc.contains("/home/u/my%20dir/a%23b"), "{osc:?}");
    assert!(!osc.contains("%2F"), "{osc:?}");
    assert!(osc.starts_with("\x1b]7;file://"), "{osc:?}");
    assert!(osc.ends_with("\x1b\\"), "{osc:?}");
}

#[test]
fn base64_matches_the_rfc_vectors() {
    assert_eq!(base64(b""), "");
    assert_eq!(base64(b"f"), "Zg==");
    assert_eq!(base64(b"fo"), "Zm8=");
    assert_eq!(base64(b"foo"), "Zm9v");
    assert_eq!(base64(b"foob"), "Zm9vYg==");
    assert_eq!(base64(b"fooba"), "Zm9vYmE=");
    assert_eq!(base64(b"foobar"), "Zm9vYmFy");
    assert_eq!(base64(&[0xff, 0x00, 0xff]), "/wD/");
}

#[test]
fn the_clipboard_sequence_carries_the_encoded_text() {
    assert_eq!(clipboard("foo"), "\x1b]52;c;Zm9v\x1b\\");
    assert!(!clipboard("x").is_empty());
}

#[test]
fn a_hyperlink_wraps_its_text_without_altering_it() {
    let m = on();
    let link = m.hyperlink("file://h/etc/foo", "/etc/foo");
    assert!(link.starts_with("\x1b]8;;file://h/etc/foo\x1b\\"), "{link:?}");
    assert!(link.contains("/etc/foo"));
    assert!(link.ends_with("\x1b]8;;\x1b\\"), "{link:?}");
    let off = Marks::new();
    assert_eq!(off.hyperlink("file://h/x", "/x"), "/x");
}

#[test]
fn a_title_carries_no_control_characters() {
    let m = on();
    let osc = m.title("build\x07 done\nnow");
    assert_eq!(osc, "\x1b]0;build donenow\x1b\\");
}

#[test]
fn every_mark_is_a_terminated_osc() {
    let mut m = on();
    let a = m.prompt_start();
    let c = m.output_start();
    let d = m.command_end(0);
    for mark in [a, c, d] {
        assert!(mark.starts_with("\x1b]133;"), "{mark:?}");
        assert!(mark.ends_with("\x1b\\"), "{mark:?}");
        assert!(!mark.contains('\n'), "a mark must not move the cursor: {mark:?}");
    }
}

#[test]
fn a_negative_status_is_written_with_its_sign() {
    let mut m = on();
    m.set_next_id(2);
    assert_eq!(m.command_end(-1), "\x1b]133;D;-1;aid=1\x1b\\");
}

#[test]
fn a_path_is_plain_when_marks_are_off() {
    assert_eq!(Marks::new().path("/etc/passwd"), "/etc/passwd");
    let linked = on().path("/etc/passwd");
    assert!(linked.starts_with("\x1b]8;;file://"), "{linked:?}");
    assert!(linked.ends_with("/etc/passwd\x1b]8;;\x1b\\"), "{linked:?}");
}
