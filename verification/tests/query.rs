use oslo::query::{readable_reply, reply_step, Reply};
use oslo::query::{from_colorfgbg, parse_background, Background};

#[test]
fn colorfgbg_answers_without_asking_the_terminal() {
    assert_eq!(from_colorfgbg(Some("15;0")), Some(Background::Dark));
    assert_eq!(from_colorfgbg(Some("0;15")), Some(Background::Light));
    assert_eq!(from_colorfgbg(Some("15;8")), Some(Background::Dark));
    assert_eq!(from_colorfgbg(Some("0;7")), Some(Background::Light));
    assert_eq!(from_colorfgbg(Some("15;default;0")), Some(Background::Dark));
    assert_eq!(from_colorfgbg(None), None);
    assert_eq!(from_colorfgbg(Some("")), None);
    assert_eq!(from_colorfgbg(Some("15;default")), None);
}

#[test]
fn a_reply_is_read_at_whatever_width_it_arrives_in() {
    assert_eq!(parse_background("\x1b]11;rgb:1e1e/1e1e/2e2e\x1b\\"), Some(Background::Dark));
    assert_eq!(parse_background("\x1b]11;rgb:f5f5/f5f5/f5f5\x1b\\"), Some(Background::Light));
    assert_eq!(parse_background("\x1b]11;rgb:1e/1e/2e\x07"), Some(Background::Dark));
    assert_eq!(parse_background("\x1b]11;rgb:f5/f5/f5\x07"), Some(Background::Light));
}

#[test]
fn brightness_is_weighted_the_way_the_eye_weighs_it() {
    assert_eq!(parse_background("rgb:0000/ffff/0000"), Some(Background::Light));
    assert_eq!(parse_background("rgb:0000/0000/ffff"), Some(Background::Dark));
    assert_eq!(parse_background("rgb:0000/cccc/0000"), Some(Background::Dark));
}

#[test]
fn nonsense_is_not_a_colour() {
    assert_eq!(parse_background(""), None);
    assert_eq!(parse_background("\x1b]11;?\x1b\\"), None);
    assert_eq!(parse_background("rgb:"), None);
    assert_eq!(parse_background("rgb:zz/zz/zz"), None);
    assert_eq!(parse_background("rgb:1111/2222"), None);
}

#[test]
fn a_signed_or_spaced_number_still_reads() {
    assert_eq!(from_colorfgbg(Some("15; 3 ")), Some(Background::Dark));
    assert_eq!(from_colorfgbg(Some("0;+9")), Some(Background::Light));
    assert_eq!(from_colorfgbg(Some("0;256")), None);
}

#[test]
fn a_reply_is_read_up_to_its_terminator() {
    let mut collected = String::new();
    let mut last = Reply::Reading;
    for b in b"\x1b]11;rgb:0000/0000/0000\x1b\\" {
        last = reply_step(&mut collected, *b);
    }
    assert_eq!(last, Reply::Done);
    assert_eq!(collected, "\x1b]11;rgb:0000/0000/0000\x1b\\");
    let mut typed = String::new();
    assert_eq!(reply_step(&mut typed, b'l'), Reply::Abandon);
    let mut bell = String::new();
    reply_step(&mut bell, 0x1b);
    assert_eq!(reply_step(&mut bell, 7), Reply::Done);
}

#[test]
fn a_reply_that_runs_on_is_not_one() {
    let mut collected = String::new();
    reply_step(&mut collected, 0x1b);
    let mut last = Reply::Reading;
    for _ in 0..64 {
        last = reply_step(&mut collected, b'x');
    }
    assert_eq!(last, Reply::Abandon);
}

#[test]
fn an_eight_digit_channel_cannot_be_read_and_nine_is_no_answer() {
    assert!(!readable_reply("rgb:ffffffff/0/0"));
    assert!(readable_reply("rgb:fffffffff/0/0"));
    assert_eq!(parse_background("rgb:fffffffff/0/0"), None);
    assert!(readable_reply("rgb:0/0"));
    assert!(readable_reply("rgb:0/x/ffffffff"));
}
