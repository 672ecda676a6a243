use oslo::prompt::{branch_of_head, host_label, hostname};
use oslo::prompt::{printed_width, right_prompt_escape, shorten, tilde, PromptRow};

#[test]
fn a_path_under_home_is_written_with_a_tilde() {
    let home = "/home/someone";
    assert_eq!(tilde("/home/someone/src", home), "~/src");
    assert_eq!(tilde("/home/someone", home), "~");
    assert_eq!(tilde("/home/someoneelse/src", home), "/home/someoneelse/src");
    assert_eq!(tilde("/etc", home), "/etc");
}

#[test]
fn shortening_keeps_the_tail_and_abbreviates_the_rest() {
    let home = "/home/someone";
    assert_eq!(shorten("/home/someone/data/code/rush", 1, home), "~/d/c/rush");
    assert_eq!(shorten("/home/someone/data/code/rush", 2, home), "~/d/code/rush");
    assert_eq!(shorten("/home/someone/.config/oslo", 1, home), "~/.c/oslo");
    assert_eq!(shorten("/etc", 1, home), "/etc");
}

#[test]
fn a_right_prompt_is_drawn_flush_right_and_restores_the_cursor() {
    let escape = right_prompt_escape("12:34", 10, 80);
    assert!(escape.starts_with("\x1b[65C"), "{escape:?}");
    assert!(escape.contains("12:34"), "{escape:?}");
    assert!(escape.ends_with("\r\x1b[10C"), "{escape:?}");
    assert!(!escape.contains("\x1b7"), "{escape:?}");
    assert!(!escape.contains("\x1b8"), "{escape:?}");
    let at_start = right_prompt_escape("12:34", 0, 80);
    assert!(at_start.ends_with("\r"), "{at_start:?}");
}

#[test]
fn width_counts_cells_and_not_escapes() {
    assert_eq!(printed_width("abc"), 3);
    assert_eq!(printed_width("\x1b[1;32mabc\x1b[0m"), 3);
    assert_eq!(printed_width("\x1b7\x1b[70Gx\x1b8abc"), 4);
    let plain = right_prompt_escape("12:34", 0, 80);
    let painted = right_prompt_escape("\x1b[90m12:34\x1b[0m", 0, 80);
    let moved = |s: &str| s.split('C').next().map(str::to_string);
    assert_eq!(moved(&plain), moved(&painted));
}

#[test]
fn a_right_prompt_is_dropped_when_it_will_not_fit() {
    assert_eq!(right_prompt_escape("12:34", 74, 80), "");
    assert_eq!(right_prompt_escape("12:34", 0, 0), "");
    assert_eq!(right_prompt_escape("", 0, 80), "");
    assert!(!right_prompt_escape("12:34", 10, 80).is_empty());
}

#[test]
fn the_row_remembers_the_language_and_toggles_it() {
    let mut row = PromptRow::new();
    assert_eq!(row.language(), None);
    assert_eq!(row.toggle_language(), "sh", "nothing recorded, nothing switched");
    assert_eq!(row.repaint("> ", 3), "");
    row.note_row("sh", 0, 6);
    assert_eq!(row.language().as_deref(), Some("sh"));
    assert_eq!(row.toggle_language(), "lua");
    assert_eq!(row.toggle_language(), "sh");
    assert_eq!(row.status(), Some(0));
    assert_eq!(row.repaint("user ❯ ", 3), "\ruser ❯ \r\x1b[9C");
}

#[test]
fn the_head_names_the_branch_or_a_short_hash() {
    assert_eq!(
        branch_of_head("ref: refs/heads/main\n"),
        Some("main".to_string())
    );
    assert_eq!(
        branch_of_head("  4f2a9c81e0d3b7a6\n"),
        Some("4f2a9c8".to_string())
    );
    assert_eq!(branch_of_head("abc\n"), None);
}

/// A host is shown by its first label, and a missing one by a question mark.
#[test]
fn a_host_is_shown_by_its_first_label() {
    assert_eq!(host_label(Some("box.example.com")), "box");
    assert_eq!(host_label(Some("box")), "box");
    assert_eq!(host_label(Some(".hidden")), "");
    assert_eq!(host_label(None), "?");
    assert!(!hostname().contains('.'));
}
