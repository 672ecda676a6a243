use oslo::block::{cut_to, fit_items, wrap, Block, Overflow};

fn chars(s: &str) -> Vec<char> {
    s.chars().collect()
}

fn text(v: &[char]) -> String {
    v.iter().collect()
}

#[test]
fn overflow_names_are_the_ones_a_script_writes() {
    assert_eq!(Overflow::named("count"), Some(Overflow::Count));
    assert_eq!(Overflow::named(" ellipsis "), Some(Overflow::Ellipsis));
    assert_eq!(Overflow::named("wrap"), Some(Overflow::Wrap));
    assert_eq!(Overflow::named("truncate"), None);
}

#[test]
fn a_plain_block_is_a_headline_and_padded_labels() {
    let mut block = Block::new("direnv ~/rush".to_string()).plain().width(80);
    block.row("changed".to_string(), "PATH".to_string());
    block.row("aliases".to_string(), "_b _c _r".to_string());
    assert_eq!(
        block.lines(),
        vec![
            "direnv ~/rush".to_string(),
            "  changed PATH".to_string(),
            "  aliases _b _c _r".to_string(),
        ]
    );
}

#[test]
fn a_short_label_is_padded_to_the_column() {
    let mut block = Block::new(String::new()).plain().width(80);
    block.row("cd".to_string(), "x".to_string());
    assert_eq!(block.lines(), vec!["  cd      x".to_string()]);
    assert!(!block.is_bare());
    assert!(Block::new("h".to_string()).is_bare());
}

#[test]
fn a_decorated_row_has_the_rail() {
    let mut block = Block::new("h".to_string()).width(80);
    block.row("changed".to_string(), "PATH".to_string());
    let lines = block.lines();
    assert_eq!(lines[1], "  \x1b[38;5;240m│\x1b[0m changed PATH");
}

#[test]
fn a_counted_row_says_how_many_were_dropped() {
    let (shown, hidden) = fit_items(&chars("aaa bbb ccc ddd"), 8);
    assert_eq!(text(&shown), "aaa bbb");
    assert_eq!(hidden, 2);
    let (shown, hidden) = fit_items(&chars("averyveryverylongname b"), 3);
    assert_eq!(text(&shown), "averyveryverylongname");
    assert_eq!(hidden, 1);
    let mut block = Block::new(String::new()).plain().width(18);
    block.row("vars".to_string(), "A B C D E F".to_string());
    assert_eq!(block.lines(), vec!["  vars    A B C D +2".to_string()]);
}

#[test]
fn an_ellipsis_row_keeps_a_cell_for_the_dots() {
    let (shown, cut) = cut_to(&chars("abcdef"), 4);
    assert_eq!(text(&shown), "abc");
    assert!(cut);
    let (shown, cut) = cut_to(&chars("abc"), 4);
    assert_eq!(text(&shown), "abc");
    assert!(!cut);
    let mut block = Block::new(String::new()).plain().width(14);
    block.row("path".to_string(), "/usr/local/bin".to_string());
    block.overflow(Overflow::Ellipsis);
    assert_eq!(block.lines(), vec!["  path    /us…".to_string()]);
}

#[test]
fn a_wrapped_row_keeps_the_column() {
    let pieces: Vec<String> = wrap(&chars("one two three four"), 9)
        .iter()
        .map(|p| text(p))
        .collect();
    assert_eq!(pieces, vec!["one two", "three", "four"]);
    let broken: Vec<String> = wrap(&chars("abcdefghij"), 4).iter().map(|p| text(p)).collect();
    assert_eq!(broken, vec!["abcd", "efgh", "ij"]);
    let mut block = Block::new(String::new()).plain().width(19);
    block.row("text".to_string(), "one two three four".to_string());
    block.overflow(Overflow::Wrap);
    assert_eq!(
        block.lines(),
        vec![
            "  text    one two".to_string(),
            "          three".to_string(),
            "          four".to_string(),
        ]
    );
}

#[test]
fn a_note_is_dim_and_unlabelled() {
    let mut block = Block::new(String::new()).width(80);
    block.note("detail".to_string());
    let lines = block.lines();
    assert!(lines[0].ends_with("\x1b[38;5;240mdetail\x1b[0m"), "{lines:?}");
}

#[test]
fn an_empty_wrapped_row_still_draws_its_label() {
    let mut block = Block::new(String::new()).plain();
    block.row("x".to_string(), "   ".to_string());
    block.overflow(Overflow::Wrap);
    assert_eq!(block.lines(), vec!["  x       ".to_string()]);
}
