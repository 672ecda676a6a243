use oslo::abbr::{Abbreviations, Placement};

fn only(name: &str, expansion: &str, placement: Placement) -> Abbreviations {
    let mut table = Abbreviations::new();
    table.clear();
    table.add(name, expansion, placement);
    table
}

#[test]
fn a_word_at_the_start_of_a_line_expands() {
    let table = only("gco", "git checkout", Placement::Command);
    assert_eq!(
        table.expand("gco", 3),
        Some(("git checkout".to_string(), 12)),
        "cursor follows the end of the expansion"
    );
}

#[test]
fn placement_decides_where_it_fires() {
    let table = only("gco", "git checkout", Placement::Command);
    assert!(table.expand("sudo gco", 8).is_some(), "after sudo");
    assert!(table.expand("ls | gco", 8).is_some(), "after a pipe");
    assert!(table.expand("true && gco", 11).is_some(), "after &&");
    assert!(table.expand("cat gco", 7).is_none(), "an argument is not a command");

    let table = only("gco", "git checkout", Placement::Anywhere);
    assert!(table.expand("cat gco", 7).is_some(), "anywhere means anywhere");
}

#[test]
fn a_marker_places_the_cursor() {
    let table = only("gc", "git commit -m \"%\"", Placement::Command);
    let (text, cursor) = table.expand("gc", 2).expect("expands");
    assert_eq!(text, "git commit -m \"\"");
    assert_eq!(&text[cursor..], "\"", "the cursor sits inside the quotes");
}

#[test]
fn the_rest_of_the_line_is_untouched() {
    let table = only("gco", "git checkout", Placement::Command);
    assert_eq!(table.expand("gco main", 3), Some(("git checkout main".to_string(), 12)));
    assert_eq!(table.expand("nothing", 7), None);
    assert_eq!(table.expand("", 0), None);
}

#[test]
fn definitions_are_listed_by_name_and_replaced_by_name() {
    let mut table = Abbreviations::new();
    table.add("zz", "last", Placement::Anywhere);
    table.add("aa", "first", Placement::Command);
    table.add("mm", "middle", Placement::Command);
    table.add("aa", "again", Placement::Anywhere);
    let names: Vec<String> = table.all().into_iter().map(|(n, _)| n).collect();
    assert_eq!(names, vec!["aa", "mm", "zz"]);
    assert_eq!(table.all()[0].1.expansion, "again");
    assert!(table.remove("mm"));
    assert!(!table.remove("mm"), "already gone");
    assert_eq!(table.all().len(), 2);
}

#[test]
fn a_cursor_past_the_end_expands_the_last_word() {
    let table = only("gco", "git checkout", Placement::Command);
    assert_eq!(table.expand("gco", 99), Some(("git checkout".to_string(), 12)));
    let table = only("é", "üx", Placement::Command);
    assert_eq!(table.expand("é", 2), Some(("üx".to_string(), 3)), "offsets are bytes");
}

#[test]
fn a_removed_abbreviation_no_longer_expands() {
    let mut table = only("gco", "git checkout", Placement::Anywhere);
    table.add("gst", "git status", Placement::Anywhere);
    assert!(table.remove("gco"));
    assert!(!table.remove("gco"));
    assert_eq!(table.expand("gco", 3), None);
    assert_eq!(table.expand("gst", 3), Some(("git status".to_string(), 10)));
}
