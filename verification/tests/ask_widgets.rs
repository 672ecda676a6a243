use oslo::ask::choice::{ChooseStep, Choice, Picking};
use oslo::ask::confirm::Confirm;
use oslo::ask::file::{listing, Browse, Enter, WalkStep, Walking, Want};
use oslo::ask::format::{template, As};
use oslo::ask::narrow::{best_score, by_score, everything, narrow, narrow_rows};
use oslo::ask::spin::{frame, spin_row, spin_status, Ran, Spin};
use oslo::ask::table::{parse, Table, TablePicking, TableStep};
use oslo::ask::input::{Input, InputStep};
use oslo::ask::write::{Write, WriteStep};
use oslo::ask::Answer;
use oslo::term::Key;

#[test]
fn input_without_a_terminal_the_default_answers() {
    let with = Input {
        default: Some("fallback".to_string()),
        ..Input::default()
    };
    assert_eq!(with.headless(), Answer::Given("fallback".to_string()));

    let without = Input::default();
    assert_eq!(without.headless(), Answer::NoTerminal);
}

#[test]
fn confirm_without_a_terminal_the_default_answers() {
    assert_eq!(Confirm::default().headless(), Answer::Given(false));
    let yes = Confirm {
        default: true,
        ..Confirm::default()
    };
    assert_eq!(yes.headless(), Answer::Given(true));
}

#[test]
fn write_without_a_terminal_the_default_answers() {
    let with = Write {
        default: Some("line one\nline two".to_string()),
        ..Write::default()
    };
    assert_eq!(with.headless(), Answer::Given("line one\nline two".to_string()));
    assert_eq!(Write::default().headless(), Answer::NoTerminal);
}

fn typed(spec: &Input, keys: &[Key]) -> (String, usize, InputStep) {
    let mut line = spec.start();
    let mut last = InputStep::Editing;
    for k in keys {
        last = spec.step(&mut line, *k);
    }
    (line.chars.iter().collect(), line.cursor, last)
}

#[test]
fn typing_inserts_at_the_caret() {
    let spec = Input::default();
    let (text, cursor, _) = typed(
        &spec,
        &[Key::Char('a'), Key::Char('c'), Key::Left, Key::Char('b')],
    );
    assert_eq!(text, "abc");
    assert_eq!(cursor, 2);
}

#[test]
fn enter_answers_the_line_and_escape_cancels() {
    let spec = Input {
        default: Some("main".to_string()),
        ..Input::default()
    };
    let (_, _, last) = typed(&spec, &[Key::Accept]);
    assert_eq!(last, InputStep::Done(Answer::Given("main".to_string())));
    let (_, _, last) = typed(&spec, &[Key::Char('x'), Key::Cancel]);
    assert_eq!(last, InputStep::Done(Answer::Cancelled));
    let (_, _, last) = typed(&spec, &[Key::Abort]);
    assert_eq!(last, InputStep::Done(Answer::Cancelled));
}

#[test]
fn a_required_answer_refuses_the_empty_line() {
    let spec = Input {
        required: true,
        ..Input::default()
    };
    let (_, _, last) = typed(&spec, &[Key::Accept]);
    assert_eq!(last, InputStep::Refused);
    let (_, _, last) = typed(&spec, &[Key::Char('x'), Key::Accept]);
    assert_eq!(last, InputStep::Done(Answer::Given("x".to_string())));
}

#[test]
fn the_editing_keys_stay_on_the_line() {
    let spec = Input {
        default: Some("héllo".to_string()),
        ..Input::default()
    };
    let (text, cursor, _) = typed(&spec, &[Key::Home, Key::Delete, Key::End, Key::Backspace]);
    assert_eq!(text, "éll");
    assert_eq!(cursor, 3);
    let (text, cursor, _) = typed(&spec, &[Key::Right, Key::Clear, Key::Left]);
    assert_eq!(text, "");
    assert_eq!(cursor, 0);
}

#[test]
fn a_password_is_shown_as_bullets_and_the_caret_counts_them() {
    let spec = Input {
        prompt: "pw: ".to_string(),
        password: true,
        ..Input::default()
    };
    let mut line = spec.start();
    spec.step(&mut line, Key::Char('s'));
    spec.step(&mut line, Key::Char('é'));
    assert_eq!(spec.shown(&line), "••");
    assert_eq!(spec.caret_column(&line), 6);
    let placeholder = Input {
        placeholder: "your name".to_string(),
        ..Input::default()
    };
    assert_eq!(placeholder.shown(&placeholder.start()), "your name");
}

fn written(spec: &Write, keys: &[Key]) -> (Vec<String>, usize, usize, WriteStep) {
    let mut draft = spec.start();
    let mut last = WriteStep::Editing;
    for k in keys {
        last = draft.step(*k);
    }
    let lines = draft.lines.iter().map(|l| l.iter().collect()).collect();
    (lines, draft.row, draft.col, last)
}

#[test]
fn enter_breaks_the_line_and_ctrl_d_answers() {
    let spec = Write::default();
    let (lines, row, col, _) = written(
        &spec,
        &[Key::Char('a'), Key::Char('b'), Key::Left, Key::Accept],
    );
    assert_eq!(lines, vec!["a", "b"]);
    assert_eq!((row, col), (1, 0));
    let (_, _, _, last) = written(&spec, &[Key::Char('a'), Key::Accept, Key::Char('b'), Key::Delete]);
    assert_eq!(last, WriteStep::Done(Answer::Given("a\nb".to_string())));
}

#[test]
fn ctrl_d_on_nothing_is_a_cancel() {
    let (_, _, _, last) = written(&Write::default(), &[Key::Delete]);
    assert_eq!(last, WriteStep::Done(Answer::Cancelled));
    let (_, _, _, last) = written(&Write::default(), &[Key::Char('x'), Key::Cancel]);
    assert_eq!(last, WriteStep::Done(Answer::Cancelled));
}

#[test]
fn backspace_at_the_start_of_a_line_joins_it_to_the_one_above() {
    let spec = Write {
        default: Some("one\ntwo".to_string()),
        ..Write::default()
    };
    let (lines, row, col, _) = written(&spec, &[Key::Home, Key::Backspace]);
    assert_eq!(lines, vec!["onetwo"]);
    assert_eq!((row, col), (0, 3));
}

#[test]
fn up_and_down_keep_the_column_where_the_line_allows() {
    let spec = Write {
        default: Some("a\nlonger".to_string()),
        ..Write::default()
    };
    let (_, row, col, _) = written(&spec, &[Key::Up]);
    assert_eq!((row, col), (0, 1));
    let (_, row, col, _) = written(&spec, &[Key::Up, Key::Down]);
    assert_eq!((row, col), (1, 1));
    let (_, row, col, _) = written(&spec, &[Key::Home, Key::Left]);
    assert_eq!((row, col), (0, 1));
    let (_, row, col, _) = written(&spec, &[Key::Up, Key::End, Key::Right]);
    assert_eq!((row, col), (1, 0));
}

#[test]
fn an_untouched_default_answers_itself() {
    for text in ["one\n\ntwo\n", "x", "\n"] {
        let spec = Write {
            default: Some(text.to_string()),
            ..Write::default()
        };
        let (_, _, _, last) = written(&spec, &[Key::Delete]);
        assert_eq!(last, WriteStep::Done(Answer::Given(text.to_string())));
    }
}

fn spec(items: &[&str]) -> Choice {
    Choice {
        items: items.iter().map(|s| s.to_string()).collect(),
        ..Choice::default()
    }
}

#[test]
fn an_empty_list_cancels() {
    assert_eq!(spec(&[]).unasked(false), Some(Answer::Cancelled));
    assert_eq!(spec(&[]).unasked(true), Some(Answer::Cancelled));
}

#[test]
fn choose_without_a_terminal_it_refuses() {
    assert_eq!(spec(&["a", "b"]).unasked(false), Some(Answer::NoTerminal));
    assert_eq!(spec(&["a", "b"]).unasked(true), None);
}

#[test]
fn enter_takes_the_row_under_the_cursor() {
    let s = spec(&["alpha", "beta", "gamma"]);
    let mut p = Picking::start(&s);
    assert_eq!(p.step(&s, Key::Down), ChooseStep::Moving);
    assert_eq!(p.step(&s, Key::Down), ChooseStep::Moving);
    assert_eq!(p.step(&s, Key::Down), ChooseStep::Moving);
    assert_eq!(p.selected, 2);
    assert_eq!(
        p.step(&s, Key::Accept),
        ChooseStep::Done(Answer::Given(vec!["gamma".to_string()]))
    );
    assert_eq!(p.step(&s, Key::Home), ChooseStep::Moving);
    assert_eq!(p.selected, 0);
    assert_eq!(p.step(&s, Key::Cancel), ChooseStep::Done(Answer::Cancelled));
}

#[test]
fn a_multi_select_takes_everything_checked_in_list_order() {
    let s = Choice {
        multi: true,
        ..spec(&["a", "b", "c"])
    };
    let mut p = Picking::start(&s);
    p.step(&s, Key::End);
    p.step(&s, Key::Char(' '));
    p.step(&s, Key::Home);
    p.step(&s, Key::ToggleScope);
    assert_eq!(
        p.step(&s, Key::Accept),
        ChooseStep::Done(Answer::Given(vec!["a".to_string(), "c".to_string()]))
    );
    let mut none = Picking::start(&s);
    none.step(&s, Key::Down);
    assert_eq!(
        none.step(&s, Key::Accept),
        ChooseStep::Done(Answer::Given(vec!["b".to_string()]))
    );
}

#[test]
fn typing_in_a_filter_asks_for_the_list_again() {
    let s = Choice {
        filter: true,
        ..spec(&["cargo build", "npm install"])
    };
    let mut p = Picking::start(&s);
    assert_eq!(p.step(&s, Key::Char('c')), ChooseStep::Requery);
    assert_eq!(p.step(&s, Key::Char('a')), ChooseStep::Requery);
    assert_eq!(p.query, "ca");
    assert_eq!(p.step(&s, Key::Backspace), ChooseStep::Requery);
    assert_eq!(p.query, "c");
    p.show(&s, vec![0]);
    assert_eq!(
        p.step(&s, Key::Accept),
        ChooseStep::Done(Answer::Given(vec!["cargo build".to_string()]))
    );
    p.show(&s, vec![]);
    assert_eq!(p.step(&s, Key::Accept), ChooseStep::Done(Answer::Cancelled));
    let plain = spec(&["x"]);
    let mut q = Picking::start(&plain);
    assert_eq!(q.step(&plain, Key::Char('x')), ChooseStep::Moving);
    assert_eq!(q.query, "");
}

#[test]
fn the_window_follows_the_cursor() {
    let s = spec(&["0", "1", "2", "3", "4", "5"]);
    let mut p = Picking::start(&s);
    p.step(&s, Key::End);
    p.fit_window(3);
    assert_eq!((p.selected, p.offset), (5, 3));
    p.step(&s, Key::Home);
    p.fit_window(3);
    assert_eq!((p.selected, p.offset), (0, 0));
    p.show(&s, vec![1]);
    p.selected = 4;
    p.fit_window(3);
    assert_eq!(p.selected, 0);
}

fn built(text: &str) -> Table {
    let (rows, raw) = parse(text, ',');
    Table {
        rows,
        raw,
        ..Table::default()
    }
}

#[test]
fn an_empty_table_is_a_cancel() {
    assert_eq!(Table::default().unasked(false), Some(Answer::Cancelled));
}

#[test]
fn table_without_a_terminal_it_refuses() {
    assert_eq!(built("a,b").unasked(false), Some(Answer::NoTerminal));
    assert_eq!(built("a,b").unasked(true), None);
}

#[test]
fn the_columns_are_as_wide_as_their_widest_field() {
    let mut t = built("alice,30,admin\nbob,25\ncarol,41,a-very-long-role-name-that-goes-on-and-on");
    t.headers = vec!["name".to_string(), "age".to_string()];
    assert_eq!(t.column_widths(), vec![5, 3, 30]);
    assert_eq!(Table::default().column_widths(), Vec::<usize>::new());
}

#[test]
fn file_without_a_terminal_it_refuses() {
    assert_eq!(Browse::default().headless(), Answer::NoTerminal);
}

#[test]
fn enter_goes_into_a_directory_unless_directories_are_wanted() {
    let files = Browse::default();
    assert_eq!(files.on_enter(true), Enter::GoInto);
    assert_eq!(files.on_enter(false), Enter::Pick);
    let dirs = Browse {
        want: Want::Directories,
        ..Browse::default()
    };
    assert_eq!(dirs.on_enter(true), Enter::Pick);
    assert_eq!(dirs.on_enter(false), Enter::Stay);
    let both = Browse {
        want: Want::Both,
        ..Browse::default()
    };
    assert_eq!(both.on_enter(true), Enter::Pick);
}

#[test]
fn dotfiles_are_listed_only_when_asked_for() {
    let quiet = Browse::default();
    assert!(!quiet.lists(".secret"));
    assert!(quiet.lists("plain"));
    let all = Browse {
        hidden: true,
        ..Browse::default()
    };
    assert!(all.lists(".secret"));
}

#[test]
fn the_kinds_are_the_names_a_script_writes() {
    assert_eq!(As::parse("md"), Some(As::Markdown));
    assert_eq!(As::parse("tmpl"), Some(As::Template));
    assert_eq!(As::parse("plain"), Some(As::Text));
    assert_eq!(As::parse("code"), Some(As::Code));
    assert_eq!(As::parse("html"), None);
}

#[test]
fn a_template_fills_every_placeholder_and_leaves_unknown_ones() {
    let values = vec![
        ("name".to_string(), "oslo".to_string()),
        ("n".to_string(), "3".to_string()),
    ];
    assert_eq!(
        template("{{name}} has {{n}} tabs; {{name}}! {{missing}}", &values),
        "oslo has 3 tabs; oslo! {{missing}}"
    );
    assert_eq!(template("{{{name}}}", &values), "{oslo}");
    assert_eq!(template("plain", &[]), "plain");
}

/// An empty filter keeps everything, in order.
#[test]
fn an_empty_filter_lists_every_item_in_order() {
    assert_eq!(everything(3), vec![0, 1, 2]);
    assert!(everything(0).is_empty());
}

/// The items that scored, best first; ties keep the caller's order; the rest are gone.
#[test]
fn a_filter_lists_the_best_first_and_ties_in_order() {
    assert_eq!(by_score(&[Some(3), None, Some(5), Some(3)]), vec![2, 0, 3]);
    assert_eq!(by_score(&[Some(1), Some(1), Some(1)]), vec![0, 1, 2]);
    assert_eq!(by_score(&[Some(-2), Some(7), Some(0)]), vec![1, 2, 0]);
    assert!(by_score(&[None, None]).is_empty());
    assert!(by_score(&[]).is_empty());
}

/// A row scores as its best field, so a value from any column finds its row.
#[test]
fn a_row_scores_as_its_best_field() {
    assert_eq!(best_score(&[None, Some(4), Some(9), None]), Some(9));
    assert_eq!(best_score(&[Some(-3)]), Some(-3));
    assert_eq!(best_score(&[None, None]), None);
    assert_eq!(best_score(&[]), None);
    let rows = [best_score(&[None, None, Some(6)]), best_score(&[Some(2), None, None])];
    assert_eq!(by_score(&rows), vec![0, 1]);
}

fn spin_spec(command: &[&str]) -> Spin {
    Spin {
        title: "working".to_string(),
        command: command.iter().map(|s| s.to_string()).collect(),
        quiet: true,
    }
}

/// The command's own status is the answer; a missing one is 127, and nothing to run is 2.
#[test]
fn the_spinners_status_is_the_commands() {
    let spec = spin_spec(&["sh", "-c", "exit 7"]);
    assert_eq!(spin_status(&spec, Ran::Exited(Some(7))), 7);
    assert_eq!(spin_status(&spec, Ran::Exited(Some(0))), 0);
    assert_eq!(spin_status(&spec, Ran::Exited(None)), 1);
    assert_eq!(spin_status(&spec, Ran::Unstartable), 127);
    assert_eq!(spin_status(&spin_spec(&[]), Ran::Exited(Some(0))), 2);
}

/// The frames turn and come round again; the row erases, then draws the frame and the title.
#[test]
fn the_spinner_turns() {
    assert_eq!(frame(0, false), '⠋');
    assert_eq!(frame(9, false), '⠏');
    assert_eq!(frame(10, false), '⠋');
    assert_eq!(frame(5, true), '/');
    assert_eq!(spin_row(1, false, "working"), "\r\x1b[K⠙ working");
    assert_eq!(spin_row(3, true, "x"), "\r\x1b[K\\ x");
}

fn entries(list: &[(&str, bool)]) -> Vec<(String, bool)> {
    list.iter().map(|(n, d)| (n.to_string(), *d)).collect()
}

/// Directories come first and then names in order; dotfiles only when asked for.
#[test]
fn directories_sort_before_files() {
    let listed = listing(entries(&[("bbb-file", false), ("zzz-dir", true), ("aaa-file", false)]), false);
    assert_eq!(listed[0].0, "zzz-dir");
    assert!(listed[0].1);
    assert_eq!(listed[1].0, "aaa-file");
    assert_eq!(listed[2].0, "bbb-file");
}

#[test]
fn dotfiles_are_hidden_unless_asked_for() {
    let read = |hidden: bool| listing(entries(&[(".secret", false), ("plain", false)]), hidden);
    assert_eq!(read(false).len(), 1);
    assert_eq!(read(true).len(), 2);
}

#[test]
fn directories_come_first_each_in_name_order_and_dot_directories_stay_hidden() {
    let listed = listing(
        entries(&[("b.txt", false), ("src", true), ("a.txt", false), ("docs", true), (".git", true)]),
        false,
    );
    assert_eq!(
        listed,
        entries(&[("docs", true), ("src", true), ("a.txt", false), ("b.txt", false)])
    );
}

/// Enter on a directory goes in when files are wanted; Right goes in; Left goes up; Esc and
/// Ctrl-C cancel; Enter on a file picks it.
#[test]
fn the_walk_goes_in_and_out() {
    let spec = Browse::default();
    let mut walk = Walking::arrive(entries(&[("src", true), ("a.txt", false)]));
    assert_eq!(walk.step(&spec, Key::Accept), WalkStep::GoInto("src".to_string()));
    assert_eq!(walk.step(&spec, Key::Right), WalkStep::GoInto("src".to_string()));
    assert_eq!(walk.step(&spec, Key::Left), WalkStep::GoUp);
    assert_eq!(walk.step(&spec, Key::Down), WalkStep::Moving);
    assert_eq!(walk.selected, 1);
    assert_eq!(walk.step(&spec, Key::Right), WalkStep::Moving);
    assert_eq!(walk.step(&spec, Key::Accept), WalkStep::Pick("a.txt".to_string()));
    assert_eq!(walk.step(&spec, Key::Char('a')), WalkStep::Requery);
    assert_eq!(walk.query, "a");
    assert_eq!(walk.step(&spec, Key::Abort), WalkStep::Cancelled);
    assert_eq!(walk.step(&spec, Key::Cancel), WalkStep::Cancelled);
    let dirs = Browse { want: Want::Directories, ..Browse::default() };
    assert_eq!(walk.step(&dirs, Key::Accept), WalkStep::Moving);
    let mut empty = Walking::arrive(Vec::new());
    assert_eq!(empty.step(&spec, Key::Accept), WalkStep::Moving);
}

/// Enter answers the row under the cursor exactly as it arrived.
#[test]
fn the_table_answers_the_row_verbatim() {
    let (rows, raw) = parse("alice, 30 ,admin\nbob,25,user", ',');
    let spec = Table { rows, raw, ..Table::default() };
    let mut pick = TablePicking::start(&spec);
    assert_eq!(pick.step(&spec, Key::Down), TableStep::Moving);
    assert_eq!(pick.step(&spec, Key::Accept), TableStep::Done(Answer::Given("bob,25,user".to_string())));
    assert_eq!(pick.step(&spec, Key::Up), TableStep::Moving);
    assert_eq!(
        pick.step(&spec, Key::Accept),
        TableStep::Done(Answer::Given("alice, 30 ,admin".to_string()))
    );
    assert_eq!(pick.step(&spec, Key::Char('b')), TableStep::Requery);
    pick.show(&spec, vec![]);
    assert_eq!(pick.step(&spec, Key::Accept), TableStep::Done(Answer::Cancelled));
    assert_eq!(pick.step(&spec, Key::Abort), TableStep::Done(Answer::Cancelled));
}

/// Ctrl-C cancels a list and a draft as Esc does.
#[test]
fn ctrl_c_cancels_a_list_and_a_draft() {
    let spec = Choice { items: vec!["a".to_string()], ..Choice::default() };
    let mut pick = Picking::start(&spec);
    assert_eq!(pick.step(&spec, Key::Abort), ChooseStep::Done(Answer::Cancelled));
    let w = Write::default();
    let mut draft = w.start();
    assert_eq!(draft.step(Key::Abort), WriteStep::Done(Answer::Cancelled));
}

// The matcher that scores a query against an item is not part of this crate; these tests hand
// `narrow` the scores it gives (a prefix match scores, the same match scores the same, no match
// does not), and check what the list does with them.

#[test]
fn an_empty_filter_keeps_everything_in_order() {
    let items = ["alpha", "beta", "gamma"];
    assert_eq!(narrow("", &[None; 3]), vec![0, 1, 2]);
    assert_eq!(items.len(), 3);
}

#[test]
fn a_filter_narrows_and_ranks() {
    // "cargo" against "cargo build", "cargo test", "npm install".
    let found = narrow("cargo", &[Some(120), Some(120), None]);
    assert_eq!(found.len(), 2, "npm should not match");
    assert!(found.contains(&0) && found.contains(&1));
    assert!(narrow("zzzz", &[None, None, None]).is_empty());
}

#[test]
fn ties_keep_the_original_order() {
    // "match" against "match one", "match two", "match three": the same score each.
    assert_eq!(narrow("match", &[Some(90), Some(90), Some(90)]), vec![0, 1, 2]);
}

#[test]
fn filtering_looks_at_every_column() {
    // The rows "alice,30,admin" and "bob,25,user", each field scored on its own.
    let admin = vec![vec![None, None, Some(100)], vec![None, None, None]];
    assert_eq!(narrow_rows("admin", &admin), vec![0]);
    let bob = vec![vec![None, None, None], vec![Some(60), None, None]];
    assert_eq!(narrow_rows("bob", &bob), vec![1]);
    let age = vec![vec![None, None, None], vec![None, Some(40), None]];
    assert_eq!(narrow_rows("25", &age), vec![1]);
    let nobody = vec![vec![None, None, None], vec![None, None, None]];
    assert!(narrow_rows("nobody", &nobody).is_empty());
}

#[test]
fn moving_through_a_list_keeps_the_query_and_the_checks() {
    let s = Choice {
        multi: true,
        filter: true,
        ..spec(&["a", "b", "c", "d"])
    };
    let mut p = Picking::start(&s);
    assert_eq!(p.step(&s, Key::Char('x')), ChooseStep::Requery);
    assert_eq!(p.step(&s, Key::Char(' ')), ChooseStep::Moving);
    for key in [Key::Down, Key::End, Key::Up, Key::PageUp, Key::PageDown, Key::Home] {
        assert_eq!(p.step(&s, key), ChooseStep::Moving, "{key:?}");
        assert_eq!(p.query, "x");
        assert_eq!(p.checked, vec![true, false, false, false]);
        assert_eq!(p.offset, 0);
    }
    p.selected = 2;
    assert_eq!(p.step(&s, Key::Backspace), ChooseStep::Requery);
    assert_eq!(p.selected, 2);
}

#[test]
fn the_window_follows_the_cursor_by_as_little_as_it_can() {
    let s = spec(&["a", "b", "c", "d", "e", "f"]);
    let mut p = Picking::start(&s);
    p.selected = 4;
    p.fit_window(3);
    assert_eq!(p.offset, 2);
    p.selected = 3;
    p.fit_window(3);
    assert_eq!(p.offset, 2);
    p.selected = 1;
    p.fit_window(3);
    assert_eq!(p.offset, 1);
    p.selected = 9;
    p.fit_window(3);
    assert_eq!((p.selected, p.offset), (5, 3));
}
