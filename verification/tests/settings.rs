use oslo::dropdown::MAX_ROWS;
use oslo::settings::{
    read_lua_settings, Finder, History, Misc, Notify, NotifyText, Settings, Sort, Source, Suggest, Table, Value,
};

fn s(text: &str) -> Value {
    Value::Str(text.to_string())
}

fn n(v: i64) -> Value {
    Value::Number(Some(v))
}

/// A table with string keys.
fn fields(entries: Vec<(&str, Value)>) -> Value {
    Value::Table(Table {
        items: Vec::new(),
        fields: entries
            .into_iter()
            .map(|(k, v)| (k.to_string(), v))
            .collect(),
    })
}

/// A list.
fn list(items: Vec<Value>) -> Value {
    Value::Table(Table {
        items,
        fields: Vec::new(),
    })
}

/// `oslo = { <section> = <value> }`, read.
fn settings_from(section: &str, value: Value) -> (Settings, Vec<String>) {
    read_lua_settings(&fields(vec![(section, value)]))
}

#[test]
fn naming_one_field_keeps_every_other_default() {
    let (settings, problems) = settings_from("completion", fields(vec![("max_rows", n(5))]));
    assert!(problems.is_empty(), "{problems:?}");
    assert_eq!(settings.completion.max_rows, 5);
    assert!(settings.completion.descriptions);
    assert_eq!(settings.suggest, Suggest::default());
    assert_eq!(settings.history, History::default());
}

#[test]
fn a_false_flag_is_not_the_same_as_an_absent_one() {
    let (off, _) = settings_from("completion", fields(vec![("show_kind", Value::Bool(false))]));
    assert!(!off.completion.show_kind);
    let (absent, _) = settings_from("completion", fields(vec![]));
    assert!(absent.completion.show_kind);
}

#[test]
fn the_completion_order_is_read_and_a_typo_is_named() {
    let (alpha, problems) = settings_from("completion", fields(vec![("sort", s("alpha"))]));
    assert!(problems.is_empty(), "{problems:?}");
    assert_eq!(alpha.completion.sort, Sort::Alpha);
    assert_eq!(Settings::default().completion.sort, Sort::Frecency);

    let (kept, problems) = settings_from("completion", fields(vec![("sort", s("vibes"))]));
    assert_eq!(problems.len(), 1, "{problems:?}");
    assert!(problems[0].contains("vibes"));
    assert_eq!(kept.completion.sort, Sort::Frecency, "a typo keeps the default");
}

#[test]
fn the_suggestion_keys_are_read_under_their_own_names() {
    let (settings, problems) = settings_from(
        "suggest",
        fields(vec![("accept", s("right")), ("accept_word", s("alt-right"))]),
    );
    assert!(problems.is_empty(), "{problems:?}");
    assert_eq!(settings.suggest.accept.as_deref(), Some("right"));
    assert_eq!(settings.suggest.accept_word.as_deref(), Some("alt-right"));
    assert_eq!(settings.suggest.sources, Suggest::default().sources);
}

#[test]
fn suggestion_sources_keep_the_order_they_were_written_in() {
    let (settings, problems) = settings_from(
        "suggest",
        fields(vec![("sources", list(vec![s("path"), s("history")]))]),
    );
    assert!(problems.is_empty(), "{problems:?}");
    assert_eq!(settings.suggest.sources, vec![Source::Path, Source::History]);

    let (off, _) = settings_from("suggest", fields(vec![("sources", list(vec![]))]));
    assert!(off.suggest.sources.is_empty());
}

#[test]
fn an_unknown_source_is_named() {
    let (settings, problems) = settings_from(
        "suggest",
        fields(vec![("sources", list(vec![s("history"), s("psychic")]))]),
    );
    assert_eq!(problems.len(), 1, "{problems:?}");
    assert!(problems[0].contains("psychic"), "{problems:?}");
    assert_eq!(settings.suggest.sources, vec![Source::History]);
}

#[test]
fn a_row_count_is_clamped_to_something_drawable() {
    let (tiny, _) = settings_from("completion", fields(vec![("max_rows", n(0))]));
    assert_eq!(tiny.completion.max_rows, 1);
    let (huge, _) = settings_from("completion", fields(vec![("max_rows", n(9999))]));
    assert_eq!(huge.completion.max_rows, MAX_ROWS);
}

#[test]
fn key_bindings_are_read_in_a_stable_order() {
    let (settings, problems) = settings_from(
        "keys",
        fields(vec![
            ("shift-tab", s("toggle-language")),
            ("ctrl-l", s("clear-screen")),
        ]),
    );
    assert!(problems.is_empty(), "{problems:?}");
    assert_eq!(
        settings.keys,
        vec![
            ("ctrl-l".to_string(), "clear-screen".to_string()),
            ("shift-tab".to_string(), "toggle-language".to_string()),
        ]
    );
}

#[test]
fn history_settings_are_read_through() {
    let (settings, _) = settings_from(
        "history",
        fields(vec![
            ("size", n(50000)),
            ("file", s("~/h")),
            ("ignore_dups", Value::Bool(true)),
        ]),
    );
    assert_eq!(settings.history.size, Some(50000));
    assert_eq!(settings.history.file.as_deref(), Some("~/h"));
    assert!(settings.history.ignore_dups);
    assert!(settings.history.ignore_space);
}

#[test]
fn a_source_named_twice_is_offered_once() {
    let (settings, problems) = settings_from(
        "suggest",
        fields(vec![(
            "sources",
            list(vec![s("paths"), s("history"), s("file"), Value::Bool(true)]),
        )]),
    );
    assert!(problems.is_empty(), "{problems:?}");
    assert_eq!(settings.suggest.sources, vec![Source::Path, Source::History]);
}

#[test]
fn a_key_entry_that_is_not_two_names_is_reported() {
    let keys = Value::Table(Table {
        items: vec![s("ctrl-x")],
        fields: vec![
            ("ctrl-a".to_string(), n(3)),
            ("ctrl-b".to_string(), s("complete")),
        ],
    });
    let (settings, problems) = settings_from("keys", keys);
    assert_eq!(problems.len(), 2, "{problems:?}");
    assert_eq!(
        problems[0],
        "oslo.keys: every entry must be a key name mapped to an action name"
    );
    assert_eq!(
        settings.keys,
        vec![("ctrl-b".to_string(), "complete".to_string())]
    );
}

#[test]
fn anything_but_a_table_reads_as_the_defaults() {
    let (settings, problems) = read_lua_settings(&Value::Nil);
    assert!(problems.is_empty());
    assert_eq!(settings, Settings::default());
    let (negative, _) = settings_from("history", fields(vec![("size", n(-4))]));
    assert_eq!(negative.history.size, Some(0));
    let (truthy, _) = settings_from("completion", fields(vec![("case_sensitive", Value::Other)]));
    assert!(truthy.completion.case_sensitive);
}

/// The groups a newer config adds start from defaults that change nothing surprising.
#[test]
fn the_other_groups_have_quiet_defaults() {
    assert_eq!(Notify::default().after, 10);
    let text = NotifyText::default();
    assert!(text.title.is_none() && text.command.is_none());
    let misc = Misc::default();
    assert!(misc.welcome);
    assert_eq!(misc.escape_delay, 25);
    assert!(misc.greeting.is_none() && misc.color_depth.is_none());
    let finder = Finder::default();
    assert!(finder.enabled && finder.confirm_delete);
    assert_eq!(finder.key, "up");
    assert_eq!(finder.limit, 10_000);
}
