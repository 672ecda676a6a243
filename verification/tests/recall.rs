use oslo::recall::Recall;

#[test]
fn a_suggestion_stays_in_its_own_language() {
    let mut recall = Recall::new();
    recall.seed(vec![
        ("echo one".to_string(), "sh".to_string()),
        ("echo two".to_string(), "lua".to_string()),
    ]);
    assert_eq!(recall.for_language("sh"), vec!["echo one".to_string()]);
    assert_eq!(recall.for_language("lua"), vec!["echo two".to_string()]);
    recall.seed(Vec::new());
}

#[test]
fn the_newest_line_in_the_language_completes_what_is_typed() {
    let mut recall = Recall::new();
    recall.remember("git status", "sh");
    recall.remember("git stash", "sh");
    recall.remember("git stuff()", "lua");
    assert_eq!(recall.suggest("git st", Some("sh")).as_deref(), Some("ash"));
    assert_eq!(recall.suggest("git st", Some("lua")).as_deref(), Some("uff()"));
    assert_eq!(recall.suggest("git stash", Some("sh")), None, "a line does not extend itself");
    assert_eq!(recall.suggest("", Some("sh")), None);
    assert_eq!(recall.suggest("git", None), None);
}
