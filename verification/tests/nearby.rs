use oslo::recall::nearby::{tail_of, Memos, NearbyStep, MEMOS};

#[test]
fn a_prefix_that_found_nothing_answers_for_every_longer_one() {
    let mut memos = Memos::new();
    memos.remember_answer("/w/beta", "sh", "zz", None);

    assert_eq!(memos.remembered_answer("/w/beta", "sh", "zzz"), Some(None));
    assert_eq!(
        memos.remembered_answer("/w/beta", "sh", "z"),
        None,
        "a shorter prefix is a wider question and has to be asked"
    );
    assert_eq!(
        memos.remembered_answer("/w/alpha", "sh", "zzz"),
        None,
        "another worktree is a different question"
    );
    assert_eq!(
        memos.remembered_answer("/w/beta", "lua", "zzz"),
        None,
        "and so is another language"
    );
}

#[test]
fn an_answer_still_ahead_of_the_field_is_not_asked_for_again() {
    let mut memos = Memos::new();
    memos.remember_answer("/w/beta", "sh", "c", Some("cargo run --example abc"));

    assert_eq!(
        memos.remembered_answer("/w/beta", "sh", "cargo run"),
        Some(Some("cargo run --example abc".to_string()))
    );
    assert_eq!(
        memos.remembered_answer("/w/beta", "sh", "cargo test"),
        None,
        "typed away from it: the field has changed and the store has to rank it again"
    );
    assert_eq!(
        memos.remembered_answer("/w/beta", "sh", "cargo run --example abc"),
        None,
        "typed all of it: what comes next is something this has never seen"
    );
}

#[test]
fn the_prefix_that_ranked_the_narrowest_field_is_the_one_that_answers() {
    let mut memos = Memos::new();
    memos.remember_answer("/w/beta", "sh", "c", Some("cargo build --release"));
    memos.remember_answer("/w/beta", "sh", "cargo b", Some("cargo build --workspace"));

    assert_eq!(
        memos.remembered_answer("/w/beta", "sh", "cargo bu"),
        Some(Some("cargo build --workspace".to_string())),
        "both still fit, and the one asked of the narrower field wins"
    );
}

#[test]
fn a_line_just_typed_forgets_the_answers_it_could_change() {
    let mut memos = Memos::new();
    memos.remember_answer("/w/beta", "sh", "car", Some("cargo build"));
    memos.remember_answer("/w/beta", "sh", "ls", None);
    memos.remember_answer("/w/beta", "lua", "car", Some("caret()"));

    memos.forget_answers_for("cargo run --example new", "sh");

    assert_eq!(
        memos.remembered_answer("/w/beta", "sh", "cargo r"),
        None,
        "the new line could be the answer to that now"
    );
    assert_eq!(
        memos.remembered_answer("/w/beta", "sh", "ls -la"),
        Some(None),
        "a prefix the new line does not start with cannot have changed"
    );
    assert_eq!(
        memos.remembered_answer("/w/beta", "lua", "care"),
        Some(Some("caret()".to_string())),
        "and a shell line changes nothing about what Lua would be offered"
    );

    memos.remember_answer("/w/beta", "sh", "car", Some("cargo build"));
    memos.forget_answers_for("cargo build", "sh");
    assert_eq!(
        memos.remembered_answer("/w/beta", "sh", "cargo b"),
        Some(Some("cargo build".to_string())),
        "one more run of the line already at the top of the order leaves it there"
    );

    memos.forget_answers();
    assert_eq!(memos.remembered_answer("/w/beta", "sh", "ls -la"), None);
}

#[test]
fn the_oldest_memo_goes_first_when_the_list_is_full() {
    let mut memos = Memos::new();
    memos.remember_answer("/w", "sh", "a", None);
    for i in 0..MEMOS {
        memos.remember_answer("/w", "sh", &format!("b{i}"), None);
    }
    assert_eq!(memos.remembered_answer("/w", "sh", "apple"), None);
    assert_eq!(memos.remembered_answer("/w", "sh", "b0x"), Some(None));
}

#[test]
fn equal_prefixes_answer_with_the_latest() {
    let mut memos = Memos::new();
    memos.remember_answer("/w", "sh", "gi", Some("git status"));
    memos.remember_answer("/w", "sh", "gi", Some("git stash"));
    assert_eq!(
        memos.remembered_answer("/w", "sh", "git s"),
        Some(Some("git stash".to_string()))
    );
}

#[test]
fn the_tail_is_what_the_line_adds() {
    assert_eq!(tail_of("cargo build", "cargo b"), Some("uild".to_string()));
    assert_eq!(tail_of("cargo build", "cargo build"), None);
    assert_eq!(tail_of("cargo build", "npm"), None);
    assert_eq!(tail_of("for f in *\ndo", "for"), None);
    assert_eq!(tail_of("→ x", "→"), Some(" x".to_string()));
}

fn found(step: NearbyStep) -> Option<String> {
    match step {
        NearbyStep::Found(t) => t,
        NearbyStep::AskWorkspace(root) => panic!("asked {root}"),
    }
}

#[test]
fn the_exact_directory_answers_first() {
    let memos = Memos::new();
    let step = memos.after_here(Some("git status"), Some("/w"), "sh", "git s");
    assert_eq!(found(step), Some("tatus".to_string()));
}

#[test]
fn outside_a_worktree_nothing_more_is_asked() {
    let memos = Memos::new();
    assert_eq!(found(memos.after_here(None, None, "sh", "git s")), None);
    assert_eq!(found(memos.after_here(Some("git s"), None, "sh", "git s")), None);
}

#[test]
fn the_worktree_is_asked_once_and_then_remembered() {
    let mut memos = Memos::new();
    match memos.after_here(None, Some("/w"), "sh", "car") {
        NearbyStep::AskWorkspace(root) => assert_eq!(root, "/w"),
        NearbyStep::Found(t) => panic!("settled without asking: {t:?}"),
    }
    let tail = memos.after_workspace("/w", "sh", "car", Some("cargo test"));
    assert_eq!(tail, Some("go test".to_string()));
    // A longer line the remembered answer still extends is not asked about again.
    let step = memos.after_here(None, Some("/w"), "sh", "carg");
    assert_eq!(found(step), Some("o test".to_string()));
}

#[test]
fn a_worktree_that_found_nothing_is_not_asked_again() {
    let mut memos = Memos::new();
    assert_eq!(memos.after_workspace("/w", "sh", "zz", None), None);
    assert_eq!(found(memos.after_here(None, Some("/w"), "sh", "zzz")), None);
}
