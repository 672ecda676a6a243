use oslo::command_spec::cargo;

/// The spec for `cargo` names its daily subcommands and its two global options.
#[test]
fn cargo_has_its_subcommands_and_options() {
    let spec = cargo();
    assert_eq!(spec.name, "cargo");
    let names: Vec<&str> = spec.subcommands.iter().map(|s| s.name).collect();
    assert_eq!(
        names,
        vec!["build", "run", "test", "check", "clean", "update", "fmt", "clippy"]
    );
    assert_eq!(spec.subcommands[0].options.len(), 5);
    assert_eq!(spec.subcommands[4].options[0].names, vec!["-p", "--package"]);
    let globals: Vec<&str> = spec.options.iter().map(|o| o.names[0]).collect();
    assert_eq!(globals, vec!["--version", "--help"]);
    assert!(spec.subcommands.iter().all(|s| s.subcommands.is_empty()));
}
