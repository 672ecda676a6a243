use oslo::highlight::{tokenize_for_highlight, TokenType};

#[test]
fn tokens_reassemble_into_the_original_line() {
    for line in ["echo hi", "ls -l | wc -l", "echo \"a b\" $HOME", "git commit -m 'x' && true"] {
        let joined: String = tokenize_for_highlight(line)
            .iter()
            .map(|(s, _)| s.as_str())
            .collect();
        assert_eq!(joined, line);
    }
}

#[test]
fn the_first_word_of_each_command_is_a_command() {
    let toks = tokenize_for_highlight("ls | wc");
    let commands: Vec<&str> = toks
        .iter()
        .filter(|(_, t)| *t == TokenType::Command)
        .map(|(s, _)| s.as_str())
        .collect();
    assert_eq!(commands, vec!["ls", "wc"]);
}

#[test]
fn every_kind_of_span_is_told_apart() {
    let toks = tokenize_for_highlight("cat -n $HOME 'a b' >> out");
    let kinds: Vec<TokenType> = toks.iter().map(|(_, t)| *t).collect();
    assert_eq!(
        kinds,
        vec![
            TokenType::Command,
            TokenType::Plain,
            TokenType::Flag,
            TokenType::Plain,
            TokenType::Variable,
            TokenType::Plain,
            TokenType::String,
            TokenType::Plain,
            TokenType::Operator,
            TokenType::Plain,
            TokenType::Command,
        ]
    );
    assert_eq!(toks[8].0, ">>");
}
