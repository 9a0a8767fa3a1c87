use rustuck::to_tokens;

fn has_tag(tags: &[String], tag: &str) -> bool {
    tags.iter().any(|t| t == tag)
}

#[test]
fn output_token_stream() {
    let tokens = to_tokens("Hello, world!", "input");
    assert_eq!(tokens.len(), 14);
}

#[test]
fn tokenizer_shape() {
    let text = "Hello, world!";
    let tokens = to_tokens(text, "input");
    // One token per character plus exactly one trailing sentinel.
    assert_eq!(tokens.len(), text.chars().count() + 1);
    for (i, c) in text.chars().enumerate() {
        assert_eq!(tokens[i].content(), c.to_string());
        assert!(has_tag(&tokens[i].tags, &c.to_string()));
        assert_eq!(has_tag(&tokens[i].tags, "ws"), c.is_whitespace());
    }
    let sentinel = tokens.last().unwrap();
    assert_eq!(sentinel.content(), "");
    assert_eq!(sentinel.tags, vec![" ".to_string(), "ws".to_string()]);
}

#[test]
fn tokenizer_empty_text_yields_only_sentinel() {
    let tokens = to_tokens("", "f");
    assert_eq!(tokens.len(), 1);
    assert_eq!(tokens[0].content(), "");
    assert!(has_tag(&tokens[0].tags, "ws"));
    assert!(has_tag(&tokens[0].tags, " "));
}

#[test]
fn tokenizer_tracks_lines_and_columns() {
    let tokens = to_tokens("ab\ncd", "f");
    assert_eq!(tokens[0].line, 0);
    assert_eq!(tokens[0].char, 0);
    assert_eq!(tokens[1].line, 0);
    assert_eq!(tokens[1].char, 1);
    // The newline itself still sits on the first line.
    assert_eq!(tokens[2].line, 0);
    assert_eq!(tokens[2].char, 2);
    assert_eq!(tokens[3].line, 1);
    assert_eq!(tokens[3].char, 0);
    assert_eq!(tokens[4].line, 1);
    assert_eq!(tokens[4].char, 1);
    // The sentinel follows the last character.
    assert_eq!(tokens[5].line, 1);
    assert_eq!(tokens[5].char, 2);
}

#[test]
fn tokenizer_keeps_file_label() {
    let tokens = to_tokens("x", "lib.tuck");
    assert!(tokens.iter().all(|t| t.file == "lib.tuck"));
}
