use rpn_calc::lex::lex;

#[test]
fn lex_empty() {
    let text = "";
    let have = lex(text);
    let want: Vec<String> = Vec::new();
    assert_eq!(have, want);
}

#[test]
fn lex_blank() {
    let text = "       ";
    let have = lex(text);
    let want: Vec<String> = Vec::new();
    assert_eq!(have, want);
}

#[test]
fn lex_word() {
    let text = "foo";
    let have = lex(text);
    let want = vec!["foo".to_string()];
    assert_eq!(have, want);
}

#[test]
fn lex_args() {
    let text = "1 2 add";
    let have = lex(text);
    let want = vec!["1".to_string(), "2".to_string(), "add".to_string()];
    assert_eq!(have, want);
}

#[test]
fn lex_mixed_whitespace() {
    let text = "\t1\n 2\r\n add ";
    let have = lex(text);
    let want = vec!["1".to_string(), "2".to_string(), "add".to_string()];
    assert_eq!(have, want);
}
