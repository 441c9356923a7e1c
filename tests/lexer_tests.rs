use ironcc::lexer::{tokenize, LexError, Lexer, TokenKind};

fn vals(src: &str) -> Vec<String> {
    tokenize("t.c".to_string(), src).unwrap().into_iter().map(|t| t.val).collect()
}

#[test]
fn tokenize_function() {
    let ts = tokenize("t.c".to_string(), "int main() { return 2+3*4; }").unwrap();
    let v: Vec<&str> = ts.iter().map(|t| t.val.as_str()).collect();
    assert_eq!(v, vec!["int", "main", "(", ")", "{", "return", "2", "+", "3", "*", "4", ";", "}", ""]);
    assert_eq!(ts[0].kind, TokenKind::Ident);
    assert_eq!(ts[4].kind, TokenKind::Symbol);
    assert_eq!(ts[6].kind, TokenKind::IntNum);
    assert_eq!(ts.last().unwrap().kind, TokenKind::Eof);
}

#[test]
fn keywords_are_classified() {
    let ts = tokenize("t.c".to_string(), "if else for while iffy").unwrap();
    assert_eq!(ts[0].kind, TokenKind::Keyword);
    assert_eq!(ts[1].kind, TokenKind::Keyword);
    assert_eq!(ts[2].kind, TokenKind::Keyword);
    assert_eq!(ts[3].kind, TokenKind::Keyword);
    assert_eq!(ts[4].kind, TokenKind::Ident);
}

#[test]
fn two_character_symbols() {
    assert_eq!(vals("a==b!=c<=d>=e<f>g=h"), vec![
        "a", "==", "b", "!=", "c", "<=", "d", ">=", "e", "<", "f", ">", "g", "=", "h", ""
    ]);
}

#[test]
fn brackets_and_floats() {
    let ts = tokenize("t.c".to_string(), "a[3] 1.5").unwrap();
    assert_eq!(ts[1].val, "[");
    assert_eq!(ts[3].val, "]");
    assert_eq!(ts[4].kind, TokenKind::FloatNum);
    assert_eq!(ts[4].val, "1.5");
}

#[test]
fn newlines_count_lines() {
    let ts = tokenize("t.c".to_string(), "a\nb\n\nc").unwrap();
    assert_eq!(ts[0].line, 0);
    assert_eq!(ts[1].line, 1);
    assert_eq!(ts[2].line, 3);
}

#[test]
fn include_directive_is_skipped() {
    assert_eq!(vals("#include <stdio.h>\nx"), vec!["x", ""]);
}

#[test]
fn unknown_directive_fails() {
    let r = tokenize("t.c".to_string(), "#define X");
    assert_eq!(r, Err(LexError::UnknownDirective(0)));
}

#[test]
fn unterminated_include_fails() {
    let r = tokenize("t.c".to_string(), "#include <abc");
    assert!(matches!(r, Err(LexError::Expected(_, _))));
}

#[test]
fn unknown_character_fails() {
    let r = tokenize("t.c".to_string(), "a\n@");
    assert_eq!(r, Err(LexError::UnknownCharacter('@', 1)));
}

#[test]
fn empty_input_is_one_eof() {
    let ts = tokenize("t.c".to_string(), "").unwrap();
    assert_eq!(ts.len(), 1);
    assert!(ts[0].is_eof());
}

#[test]
fn lexer_primitives() {
    let mut lx = Lexer::new("f.c".to_string(), "ab==");
    assert_eq!(lx.get_filepath(), "f.c");
    assert!(lx.starts_with("ab"));
    assert!(!lx.starts_with("b"));
    assert_eq!(lx.peek_next(), Some('a'));
    lx.advance_by(1);
    assert!(lx.starts_with("=="));
    let t = lx.read_symbol();
    assert_eq!(t.val, "==");
    assert_eq!(lx.peek_next(), None);
    let nl = lx.read_newline();
    assert_eq!(nl.kind, TokenKind::NewLine);
    assert_eq!(nl.line, 1);
}

#[test]
fn token_predicates() {
    let ts = tokenize("t.c".to_string(), "x").unwrap();
    assert!(ts[0].is_ident());
    assert!(ts[0].matches("x"));
    assert!(!ts[0].matches("y"));
    assert!(!ts[0].is_eof());
    assert!(ts[1].is_eof());
}

#[test]
fn skip_token_checks_text() {
    let mut lx = Lexer::new("f.c".to_string(), "< >");
    assert_eq!(lx.skip_token("<"), Ok(()));
    assert!(lx.skip_token("<").is_err());
}
