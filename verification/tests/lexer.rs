use scorch::tokens::{comment_pattern, create_tokenizer, strip_comments, LexError, Token, TokenFamily, TokenKind, TokenProcessor};

fn lex(input: &str) -> Result<Vec<Token>, LexError> {
    let mut tokenizer = create_tokenizer();
    tokenizer.try_tokenize(input)?;
    Ok(tokenizer.tokens)
}

fn kinds(tokens: &[Token]) -> Vec<TokenKind> {
    tokens.iter().map(|t| t.kind).collect()
}

fn values(tokens: &[Token]) -> Vec<String> {
    tokens.iter().map(|t| t.value.clone()).collect()
}

#[test]
fn declaration_is_four_tokens() {
    let tokens = lex("x := 5\n").unwrap();
    assert_eq!(
        kinds(&tokens),
        vec![TokenKind::Identifier, TokenKind::ColonEquals, TokenKind::Number, TokenKind::Newline]
    );
    assert_eq!(values(&tokens), vec!["x", ":=", "5", "\n"]);
    assert_eq!(tokens[0].family, TokenFamily::Identifier);
    assert_eq!(tokens[1].family, TokenFamily::Operator);
    assert_eq!(tokens[2].family, TokenFamily::Value);
    assert_eq!(tokens[3].family, TokenFamily::Operator);
}

#[test]
fn empty_input_gives_no_tokens() {
    assert!(lex("").unwrap().is_empty());
    assert!(lex("   \t ").unwrap().is_empty());
}

#[test]
fn strings_drop_their_quotes() {
    let tokens = lex("'hello world' \"x\"").unwrap();
    assert_eq!(kinds(&tokens), vec![TokenKind::String, TokenKind::String]);
    assert_eq!(values(&tokens), vec!["hello world", "x"]);
    assert_eq!(tokens[0].family, TokenFamily::Value);
}

#[test]
fn quotes_of_either_kind_close_a_string() {
    let tokens = lex("'a\"").unwrap();
    assert_eq!(values(&tokens), vec!["a"]);
}

#[test]
fn unterminated_string_is_an_error() {
    assert_eq!(lex("'abc").unwrap_err(), LexError::UnterminatedString);
}

#[test]
fn numbers_take_digits_and_points() {
    let tokens = lex("12.5 1.2.3 7").unwrap();
    assert_eq!(kinds(&tokens), vec![TokenKind::Number, TokenKind::Number, TokenKind::Number]);
    assert_eq!(values(&tokens), vec!["12.5", "1.2.3", "7"]);
}

#[test]
fn longest_operator_wins() {
    let tokens = lex("a :: b").unwrap();
    assert_eq!(kinds(&tokens), vec![TokenKind::Identifier, TokenKind::DubColon, TokenKind::Identifier]);
    let tokens = lex("x <= y").unwrap();
    assert_eq!(kinds(&tokens)[1], TokenKind::ReverseLambda);
    let tokens = lex("f => g").unwrap();
    assert_eq!(kinds(&tokens)[1], TokenKind::Lambda);
}

#[test]
fn a_run_of_punctuation_gives_one_operator() {
    let tokens = lex("1 +- 2").unwrap();
    assert_eq!(kinds(&tokens), vec![TokenKind::Number, TokenKind::Add, TokenKind::Number]);
    assert_eq!(values(&tokens), vec!["1", "+", "2"]);
}

#[test]
fn operator_followed_by_a_word() {
    let tokens = lex("-x").unwrap();
    assert_eq!(kinds(&tokens), vec![TokenKind::Subtract, TokenKind::Identifier]);
    assert_eq!(values(&tokens), vec!["-", "x"]);
}

#[test]
fn identifiers_may_hold_dashes_and_underscores() {
    let tokens = lex("my_var-2 _x").unwrap();
    // a leading underscore is punctuation, which forms no operator here
    assert_eq!(values(&tokens), vec!["my_var-2", "x"]);
    assert_eq!(kinds(&tokens), vec![TokenKind::Identifier, TokenKind::Identifier]);
}

#[test]
fn keywords_and_booleans() {
    let tokens = lex("for loop break typedef true false other").unwrap();
    assert_eq!(
        kinds(&tokens),
        vec![
            TokenKind::For,
            TokenKind::Loop,
            TokenKind::Break,
            TokenKind::Typedef,
            TokenKind::Bool,
            TokenKind::Bool,
            TokenKind::Identifier
        ]
    );
    assert_eq!(tokens[0].family, TokenFamily::Keyword);
    assert_eq!(tokens[4].family, TokenFamily::Value);
    assert_eq!(tokens[6].family, TokenFamily::Identifier);
}

#[test]
fn carriage_returns_are_newlines() {
    let tokens = lex("a\r\nb").unwrap();
    assert_eq!(
        kinds(&tokens),
        vec![TokenKind::Identifier, TokenKind::Newline, TokenKind::Newline, TokenKind::Identifier]
    );
    assert_eq!(tokens[1].value, "\n");
}

#[test]
fn line_comments_are_removed_with_their_newline() {
    let tokens = lex("a // note\nb").unwrap();
    assert_eq!(values(&tokens), vec!["a", "b"]);
}

#[test]
fn block_comments_are_removed() {
    let tokens = lex("a /* one */ b /* two */").unwrap();
    assert_eq!(values(&tokens), vec!["a", "b"]);
}

#[test]
fn all_single_operators() {
    let tokens = lex("( ) { } [ ] , ; : . = + - * / % !").unwrap();
    assert_eq!(
        kinds(&tokens),
        vec![
            TokenKind::OpenParenthesis,
            TokenKind::CloseParenthesis,
            TokenKind::OpenBrace,
            TokenKind::CloseBrace,
            TokenKind::OpenBracket,
            TokenKind::CloseBracket,
            TokenKind::Comma,
            TokenKind::Semicolon,
            TokenKind::Colon,
            TokenKind::Period,
            TokenKind::Assignment,
            TokenKind::Add,
            TokenKind::Subtract,
            TokenKind::Multiply,
            TokenKind::Divide,
            TokenKind::Modulo,
            TokenKind::Not
        ]
    );
}

#[test]
fn tokens_accumulate_over_calls() {
    let mut tokenizer = create_tokenizer();
    tokenizer.try_tokenize("a").unwrap();
    assert_eq!(tokenizer.tokens.len(), 1);
    assert_eq!(tokenizer.tokens[0].value, "a");
}

#[test]
fn control_characters_are_refused() {
    assert_eq!(lex("a \u{1} b").unwrap_err(), LexError::UnrecognizedCharacter);
}

#[test]
fn non_ascii_text_is_refused() {
    assert_eq!(lex("x := 'é'").unwrap_err(), LexError::NonAsciiInput);
}

#[test]
fn failed_tokenize_leaves_no_tokens() {
    let mut tokenizer = create_tokenizer();
    assert_eq!(tokenizer.try_tokenize("a '").unwrap_err(), LexError::UnterminatedString);
    assert!(tokenizer.tokens.is_empty());
}

#[test]
fn second_call_continues_at_the_reading_position() {
    let mut tokenizer = create_tokenizer();
    tokenizer.try_tokenize("a").unwrap();
    tokenizer.try_tokenize("bc").unwrap();
    assert_eq!(values(&tokenizer.tokens), vec!["a", "c"]);
}

#[test]
fn trailing_dash_also_starts_a_word() {
    let tokens = lex("a -").unwrap();
    assert_eq!(kinds(&tokens), vec![TokenKind::Identifier, TokenKind::Subtract, TokenKind::Identifier]);
    assert_eq!(values(&tokens), vec!["a", "-", "-"]);
}

#[test]
fn every_operator_token_is_in_the_table() {
    let table: Vec<(&str, TokenKind)> = vec![
        ("(", TokenKind::OpenParenthesis),
        (")", TokenKind::CloseParenthesis),
        ("{", TokenKind::OpenBrace),
        ("}", TokenKind::CloseBrace),
        (":=", TokenKind::ColonEquals),
        (":", TokenKind::Colon),
        ("+", TokenKind::Add),
        ("*", TokenKind::Multiply),
        ("=", TokenKind::Assignment),
        (";", TokenKind::Semicolon),
        (",", TokenKind::Comma),
    ];
    let tokens = lex("f := (a + b) * 3\n{ x : Int = 1; y = x, z }\n").unwrap();
    assert!(!tokens.is_empty());
    for t in &tokens {
        match t.family {
            TokenFamily::Operator if t.kind != TokenKind::Newline => {
                let entry = table.iter().find(|(v, _)| *v == t.value.as_str());
                assert_eq!(entry.map(|(_, k)| *k), Some(t.kind), "token {:?}", t);
            }
            TokenFamily::Value => assert!(matches!(t.kind, TokenKind::Number | TokenKind::String | TokenKind::Bool)),
            TokenFamily::Identifier => assert_eq!(t.kind, TokenKind::Identifier),
            _ => {}
        }
    }
}

#[test]
fn consume_moves_one_character() {
    let mut tokenizer = create_tokenizer();
    let mut c = 'x';
    assert!(!tokenizer.consume(&mut c));
    assert_eq!(c, 'x');
}

#[test]
fn the_comment_pattern() {
    assert_eq!(comment_pattern(), r"(//.*\n)|(/\*.*?\*/)");
}

#[test]
fn tokenize_reads_a_readable_text() {
    let mut tokenizer = create_tokenizer();
    tokenizer.tokenize("x := 'a' // note\n");
    assert_eq!(tokenizer.tokens.len(), 3);
    assert_eq!(tokenizer.tokens[2].value, "a");
}

#[test]
fn comments_are_stripped_as_stated() {
    assert_eq!(strip_comments("a // c\nb"), "a b");
    assert_eq!(strip_comments("a // c"), "a // c");
    assert_eq!(strip_comments("x /* y */ z"), "x  z");
    assert_eq!(strip_comments("x /* y \n */ z"), "x /* y \n */ z");
    assert_eq!(strip_comments("/*/ */"), "");
    assert_eq!(strip_comments("/**/x"), "x");
    assert_eq!(strip_comments("/*/x"), "/*/x");
    assert_eq!(strip_comments("///\n"), "");
    assert_eq!(strip_comments("a/*b*/c/*d*/e"), "ace");
    assert_eq!(strip_comments("// one\n// two\nz"), "z");
    assert_eq!(strip_comments("/* a */ b */"), " b */");
    assert_eq!(strip_comments("é // ü\nñ"), "é ñ");
}
