use scorch::ast::{consume_newlines, parse_program, try_parse_program, Node, ParseError};
use scorch::tokens::{create_tokenizer, Token, TokenFamily, TokenKind, TokenProcessor};

fn lex(input: &str) -> Vec<Token> {
    let mut tokenizer = create_tokenizer();
    tokenizer.try_tokenize(input).unwrap();
    tokenizer.tokens
}

fn parse(input: &str) -> Result<Node, ParseError> {
    try_parse_program(&lex(input))
}

fn shown(input: &str) -> String {
    format!("{:?}", parse(input).unwrap())
}

fn tok(family: TokenFamily, kind: TokenKind, value: &str) -> Token {
    Token { family, kind, value: value.to_string() }
}

#[test]
fn empty_program_is_an_empty_block() {
    assert_eq!(shown(""), "Block([])");
    assert_eq!(shown("\n\n"), "Block([])");
}

#[test]
fn dynamic_declaration() {
    assert_eq!(
        shown("x := 5\n"),
        "Block([DeclStmt { target_type: \"dynamic\", id: \"x\", expression: Expression(Number(\"5\")) }])"
    );
}

#[test]
fn typed_declaration() {
    assert_eq!(
        shown("x : Int = 5\n"),
        "Block([DeclStmt { target_type: \"Int\", id: \"x\", expression: Expression(Number(\"5\")) }])"
    );
}

#[test]
fn assignment_with_precedence() {
    assert_eq!(
        shown("a = 1 + 2 * 3\n"),
        "Block([AssignStmnt { id: Identifier(\"a\"), expression: Expression(AddOp(Number(\"1\"), MulOp(Number(\"2\"), Number(\"3\")))) }])"
    );
}

#[test]
fn subtraction_reads_from_the_left() {
    assert_eq!(
        shown("a = 1 - 2 - 3\n"),
        "Block([AssignStmnt { id: Identifier(\"a\"), expression: Expression(SubOp(SubOp(Number(\"1\"), Number(\"2\")), Number(\"3\"))) }])"
    );
}

#[test]
fn parentheses_group() {
    assert_eq!(
        shown("a = (1 + 2) / 3\n"),
        "Block([AssignStmnt { id: Identifier(\"a\"), expression: Expression(DivOp(Expression(AddOp(Number(\"1\"), Number(\"2\"))), Number(\"3\"))) }])"
    );
}

#[test]
fn unary_operators() {
    assert_eq!(
        shown("a = -b\n"),
        "Block([AssignStmnt { id: Identifier(\"a\"), expression: Expression(NegOp(Identifier(\"b\"))) }])"
    );
    assert_eq!(
        shown("a = !true\n"),
        "Block([AssignStmnt { id: Identifier(\"a\"), expression: Expression(NotOp(Bool(true))) }])"
    );
}

#[test]
fn strings_and_semicolons() {
    assert_eq!(
        shown("s := 'hi';\n"),
        "Block([DeclStmt { target_type: \"dynamic\", id: \"s\", expression: Expression(String(\"hi\")) }])"
    );
}

#[test]
fn nested_block() {
    assert_eq!(
        shown("{\nx := 1\n}\n"),
        "Block([Block([DeclStmt { target_type: \"dynamic\", id: \"x\", expression: Expression(Number(\"1\")) }])])"
    );
}

#[test]
fn last_statement_may_end_the_text() {
    assert_eq!(
        shown("x := 1"),
        "Block([DeclStmt { target_type: \"dynamic\", id: \"x\", expression: Expression(Number(\"1\")) }])"
    );
}

#[test]
fn relational_and_logical_operators() {
    let tokens = vec![
        tok(TokenFamily::Identifier, TokenKind::Identifier, "a"),
        tok(TokenFamily::Operator, TokenKind::Assignment, "="),
        tok(TokenFamily::Value, TokenKind::Number, "1"),
        tok(TokenFamily::Operator, TokenKind::LeftAngle, "<"),
        tok(TokenFamily::Value, TokenKind::Number, "2"),
        tok(TokenFamily::Operator, TokenKind::LogicalAnd, "&&"),
        tok(TokenFamily::Value, TokenKind::Bool, "true"),
        tok(TokenFamily::Operator, TokenKind::Newline, "\n"),
    ];
    let program = try_parse_program(&tokens).unwrap();
    assert_eq!(
        format!("{:?}", program),
        "Block([AssignStmnt { id: Identifier(\"a\"), expression: Expression(LogicalExpression { lhs: RelationalExpression { lhs: Number(\"1\"), op: LeftAngle, rhs: Number(\"2\") }, op: LogicalAnd, rhs: Bool(true) }) }])"
    );
}

#[test]
fn parse_program_agrees_with_try_parse_program() {
    let tokens = lex("x := 2 * 3\n");
    assert_eq!(
        format!("{:?}", parse_program(&tokens)),
        format!("{:?}", try_parse_program(&tokens).unwrap())
    );
}

#[test]
fn keyword_statements_are_not_supported() {
    assert_eq!(parse("for x\n").unwrap_err(), ParseError::KeywordsNotImplemented);
}

#[test]
fn identifier_needs_declaration_or_assignment() {
    assert_eq!(parse("x + 1\n").unwrap_err(), ParseError::ExpectedDeclarationOrAssignment);
}

#[test]
fn typed_declaration_needs_assignment() {
    assert_eq!(parse("x : Int 5\n").unwrap_err(), ParseError::ExpectedAssignment);
}

#[test]
fn statement_cannot_start_with_a_value() {
    assert_eq!(parse("5 + 1\n").unwrap_err(), ParseError::ExpectedStatementStart);
}

#[test]
fn statement_cannot_start_with_other_operators() {
    assert_eq!(parse("+ 1\n").unwrap_err(), ParseError::ExpectedBrace);
}

#[test]
fn expression_followed_by_a_stray_token() {
    assert_eq!(parse("x := 1 y\n").unwrap_err(), ParseError::UnexpectedToken);
    // a closing brace right after an expression does not end it
    assert_eq!(parse("{\nx := 1 }\n").unwrap_err(), ParseError::UnexpectedToken);
}

#[test]
fn missing_operand() {
    assert_eq!(parse("x := \n").unwrap_err(), ParseError::ExpectedOperand);
    assert_eq!(parse("x :=").unwrap_err(), ParseError::UnexpectedEndOfTokens);
    assert_eq!(parse("x : Int").unwrap_err(), ParseError::UnexpectedEndOfTokens);
}

#[test]
fn malformed_number() {
    assert_eq!(parse("x := 1.2.3\n").unwrap_err(), ParseError::InvalidNumber);
    assert_eq!(
        shown("x := 1.\n"),
        "Block([DeclStmt { target_type: \"dynamic\", id: \"x\", expression: Expression(Number(\"1.\")) }])"
    );
}

#[test]
fn malformed_boolean() {
    let tokens = vec![
        tok(TokenFamily::Identifier, TokenKind::Identifier, "a"),
        tok(TokenFamily::Operator, TokenKind::Assignment, "="),
        tok(TokenFamily::Value, TokenKind::Bool, "yes"),
    ];
    assert_eq!(try_parse_program(&tokens).unwrap_err(), ParseError::InvalidBool);
}

#[test]
fn lone_last_token_is_not_a_statement() {
    assert_eq!(parse("x").unwrap_err(), ParseError::ExpectedStatement);
    assert_eq!(shown(";"), "Block([])");
}

#[test]
fn consume_newlines_stops_at_the_last_token() {
    let tokens = lex("\n\nx\n\n");
    let mut index = 0;
    let token = consume_newlines(&mut index, &tokens);
    assert_eq!(index, 2);
    assert_eq!(token.value, "x");
    let mut index = 3;
    let token = consume_newlines(&mut index, &tokens);
    assert_eq!(index, 4);
    assert_eq!(token.kind, TokenKind::Newline);
}
