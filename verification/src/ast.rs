//! The parser: turns a stream of tokens into a syntax tree.
use vstd::prelude::*;
use crate::tokens::{
    Token, SpecToken, TokenKind, TokenFamily, token_views, TokenizerState, after_tokenize, all_well_formed,
    well_formed_token, lemma_tokenize_appends, operator_table, keyword_table,
};
use crate::literals::{parses_as_float, parse_bool, is_float_literal, bool_literal};

verus! {

/// A node of the syntax tree.
///
/// A number literal keeps the text of its token, which always reads as a floating-point
/// number (see `is_float_literal`).
#[derive(Debug)]
pub enum Node {
    Undefined(),
    Number(String),
    String(String),
    Identifier(String),
    RelationalExpression { lhs: Box<Node>, op: TokenKind, rhs: Box<Node> },
    BinaryOperation { lhs: Box<Node>, op: TokenKind, rhs: Box<Node> },
    AddOp(Box<Node>, Box<Node>),
    SubOp(Box<Node>, Box<Node>),
    MulOp(Box<Node>, Box<Node>),
    DivOp(Box<Node>, Box<Node>),
    NegOp(Box<Node>),
    NotOp(Box<Node>),
    Expression(Box<Node>),
    AssignStmnt { id: Box<Node>, expression: Box<Node> },
    DeclStmt { target_type: String, id: String, expression: Box<Node> },
    WhereStmnt { condition: Box<Node>, block: Box<Node>, or_stmnt: Option<Box<Node>> },
    OrStmnt { condition: Option<Box<Node>>, block: Box<Node>, or_stmnt: Option<Box<Node>> },
    Block(Vec<Box<Node>>),
    Bool(bool),
    LogicalExpression { lhs: Box<Node>, op: TokenKind, rhs: Box<Node> },
}

/// The mathematical value of a syntax tree.
pub enum SpecNode {
    Undefined,
    Number(Seq<char>),
    String(Seq<char>),
    Identifier(Seq<char>),
    RelationalExpression { lhs: Box<SpecNode>, op: TokenKind, rhs: Box<SpecNode> },
    BinaryOperation { lhs: Box<SpecNode>, op: TokenKind, rhs: Box<SpecNode> },
    AddOp(Box<SpecNode>, Box<SpecNode>),
    SubOp(Box<SpecNode>, Box<SpecNode>),
    MulOp(Box<SpecNode>, Box<SpecNode>),
    DivOp(Box<SpecNode>, Box<SpecNode>),
    NegOp(Box<SpecNode>),
    NotOp(Box<SpecNode>),
    Expression(Box<SpecNode>),
    AssignStmnt { id: Box<SpecNode>, expression: Box<SpecNode> },
    DeclStmt { target_type: Seq<char>, id: Seq<char>, expression: Box<SpecNode> },
    WhereStmnt { condition: Box<SpecNode>, block: Box<SpecNode>, or_stmnt: Option<Box<SpecNode>> },
    OrStmnt { condition: Option<Box<SpecNode>>, block: Box<SpecNode>, or_stmnt: Option<Box<SpecNode>> },
    Block(Seq<SpecNode>),
    Bool(bool),
    LogicalExpression { lhs: Box<SpecNode>, op: TokenKind, rhs: Box<SpecNode> },
}

/// Why a token stream does not form a program.
#[derive(Debug, Clone, Copy, PartialEq, Eq, Structural)]
pub enum ParseError {
    /// An operand or a declaration's type was expected and the tokens ran out.
    UnexpectedEndOfTokens,
    /// A statement starts with a keyword; keyword statements are not part of the language yet.
    KeywordsNotImplemented,
    /// An identifier that starts a statement is followed by neither `:=`, `:` nor `=`.
    ExpectedDeclarationOrAssignment,
    /// The type of an explicitly typed declaration is not followed by `=`.
    ExpectedAssignment,
    /// A statement starts with an operator other than `{`.
    ExpectedBrace,
    /// A statement starts with a value token.
    ExpectedStatementStart,
    /// A block's last token is neither a newline, `;` nor `}`, and starts no statement.
    ExpectedStatement,
    /// An expression is followed by a token that neither continues nor ends it.
    UnexpectedToken,
    /// An operand position holds a token that starts no operand.
    ExpectedOperand,
    /// A number token does not read as a floating-point number.
    InvalidNumber,
    /// A boolean token is neither `true` nor `false`.
    InvalidBool,
}

/// The view of an optional subtree.
pub open spec fn opt_view(o: Option<Box<Node>>) -> Option<Box<SpecNode>>
    decreases o, 1nat,
{
    match o {
        Some(b) => Some(Box::new(node_view(*b))),
        None => None,
    }
}

/// The view of a syntax tree.
pub open spec fn node_view(n: Node) -> SpecNode
    decreases n, 0nat,
{
    match n {
        Node::Undefined() => SpecNode::Undefined,
        Node::Number(s) => SpecNode::Number(s@),
        Node::String(s) => SpecNode::String(s@),
        Node::Identifier(s) => SpecNode::Identifier(s@),
        Node::RelationalExpression { lhs, op, rhs } => SpecNode::RelationalExpression {
            lhs: Box::new(node_view(*lhs)),
            op,
            rhs: Box::new(node_view(*rhs)),
        },
        Node::BinaryOperation { lhs, op, rhs } => SpecNode::BinaryOperation {
            lhs: Box::new(node_view(*lhs)),
            op,
            rhs: Box::new(node_view(*rhs)),
        },
        Node::AddOp(l, r) => SpecNode::AddOp(Box::new(node_view(*l)), Box::new(node_view(*r))),
        Node::SubOp(l, r) => SpecNode::SubOp(Box::new(node_view(*l)), Box::new(node_view(*r))),
        Node::MulOp(l, r) => SpecNode::MulOp(Box::new(node_view(*l)), Box::new(node_view(*r))),
        Node::DivOp(l, r) => SpecNode::DivOp(Box::new(node_view(*l)), Box::new(node_view(*r))),
        Node::NegOp(x) => SpecNode::NegOp(Box::new(node_view(*x))),
        Node::NotOp(x) => SpecNode::NotOp(Box::new(node_view(*x))),
        Node::Expression(x) => SpecNode::Expression(Box::new(node_view(*x))),
        Node::AssignStmnt { id, expression } => SpecNode::AssignStmnt {
            id: Box::new(node_view(*id)),
            expression: Box::new(node_view(*expression)),
        },
        Node::DeclStmt { target_type, id, expression } => SpecNode::DeclStmt {
            target_type: target_type@,
            id: id@,
            expression: Box::new(node_view(*expression)),
        },
        Node::WhereStmnt { condition, block, or_stmnt } => SpecNode::WhereStmnt {
            condition: Box::new(node_view(*condition)),
            block: Box::new(node_view(*block)),
            or_stmnt: opt_view(or_stmnt),
        },
        Node::OrStmnt { condition, block, or_stmnt } => SpecNode::OrStmnt {
            condition: opt_view(condition),
            block: Box::new(node_view(*block)),
            or_stmnt: opt_view(or_stmnt),
        },
        Node::Block(v) => SpecNode::Block(nodes_view(v@)),
        Node::Bool(b) => SpecNode::Bool(b),
        Node::LogicalExpression { lhs, op, rhs } => SpecNode::LogicalExpression {
            lhs: Box::new(node_view(*lhs)),
            op,
            rhs: Box::new(node_view(*rhs)),
        },
    }
}

/// The views of a sequence of subtrees.
pub open spec fn nodes_view(s: Seq<Box<Node>>) -> Seq<SpecNode>
    decreases s, s.len(),
{
    if s.len() == 0 {
        Seq::empty()
    } else {
        nodes_view(s.drop_last()).push(node_view(*s.last()))
    }
}

impl View for Node {
    type V = SpecNode;

    open spec fn view(&self) -> SpecNode {
        node_view(*self)
    }
}


/// Whether `k` joins two operands of a logical expression.
pub open spec fn is_logical_op(k: TokenKind) -> bool {
    k == TokenKind::LogicalAnd || k == TokenKind::LogicalOr
}

/// Whether `k` joins two operands of a relational expression.
pub open spec fn is_relational_op(k: TokenKind) -> bool {
    ||| k == TokenKind::Equals
    ||| k == TokenKind::NotEquals
    ||| k == TokenKind::LessThanEquals
    ||| k == TokenKind::GreaterThanEquals
    ||| k == TokenKind::LeftAngle
    ||| k == TokenKind::RightAngle
}

/// Whether `k` ends an expression (and is consumed with it).
pub open spec fn ends_expression(k: TokenKind) -> bool {
    ||| k == TokenKind::CloseParenthesis
    ||| k == TokenKind::Newline
    ||| k == TokenKind::Semicolon
    ||| k == TokenKind::Comma
}

/// The type name of a declaration made with `:=`.
pub open spec fn dynamic_word() -> Seq<char> {
    seq!['d', 'y', 'n', 'a', 'm', 'i', 'c']
}

/// An operand: a literal, an identifier, a parenthesised expression, or a negated or
/// inverted operand. On success, the operand and the position after it.
pub open spec fn p_factor(t: Seq<SpecToken>, i: int) -> Result<(SpecNode, int), ParseError>
    decreases t.len() - i, 0int,
{
    if i < 0 || i >= t.len() {
        Err(ParseError::UnexpectedEndOfTokens)
    } else {
        let tok = t[i];
        match tok.kind {
            TokenKind::Number => if is_float_literal(tok.value) {
                Ok((SpecNode::Number(tok.value), i + 1))
            } else {
                Err(ParseError::InvalidNumber)
            },
            TokenKind::Identifier => Ok((SpecNode::Identifier(tok.value), i + 1)),
            TokenKind::String => Ok((SpecNode::String(tok.value), i + 1)),
            TokenKind::OpenParenthesis => p_expression(t, i + 1),
            TokenKind::Subtract => match p_factor(t, i + 1) {
                Ok((n, j)) => Ok((SpecNode::NegOp(Box::new(n)), j)),
                Err(e) => Err(e),
            },
            TokenKind::Not => match p_factor(t, i + 1) {
                Ok((n, j)) => Ok((SpecNode::NotOp(Box::new(n)), j)),
                Err(e) => Err(e),
            },
            TokenKind::Bool => match bool_literal(tok.value) {
                Some(b) => Ok((SpecNode::Bool(b), i + 1)),
                None => Err(ParseError::InvalidBool),
            },
            _ => Err(ParseError::ExpectedOperand),
        }
    }
}

/// The product `left (('*' | '/') operand)*` whose first operand `left` ends before `i`.
pub open spec fn p_term_rest(t: Seq<SpecToken>, i: int, left: SpecNode) -> Result<(SpecNode, int), ParseError>
    decreases t.len() - i, 1int,
{
    if 0 <= i < t.len() && (t[i].kind == TokenKind::Multiply || t[i].kind == TokenKind::Divide) {
        match p_factor(t, i + 1) {
            Ok((r, j)) => if i < j <= t.len() {
                let n = if t[i].kind == TokenKind::Multiply {
                    SpecNode::MulOp(Box::new(left), Box::new(r))
                } else {
                    SpecNode::DivOp(Box::new(left), Box::new(r))
                };
                p_term_rest(t, j, n)
            } else {
                Err(ParseError::UnexpectedEndOfTokens)
            },
            Err(e) => Err(e),
        }
    } else {
        Ok((left, i))
    }
}

/// A product of operands, read from the left.
pub open spec fn p_term(t: Seq<SpecToken>, i: int) -> Result<(SpecNode, int), ParseError>
    decreases t.len() - i, 1int,
{
    match p_factor(t, i) {
        Ok((l, j)) => if i < j <= t.len() {
            p_term_rest(t, j, l)
        } else {
            Err(ParseError::UnexpectedEndOfTokens)
        },
        Err(e) => Err(e),
    }
}

/// The sum `left (('+' | '-') product)*` whose first product `left` ends before `i`.
pub open spec fn p_addition_rest(t: Seq<SpecToken>, i: int, left: SpecNode) -> Result<(SpecNode, int), ParseError>
    decreases t.len() - i, 2int,
{
    if 0 <= i < t.len() && (t[i].kind == TokenKind::Add || t[i].kind == TokenKind::Subtract) {
        match p_term(t, i + 1) {
            Ok((r, j)) => if i < j <= t.len() {
                let n = if t[i].kind == TokenKind::Add {
                    SpecNode::AddOp(Box::new(left), Box::new(r))
                } else {
                    SpecNode::SubOp(Box::new(left), Box::new(r))
                };
                p_addition_rest(t, j, n)
            } else {
                Err(ParseError::UnexpectedEndOfTokens)
            },
            Err(e) => Err(e),
        }
    } else {
        Ok((left, i))
    }
}

/// A sum of products, read from the left.
pub open spec fn p_addition(t: Seq<SpecToken>, i: int) -> Result<(SpecNode, int), ParseError>
    decreases t.len() - i, 2int,
{
    match p_term(t, i) {
        Ok((l, j)) => if i < j <= t.len() {
            p_addition_rest(t, j, l)
        } else {
            Err(ParseError::UnexpectedEndOfTokens)
        },
        Err(e) => Err(e),
    }
}

/// The comparison chain `left (relational-operator sum)*` whose first sum ends before `i`.
pub open spec fn p_relational_rest(t: Seq<SpecToken>, i: int, left: SpecNode) -> Result<(SpecNode, int), ParseError>
    decreases t.len() - i, 3int,
{
    if 0 <= i < t.len() && is_relational_op(t[i].kind) {
        match p_addition(t, i + 1) {
            Ok((r, j)) => if i < j <= t.len() {
                p_relational_rest(
                    t,
                    j,
                    SpecNode::RelationalExpression { lhs: Box::new(left), op: t[i].kind, rhs: Box::new(r) },
                )
            } else {
                Err(ParseError::UnexpectedEndOfTokens)
            },
            Err(e) => Err(e),
        }
    } else {
        Ok((left, i))
    }
}

/// A chain of comparisons of sums, read from the left.
pub open spec fn p_relational(t: Seq<SpecToken>, i: int) -> Result<(SpecNode, int), ParseError>
    decreases t.len() - i, 3int,
{
    match p_addition(t, i) {
        Ok((l, j)) => if i < j <= t.len() {
            p_relational_rest(t, j, l)
        } else {
            Err(ParseError::UnexpectedEndOfTokens)
        },
        Err(e) => Err(e),
    }
}

/// The chain `left (logical-operator comparison)*` whose first comparison ends before `i`.
pub open spec fn p_logical_rest(t: Seq<SpecToken>, i: int, left: SpecNode) -> Result<(SpecNode, int), ParseError>
    decreases t.len() - i, 4int,
{
    if 0 <= i < t.len() && is_logical_op(t[i].kind) {
        match p_relational(t, i + 1) {
            Ok((r, j)) => if i < j <= t.len() {
                p_logical_rest(
                    t,
                    j,
                    SpecNode::LogicalExpression { lhs: Box::new(left), op: t[i].kind, rhs: Box::new(r) },
                )
            } else {
                Err(ParseError::UnexpectedEndOfTokens)
            },
            Err(e) => Err(e),
        }
    } else {
        Ok((left, i))
    }
}

/// A chain of logical operations on comparisons, read from the left.
pub open spec fn p_logical(t: Seq<SpecToken>, i: int) -> Result<(SpecNode, int), ParseError>
    decreases t.len() - i, 4int,
{
    match p_relational(t, i) {
        Ok((l, j)) => if i < j <= t.len() {
            p_logical_rest(t, j, l)
        } else {
            Err(ParseError::UnexpectedEndOfTokens)
        },
        Err(e) => Err(e),
    }
}

/// What follows the first logical chain `left` of an expression: more logical operations,
/// then the end of the tokens, or one of `)`, a newline, `;` or `,`, which is consumed.
pub open spec fn p_expression_rest(t: Seq<SpecToken>, i: int, left: SpecNode) -> Result<(SpecNode, int), ParseError>
    decreases t.len() - i, 5int,
{
    if 0 <= i < t.len() {
        let k = t[i].kind;
        if is_logical_op(k) {
            match p_logical(t, i + 1) {
                Ok((r, j)) => if i < j <= t.len() {
                    p_expression_rest(
                        t,
                        j,
                        SpecNode::LogicalExpression { lhs: Box::new(left), op: k, rhs: Box::new(r) },
                    )
                } else {
                    Err(ParseError::UnexpectedEndOfTokens)
                },
                Err(e) => Err(e),
            }
        } else if ends_expression(k) {
            Ok((SpecNode::Expression(Box::new(left)), i + 1))
        } else {
            Err(ParseError::UnexpectedToken)
        }
    } else {
        Ok((SpecNode::Expression(Box::new(left)), i))
    }
}

/// An expression, wrapped in an `Expression` node, with the token that ends it.
pub open spec fn p_expression(t: Seq<SpecToken>, i: int) -> Result<(SpecNode, int), ParseError>
    decreases t.len() - i, 5int,
{
    match p_logical(t, i) {
        Ok((l, j)) => if i < j <= t.len() {
            p_expression_rest(t, j, l)
        } else {
            Err(ParseError::UnexpectedEndOfTokens)
        },
        Err(e) => Err(e),
    }
}

/// The position reached from `i` by passing over newlines, stopping at the last token.
pub open spec fn skip_newlines(t: Seq<SpecToken>, i: int) -> int
    decreases t.len() - i,
{
    if 0 <= i && i + 1 < t.len() && t[i].kind == TokenKind::Newline {
        skip_newlines(t, i + 1)
    } else {
        i
    }
}

/// Passing over newlines stays within the tokens and never moves back.
pub proof fn lemma_skip_newlines(t: Seq<SpecToken>, i: int)
    requires
        0 <= i < t.len(),
    ensures
        i <= skip_newlines(t, i) < t.len(),
        skip_newlines(t, skip_newlines(t, i)) == skip_newlines(t, i),
    decreases t.len() - i,
{
    if i + 1 < t.len() && t[i].kind == TokenKind::Newline {
        lemma_skip_newlines(t, i + 1);
    }
}

/// The declaration `id := expr` whose identifier is at `k`.
pub open spec fn p_dynamic_declaration(t: Seq<SpecToken>, k: int) -> Result<Option<(SpecNode, int)>, ParseError> {
    match p_expression(t, k + 2) {
        Ok((e, j)) => Ok(Some((
            SpecNode::DeclStmt { target_type: dynamic_word(), id: t[k].value, expression: Box::new(e) },
            j,
        ))),
        Err(e) => Err(e),
    }
}

/// The declaration `id : type = expr` whose identifier is at `k`.
pub open spec fn p_typed_declaration(t: Seq<SpecToken>, k: int) -> Result<Option<(SpecNode, int)>, ParseError> {
    if k + 3 >= t.len() {
        Err(ParseError::UnexpectedEndOfTokens)
    } else if t[k + 3].kind != TokenKind::Assignment {
        Err(ParseError::ExpectedAssignment)
    } else {
        match p_expression(t, k + 4) {
            Ok((e, j)) => Ok(Some((
                SpecNode::DeclStmt { target_type: t[k + 2].value, id: t[k].value, expression: Box::new(e) },
                j,
            ))),
            Err(e) => Err(e),
        }
    }
}

/// The assignment `id = expr` whose identifier is at `k`.
pub open spec fn p_assignment(t: Seq<SpecToken>, k: int) -> Result<Option<(SpecNode, int)>, ParseError> {
    match p_expression(t, k + 2) {
        Ok((e, j)) => Ok(Some((
            SpecNode::AssignStmnt { id: Box::new(SpecNode::Identifier(t[k].value)), expression: Box::new(e) },
            j,
        ))),
        Err(e) => Err(e),
    }
}

/// A statement that starts with the identifier at `k`: a declaration `id := expr`, a typed
/// declaration `id : type = expr` or an assignment `id = expr`.
pub open spec fn p_identifier_statement(t: Seq<SpecToken>, k: int) -> Result<Option<(SpecNode, int)>, ParseError> {
    match t[k + 1].kind {
        TokenKind::ColonEquals => p_dynamic_declaration(t, k),
        TokenKind::Colon => p_typed_declaration(t, k),
        TokenKind::Assignment => p_assignment(t, k),
        _ => Err(ParseError::ExpectedDeclarationOrAssignment),
    }
}

/// A statement, after any newlines: a declaration `id := expr`, a typed declaration
/// `id : type = expr`, an assignment `id = expr`, or a block `{ ... }`. `Ok(None)` when no
/// statement can start there because at most one token is left.
pub open spec fn p_statement(t: Seq<SpecToken>, i: int) -> Result<Option<(SpecNode, int)>, ParseError>
    decreases t.len() - i, 0int,
{
    if i < 0 || i >= t.len() {
        Ok(None)
    } else {
        let k = skip_newlines(t, i);
        proof {
            lemma_skip_newlines(t, i);
        }
        if k + 1 >= t.len() {
            Ok(None)
        } else {
            let tok = t[k];
            match tok.family {
                TokenFamily::Keyword => Err(ParseError::KeywordsNotImplemented),
                TokenFamily::Identifier => p_identifier_statement(t, k),
                TokenFamily::Operator => if tok.kind == TokenKind::OpenBrace {
                    match p_block_from(t, k + 1, Seq::empty()) {
                        Ok((b, j)) => Ok(Some((b, j))),
                        Err(e) => Err(e),
                    }
                } else {
                    Err(ParseError::ExpectedBrace)
                },
                _ => Err(ParseError::ExpectedStatementStart),
            }
        }
    }
}

/// The statements of a block from position `i` on, after the statements `acc` read so far:
/// up to and including a closing `}`, to the end of the tokens, or to a last newline or `;`.
pub open spec fn p_block_from(t: Seq<SpecToken>, i: int, acc: Seq<SpecNode>) -> Result<(SpecNode, int), ParseError>
    decreases t.len() - i, 1int,
{
    if i < 0 || i >= t.len() {
        Ok((SpecNode::Block(acc), i))
    } else {
        let k = skip_newlines(t, i);
        proof {
            lemma_skip_newlines(t, i);
        }
        if t[k].kind == TokenKind::CloseBrace {
            Ok((SpecNode::Block(acc), k + 1))
        } else {
            match p_statement(t, k) {
                Err(e) => Err(e),
                Ok(None) => if t[k].kind == TokenKind::Newline || t[k].kind == TokenKind::Semicolon {
                    Ok((SpecNode::Block(acc), k))
                } else {
                    Err(ParseError::ExpectedStatement)
                },
                Ok(Some((n, j))) => if k < j <= t.len() {
                    p_block_from(t, j, acc.push(n))
                } else {
                    Err(ParseError::UnexpectedEndOfTokens)
                },
            }
        }
    }
}

/// The program that a token stream forms: the block of all its statements.
pub open spec fn program_of(t: Seq<SpecToken>) -> Result<SpecNode, ParseError> {
    match p_block_from(t, 0, Seq::empty()) {
        Ok((n, _)) => Ok(n),
        Err(e) => Err(e),
    }
}

/// A parse result with the position it ended at, as the spec functions above give one.
pub open spec fn outcome(r: Result<Node, ParseError>, end: int) -> Result<(SpecNode, int), ParseError> {
    match r {
        Ok(n) => Ok((n@, end)),
        Err(e) => Err(e),
    }
}


/// Reads an operand (see `p_factor`), advancing `index` past it.
fn parse_factor(tokens: &Vec<Token>, index: &mut usize) -> (r: Result<Node, ParseError>)
    requires
        *old(index) <= tokens.len(),
    ensures
        outcome(r, *final(index) as int) == p_factor(token_views(tokens@), *old(index) as int),
        r is Ok ==> *old(index) < *final(index) <= tokens.len(),
    decreases tokens@.len() - *old(index), 0int,
{
    let ghost t = token_views(tokens@);
    if *index >= tokens.len() {
        return Err(ParseError::UnexpectedEndOfTokens);
    }
    let token = &tokens[*index];
    assert(t[*index as int] == token@);
    *index += 1;
    match token.kind {
        TokenKind::Number => {
            if parses_as_float(token.value.as_str()) {
                Ok(Node::Number(token.value.clone()))
            } else {
                Err(ParseError::InvalidNumber)
            }
        },
        TokenKind::Identifier => Ok(Node::Identifier(token.value.clone())),
        TokenKind::String => Ok(Node::String(token.value.clone())),
        TokenKind::OpenParenthesis => parse_expression(tokens, index),
        TokenKind::Subtract => match parse_factor(tokens, index) {
            Ok(n) => Ok(Node::NegOp(Box::new(n))),
            Err(e) => Err(e),
        },
        TokenKind::Not => match parse_factor(tokens, index) {
            Ok(n) => Ok(Node::NotOp(Box::new(n))),
            Err(e) => Err(e),
        },
        TokenKind::Bool => match parse_bool(token.value.as_str()) {
            Some(b) => Ok(Node::Bool(b)),
            None => Err(ParseError::InvalidBool),
        },
        _ => Err(ParseError::ExpectedOperand),
    }
}

/// Reads a product of operands (see `p_term`).
fn parse_term(tokens: &Vec<Token>, index: &mut usize) -> (r: Result<Node, ParseError>)
    requires
        *old(index) <= tokens.len(),
    ensures
        outcome(r, *final(index) as int) == p_term(token_views(tokens@), *old(index) as int),
        r is Ok ==> *old(index) < *final(index) <= tokens.len(),
    decreases tokens@.len() - *old(index), 1int,
{
    let ghost t = token_views(tokens@);
    let ghost start = *index as int;
    let mut left = match parse_factor(tokens, index) {
        Ok(n) => n,
        Err(e) => return Err(e),
    };
    loop
        invariant
            t == token_views(tokens@),
            start == *old(index),
            start < *index <= tokens.len(),
            p_term(t, start) == p_term_rest(t, *index as int, left@),
        ensures
            p_term(t, start) == Ok::<(SpecNode, int), ParseError>((left@, *index as int)),
            start < *index <= tokens.len(),
        decreases tokens.len() - *index,
    {
        if *index >= tokens.len() {
            break;
        }
        let kind = tokens[*index].kind;
        assert(t[*index as int].kind == kind);
        if kind == TokenKind::Multiply || kind == TokenKind::Divide {
            *index += 1;
            let right = match parse_factor(tokens, index) {
                Ok(n) => n,
                Err(e) => return Err(e),
            };
            left = if kind == TokenKind::Multiply {
                Node::MulOp(Box::new(left), Box::new(right))
            } else {
                Node::DivOp(Box::new(left), Box::new(right))
            };
        } else {
            break;
        }
    }
    Ok(left)
}

/// Reads a sum of products (see `p_addition`).
fn parse_addition(tokens: &Vec<Token>, index: &mut usize) -> (r: Result<Node, ParseError>)
    requires
        *old(index) <= tokens.len(),
    ensures
        outcome(r, *final(index) as int) == p_addition(token_views(tokens@), *old(index) as int),
        r is Ok ==> *old(index) < *final(index) <= tokens.len(),
    decreases tokens@.len() - *old(index), 2int,
{
    let ghost t = token_views(tokens@);
    let ghost start = *index as int;
    let mut left = match parse_term(tokens, index) {
        Ok(n) => n,
        Err(e) => return Err(e),
    };
    loop
        invariant
            t == token_views(tokens@),
            start == *old(index),
            start < *index <= tokens.len(),
            p_addition(t, start) == p_addition_rest(t, *index as int, left@),
        ensures
            p_addition(t, start) == Ok::<(SpecNode, int), ParseError>((left@, *index as int)),
            start < *index <= tokens.len(),
        decreases tokens.len() - *index,
    {
        if *index >= tokens.len() {
            break;
        }
        let kind = tokens[*index].kind;
        assert(t[*index as int].kind == kind);
        if kind == TokenKind::Add || kind == TokenKind::Subtract {
            *index += 1;
            let right = match parse_term(tokens, index) {
                Ok(n) => n,
                Err(e) => return Err(e),
            };
            left = if kind == TokenKind::Add {
                Node::AddOp(Box::new(left), Box::new(right))
            } else {
                Node::SubOp(Box::new(left), Box::new(right))
            };
        } else {
            break;
        }
    }
    Ok(left)
}

/// Whether `k` joins two operands of a relational expression.
fn is_relational_kind(k: TokenKind) -> (b: bool)
    ensures
        b == is_relational_op(k),
{
    k == TokenKind::Equals || k == TokenKind::NotEquals || k == TokenKind::LessThanEquals
        || k == TokenKind::GreaterThanEquals || k == TokenKind::LeftAngle || k == TokenKind::RightAngle
}

/// Reads a chain of comparisons (see `p_relational`).
fn parse_relational_expr(tokens: &Vec<Token>, index: &mut usize) -> (r: Result<Node, ParseError>)
    requires
        *old(index) <= tokens.len(),
    ensures
        outcome(r, *final(index) as int) == p_relational(token_views(tokens@), *old(index) as int),
        r is Ok ==> *old(index) < *final(index) <= tokens.len(),
    decreases tokens@.len() - *old(index), 3int,
{
    let ghost t = token_views(tokens@);
    let ghost start = *index as int;
    let mut left = match parse_addition(tokens, index) {
        Ok(n) => n,
        Err(e) => return Err(e),
    };
    loop
        invariant
            t == token_views(tokens@),
            start == *old(index),
            start < *index <= tokens.len(),
            p_relational(t, start) == p_relational_rest(t, *index as int, left@),
        ensures
            p_relational(t, start) == Ok::<(SpecNode, int), ParseError>((left@, *index as int)),
            start < *index <= tokens.len(),
        decreases tokens.len() - *index,
    {
        if *index >= tokens.len() {
            break;
        }
        let kind = tokens[*index].kind;
        assert(t[*index as int].kind == kind);
        if is_relational_kind(kind) {
            *index += 1;
            let right = match parse_addition(tokens, index) {
                Ok(n) => n,
                Err(e) => return Err(e),
            };
            left = Node::RelationalExpression { lhs: Box::new(left), op: kind, rhs: Box::new(right) };
        } else {
            break;
        }
    }
    Ok(left)
}

/// Reads a chain of logical operations (see `p_logical`).
fn parse_logical_expr(tokens: &Vec<Token>, index: &mut usize) -> (r: Result<Node, ParseError>)
    requires
        *old(index) <= tokens.len(),
    ensures
        outcome(r, *final(index) as int) == p_logical(token_views(tokens@), *old(index) as int),
        r is Ok ==> *old(index) < *final(index) <= tokens.len(),
    decreases tokens@.len() - *old(index), 4int,
{
    let ghost t = token_views(tokens@);
    let ghost start = *index as int;
    let mut left = match parse_relational_expr(tokens, index) {
        Ok(n) => n,
        Err(e) => return Err(e),
    };
    loop
        invariant
            t == token_views(tokens@),
            start == *old(index),
            start < *index <= tokens.len(),
            p_logical(t, start) == p_logical_rest(t, *index as int, left@),
        ensures
            p_logical(t, start) == Ok::<(SpecNode, int), ParseError>((left@, *index as int)),
            start < *index <= tokens.len(),
        decreases tokens.len() - *index,
    {
        if *index >= tokens.len() {
            break;
        }
        let kind = tokens[*index].kind;
        assert(t[*index as int].kind == kind);
        if kind == TokenKind::LogicalAnd || kind == TokenKind::LogicalOr {
            *index += 1;
            let right = match parse_relational_expr(tokens, index) {
                Ok(n) => n,
                Err(e) => return Err(e),
            };
            left = Node::LogicalExpression { lhs: Box::new(left), op: kind, rhs: Box::new(right) };
        } else {
            break;
        }
    }
    Ok(left)
}

/// Reads an expression and the token that ends it (see `p_expression`).
fn parse_expression(tokens: &Vec<Token>, index: &mut usize) -> (r: Result<Node, ParseError>)
    requires
        *old(index) <= tokens.len(),
    ensures
        outcome(r, *final(index) as int) == p_expression(token_views(tokens@), *old(index) as int),
        r is Ok ==> *old(index) < *final(index) <= tokens.len(),
    decreases tokens@.len() - *old(index), 5int,
{
    let ghost t = token_views(tokens@);
    let ghost start = *index as int;
    let mut left = match parse_logical_expr(tokens, index) {
        Ok(n) => n,
        Err(e) => return Err(e),
    };
    loop
        invariant_except_break
            p_expression(t, start) == p_expression_rest(t, *index as int, left@),
        invariant
            t == token_views(tokens@),
            start == *old(index),
            start < *index <= tokens.len(),
        ensures
            p_expression(t, start) == Ok::<(SpecNode, int), ParseError>(
                (SpecNode::Expression(Box::new(left@)), *index as int),
            ),
            start < *index <= tokens.len(),
        decreases tokens.len() - *index,
    {
        if *index >= tokens.len() {
            break;
        }
        let kind = tokens[*index].kind;
        assert(t[*index as int].kind == kind);
        if kind == TokenKind::LogicalAnd || kind == TokenKind::LogicalOr {
            *index += 1;
            let right = match parse_logical_expr(tokens, index) {
                Ok(n) => n,
                Err(e) => return Err(e),
            };
            left = Node::LogicalExpression { lhs: Box::new(left), op: kind, rhs: Box::new(right) };
        } else if kind == TokenKind::CloseParenthesis || kind == TokenKind::Newline || kind
            == TokenKind::Semicolon || kind == TokenKind::Comma {
            *index += 1;
            break;
        } else {
            return Err(ParseError::UnexpectedToken);
        }
    }
    Ok(Node::Expression(Box::new(left)))
}


/// A statement parse result with the position it ended at, as `p_statement` gives one.
pub open spec fn statement_outcome(r: Result<Option<Node>, ParseError>, end: int) -> Result<
    Option<(SpecNode, int)>,
    ParseError,
> {
    match r {
        Ok(Some(n)) => Ok(Some((n@, end))),
        Ok(None) => Ok(None),
        Err(e) => Err(e),
    }
}

/// A program parse result, as `program_of` gives one.
pub open spec fn tree_outcome(r: Result<Node, ParseError>) -> Result<SpecNode, ParseError> {
    match r {
        Ok(n) => Ok(n@),
        Err(e) => Err(e),
    }
}

/// The token at `index`.
fn get_current<'a>(tokens: &'a Vec<Token>, index: usize) -> (current: &'a Token)
    requires
        index < tokens.len(),
    ensures
        *current == tokens@[index as int],
{
    &tokens[index]
}

/// Passes over newlines from `index`, stopping at the last token, and gives the token reached.
pub fn consume_newlines<'a>(index: &mut usize, tokens: &'a Vec<Token>) -> (current: &'a Token)
    requires
        *old(index) < tokens.len(),
    ensures
        *final(index) == skip_newlines(token_views(tokens@), *old(index) as int),
        *current == tokens@[*final(index) as int],
{
    let ghost t = token_views(tokens@);
    let mut current = get_current(tokens, *index);
    while *index + 1 < tokens.len() && current.kind == TokenKind::Newline
        invariant
            t == token_views(tokens@),
            *old(index) <= *index < tokens.len(),
            skip_newlines(t, *old(index) as int) == skip_newlines(t, *index as int),
            *current == tokens@[*index as int],
            t[*index as int].kind == current.kind,
        decreases tokens.len() - *index,
    {
        *index += 1;
        current = get_current(tokens, *index);
    }
    current
}

/// Reads the declaration `id := expr` whose identifier is at `index`.
fn parse_dynamic_declaration(tokens: &Vec<Token>, index: &mut usize) -> (r: Result<Option<Node>, ParseError>)
    requires
        *old(index) + 1 < tokens.len(),
    ensures
        statement_outcome(r, *final(index) as int) == p_dynamic_declaration(
            token_views(tokens@),
            *old(index) as int,
        ),
        r matches Ok(Some(_)) ==> *old(index) < *final(index) <= tokens.len(),
        !(r matches Ok(None)),
{
    let ghost t = token_views(tokens@);
    let k = *index;
    let token = &tokens[k];
    assert(t[k as int] == token@);
    *index = k + 2;
    match parse_expression(tokens, index) {
        Ok(value) => {
            let target_type = "dynamic".to_owned();
            proof {
                reveal_strlit("dynamic");
                assert(target_type@ =~= dynamic_word());
            }
            let id = token.value.clone();
            Ok(Some(Node::DeclStmt { target_type, id, expression: Box::new(value) }))
        },
        Err(e) => Err(e),
    }
}

/// Reads the declaration `id : type = expr` whose identifier is at `index`.
fn parse_typed_declaration(tokens: &Vec<Token>, index: &mut usize) -> (r: Result<Option<Node>, ParseError>)
    requires
        *old(index) + 1 < tokens.len(),
    ensures
        statement_outcome(r, *final(index) as int) == p_typed_declaration(
            token_views(tokens@),
            *old(index) as int,
        ),
        r matches Ok(Some(_)) ==> *old(index) < *final(index) <= tokens.len(),
        !(r matches Ok(None)),
{
    let ghost t = token_views(tokens@);
    let k = *index;
    let token = &tokens[k];
    assert(t[k as int] == token@);
    *index = k + 2;
    if *index >= tokens.len() {
        return Err(ParseError::UnexpectedEndOfTokens);
    }
    let target_type_tkn = get_current(tokens, *index);
    assert(t[k + 2] == target_type_tkn@);
    let target_type = target_type_tkn.value.clone();
    *index = k + 3;
    if *index >= tokens.len() {
        return Err(ParseError::UnexpectedEndOfTokens);
    }
    assert(t[k + 3] == tokens@[k + 3]@);
    if tokens[*index].kind != TokenKind::Assignment {
        return Err(ParseError::ExpectedAssignment);
    }
    *index = k + 4;
    match parse_expression(tokens, index) {
        Ok(expression) => {
            let id = token.value.clone();
            Ok(Some(Node::DeclStmt { target_type, id, expression: Box::new(expression) }))
        },
        Err(e) => Err(e),
    }
}

/// Reads the assignment `id = expr` whose identifier is at `index`.
fn parse_assignment(tokens: &Vec<Token>, index: &mut usize) -> (r: Result<Option<Node>, ParseError>)
    requires
        *old(index) + 1 < tokens.len(),
    ensures
        statement_outcome(r, *final(index) as int) == p_assignment(token_views(tokens@), *old(index) as int),
        r matches Ok(Some(_)) ==> *old(index) < *final(index) <= tokens.len(),
        !(r matches Ok(None)),
{
    let ghost t = token_views(tokens@);
    let k = *index;
    let token = &tokens[k];
    assert(t[k as int] == token@);
    *index = k + 2;
    let id = Node::Identifier(token.value.clone());
    assert(id@ == SpecNode::Identifier(t[k as int].value));
    match parse_expression(tokens, index) {
        Ok(expression) => Ok(Some(Node::AssignStmnt { id: Box::new(id), expression: Box::new(expression) })),
        Err(e) => Err(e),
    }
}

/// Reads a statement that starts with the identifier at `index` (see `p_identifier_statement`).
fn parse_identifier_statement(tokens: &Vec<Token>, index: &mut usize) -> (r: Result<Option<Node>, ParseError>)
    requires
        *old(index) + 1 < tokens.len(),
    ensures
        statement_outcome(r, *final(index) as int) == p_identifier_statement(
            token_views(tokens@),
            *old(index) as int,
        ),
        r matches Ok(Some(_)) ==> *old(index) < *final(index) <= tokens.len(),
        !(r matches Ok(None)),
{
    let ghost t = token_views(tokens@);
    let k = *index;
    assert(t[k + 1] == tokens@[k + 1]@);
    match tokens[k + 1].kind {
        TokenKind::ColonEquals => parse_dynamic_declaration(tokens, index),
        TokenKind::Colon => parse_typed_declaration(tokens, index),
        TokenKind::Assignment => parse_assignment(tokens, index),
        _ => Err(ParseError::ExpectedDeclarationOrAssignment),
    }
}

/// Reads a statement (see `p_statement`).
fn parse_statement(tokens: &Vec<Token>, index: &mut usize) -> (r: Result<Option<Node>, ParseError>)
    requires
        *old(index) <= tokens.len(),
    ensures
        statement_outcome(r, *final(index) as int) == p_statement(token_views(tokens@), *old(index) as int),
        r matches Ok(Some(_)) ==> *old(index) < *final(index) <= tokens.len(),
        r matches Ok(None) ==> *final(index) == if *old(index) < tokens.len() {
            skip_newlines(token_views(tokens@), *old(index) as int)
        } else {
            *old(index) as int
        },
    decreases tokens@.len() - *old(index), 0int,
{
    let ghost t = token_views(tokens@);
    let ghost start = *index as int;
    if *index >= tokens.len() {
        return Ok(None);
    }
    let token = consume_newlines(index, tokens);
    proof {
        lemma_skip_newlines(t, start);
    }
    let k = *index;
    assert(t[k as int] == token@);
    if k + 1 >= tokens.len() {
        return Ok(None);
    }
    match token.family {
        TokenFamily::Keyword => Err(ParseError::KeywordsNotImplemented),
        TokenFamily::Identifier => parse_identifier_statement(tokens, index),
        TokenFamily::Operator => {
            if token.kind == TokenKind::OpenBrace {
                *index = k + 1;
                match parse_block(tokens, index) {
                    Ok(block) => Ok(Some(block)),
                    Err(e) => Err(e),
                }
            } else {
                Err(ParseError::ExpectedBrace)
            }
        },
        _ => Err(ParseError::ExpectedStatementStart),
    }
}

/// Reads the statements of a block (see `p_block_from`).
fn parse_block(tokens: &Vec<Token>, index: &mut usize) -> (r: Result<Node, ParseError>)
    requires
        *old(index) <= tokens.len(),
    ensures
        outcome(r, *final(index) as int) == p_block_from(
            token_views(tokens@),
            *old(index) as int,
            Seq::empty(),
        ),
        r is Ok ==> *old(index) <= *final(index) <= tokens.len(),
    decreases tokens@.len() - *old(index), 1int,
{
    let ghost t = token_views(tokens@);
    let ghost start = *index as int;
    let mut statements: Vec<Box<Node>> = Vec::new();
    assert(nodes_view(statements@) =~= Seq::<SpecNode>::empty());
    while *index < tokens.len()
        invariant_except_break
            p_block_from(t, start, Seq::empty()) == p_block_from(t, *index as int, nodes_view(statements@)),
        invariant
            t == token_views(tokens@),
            start == *old(index),
            start <= *index <= tokens.len(),
        ensures
            p_block_from(t, start, Seq::empty()) == Ok::<(SpecNode, int), ParseError>(
                (SpecNode::Block(nodes_view(statements@)), *index as int),
            ),
            start <= *index <= tokens.len(),
        decreases tokens.len() - *index,
    {
        let ghost i = *index as int;
        let token = consume_newlines(index, tokens);
        proof {
            lemma_skip_newlines(t, i);
        }
        assert(t[*index as int] == token@);
        if token.kind == TokenKind::CloseBrace {
            *index += 1;
            break;
        }
        let statement = parse_statement(tokens, index);
        match statement {
            Ok(Some(node)) => {
                let ghost before = statements@;
                statements.push(Box::new(node));
                assert(statements@.drop_last() =~= before);
            },
            Ok(None) => {
                if token.kind == TokenKind::Newline || token.kind == TokenKind::Semicolon {
                    break;
                }
                return Err(ParseError::ExpectedStatement);
            },
            Err(e) => return Err(e),
        }
    }
    Ok(Node::Block(statements))
}

/// Parses a whole token stream as the block of its statements (see `program_of`).
pub fn try_parse_program(tokens: &Vec<Token>) -> (r: Result<Node, ParseError>)
    ensures
        tree_outcome(r) == program_of(token_views(tokens@)),
{
    let mut index: usize = 0;
    parse_block(tokens, &mut index)
}

/// Parses a token stream that forms a program (see `program_of`).
pub fn parse_program(tokens: &Vec<Token>) -> (program: Node)
    requires
        program_of(token_views(tokens@)) is Ok,
    ensures
        program_of(token_views(tokens@)) == Ok::<SpecNode, ParseError>(program@),
{
    match try_parse_program(tokens) {
        Ok(program) => program,
        Err(_) => Node::Undefined(),
    }
}


/// Every boolean token of `t` holds `true` or `false`.
pub open spec fn booleans_literal(t: Seq<SpecToken>) -> bool {
    forall|j: int| 0 <= j < t.len() && (#[trigger] t[j]).kind == TokenKind::Bool ==> bool_literal(t[j].value) is Some
}

/// The parse result `r` is not the malformed-boolean error.
pub open spec fn no_bool_error<A>(r: Result<A, ParseError>) -> bool {
    !(r matches Err(e) && e == ParseError::InvalidBool)
}

proof fn lemma_factor_booleans(t: Seq<SpecToken>, i: int)
    requires
        booleans_literal(t),
    ensures
        no_bool_error(p_factor(t, i)),
    decreases t.len() - i, 0int,
{
    if 0 <= i < t.len() {
        let k = t[i].kind;
        if k == TokenKind::OpenParenthesis {
            lemma_expression_booleans(t, i + 1);
        } else if k == TokenKind::Subtract || k == TokenKind::Not {
            lemma_factor_booleans(t, i + 1);
        } else if k == TokenKind::Bool {
            assert(bool_literal(t[i].value) is Some);
        }
    }
}

proof fn lemma_term_rest_booleans(t: Seq<SpecToken>, i: int, left: SpecNode)
    requires
        booleans_literal(t),
    ensures
        no_bool_error(p_term_rest(t, i, left)),
    decreases t.len() - i, 1int,
{
    if 0 <= i < t.len() && (t[i].kind == TokenKind::Multiply || t[i].kind == TokenKind::Divide) {
        lemma_factor_booleans(t, i + 1);
        if let Ok((r, j)) = p_factor(t, i + 1) {
            if i < j <= t.len() {
                lemma_term_rest_booleans(t, j, SpecNode::MulOp(Box::new(left), Box::new(r)));
                lemma_term_rest_booleans(t, j, SpecNode::DivOp(Box::new(left), Box::new(r)));
            }
        }
    }
}

proof fn lemma_term_booleans(t: Seq<SpecToken>, i: int)
    requires
        booleans_literal(t),
    ensures
        no_bool_error(p_term(t, i)),
    decreases t.len() - i, 1int,
{
    lemma_factor_booleans(t, i);
    if let Ok((l, j)) = p_factor(t, i) {
        if i < j <= t.len() {
            lemma_term_rest_booleans(t, j, l);
        }
    }
}

proof fn lemma_addition_rest_booleans(t: Seq<SpecToken>, i: int, left: SpecNode)
    requires
        booleans_literal(t),
    ensures
        no_bool_error(p_addition_rest(t, i, left)),
    decreases t.len() - i, 2int,
{
    if 0 <= i < t.len() && (t[i].kind == TokenKind::Add || t[i].kind == TokenKind::Subtract) {
        lemma_term_booleans(t, i + 1);
        if let Ok((r, j)) = p_term(t, i + 1) {
            if i < j <= t.len() {
                lemma_addition_rest_booleans(t, j, SpecNode::AddOp(Box::new(left), Box::new(r)));
                lemma_addition_rest_booleans(t, j, SpecNode::SubOp(Box::new(left), Box::new(r)));
            }
        }
    }
}

proof fn lemma_addition_booleans(t: Seq<SpecToken>, i: int)
    requires
        booleans_literal(t),
    ensures
        no_bool_error(p_addition(t, i)),
    decreases t.len() - i, 2int,
{
    lemma_term_booleans(t, i);
    if let Ok((l, j)) = p_term(t, i) {
        if i < j <= t.len() {
            lemma_addition_rest_booleans(t, j, l);
        }
    }
}

proof fn lemma_relational_rest_booleans(t: Seq<SpecToken>, i: int, left: SpecNode)
    requires
        booleans_literal(t),
    ensures
        no_bool_error(p_relational_rest(t, i, left)),
    decreases t.len() - i, 3int,
{
    if 0 <= i < t.len() && is_relational_op(t[i].kind) {
        lemma_addition_booleans(t, i + 1);
        if let Ok((r, j)) = p_addition(t, i + 1) {
            if i < j <= t.len() {
                lemma_relational_rest_booleans(
                    t,
                    j,
                    SpecNode::RelationalExpression { lhs: Box::new(left), op: t[i].kind, rhs: Box::new(r) },
                );
            }
        }
    }
}

proof fn lemma_relational_booleans(t: Seq<SpecToken>, i: int)
    requires
        booleans_literal(t),
    ensures
        no_bool_error(p_relational(t, i)),
    decreases t.len() - i, 3int,
{
    lemma_addition_booleans(t, i);
    if let Ok((l, j)) = p_addition(t, i) {
        if i < j <= t.len() {
            lemma_relational_rest_booleans(t, j, l);
        }
    }
}

proof fn lemma_logical_rest_booleans(t: Seq<SpecToken>, i: int, left: SpecNode)
    requires
        booleans_literal(t),
    ensures
        no_bool_error(p_logical_rest(t, i, left)),
    decreases t.len() - i, 4int,
{
    if 0 <= i < t.len() && is_logical_op(t[i].kind) {
        lemma_relational_booleans(t, i + 1);
        if let Ok((r, j)) = p_relational(t, i + 1) {
            if i < j <= t.len() {
                lemma_logical_rest_booleans(
                    t,
                    j,
                    SpecNode::LogicalExpression { lhs: Box::new(left), op: t[i].kind, rhs: Box::new(r) },
                );
            }
        }
    }
}

proof fn lemma_logical_booleans(t: Seq<SpecToken>, i: int)
    requires
        booleans_literal(t),
    ensures
        no_bool_error(p_logical(t, i)),
    decreases t.len() - i, 4int,
{
    lemma_relational_booleans(t, i);
    if let Ok((l, j)) = p_relational(t, i) {
        if i < j <= t.len() {
            lemma_logical_rest_booleans(t, j, l);
        }
    }
}

proof fn lemma_expression_rest_booleans(t: Seq<SpecToken>, i: int, left: SpecNode)
    requires
        booleans_literal(t),
    ensures
        no_bool_error(p_expression_rest(t, i, left)),
    decreases t.len() - i, 5int,
{
    if 0 <= i < t.len() && is_logical_op(t[i].kind) {
        lemma_logical_booleans(t, i + 1);
        if let Ok((r, j)) = p_logical(t, i + 1) {
            if i < j <= t.len() {
                lemma_expression_rest_booleans(
                    t,
                    j,
                    SpecNode::LogicalExpression { lhs: Box::new(left), op: t[i].kind, rhs: Box::new(r) },
                );
            }
        }
    }
}

proof fn lemma_expression_booleans(t: Seq<SpecToken>, i: int)
    requires
        booleans_literal(t),
    ensures
        no_bool_error(p_expression(t, i)),
    decreases t.len() - i, 5int,
{
    lemma_logical_booleans(t, i);
    if let Ok((l, j)) = p_logical(t, i) {
        if i < j <= t.len() {
            lemma_expression_rest_booleans(t, j, l);
        }
    }
}

proof fn lemma_statement_booleans(t: Seq<SpecToken>, i: int)
    requires
        booleans_literal(t),
    ensures
        no_bool_error(p_statement(t, i)),
    decreases t.len() - i, 0int,
{
    if 0 <= i < t.len() {
        let k = skip_newlines(t, i);
        lemma_skip_newlines(t, i);
        if k + 1 < t.len() {
            lemma_expression_booleans(t, k + 2);
            lemma_expression_booleans(t, k + 4);
            if t[k].family == TokenFamily::Operator && t[k].kind == TokenKind::OpenBrace {
                lemma_block_booleans(t, k + 1, Seq::empty());
            }
        }
    }
}

proof fn lemma_block_booleans(t: Seq<SpecToken>, i: int, acc: Seq<SpecNode>)
    requires
        booleans_literal(t),
    ensures
        no_bool_error(p_block_from(t, i, acc)),
    decreases t.len() - i, 1int,
{
    if 0 <= i < t.len() {
        let k = skip_newlines(t, i);
        lemma_skip_newlines(t, i);
        if t[k].kind != TokenKind::CloseBrace {
            lemma_statement_booleans(t, k);
            if let Ok(Some((n, j))) = p_statement(t, k) {
                if k < j <= t.len() {
                    lemma_block_booleans(t, j, acc.push(n));
                }
            }
        }
    }
}

/// Law: a token stream whose boolean tokens all read `true` or `false`, as the lexer's always
/// do, never fails to parse for a malformed boolean.
pub proof fn lemma_literal_booleans_parse(t: Seq<SpecToken>)
    requires
        booleans_literal(t),
    ensures
        no_bool_error(program_of(t)),
{
    lemma_block_booleans(t, 0, Seq::empty());
}

/// Law: the tokens of a successful run of a lexer with the language's tables, appended to
/// well-formed ones, never fail to parse for a malformed boolean.
pub proof fn lemma_lexed_booleans_parse(st: TokenizerState, input: Seq<char>)
    requires
        st.index >= 0,
        st.operators == operator_table(),
        st.keywords == keyword_table(),
        all_well_formed(st.tokens, st.operators, st.keywords),
        after_tokenize(st, input) is Ok,
    ensures
        no_bool_error(program_of(after_tokenize(st, input)->Ok_0.tokens)),
{
    lemma_tokenize_appends(st, input);
    let st2 = after_tokenize(st, input)->Ok_0;
    let t = st2.tokens;
    assert forall|j: int| 0 <= j < t.len() && (#[trigger] t[j]).kind == TokenKind::Bool implies bool_literal(
        t[j].value,
    ) is Some by {
        assert(well_formed_token(t[j], st2.operators, st2.keywords));
        let v = t[j].value;
        if t[j].family == TokenFamily::Operator && operator_table().contains_key(v) {
            assert(operator_table()[v] != TokenKind::Bool);
        }
        if t[j].family == TokenFamily::Keyword && keyword_table().contains_key(v) {
            assert(keyword_table()[v] != TokenKind::Bool);
        }
    }
    lemma_literal_booleans_parse(t);
}

/// An identifier token is an operand by itself.
proof fn lemma_identifier_operand(t: Seq<SpecToken>, i: int)
    requires
        0 <= i < t.len(),
        t[i].kind == TokenKind::Identifier,
    ensures
        p_factor(t, i) == Ok::<(SpecNode, int), ParseError>((SpecNode::Identifier(t[i].value), i + 1)),
{
}

/// An identifier not followed by `*` or `/` is a product by itself.
proof fn lemma_identifier_term(t: Seq<SpecToken>, i: int)
    requires
        0 <= i < t.len(),
        t[i].kind == TokenKind::Identifier,
        i + 1 >= t.len() || !(t[i + 1].kind == TokenKind::Multiply || t[i + 1].kind == TokenKind::Divide),
    ensures
        p_term(t, i) == Ok::<(SpecNode, int), ParseError>((SpecNode::Identifier(t[i].value), i + 1)),
{
    lemma_identifier_operand(t, i);
    assert(p_term_rest(t, i + 1, SpecNode::Identifier(t[i].value)) == Ok::<(SpecNode, int), ParseError>(
        (SpecNode::Identifier(t[i].value), i + 1),
    ));
}

/// The identifier operand that token `i` of `t` is.
pub open spec fn id_node(t: Seq<SpecToken>, i: int) -> SpecNode {
    SpecNode::Identifier(t[i].value)
}

/// Law: `*` binds tighter than `+`, on either side: `a + b * c` adds `a` to the product of
/// `b` and `c`, and `a * b + c` adds the product of `a` and `b` to `c`.
pub proof fn lemma_products_bind_tighter(t: Seq<SpecToken>)
    requires
        t.len() == 5,
        t[0].kind == TokenKind::Identifier,
        t[2].kind == TokenKind::Identifier,
        t[4].kind == TokenKind::Identifier,
    ensures
        t[1].kind == TokenKind::Add && t[3].kind == TokenKind::Multiply ==> p_addition(t, 0)
            == Ok::<(SpecNode, int), ParseError>((
            SpecNode::AddOp(
                Box::new(id_node(t, 0)),
                Box::new(SpecNode::MulOp(Box::new(id_node(t, 2)), Box::new(id_node(t, 4)))),
            ),
            5,
        )),
        t[1].kind == TokenKind::Multiply && t[3].kind == TokenKind::Add ==> p_addition(t, 0)
            == Ok::<(SpecNode, int), ParseError>((
            SpecNode::AddOp(
                Box::new(SpecNode::MulOp(Box::new(id_node(t, 0)), Box::new(id_node(t, 2)))),
                Box::new(id_node(t, 4)),
            ),
            5,
        )),
{
    lemma_identifier_operand(t, 0);
    lemma_identifier_operand(t, 2);
    lemma_identifier_operand(t, 4);
    lemma_identifier_term(t, 4);
    if t[1].kind == TokenKind::Add && t[3].kind == TokenKind::Multiply {
        let bc = SpecNode::MulOp(Box::new(id_node(t, 2)), Box::new(id_node(t, 4)));
        assert(p_term_rest(t, 5, bc) == Ok::<(SpecNode, int), ParseError>((bc, 5)));
        assert(p_term_rest(t, 3, id_node(t, 2)) == Ok::<(SpecNode, int), ParseError>((bc, 5)));
        assert(p_term(t, 2) == Ok::<(SpecNode, int), ParseError>((bc, 5)));
        lemma_identifier_term(t, 0);
        let sum = SpecNode::AddOp(Box::new(id_node(t, 0)), Box::new(bc));
        assert(p_addition_rest(t, 5, sum) == Ok::<(SpecNode, int), ParseError>((sum, 5)));
        assert(p_addition_rest(t, 1, id_node(t, 0)) == Ok::<(SpecNode, int), ParseError>((sum, 5)));
    }
    if t[1].kind == TokenKind::Multiply && t[3].kind == TokenKind::Add {
        let ab = SpecNode::MulOp(Box::new(id_node(t, 0)), Box::new(id_node(t, 2)));
        assert(p_term_rest(t, 3, ab) == Ok::<(SpecNode, int), ParseError>((ab, 3)));
        assert(p_term_rest(t, 1, id_node(t, 0)) == Ok::<(SpecNode, int), ParseError>((ab, 3)));
        assert(p_term(t, 0) == Ok::<(SpecNode, int), ParseError>((ab, 3)));
        let sum = SpecNode::AddOp(Box::new(ab), Box::new(id_node(t, 4)));
        assert(p_addition_rest(t, 5, sum) == Ok::<(SpecNode, int), ParseError>((sum, 5)));
        assert(p_addition_rest(t, 3, ab) == Ok::<(SpecNode, int), ParseError>((sum, 5)));
    }
}

/// Law: `-` and `/` group from the left: `a - b - c` is `(a - b) - c` and `a / b / c` is
/// `(a / b) / c`.
pub proof fn lemma_left_grouping(t: Seq<SpecToken>)
    requires
        t.len() == 5,
        t[0].kind == TokenKind::Identifier,
        t[2].kind == TokenKind::Identifier,
        t[4].kind == TokenKind::Identifier,
    ensures
        t[1].kind == TokenKind::Subtract && t[3].kind == TokenKind::Subtract ==> p_addition(t, 0)
            == Ok::<(SpecNode, int), ParseError>((
            SpecNode::SubOp(
                Box::new(SpecNode::SubOp(Box::new(id_node(t, 0)), Box::new(id_node(t, 2)))),
                Box::new(id_node(t, 4)),
            ),
            5,
        )),
        t[1].kind == TokenKind::Divide && t[3].kind == TokenKind::Divide ==> p_term(t, 0)
            == Ok::<(SpecNode, int), ParseError>((
            SpecNode::DivOp(
                Box::new(SpecNode::DivOp(Box::new(id_node(t, 0)), Box::new(id_node(t, 2)))),
                Box::new(id_node(t, 4)),
            ),
            5,
        )),
{
    lemma_identifier_operand(t, 0);
    lemma_identifier_operand(t, 2);
    lemma_identifier_operand(t, 4);
    if t[1].kind == TokenKind::Subtract && t[3].kind == TokenKind::Subtract {
        lemma_identifier_term(t, 0);
        lemma_identifier_term(t, 2);
        lemma_identifier_term(t, 4);
        let ab = SpecNode::SubOp(Box::new(id_node(t, 0)), Box::new(id_node(t, 2)));
        let abc = SpecNode::SubOp(Box::new(ab), Box::new(id_node(t, 4)));
        assert(p_addition_rest(t, 5, abc) == Ok::<(SpecNode, int), ParseError>((abc, 5)));
        assert(p_addition_rest(t, 3, ab) == Ok::<(SpecNode, int), ParseError>((abc, 5)));
        assert(p_addition_rest(t, 1, id_node(t, 0)) == Ok::<(SpecNode, int), ParseError>((abc, 5)));
    }
    if t[1].kind == TokenKind::Divide && t[3].kind == TokenKind::Divide {
        let ab = SpecNode::DivOp(Box::new(id_node(t, 0)), Box::new(id_node(t, 2)));
        let abc = SpecNode::DivOp(Box::new(ab), Box::new(id_node(t, 4)));
        assert(p_term_rest(t, 5, abc) == Ok::<(SpecNode, int), ParseError>((abc, 5)));
        assert(p_term_rest(t, 3, ab) == Ok::<(SpecNode, int), ParseError>((abc, 5)));
        assert(p_term_rest(t, 1, id_node(t, 0)) == Ok::<(SpecNode, int), ParseError>((abc, 5)));
    }
}

/// Law: a comparison binds looser than a sum: `a < b + c` compares `a` with the sum of `b` and
/// `c`.
pub proof fn lemma_comparison_of_sums(t: Seq<SpecToken>)
    requires
        t.len() == 5,
        t[0].kind == TokenKind::Identifier,
        t[1].kind == TokenKind::LeftAngle,
        t[2].kind == TokenKind::Identifier,
        t[3].kind == TokenKind::Add,
        t[4].kind == TokenKind::Identifier,
    ensures
        p_relational(t, 0) == Ok::<(SpecNode, int), ParseError>((
            SpecNode::RelationalExpression {
                lhs: Box::new(id_node(t, 0)),
                op: TokenKind::LeftAngle,
                rhs: Box::new(SpecNode::AddOp(Box::new(id_node(t, 2)), Box::new(id_node(t, 4)))),
            },
            5,
        )),
{
    lemma_identifier_term(t, 0);
    lemma_identifier_term(t, 2);
    lemma_identifier_term(t, 4);
    let bc = SpecNode::AddOp(Box::new(id_node(t, 2)), Box::new(id_node(t, 4)));
    assert(p_addition_rest(t, 5, bc) == Ok::<(SpecNode, int), ParseError>((bc, 5)));
    assert(p_addition_rest(t, 3, id_node(t, 2)) == Ok::<(SpecNode, int), ParseError>((bc, 5)));
    assert(p_addition(t, 2) == Ok::<(SpecNode, int), ParseError>((bc, 5)));
    assert(p_addition_rest(t, 1, id_node(t, 0)) == Ok::<(SpecNode, int), ParseError>((id_node(t, 0), 1)));
    assert(p_addition(t, 0) == Ok::<(SpecNode, int), ParseError>((id_node(t, 0), 1)));
    let cmp = SpecNode::RelationalExpression { lhs: Box::new(id_node(t, 0)), op: TokenKind::LeftAngle, rhs: Box::new(bc) };
    assert(p_relational_rest(t, 5, cmp) == Ok::<(SpecNode, int), ParseError>((cmp, 5)));
}

} // verus!
