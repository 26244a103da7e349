//! The lexer: turns source text into a stream of tokens.
use vstd::prelude::*;
use vstd::hash_map::StringHashMap;
use vstd::string::StrSliceExecFns;
use vstd::utf8::{encode_utf8, is_ascii_chars};

verus! {

broadcast use vstd::string::is_ascii_spec_bytes;

/// The broad class a token belongs to.
#[derive(Debug, Clone, Copy, PartialEq, Eq, Structural)]
pub enum TokenFamily {
    Undefined,
    Value,
    Identifier,
    Operator,
    Keyword,
}

/// The precise kind of a token.
#[derive(Debug, Clone, Copy, PartialEq, Eq, Structural)]
pub enum TokenKind {
    Undefined,
    // values
    Number,
    String,
    Boolean,
    // identifiers
    Identifier,
    // operators
    Add,
    Subtract,
    Multiply,
    Divide,
    Modulo,
    // punctuation
    Newline,
    OpenParenthesis,
    CloseParenthesis,
    OpenBrace,
    CloseBrace,
    OpenBracket,
    CloseBracket,
    Comma,
    Semicolon,
    Colon,
    Period,
    For,
    Loop,
    Break,
    Typedef,
    // special operators
    ReverseLambda,
    Lambda,
    DubColon,
    ColonEquals,
    Assignment,
    Not,
    Bool,
    // operators the parser reads; the lexer's operator table does not produce them
    LogicalAnd,
    LogicalOr,
    Equals,
    NotEquals,
    LessThanEquals,
    GreaterThanEquals,
    LeftAngle,
    RightAngle,
}

/// A token as the lexer produces it.
#[derive(Debug, Clone)]
pub struct Token {
    pub family: TokenFamily,
    pub kind: TokenKind,
    pub value: String,
}

/// The mathematical value of a token.
pub struct SpecToken {
    pub family: TokenFamily,
    pub kind: TokenKind,
    pub value: Seq<char>,
}

impl View for Token {
    type V = SpecToken;

    open spec fn view(&self) -> SpecToken {
        SpecToken { family: self.family, kind: self.kind, value: self.value@ }
    }
}

/// The views of a sequence of tokens.
pub open spec fn token_views(ts: Seq<Token>) -> Seq<SpecToken> {
    ts.map_values(|t: Token| t@)
}

/// The operator table the lexer is created with.
pub open spec fn operator_table() -> Map<Seq<char>, TokenKind> {
    map![
        seq!['('] => TokenKind::OpenParenthesis,
        seq![')'] => TokenKind::CloseParenthesis,
        seq!['{'] => TokenKind::OpenBrace,
        seq!['}'] => TokenKind::CloseBrace,
        seq!['['] => TokenKind::OpenBracket,
        seq![']'] => TokenKind::CloseBracket,
        seq![','] => TokenKind::Comma,
        seq![';'] => TokenKind::Semicolon,
        seq![':', ':'] => TokenKind::DubColon,
        seq![':'] => TokenKind::Colon,
        seq![':', '='] => TokenKind::ColonEquals,
        seq!['.'] => TokenKind::Period,
        seq!['='] => TokenKind::Assignment,
        seq!['<', '='] => TokenKind::ReverseLambda,
        seq!['=', '>'] => TokenKind::Lambda,
        seq!['+'] => TokenKind::Add,
        seq!['-'] => TokenKind::Subtract,
        seq!['*'] => TokenKind::Multiply,
        seq!['/'] => TokenKind::Divide,
        seq!['%'] => TokenKind::Modulo,
        seq!['!'] => TokenKind::Not
    ]
}

/// The keyword table the lexer is created with.
pub open spec fn keyword_table() -> Map<Seq<char>, TokenKind> {
    map![
        seq!['f', 'o', 'r'] => TokenKind::For,
        seq!['l', 'o', 'o', 'p'] => TokenKind::Loop,
        seq!['b', 'r', 'e', 'a', 'k'] => TokenKind::Break,
        seq!['t', 'y', 'p', 'e', 'd', 'e', 'f'] => TokenKind::Typedef
    ]
}

/// Why a source text could not be tokenized.
#[derive(Debug, Clone, Copy, PartialEq, Eq, Structural)]
pub enum LexError {
    /// A string literal is opened and never closed.
    UnterminatedString,
    /// A character that no rule of the lexer consumes (an ASCII control character).
    UnrecognizedCharacter,
    /// A character outside ASCII stands at or after the reading position.
    NonAsciiInput,
    /// The text is too long for its length to be counted past its end.
    InputTooLong,
}

/// A single or a double quote, which delimit string literals.
pub open spec fn is_quote(c: char) -> bool {
    c == '\'' || c == '"'
}

/// A line feed or a carriage return, which end a line.
pub open spec fn is_line_break(c: char) -> bool {
    c == '\n' || c == '\r'
}

/// ASCII white space.
pub open spec fn is_space(c: char) -> bool {
    c == ' ' || c == '\t' || c == '\n' || c == '\x0B' || c == '\x0C' || c == '\r'
}

/// An ASCII decimal digit.
pub open spec fn is_digit(c: char) -> bool {
    '0' <= c && c <= '9'
}

/// An ASCII letter.
pub open spec fn is_letter(c: char) -> bool {
    ('a' <= c && c <= 'z') || ('A' <= c && c <= 'Z')
}

/// ASCII punctuation: the graphic characters that are neither letters nor digits.
pub open spec fn is_punctuation(c: char) -> bool {
    ('!' <= c && c <= '/') || (':' <= c && c <= '@') || ('[' <= c && c <= '`') || ('{' <= c && c
        <= '~')
}

/// A character that may start a word (identifier, keyword or boolean literal).
pub open spec fn is_word_start(c: char) -> bool {
    is_letter(c) || c == '_' || c == '-'
}

/// A character that may continue a word.
pub open spec fn is_word_char(c: char) -> bool {
    is_letter(c) || is_digit(c) || c == '_' || c == '-'
}

/// A character that may continue a number literal.
pub open spec fn is_number_char(c: char) -> bool {
    is_digit(c) || c == '.'
}

/// A character that may continue a run of operator characters.
pub open spec fn is_operator_char(c: char) -> bool {
    is_punctuation(c) && !is_quote(c)
}

/// The first position at or after `j` that holds a quote, or the end of `s`.
pub open spec fn string_end(s: Seq<char>, j: int) -> int
    decreases s.len() - j,
{
    if j >= s.len() || is_quote(s[j]) {
        j
    } else {
        string_end(s, j + 1)
    }
}

/// The first position at or after `j` that cannot continue a number, or the end of `s`.
pub open spec fn number_end(s: Seq<char>, j: int) -> int
    decreases s.len() - j,
{
    if j >= s.len() || !is_number_char(s[j]) {
        j
    } else {
        number_end(s, j + 1)
    }
}

/// The first position at or after `j` that cannot continue an operator run, or the end of `s`.
pub open spec fn operator_run_end(s: Seq<char>, j: int) -> int
    decreases s.len() - j,
{
    if j >= s.len() || !is_operator_char(s[j]) {
        j
    } else {
        operator_run_end(s, j + 1)
    }
}

/// The first position at or after `j` that cannot continue a word, or the end of `s`.
pub open spec fn word_end(s: Seq<char>, j: int) -> int
    decreases s.len() - j,
{
    if j >= s.len() || !is_word_char(s[j]) {
        j
    } else {
        word_end(s, j + 1)
    }
}

/// The largest `m` with `i < m <= end` such that `s[i..m]` is a key of `ops`.
pub open spec fn longest_operator(s: Seq<char>, i: int, end: int, ops: Map<Seq<char>, TokenKind>) -> Option<int>
    decreases end - i,
{
    if end <= i {
        None
    } else if ops.contains_key(s.subrange(i, end)) {
        Some(end)
    } else {
        longest_operator(s, i, end - 1, ops)
    }
}

/// The token a run of operator characters `s[i..end]` yields: its longest prefix that is an operator.
pub open spec fn operator_tokens(s: Seq<char>, i: int, end: int, ops: Map<Seq<char>, TokenKind>) -> Seq<SpecToken> {
    match longest_operator(s, i, end, ops) {
        Some(m) => seq![SpecToken { family: TokenFamily::Operator, kind: ops[s.subrange(i, m)], value: s.subrange(i, m) }],
        None => seq![],
    }
}

/// The literal `true`.
pub open spec fn true_word() -> Seq<char> {
    seq!['t', 'r', 'u', 'e']
}

/// The literal `false`.
pub open spec fn false_word() -> Seq<char> {
    seq!['f', 'a', 'l', 's', 'e']
}

/// The token a word yields: a boolean literal, a keyword, or an identifier.
pub open spec fn word_token(w: Seq<char>, kws: Map<Seq<char>, TokenKind>) -> SpecToken {
    if w == true_word() || w == false_word() {
        SpecToken { family: TokenFamily::Value, kind: TokenKind::Bool, value: w }
    } else if kws.contains_key(w) {
        SpecToken { family: TokenFamily::Keyword, kind: kws[w], value: w }
    } else {
        SpecToken { family: TokenFamily::Identifier, kind: TokenKind::Identifier, value: w }
    }
}

/// The newline token.
pub open spec fn newline_token() -> SpecToken {
    SpecToken { family: TokenFamily::Operator, kind: TokenKind::Newline, value: seq!['\n'] }
}

/// One step of the lexer at position `i < s.len()`: the position it moves to and the tokens it emits.
pub open spec fn lex_step(s: Seq<char>, i: int, ops: Map<Seq<char>, TokenKind>, kws: Map<Seq<char>, TokenKind>) -> Result<(int, Seq<SpecToken>), LexError> {
    let n = s.len() as int;
    let c = s[i];
    if is_quote(c) {
        let k = string_end(s, i + 1);
        if k >= n {
            Err(LexError::UnterminatedString)
        } else {
            Ok((k + 1, seq![SpecToken { family: TokenFamily::Value, kind: TokenKind::String, value: s.subrange(i + 1, k) }]))
        }
    } else if is_line_break(c) {
        Ok((i + 1, seq![newline_token()]))
    } else if is_space(c) {
        Ok((i + 1, seq![]))
    } else if is_digit(c) {
        let k = number_end(s, i + 1);
        Ok((k, seq![SpecToken { family: TokenFamily::Value, kind: TokenKind::Number, value: s.subrange(i, k) }]))
    } else if is_punctuation(c) {
        let k = operator_run_end(s, i + 1);
        let op = operator_tokens(s, i, k, ops);
        if k < n {
            if is_word_start(s[k]) {
                let q = word_end(s, k + 1);
                Ok((q, op.push(word_token(s.subrange(k, q), kws))))
            } else {
                Ok((k, op))
            }
        } else if s[n - 1] == '_' || s[n - 1] == '-' {
            Ok((n + 1, op.push(word_token(s.subrange(n - 1, n), kws))))
        } else {
            Ok((n, op))
        }
    } else if is_letter(c) {
        let q = word_end(s, i + 1);
        Ok((q, seq![word_token(s.subrange(i, q), kws)]))
    } else {
        Err(LexError::UnrecognizedCharacter)
    }
}

/// Puts `ts` in front of the tokens of a lexing result.
pub open spec fn prepend_tokens(ts: Seq<SpecToken>, r: Result<(int, Seq<SpecToken>), LexError>) -> Result<(int, Seq<SpecToken>), LexError> {
    match r {
        Ok((k, rest)) => Ok((k, ts + rest)),
        Err(e) => Err(e),
    }
}

/// Lexing `s` from position `i` to its end: the final position and the tokens emitted, or the error met.
pub open spec fn lex(s: Seq<char>, i: int, ops: Map<Seq<char>, TokenKind>, kws: Map<Seq<char>, TokenKind>) -> Result<(int, Seq<SpecToken>), LexError>
    decreases s.len() - i,
{
    if i >= s.len() {
        Ok((i, seq![]))
    } else {
        match lex_step(s, i, ops, kws) {
            Err(e) => Err(e),
            Ok((j, ts)) => if j <= i {
                Err(LexError::UnrecognizedCharacter)
            } else if j >= s.len() {
                Ok((j, ts))
            } else {
                prepend_tokens(ts, lex(s, j, ops, kws))
            },
        }
    }
}

/// The state of a tokenizer after it is handed the text `input`, or the error it stops at
/// (in which case the tokenizer is left as it was).
pub open spec fn after_tokenize(st: TokenizerState, input: Seq<char>) -> Result<TokenizerState, LexError> {
    if !is_ascii_chars(input) {
        let byte_len = byte_length(input);
        if st.index >= byte_len {
            Ok(TokenizerState { source: input, length: byte_len, ..st })
        } else {
            Err(LexError::NonAsciiInput)
        }
    } else {
        match lex(input, st.index, st.operators, st.keywords) {
            Ok((k, ts)) => Ok(TokenizerState { tokens: st.tokens + ts, source: input, index: k, length: input.len() as int, ..st }),
            Err(e) => Err(e),
        }
    }
}

proof fn lemma_string_end_bounds(s: Seq<char>, j: int)
    ensures
        string_end(s, j) >= j,
        j <= s.len() ==> string_end(s, j) <= s.len(),
    decreases s.len() - j,
{
    if !(j >= s.len() || is_quote(s[j])) {
        lemma_string_end_bounds(s, j + 1);
    }
}

proof fn lemma_number_end_bounds(s: Seq<char>, j: int)
    ensures
        number_end(s, j) >= j,
        j <= s.len() ==> number_end(s, j) <= s.len(),
    decreases s.len() - j,
{
    if !(j >= s.len() || !is_number_char(s[j])) {
        lemma_number_end_bounds(s, j + 1);
    }
}

proof fn lemma_operator_run_end_bounds(s: Seq<char>, j: int)
    ensures
        operator_run_end(s, j) >= j,
        j <= s.len() ==> operator_run_end(s, j) <= s.len(),
    decreases s.len() - j,
{
    if !(j >= s.len() || !is_operator_char(s[j])) {
        lemma_operator_run_end_bounds(s, j + 1);
    }
}

proof fn lemma_word_end_bounds(s: Seq<char>, j: int)
    ensures
        word_end(s, j) >= j,
        j <= s.len() ==> word_end(s, j) <= s.len(),
    decreases s.len() - j,
{
    if !(j >= s.len() || !is_word_char(s[j])) {
        lemma_word_end_bounds(s, j + 1);
    }
}

proof fn lemma_longest_operator(s: Seq<char>, i: int, end: int, ops: Map<Seq<char>, TokenKind>)
    ensures
        longest_operator(s, i, end, ops) matches Some(m) ==> i < m <= end && ops.contains_key(s.subrange(i, m)),
    decreases end - i,
{
    if end > i && !ops.contains_key(s.subrange(i, end)) {
        lemma_longest_operator(s, i, end - 1, ops);
    }
}

/// The length in bytes of the UTF-8 encoding of `s`, as `str::len` reports it.
pub open spec fn byte_length(s: Seq<char>) -> int {
    encode_utf8(s).len() as usize as int
}

/// Every step of the lexer moves forward, to at most one past the end.
proof fn lemma_lex_step_advances(s: Seq<char>, i: int, ops: Map<Seq<char>, TokenKind>, kws: Map<Seq<char>, TokenKind>)
    requires
        0 <= i < s.len(),
    ensures
        lex_step(s, i, ops, kws) matches Ok((j, _)) ==> i < j <= s.len() + 1,
{
    lemma_string_end_bounds(s, i + 1);
    lemma_number_end_bounds(s, i + 1);
    lemma_operator_run_end_bounds(s, i + 1);
    let k = operator_run_end(s, i + 1);
    if k < s.len() {
        lemma_word_end_bounds(s, k + 1);
    }
    lemma_word_end_bounds(s, i + 1);
}

/// Lexing from `i` is one step followed by lexing from where the step ends.
proof fn lemma_lex_unfold(s: Seq<char>, i: int, ops: Map<Seq<char>, TokenKind>, kws: Map<Seq<char>, TokenKind>)
    requires
        0 <= i < s.len(),
    ensures
        match lex_step(s, i, ops, kws) {
            Ok((j, ts)) => lex(s, i, ops, kws) == prepend_tokens(ts, lex(s, j, ops, kws)),
            Err(e) => lex(s, i, ops, kws) == Err::<(int, Seq<SpecToken>), LexError>(e),
        },
{
    lemma_lex_step_advances(s, i, ops, kws);
    if let Ok((j, ts)) = lex_step(s, i, ops, kws) {
        if j >= s.len() {
            assert(ts + Seq::<SpecToken>::empty() =~= ts);
        }
    }
}

proof fn lemma_prepend_twice(p: Seq<SpecToken>, q: Seq<SpecToken>, r: Result<(int, Seq<SpecToken>), LexError>)
    ensures
        prepend_tokens(p, prepend_tokens(q, r)) == prepend_tokens(p + q, r),
{
    if let Ok((k, rest)) = r {
        assert(p + (q + rest) =~= (p + q) + rest);
    }
}

/// An optional position, as a machine integer and as a mathematical one.
spec fn same_position(a: Option<usize>, b: Option<int>) -> bool {
    match a {
        Some(m) => b == Some(m as int),
        None => b is None,
    }
}

fn is_quote_char(c: char) -> (b: bool)
    ensures
        b == is_quote(c),
{
    c == '\'' || c == '"'
}

fn is_space_char(c: char) -> (b: bool)
    ensures
        b == is_space(c),
{
    c == ' ' || c == '\t' || c == '\n' || c == '\x0B' || c == '\x0C' || c == '\r'
}

fn is_digit_char(c: char) -> (b: bool)
    ensures
        b == is_digit(c),
{
    '0' <= c && c <= '9'
}

fn is_letter_char(c: char) -> (b: bool)
    ensures
        b == is_letter(c),
{
    ('a' <= c && c <= 'z') || ('A' <= c && c <= 'Z')
}

fn is_punctuation_char(c: char) -> (b: bool)
    ensures
        b == is_punctuation(c),
{
    ('!' <= c && c <= '/') || (':' <= c && c <= '@') || ('[' <= c && c <= '`') || ('{' <= c && c
        <= '~')
}

fn is_word_char_exec(c: char) -> (b: bool)
    ensures
        b == is_word_char(c),
{
    is_letter_char(c) || is_digit_char(c) || c == '_' || c == '-'
}

/// Whether `w` is one of the two boolean literals.
fn is_bool_word(w: &str) -> (b: bool)
    ensures
        b == (w@ == true_word() || w@ == false_word()),
{
    let n = w.unicode_len();
    if n == 4 {
        let r = w.get_char(0) == 't' && w.get_char(1) == 'r' && w.get_char(2) == 'u' && w.get_char(3) == 'e';
        proof {
            if w@ == true_word() {
                assert(w@[0] == 't' && w@[1] == 'r' && w@[2] == 'u' && w@[3] == 'e');
            }
            if r {
                assert(w@ =~= true_word());
            }
        }
        r
    } else if n == 5 {
        let r = w.get_char(0) == 'f' && w.get_char(1) == 'a' && w.get_char(2) == 'l' && w.get_char(3) == 's'
            && w.get_char(4) == 'e';
        proof {
            if w@ == false_word() {
                assert(w@[0] == 'f' && w@[1] == 'a' && w@[2] == 'l' && w@[3] == 's' && w@[4] == 'e');
            }
            if r {
                assert(w@ =~= false_word());
            }
        }
        r
    } else {
        false
    }
}

/// What every token the lexer emits satisfies, given the operator and keyword tables it reads with.
pub open spec fn well_formed_token(t: SpecToken, ops: Map<Seq<char>, TokenKind>, kws: Map<Seq<char>, TokenKind>) -> bool {
    let v = t.value;
    let not_bool_word = v != true_word() && v != false_word();
    match t.family {
        TokenFamily::Value => {
            ||| t.kind == TokenKind::String && (forall|j: int| 0 <= j < v.len() ==> !is_quote(#[trigger] v[j]))
            ||| t.kind == TokenKind::Number && v.len() > 0 && is_digit(v[0]) && (forall|j: int|
                0 <= j < v.len() ==> is_number_char(#[trigger] v[j]))
            ||| t.kind == TokenKind::Bool && !not_bool_word
        },
        TokenFamily::Operator => {
            ||| t.kind == TokenKind::Newline && v == seq!['\n']
            ||| ops.contains_key(v) && ops[v] == t.kind
        },
        TokenFamily::Keyword => kws.contains_key(v) && kws[v] == t.kind && not_bool_word,
        TokenFamily::Identifier => {
            &&& t.kind == TokenKind::Identifier
            &&& v.len() > 0
            &&& forall|j: int| 0 <= j < v.len() ==> is_word_char(#[trigger] v[j])
            &&& !kws.contains_key(v)
            &&& not_bool_word
        },
        TokenFamily::Undefined => false,
    }
}

/// All tokens of `ts` are well formed.
pub open spec fn all_well_formed(ts: Seq<SpecToken>, ops: Map<Seq<char>, TokenKind>, kws: Map<Seq<char>, TokenKind>) -> bool {
    forall|j: int| 0 <= j < ts.len() ==> well_formed_token(#[trigger] ts[j], ops, kws)
}

proof fn lemma_string_end_content(s: Seq<char>, j: int, p: int)
    requires
        0 <= j <= p < string_end(s, j),
    ensures
        p < s.len(),
        !is_quote(s[p]),
    decreases p - j,
{
    if p > j {
        lemma_string_end_content(s, j + 1, p);
    }
}

proof fn lemma_number_end_content(s: Seq<char>, j: int, p: int)
    requires
        0 <= j <= p < number_end(s, j),
    ensures
        p < s.len(),
        is_number_char(s[p]),
    decreases p - j,
{
    if p > j {
        lemma_number_end_content(s, j + 1, p);
    }
}

proof fn lemma_word_end_content(s: Seq<char>, j: int, p: int)
    requires
        0 <= j <= p < word_end(s, j),
    ensures
        p < s.len(),
        is_word_char(s[p]),
    decreases p - j,
{
    if p > j {
        lemma_word_end_content(s, j + 1, p);
    }
}

proof fn lemma_word_token_well_formed(w: Seq<char>, ops: Map<Seq<char>, TokenKind>, kws: Map<Seq<char>, TokenKind>)
    requires
        w.len() > 0,
        forall|p: int| 0 <= p < w.len() ==> is_word_char(#[trigger] w[p]),
    ensures
        well_formed_token(word_token(w, kws), ops, kws),
{
}

proof fn lemma_lex_step_well_formed(s: Seq<char>, i: int, ops: Map<Seq<char>, TokenKind>, kws: Map<Seq<char>, TokenKind>)
    requires
        0 <= i < s.len(),
    ensures
        lex_step(s, i, ops, kws) matches Ok((_, ts)) ==> all_well_formed(ts, ops, kws),
{
    let n = s.len() as int;
    let c = s[i];
    lemma_lex_step_advances(s, i, ops, kws);
    lemma_string_end_bounds(s, i + 1);
    lemma_number_end_bounds(s, i + 1);
    lemma_word_end_bounds(s, i + 1);
    lemma_operator_run_end_bounds(s, i + 1);
    let k = operator_run_end(s, i + 1);
    lemma_longest_operator(s, i, k, ops);
    if is_quote(c) {
        let k = string_end(s, i + 1);
        if k < n {
            let v = s.subrange(i + 1, k);
            assert forall|j: int| 0 <= j < v.len() implies !is_quote(#[trigger] v[j]) by {
                assert(v[j] == s[i + 1 + j]);
                lemma_string_end_content(s, i + 1, i + 1 + j);
            }
        }
    } else if is_line_break(c) || is_space(c) {
    } else if is_digit(c) {
        let k = number_end(s, i + 1);
        let v = s.subrange(i, k);
        assert forall|j: int| 0 <= j < v.len() implies is_number_char(#[trigger] v[j]) by {
            assert(v[j] == s[i + j]);
            if j > 0 {
                lemma_number_end_content(s, i + 1, i + j);
            }
        }
    } else if is_punctuation(c) {
        let op = operator_tokens(s, i, k, ops);
        assert(all_well_formed(op, ops, kws));
        if k < n {
            if is_word_start(s[k]) {
                lemma_word_end_bounds(s, k + 1);
                let q = word_end(s, k + 1);
                let w = s.subrange(k, q);
                assert forall|p: int| 0 <= p < w.len() implies is_word_char(#[trigger] w[p]) by {
                    assert(w[p] == s[k + p]);
                    if p > 0 {
                        lemma_word_end_content(s, k + 1, k + p);
                    }
                }
                lemma_word_token_well_formed(w, ops, kws);
                let ts = op.push(word_token(w, kws));
                assert forall|j: int| 0 <= j < ts.len() implies well_formed_token(#[trigger] ts[j], ops, kws) by {
                    if j < op.len() {
                        assert(ts[j] == op[j]);
                    }
                }
            }
        } else if s[n - 1] == '_' || s[n - 1] == '-' {
            let w = s.subrange(n - 1, n);
            assert(w[0] == s[n - 1]);
            lemma_word_token_well_formed(w, ops, kws);
            let ts = op.push(word_token(w, kws));
            assert forall|j: int| 0 <= j < ts.len() implies well_formed_token(#[trigger] ts[j], ops, kws) by {
                if j < op.len() {
                    assert(ts[j] == op[j]);
                }
            }
        }
    } else if is_letter(c) {
        let q = word_end(s, i + 1);
        let w = s.subrange(i, q);
        assert forall|p: int| 0 <= p < w.len() implies is_word_char(#[trigger] w[p]) by {
            assert(w[p] == s[i + p]);
            if p > 0 {
                lemma_word_end_content(s, i + 1, i + p);
            }
        }
        lemma_word_token_well_formed(w, ops, kws);
    }
}

/// Reading a word from `j` inside a run of word characters ends where the run ends.
proof fn lemma_word_run_end(s: Seq<char>, j: int, q: int)
    requires
        0 <= j <= q <= s.len(),
        forall|m: int|
            j <= m < q ==> ('a' <= #[trigger] s[m] <= 'z') || ('A' <= s[m] <= 'Z') || ('0' <= s[m] <= '9')
                || s[m] == '_' || s[m] == '-',
        q == s.len() || !(('a' <= s[q] <= 'z') || ('A' <= s[q] <= 'Z') || ('0' <= s[q] <= '9') || s[q] == '_'
            || s[q] == '-'),
    ensures
        word_end(s, j) == q,
    decreases q - j,
{
    if j < q {
        assert(is_word_char(s[j]));
        lemma_word_run_end(s, j + 1, q);
    }
}

/// Law: a word is read whole. Where a letter (of either case) starts a run of letters, digits,
/// `_` and `-` that ends at `q` (the end of the text, or a character that is none of these),
/// the lexer emits one token for the whole run and goes on at `q`; that token is an
/// identifier unless the run is a boolean literal or a keyword.
pub proof fn lemma_word_is_maximal(s: Seq<char>, i: int, q: int, ops: Map<Seq<char>, TokenKind>, kws: Map<Seq<char>, TokenKind>)
    requires
        0 <= i < q <= s.len(),
        ('a' <= s[i] <= 'z') || ('A' <= s[i] <= 'Z'),
        forall|m: int|
            i < m < q ==> ('a' <= #[trigger] s[m] <= 'z') || ('A' <= s[m] <= 'Z') || ('0' <= s[m] <= '9')
                || s[m] == '_' || s[m] == '-',
        q == s.len() || !(('a' <= s[q] <= 'z') || ('A' <= s[q] <= 'Z') || ('0' <= s[q] <= '9') || s[q] == '_'
            || s[q] == '-'),
    ensures
        lex(s, i, ops, kws) == prepend_tokens(seq![word_token(s.subrange(i, q), kws)], lex(s, q, ops, kws)),
        word_token(s.subrange(i, q), kws).value == s.subrange(i, q),
        s.subrange(i, q) != true_word() && s.subrange(i, q) != false_word() && !kws.contains_key(s.subrange(i, q))
            ==> word_token(s.subrange(i, q), kws).kind == TokenKind::Identifier,
        s.subrange(i, q) != true_word() && s.subrange(i, q) != false_word() && kws.contains_key(s.subrange(i, q))
            ==> word_token(s.subrange(i, q), kws).kind == kws[s.subrange(i, q)]
            && word_token(s.subrange(i, q), kws).family == TokenFamily::Keyword,
        s.subrange(i, q) == true_word() || s.subrange(i, q) == false_word()
            ==> word_token(s.subrange(i, q), kws).kind == TokenKind::Bool,
{
    lemma_word_run_end(s, i + 1, q);
    lemma_lex_unfold(s, i, ops, kws);
    assert(lex_step(s, i, ops, kws) == Ok::<(int, Seq<SpecToken>), LexError>(
        (q, seq![word_token(s.subrange(i, q), kws)]),
    ));
}

/// Reading a number from `j` inside a run of digits and dots ends where the run ends.
proof fn lemma_number_run_end(s: Seq<char>, j: int, q: int)
    requires
        0 <= j <= q <= s.len(),
        forall|m: int| j <= m < q ==> ('0' <= #[trigger] s[m] <= '9') || s[m] == '.',
        q == s.len() || !(('0' <= s[q] <= '9') || s[q] == '.'),
    ensures
        number_end(s, j) == q,
    decreases q - j,
{
    if j < q {
        lemma_number_run_end(s, j + 1, q);
    }
}

/// Law: a number is read whole. Where a digit starts a run of digits and dots that ends at `q`,
/// the lexer emits one number token holding the whole run and goes on at `q`.
pub proof fn lemma_number_is_maximal(s: Seq<char>, i: int, q: int, ops: Map<Seq<char>, TokenKind>, kws: Map<Seq<char>, TokenKind>)
    requires
        0 <= i < q <= s.len(),
        '0' <= s[i] <= '9',
        forall|m: int| i < m < q ==> ('0' <= #[trigger] s[m] <= '9') || s[m] == '.',
        q == s.len() || !(('0' <= s[q] <= '9') || s[q] == '.'),
    ensures
        lex(s, i, ops, kws) == prepend_tokens(
            seq![SpecToken { family: TokenFamily::Value, kind: TokenKind::Number, value: s.subrange(i, q) }],
            lex(s, q, ops, kws),
        ),
{
    lemma_number_run_end(s, i + 1, q);
    lemma_lex_unfold(s, i, ops, kws);
}

/// Reading a string literal from `j` stops at the first quote.
proof fn lemma_string_run_end(s: Seq<char>, j: int, k: int)
    requires
        0 <= j <= k <= s.len(),
        forall|m: int| j <= m < k ==> #[trigger] s[m] != '\'' && s[m] != '"',
        k == s.len() || s[k] == '\'' || s[k] == '"',
    ensures
        string_end(s, j) == k,
    decreases k - j,
{
    if j < k {
        lemma_string_run_end(s, j + 1, k);
    }
}

/// Law: a string literal runs from a quote to the next quote of either kind and holds the
/// characters between them; the lexer goes on after the closing quote. A quote with no quote
/// after it is an unterminated string.
pub proof fn lemma_string_literal(s: Seq<char>, i: int, k: int, ops: Map<Seq<char>, TokenKind>, kws: Map<Seq<char>, TokenKind>)
    requires
        0 <= i < k <= s.len(),
        s[i] == '\'' || s[i] == '"',
        forall|m: int| i < m < k ==> #[trigger] s[m] != '\'' && s[m] != '"',
        k == s.len() || s[k] == '\'' || s[k] == '"',
    ensures
        k == s.len() ==> lex(s, i, ops, kws) == Err::<(int, Seq<SpecToken>), LexError>(LexError::UnterminatedString),
        k < s.len() ==> lex(s, i, ops, kws) == prepend_tokens(
            seq![SpecToken { family: TokenFamily::Value, kind: TokenKind::String, value: s.subrange(i + 1, k) }],
            lex(s, k + 1, ops, kws),
        ),
{
    lemma_string_run_end(s, i + 1, k);
    lemma_lex_unfold(s, i, ops, kws);
}

/// Law: a blank that does not end a line emits nothing; a line feed or carriage return emits
/// one newline token.
pub proof fn lemma_blanks_and_line_breaks(s: Seq<char>, i: int, ops: Map<Seq<char>, TokenKind>, kws: Map<Seq<char>, TokenKind>)
    requires
        0 <= i < s.len(),
    ensures
        s[i] == ' ' || s[i] == '\t' ==> lex(s, i, ops, kws) == lex(s, i + 1, ops, kws),
        s[i] == '\n' || s[i] == '\r' ==> lex(s, i, ops, kws) == prepend_tokens(
            seq![SpecToken { family: TokenFamily::Operator, kind: TokenKind::Newline, value: seq!['\n'] }],
            lex(s, i + 1, ops, kws),
        ),
{
    lemma_lex_unfold(s, i, ops, kws);
    if s[i] == ' ' || s[i] == '\t' {
        if i + 1 >= s.len() {
            assert(Seq::<SpecToken>::empty() + Seq::<SpecToken>::empty() =~= Seq::<SpecToken>::empty());
        } else {
            let r = lex(s, i + 1, ops, kws);
            if let Ok((k, ts)) = r {
                assert(Seq::<SpecToken>::empty() + ts =~= ts);
            }
        }
    }
}

/// The longest prefix search finds the longest prefix of `s[i..end]` in the table.
proof fn lemma_longest_operator_search(s: Seq<char>, i: int, end: int, ops: Map<Seq<char>, TokenKind>)
    requires
        0 <= i <= end <= s.len(),
    ensures
        longest_operator(s, i, end, ops) matches Some(m) ==> i < m <= end && ops.contains_key(s.subrange(i, m))
            && forall|m2: int| m < m2 <= end ==> !#[trigger] ops.contains_key(s.subrange(i, m2)),
        longest_operator(s, i, end, ops) is None ==> forall|m2: int|
            i < m2 <= end ==> !#[trigger] ops.contains_key(s.subrange(i, m2)),
    decreases end - i,
{
    if end > i && !ops.contains_key(s.subrange(i, end)) {
        lemma_longest_operator_search(s, i, end - 1, ops);
    }
}

/// Law: a run of operator characters `s[i..end]` yields the longest of its prefixes that the
/// operator table holds, with the kind the table gives it; no token when no prefix is an
/// operator.
pub proof fn lemma_longest_operator_wins(s: Seq<char>, i: int, end: int, ops: Map<Seq<char>, TokenKind>)
    requires
        0 <= i <= end <= s.len(),
    ensures
        operator_tokens(s, i, end, ops).len() <= 1,
        operator_tokens(s, i, end, ops).len() == 0 <==> forall|m: int|
            i < m <= end ==> !#[trigger] ops.contains_key(s.subrange(i, m)),
        operator_tokens(s, i, end, ops).len() == 1 ==> ({
            let t = operator_tokens(s, i, end, ops)[0];
            &&& exists|m: int| i < m <= end && t.value == s.subrange(i, m)
            &&& ops.contains_key(t.value)
            &&& t.kind == ops[t.value]
            &&& t.family == TokenFamily::Operator
            &&& forall|m2: int| i + t.value.len() < m2 <= end ==> !#[trigger] ops.contains_key(s.subrange(i, m2))
        }),
{
    lemma_longest_operator_search(s, i, end, ops);
    if let Some(m) = longest_operator(s, i, end, ops) {
        assert(s.subrange(i, m).len() == m - i);
    }
}

/// Law: a text that is one word (see `lemma_word_is_maximal`) gives exactly one token, which
/// holds the whole text.
pub proof fn lemma_single_word(s: Seq<char>, ops: Map<Seq<char>, TokenKind>, kws: Map<Seq<char>, TokenKind>)
    requires
        s.len() > 0,
        ('a' <= s[0] <= 'z') || ('A' <= s[0] <= 'Z'),
        forall|m: int|
            0 < m < s.len() ==> ('a' <= #[trigger] s[m] <= 'z') || ('A' <= s[m] <= 'Z') || ('0' <= s[m] <= '9')
                || s[m] == '_' || s[m] == '-',
    ensures
        lex(s, 0, ops, kws) == Ok::<(int, Seq<SpecToken>), LexError>((s.len() as int, seq![word_token(s, kws)])),
{
    lemma_word_is_maximal(s, 0, s.len() as int, ops, kws);
    assert(s.subrange(0, s.len() as int) =~= s);
    assert(seq![word_token(s, kws)] + Seq::<SpecToken>::empty() =~= seq![word_token(s, kws)]);
}

/// Law: every token the lexer emits is well formed: string literals hold no quote, number
/// literals are a digit followed by digits and dots, operators and keywords are entries of
/// the tables with the kind the tables give, and identifiers are non-empty words that are
/// neither keywords nor boolean literals.
pub proof fn lemma_lex_well_formed(s: Seq<char>, i: int, ops: Map<Seq<char>, TokenKind>, kws: Map<Seq<char>, TokenKind>)
    requires
        0 <= i,
    ensures
        lex(s, i, ops, kws) matches Ok((_, ts)) ==> all_well_formed(ts, ops, kws),
    decreases s.len() - i,
{
    if i < s.len() {
        lemma_lex_step_well_formed(s, i, ops, kws);
        lemma_lex_step_advances(s, i, ops, kws);
        if let Ok((j, ts)) = lex_step(s, i, ops, kws) {
            if j < s.len() {
                lemma_lex_well_formed(s, j, ops, kws);
                if let Ok((k, rest)) = lex(s, j, ops, kws) {
                    let all = ts + rest;
                    assert forall|m: int| 0 <= m < all.len() implies well_formed_token(#[trigger] all[m], ops, kws) by {
                        if m < ts.len() {
                            assert(all[m] == ts[m]);
                        } else {
                            assert(all[m] == rest[m - ts.len()]);
                        }
                    }
                }
            }
        }
    }
}

/// Law: a successful run keeps every earlier token and the tables, appends tokens after them,
/// never moves the reading position back, and keeps all tokens well formed.
pub proof fn lemma_tokenize_appends(st: TokenizerState, input: Seq<char>)
    requires
        st.index >= 0,
        all_well_formed(st.tokens, st.operators, st.keywords),
    ensures
        after_tokenize(st, input) matches Ok(st2) ==> {
            &&& st2.tokens.len() >= st.tokens.len()
            &&& st2.tokens.subrange(0, st.tokens.len() as int) == st.tokens
            &&& st2.operators == st.operators
            &&& st2.keywords == st.keywords
            &&& st2.index >= st.index
            &&& st2.source == input
            &&& all_well_formed(st2.tokens, st2.operators, st2.keywords)
        },
{
    if is_ascii_chars(input) {
        lemma_lex_well_formed(input, st.index, st.operators, st.keywords);
        lemma_lex_position(input, st.index, st.operators, st.keywords);
        if let Ok((k, ts)) = lex(input, st.index, st.operators, st.keywords) {
            let all = st.tokens + ts;
            assert(all.subrange(0, st.tokens.len() as int) =~= st.tokens);
            assert forall|m: int| 0 <= m < all.len() implies well_formed_token(#[trigger] all[m], st.operators, st.keywords) by {
                if m < st.tokens.len() {
                    assert(all[m] == st.tokens[m]);
                } else {
                    assert(all[m] == ts[m - st.tokens.len()]);
                }
            }
        }
    } else {
        if after_tokenize(st, input) is Ok {
            assert(st.tokens.subrange(0, st.tokens.len() as int) =~= st.tokens);
        }
    }
}

/// Lexing never moves the reading position back.
proof fn lemma_lex_position(s: Seq<char>, i: int, ops: Map<Seq<char>, TokenKind>, kws: Map<Seq<char>, TokenKind>)
    requires
        0 <= i,
    ensures
        lex(s, i, ops, kws) matches Ok((k, _)) ==> k >= i,
    decreases s.len() - i,
{
    if i < s.len() {
        lemma_lex_step_advances(s, i, ops, kws);
        if let Ok((j, _)) = lex_step(s, i, ops, kws) {
            if j < s.len() {
                lemma_lex_position(s, j, ops, kws);
            }
        }
    }
}

/// The observable state of a tokenizer.
pub struct TokenizerState {
    pub tokens: Seq<SpecToken>,
    pub source: Seq<char>,
    pub index: int,
    pub length: int,
    pub keywords: Map<Seq<char>, TokenKind>,
    pub operators: Map<Seq<char>, TokenKind>,
}

/// A lexer over a source text, with the tokens it has produced so far.
pub struct Tokenizer {
    pub tokens: Vec<Token>,
    source: String,
    index: usize,
    length: usize,
    keywords: StringHashMap<TokenKind>,
    operators: StringHashMap<TokenKind>,
}

impl View for Tokenizer {
    type V = TokenizerState;

    closed spec fn view(&self) -> TokenizerState {
        TokenizerState {
            tokens: token_views(self.tokens@),
            source: self.source@,
            index: self.index as int,
            length: self.length as int,
            keywords: self.keywords@,
            operators: self.operators@,
        }
    }
}

impl Tokenizer {
    /// The tokenizer reads an ASCII text whose length is its `length`.
    spec fn scanning(&self) -> bool {
        &&& is_ascii_chars(self.source@)
        &&& self.length as int == self.source@.len()
        &&& self.length < usize::MAX
    }

    /// `self` differs from `other` at most in the reading position.
    spec fn same_but_index(&self, other: &Tokenizer) -> bool {
        self@ == (TokenizerState { index: self@.index, ..other@ })
    }

    fn char_at(&self, i: usize) -> (c: char)
        requires
            i < self.source@.len(),
        ensures
            c == self.source@[i as int],
    {
        self.source.as_str().get_char(i)
    }

    fn slice(&self, from: usize, to: usize) -> (r: String)
        requires
            self.scanning(),
            from <= to <= self.source@.len(),
        ensures
            r@ == self.source@.subrange(from as int, to as int),
    {
        self.source.as_str().substring_ascii(from, to).to_owned()
    }

    /// The token that the word `value` makes.
    fn word(&self, value: String) -> (t: Token)
        ensures
            t@ == word_token(value@, self.keywords@),
    {
        if is_bool_word(value.as_str()) {
            Token { family: TokenFamily::Value, kind: TokenKind::Bool, value }
        } else if self.keywords.contains_key(value.as_str()) {
            let kind = *self.keywords.get(value.as_str()).unwrap();
            Token { family: TokenFamily::Keyword, kind, value }
        } else {
            Token { family: TokenFamily::Identifier, kind: TokenKind::Identifier, value }
        }
    }

    /// Reads a string literal whose opening quote is under the reading position.
    fn scan_string(&mut self, current: &mut char) -> (r: Option<Token>)
        requires
            old(self).scanning(),
            old(self).index < old(self).length,
            is_quote(old(self).source@[old(self).index as int]),
        ensures
            final(self).same_but_index(old(self)),
            ({
                let s = old(self).source@;
                let i = old(self).index as int;
                let k = string_end(s, i + 1);
                if k >= s.len() {
                    r is None
                } else {
                    &&& r matches Some(t) && t@ == (SpecToken { family: TokenFamily::Value, kind: TokenKind::String, value: s.subrange(i + 1, k) })
                    &&& final(self).index == k + 1
                }
            }),
    {
        let ghost s = self.source@;
        let ghost n = s.len() as int;
        let start = self.index;
        loop
            invariant
                self.scanning(),
                self.same_but_index(old(self)),
                self.source@ == s,
                n == s.len(),
                start <= self.index < n,
                start == old(self).index,
                string_end(s, start + 1) == string_end(s, self.index + 1),
            decreases n - self.index,
        {
            if !self.consume(current) {
                return None;
            }
            if is_quote_char(*current) {
                let end = self.index;
                self.index = self.index + 1;
                let value = self.slice(start + 1, end);
                return Some(Token { family: TokenFamily::Value, kind: TokenKind::String, value });
            }
        }
    }

    /// Reads a number literal whose first digit is under the reading position.
    fn scan_number(&mut self, current: &mut char) -> (t: Token)
        requires
            old(self).scanning(),
            old(self).index < old(self).length,
        ensures
            final(self).same_but_index(old(self)),
            ({
                let s = old(self).source@;
                let i = old(self).index as int;
                let k = number_end(s, i + 1);
                &&& t@ == (SpecToken { family: TokenFamily::Value, kind: TokenKind::Number, value: s.subrange(i, k) })
                &&& final(self).index == k
            }),
    {
        let ghost s = self.source@;
        let ghost n = s.len() as int;
        let start = self.index;
        loop
            invariant_except_break
                self.index < n,
                number_end(s, start + 1) == number_end(s, self.index + 1),
            invariant
                self.scanning(),
                self.same_but_index(old(self)),
                self.source@ == s,
                n == s.len(),
                start == old(self).index,
                start <= self.index <= n,
            ensures
                self.index == number_end(s, start + 1),
            decreases n - self.index,
        {
            if !self.consume(current) {
                break;
            }
            if !(is_digit_char(*current) || *current == '.') {
                break;
            }
        }
        proof {
            lemma_number_end_bounds(s, start + 1);
        }
        let value = self.slice(start, self.index);
        Token { family: TokenFamily::Value, kind: TokenKind::Number, value }
    }

    /// Reads a word whose first character is under the reading position.
    fn scan_word(&mut self, current: &mut char) -> (t: Token)
        requires
            old(self).scanning(),
            old(self).index < old(self).length,
        ensures
            final(self).same_but_index(old(self)),
            ({
                let s = old(self).source@;
                let i = old(self).index as int;
                let k = word_end(s, i + 1);
                &&& t@ == word_token(s.subrange(i, k), old(self).keywords@)
                &&& final(self).index == k
            }),
    {
        let ghost s = self.source@;
        let ghost n = s.len() as int;
        let start = self.index;
        loop
            invariant_except_break
                self.index < n,
                word_end(s, start + 1) == word_end(s, self.index + 1),
            invariant
                self.scanning(),
                self.same_but_index(old(self)),
                self.source@ == s,
                n == s.len(),
                start == old(self).index,
                start <= self.index <= n,
            ensures
                self.index == word_end(s, start + 1),
            decreases n - self.index,
        {
            if !self.consume(current) {
                break;
            }
            if !is_word_char_exec(*current) {
                break;
            }
        }
        proof {
            lemma_word_end_bounds(s, start + 1);
        }
        let value = self.slice(start, self.index);
        self.word(value)
    }

    /// Reads a run of operator characters that starts under the reading position, and gives
    /// the operator token of its longest prefix that is an operator, if any.
    fn scan_operator(&mut self, current: &mut char) -> (r: Option<Token>)
        requires
            old(self).scanning(),
            old(self).index < old(self).length,
            *old(current) == old(self).source@[old(self).index as int],
            is_operator_char(*old(current)),
        ensures
            final(self).same_but_index(old(self)),
            ({
                let s = old(self).source@;
                let i = old(self).index as int;
                let k = operator_run_end(s, i + 1);
                &&& final(self).index == k
                &&& r matches Some(t) ==> (operator_tokens(s, i, k, old(self).operators@) == seq![t@])
                &&& r is None ==> operator_tokens(s, i, k, old(self).operators@) == Seq::<SpecToken>::empty()
                &&& k < s.len() ==> *final(current) == s[k]
                &&& k >= s.len() ==> *final(current) == s[s.len() - 1]
                &&& k >= s.len() ==> is_operator_char(*final(current))
            }),
    {
        let ghost s = self.source@;
        let ghost n = s.len() as int;
        let start = self.index;
        let mut longest: Option<usize> = None;
        loop
            invariant_except_break
                self.index < n,
                operator_run_end(s, start + 1) == operator_run_end(s, self.index + 1),
                *current == s[self.index as int],
                is_operator_char(*current),
            invariant
                self.scanning(),
                self.same_but_index(old(self)),
                self.source@ == s,
                n == s.len(),
                start == old(self).index,
                start <= self.index <= n,
                same_position(longest, longest_operator(s, start as int, self.index as int, self.operators@)),
            ensures
                self.index == operator_run_end(s, start + 1),
                same_position(longest, longest_operator(s, start as int, self.index as int, self.operators@)),
                self.index < n ==> *current == s[self.index as int],
                self.index >= n ==> *current == s[n - 1],
                self.index >= n ==> is_operator_char(*current),
            decreases n - self.index,
        {
            let end = self.index + 1;
            let candidate = self.slice(start, end);
            if self.operators.contains_key(candidate.as_str()) {
                longest = Some(end);
            }
            if !self.consume(current) {
                break;
            }
            if !is_punctuation_char(*current) || is_quote_char(*current) {
                break;
            }
        }
        proof {
            lemma_operator_run_end_bounds(s, start + 1);
            lemma_longest_operator(s, start as int, self.index as int, self.operators@);
        }
        match longest {
            Some(m) => {
                let value = self.slice(start, m);
                let kind = *self.operators.get(value.as_str()).unwrap();
                Some(Token { family: TokenFamily::Operator, kind, value })
            },
            None => None,
        }
    }

    /// One step of the lexer at the reading position: the tokens it emits, or the error it meets.
    fn step(&mut self) -> (r: Result<Vec<Token>, LexError>)
        requires
            old(self).scanning(),
            old(self).index < old(self).length,
        ensures
            final(self).same_but_index(old(self)),
            match lex_step(old(self).source@, old(self).index as int, old(self).operators@, old(self).keywords@) {
                Ok((j, ts)) => r matches Ok(v) && token_views(v@) == ts && final(self).index as int == j,
                Err(e) => r == Err::<Vec<Token>, LexError>(e),
            },
    {
        let ghost s = self.source@;
        let ghost n = s.len() as int;
        let ghost i = self.index as int;
        let ghost ops = self.operators@;
        let ghost kws = self.keywords@;
        let mut current = self.char_at(self.index);
        let mut emitted: Vec<Token> = Vec::new();
        if is_quote_char(current) {
            match self.scan_string(&mut current) {
                Some(t) => {
                    emitted.push(t);
                    assert(token_views(emitted@) =~= seq![t@]);
                    Ok(emitted)
                },
                None => Err(LexError::UnterminatedString),
            }
        } else if current == '\n' || current == '\r' {
            proof {
                reveal_strlit("\n");
                assert("\n"@ =~= seq!['\n']);
            }
            emitted.push(Token { family: TokenFamily::Operator, kind: TokenKind::Newline, value: string_of("\n") });
            self.index = self.index + 1;
            assert(token_views(emitted@) =~= seq![newline_token()]);
            Ok(emitted)
        } else if is_space_char(current) {
            self.index = self.index + 1;
            assert(token_views(emitted@) =~= Seq::<SpecToken>::empty());
            Ok(emitted)
        } else if is_digit_char(current) {
            let t = self.scan_number(&mut current);
            emitted.push(t);
            assert(token_views(emitted@) =~= seq![t@]);
            Ok(emitted)
        } else if is_punctuation_char(current) {
            self.scan_symbols(&mut current)
        } else if is_letter_char(current) {
            let t = self.scan_word(&mut current);
            emitted.push(t);
            assert(token_views(emitted@) =~= seq![t@]);
            Ok(emitted)
        } else {
            Err(LexError::UnrecognizedCharacter)
        }
    }

    /// Reads a run of operator characters and the word that may follow it at once.
    fn scan_symbols(&mut self, current: &mut char) -> (r: Result<Vec<Token>, LexError>)
        requires
            old(self).scanning(),
            old(self).index < old(self).length,
            *old(current) == old(self).source@[old(self).index as int],
            is_operator_char(*old(current)),
        ensures
            final(self).same_but_index(old(self)),
            match lex_step(old(self).source@, old(self).index as int, old(self).operators@, old(self).keywords@) {
                Ok((j, ts)) => r matches Ok(v) && token_views(v@) == ts && final(self).index as int == j,
                Err(e) => r == Err::<Vec<Token>, LexError>(e),
            },
    {
        let ghost s = self.source@;
        let ghost n = s.len() as int;
        let ghost i = self.index as int;
        let ghost ops = self.operators@;
        let ghost kws = self.keywords@;
        let mut emitted: Vec<Token> = Vec::new();
        proof {
            lemma_operator_run_end_bounds(s, i + 1);
        }
        if let Some(t) = self.scan_operator(current) {
            emitted.push(t);
        }
        let ghost k = self.index as int;
        let ghost op = operator_tokens(s, i, k, ops);
        assert(token_views(emitted@) =~= op);
        if is_letter_char(*current) || *current == '_' || *current == '-' {
            if self.index < self.length {
                let t = self.scan_word(current);
                emitted.push(t);
                assert(token_views(emitted@) =~= op.push(t@));
            } else {
                let last = self.index - 1;
                self.consume(current);
                let value = self.slice(last, last + 1);
                let t = self.word(value);
                emitted.push(t);
                assert(token_views(emitted@) =~= op.push(t@));
            }
        }
        Ok(emitted)
    }

    /// Reads the source from the reading position to its end, appending the tokens met.
    /// On an error, the tokenizer is left as it was.
    pub fn tokenize_source(&mut self, input: String) -> (r: Result<(), LexError>)
        requires
            input@.len() < usize::MAX,
        ensures
            match after_tokenize(old(self)@, input@) {
                Ok(st) => r is Ok && final(self)@ == st,
                Err(e) => r == Err::<(), LexError>(e) && final(self)@ == old(self)@,
            },
    {
        let ghost old_state = self@;
        let text: &str = input.as_str();
        if !text.is_ascii() {
            let byte_len = text.len();
            if self.index >= byte_len {
                self.source = input;
                self.length = byte_len;
                proof {
                    assert(token_views(self.tokens@) == old_state.tokens);
                }
                return Ok(());
            }
            return Err(LexError::NonAsciiInput);
        }
        let ghost s = input@;
        let ghost n = s.len() as int;
        let ghost ops = self.operators@;
        let ghost kws = self.keywords@;
        let ghost i0 = self.index as int;
        let old_count = self.tokens.len();
        let old_index = self.index;
        let old_length = self.length;
        let byte_len = text.len();
        proof {
            vstd::string::is_ascii_spec_bytes(text);
        }
        assert(byte_len as int == s.len());
        let old_source = self.source.clone();
        self.source = input;
        self.length = byte_len;
        assert(token_views(self.tokens@).subrange(0, old_count as int) =~= old_state.tokens);
        assert(token_views(self.tokens@).subrange(old_count as int, self.tokens@.len() as int) =~= Seq::<SpecToken>::empty());
        while self.index < self.length
            invariant
                self.scanning(),
                self.source@ == s,
                n == s.len(),
                self.operators@ == ops,
                self.keywords@ == kws,
                ops == old_state.operators,
                kws == old_state.keywords,
                old_state == old(self)@,
                s == input@,
                old_count as int == old_state.tokens.len(),
                old_index as int == old_state.index,
                old_index as int == i0,
                old_length as int == old_state.length,
                old_source@ == old_state.source,
                old_count <= self.tokens.len(),
                token_views(self.tokens@).subrange(0, old_count as int) == old_state.tokens,
                self.index <= n + 1 || self.index as int == i0,
                lex(s, i0, ops, kws) == prepend_tokens(
                    token_views(self.tokens@).subrange(old_count as int, self.tokens@.len() as int),
                    lex(s, self.index as int, ops, kws),
                ),
            decreases n + 1 - self.index,
        {
            let ghost i = self.index as int;
            let ghost before = token_views(self.tokens@).subrange(old_count as int, self.tokens@.len() as int);
            proof {
                lemma_lex_unfold(s, i, ops, kws);
                lemma_lex_step_advances(s, i, ops, kws);
                lemma_operator_run_end_bounds(s, i + 1);
            }
            let r = self.step();
            let mut emitted = match r {
                Ok(v) => v,
                Err(e) => {
                    let ghost pre = self.tokens@;
                    self.restore(old_count, old_index, old_source, old_length);
                    proof {
                        assert(token_views(pre.subrange(0, old_count as int)) =~= token_views(pre).subrange(0, old_count as int));
                        assert(token_views(self.tokens@) =~= old_state.tokens);
                    }
                    return Err(e);
                },
            };
            let ghost step = token_views(emitted@);
            let ghost tokens_before = self.tokens@;
            assert(lex_step(s, i, ops, kws) == Ok::<(int, Seq<SpecToken>), LexError>((self.index as int, step)));
            self.tokens.append(&mut emitted);
            proof {
                lemma_prepend_twice(before, step, lex(s, self.index as int, ops, kws));
                assert(token_views(self.tokens@) =~= token_views(tokens_before) + step);
                assert(token_views(self.tokens@).subrange(0, old_count as int) =~= token_views(tokens_before).subrange(0, old_count as int));
                assert(token_views(self.tokens@).subrange(old_count as int, self.tokens@.len() as int) =~= before + step);
            }
        }
        proof {
            let produced = token_views(self.tokens@).subrange(old_count as int, self.tokens@.len() as int);
            assert(produced + Seq::<SpecToken>::empty() =~= produced);
            assert(token_views(self.tokens@) =~= old_state.tokens + produced);
        }
        Ok(())
    }

    /// Removes the comments of `input`, then reads it from the reading position to its end: on
    /// success the tokens of the comment-free text are appended; on failure the tokenizer is
    /// left as it was. The text is read once to see that it can be read, then `tokenize` reads
    /// it.
    pub fn try_tokenize(&mut self, input: &str) -> (r: Result<(), LexError>)
        ensures
            comments_removed(input@).len() >= usize::MAX ==> r == Err::<(), LexError>(LexError::InputTooLong)
                && final(self)@ == old(self)@,
            comments_removed(input@).len() < usize::MAX ==> match after_tokenize(old(self)@, comments_removed(input@)) {
                Ok(st) => r is Ok && final(self)@ == st,
                Err(e) => r == Err::<(), LexError>(e) && final(self)@ == old(self)@,
            },
    {
        let text = strip_comments(input);
        if text.as_str().unicode_len() == usize::MAX {
            return Err(LexError::InputTooLong);
        }
        let ghost start = self@;
        let mut saved: Vec<Token> = Vec::new();
        std::mem::swap(&mut saved, &mut self.tokens);
        let old_index = self.index;
        let old_source = self.source.clone();
        let old_length = self.length;
        proof {
            assert(token_views(self.tokens@) =~= Seq::<SpecToken>::empty());
        }
        let trial = self.tokenize_source(text);
        let ok = trial.is_ok();
        std::mem::swap(&mut saved, &mut self.tokens);
        self.index = old_index;
        self.source = old_source;
        self.length = old_length;
        proof {
            assert(self@ =~= start);
        }
        if !ok {
            return trial;
        }
        self.tokenize(input);
        Ok(())
    }

    /// Puts back the parts of the state that a failed run changed.
    fn restore(&mut self, count: usize, index: usize, source: String, length: usize)
        requires
            count <= old(self).tokens.len(),
        ensures
            final(self).tokens@ == old(self).tokens@.subrange(0, count as int),
            final(self).index == index,
            final(self).source@ == source@,
            final(self).length == length,
            final(self).keywords@ == old(self).keywords@,
            final(self).operators@ == old(self).operators@,
    {
        self.tokens.truncate(count);
        self.index = index;
        self.source = source;
        self.length = length;
    }
}

/// The pattern of a comment: a `//` comment runs to the end of its line, line break
/// included; a `/* */` comment ends at the first `*/` after it, on the same line.
pub open spec fn comment_pattern_text() -> Seq<char> {
    seq!['(', '/', '/', '.', '*', '\\', 'n', ')', '|', '(', '/', '\\', '*', '.', '*', '?', '\\', '*', '/', ')']
}

/// The pattern that the lexer strips from a source text before reading it.
pub fn comment_pattern() -> (p: &'static str)
    ensures
        p@ == comment_pattern_text(),
{
    let p = r"(//.*\n)|(/\*.*?\*/)";
    proof {
        reveal_strlit(r"(//.*\n)|(/\*.*?\*/)");
        assert(p@ =~= comment_pattern_text());
    }
    p
}

/// Whether a `//` comment starts at `i`.
pub open spec fn starts_line_comment(s: Seq<char>, i: int) -> bool {
    0 <= i && i + 1 < s.len() && s[i] == '/' && s[i + 1] == '/'
}

/// Whether a `/*` starts at `i`.
pub open spec fn starts_block_comment(s: Seq<char>, i: int) -> bool {
    0 <= i && i + 1 < s.len() && s[i] == '/' && s[i + 1] == '*'
}

/// Whether a line break stands at or after `k`.
pub open spec fn has_line_break_from(s: Seq<char>, k: int) -> bool {
    exists|j: int| k <= j < s.len() && s[j] == '\n'
}

/// Whether a `*/` stands at or after `k` with no line break before it.
pub open spec fn block_closes(s: Seq<char>, k: int) -> bool
    decreases s.len() - k,
{
    if k < 0 || k + 1 >= s.len() || s[k] == '\n' {
        false
    } else if s[k] == '*' && s[k + 1] == '/' {
        true
    } else {
        block_closes(s, k + 1)
    }
}

/// The text from position `i` on with its comments taken out. Reading from the left, a `//`
/// followed by a line break later in the text is a comment up to and including that line
/// break; a `/*` is a comment up to and including the first `*/` after it, if no line break
/// comes before; every other character stays. After a comment, reading resumes where it ends.
pub open spec fn strip_from(s: Seq<char>, i: int) -> Seq<char>
    decreases s.len() - i, 0int,
{
    if i < 0 || i >= s.len() {
        Seq::empty()
    } else if starts_line_comment(s, i) && has_line_break_from(s, i + 2) {
        skip_line_comment(s, i + 2)
    } else if starts_block_comment(s, i) && block_closes(s, i + 2) {
        skip_block_comment(s, i + 2)
    } else {
        seq![s[i]] + strip_from(s, i + 1)
    }
}

/// The rest of a `//` comment from `k` on, up to and including its line break, taken out.
pub open spec fn skip_line_comment(s: Seq<char>, k: int) -> Seq<char>
    decreases s.len() - k, 1int,
{
    if k < 0 || k >= s.len() {
        Seq::empty()
    } else if s[k] == '\n' {
        strip_from(s, k + 1)
    } else {
        skip_line_comment(s, k + 1)
    }
}

/// The rest of a `/*` comment from `k` on, up to and including its `*/`, taken out.
pub open spec fn skip_block_comment(s: Seq<char>, k: int) -> Seq<char>
    decreases s.len() - k, 1int,
{
    if k < 0 || k + 1 >= s.len() {
        Seq::empty()
    } else if s[k] == '*' && s[k + 1] == '/' {
        strip_from(s, k + 2)
    } else {
        skip_block_comment(s, k + 1)
    }
}

/// A source text with its comments taken out (see `strip_from`).
pub open spec fn comments_removed(input: Seq<char>) -> Seq<char> {
    strip_from(input, 0)
}

/// Law: a text with no `/` from `i` on has no comments there: stripping them leaves it as it
/// is.
pub proof fn lemma_comment_free_text(s: Seq<char>, i: int)
    requires
        0 <= i <= s.len(),
        forall|m: int| i <= m < s.len() ==> #[trigger] s[m] != '/',
    ensures
        strip_from(s, i) == s.skip(i),
    decreases s.len() - i,
{
    if i < s.len() {
        lemma_comment_free_text(s, i + 1);
        assert(seq![s[i]] + s.skip(i + 1) =~= s.skip(i));
    } else {
        assert(s.skip(i) =~= Seq::<char>::empty());
    }
}

/// Compiles `pattern` with `regex::Regex::new` and calls `regex::Regex::replace_all` on
/// `input` with an empty replacement. The pattern admitted is the comment pattern, which
/// compiles, so the compilation never fails. The contract claims what the regex crate
/// documents for that pattern: matches are found leftmost-first and do not overlap, `.`
/// matches any character but a line break, `.*` takes as much as it can and `.*?` as little;
/// so the result is `comments_removed(input)`.
#[verifier::external_body]
fn remove_matches(pattern: &str, input: &str) -> (r: String)
    requires
        pattern@ == comment_pattern_text(),
    ensures
        r@ == comments_removed(input@),
{
    let compiled = regex::Regex::new(pattern).unwrap();
    compiled.replace_all(input, "").into_owned()
}

/// `input` with its comments taken out (see `comments_removed`).
pub fn strip_comments(input: &str) -> (r: String)
    ensures
        r@ == comments_removed(input@),
{
    remove_matches(comment_pattern(), input)
}

/// What a lexer offers: reading a whole text, and moving forward one character.
pub trait TokenProcessor: Sized {
    /// Whether the reading position can be moved one character forward.
    spec fn can_advance(&self) -> bool;

    /// Whether `input`, its comments removed, can be read to its end from the reading position.
    spec fn tokenizes(&self, input: Seq<char>) -> bool;

    /// Removes the comments of `input`, then reads it from the reading position to its end.
    fn tokenize(&mut self, input: &str)
        requires
            old(self).tokenizes(input@),
    ;

    /// Moves the reading position one character forward.
    fn consume(&mut self, current: &mut char) -> bool
        requires
            old(self).can_advance(),
    ;
}

impl TokenProcessor for Tokenizer {
    open spec fn can_advance(&self) -> bool {
        &&& self@.index < usize::MAX
        &&& self@.index + 1 < self@.length ==> self@.index + 1 < self@.source.len()
    }

    open spec fn tokenizes(&self, input: Seq<char>) -> bool {
        &&& comments_removed(input).len() < usize::MAX
        &&& after_tokenize(self@, comments_removed(input)) is Ok
    }

    /// The tokens of the comment-free text are appended.
    fn tokenize(&mut self, input: &str)
        ensures
            final(self)@ == after_tokenize(old(self)@, comments_removed(input@))->Ok_0,
    {
        let text = strip_comments(input);
        let r = self.tokenize_source(text);
        proof {
            assert(r is Ok);
        }
    }

    /// Moves the reading position one character forward; if it is still inside the text,
    /// `current` becomes the character under it and the answer is `true`.
    fn consume(&mut self, current: &mut char) -> (r: bool)
        ensures
            final(self)@ == (TokenizerState { index: old(self)@.index + 1, ..old(self)@ }),
            r == (old(self)@.index + 1 < old(self)@.length),
            r ==> *final(current) == old(self)@.source[old(self)@.index + 1],
            !r ==> *final(current) == *old(current),
    {
        self.index = self.index + 1;
        if self.index < self.length {
            *current = self.char_at(self.index);
            return true;
        }
        false
    }
}

fn string_of(s: &str) -> (r: String)
    ensures
        r@ == s@,
{
    s.to_owned()
}

/// Builds a tokenizer with the language's operator and keyword tables and no input.
pub fn create_tokenizer() -> (t: Tokenizer)
    ensures
        t@.tokens == Seq::<SpecToken>::empty(),
        t@.source == Seq::<char>::empty(),
        t@.index == 0,
        t@.length == 0,
        t@.keywords == keyword_table(),
        t@.operators == operator_table(),
{
    let mut operators: StringHashMap<TokenKind> = StringHashMap::new();
    let mut keywords: StringHashMap<TokenKind> = StringHashMap::new();
    proof {
        reveal_strlit("for");
        reveal_strlit("loop");
        reveal_strlit("break");
        reveal_strlit("typedef");
        reveal_strlit("(");
        reveal_strlit(")");
        reveal_strlit("{");
        reveal_strlit("}");
        reveal_strlit("[");
        reveal_strlit("]");
        reveal_strlit(",");
        reveal_strlit(";");
        reveal_strlit("::");
        reveal_strlit(":");
        reveal_strlit(":=");
        reveal_strlit(".");
        reveal_strlit("=");
        reveal_strlit("<=");
        reveal_strlit("=>");
        reveal_strlit("+");
        reveal_strlit("-");
        reveal_strlit("*");
        reveal_strlit("/");
        reveal_strlit("%");
        reveal_strlit("!");
    }
    keywords.insert(string_of("for"), TokenKind::For);
    keywords.insert(string_of("loop"), TokenKind::Loop);
    keywords.insert(string_of("break"), TokenKind::Break);
    keywords.insert(string_of("typedef"), TokenKind::Typedef);

    operators.insert(string_of("("), TokenKind::OpenParenthesis);
    operators.insert(string_of(")"), TokenKind::CloseParenthesis);
    operators.insert(string_of("{"), TokenKind::OpenBrace);
    operators.insert(string_of("}"), TokenKind::CloseBrace);
    operators.insert(string_of("["), TokenKind::OpenBracket);
    operators.insert(string_of("]"), TokenKind::CloseBracket);
    operators.insert(string_of(","), TokenKind::Comma);
    operators.insert(string_of(";"), TokenKind::Semicolon);
    operators.insert(string_of("::"), TokenKind::DubColon);
    operators.insert(string_of(":"), TokenKind::Colon);
    operators.insert(string_of(":="), TokenKind::ColonEquals);
    operators.insert(string_of("."), TokenKind::Period);
    operators.insert(string_of("="), TokenKind::Assignment);
    operators.insert(string_of("<="), TokenKind::ReverseLambda);
    operators.insert(string_of("=>"), TokenKind::Lambda);
    operators.insert(string_of("+"), TokenKind::Add);
    operators.insert(string_of("-"), TokenKind::Subtract);
    operators.insert(string_of("*"), TokenKind::Multiply);
    operators.insert(string_of("/"), TokenKind::Divide);
    operators.insert(string_of("%"), TokenKind::Modulo);
    operators.insert(string_of("!"), TokenKind::Not);

    let tokenizer = Tokenizer {
        operators,
        keywords,
        tokens: Vec::<Token>::new(),
        source: String::new(),
        index: 0,
        length: 0,
    };
    proof {
        assert("for"@ =~= seq!['f', 'o', 'r']);
        assert("loop"@ =~= seq!['l', 'o', 'o', 'p']);
        assert("break"@ =~= seq!['b', 'r', 'e', 'a', 'k']);
        assert("typedef"@ =~= seq!['t', 'y', 'p', 'e', 'd', 'e', 'f']);
        assert("("@ =~= seq!['(']);
        assert(")"@ =~= seq![')']);
        assert("{"@ =~= seq!['{']);
        assert("}"@ =~= seq!['}']);
        assert("["@ =~= seq!['[']);
        assert("]"@ =~= seq![']']);
        assert(","@ =~= seq![',']);
        assert(";"@ =~= seq![';']);
        assert("::"@ =~= seq![':', ':']);
        assert(":"@ =~= seq![':']);
        assert(":="@ =~= seq![':', '=']);
        assert("."@ =~= seq!['.']);
        assert("="@ =~= seq!['=']);
        assert("<="@ =~= seq!['<', '=']);
        assert("=>"@ =~= seq!['=', '>']);
        assert("+"@ =~= seq!['+']);
        assert("-"@ =~= seq!['-']);
        assert("*"@ =~= seq!['*']);
        assert("/"@ =~= seq!['/']);
        assert("%"@ =~= seq!['%']);
        assert("!"@ =~= seq!['!']);
        assert(token_views(tokenizer.tokens@) =~= Seq::<SpecToken>::empty());
        assert(tokenizer.keywords@ =~= keyword_table());
        assert(tokenizer.operators@ =~= operator_table());
    }
    tokenizer
}

} // verus!
