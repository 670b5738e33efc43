//! Tokens and the lexer of the expression language.
use crate::expressions::error::{ExpressionError, Failure};
use crate::json::Number;
use crate::number::{digit_test, display_double, double_text, parse_double, parsed_double};
use crate::text::{
    CharTest, chars_of, concat2, concat3, digit, is_ascii_letter, is_digit, lemma_run_end,
    run_end, skip_space, space_test, string_of,
};
use vstd::prelude::*;

verus! {

/// A lexical token.
#[derive(Debug, Clone, PartialEq)]
pub enum Token {
    /// `.`
    Dot,
    /// `..`
    RecursiveDot,
    /// `[`
    LBracket,
    /// `]`
    RBracket,
    /// `{`
    LBrace,
    /// `}`
    RBrace,
    /// `(`
    LParen,
    /// `)`
    RParen,
    /// `|`
    Pipe,
    /// `,`
    Comma,
    /// `:`
    Colon,
    /// `;`
    Semicolon,
    /// `$` followed by an identifier
    Variable(String),
    /// An identifier (a function name, `and`, `or`, `true`)
    Ident(String),
    /// A number literal, as the bits of a double
    Number(u64),
    /// A segment of a string literal, without escapes
    Str(String),
    /// The source of an interpolation inside a string
    Interp(String),
    /// `==`
    EqEq,
    /// `!=`
    Ne,
    /// `<`
    Lt,
    /// `<=`
    Le,
    /// `>`
    Gt,
    /// `>=`
    Ge,
    /// `+`
    Plus,
    /// `-`
    Minus,
    /// `*`
    Star,
    /// `/`
    Slash,
    /// `%`
    Percent,
    /// `//`
    Alternative,
    /// `=`
    Assign,
    /// End of input
    Eof,
}

/// The model of a token: a token without text stands for itself.
pub ghost enum Lexeme {
    Fixed(Token),
    Variable(Seq<char>),
    Ident(Seq<char>),
    Number(u64),
    Str(Seq<char>),
    Interp(Seq<char>),
}

impl View for Token {
    type V = Lexeme;

    open spec fn view(&self) -> Lexeme {
        match self {
            Token::Variable(v) => Lexeme::Variable(v@),
            Token::Ident(i) => Lexeme::Ident(i@),
            Token::Number(n) => Lexeme::Number(*n),
            Token::Str(s) => Lexeme::Str(s@),
            Token::Interp(s) => Lexeme::Interp(s@),
            _ => Lexeme::Fixed(*self),
        }
    }
}

/// The models of a list of tokens.
pub open spec fn lexemes(tokens: Seq<Token>) -> Seq<Lexeme> {
    tokens.map_values(|t: Token| t@)
}

/// The text of a string in Rust's debug notation.
pub uninterp spec fn debug_notation(s: Seq<char>) -> Seq<char>;

/// Trusted: the debug formatting of `std` for a string. Which characters it
/// escapes follows the Unicode tables of `std` and is not stated.
#[verifier::external_body]
pub(crate) fn debug_string(s: &str) -> (r: String)
    ensures
        r@ == debug_notation(s@),
{
    format!("{s:?}")
}

/// The short description of a token in error messages.
pub open spec fn description(l: Lexeme) -> Seq<char> {
    match l {
        Lexeme::Variable(v) => "$"@ + v,
        Lexeme::Ident(i) => i,
        Lexeme::Number(n) => double_text(n),
        Lexeme::Str(s) => debug_notation(s),
        Lexeme::Interp(s) => "\\\\("@ + s + ")"@,
        Lexeme::Fixed(t) => match t {
            Token::Dot => "."@,
            Token::RecursiveDot => ".."@,
            Token::LBracket => "["@,
            Token::RBracket => "]"@,
            Token::LBrace => "{"@,
            Token::RBrace => "}"@,
            Token::LParen => "("@,
            Token::RParen => ")"@,
            Token::Pipe => "|"@,
            Token::Comma => ","@,
            Token::Colon => ":"@,
            Token::Semicolon => ";"@,
            Token::EqEq => "=="@,
            Token::Ne => "!="@,
            Token::Lt => "<"@,
            Token::Le => "<="@,
            Token::Gt => ">"@,
            Token::Ge => ">="@,
            Token::Plus => "+"@,
            Token::Minus => "-"@,
            Token::Star => "*"@,
            Token::Slash => "/"@,
            Token::Percent => "%"@,
            Token::Alternative => "//"@,
            Token::Assign => "="@,
            _ => "end of input"@,
        },
    }
}

impl Token {
    /// A short description for error messages.
    pub fn describe(&self) -> (r: String)
        ensures
            r@ == description(self@),
    {
        match self {
            Token::Dot => ".".to_owned(),
            Token::RecursiveDot => "..".to_owned(),
            Token::LBracket => "[".to_owned(),
            Token::RBracket => "]".to_owned(),
            Token::LBrace => "{".to_owned(),
            Token::RBrace => "}".to_owned(),
            Token::LParen => "(".to_owned(),
            Token::RParen => ")".to_owned(),
            Token::Pipe => "|".to_owned(),
            Token::Comma => ",".to_owned(),
            Token::Colon => ":".to_owned(),
            Token::Semicolon => ";".to_owned(),
            Token::Variable(v) => concat2("$", v.as_str()),
            Token::Ident(i) => i.clone(),
            Token::Number(n) => display_double(*n),
            Token::Str(s) => debug_string(s.as_str()),
            Token::Interp(s) => concat3("\\\\(", s.as_str(), ")"),
            Token::EqEq => "==".to_owned(),
            Token::Ne => "!=".to_owned(),
            Token::Lt => "<".to_owned(),
            Token::Le => "<=".to_owned(),
            Token::Gt => ">".to_owned(),
            Token::Ge => ">=".to_owned(),
            Token::Plus => "+".to_owned(),
            Token::Minus => "-".to_owned(),
            Token::Star => "*".to_owned(),
            Token::Slash => "/".to_owned(),
            Token::Percent => "%".to_owned(),
            Token::Alternative => "//".to_owned(),
            Token::Assign => "=".to_owned(),
            Token::Eof => "end of input".to_owned(),
        }
    }
}

// ---------------------------------------------------------------------------
// Character classes
// ---------------------------------------------------------------------------

/// Whether a character outside ASCII has the Unicode property `Alphabetic`.
pub uninterp spec fn unicode_alphabetic(c: char) -> bool;

/// Whether a character outside ASCII is of one of Unicode's numeric categories.
pub uninterp spec fn unicode_numeric(c: char) -> bool;

/// Trusted: `char::is_alphabetic` on a character outside ASCII.
#[verifier::external_body]
fn alphabetic_beyond_ascii(c: char) -> (r: bool)
    requires
        c as u32 >= 128,
    ensures
        r == unicode_alphabetic(c),
{
    c.is_alphabetic()
}

/// Trusted: `char::is_numeric` on a character outside ASCII.
#[verifier::external_body]
fn numeric_beyond_ascii(c: char) -> (r: bool)
    requires
        c as u32 >= 128,
    ensures
        r == unicode_numeric(c),
{
    c.is_numeric()
}

/// Whether an identifier can start with the character.
pub open spec fn is_ident_start(c: char) -> bool {
    c == '_' || if (c as u32) < 128 {
        is_ascii_letter(c)
    } else {
        unicode_alphabetic(c)
    }
}

/// Whether an identifier can go on with the character.
pub open spec fn is_ident_part(c: char) -> bool {
    c == '_' || if (c as u32) < 128 {
        is_ascii_letter(c) || is_digit(c)
    } else {
        unicode_alphabetic(c) || unicode_numeric(c)
    }
}

/// Decides whether an identifier can start with the character.
fn ident_start(c: char) -> (r: bool)
    ensures
        r == is_ident_start(c),
{
    if c == '_' {
        true
    } else if (c as u32) < 128 {
        ('a' <= c && c <= 'z') || ('A' <= c && c <= 'Z')
    } else {
        alphabetic_beyond_ascii(c)
    }
}

/// Decides whether an identifier can go on with the character.
fn ident_part(c: char) -> (r: bool)
    ensures
        r == is_ident_part(c),
{
    if c == '_' {
        true
    } else if (c as u32) < 128 {
        ('a' <= c && c <= 'z') || ('A' <= c && c <= 'Z') || digit(c)
    } else {
        alphabetic_beyond_ascii(c) || numeric_beyond_ascii(c)
    }
}

/// The test for the characters of an identifier.
pub open spec fn ident_test() -> CharTest {
    |c: char| is_ident_part(c)
}

/// The test for the characters of a comment.
pub open spec fn comment_test() -> CharTest {
    |c: char| c != '\n'
}

// ---------------------------------------------------------------------------
// Grammar
// ---------------------------------------------------------------------------

/// The index behind white space and comments. A comment runs from `#` to the
/// end of the line.
pub open spec fn blank_end(s: Seq<char>, pos: int) -> int
    decreases s.len() - pos,
{
    if pos < 0 || pos > s.len() {
        pos
    } else {
        let p = run_end(s, pos, space_test());
        if p < s.len() && s[p] == '#' {
            proof {
                lemma_run_end(s, pos, space_test());
                lemma_run_end(s, p + 1, comment_test());
            }
            blank_end(s, run_end(s, p, comment_test()))
        } else {
            p
        }
    }
}

/// The operators of two characters.
pub open spec fn double_symbol(c: char, d: char) -> Option<Token> {
    if c == '.' && d == '.' {
        Some(Token::RecursiveDot)
    } else if c == '=' && d == '=' {
        Some(Token::EqEq)
    } else if c == '!' && d == '=' {
        Some(Token::Ne)
    } else if c == '<' && d == '=' {
        Some(Token::Le)
    } else if c == '>' && d == '=' {
        Some(Token::Ge)
    } else if c == '/' && d == '/' {
        Some(Token::Alternative)
    } else {
        None
    }
}

/// The operators and brackets of one character.
pub open spec fn single_symbol(c: char) -> Option<Token> {
    match c {
        '.' => Some(Token::Dot),
        '[' => Some(Token::LBracket),
        ']' => Some(Token::RBracket),
        '{' => Some(Token::LBrace),
        '}' => Some(Token::RBrace),
        '(' => Some(Token::LParen),
        ')' => Some(Token::RParen),
        '|' => Some(Token::Pipe),
        ',' => Some(Token::Comma),
        ':' => Some(Token::Colon),
        ';' => Some(Token::Semicolon),
        '+' => Some(Token::Plus),
        '-' => Some(Token::Minus),
        '<' => Some(Token::Lt),
        '>' => Some(Token::Gt),
        '*' => Some(Token::Star),
        '/' => Some(Token::Slash),
        '%' => Some(Token::Percent),
        '=' => Some(Token::Assign),
        _ => None,
    }
}

/// Whether the character at a position is one of two.
pub open spec fn char_in(s: Seq<char>, pos: int, a: char, b: char) -> bool {
    0 <= pos < s.len() && (s[pos] == a || s[pos] == b)
}

/// The end of the digits of a number and of its fraction.
pub open spec fn mantissa_end(s: Seq<char>, pos: int) -> int {
    let i = run_end(s, pos, digit_test());
    if char_in(s, i, '.', '.') {
        run_end(s, i + 1, digit_test())
    } else {
        i
    }
}

/// The end of a number: digits, an optional fraction and an optional exponent.
pub open spec fn number_end(s: Seq<char>, pos: int) -> int {
    let i = mantissa_end(s, pos);
    if char_in(s, i, 'e', 'E') {
        if char_in(s, i + 1, '+', '-') {
            run_end(s, i + 2, digit_test())
        } else {
            run_end(s, i + 1, digit_test())
        }
    } else {
        i
    }
}

/// The character that a one-letter escape stands for.
pub open spec fn simple_escape(c: char) -> Option<char> {
    match c {
        '"' => Some('"'),
        '\\' => Some('\\'),
        'n' => Some('\n'),
        't' => Some('\t'),
        'r' => Some('\r'),
        'f' => Some('\u{c}'),
        'b' => Some('\u{8}'),
        '/' => Some('/'),
        _ => None,
    }
}

/// The value of a hexadecimal digit.
pub open spec fn hex_value(c: char) -> Option<nat> {
    if '0' <= c <= '9' {
        Some(((c as u32) - ('0' as u32)) as nat)
    } else if 'a' <= c <= 'f' {
        Some(((c as u32) - ('a' as u32) + 10) as nat)
    } else if 'A' <= c <= 'F' {
        Some(((c as u32) - ('A' as u32) + 10) as nat)
    } else {
        None
    }
}

/// The value of hexadecimal digits.
pub open spec fn hex_digits(s: Seq<char>) -> Option<nat>
    decreases s.len(),
{
    if s.len() == 0 {
        Some(0)
    } else {
        match (hex_digits(s.drop_last()), hex_value(s.last())) {
            (Some(high), Some(low)) => Some(high * 16 + low),
            _ => None,
        }
    }
}

/// The value of a hexadecimal number: digits after at most one plus sign.
pub open spec fn hex_number(s: Seq<char>) -> Option<nat> {
    let body = if s.len() > 0 && s[0] == '+' {
        s.skip(1)
    } else {
        s
    };
    if body.len() == 0 {
        None
    } else {
        hex_digits(body)
    }
}

/// Whether a code is that of a character.
pub open spec fn is_char_code(n: nat) -> bool {
    n < 0xd800 || 0xe000 <= n < 0x110000
}

/// The index behind the parenthesis that closes an interpolation.
pub open spec fn interp_end(s: Seq<char>, pos: int, depth: nat) -> Option<int>
    decreases s.len() - pos,
{
    if pos < 0 || pos >= s.len() {
        None
    } else if s[pos] == '(' {
        interp_end(s, pos + 1, depth + 1)
    } else if s[pos] == ')' {
        if depth <= 1 {
            Some(pos + 1)
        } else {
            interp_end(s, pos + 1, (depth - 1) as nat)
        }
    } else {
        interp_end(s, pos + 1, depth)
    }
}

/// An interpolation ends behind its start.
pub proof fn lemma_interp_end(s: Seq<char>, pos: int, depth: nat)
    requires
        0 <= pos,
    ensures
        match interp_end(s, pos, depth) {
            Some(end) => pos < end <= s.len(),
            None => true,
        },
    decreases s.len() - pos,
{
    if pos >= s.len() {
    } else if s[pos] == '(' {
        lemma_interp_end(s, pos + 1, depth + 1);
    } else if s[pos] == ')' {
        if depth > 1 {
            lemma_interp_end(s, pos + 1, (depth - 1) as nat);
        }
    } else {
        lemma_interp_end(s, pos + 1, depth);
    }
}

/// What the lexer finds at a position: tokens and the position behind them.
pub type Batch = Result<(Seq<Lexeme>, int), Failure>;

/// The segments with a literal one appended, unless it is empty.
pub open spec fn flushed(tokens: Seq<Lexeme>, literal: Seq<char>) -> Seq<Lexeme> {
    if literal.len() == 0 {
        tokens
    } else {
        tokens.push(Lexeme::Str(literal))
    }
}

/// The segments of a whole string. An empty string is one empty segment.
pub open spec fn segments(tokens: Seq<Lexeme>, literal: Seq<char>) -> Seq<Lexeme> {
    let all = flushed(tokens, literal);
    if all.len() == 0 {
        all.push(Lexeme::Str(Seq::empty()))
    } else {
        all
    }
}

/// The end of the digits of a `\u` escape: four characters, or what is left.
pub open spec fn hex_end(s: Seq<char>, pos: int) -> int {
    if pos + 4 <= s.len() {
        pos + 4
    } else {
        s.len() as int
    }
}

/// A string from a position inside it, after the given segments and the given
/// part of a literal segment.
pub open spec fn string_rest(
    s: Seq<char>,
    pos: int,
    tokens: Seq<Lexeme>,
    literal: Seq<char>,
) -> Batch
    decreases s.len() - pos,
{
    if pos < 0 || pos >= s.len() {
        Err((Failure::Lex { pos, message: "unterminated string"@ }))
    } else if s[pos] == '"' {
        Ok((segments(tokens, literal), pos + 1))
    } else if s[pos] != '\\' {
        string_rest(s, pos + 1, tokens, literal.push(s[pos]))
    } else if pos + 1 >= s.len() {
        Err((Failure::Lex { pos: pos + 1, message: "unterminated escape"@ }))
    } else {
        let esc = s[pos + 1];
        if esc == '(' {
            match interp_end(s, pos + 2, 1) {
                Some(end) => {
                    proof {
                        lemma_interp_end(s, pos + 2, 1);
                    }
                    string_rest(
                        s,
                        end,
                        flushed(tokens, literal).push(Lexeme::Interp(s.subrange(pos + 2, end - 1))),
                        Seq::empty(),
                    )
                },
                None => Err(
                    (Failure::Lex { pos: s.len() as int, message: "unterminated interpolation"@ }),
                ),
            }
        } else if esc == 'u' {
            let end = hex_end(s, pos + 2);
            match hex_number(s.subrange(pos + 2, end)) {
                Some(code) => if is_char_code(code) {
                    string_rest(s, end, tokens, literal.push(code as char))
                } else {
                    string_rest(s, end, tokens, literal)
                },
                None => Err((Failure::Lex { pos: end, message: "invalid unicode escape"@ })),
            }
        } else {
            match simple_escape(esc) {
                Some(c) => string_rest(s, pos + 2, tokens, literal.push(c)),
                None => string_rest(s, pos + 2, tokens, literal.push('\\').push(esc)),
            }
        }
    }
}

/// The next tokens at a position without white space before it. A string can
/// give several; the end of the input gives the end token.
pub open spec fn batch_at(s: Seq<char>, p: int) -> Batch {
    if p < 0 || p >= s.len() {
        Ok((seq![Lexeme::Fixed(Token::Eof)], p))
    } else {
        let c = s[p];
        if p + 1 < s.len() && double_symbol(c, s[p + 1]) is Some {
            Ok((seq![Lexeme::Fixed(double_symbol(c, s[p + 1]).unwrap())], p + 2))
        } else if single_symbol(c) is Some {
            Ok((seq![Lexeme::Fixed(single_symbol(c).unwrap())], p + 1))
        } else if c == '$' {
            let end = run_end(s, p + 1, ident_test());
            Ok((seq![Lexeme::Variable(s.subrange(p + 1, end))], end))
        } else if c == '"' {
            string_rest(s, p + 1, Seq::empty(), Seq::empty())
        } else if is_digit(c) {
            let end = number_end(s, p);
            let text = s.subrange(p, end);
            match parsed_double(text) {
                Some(n) => Ok((seq![Lexeme::Number(n)], end)),
                None => Err((Failure::Lex { pos: p, message: "invalid number `"@ + text + "`"@ })),
            }
        } else if is_ident_start(c) {
            let end = run_end(s, p, ident_test());
            Ok((seq![Lexeme::Ident(s.subrange(p, end))], end))
        } else {
            Err((Failure::Lex { pos: p, message: "unexpected character `"@ + seq![c] + "`"@ }))
        }
    }
}

/// The next tokens at a position.
pub open spec fn next_batch(s: Seq<char>, pos: int) -> Batch {
    batch_at(s, blank_end(s, pos))
}

/// The tokens from a position to the end of the input.
pub open spec fn tokens_from(s: Seq<char>, pos: int) -> Result<Seq<Lexeme>, Failure>
    decreases s.len() - pos,
{
    if pos < 0 || pos > s.len() {
        Ok(Seq::empty())
    } else {
        match next_batch(s, pos) {
            Err(e) => Err(e),
            Ok((batch, next)) => if batch[0] == Lexeme::Fixed(Token::Eof) {
                Ok(batch)
            } else {
                proof {
                    lemma_next_batch(s, pos);
                }
                match tokens_from(s, next) {
                    Ok(rest) => Ok(batch + rest),
                    Err(e) => Err(e),
                }
            },
        }
    }
}

/// The tokens of a source text.
pub open spec fn tokens_of(s: Seq<char>) -> Result<Seq<Lexeme>, Failure> {
    tokens_from(s, 0)
}

/// White space ends between its start and the end of the text.
proof fn lemma_blank_end(s: Seq<char>, pos: int)
    requires
        0 <= pos <= s.len(),
    ensures
        pos <= blank_end(s, pos) <= s.len(),
    decreases s.len() - pos,
{
    lemma_run_end(s, pos, space_test());
    let p = run_end(s, pos, space_test());
    if p < s.len() && s[p] == '#' {
        lemma_run_end(s, p + 1, comment_test());
        lemma_blank_end(s, run_end(s, p, comment_test()));
    }
}

/// A string ends behind its start, and has segments of text only.
proof fn lemma_string_rest(s: Seq<char>, pos: int, tokens: Seq<Lexeme>, literal: Seq<char>)
    requires
        0 <= pos,
        forall|i: int| 0 <= i < tokens.len() ==> #[trigger] is_segment(tokens[i], s.len()),
    ensures
        match string_rest(s, pos, tokens, literal) {
            Ok((batch, next)) => pos < next <= s.len() && batch.len() > 0 && forall|i: int|
                0 <= i < batch.len() ==> #[trigger] is_segment(batch[i], s.len()),
            Err(_) => true,
        },
    decreases s.len() - pos,
{
    if pos >= s.len() {
    } else if s[pos] == '"' {
    } else if s[pos] != '\\' {
        lemma_string_rest(s, pos + 1, tokens, literal.push(s[pos]));
    } else if pos + 1 >= s.len() {
    } else {
        let esc = s[pos + 1];
        if esc == '(' {
            lemma_interp_end(s, pos + 2, 1);
            match interp_end(s, pos + 2, 1) {
                Some(end) => {
                    lemma_string_rest(
                        s,
                        end,
                        flushed(tokens, literal).push(Lexeme::Interp(s.subrange(pos + 2, end - 1))),
                        Seq::empty(),
                    );
                },
                None => {},
            }
        } else if esc == 'u' {
            let end = hex_end(s, pos + 2);
            match hex_number(s.subrange(pos + 2, end)) {
                Some(code) => if is_char_code(code) {
                    lemma_string_rest(s, end, tokens, literal.push(code as char));
                } else {
                    lemma_string_rest(s, end, tokens, literal);
                },
                None => {},
            }
        } else {
            match simple_escape(esc) {
                Some(c) => lemma_string_rest(s, pos + 2, tokens, literal.push(c)),
                None => lemma_string_rest(s, pos + 2, tokens, literal.push('\\').push(esc)),
            }
        }
    }
}

/// A segment of a string; the source of an interpolation is shorter than the
/// text that it stands in.
pub open spec fn is_segment(l: Lexeme, len: nat) -> bool {
    match l {
        Lexeme::Str(_) => true,
        Lexeme::Interp(source) => source.len() < len,
        _ => false,
    }
}

/// A number ends behind its first digit.
proof fn lemma_number_end(s: Seq<char>, p: int)
    requires
        0 <= p < s.len(),
        is_digit(s[p]),
    ensures
        p < number_end(s, p) <= s.len(),
        p < mantissa_end(s, p) <= s.len(),
        p < run_end(s, p, digit_test()) <= s.len(),
{
    lemma_run_end(s, p + 1, digit_test());
    let i = run_end(s, p, digit_test());
    if char_in(s, i, '.', '.') {
        lemma_run_end(s, i + 1, digit_test());
    }
    let j = mantissa_end(s, p);
    if char_in(s, j, 'e', 'E') {
        if char_in(s, j + 1, '+', '-') {
            lemma_run_end(s, j + 2, digit_test());
        } else {
            lemma_run_end(s, j + 1, digit_test());
        }
    }
}

/// Every batch but the last one makes progress, and only the last one starts
/// with the end token.
pub proof fn lemma_next_batch(s: Seq<char>, pos: int)
    requires
        0 <= pos <= s.len(),
    ensures
        match next_batch(s, pos) {
            Ok((batch, next)) => {
                &&& batch.len() > 0
                &&& pos <= next <= s.len()
                &&& batch[0] != Lexeme::Fixed(Token::Eof) ==> pos < next
                &&& batch[0] == Lexeme::Fixed(Token::Eof) ==> batch.len() == 1
                &&& forall|i: int|
                    0 <= i < batch.len() ==> (#[trigger] batch[i] matches Lexeme::Interp(src)
                        ==> src.len() < s.len())
                &&& batch[0] != Lexeme::Fixed(Token::Eof) ==> forall|i: int|
                    0 <= i < batch.len() ==> #[trigger] batch[i] != Lexeme::Fixed(Token::Eof)
            },
            Err(_) => true,
        },
{
    lemma_blank_end(s, pos);
    let p = blank_end(s, pos);
    if p < s.len() {
        let c = s[p];
        lemma_run_end(s, p + 1, ident_test());
        lemma_string_rest(s, p + 1, Seq::empty(), Seq::empty());
        if is_digit(c) {
            lemma_number_end(s, p);
        }
        if c == '"' {
            match next_batch(s, pos) {
                Ok((batch, next)) => {
                    assert forall|i: int| 0 <= i < batch.len() implies (
                    #[trigger] batch[i] matches Lexeme::Interp(src) ==> src.len() < s.len()) by {
                        assert(is_segment(batch[i], s.len()));
                    }
                    assert forall|i: int| 0 <= i < batch.len() implies #[trigger] batch[i]
                        != Lexeme::Fixed(Token::Eof) by {
                        assert(is_segment(batch[i], s.len()));
                    }
                },
                Err(_) => {},
            }
        }
    }
}

// ---------------------------------------------------------------------------
// The lexer
// ---------------------------------------------------------------------------

/// Trusted: `char::from_u32` gives the character with a code, if there is one.
pub assume_specification[ std::char::from_u32 ](i: u32) -> (r: Option<char>)
    ensures
        r == (if is_char_code(i as nat) {
            Some(i as char)
        } else {
            None
        }),
;

/// A lexer for the expression language.
pub struct Lexer {
    chars: Vec<char>,
    pos: usize,
}

impl Lexer {
    /// The characters of the source.
    pub closed spec fn source(self) -> Seq<char> {
        self.chars@
    }

    /// The index of the next character.
    pub closed spec fn at(self) -> int {
        self.pos as int
    }

    /// The position lies in the source.
    pub closed spec fn wf(self) -> bool {
        self.pos <= self.chars.len()
    }

    /// A lexer at the start of a source.
    pub fn new(src: &str) -> (r: Self)
        ensures
            r.wf(),
            r.source() == src@,
            r.at() == 0,
    {
        Self { chars: chars_of(src), pos: 0 }
    }

    /// Tokenizes the rest of the input.
    pub fn tokenize(self) -> (r: Result<Vec<Token>, ExpressionError>)
        requires
            self.wf(),
        ensures
            match r {
                Ok(tokens) => tokens_from(self.source(), self.at()) == Ok::<_, Failure>(
                    lexemes(tokens@),
                ),
                Err(e) => tokens_from(self.source(), self.at()) == Err::<Seq<Lexeme>, _>(e@),
            },
    {
        let mut lexer = self;
        let mut tokens: Vec<Token> = Vec::new();
        let ghost s = self.chars@;
        let ghost start = self.pos as int;
        assert(lexemes(tokens@) =~= Seq::empty());
        loop
            invariant
                lexer.wf(),
                lexer.chars@ == s,
                s == self.source(),
                start == self.at(),
                0 <= start <= lexer.pos,
                match tokens_from(s, lexer.pos as int) {
                    Ok(rest) => tokens_from(s, start) == Ok::<_, Failure>(lexemes(tokens@) + rest),
                    Err(e) => tokens_from(s, start) == Err::<Seq<Lexeme>, _>(e),
                },
            decreases s.len() - lexer.pos,
        {
            let ghost before = lexemes(tokens@);
            let ghost here = lexer.pos as int;
            proof {
                lemma_next_batch(s, here);
            }
            let mut batch = match lexer.next_tokens() {
                Ok(batch) => batch,
                Err(e) => {
                    return Err(e);
                },
            };
            let ghost more = lexemes(batch@);
            assert(more[0] == batch@[0]@);
            let is_eof = match &batch[0] {
                Token::Eof => true,
                _ => false,
            };
            tokens.append(&mut batch);
            assert(lexemes(tokens@) =~= before + more);
            if is_eof {
                return Ok(tokens);
            }
            proof {
                match tokens_from(s, lexer.pos as int) {
                    Ok(rest) => {
                        assert(before + (more + rest) =~= (before + more) + rest);
                    },
                    Err(_) => {},
                }
            }
        }
    }

    /// The character at the position.
    fn peek(&self) -> (r: Option<char>)
        requires
            self.wf(),
        ensures
            r == (if self.pos < self.chars@.len() {
                Some(self.chars@[self.pos as int])
            } else {
                None
            }),
    {
        if self.pos < self.chars.len() {
            Some(self.chars[self.pos])
        } else {
            None
        }
    }

    /// Skips white space and comments.
    fn skip_blank(&mut self)
        requires
            old(self).wf(),
        ensures
            final(self).wf(),
            final(self).chars@ == old(self).chars@,
            final(self).pos == blank_end(old(self).chars@, old(self).pos as int),
    {
        let ghost s = self.chars@;
        loop
            invariant
                self.wf(),
                self.chars@ == s,
                s == old(self).chars@,
                blank_end(s, self.pos as int) == blank_end(s, old(self).pos as int),
            decreases s.len() - self.pos,
        {
            let p = skip_space(&self.chars, self.pos);
            if p < self.chars.len() && self.chars[p] == '#' {
                let mut i = p;
                while i < self.chars.len() && self.chars[i] != '\n'
                    invariant
                        p <= i <= self.chars.len(),
                        self.chars@ == s,
                        run_end(s, i as int, comment_test()) == run_end(
                            s,
                            p as int,
                            comment_test(),
                        ),
                    decreases self.chars.len() - i,
                {
                    i += 1;
                }
                proof {
                    lemma_run_end(s, p + 1, comment_test());
                }
                self.pos = i;
            } else {
                self.pos = p;
                return ;
            }
        }
    }

    /// Reads the next tokens; a string can give several.
    fn next_tokens(&mut self) -> (r: Result<Vec<Token>, ExpressionError>)
        requires
            old(self).wf(),
        ensures
            final(self).wf(),
            final(self).chars@ == old(self).chars@,
            match r {
                Ok(tokens) => next_batch(old(self).chars@, old(self).pos as int) == Ok::<
                    _,
                    Failure,
                >((lexemes(tokens@), final(self).pos as int)),
                Err(e) => next_batch(old(self).chars@, old(self).pos as int) == Err::<
                    (Seq<Lexeme>, int),
                    _,
                >(e@),
            },
    {
        self.skip_blank();
        let ghost s = self.chars@;
        let p = self.pos;
        let c = match self.peek() {
            Some(c) => c,
            None => {
                return Ok(one_token(Token::Eof));
            },
        };
        if p + 1 < self.chars.len() {
            match double_token(c, self.chars[p + 1]) {
                Some(t) => {
                    self.pos = p + 2;
                    return Ok(one_token(t));
                },
                None => {},
            }
        }
        match single_token(c) {
            Some(t) => {
                self.pos = p + 1;
                return Ok(one_token(t));
            },
            None => {},
        }
        if c == '$' {
            self.pos = p + 1;
            let name = self.read_ident();
            return Ok(one_token(Token::Variable(name)));
        }
        if c == '"' {
            return self.read_string();
        }
        if digit(c) {
            let n = match self.read_number() {
                Ok(n) => n,
                Err(e) => {
                    return Err(e);
                },
            };
            return Ok(one_token(Token::Number(n)));
        }
        if ident_start(c) {
            let name = self.read_ident();
            return Ok(one_token(Token::Ident(name)));
        }
        let mut message = "unexpected character `".to_owned();
        message.push(c);
        message.append("`");
        assert(message@ =~= "unexpected character `"@ + seq![c] + "`"@);
        Err(ExpressionError::Lex { pos: p, message })
    }

    /// Reads the rest of an identifier.
    fn read_ident(&mut self) -> (r: String)
        requires
            old(self).wf(),
        ensures
            final(self).wf(),
            final(self).chars@ == old(self).chars@,
            final(self).pos == run_end(old(self).chars@, old(self).pos as int, ident_test()),
            old(self).pos <= final(self).pos,
            r@ == old(self).chars@.subrange(old(self).pos as int, final(self).pos as int),
    {
        let start = self.pos;
        let ghost s = self.chars@;
        while self.pos < self.chars.len() && ident_part(self.chars[self.pos])
            invariant
                start <= self.pos <= self.chars.len(),
                self.chars@ == s,
                run_end(s, self.pos as int, ident_test()) == run_end(
                    s,
                    start as int,
                    ident_test(),
                ),
            decreases self.chars.len() - self.pos,
        {
            self.pos = self.pos + 1;
        }
        string_of(&self.chars, start, self.pos)
    }

    /// Skips decimal digits.
    fn skip_digits(&mut self)
        requires
            old(self).wf(),
        ensures
            final(self).wf(),
            final(self).chars@ == old(self).chars@,
            final(self).pos == run_end(old(self).chars@, old(self).pos as int, digit_test()),
    {
        let ghost s = self.chars@;
        while self.pos < self.chars.len() && digit(self.chars[self.pos])
            invariant
                self.wf(),
                self.chars@ == s,
                run_end(s, self.pos as int, digit_test()) == run_end(
                    s,
                    old(self).pos as int,
                    digit_test(),
                ),
            decreases self.chars.len() - self.pos,
        {
            self.pos = self.pos + 1;
        }
    }

    /// Whether the next character is one of two.
    fn looking_at(&self, a: char, b: char) -> (r: bool)
        requires
            self.wf(),
        ensures
            r == char_in(self.chars@, self.pos as int, a, b),
            r ==> self.pos < self.chars.len(),
    {
        self.pos < self.chars.len() && (self.chars[self.pos] == a || self.chars[self.pos] == b)
    }

    /// Reads a number.
    fn read_number(&mut self) -> (r: Result<u64, ExpressionError>)
        requires
            old(self).wf(),
            old(self).pos < old(self).chars.len(),
            is_digit(old(self).chars@[old(self).pos as int]),
        ensures
            final(self).wf(),
            final(self).chars@ == old(self).chars@,
            ({
                let s = old(self).chars@;
                let p = old(self).pos as int;
                let text = s.subrange(p, number_end(s, p));
                match r {
                    Ok(n) => parsed_double(text) == Some(n) && final(self).pos == number_end(s, p),
                    Err(e) => parsed_double(text) is None && e@ == (Failure::Lex {
                        pos: p,
                        message: "invalid number `"@ + text + "`"@,
                    }),
                }
            }),
    {
        let start = self.pos;
        proof {
            lemma_number_end(self.chars@, start as int);
        }
        self.skip_digits();
        if self.looking_at('.', '.') {
            self.pos = self.pos + 1;
            self.skip_digits();
        }
        if self.looking_at('e', 'E') {
            self.pos = self.pos + 1;
            if self.looking_at('+', '-') {
                self.pos = self.pos + 1;
            }
            self.skip_digits();
        }
        let text = string_of(&self.chars, start, self.pos);
        match parse_double(text.as_str()) {
            Some(n) => Ok(n),
            None => {
                let message = concat3("invalid number `", text.as_str(), "`");
                Err(ExpressionError::Lex { pos: start, message })
            },
        }
    }

    /// Reads a quoted string into literal segments and interpolations.
    #[verifier::rlimit(40)]
    fn read_string(&mut self) -> (r: Result<Vec<Token>, ExpressionError>)
        requires
            old(self).wf(),
            old(self).pos < old(self).chars.len(),
        ensures
            final(self).wf(),
            final(self).chars@ == old(self).chars@,
            ({
                let found = string_rest(
                    old(self).chars@,
                    old(self).pos + 1,
                    Seq::empty(),
                    Seq::empty(),
                );
                match r {
                    Ok(tokens) => found == Ok::<_, Failure>(
                        (lexemes(tokens@), final(self).pos as int),
                    ),
                    Err(e) => found == Err::<(Seq<Lexeme>, int), _>(e@),
                }
            }),
    {
        self.pos = self.pos + 1;
        let ghost s = self.chars@;
        let ghost start = self.pos as int;
        let mut tokens: Vec<Token> = Vec::new();
        let mut literal = String::new();
        assert(lexemes(tokens@) =~= Seq::empty());
        loop
            invariant
                self.wf(),
                self.chars@ == s,
                s == old(self).chars@,
                start == old(self).pos + 1,
                string_rest(s, self.pos as int, lexemes(tokens@), literal@) == string_rest(
                    s,
                    start,
                    Seq::empty(),
                    Seq::empty(),
                ),
            decreases s.len() - self.pos,
        {
            if self.pos >= self.chars.len() {
                return Err(ExpressionError::lex(self.pos, "unterminated string"));
            }
            let c = self.chars[self.pos];
            self.pos = self.pos + 1;
            if c == '"' {
                flush(&mut tokens, literal);
                let ghost all = lexemes(tokens@);
                if tokens.len() == 0 {
                    let empty = String::new();
                    tokens.push(Token::Str(empty));
                    assert(lexemes(tokens@) =~= all.push(Lexeme::Str(empty@)));
                }
                return Ok(tokens);
            }
            if c != '\\' {
                literal.push(c);
                continue ;
            }
            if self.pos >= self.chars.len() {
                return Err(ExpressionError::lex(self.pos, "unterminated escape"));
            }
            let esc = self.chars[self.pos];
            self.pos = self.pos + 1;
            if esc == '(' {
                flush(&mut tokens, literal);
                literal = String::new();
                let ghost inner = self.pos as int;
                proof {
                    lemma_interp_end(s, inner, 1);
                }
                let source = match self.read_interp_source() {
                    Ok(source) => source,
                    Err(e) => {
                        return Err(e);
                    },
                };
                let ghost before = tokens@;
                tokens.push(Token::Interp(source));
                assert(lexemes(tokens@) =~= lexemes(before).push(Lexeme::Interp(source@)));
            } else if esc == 'u' {
                let start_hex = self.pos;
                let end_hex = if self.chars.len() - self.pos >= 4 {
                    self.pos + 4
                } else {
                    self.chars.len()
                };
                self.pos = end_hex;
                match parse_hex(&self.chars, start_hex, end_hex) {
                    Some(code) => match std::char::from_u32(code) {
                        Some(ch) => literal.push(ch),
                        None => {},
                    },
                    None => {
                        return Err(ExpressionError::lex(end_hex, "invalid unicode escape"));
                    },
                }
            } else {
                match plain_escape(esc) {
                    Some(ch) => literal.push(ch),
                    None => {
                        literal.push('\\');
                        literal.push(esc);
                    },
                }
            }
        }
    }

    /// Reads the source of an interpolation, balancing nested parentheses.
    fn read_interp_source(&mut self) -> (r: Result<String, ExpressionError>)
        requires
            old(self).wf(),
            old(self).pos > 0,
        ensures
            final(self).wf(),
            final(self).chars@ == old(self).chars@,
            ({
                let s = old(self).chars@;
                let p = old(self).pos as int;
                match r {
                    Ok(source) => interp_end(s, p, 1) == Some(final(self).pos as int)
                        && final(self).pos > p && source@ == s.subrange(p, final(self).pos - 1),
                    Err(e) => interp_end(s, p, 1) is None && e@ == (Failure::Lex {
                        pos: s.len() as int,
                        message: "unterminated interpolation"@,
                    }),
                }
            }),
    {
        let start = self.pos;
        let ghost s = self.chars@;
        let mut depth: usize = 1;
        loop
            invariant
                self.wf(),
                self.chars@ == s,
                s == old(self).chars@,
                start == old(self).pos,
                0 < start <= self.pos,
                1 <= depth <= 1 + (self.pos - start),
                interp_end(s, self.pos as int, depth as nat) == interp_end(s, start as int, 1),
            decreases s.len() - self.pos,
        {
            if self.pos >= self.chars.len() {
                return Err(ExpressionError::lex(self.pos, "unterminated interpolation"));
            }
            let c = self.chars[self.pos];
            self.pos = self.pos + 1;
            if c == '(' {
                depth = depth + 1;
            } else if c == ')' {
                if depth == 1 {
                    return Ok(string_of(&self.chars, start, self.pos - 1));
                }
                depth = depth - 1;
            }
        }
    }
}

/// A list of one token.
fn one_token(t: Token) -> (r: Vec<Token>)
    ensures
        lexemes(r@) == seq![t@],
{
    let mut out: Vec<Token> = Vec::new();
    out.push(t);
    assert(lexemes(out@) =~= seq![t@]);
    out
}

/// Appends a literal segment that is not empty.
fn flush(tokens: &mut Vec<Token>, literal: String)
    ensures
        lexemes(final(tokens)@) == flushed(lexemes(old(tokens)@), literal@),
{
    let ghost before = tokens@;
    if !literal.as_str().is_empty() {
        tokens.push(Token::Str(literal));
        assert(lexemes(tokens@) =~= lexemes(before).push(Lexeme::Str(literal@)));
    }
}

/// The token of an operator of two characters.
fn double_token(c: char, d: char) -> (r: Option<Token>)
    ensures
        match r {
            Some(t) => double_symbol(c, d) == Some(t) && t@ == Lexeme::Fixed(t),
            None => double_symbol(c, d) is None,
        },
{
    if c == '.' && d == '.' {
        Some(Token::RecursiveDot)
    } else if c == '=' && d == '=' {
        Some(Token::EqEq)
    } else if c == '!' && d == '=' {
        Some(Token::Ne)
    } else if c == '<' && d == '=' {
        Some(Token::Le)
    } else if c == '>' && d == '=' {
        Some(Token::Ge)
    } else if c == '/' && d == '/' {
        Some(Token::Alternative)
    } else {
        None
    }
}

/// The token of an operator or bracket of one character.
fn single_token(c: char) -> (r: Option<Token>)
    ensures
        match r {
            Some(t) => single_symbol(c) == Some(t) && t@ == Lexeme::Fixed(t),
            None => single_symbol(c) is None,
        },
{
    match c {
        '.' => Some(Token::Dot),
        '[' => Some(Token::LBracket),
        ']' => Some(Token::RBracket),
        '{' => Some(Token::LBrace),
        '}' => Some(Token::RBrace),
        '(' => Some(Token::LParen),
        ')' => Some(Token::RParen),
        '|' => Some(Token::Pipe),
        ',' => Some(Token::Comma),
        ':' => Some(Token::Colon),
        ';' => Some(Token::Semicolon),
        '+' => Some(Token::Plus),
        '-' => Some(Token::Minus),
        '<' => Some(Token::Lt),
        '>' => Some(Token::Gt),
        '*' => Some(Token::Star),
        '/' => Some(Token::Slash),
        '%' => Some(Token::Percent),
        '=' => Some(Token::Assign),
        _ => None,
    }
}

/// The character of a one-letter escape.
fn plain_escape(c: char) -> (r: Option<char>)
    ensures
        r == simple_escape(c),
{
    match c {
        '"' => Some('"'),
        '\\' => Some('\\'),
        'n' => Some('\n'),
        't' => Some('\t'),
        'r' => Some('\r'),
        'f' => Some('\u{c}'),
        'b' => Some('\u{8}'),
        '/' => Some('/'),
        _ => None,
    }
}

/// The value of a hexadecimal digit.
fn hex_digit(c: char) -> (r: Option<u32>)
    ensures
        match r {
            Some(d) => hex_value(c) == Some(d as nat) && d < 16,
            None => hex_value(c) is None,
        },
{
    if '0' <= c && c <= '9' {
        Some(c as u32 - '0' as u32)
    } else if 'a' <= c && c <= 'f' {
        Some(c as u32 - 'a' as u32 + 10)
    } else if 'A' <= c && c <= 'F' {
        Some(c as u32 - 'A' as u32 + 10)
    } else {
        None
    }
}

/// Reads a hexadecimal number of at most four characters.
fn parse_hex(chars: &Vec<char>, from: usize, to: usize) -> (r: Option<u32>)
    requires
        from <= to <= chars.len(),
        to - from <= 4,
    ensures
        match r {
            Some(n) => hex_number(chars@.subrange(from as int, to as int)) == Some(n as nat),
            None => hex_number(chars@.subrange(from as int, to as int)) is None,
        },
{
    let ghost s = chars@.subrange(from as int, to as int);
    let start = if from < to && chars[from] == '+' {
        from + 1
    } else {
        from
    };
    let ghost body = chars@.subrange(start as int, to as int);
    proof {
        if from < to {
            assert(s[0] == chars@[from as int]);
            if s[0] == '+' {
                assert(s.skip(1) =~= body);
            }
        }
    }
    if start == to {
        return None;
    }
    let mut value: u32 = 0;
    let mut i: usize = start;
    let mut bound: u32 = 1;
    let mut ok = true;
    assert(body.take(0) =~= Seq::empty());
    while i < to
        invariant
            start <= i <= to <= chars.len(),
            to - start <= 4,
            body == chars@.subrange(start as int, to as int),
            ok ==> hex_digits(body.take(i - start)) == Some(value as nat),
            !ok ==> hex_digits(body.take(i - start)) is None,
            value < bound,
            bound == (if i - start == 0 {
                1int
            } else if i - start == 1 {
                0x10
            } else if i - start == 2 {
                0x100
            } else if i - start == 3 {
                0x1000
            } else {
                0x10000
            }),
        decreases to - i,
    {
        proof {
            let next = body.take(i - start + 1);
            assert(next.drop_last() =~= body.take(i - start));
            assert(next.last() == chars@[i as int]);
        }
        match hex_digit(chars[i]) {
            Some(d) => {
                value = value * 16 + d;
            },
            None => {
                ok = false;
                value = 0;
            },
        }
        bound = bound * 16;
        i += 1;
    }
    assert(body.take(to - start) =~= body);
    if ok {
        Some(value)
    } else {
        None
    }
}

} // verus!
