//! The recursive-descent parser of the expression language.
//!
//! The grammar is given by specification functions over the token sequence, one
//! for each production. Each takes a position and returns a tree with the
//! position behind it, or the failure. `n` bounds the length of the source, so
//! that the source of an interpolation, which is shorter, can be parsed in turn.
use crate::expressions::ast::{
    BinOp, Expr, InterpPart, Key, ObjKey, Part, Tree, UnaryOp, entry_trees, part_trees, trees,
};
use crate::expressions::error::{ExpressionError, Failure};
use crate::expressions::eval::{is_function, known_function};
use crate::expressions::lexer::{
    Lexeme, Lexer, Token, description, lemma_next_batch, lexemes, next_batch, tokens_from,
    tokens_of,
};
use crate::json::{Json, Value};
use crate::text::{concat3, concat5, opt_view, text_eq};
use crate::value::{double_json, json_num};
use vstd::prelude::*;

verus! {

broadcast use {crate::json::group_json, crate::expressions::ast::group_ast};

/// What a production gives: a tree and the position behind it.
pub type Parsed = Result<(Tree, int), Failure>;

/// The token at a position; behind the last one there is the end token.
pub open spec fn at(toks: Seq<Lexeme>, pos: int) -> Lexeme {
    if 0 <= pos < toks.len() {
        toks[pos]
    } else {
        Lexeme::Fixed(Token::Eof)
    }
}

/// Whether a token is a given keyword.
pub open spec fn is_keyword(l: Lexeme, word: Seq<char>) -> bool {
    l == Lexeme::Ident(word)
}

/// The name that a token gives to a field.
pub open spec fn field_name(l: Lexeme) -> Option<Seq<char>> {
    match l {
        Lexeme::Ident(s) => Some(s),
        Lexeme::Str(s) => Some(s),
        _ => None,
    }
}

/// The operators at each level of binding, from the pipe, which binds weakest,
/// to multiplication.
pub ghost enum Joint {
    Pipe,
    Op(BinOp),
}

/// The operator that a token is at a level.
pub open spec fn joint(level: nat, l: Lexeme) -> Option<Joint> {
    if level == 6 {
        if l == Lexeme::Fixed(Token::Pipe) {
            Some(Joint::Pipe)
        } else {
            None
        }
    } else if level == 5 {
        if is_keyword(l, "or"@) {
            Some(Joint::Op(BinOp::Or))
        } else {
            None
        }
    } else if level == 4 {
        if is_keyword(l, "and"@) {
            Some(Joint::Op(BinOp::And))
        } else {
            None
        }
    } else if level == 3 {
        match l {
            Lexeme::Fixed(Token::EqEq) => Some(Joint::Op(BinOp::Eq)),
            Lexeme::Fixed(Token::Ne) => Some(Joint::Op(BinOp::Ne)),
            Lexeme::Fixed(Token::Lt) => Some(Joint::Op(BinOp::Lt)),
            Lexeme::Fixed(Token::Le) => Some(Joint::Op(BinOp::Le)),
            Lexeme::Fixed(Token::Gt) => Some(Joint::Op(BinOp::Gt)),
            Lexeme::Fixed(Token::Ge) => Some(Joint::Op(BinOp::Ge)),
            _ => None,
        }
    } else if level == 2 {
        match l {
            Lexeme::Fixed(Token::Plus) => Some(Joint::Op(BinOp::Add)),
            Lexeme::Fixed(Token::Minus) => Some(Joint::Op(BinOp::Sub)),
            Lexeme::Fixed(Token::Alternative) => Some(Joint::Op(BinOp::Alternative)),
            _ => None,
        }
    } else {
        match l {
            Lexeme::Fixed(Token::Star) => Some(Joint::Op(BinOp::Mul)),
            Lexeme::Fixed(Token::Slash) => Some(Joint::Op(BinOp::Div)),
            Lexeme::Fixed(Token::Percent) => Some(Joint::Op(BinOp::Mod)),
            _ => None,
        }
    }
}

/// Two operands joined by an operator.
pub open spec fn joined_trees(j: Joint, left: Tree, right: Tree) -> Tree {
    match j {
        Joint::Pipe => Tree::Pipe(Box::new(left), Box::new(right)),
        Joint::Op(op) => Tree::Binary(op, Box::new(left), Box::new(right)),
    }
}

/// A parse failure.
pub open spec fn parse_failure(pos: int, message: Seq<char>) -> Failure {
    Failure::Parse { pos, message }
}

/// The failure where a token was expected and another stands.
pub open spec fn expected(what: Seq<char>, toks: Seq<Lexeme>, pos: int) -> Failure {
    parse_failure(pos, "expected "@ + what + ", found `"@ + description(at(toks, pos)) + "`"@)
}

/// The failure where a token cannot stand.
pub open spec fn unexpected(toks: Seq<Lexeme>, pos: int) -> Failure {
    parse_failure(pos, "unexpected `"@ + description(at(toks, pos)) + "`"@)
}

/// A production followed by a token that closes it.
pub open spec fn closed_by(r: Parsed, toks: Seq<Lexeme>, close: Lexeme, what: Seq<char>) -> Parsed {
    match r {
        Ok((t, p)) => if at(toks, p) == close {
            Ok((t, p + 1))
        } else {
            Err(expected(what, toks, p))
        },
        Err(e) => Err(e),
    }
}

/// A single tree stands for itself, several are a stream.
pub open spec fn stream_of(parts: Seq<Tree>) -> Tree {
    if parts.len() == 1 {
        parts[0]
    } else {
        Tree::Stream(parts)
    }
}

/// A stream inside an array constructor gives its parts.
pub open spec fn spliced(items: Seq<Tree>, t: Tree) -> Seq<Tree> {
    match t {
        Tree::Stream(parts) => items + parts,
        _ => items.push(t),
    }
}

/// A comma expression: `pipe ("," pipe)*`.
pub open spec fn p_expr(n: nat, toks: Seq<Lexeme>, pos: int) -> Parsed
    decreases 2 * n, toks.len() - pos, 12nat,
{
    match p_chain(n, toks, pos, 6) {
        Ok((t, p)) => if pos < p <= toks.len() {
            p_expr_rest(n, toks, p, seq![t])
        } else {
            Ok((t, p))
        },
        Err(e) => Err(e),
    }
}

/// The rest of a comma expression.
pub open spec fn p_expr_rest(n: nat, toks: Seq<Lexeme>, pos: int, parts: Seq<Tree>) -> Parsed
    decreases 2 * n, toks.len() - pos, 11nat,
{
    if at(toks, pos) == Lexeme::Fixed(Token::Comma) && pos < toks.len() {
        match p_chain(n, toks, pos + 1, 6) {
            Ok((t, p)) => if pos < p <= toks.len() {
                p_expr_rest(n, toks, p, parts.push(t))
            } else {
                Ok((t, p))
            },
            Err(e) => Err(e),
        }
    } else {
        Ok((stream_of(parts), pos))
    }
}

/// The operators of a level, joining operands of the next level to the left.
pub open spec fn p_chain(n: nat, toks: Seq<Lexeme>, pos: int, level: nat) -> Parsed
    decreases 2 * n, toks.len() - pos, 4 + level,
{
    if level == 0 {
        p_unary(n, toks, pos)
    } else {
        match p_chain(n, toks, pos, (level - 1) as nat) {
            Ok((left, p)) => if pos < p <= toks.len() {
                p_chain_rest(n, toks, p, level, left)
            } else {
                Ok((left, p))
            },
            Err(e) => Err(e),
        }
    }
}

/// The rest of the operators of a level.
pub open spec fn p_chain_rest(
    n: nat,
    toks: Seq<Lexeme>,
    pos: int,
    level: nat,
    left: Tree,
) -> Parsed
    decreases 2 * n, toks.len() - pos, 4 + level,
{
    if 0 < level && 0 <= pos < toks.len() && joint(level, toks[pos]) is Some {
        match p_chain(n, toks, pos + 1, (level - 1) as nat) {
            Ok((right, p)) => if pos < p <= toks.len() {
                p_chain_rest(
                    n,
                    toks,
                    p,
                    level,
                    joined_trees(joint(level, toks[pos]).unwrap(), left, right),
                )
            } else {
                Ok((left, p))
            },
            Err(e) => Err(e),
        }
    } else {
        Ok((left, pos))
    }
}

/// A unary expression: `("not" | "-") unary` or a postfix expression.
pub open spec fn p_unary(n: nat, toks: Seq<Lexeme>, pos: int) -> Parsed
    decreases 2 * n, toks.len() - pos, 3nat,
{
    if pos < toks.len() && is_keyword(at(toks, pos), "not"@) {
        match p_unary(n, toks, pos + 1) {
            Ok((t, p)) => Ok((Tree::Unary(UnaryOp::Not, Box::new(t)), p)),
            Err(e) => Err(e),
        }
    } else if pos < toks.len() && at(toks, pos) == Lexeme::Fixed(Token::Minus) {
        match p_unary(n, toks, pos + 1) {
            Ok((t, p)) => Ok((Tree::Unary(UnaryOp::Negate, Box::new(t)), p)),
            Err(e) => Err(e),
        }
    } else if 0 <= pos < toks.len() {
        match p_base(n, toks, pos) {
            Ok((t, p)) => if pos < p <= toks.len() {
                p_postfix(n, toks, p, t)
            } else {
                Ok((t, p))
            },
            Err(e) => Err(e),
        }
    } else {
        Err(parse_failure(pos, "unexpected end of expression"@))
    }
}

/// An index in brackets: `[]` iterates, `[expr]` selects.
pub open spec fn p_index(n: nat, toks: Seq<Lexeme>, pos: int, base: Tree) -> Parsed
    decreases 2 * n, toks.len() - pos, 0nat,
{
    if pos >= toks.len() {
        Ok((base, pos))
    } else if at(toks, pos + 1) == Lexeme::Fixed(Token::RBracket) {
        Ok((Tree::Iterate(Box::new(base)), pos + 2))
    } else {
        match closed_by(
            p_expr(n, toks, pos + 1),
            toks,
            Lexeme::Fixed(Token::RBracket),
            "`]`"@,
        ) {
            Ok((index, p)) => Ok((Tree::Index(Box::new(base), Box::new(index)), p)),
            Err(e) => Err(e),
        }
    }
}

/// The accesses behind a base: `.name`, `[]` and `[expr]`.
pub open spec fn p_postfix(n: nat, toks: Seq<Lexeme>, pos: int, base: Tree) -> Parsed
    decreases 2 * n, toks.len() - pos, 1nat,
{
    if pos < toks.len() && at(toks, pos) == Lexeme::Fixed(Token::Dot) {
        match field_name(at(toks, pos + 1)) {
            Some(name) => p_postfix(n, toks, pos + 2, Tree::Field(Box::new(base), name)),
            None => Ok((base, pos)),
        }
    } else if at(toks, pos) == Lexeme::Fixed(Token::LBracket) {
        match p_index(n, toks, pos, base) {
            Ok((t, p)) => if pos < p <= toks.len() {
                p_postfix(n, toks, p, t)
            } else {
                Ok((t, p))
            },
            Err(e) => Err(e),
        }
    } else {
        Ok((base, pos))
    }
}

/// What a leading dot gives: the field of the input that a name behind it names,
/// or the input.
pub open spec fn p_dot(toks: Seq<Lexeme>, pos: int) -> Parsed {
    match field_name(at(toks, pos + 1)) {
        Some(name) => Ok((Tree::Field(Box::new(Tree::Identity), name), pos + 2)),
        None => Ok((Tree::Identity, pos + 1)),
    }
}

/// An expression without operators or accesses behind it.
pub open spec fn p_base(n: nat, toks: Seq<Lexeme>, pos: int) -> Parsed
    decreases 2 * n, toks.len() - pos, 2nat,
{
    if pos < 0 || pos >= toks.len() {
        Err(parse_failure(pos, "unexpected end of expression"@))
    } else {
        match toks[pos] {
            Lexeme::Fixed(Token::Dot) => p_dot(toks, pos),
            Lexeme::Fixed(Token::RecursiveDot) => Ok((Tree::Identity, pos + 1)),
            Lexeme::Variable(name) => Ok((Tree::Variable(name), pos + 1)),
            Lexeme::Number(bits) => Ok((Tree::Literal(double_json(bits)), pos + 1)),
            Lexeme::Str(s) => p_string(n, toks, pos + 1, seq![Part::Literal(s)]),
            Lexeme::Interp(source) => match p_interp(n, source) {
                Ok(t) => p_string(n, toks, pos + 1, seq![Part::Expr(Box::new(t))]),
                Err(e) => Err(e),
            },
            Lexeme::Fixed(Token::LBracket) => if at(toks, pos + 1) == Lexeme::Fixed(
                Token::RBracket,
            ) {
                Ok((Tree::Array(Seq::empty()), pos + 2))
            } else {
                p_array(n, toks, pos + 1, Seq::empty())
            },
            Lexeme::Fixed(Token::LBrace) => if at(toks, pos + 1) == Lexeme::Fixed(Token::RBrace) {
                Ok((Tree::Object(Seq::empty()), pos + 2))
            } else {
                p_object(n, toks, pos + 1, Seq::empty())
            },
            Lexeme::Fixed(Token::LParen) => closed_by(
                p_expr(n, toks, pos + 1),
                toks,
                Lexeme::Fixed(Token::RParen),
                "`)`"@,
            ),
            Lexeme::Ident(name) => p_name(n, toks, pos, name),
            Lexeme::Fixed(Token::Eof) => Err(
                parse_failure(pos, "unexpected end of expression"@),
            ),
            _ => Err(unexpected(toks, pos)),
        }
    }
}

/// The expression of an interpolation.
pub open spec fn p_interp(n: nat, source: Seq<char>) -> Result<Tree, Failure>
    decreases 2 * n, 0int, 0nat,
{
    if source.len() < n {
        parse_tree(source)
    } else {
        Err(parse_failure(0, "unexpected end of expression"@))
    }
}

/// The segments of a string.
pub open spec fn p_string(n: nat, toks: Seq<Lexeme>, pos: int, parts: Seq<Part>) -> Parsed
    decreases 2 * n, toks.len() - pos, 1nat,
{
    if 0 <= pos < toks.len() {
        match toks[pos] {
            Lexeme::Str(s) => p_string(n, toks, pos + 1, parts.push(Part::Literal(s))),
            Lexeme::Interp(source) => match p_interp(n, source) {
                Ok(t) => p_string(n, toks, pos + 1, parts.push(Part::Expr(Box::new(t)))),
                Err(e) => Err(e),
            },
            _ => Ok((Tree::Str(parts), pos)),
        }
    } else {
        Ok((Tree::Str(parts), pos))
    }
}

/// The elements of an array constructor and the closing bracket.
pub open spec fn p_array(n: nat, toks: Seq<Lexeme>, pos: int, items: Seq<Tree>) -> Parsed
    decreases 2 * n, toks.len() - pos, 11nat,
{
    match p_chain(n, toks, pos, 6) {
        Ok((t, p)) => if at(toks, p) == Lexeme::Fixed(Token::Comma) && pos < p && p < toks.len() {
            p_array(n, toks, p + 1, spliced(items, t))
        } else {
            closed_by(
                Ok((Tree::Array(spliced(items, t)), p)),
                toks,
                Lexeme::Fixed(Token::RBracket),
                "`]`"@,
            )
        },
        Err(e) => Err(e),
    }
}

/// What a key of an object constructor gives.
pub type ParsedKey = Result<(Key, int), Failure>;

/// A key of an object constructor.
pub open spec fn p_key(n: nat, toks: Seq<Lexeme>, pos: int) -> ParsedKey
    decreases 2 * n, toks.len() - pos, 0nat,
{
    match at(toks, pos) {
        Lexeme::Ident(s) => Ok((Key::Ident(s), pos + 1)),
        Lexeme::Str(s) => Ok((Key::Str(s), pos + 1)),
        Lexeme::Variable(s) => Ok((Key::Ident(s), pos + 1)),
        Lexeme::Fixed(Token::LParen) => match closed_by(
            p_chain(n, toks, pos + 1, 6),
            toks,
            Lexeme::Fixed(Token::RParen),
            "`)`"@,
        ) {
            Ok((t, p)) => Ok((Key::Computed(Box::new(t)), p)),
            Err(e) => Err(e),
        },
        _ => Err(
            parse_failure(
                pos,
                "expected object key, found `"@ + description(at(toks, pos)) + "`"@,
            ),
        ),
    }
}

/// The entries of an object constructor and the closing brace.
pub open spec fn p_object(
    n: nat,
    toks: Seq<Lexeme>,
    pos: int,
    entries: Seq<(Key, Tree)>,
) -> Parsed
    decreases 2 * n, toks.len() - pos, 11nat,
{
    match p_key(n, toks, pos) {
        Ok((key, p)) => if at(toks, p) != Lexeme::Fixed(Token::Colon) {
            Err(expected("`:`"@, toks, p))
        } else if pos < p && p < toks.len() {
            match p_chain(n, toks, p + 1, 6) {
                Ok((t, q)) => if at(toks, q) == Lexeme::Fixed(Token::Comma) && p < q && q
                    < toks.len() {
                    p_object(n, toks, q + 1, entries.push((key, t)))
                } else {
                    closed_by(
                        Ok((Tree::Object(entries.push((key, t))), q)),
                        toks,
                        Lexeme::Fixed(Token::RBrace),
                        "`}`"@,
                    )
                },
                Err(e) => Err(e),
            }
        } else {
            Ok((Tree::Identity, p))
        },
        Err(e) => Err(e),
    }
}

/// A word: a literal, a conditional, or a call. A call without parentheses names a
/// function of the language.
pub open spec fn p_name(n: nat, toks: Seq<Lexeme>, pos: int, name: Seq<char>) -> Parsed
    decreases 2 * n, toks.len() - pos, 1nat,
{
    if name == "true"@ {
        Ok((Tree::Literal(Json::Bool(true)), pos + 1))
    } else if name == "false"@ {
        Ok((Tree::Literal(Json::Bool(false)), pos + 1))
    } else if name == "null"@ {
        Ok((Tree::Literal(Json::Null), pos + 1))
    } else if pos < 0 || pos >= toks.len() {
        Err(parse_failure(pos, "unexpected end of expression"@))
    } else if name == "if"@ {
        p_if(n, toks, pos)
    } else if at(toks, pos + 1) != Lexeme::Fixed(Token::LParen) {
        if is_function(name) {
            Ok((Tree::Call(name, Seq::empty()), pos + 1))
        } else {
            Err(parse_failure(pos, "unknown identifier `"@ + name + "`"@))
        }
    } else if at(toks, pos + 2) == Lexeme::Fixed(Token::RParen) {
        Ok((Tree::Call(name, Seq::empty()), pos + 3))
    } else {
        p_args(n, toks, pos + 2, name, Seq::empty())
    }
}

/// The arguments of a call and the closing parenthesis. Commas and semicolons
/// separate arguments.
pub open spec fn p_args(
    n: nat,
    toks: Seq<Lexeme>,
    pos: int,
    name: Seq<char>,
    args: Seq<Tree>,
) -> Parsed
    decreases 2 * n, toks.len() - pos, 11nat,
{
    match p_chain(n, toks, pos, 6) {
        Ok((t, p)) => if (at(toks, p) == Lexeme::Fixed(Token::Comma) || at(toks, p)
            == Lexeme::Fixed(Token::Semicolon)) && pos < p && p < toks.len() {
            p_args(n, toks, p + 1, name, args.push(t))
        } else {
            closed_by(
                Ok((Tree::Call(name, args.push(t)), p)),
                toks,
                Lexeme::Fixed(Token::RParen),
                "`)`"@,
            )
        },
        Err(e) => Err(e),
    }
}

/// A comma expression that a keyword introduces at a position.
pub open spec fn p_after(n: nat, toks: Seq<Lexeme>, pos: int, word: Seq<char>) -> Parsed
    decreases 2 * n, toks.len() - pos, 0nat,
{
    if 0 <= pos < toks.len() && is_keyword(toks[pos], word) {
        p_expr(n, toks, pos + 1)
    } else {
        Err(expected("`"@ + word + "`"@, toks, pos))
    }
}

/// What a condition with its branch gives.
pub type ParsedBranch = Result<(Tree, Tree, int), Failure>;

/// A condition, the word `then` and the branch behind it.
pub open spec fn p_branch(n: nat, toks: Seq<Lexeme>, pos: int) -> ParsedBranch
    decreases 2 * n, toks.len() - pos, 13nat,
{
    match p_expr(n, toks, pos) {
        Err(e) => Err(e),
        Ok((c, p)) => if pos < p <= toks.len() {
            match p_after(n, toks, p, "then"@) {
                Err(e) => Err(e),
                Ok((t, q)) => Ok((c, t, q)),
            }
        } else {
            Ok((c, c, p))
        },
    }
}

/// A conditional with its last branch and the closing word.
pub open spec fn if_closed(toks: Seq<Lexeme>, c: Tree, t: Tree, last: Parsed) -> Parsed {
    match last {
        Err(e) => Err(e),
        Ok((f, p)) => closed_by(
            Ok((Tree::If(Box::new(c), Box::new(t), Box::new(f)), p)),
            toks,
            Lexeme::Ident("end"@),
            "`"@ + "end"@ + "`"@,
        ),
    }
}

/// A conditional: `if` with a condition and a branch, at most one `elif` with
/// another, and an optional `else`.
pub open spec fn p_if(n: nat, toks: Seq<Lexeme>, pos: int) -> Parsed
    decreases 2 * n, toks.len() - pos, 0nat,
{
    if pos < 0 || pos >= toks.len() {
        Err(parse_failure(pos, "unexpected end of expression"@))
    } else {
        match p_branch(n, toks, pos + 1) {
            Err(e) => Err(e),
            Ok((c, t, q)) => if pos < q <= toks.len() {
                if_closed(toks, c, t, p_tail(n, toks, q))
            } else {
                Ok((c, q))
            },
        }
    }
}

/// What follows the first branch of a conditional.
pub open spec fn p_tail(n: nat, toks: Seq<Lexeme>, pos: int) -> Parsed
    decreases 2 * n, toks.len() - pos, 14nat,
{
    if 0 <= pos < toks.len() && is_keyword(toks[pos], "elif"@) {
        match p_branch(n, toks, pos + 1) {
            Err(e) => Err(e),
            Ok((c, t, q)) => if pos < q <= toks.len() {
                match p_else(n, toks, q) {
                    Err(e) => Err(e),
                    Ok((f, p)) => Ok((Tree::If(Box::new(c), Box::new(t), Box::new(f)), p)),
                }
            } else {
                Ok((c, q))
            },
        }
    } else {
        p_else(n, toks, pos)
    }
}

/// The last branch of a conditional; without `else` it is null.
pub open spec fn p_else(n: nat, toks: Seq<Lexeme>, pos: int) -> Parsed
    decreases 2 * n, toks.len() - pos, 13nat,
{
    if 0 <= pos < toks.len() && is_keyword(toks[pos], "else"@) {
        p_expr(n, toks, pos + 1)
    } else if is_keyword(at(toks, pos), "elif"@) {
        p_expr(n, toks, pos)
    } else {
        Ok((Tree::Literal(Json::Null), pos))
    }
}

/// The tree of a source text: one comma expression and nothing behind it.
#[verifier::opaque]
pub open spec fn parse_tree(source: Seq<char>) -> Result<Tree, Failure>
    decreases 2 * source.len() + 1, 0int, 0nat,
{
    match tokens_of(source) {
        Err(e) => Err(e),
        Ok(toks) => match p_expr(source.len(), toks, 0) {
            Err(e) => Err(e),
            Ok((t, p)) => if at(toks, p) == Lexeme::Fixed(Token::Eof) {
                Ok(t)
            } else {
                Err(unexpected(toks, p))
            },
        },
    }
}

// ---------------------------------------------------------------------------
// Progress
// ---------------------------------------------------------------------------

/// Whether a token sequence ends with the end token.
pub open spec fn is_ended(toks: Seq<Lexeme>) -> bool {
    toks.len() > 0 && toks.last() == Lexeme::Fixed(Token::Eof)
}

/// Whether the sources of all interpolations are shorter than `n`.
pub open spec fn is_bounded(toks: Seq<Lexeme>, n: nat) -> bool {
    forall|i: int|
        0 <= i < toks.len() ==> (#[trigger] toks[i] matches Lexeme::Interp(src) ==> src.len() < n)
}

/// The lexer gives a sequence that ends with the end token, with interpolations
/// shorter than the source.
proof fn lemma_tokens_from(s: Seq<char>, pos: int)
    requires
        0 <= pos <= s.len(),
    ensures
        match tokens_from(s, pos) {
            Ok(toks) => is_ended(toks) && is_bounded(toks, s.len()),
            Err(_) => true,
        },
    decreases s.len() - pos,
{
    lemma_next_batch(s, pos);
    match next_batch(s, pos) {
        Ok((batch, next)) => if batch[0] != Lexeme::Fixed(Token::Eof) {
            lemma_tokens_from(s, next);
            match tokens_from(s, next) {
                Ok(rest) => {
                    let toks = batch + rest;
                    assert(toks.last() == rest.last());
                    assert forall|i: int| 0 <= i < toks.len() implies (
                    #[trigger] toks[i] matches Lexeme::Interp(src) ==> src.len() < s.len()) by {
                        if i < batch.len() {
                            assert(toks[i] == batch[i]);
                        } else {
                            assert(toks[i] == rest[i - batch.len()]);
                        }
                    }
                },
                Err(_) => {},
            }
        },
        Err(_) => {},
    }
}

/// Whether a production, if it succeeds, ends before the end token and at or
/// behind a position.
pub open spec fn ends_from(r: Parsed, toks: Seq<Lexeme>, pos: int) -> bool {
    match r {
        Ok((_, p)) => pos <= p < toks.len(),
        Err(_) => true,
    }
}

proof fn lemma_expr_ends(n: nat, toks: Seq<Lexeme>, pos: int)
    requires
        is_ended(toks),
        0 <= pos < toks.len(),
    ensures
        ends_from(p_expr(n, toks, pos), toks, pos + 1),
    decreases 2 * n, toks.len() - pos, 12nat,
{
    lemma_chain_ends(n, toks, pos, 6);
    match p_chain(n, toks, pos, 6) {
        Ok((t, p)) => lemma_expr_rest_ends(n, toks, p, seq![t]),
        Err(_) => {},
    }
}

proof fn lemma_expr_rest_ends(n: nat, toks: Seq<Lexeme>, pos: int, parts: Seq<Tree>)
    requires
        is_ended(toks),
        0 <= pos < toks.len(),
    ensures
        ends_from(p_expr_rest(n, toks, pos, parts), toks, pos),
    decreases 2 * n, toks.len() - pos, 11nat,
{
    if at(toks, pos) == Lexeme::Fixed(Token::Comma) {
        lemma_chain_ends(n, toks, pos + 1, 6);
        match p_chain(n, toks, pos + 1, 6) {
            Ok((t, p)) => lemma_expr_rest_ends(n, toks, p, parts.push(t)),
            Err(_) => {},
        }
    }
}

proof fn lemma_chain_ends(n: nat, toks: Seq<Lexeme>, pos: int, level: nat)
    requires
        is_ended(toks),
        0 <= pos < toks.len(),
    ensures
        ends_from(p_chain(n, toks, pos, level), toks, pos + 1),
    decreases 2 * n, toks.len() - pos, 4 + level,
{
    if level == 0 {
        lemma_unary_ends(n, toks, pos);
    } else {
        lemma_chain_ends(n, toks, pos, (level - 1) as nat);
        match p_chain(n, toks, pos, (level - 1) as nat) {
            Ok((t, p)) => lemma_chain_rest_ends(n, toks, p, level, t),
            Err(_) => {},
        }
    }
}

proof fn lemma_chain_rest_ends(n: nat, toks: Seq<Lexeme>, pos: int, level: nat, left: Tree)
    requires
        is_ended(toks),
        0 <= pos < toks.len(),
    ensures
        ends_from(p_chain_rest(n, toks, pos, level, left), toks, pos),
    decreases 2 * n, toks.len() - pos, 4 + level,
{
    if 0 < level && joint(level, toks[pos]) is Some {
        lemma_chain_ends(n, toks, pos + 1, (level - 1) as nat);
        match p_chain(n, toks, pos + 1, (level - 1) as nat) {
            Ok((right, p)) => lemma_chain_rest_ends(
                n,
                toks,
                p,
                level,
                joined_trees(joint(level, toks[pos]).unwrap(), left, right),
            ),
            Err(_) => {},
        }
    }
}

proof fn lemma_unary_ends(n: nat, toks: Seq<Lexeme>, pos: int)
    requires
        is_ended(toks),
        0 <= pos < toks.len(),
    ensures
        ends_from(p_unary(n, toks, pos), toks, pos + 1),
    decreases 2 * n, toks.len() - pos, 3nat,
{
    if is_keyword(at(toks, pos), "not"@) || at(toks, pos) == Lexeme::Fixed(Token::Minus) {
        lemma_unary_ends(n, toks, pos + 1);
    } else {
        lemma_base_ends(n, toks, pos);
        match p_base(n, toks, pos) {
            Ok((t, p)) => lemma_postfix_ends(n, toks, p, t),
            Err(_) => {},
        }
    }
}

proof fn lemma_index_ends(n: nat, toks: Seq<Lexeme>, pos: int, base: Tree)
    requires
        is_ended(toks),
        0 <= pos < toks.len() - 1,
    ensures
        ends_from(p_index(n, toks, pos, base), toks, pos + 1),
    decreases 2 * n, toks.len() - pos, 0nat,
{
    if at(toks, pos + 1) != Lexeme::Fixed(Token::RBracket) {
        lemma_expr_ends(n, toks, pos + 1);
    }
}

proof fn lemma_postfix_ends(n: nat, toks: Seq<Lexeme>, pos: int, base: Tree)
    requires
        is_ended(toks),
        0 <= pos < toks.len(),
    ensures
        ends_from(p_postfix(n, toks, pos, base), toks, pos),
    decreases 2 * n, toks.len() - pos, 1nat,
{
    if at(toks, pos) == Lexeme::Fixed(Token::Dot) {
        match field_name(at(toks, pos + 1)) {
            Some(name) => lemma_postfix_ends(n, toks, pos + 2, Tree::Field(Box::new(base), name)),
            None => {},
        }
    } else if at(toks, pos) == Lexeme::Fixed(Token::LBracket) {
        lemma_index_ends(n, toks, pos, base);
        match p_index(n, toks, pos, base) {
            Ok((t, p)) => lemma_postfix_ends(n, toks, p, t),
            Err(_) => {},
        }
    }
}

proof fn lemma_base_ends(n: nat, toks: Seq<Lexeme>, pos: int)
    requires
        is_ended(toks),
        0 <= pos < toks.len(),
    ensures
        ends_from(p_base(n, toks, pos), toks, pos + 1),
    decreases 2 * n, toks.len() - pos, 2nat,
{
    match toks[pos] {
        Lexeme::Str(s) => lemma_string_ends(n, toks, pos + 1, seq![Part::Literal(s)]),
        Lexeme::Interp(source) => match p_interp(n, source) {
            Ok(t) => lemma_string_ends(n, toks, pos + 1, seq![Part::Expr(Box::new(t))]),
            Err(_) => {},
        },
        Lexeme::Fixed(Token::LBracket) => if at(toks, pos + 1) != Lexeme::Fixed(Token::RBracket) {
            lemma_array_ends(n, toks, pos + 1, Seq::empty());
        },
        Lexeme::Fixed(Token::LBrace) => if at(toks, pos + 1) != Lexeme::Fixed(Token::RBrace) {
            lemma_object_ends(n, toks, pos + 1, Seq::empty());
        },
        Lexeme::Fixed(Token::LParen) => lemma_expr_ends(n, toks, pos + 1),
        Lexeme::Ident(name) => lemma_name_ends(n, toks, pos, name),
        _ => {},
    }
}

proof fn lemma_string_ends(n: nat, toks: Seq<Lexeme>, pos: int, parts: Seq<Part>)
    requires
        is_ended(toks),
        0 <= pos < toks.len(),
    ensures
        ends_from(p_string(n, toks, pos, parts), toks, pos),
    decreases 2 * n, toks.len() - pos, 1nat,
{
    match toks[pos] {
        Lexeme::Str(s) => lemma_string_ends(n, toks, pos + 1, parts.push(Part::Literal(s))),
        Lexeme::Interp(source) => match p_interp(n, source) {
            Ok(t) => lemma_string_ends(n, toks, pos + 1, parts.push(Part::Expr(Box::new(t)))),
            Err(_) => {},
        },
        _ => {},
    }
}

proof fn lemma_array_ends(n: nat, toks: Seq<Lexeme>, pos: int, items: Seq<Tree>)
    requires
        is_ended(toks),
        0 <= pos < toks.len(),
    ensures
        ends_from(p_array(n, toks, pos, items), toks, pos + 1),
    decreases 2 * n, toks.len() - pos, 11nat,
{
    lemma_chain_ends(n, toks, pos, 6);
    match p_chain(n, toks, pos, 6) {
        Ok((t, p)) => if at(toks, p) == Lexeme::Fixed(Token::Comma) {
            lemma_array_ends(n, toks, p + 1, spliced(items, t));
        },
        Err(_) => {},
    }
}

proof fn lemma_key_ends(n: nat, toks: Seq<Lexeme>, pos: int)
    requires
        is_ended(toks),
        0 <= pos < toks.len(),
    ensures
        match p_key(n, toks, pos) {
            Ok((_, p)) => pos < p < toks.len(),
            Err(_) => true,
        },
    decreases 2 * n, toks.len() - pos, 0nat,
{
    if at(toks, pos) == Lexeme::Fixed(Token::LParen) {
        lemma_chain_ends(n, toks, pos + 1, 6);
    }
}

proof fn lemma_object_ends(n: nat, toks: Seq<Lexeme>, pos: int, entries: Seq<(Key, Tree)>)
    requires
        is_ended(toks),
        0 <= pos < toks.len(),
    ensures
        ends_from(p_object(n, toks, pos, entries), toks, pos + 1),
    decreases 2 * n, toks.len() - pos, 11nat,
{
    lemma_key_ends(n, toks, pos);
    match p_key(n, toks, pos) {
        Ok((key, p)) => if at(toks, p) == Lexeme::Fixed(Token::Colon) {
            lemma_chain_ends(n, toks, p + 1, 6);
            match p_chain(n, toks, p + 1, 6) {
                Ok((t, q)) => if at(toks, q) == Lexeme::Fixed(Token::Comma) {
                    lemma_object_ends(n, toks, q + 1, entries.push((key, t)));
                },
                Err(_) => {},
            }
        },
        Err(_) => {},
    }
}

proof fn lemma_name_ends(n: nat, toks: Seq<Lexeme>, pos: int, name: Seq<char>)
    requires
        is_ended(toks),
        0 <= pos < toks.len(),
        toks[pos] != Lexeme::Fixed(Token::Eof),
    ensures
        ends_from(p_name(n, toks, pos, name), toks, pos + 1),
    decreases 2 * n, toks.len() - pos, 1nat,
{
    if name == "true"@ || name == "false"@ || name == "null"@ {
    } else if name == "if"@ {
        lemma_if_ends(n, toks, pos);
    } else if at(toks, pos + 1) != Lexeme::Fixed(Token::LParen) {
    } else if at(toks, pos + 2) != Lexeme::Fixed(Token::RParen) {
        lemma_args_ends(n, toks, pos + 2, name, Seq::empty());
    }
}

proof fn lemma_args_ends(n: nat, toks: Seq<Lexeme>, pos: int, name: Seq<char>, args: Seq<Tree>)
    requires
        is_ended(toks),
        0 <= pos < toks.len(),
    ensures
        ends_from(p_args(n, toks, pos, name, args), toks, pos + 1),
    decreases 2 * n, toks.len() - pos, 11nat,
{
    lemma_chain_ends(n, toks, pos, 6);
    match p_chain(n, toks, pos, 6) {
        Ok((t, p)) => if at(toks, p) == Lexeme::Fixed(Token::Comma) || at(toks, p)
            == Lexeme::Fixed(Token::Semicolon) {
            lemma_args_ends(n, toks, p + 1, name, args.push(t));
        },
        Err(_) => {},
    }
}

proof fn lemma_branch_ends(n: nat, toks: Seq<Lexeme>, pos: int)
    requires
        is_ended(toks),
        0 <= pos < toks.len(),
    ensures
        match p_branch(n, toks, pos) {
            Ok((_, _, q)) => pos < q < toks.len(),
            Err(_) => true,
        },
    decreases 2 * n, toks.len() - pos, 13nat,
{
    lemma_expr_ends(n, toks, pos);
    match p_expr(n, toks, pos) {
        Ok((_, p)) => if is_keyword(toks[p], "then"@) {
            lemma_expr_ends(n, toks, p + 1);
        },
        Err(_) => {},
    }
}

proof fn lemma_else_ends(n: nat, toks: Seq<Lexeme>, pos: int)
    requires
        is_ended(toks),
        0 <= pos < toks.len(),
    ensures
        ends_from(p_else(n, toks, pos), toks, pos),
    decreases 2 * n, toks.len() - pos, 13nat,
{
    if is_keyword(toks[pos], "else"@) {
        lemma_expr_ends(n, toks, pos + 1);
    } else if is_keyword(at(toks, pos), "elif"@) {
        lemma_expr_ends(n, toks, pos);
    }
}

proof fn lemma_tail_ends(n: nat, toks: Seq<Lexeme>, pos: int)
    requires
        is_ended(toks),
        0 <= pos < toks.len(),
    ensures
        ends_from(p_tail(n, toks, pos), toks, pos),
    decreases 2 * n, toks.len() - pos, 14nat,
{
    if is_keyword(toks[pos], "elif"@) {
        lemma_branch_ends(n, toks, pos + 1);
        match p_branch(n, toks, pos + 1) {
            Ok((_, _, q)) => lemma_else_ends(n, toks, q),
            Err(_) => {},
        }
    } else {
        lemma_else_ends(n, toks, pos);
    }
}

/// A closed conditional ends behind its last branch.
proof fn lemma_if_closed(toks: Seq<Lexeme>, c: Tree, t: Tree, last: Parsed, pos: int)
    requires
        is_ended(toks),
        ends_from(last, toks, pos),
    ensures
        ends_from(if_closed(toks, c, t, last), toks, pos),
{
}

/// A conditional whose first branch is known.
proof fn lemma_if_parts(n: nat, toks: Seq<Lexeme>, pos: int, c: Tree, t: Tree, q: int)
    requires
        0 <= pos < q <= toks.len(),
        p_branch(n, toks, pos + 1) == Ok::<(Tree, Tree, int), Failure>((c, t, q)),
    ensures
        p_if(n, toks, pos) == if_closed(toks, c, t, p_tail(n, toks, q)),
{
}

proof fn lemma_if_ends(n: nat, toks: Seq<Lexeme>, pos: int)
    requires
        is_ended(toks),
        0 <= pos < toks.len(),
        toks[pos] != Lexeme::Fixed(Token::Eof),
    ensures
        ends_from(p_if(n, toks, pos), toks, pos + 1),
    decreases 2 * n, toks.len() - pos, 0nat,
{
    lemma_branch_ends(n, toks, pos + 1);
    match p_branch(n, toks, pos + 1) {
        Ok((c, t, q)) => {
            lemma_tail_ends(n, toks, q);
            lemma_if_closed(toks, c, t, p_tail(n, toks, q), q);
            assert(p_if(n, toks, pos) == if_closed(toks, c, t, p_tail(n, toks, q)));
        },
        Err(_) => {},
    }
}

// ---------------------------------------------------------------------------
// The parser
// ---------------------------------------------------------------------------

/// The model of what a production of the parser returns.
pub open spec fn parsed(r: Result<(Expr, usize), ExpressionError>) -> Parsed {
    match r {
        Ok((e, p)) => Ok((e@, p as int)),
        Err(e) => Err(e@),
    }
}

/// The tokens of a source and the bound on the sources inside it.
struct Parser {
    tokens: Vec<Token>,
    bound: Ghost<nat>,
}

/// A joint that the parser has read.
enum Join {
    Pipe,
    Op(BinOp),
}

/// The model of an operator.
spec fn join_model(j: Join) -> Joint {
    match j {
        Join::Pipe => Joint::Pipe,
        Join::Op(op) => Joint::Op(op),
    }
}

/// The operator that a token is at a level.
fn read_join(level: u8, t: &Token) -> (r: Option<Join>)
    requires
        1 <= level <= 6,
    ensures
        match r {
            Some(j) => joint(level as nat, t@) == Some(join_model(j)),
            None => joint(level as nat, t@) is None,
        },
{
    match level {
        6 => match t {
            Token::Pipe => Some(Join::Pipe),
            _ => None,
        },
        5 => if word_is(t, "or") {
            Some(Join::Op(BinOp::Or))
        } else {
            None
        },
        4 => if word_is(t, "and") {
            Some(Join::Op(BinOp::And))
        } else {
            None
        },
        3 => match t {
            Token::EqEq => Some(Join::Op(BinOp::Eq)),
            Token::Ne => Some(Join::Op(BinOp::Ne)),
            Token::Lt => Some(Join::Op(BinOp::Lt)),
            Token::Le => Some(Join::Op(BinOp::Le)),
            Token::Gt => Some(Join::Op(BinOp::Gt)),
            Token::Ge => Some(Join::Op(BinOp::Ge)),
            _ => None,
        },
        2 => match t {
            Token::Plus => Some(Join::Op(BinOp::Add)),
            Token::Minus => Some(Join::Op(BinOp::Sub)),
            Token::Alternative => Some(Join::Op(BinOp::Alternative)),
            _ => None,
        },
        _ => match t {
            Token::Star => Some(Join::Op(BinOp::Mul)),
            Token::Slash => Some(Join::Op(BinOp::Div)),
            Token::Percent => Some(Join::Op(BinOp::Mod)),
            _ => None,
        },
    }
}

/// Whether a token is a given word.
fn word_is(t: &Token, word: &str) -> (r: bool)
    ensures
        r == is_keyword(t@, word@),
{
    match t {
        Token::Ident(i) => text_eq(i.as_str(), word),
        _ => false,
    }
}

/// The name that a token gives to a field.
fn name_of(t: &Token) -> (r: Option<String>)
    ensures
        opt_view(r) == field_name(t@),
{
    match t {
        Token::Ident(s) => Some(s.clone()),
        Token::Str(s) => Some(s.clone()),
        _ => None,
    }
}

impl Parser {
    /// The models of the tokens.
    spec fn toks(self) -> Seq<Lexeme> {
        lexemes(self.tokens@)
    }

    /// Whether the position is inside tokens that end with the end token.
    spec fn wf(self) -> bool {
        is_ended(self.toks()) && is_bounded(self.toks(), self.bound@)
    }

    /// The failure where a token was expected and another stands.
    fn expected(&self, pos: usize, what: &str) -> (r: ExpressionError)
        requires
            pos < self.tokens.len(),
        ensures
            r@ == expected(what@, self.toks(), pos as int),
    {
        let found = self.tokens[pos].describe();
        let message = concat5("expected ", what, ", found `", found.as_str(), "`");
        ExpressionError::Parse { pos, message }
    }

    /// The failure where a token cannot stand.
    fn unexpected(&self, pos: usize) -> (r: ExpressionError)
        requires
            pos < self.tokens.len(),
        ensures
            r@ == unexpected(self.toks(), pos as int),
    {
        let found = self.tokens[pos].describe();
        let message = concat3("unexpected `", found.as_str(), "`");
        ExpressionError::Parse { pos, message }
    }

    /// A comma expression.
    fn parse_expr(&self, pos: usize) -> (r: Result<(Expr, usize), ExpressionError>)
        requires
            self.wf(),
            pos < self.tokens.len(),
        ensures
            parsed(r) == p_expr(self.bound@, self.toks(), pos as int),
            ends_from(parsed(r), self.toks(), pos + 1),
        decreases 2 * self.bound@, self.tokens.len() - pos, 12nat,
    {
        let ghost (n, toks) = (self.bound@, self.toks());
        proof {
            lemma_expr_ends(n, toks, pos as int);
        }
        let (first, start) = match self.parse_chain(pos, 6) {
            Ok(found) => found,
            Err(e) => {
                return Err(e);
            },
        };
        let mut p: usize = start;
        let mut parts: Vec<Expr> = Vec::new();
        let ghost first_tree = first@;
        parts.push(first);
        assert(trees(parts@) =~= seq![first_tree]);
        loop
            invariant
                self.wf(),
                n == self.bound@,
                toks == self.toks(),
                pos < p < self.tokens.len(),
                parts.len() > 0,
                p_expr_rest(n, toks, p as int, trees(parts@)) == p_expr(n, toks, pos as int),
                ends_from(p_expr(n, toks, pos as int), toks, pos + 1),
            decreases self.tokens.len() - p,
        {
            match &self.tokens[p] {
                Token::Comma => {
                    let (next, q) = match self.parse_chain(p + 1, 6) {
                        Ok(found) => found,
                        Err(e) => {
                            return Err(e);
                        },
                    };
                    let ghost before = trees(parts@);
                    parts.push(next);
                    assert(trees(parts@) =~= before.push(next@));
                    p = q;
                },
                _ => {
                    if parts.len() == 1 {
                        let ghost all = trees(parts@);
                        let only = parts.remove(0);
                        assert(only@ == all[0]);
                        return Ok((only, p));
                    }
                    return Ok((Expr::Stream(parts), p));
                },
            }
        }
    }

    /// The operators of a level.
    fn parse_chain(&self, pos: usize, level: u8) -> (r: Result<(Expr, usize), ExpressionError>)
        requires
            self.wf(),
            pos < self.tokens.len(),
            level <= 6,
        ensures
            parsed(r) == p_chain(self.bound@, self.toks(), pos as int, level as nat),
            ends_from(parsed(r), self.toks(), pos + 1),
        decreases 2 * self.bound@, self.tokens.len() - pos, 4 + level as nat,
    {
        let ghost (n, toks) = (self.bound@, self.toks());
        if level == 0 {
            return self.parse_unary(pos);
        }
        proof {
            lemma_chain_ends(n, toks, pos as int, level as nat);
        }
        let (first, start) = match self.parse_chain(pos, level - 1) {
            Ok(found) => found,
            Err(e) => {
                return Err(e);
            },
        };
        let mut left = first;
        let mut p: usize = start;
        loop
            invariant
                self.wf(),
                n == self.bound@,
                toks == self.toks(),
                1 <= level <= 6,
                pos < p < self.tokens.len(),
                p_chain_rest(n, toks, p as int, level as nat, left@) == p_chain(
                    n,
                    toks,
                    pos as int,
                    level as nat,
                ),
                ends_from(p_chain(n, toks, pos as int, level as nat), toks, pos + 1),
            decreases self.tokens.len() - p,
        {
            assert(toks[p as int] == self.tokens@[p as int]@);
            match read_join(level, &self.tokens[p]) {
                None => {
                    return Ok((left, p));
                },
                Some(j) => {
                    let (right, q) = match self.parse_chain(p + 1, level - 1) {
                        Ok(found) => found,
                        Err(e) => {
                            return Err(e);
                        },
                    };
                    left = match j {
                        Join::Pipe => Expr::Pipe(Box::new(left), Box::new(right)),
                        Join::Op(op) => Expr::Binary(op, Box::new(left), Box::new(right)),
                    };
                    p = q;
                },
            }
        }
    }

    /// A unary or postfix expression.
    fn parse_unary(&self, pos: usize) -> (r: Result<(Expr, usize), ExpressionError>)
        requires
            self.wf(),
            pos < self.tokens.len(),
        ensures
            parsed(r) == p_unary(self.bound@, self.toks(), pos as int),
            ends_from(parsed(r), self.toks(), pos + 1),
        decreases 2 * self.bound@, self.tokens.len() - pos, 3nat,
    {
        let ghost (n, toks) = (self.bound@, self.toks());
        proof {
            lemma_unary_ends(n, toks, pos as int);
            assert(toks[pos as int] == self.tokens@[pos as int]@);
        }
        if word_is(&self.tokens[pos], "not") {
            return match self.parse_unary(pos + 1) {
                Ok((inner, p)) => Ok((Expr::Unary(UnaryOp::Not, Box::new(inner)), p)),
                Err(e) => Err(e),
            };
        }
        match &self.tokens[pos] {
            Token::Minus => match self.parse_unary(pos + 1) {
                Ok((inner, p)) => Ok((Expr::Unary(UnaryOp::Negate, Box::new(inner)), p)),
                Err(e) => Err(e),
            },
            _ => match self.parse_base(pos) {
                Ok((base, p)) => self.parse_postfix(p, base),
                Err(e) => Err(e),
            },
        }
    }

    /// An index in brackets.
    fn parse_index(&self, pos: usize, base: Expr) -> (r: Result<(Expr, usize), ExpressionError>)
        requires
            self.wf(),
            pos < self.tokens.len() - 1,
        ensures
            parsed(r) == p_index(self.bound@, self.toks(), pos as int, base@),
            ends_from(parsed(r), self.toks(), pos + 1),
        decreases 2 * self.bound@, self.tokens.len() - pos, 0nat,
    {
        let ghost (n, toks) = (self.bound@, self.toks());
        proof {
            lemma_index_ends(n, toks, pos as int, base@);
            assert(toks[pos + 1] == self.tokens@[pos + 1]@);
        }
        match &self.tokens[pos + 1] {
            Token::RBracket => Ok((Expr::Iterate(Box::new(base)), pos + 2)),
            _ => match self.parse_expr(pos + 1) {
                Ok((index, p)) => match &self.tokens[p] {
                    Token::RBracket => Ok((Expr::Index(Box::new(base), Box::new(index)), p + 1)),
                    _ => Err(self.expected(p, "`]`")),
                },
                Err(e) => Err(e),
            },
        }
    }

    /// The accesses behind a base.
    fn parse_postfix(&self, pos: usize, base: Expr) -> (r: Result<(Expr, usize), ExpressionError>)
        requires
            self.wf(),
            pos < self.tokens.len(),
        ensures
            parsed(r) == p_postfix(self.bound@, self.toks(), pos as int, base@),
            ends_from(parsed(r), self.toks(), pos as int),
        decreases 2 * self.bound@, self.tokens.len() - pos, 1nat,
    {
        let ghost (n, toks) = (self.bound@, self.toks());
        proof {
            lemma_postfix_ends(n, toks, pos as int, base@);
            assert(toks[pos as int] == self.tokens@[pos as int]@);
        }
        match &self.tokens[pos] {
            Token::Dot => {
                assert(toks[pos + 1] == self.tokens@[pos + 1]@);
                match name_of(&self.tokens[pos + 1]) {
                    Some(name) => {
                        assert(pos + 1 < toks.len() - 1);
                        self.parse_postfix(pos + 2, Expr::Field(Box::new(base), name))
                    },
                    None => Ok((base, pos)),
                }
            },
            Token::LBracket => match self.parse_index(pos, base) {
                Ok((next, p)) => self.parse_postfix(p, next),
                Err(e) => Err(e),
            },
            _ => Ok((base, pos)),
        }
    }

    /// What a leading dot gives.
    fn parse_dot(&self, pos: usize) -> (r: Result<(Expr, usize), ExpressionError>)
        requires
            self.wf(),
            pos < self.tokens.len() - 1,
        ensures
            parsed(r) == p_dot(self.toks(), pos as int),
            ends_from(parsed(r), self.toks(), pos + 1),
    {
        let ghost toks = self.toks();
        assert(toks[pos + 1] == self.tokens@[pos + 1]@);
        match name_of(&self.tokens[pos + 1]) {
            Some(name) => {
                assert(pos + 1 < toks.len() - 1);
                assert(Expr::Identity@ == Tree::Identity);
                Ok((Expr::Field(Box::new(Expr::Identity), name), pos + 2))
            },
            None => Ok((Expr::Identity, pos + 1)),
        }
    }

    /// An expression without operators or accesses behind it.
    #[verifier::rlimit(40)]
    fn parse_base(&self, pos: usize) -> (r: Result<(Expr, usize), ExpressionError>)
        requires
            self.wf(),
            pos < self.tokens.len(),
        ensures
            parsed(r) == p_base(self.bound@, self.toks(), pos as int),
            ends_from(parsed(r), self.toks(), pos + 1),
        decreases 2 * self.bound@, self.tokens.len() - pos, 2nat,
    {
        let ghost (n, toks) = (self.bound@, self.toks());
        proof {
            lemma_base_ends(n, toks, pos as int);
            assert(toks[pos as int] == self.tokens@[pos as int]@);
        }
        match &self.tokens[pos] {
            Token::Dot => self.parse_dot(pos),
            Token::RecursiveDot => Ok((Expr::Identity, pos + 1)),
            Token::Variable(name) => Ok((Expr::Variable(name.clone()), pos + 1)),
            Token::Number(bits) => Ok((Expr::Literal(json_num(*bits)), pos + 1)),
            Token::Str(s) => {
                let mut parts: Vec<InterpPart> = Vec::new();
                let part = InterpPart::Literal(s.clone());
                parts.push(part);
                assert(part_trees(parts@) =~= seq![part@]);
                self.parse_string_parts(pos + 1, parts)
            },
            Token::Interp(source) => {
                assert(toks[pos as int] == Lexeme::Interp(source@));
                match self.parse_interp(source) {
                    Ok(inner) => {
                        let mut parts: Vec<InterpPart> = Vec::new();
                        let part = InterpPart::Expr(Box::new(inner));
                        parts.push(part);
                        assert(part_trees(parts@) =~= seq![part@]);
                        self.parse_string_parts(pos + 1, parts)
                    },
                    Err(e) => Err(e),
                }
            },
            Token::LBracket => {
                assert(toks[pos + 1] == self.tokens@[pos + 1]@);
                match &self.tokens[pos + 1] {
                    Token::RBracket => {
                        let items: Vec<Expr> = Vec::new();
                        assert(trees(items@) =~= Seq::empty());
                        Ok((Expr::Array(items), pos + 2))
                    },
                    _ => self.parse_array(pos + 1),
                }
            },
            Token::LBrace => {
                assert(toks[pos + 1] == self.tokens@[pos + 1]@);
                match &self.tokens[pos + 1] {
                    Token::RBrace => {
                        let entries: Vec<(ObjKey, Expr)> = Vec::new();
                        assert(entry_trees(entries@) =~= Seq::empty());
                        Ok((Expr::Object(entries), pos + 2))
                    },
                    _ => self.parse_object(pos + 1),
                }
            },
            Token::LParen => match self.parse_expr(pos + 1) {
                Ok((inner, p)) => {
                    assert(toks[p as int] == self.tokens@[p as int]@);
                    match &self.tokens[p] {
                        Token::RParen => Ok((inner, p + 1)),
                        _ => Err(self.expected(p, "`)`")),
                    }
                },
                Err(e) => Err(e),
            },
            Token::Ident(name) => self.parse_ident_primary(pos, name),
            Token::Eof => Err(ExpressionError::parse(pos, "unexpected end of expression")),
            _ => Err(self.unexpected(pos)),
        }
    }

    /// The expression of an interpolation.
    fn parse_interp(&self, source: &String) -> (r: Result<Expr, ExpressionError>)
        requires
            source@.len() < self.bound@,
        ensures
            match r {
                Ok(e) => p_interp(self.bound@, source@) == Ok::<_, Failure>(e@),
                Err(e) => p_interp(self.bound@, source@) == Err::<Tree, _>(e@),
            },
        decreases 2 * self.bound@, 0int, 0nat,
    {
        reveal(parse_tree);
        parse(source.as_str())
    }

    /// The segments of a string.
    fn parse_string_parts(&self, pos: usize, first: Vec<InterpPart>) -> (r: Result<
        (Expr, usize),
        ExpressionError,
    >)
        requires
            self.wf(),
            pos < self.tokens.len(),
        ensures
            parsed(r) == p_string(self.bound@, self.toks(), pos as int, part_trees(first@)),
            ends_from(parsed(r), self.toks(), pos as int),
        decreases 2 * self.bound@, self.tokens.len() - pos, 1nat,
    {
        let ghost (n, toks) = (self.bound@, self.toks());
        let ghost given = part_trees(first@);
        proof {
            lemma_string_ends(n, toks, pos as int, given);
        }
        let mut parts: Vec<InterpPart> = first;
        let mut p: usize = pos;
        loop
            invariant
                self.wf(),
                n == self.bound@,
                toks == self.toks(),
                given == part_trees(first@),
                pos <= p < self.tokens.len(),
                p_string(n, toks, p as int, part_trees(parts@)) == p_string(
                    n,
                    toks,
                    pos as int,
                    given,
                ),
                ends_from(p_string(n, toks, pos as int, given), toks, pos as int),
            decreases self.tokens.len() - p,
        {
            let ghost before = part_trees(parts@);
            assert(toks[p as int] == self.tokens@[p as int]@);
            match &self.tokens[p] {
                Token::Str(s) => {
                    let part = InterpPart::Literal(s.clone());
                    parts.push(part);
                    assert(part_trees(parts@) =~= before.push(part@));
                    p = p + 1;
                },
                Token::Interp(source) => {
                    assert(toks[p as int] == Lexeme::Interp(source@));
                    match self.parse_interp(source) {
                        Ok(inner) => {
                            let part = InterpPart::Expr(Box::new(inner));
                            parts.push(part);
                            assert(part_trees(parts@) =~= before.push(part@));
                            p = p + 1;
                        },
                        Err(e) => {
                            return Err(e);
                        },
                    }
                },
                _ => {
                    return Ok((Expr::Str(parts), p));
                },
            }
        }
    }

    /// The elements of an array constructor and the closing bracket.
    fn parse_array(&self, pos: usize) -> (r: Result<(Expr, usize), ExpressionError>)
        requires
            self.wf(),
            pos < self.tokens.len(),
        ensures
            parsed(r) == p_array(self.bound@, self.toks(), pos as int, Seq::empty()),
            ends_from(parsed(r), self.toks(), pos + 1),
        decreases 2 * self.bound@, self.tokens.len() - pos, 11nat,
    {
        let ghost (n, toks) = (self.bound@, self.toks());
        proof {
            lemma_array_ends(n, toks, pos as int, Seq::empty());
        }
        let mut items: Vec<Expr> = Vec::new();
        let mut p: usize = pos;
        assert(trees(items@) =~= Seq::empty());
        loop
            invariant
                self.wf(),
                n == self.bound@,
                toks == self.toks(),
                pos <= p < self.tokens.len(),
                p_array(n, toks, p as int, trees(items@)) == p_array(
                    n,
                    toks,
                    pos as int,
                    Seq::empty(),
                ),
                ends_from(p_array(n, toks, pos as int, Seq::empty()), toks, pos + 1),
            decreases self.tokens.len() - p,
        {
            let (item, q) = match self.parse_chain(p, 6) {
                Ok(found) => found,
                Err(e) => {
                    return Err(e);
                },
            };
            let ghost before = trees(items@);
            let ghost tree = item@;
            match item {
                Expr::Stream(parts) => {
                    let mut more: Vec<Expr> = parts;
                    items.append(&mut more);
                    assert(trees(items@) =~= before + trees(parts@));
                },
                other => {
                    items.push(other);
                    assert(trees(items@) =~= before.push(tree));
                },
            }
            assert(trees(items@) == spliced(before, tree));
            assert(toks[q as int] == self.tokens@[q as int]@);
            match &self.tokens[q] {
                Token::Comma => {
                    p = q + 1;
                },
                Token::RBracket => {
                    return Ok((Expr::Array(items), q + 1));
                },
                _ => {
                    return Err(self.expected(q, "`]`"));
                },
            }
        }
    }

    /// A key of an object constructor.
    fn parse_object_key(&self, pos: usize) -> (r: Result<(ObjKey, usize), ExpressionError>)
        requires
            self.wf(),
            pos < self.tokens.len(),
        ensures
            match r {
                Ok((k, p)) => p_key(self.bound@, self.toks(), pos as int) == Ok::<_, Failure>(
                    (k@, p as int),
                ) && pos < p < self.tokens.len(),
                Err(e) => p_key(self.bound@, self.toks(), pos as int) == Err::<(Key, int), _>(e@),
            },
        decreases 2 * self.bound@, self.tokens.len() - pos, 0nat,
    {
        let ghost (n, toks) = (self.bound@, self.toks());
        proof {
            lemma_key_ends(n, toks, pos as int);
            assert(toks[pos as int] == self.tokens@[pos as int]@);
        }
        match &self.tokens[pos] {
            Token::Ident(s) => Ok((ObjKey::Ident(s.clone()), pos + 1)),
            Token::Str(s) => Ok((ObjKey::Str(s.clone()), pos + 1)),
            Token::Variable(s) => Ok((ObjKey::Ident(s.clone()), pos + 1)),
            Token::LParen => match self.parse_chain(pos + 1, 6) {
                Ok((inner, p)) => {
                    assert(toks[p as int] == self.tokens@[p as int]@);
                    match &self.tokens[p] {
                        Token::RParen => Ok((ObjKey::Computed(Box::new(inner)), p + 1)),
                        _ => Err(self.expected(p, "`)`")),
                    }
                },
                Err(e) => Err(e),
            },
            other => {
                let found = other.describe();
                let message = concat3("expected object key, found `", found.as_str(), "`");
                Err(ExpressionError::Parse { pos, message })
            },
        }
    }

    /// The entries of an object constructor and the closing brace.
    fn parse_object(&self, pos: usize) -> (r: Result<(Expr, usize), ExpressionError>)
        requires
            self.wf(),
            pos < self.tokens.len(),
        ensures
            parsed(r) == p_object(self.bound@, self.toks(), pos as int, Seq::empty()),
            ends_from(parsed(r), self.toks(), pos + 1),
        decreases 2 * self.bound@, self.tokens.len() - pos, 11nat,
    {
        let ghost (n, toks) = (self.bound@, self.toks());
        proof {
            lemma_object_ends(n, toks, pos as int, Seq::empty());
        }
        let mut entries: Vec<(ObjKey, Expr)> = Vec::new();
        let mut p: usize = pos;
        assert(entry_trees(entries@) =~= Seq::empty());
        loop
            invariant
                self.wf(),
                n == self.bound@,
                toks == self.toks(),
                pos <= p < self.tokens.len(),
                p_object(n, toks, p as int, entry_trees(entries@)) == p_object(
                    n,
                    toks,
                    pos as int,
                    Seq::empty(),
                ),
                ends_from(p_object(n, toks, pos as int, Seq::empty()), toks, pos + 1),
            decreases self.tokens.len() - p,
        {
            let (key, q) = match self.parse_object_key(p) {
                Ok(found) => found,
                Err(e) => {
                    return Err(e);
                },
            };
            assert(toks[q as int] == self.tokens@[q as int]@);
            match &self.tokens[q] {
                Token::Colon => {},
                _ => {
                    return Err(self.expected(q, "`:`"));
                },
            }
            let (item, next) = match self.parse_chain(q + 1, 6) {
                Ok(found) => found,
                Err(e) => {
                    return Err(e);
                },
            };
            let ghost before = entry_trees(entries@);
            let ghost entry = (key@, item@);
            entries.push((key, item));
            assert(entry_trees(entries@) =~= before.push(entry));
            assert(toks[next as int] == self.tokens@[next as int]@);
            match &self.tokens[next] {
                Token::Comma => {
                    p = next + 1;
                },
                Token::RBrace => {
                    return Ok((Expr::Object(entries), next + 1));
                },
                _ => {
                    return Err(self.expected(next, "`}`"));
                },
            }
        }
    }

    /// A word: a literal, a conditional, or a call.
    fn parse_ident_primary(&self, pos: usize, name: &String) -> (r: Result<
        (Expr, usize),
        ExpressionError,
    >)
        requires
            self.wf(),
            pos < self.tokens.len(),
            self.toks()[pos as int] != Lexeme::Fixed(Token::Eof),
        ensures
            parsed(r) == p_name(self.bound@, self.toks(), pos as int, name@),
            ends_from(parsed(r), self.toks(), pos + 1),
        decreases 2 * self.bound@, self.tokens.len() - pos, 1nat,
    {
        let ghost (n, toks) = (self.bound@, self.toks());
        proof {
            lemma_name_ends(n, toks, pos as int, name@);
        }
        if text_eq(name.as_str(), "true") {
            return Ok((Expr::Literal(Value::Bool(true)), pos + 1));
        }
        if text_eq(name.as_str(), "false") {
            return Ok((Expr::Literal(Value::Bool(false)), pos + 1));
        }
        if text_eq(name.as_str(), "null") {
            return Ok((Expr::Literal(Value::Null), pos + 1));
        }
        if text_eq(name.as_str(), "if") {
            return self.parse_if(pos);
        }
        assert(toks[pos + 1] == self.tokens@[pos + 1]@);
        match &self.tokens[pos + 1] {
            Token::LParen => {},
            _ => {
                if !known_function(name.as_str()) {
                    let message = concat3("unknown identifier `", name.as_str(), "`");
                    return Err(ExpressionError::Parse { pos, message });
                }
                let args: Vec<Expr> = Vec::new();
                assert(trees(args@) =~= Seq::empty());
                return Ok((Expr::Call(name.clone(), args), pos + 1));
            },
        }
        assert(toks[pos + 2] == self.tokens@[pos + 2]@);
        match &self.tokens[pos + 2] {
            Token::RParen => {
                let args: Vec<Expr> = Vec::new();
                assert(trees(args@) =~= Seq::empty());
                Ok((Expr::Call(name.clone(), args), pos + 3))
            },
            _ => self.parse_args(pos + 2, name),
        }
    }

    /// The arguments of a call and the closing parenthesis.
    fn parse_args(&self, pos: usize, name: &String) -> (r: Result<(Expr, usize), ExpressionError>)
        requires
            self.wf(),
            pos < self.tokens.len(),
        ensures
            parsed(r) == p_args(self.bound@, self.toks(), pos as int, name@, Seq::empty()),
            ends_from(parsed(r), self.toks(), pos + 1),
        decreases 2 * self.bound@, self.tokens.len() - pos, 11nat,
    {
        let ghost (n, toks) = (self.bound@, self.toks());
        proof {
            lemma_args_ends(n, toks, pos as int, name@, Seq::empty());
        }
        let mut args: Vec<Expr> = Vec::new();
        let mut p: usize = pos;
        assert(trees(args@) =~= Seq::empty());
        loop
            invariant
                self.wf(),
                n == self.bound@,
                toks == self.toks(),
                pos <= p < self.tokens.len(),
                p_args(n, toks, p as int, name@, trees(args@)) == p_args(
                    n,
                    toks,
                    pos as int,
                    name@,
                    Seq::empty(),
                ),
                ends_from(p_args(n, toks, pos as int, name@, Seq::empty()), toks, pos + 1),
            decreases self.tokens.len() - p,
        {
            let (arg, q) = match self.parse_chain(p, 6) {
                Ok(found) => found,
                Err(e) => {
                    return Err(e);
                },
            };
            let ghost before = trees(args@);
            let ghost tree = arg@;
            args.push(arg);
            assert(trees(args@) =~= before.push(tree));
            assert(toks[q as int] == self.tokens@[q as int]@);
            match &self.tokens[q] {
                Token::Comma => {
                    p = q + 1;
                },
                Token::Semicolon => {
                    p = q + 1;
                },
                Token::RParen => {
                    return Ok((Expr::Call(name.clone(), args), q + 1));
                },
                _ => {
                    return Err(self.expected(q, "`)`"));
                },
            }
        }
    }

    /// A condition, the word `then` and the branch behind it.
    fn parse_branch(&self, pos: usize) -> (r: Result<(Expr, Expr, usize), ExpressionError>)
        requires
            self.wf(),
            pos < self.tokens.len(),
        ensures
            match r {
                Ok((c, t, q)) => p_branch(self.bound@, self.toks(), pos as int) == Ok::<
                    _,
                    Failure,
                >((c@, t@, q as int)) && pos < q < self.tokens.len(),
                Err(e) => p_branch(self.bound@, self.toks(), pos as int) == Err::<
                    (Tree, Tree, int),
                    _,
                >(e@),
            },
        decreases 2 * self.bound@, self.tokens.len() - pos, 13nat,
    {
        let ghost (n, toks) = (self.bound@, self.toks());
        proof {
            lemma_branch_ends(n, toks, pos as int);
        }
        let (c, p) = match self.parse_expr(pos) {
            Ok(found) => found,
            Err(e) => {
                return Err(e);
            },
        };
        assert(toks[p as int] == self.tokens@[p as int]@);
        if !word_is(&self.tokens[p], "then") {
            return Err(self.expected_word(p, "then"));
        }
        match self.parse_expr(p + 1) {
            Ok((t, q)) => Ok((c, t, q)),
            Err(e) => Err(e),
        }
    }

    /// The failure where a word was expected and another token stands.
    fn expected_word(&self, pos: usize, word: &str) -> (r: ExpressionError)
        requires
            pos < self.tokens.len(),
        ensures
            r@ == expected("`"@ + word@ + "`"@, self.toks(), pos as int),
    {
        let what = concat3("`", word, "`");
        self.expected(pos, what.as_str())
    }

    /// A conditional.
    #[verifier::rlimit(40)]
    fn parse_if(&self, pos: usize) -> (r: Result<(Expr, usize), ExpressionError>)
        requires
            self.wf(),
            pos < self.tokens.len(),
            self.toks()[pos as int] != Lexeme::Fixed(Token::Eof),
        ensures
            parsed(r) == p_if(self.bound@, self.toks(), pos as int),
            ends_from(parsed(r), self.toks(), pos + 1),
        decreases 2 * self.bound@, self.tokens.len() - pos, 0nat,
    {
        let ghost (n, toks) = (self.bound@, self.toks());
        proof {
            lemma_if_ends(n, toks, pos as int);
        }
        let (c, t, q) = match self.parse_branch(pos + 1) {
            Ok(found) => found,
            Err(e) => {
                return Err(e);
            },
        };
        proof {
            lemma_if_parts(n, toks, pos as int, c@, t@, q as int);
        }
        let (last, p) = match self.parse_tail(q) {
            Ok(found) => found,
            Err(e) => {
                return Err(e);
            },
        };
        assert(toks[p as int] == self.tokens@[p as int]@);
        if word_is(&self.tokens[p], "end") {
            Ok((Expr::If(Box::new(c), Box::new(t), Box::new(last)), p + 1))
        } else {
            Err(self.expected_word(p, "end"))
        }
    }

    /// What follows the first branch of a conditional.
    fn parse_tail(&self, pos: usize) -> (r: Result<(Expr, usize), ExpressionError>)
        requires
            self.wf(),
            pos < self.tokens.len(),
        ensures
            parsed(r) == p_tail(self.bound@, self.toks(), pos as int),
            ends_from(parsed(r), self.toks(), pos as int),
        decreases 2 * self.bound@, self.tokens.len() - pos, 14nat,
    {
        let ghost (n, toks) = (self.bound@, self.toks());
        proof {
            lemma_tail_ends(n, toks, pos as int);
            assert(toks[pos as int] == self.tokens@[pos as int]@);
        }
        if word_is(&self.tokens[pos], "elif") {
            let (c, t, q) = match self.parse_branch(pos + 1) {
                Ok(found) => found,
                Err(e) => {
                    return Err(e);
                },
            };
            match self.parse_else_tail(q) {
                Ok((f, p)) => Ok((Expr::If(Box::new(c), Box::new(t), Box::new(f)), p)),
                Err(e) => Err(e),
            }
        } else {
            self.parse_else_tail(pos)
        }
    }

    /// The last branch of a conditional.
    fn parse_else_tail(&self, pos: usize) -> (r: Result<(Expr, usize), ExpressionError>)
        requires
            self.wf(),
            pos < self.tokens.len(),
        ensures
            parsed(r) == p_else(self.bound@, self.toks(), pos as int),
            ends_from(parsed(r), self.toks(), pos as int),
        decreases 2 * self.bound@, self.tokens.len() - pos, 13nat,
    {
        proof {
            assert(self.toks()[pos as int] == self.tokens@[pos as int]@);
        }
        if word_is(&self.tokens[pos], "else") {
            self.parse_expr(pos + 1)
        } else if word_is(&self.tokens[pos], "elif") {
            self.parse_expr(pos)
        } else {
            Ok((Expr::Literal(Value::Null), pos))
        }
    }
}

/// Parses a complete expression from source text.
pub fn parse(source: &str) -> (r: Result<Expr, ExpressionError>)
    ensures
        match r {
            Ok(e) => parse_tree(source@) == Ok::<_, Failure>(e@),
            Err(e) => parse_tree(source@) == Err::<Tree, _>(e@),
        },
    decreases 2 * source@.len() + 1, 0int, 0nat,
{
    reveal(parse_tree);
    let tokens = match Lexer::new(source).tokenize() {
        Ok(tokens) => tokens,
        Err(e) => {
            return Err(e);
        },
    };
    proof {
        lemma_tokens_from(source@, 0);
    }
    let parser = Parser { tokens, bound: Ghost(source@.len()) };
    match parser.parse_expr(0) {
        Ok((e, p)) => {
            assert(parser.toks()[p as int] == parser.tokens@[p as int]@);
            match &parser.tokens[p] {
                Token::Eof => Ok(e),
                _ => Err(parser.unexpected(p)),
            }
        },
        Err(e) => Err(e),
    }
}

} // verus!
