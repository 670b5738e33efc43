//! The expression engine: texts with `${ ... }` blocks.
use crate::context::{CompiledExpression, ExpressionEngine};
use crate::expressions::ast::{Expr, Tree};
use crate::expressions::error::{ExpressionError, Failure, failure_text};
use crate::expressions::eval::{Env, eval_last, eval_single};
use crate::expressions::operators::{Outcome, outcome};
use crate::expressions::parser::{parse, parse_tree};
use crate::json::{Json, Members, Object, Value};
use crate::text::{
    chars_of, contains, occurs, opt_view, run_end, skip_space, space_test, string_of, trim,
    trimmed,
};
use crate::value::{plain_text, to_string};
use vstd::prelude::*;

verus! {

broadcast use crate::json::group_json;

/// A piece of a text with blocks.
#[derive(Debug)]
pub enum Piece {
    /// A literal segment.
    Lit(String),
    /// A `${ ... }` block.
    Expr(Expr),
}

/// A compiled source text.
#[derive(Debug)]
pub enum Prepared {
    /// A single `${ ... }` block.
    Expr(Expr),
    /// A text without blocks.
    Plain(String),
    /// A text with blocks.
    Interp(Vec<Piece>),
}

/// The model of a piece.
pub ghost enum PiecePlan {
    Lit(Seq<char>),
    Expr(Tree),
}

/// The model of a compiled source text.
pub ghost enum Plan {
    Expr(Tree),
    Plain(Seq<char>),
    Interp(Seq<PiecePlan>),
}

impl View for Piece {
    type V = PiecePlan;

    open spec fn view(&self) -> PiecePlan {
        match self {
            Piece::Lit(s) => PiecePlan::Lit(s@),
            Piece::Expr(e) => PiecePlan::Expr(e@),
        }
    }
}

/// The models of a list of pieces.
pub open spec fn piece_plans(pieces: Seq<Piece>) -> Seq<PiecePlan> {
    pieces.map_values(|p: Piece| p@)
}

impl View for Prepared {
    type V = Plan;

    open spec fn view(&self) -> Plan {
        match self {
            Prepared::Expr(e) => Plan::Expr(e@),
            Prepared::Plain(s) => Plan::Plain(s@),
            Prepared::Interp(pieces) => Plan::Interp(piece_plans(pieces@)),
        }
    }
}

// ---------------------------------------------------------------------------
// Blocks
// ---------------------------------------------------------------------------

/// The index of the quotation mark that ends a string literal.
pub open spec fn literal_close(s: Seq<char>, i: int) -> Option<int>
    decreases s.len() + 1 - i,
{
    if i < 0 || i >= s.len() {
        None
    } else if s[i] == '"' {
        Some(i)
    } else if s[i] == '\\' {
        literal_close(s, i + 2)
    } else {
        literal_close(s, i + 1)
    }
}

/// A string literal ends at or behind the index where the search starts.
pub proof fn lemma_literal_close(s: Seq<char>, i: int)
    requires
        0 <= i,
    ensures
        match literal_close(s, i) {
            Some(j) => i <= j < s.len(),
            None => true,
        },
    decreases s.len() + 1 - i,
{
    if i < s.len() && s[i] != '"' {
        if s[i] == '\\' {
            lemma_literal_close(s, i + 2);
        } else {
            lemma_literal_close(s, i + 1);
        }
    }
}

/// The index of the brace that closes `depth` open ones, from a position in a comment
/// or not. Braces inside string literals do not count. A comment runs from `#` to the
/// end of the line, and no literal starts in it.
pub open spec fn close_from(s: Seq<char>, i: int, depth: nat, comment: bool) -> Option<int>
    decreases s.len() - i,
{
    if i < 0 || i >= s.len() {
        None
    } else if s[i] == '{' {
        close_from(s, i + 1, depth + 1, comment)
    } else if s[i] == '}' {
        if depth <= 1 {
            Some(i)
        } else {
            close_from(s, i + 1, (depth - 1) as nat, comment)
        }
    } else if s[i] == '"' && !comment {
        match literal_close(s, i + 1) {
            Some(j) => {
                proof {
                    lemma_literal_close(s, i + 1);
                }
                close_from(s, j + 1, depth, false)
            },
            None => None,
        }
    } else {
        close_from(s, i + 1, depth, s[i] == '#' || (comment && s[i] != '\n'))
    }
}

/// The index of the brace that closes the one at `open`.
pub open spec fn block_close(s: Seq<char>, open: int) -> Option<int> {
    close_from(s, open + 1, 1, false)
}

/// A block ends behind the start of the search.
pub proof fn lemma_close_from(s: Seq<char>, i: int, depth: nat, comment: bool)
    requires
        0 <= i,
    ensures
        match close_from(s, i, depth, comment) {
            Some(j) => i <= j < s.len(),
            None => true,
        },
    decreases s.len() - i,
{
    if i >= s.len() {
    } else if s[i] == '{' {
        lemma_close_from(s, i + 1, depth + 1, comment);
    } else if s[i] == '}' {
        if depth > 1 {
            lemma_close_from(s, i + 1, (depth - 1) as nat, comment);
        }
    } else if s[i] == '"' && !comment {
        lemma_literal_close(s, i + 1);
        match literal_close(s, i + 1) {
            Some(j) => lemma_close_from(s, j + 1, depth, false),
            None => {},
        }
    } else {
        lemma_close_from(s, i + 1, depth, s[i] == '#' || (comment && s[i] != '\n'));
    }
}

/// Whether a block opens at an index.
pub open spec fn opens_block(s: Seq<char>, i: int) -> bool {
    0 <= i && i + 1 < s.len() && s[i] == '$' && s[i + 1] == '{'
}

/// The text inside the block that is all of a text but for white space.
pub open spec fn single_block(s: Seq<char>) -> Option<Seq<char>> {
    let start = run_end(s, 0, space_test());
    if opens_block(s, start) {
        match block_close(s, start + 1) {
            Some(close) => if run_end(s, close + 1, space_test()) == s.len() {
                Some(trimmed(s.subrange(start + 2, close)))
            } else {
                None
            },
            None => None,
        }
    } else {
        None
    }
}

/// What splitting a text into pieces gives.
pub type Pieces = Result<Seq<PiecePlan>, Failure>;

/// A literal piece that is not empty.
pub open spec fn literal_piece(literal: Seq<char>) -> Seq<PiecePlan> {
    if literal.len() == 0 {
        Seq::empty()
    } else {
        seq![PiecePlan::Lit(literal)]
    }
}

/// Pieces before others.
pub open spec fn pieces_before(head: Seq<PiecePlan>, rest: Pieces) -> Pieces {
    match rest {
        Ok(r) => Ok(head + r),
        Err(e) => Err(e),
    }
}

/// The pieces of a text from an index, after part of a literal one.
pub open spec fn pieces_from(s: Seq<char>, i: int, literal: Seq<char>) -> Pieces
    decreases s.len() - i,
{
    if i < 0 || i >= s.len() {
        Ok(literal_piece(literal))
    } else if opens_block(s, i) {
        match block_close(s, i + 1) {
            None => Err(Failure::Parse { pos: i, message: "unterminated `${` block"@ }),
            Some(close) => match parse_tree(trimmed(s.subrange(i + 2, close))) {
                Err(e) => Err(e),
                Ok(t) => {
                    proof {
                        lemma_close_from(s, i + 2, 1, false);
                    }
                    pieces_before(
                        literal_piece(literal).push(PiecePlan::Expr(t)),
                        pieces_from(s, close + 1, Seq::empty()),
                    )
                },
            },
        }
    } else {
        pieces_from(s, i + 1, literal.push(s[i]))
    }
}

/// The pieces of a text. A text without any piece is one empty literal.
pub open spec fn pieces_of(s: Seq<char>) -> Pieces {
    match pieces_from(s, 0, Seq::empty()) {
        Ok(pieces) => Ok(
            if pieces.len() == 0 {
                seq![PiecePlan::Lit(Seq::empty())]
            } else {
                pieces
            },
        ),
        Err(e) => Err(e),
    }
}

/// What compiling a source text gives: one block is an expression, a text with
/// blocks is interpolated, and any other text stands for itself.
pub open spec fn plan_of(source: Seq<char>) -> Result<Plan, Failure> {
    let s = trimmed(source);
    match single_block(s) {
        Some(inner) => match parse_tree(inner) {
            Ok(t) => Ok(Plan::Expr(t)),
            Err(e) => Err(e),
        },
        None => if occurs(s, "${"@) {
            match pieces_of(s) {
                Ok(pieces) => Ok(Plan::Interp(pieces)),
                Err(e) => Err(e),
            }
        } else {
            Ok(Plan::Plain(source))
        },
    }
}

// ---------------------------------------------------------------------------
// Evaluation
// ---------------------------------------------------------------------------

/// The text of pieces, with the text of the last value of each block.
pub open spec fn interpolated(
    pieces: Seq<PiecePlan>,
    input: Json,
    env: Members,
) -> Result<Seq<char>, Failure>
    decreases pieces.len(),
{
    if pieces.len() == 0 {
        Ok(Seq::empty())
    } else {
        let head = match pieces[0] {
            PiecePlan::Lit(s) => Ok(s),
            PiecePlan::Expr(t) => match eval_last(t, input, env) {
                Ok(v) => Ok(plain_text(v)),
                Err(e) => Err(e),
            },
        };
        match head {
            Ok(h) => match interpolated(pieces.skip(1), input, env) {
                Ok(rest) => Ok(h + rest),
                Err(e) => Err(e),
            },
            Err(e) => Err(e),
        }
    }
}

/// The value of pieces.
pub open spec fn interpolated_value(pieces: Seq<PiecePlan>, input: Json, env: Members) -> Outcome {
    match interpolated(pieces, input, env) {
        Ok(s) => Ok(Json::String(s)),
        Err(e) => Err(e),
    }
}

/// The value of a compiled text as an expression: a text without blocks is an
/// expression itself.
pub open spec fn evaluated(plan: Plan, input: Json, env: Members) -> Outcome {
    match plan {
        Plan::Expr(t) => eval_last(t, input, env),
        Plan::Plain(s) => match parse_tree(s) {
            Ok(t) => eval_last(t, input, env),
            Err(e) => Err(e),
        },
        Plan::Interp(pieces) => interpolated_value(pieces, input, env),
    }
}

/// The value of a compiled text as a template: a text without blocks stands for
/// itself.
pub open spec fn filled(plan: Plan, input: Json, env: Members) -> Outcome {
    match plan {
        Plan::Expr(t) => eval_last(t, input, env),
        Plan::Plain(s) => Ok(Json::String(s)),
        Plan::Interp(pieces) => interpolated_value(pieces, input, env),
    }
}

/// An error of the engine reports the text of a failure.
pub open spec fn reports(e: crate::context::ExpressionError, f: Failure) -> bool {
    e.message@ == failure_text(f) && e.expression is None
}

/// Turns an error of the language into one of the engine.
pub fn engine_error(e: &ExpressionError) -> (r: crate::context::ExpressionError)
    ensures
        reports(r, e@),
{
    crate::context::ExpressionError { message: e.to_string(), expression: None }
}

/// The index of the quotation mark that ends a string literal.
fn find_literal_close(chars: &Vec<char>, from: usize) -> (r: Option<usize>)
    requires
        from <= chars.len(),
    ensures
        match r {
            Some(j) => literal_close(chars@, from as int) == Some(j as int) && from <= j
                < chars.len(),
            None => literal_close(chars@, from as int) is None,
        },
{
    let mut j: usize = from;
    while j < chars.len()
        invariant
            from <= j <= chars.len(),
            literal_close(chars@, j as int) == literal_close(chars@, from as int),
        decreases chars.len() - j,
    {
        if chars[j] == '"' {
            return Some(j);
        }
        if chars[j] == '\\' {
            if chars.len() - j < 2 {
                assert(literal_close(chars@, j + 2) is None);
                return None;
            }
            j += 2;
        } else {
            j += 1;
        }
    }
    None
}

/// Finds the brace that closes the block opened at `open`.
pub fn find_block_close(chars: &Vec<char>, open: usize) -> (r: Option<usize>)
    requires
        open < chars.len(),
    ensures
        match r {
            Some(j) => block_close(chars@, open as int) == Some(j as int) && open < j < chars.len(),
            None => block_close(chars@, open as int) is None,
        },
{
    let mut depth: usize = 1;
    let mut comment = false;
    let mut i: usize = open + 1;
    while i < chars.len()
        invariant
            open < i <= chars.len(),
            1 <= depth <= i - open,
            close_from(chars@, i as int, depth as nat, comment) == block_close(
                chars@,
                open as int,
            ),
        decreases chars.len() - i,
    {
        let c = chars[i];
        if c == '{' {
            depth += 1;
            i += 1;
        } else if c == '}' {
            if depth == 1 {
                return Some(i);
            }
            depth -= 1;
            i += 1;
        } else if c == '"' && !comment {
            match find_literal_close(chars, i + 1) {
                Some(j) => {
                    i = j + 1;
                },
                None => {
                    return None;
                },
            }
        } else {
            comment = c == '#' || (comment && c != '\n');
            i += 1;
        }
    }
    None
}

/// The text inside the only block of a text.
fn read_single_block(source: &str) -> (r: Option<String>)
    ensures
        opt_view(r) == single_block(source@),
{
    let chars = chars_of(source);
    let start = skip_space(&chars, 0);
    if start >= chars.len() || chars.len() - start < 2 || chars[start] != '$' || chars[start + 1]
        != '{' {
        return None;
    }
    match find_block_close(&chars, start + 1) {
        Some(close) => {
            if skip_space(&chars, close + 1) != chars.len() {
                return None;
            }
            let inner = string_of(&chars, start + 2, close);
            Some(trim(inner.as_str()))
        },
        None => None,
    }
}

/// Appends a literal piece that is not empty.
fn push_literal(pieces: &mut Vec<Piece>, literal: String)
    ensures
        piece_plans(final(pieces)@) == piece_plans(old(pieces)@) + literal_piece(literal@),
{
    let ghost before = pieces@;
    if !literal.as_str().is_empty() {
        pieces.push(Piece::Lit(literal));
    }
    assert(piece_plans(pieces@) =~= piece_plans(before) + literal_piece(literal@));
}

/// Splits a text into literal and block pieces.
fn parse_blocks(source: &str) -> (r: Result<Vec<Piece>, ExpressionError>)
    ensures
        match r {
            Ok(pieces) => pieces_of(source@) == Ok::<_, Failure>(piece_plans(pieces@)),
            Err(e) => pieces_of(source@) == Err::<Seq<PiecePlan>, _>(e@),
        },
{
    let chars = chars_of(source);
    let ghost s = source@;
    let ghost total = pieces_from(s, 0, Seq::empty());
    let mut pieces: Vec<Piece> = Vec::new();
    let mut literal = String::new();
    let mut i: usize = 0;
    proof {
        assert(piece_plans(pieces@) =~= Seq::empty());
        match total {
            Ok(r) => assert(Seq::<PiecePlan>::empty() + r =~= r),
            Err(_) => {},
        }
    }
    while i < chars.len()
        invariant
            i <= chars.len(),
            chars@ == s,
            s == source@,
            total == pieces_from(s, 0, Seq::empty()),
            total == pieces_before(piece_plans(pieces@), pieces_from(s, i as int, literal@)),
        decreases chars.len() - i,
    {
        if chars.len() - i >= 2 && chars[i] == '$' && chars[i + 1] == '{' {
            let ghost before = piece_plans(pieces@);
            let ghost lit = literal@;
            push_literal(&mut pieces, literal);
            literal = String::new();
            let close = match find_block_close(&chars, i + 1) {
                Some(close) => close,
                None => {
                    return Err(ExpressionError::parse(i, "unterminated `${` block"));
                },
            };
            let inner = string_of(&chars, i + 2, close);
            let source = trim(inner.as_str());
            let expr = match parse(source.as_str()) {
                Ok(expr) => expr,
                Err(e) => {
                    return Err(e);
                },
            };
            let ghost tree = expr@;
            let ghost now = pieces@;
            pieces.push(Piece::Expr(expr));
            proof {
                let head = literal_piece(lit).push(PiecePlan::Expr(tree));
                assert(piece_plans(pieces@) =~= before + head) by {
                    assert(piece_plans(pieces@) =~= piece_plans(now).push(PiecePlan::Expr(tree)));
                }
                match pieces_from(s, close + 1, Seq::empty()) {
                    Ok(rest) => assert(before + (head + rest) =~= (before + head) + rest),
                    Err(_) => {},
                }
            }
            i = close + 1;
        } else {
            literal.push(chars[i]);
            i += 1;
        }
    }
    push_literal(&mut pieces, literal);
    if pieces.len() == 0 {
        pieces.push(Piece::Lit(String::new()));
        assert(piece_plans(pieces@) =~= seq![PiecePlan::Lit(Seq::empty())]);
    }
    Ok(pieces)
}

/// Compiles a source text.
pub fn prepare(source: &str) -> (r: Result<Prepared, ExpressionError>)
    ensures
        match r {
            Ok(p) => plan_of(source@) == Ok::<_, Failure>(p@),
            Err(e) => plan_of(source@) == Err::<Plan, _>(e@),
        },
{
    let text = trim(source);
    match read_single_block(text.as_str()) {
        Some(inner) => match parse(inner.as_str()) {
            Ok(e) => Ok(Prepared::Expr(e)),
            Err(e) => Err(e),
        },
        None => if contains(text.as_str(), "${") {
            match parse_blocks(text.as_str()) {
                Ok(pieces) => Ok(Prepared::Interp(pieces)),
                Err(e) => Err(e),
            }
        } else {
            Ok(Prepared::Plain(source.to_owned()))
        },
    }
}

/// The value of pieces.
fn interpolate(pieces: &Vec<Piece>, input: &Value, env: &Env) -> (r: Result<
    Value,
    ExpressionError,
>)
    ensures
        outcome(r) == interpolated_value(piece_plans(pieces@), input@, env.variables@),
{
    let ghost m = piece_plans(pieces@);
    let ghost vars = env.variables@;
    let ghost total = interpolated(m, input@, vars);
    let mut out = String::new();
    let mut i: usize = 0;
    proof {
        assert(m.skip(0) =~= m);
        match total {
            Ok(s) => assert(Seq::<char>::empty() + s =~= s),
            Err(_) => {},
        }
    }
    while i < pieces.len()
        invariant
            i <= pieces.len(),
            m == piece_plans(pieces@),
            vars == env.variables@,
            total == interpolated(m, input@, vars),
            total == (match interpolated(m.skip(i as int), input@, vars) {
                Ok(rest) => Ok::<Seq<char>, Failure>(out@ + rest),
                Err(e) => Err(e),
            }),
        decreases pieces.len() - i,
    {
        let ghost before = out@;
        proof {
            assert(m.skip(i as int)[0] == pieces@[i as int]@);
            assert(m.skip(i as int).skip(1) =~= m.skip(i + 1));
        }
        let text = match &pieces[i] {
            Piece::Lit(s) => s.clone(),
            Piece::Expr(e) => match eval_single(e, input, env) {
                Ok(v) => to_string(&v),
                Err(e) => {
                    return Err(e);
                },
            },
        };
        out.append(text.as_str());
        proof {
            match interpolated(m.skip(i + 1), input@, vars) {
                Ok(rest) => assert(before + (text@ + rest) =~= (before + text@) + rest),
                Err(_) => {},
            }
        }
        i += 1;
    }
    proof {
        assert(m.skip(i as int) =~= Seq::empty());
        assert(out@ + Seq::<char>::empty() =~= out@);
    }
    Ok(Value::String(out))
}

/// Evaluates a compiled text as an expression.
pub fn evaluate_value(prepared: &Prepared, input: &Value, variables: &Object) -> (r: Result<
    Value,
    ExpressionError,
>)
    ensures
        outcome(r) == evaluated(prepared@, input@, variables@),
{
    let env = Env::new(variables.clone());
    match prepared {
        Prepared::Expr(e) => eval_single(e, input, &env),
        Prepared::Plain(s) => match parse(s.as_str()) {
            Ok(e) => eval_single(&e, input, &env),
            Err(e) => Err(e),
        },
        Prepared::Interp(pieces) => interpolate(pieces, input, &env),
    }
}

/// Evaluates a compiled text as a template.
pub fn evaluate_interp(prepared: &Prepared, input: &Value, variables: &Object) -> (r: Result<
    Value,
    ExpressionError,
>)
    ensures
        outcome(r) == filled(prepared@, input@, variables@),
{
    let env = Env::new(variables.clone());
    match prepared {
        Prepared::Expr(e) => eval_single(e, input, &env),
        Prepared::Plain(s) => Ok(Value::String(s.clone())),
        Prepared::Interp(pieces) => interpolate(pieces, input, &env),
    }
}

/// The expression engine.
#[derive(Debug, Clone, Copy)]
pub struct JqEngine;

impl JqEngine {
    /// An engine.
    pub fn new() -> (r: Self)
        ensures
            r == JqEngine,
    {
        Self
    }
}

impl ExpressionEngine for JqEngine {
    type Data = Prepared;

    fn compile(&self, source: &str) -> (r: Result<
        CompiledExpression<Prepared>,
        crate::context::ExpressionError,
    >)
        ensures
            match r {
                Ok(c) => c.source@ == source@ && plan_of(source@) == Ok::<_, Failure>(c.data@),
                Err(e) => plan_of(source@) is Err && reports(e, plan_of(source@)->Err_0),
            },
    {
        match prepare(source) {
            Ok(p) => Ok(CompiledExpression::new(source, p)),
            Err(e) => Err(engine_error(&e)),
        }
    }

    fn evaluate(
        &self,
        compiled: &CompiledExpression<Prepared>,
        input: &Value,
        variables: &Object,
    ) -> (r: Result<Value, crate::context::ExpressionError>)
        ensures
            match r {
                Ok(v) => evaluated(compiled.data@, input@, variables@) == Ok::<_, Failure>(v@),
                Err(e) => evaluated(compiled.data@, input@, variables@) is Err && reports(
                    e,
                    evaluated(compiled.data@, input@, variables@)->Err_0,
                ),
            },
    {
        match evaluate_value(&compiled.data, input, variables) {
            Ok(v) => Ok(v),
            Err(e) => Err(engine_error(&e)),
        }
    }

    fn is_expression(&self, value: &str) -> (r: bool)
        ensures
            r == occurs(value@, "${"@),
    {
        contains(value, "${")
    }

    fn evaluate_interpolation(&self, source: &str, input: &Value, variables: &Object) -> (r: Result<
        Value,
        crate::context::ExpressionError,
    >)
        ensures
            match plan_of(source@) {
                Ok(plan) => match r {
                    Ok(v) => filled(plan, input@, variables@) == Ok::<_, Failure>(v@),
                    Err(e) => filled(plan, input@, variables@) is Err && reports(
                        e,
                        filled(plan, input@, variables@)->Err_0,
                    ),
                },
                Err(f) => r is Err && reports(r->Err_0, f),
            },
    {
        let compiled = match self.compile(source) {
            Ok(c) => c,
            Err(e) => {
                return Err(e);
            },
        };
        match evaluate_interp(&compiled.data, input, variables) {
            Ok(v) => Ok(v),
            Err(e) => Err(engine_error(&e)),
        }
    }
}

} // verus!
