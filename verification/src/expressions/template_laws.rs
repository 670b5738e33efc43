//! What holds of texts with expressions in them.
use crate::expressions::ast::{Part, Tree};
use crate::expressions::engine::{
    PiecePlan, Plan, block_close, close_from, evaluated, filled, interpolated, literal_close,
    literal_piece, opens_block, pieces_before, pieces_from, pieces_of, plan_of, single_block,
};
use crate::expressions::error::Failure;
use crate::expressions::eval::eval_last;
use crate::expressions::laws::{lemma_first_brace, lemma_whole_source};
use crate::expressions::lexer::{
    Lexeme, Token, blank_end, comment_test, flushed, interp_end, next_batch, segments,
    string_rest, tokens_of,
};
use crate::expressions::literals::{lemma_end, lemma_lifted_base, lemma_no_blank};
use crate::expressions::parser::{p_base, p_interp, p_string, parse_tree};
use crate::json::{Json, Members};
use crate::text::{
    CharTest, is_space, lemma_run_end, occurs_at, run_end, run_start, space_test, trimmed,
    trimmed_end, trimmed_start,
};
use crate::value::json_text;
use vstd::prelude::*;

verus! {

/// The text that stands for a value in a template: a string for itself, any other by its
/// JSON text.
pub open spec fn shown(v: Json) -> Seq<char> {
    if v is String {
        v->String_0
    } else {
        json_text(v)
    }
}

/// Pieces are shown one after the other: a literal as it is, an expression by the text of
/// its value. The first failure is that of the whole.
pub proof fn law_pieces(first: PiecePlan, rest: Seq<PiecePlan>, input: Json, env: Members)
    ensures
        interpolated(Seq::empty(), input, env) == Ok::<Seq<char>, Failure>(Seq::empty()),
        first matches PiecePlan::Lit(text) ==> interpolated(seq![first] + rest, input, env) == (
        match interpolated(rest, input, env) {
            Ok(tail) => Ok::<Seq<char>, Failure>(text + tail),
            Err(e) => Err(e),
        }),
        first matches PiecePlan::Expr(t) ==> interpolated(seq![first] + rest, input, env) == (
        match eval_last(t, input, env) {
            Ok(v) => match interpolated(rest, input, env) {
                Ok(tail) => Ok::<Seq<char>, Failure>(shown(v) + tail),
                Err(e) => Err(e),
            },
            Err(e) => Err(e),
        }),
{
    let all = seq![first] + rest;
    assert(all.skip(1) =~= rest);
    assert(all[0] == first);
}

/// Characters before the next dollar sign belong to a literal piece.
proof fn lemma_literal_run(s: Seq<char>, i: int, end: int, literal: Seq<char>)
    requires
        0 <= i <= end <= s.len(),
        forall|k: int| i <= k < end ==> #[trigger] s[k] != '$',
    ensures
        pieces_from(s, i, literal) == pieces_from(s, end, literal + s.subrange(i, end)),
    decreases end - i,
{
    if i < end {
        assert(s[i] != '$');
        lemma_literal_run(s, i + 1, end, literal.push(s[i]));
        assert(literal.push(s[i]) + s.subrange(i + 1, end) =~= literal + s.subrange(i, end));
    } else {
        assert(literal + s.subrange(i, end) =~= literal);
    }
}

/// A text with one block in it is the text before the block, what the expression in the
/// block gives, and the text behind it; it fails where the expression does.
pub proof fn law_template(
    before: Seq<char>,
    inner: Seq<char>,
    behind: Seq<char>,
    t: Tree,
    input: Json,
    env: Members,
)
    requires
        before.len() > 0,
        behind.len() > 0,
        !is_space(before[0]),
        !is_space(behind.last()),
        !before.contains('$'),
        !behind.contains('$'),
        forall|i: int|
            0 <= i < inner.len() ==> #[trigger] inner[i] != '{' && inner[i] != '}' && inner[i]
                != '"',
        parse_tree(trimmed(inner)) == Ok::<Tree, Failure>(t),
    ensures
        ({
            let source = before + "${"@ + inner + "}"@ + behind;
            let plan = Plan::Interp(
                seq![PiecePlan::Lit(before), PiecePlan::Expr(t), PiecePlan::Lit(behind)],
            );
            &&& plan_of(source) == Ok::<Plan, Failure>(plan)
            &&& filled(plan, input, env) == (match eval_last(t, input, env) {
                Ok(v) => Ok::<Json, Failure>(Json::String(before + shown(v) + behind)),
                Err(e) => Err(e),
            })
            &&& evaluated(plan, input, env) == filled(plan, input, env)
        }),
{
    lemma_template_plan(before, inner, behind, t);
    let (a, b, c) = (PiecePlan::Lit(before), PiecePlan::Expr(t), PiecePlan::Lit(behind));
    let none = Seq::<PiecePlan>::empty();
    law_pieces(c, none, input, env);
    law_pieces(b, seq![c], input, env);
    law_pieces(a, seq![b, c], input, env);
    assert(seq![c] + none =~= seq![c]);
    assert(seq![b] + seq![c] =~= seq![b, c]);
    assert(seq![a] + seq![b, c] =~= seq![a, b, c]);
    assert(behind + Seq::<char>::empty() =~= behind);
    match eval_last(t, input, env) {
        Ok(v) => assert(before + (shown(v) + behind) =~= before + shown(v) + behind),
        Err(_) => {},
    }
}

/// What a text with one block in it is compiled to.
proof fn lemma_template_plan(before: Seq<char>, inner: Seq<char>, behind: Seq<char>, t: Tree)
    requires
        before.len() > 0,
        behind.len() > 0,
        !is_space(before[0]),
        !is_space(behind.last()),
        !before.contains('$'),
        !behind.contains('$'),
        forall|i: int|
            0 <= i < inner.len() ==> #[trigger] inner[i] != '{' && inner[i] != '}' && inner[i]
                != '"',
        parse_tree(trimmed(inner)) == Ok::<Tree, Failure>(t),
    ensures
        plan_of(before + "${"@ + inner + "}"@ + behind) == Ok::<Plan, Failure>(
            Plan::Interp(
                seq![PiecePlan::Lit(before), PiecePlan::Expr(t), PiecePlan::Lit(behind)],
            ),
        ),
{
    reveal_strlit("${");
    reveal_strlit("}");
    let s = before + "${"@ + inner + "}"@ + behind;
    let n = before.len() as int;
    assert(s[0] == before[0]);
    assert(s[s.len() - 1] == behind.last());
    lemma_untrimmed(s);
    assert(before.contains(before[0]));
    assert(s[n] == '$' && s[n + 1] == '{');
    assert(s.subrange(n, n + 2) =~= "${"@);
    assert(occurs_at(s, "${"@, n));
    assert(run_end(s, 0, space_test()) == 0);
    assert(!opens_block(s, 0));
    assert(single_block(s) is None);
    lemma_template_pieces(before, inner, behind, t);
}

/// A text without white space at its ends is trimmed.
proof fn lemma_untrimmed(s: Seq<char>)
    requires
        s.len() > 0,
        !is_space(s[0]),
        !is_space(s[s.len() - 1]),
    ensures
        trimmed(s) == s,
{
    assert(run_start(s, s.len() as int, space_test()) == s.len());
    assert(trimmed_end(s) =~= s);
    assert(run_end(s, 0, space_test()) == 0);
    assert(trimmed_start(s) =~= s);
}

/// The pieces of a text with one block in it.
proof fn lemma_template_pieces(before: Seq<char>, inner: Seq<char>, behind: Seq<char>, t: Tree)
    requires
        before.len() > 0,
        behind.len() > 0,
        !before.contains('$'),
        !behind.contains('$'),
        forall|i: int|
            0 <= i < inner.len() ==> #[trigger] inner[i] != '{' && inner[i] != '}' && inner[i]
                != '"',
        parse_tree(trimmed(inner)) == Ok::<Tree, Failure>(t),
    ensures
        pieces_of(before + "${"@ + inner + "}"@ + behind) == Ok::<Seq<PiecePlan>, Failure>(
            seq![PiecePlan::Lit(before), PiecePlan::Expr(t), PiecePlan::Lit(behind)],
        ),
{
    reveal_strlit("${");
    reveal_strlit("}");
    let s = before + "${"@ + inner + "}"@ + behind;
    let n = before.len() as int;
    let close = n + 2 + inner.len();
    let end = s.len() as int;
    assert(s[n] == '$' && s[n + 1] == '{' && s[close] == '}');
    assert(s.subrange(n + 2, close) =~= inner);
    assert(s.subrange(0, n) =~= before);
    assert(s.subrange(close + 1, end) =~= behind);
    assert forall|k: int| 0 <= k < n implies #[trigger] s[k] != '$' by {
        assert(before.contains(before[k]));
        assert(s[k] == before[k]);
    }
    assert forall|k: int| close < k < end implies #[trigger] s[k] != '$' by {
        assert(behind.contains(behind[k - close - 1]));
        assert(s[k] == behind[k - close - 1]);
    }
    assert forall|i: int| n + 2 <= i < close implies #[trigger] s[i] != '{' && s[i] != '}' && s[i]
        != '"' by {
        assert(s[i] == inner[i - n - 2]);
    }
    lemma_first_brace(s, n + 2, close, false);
    let none = Seq::<char>::empty();
    lemma_literal_run(s, 0, n, none);
    assert(none + s.subrange(0, n) =~= before);
    lemma_literal_run(s, close + 1, end, none);
    assert(none + s.subrange(close + 1, end) =~= behind);
    lemma_block_piece(s, n, close, before, t);
    assert(pieces_from(s, end, behind) == Ok::<Seq<PiecePlan>, Failure>(
        seq![PiecePlan::Lit(behind)],
    ));
    assert(seq![PiecePlan::Lit(before), PiecePlan::Expr(t)] + seq![PiecePlan::Lit(behind)]
        =~= seq![PiecePlan::Lit(before), PiecePlan::Expr(t), PiecePlan::Lit(behind)]);
}

/// The pieces at a block, after a literal.
proof fn lemma_block_piece(s: Seq<char>, n: int, close: int, literal: Seq<char>, t: Tree)
    requires
        0 <= n < n + 1 < close < s.len(),
        s[n] == '$',
        s[n + 1] == '{',
        close_from(s, n + 2, 1, false) == Some(close),
        parse_tree(trimmed(s.subrange(n + 2, close))) == Ok::<Tree, Failure>(t),
        literal.len() > 0,
    ensures
        pieces_from(s, n, literal) == pieces_before(
            seq![PiecePlan::Lit(literal), PiecePlan::Expr(t)],
            pieces_from(s, close + 1, Seq::empty()),
        ),
{
    assert(block_close(s, n + 1) == Some(close));
    assert(literal_piece(literal).push(PiecePlan::Expr(t)) =~= seq![
        PiecePlan::Lit(literal),
        PiecePlan::Expr(t),
    ]);
}

/// A text without a block is an expression where a value is asked for, and stands for
/// itself in a template; one block alone gives the value of its expression in both.
pub proof fn law_plans(source: Seq<char>, t: Tree, input: Json, env: Members)
    ensures
        filled(Plan::Plain(source), input, env) == Ok::<Json, Failure>(Json::String(source)),
        parse_tree(source) == Ok::<Tree, Failure>(t) ==> evaluated(
            Plan::Plain(source),
            input,
            env,
        ) == eval_last(t, input, env),
        evaluated(Plan::Expr(t), input, env) == eval_last(t, input, env),
        filled(Plan::Expr(t), input, env) == eval_last(t, input, env),
{
}

/// A block that is never closed cannot be compiled.
pub proof fn law_open_block(inner: Seq<char>)
    requires
        forall|i: int|
            0 <= i < inner.len() ==> #[trigger] inner[i] != '}' && inner[i] != '"',
        inner.len() > 0,
        !is_space(inner.last()),
    ensures
        plan_of("${"@ + inner) == Err::<Plan, Failure>(
            Failure::Parse { pos: 0, message: "unterminated `${` block"@ },
        ),
{
    reveal_strlit("${");
    let s = "${"@ + inner;
    let end = s.len() as int;
    assert(s[0] == '$' && s[1] == '{' && s[end - 1] == inner.last());
    lemma_untrimmed(s);
    assert(run_end(s, 0, space_test()) == 0);
    assert forall|i: int| 2 <= i < end implies #[trigger] s[i] != '}' && s[i] != '"' by {
        assert(s[i] == inner[i - 2]);
    }
    lemma_never_closed(s, 2, 1, false);
    assert(single_block(s) is None);
    assert(s.subrange(0, 2) =~= "${"@);
    assert(occurs_at(s, "${"@, 0));
}

/// Without a closing brace no block is closed.
proof fn lemma_never_closed(s: Seq<char>, i: int, depth: nat, comment: bool)
    requires
        0 <= i,
        forall|k: int| i <= k < s.len() ==> #[trigger] s[k] != '}' && s[k] != '"',
    ensures
        close_from(s, i, depth, comment) is None,
    decreases s.len() - i,
{
    if i < s.len() {
        assert(s[i] != '}' && s[i] != '"');
        if s[i] == '{' {
            lemma_never_closed(s, i + 1, depth + 1, comment);
        } else {
            lemma_never_closed(s, i + 1, depth, s[i] == '#' || (comment && s[i] != '\n'));
        }
    }
}

/// A brace inside a string literal, or inside a further pair of braces, does not close a
/// block.
pub proof fn law_inner_braces(before: Seq<char>, literal: Seq<char>, behind: Seq<char>)
    requires
        forall|i: int|
            0 <= i < before.len() ==> #[trigger] before[i] != '{' && before[i] != '}' && before[i]
                != '"' && before[i] != '#',
        forall|i: int|
            0 <= i < literal.len() ==> #[trigger] literal[i] != '"' && literal[i] != '\\',
        forall|i: int|
            0 <= i < behind.len() ==> #[trigger] behind[i] != '{' && behind[i] != '}' && behind[i]
                != '"',
    ensures
        ({
            let inner = before + seq!['"'] + literal + seq!['"'] + behind;
            block_close("${"@ + inner + "}"@, 1) == Some(inner.len() as int + 2)
        }),
        ({
            let inner = before + seq!['{'] + behind + seq!['}'] + behind;
            block_close("${"@ + inner + "}"@, 1) == Some(inner.len() as int + 2)
        }),
{
    lemma_literal_in_block(before, literal, behind);
    lemma_braces_in_block(before, behind);
}

/// A block with a string literal in it.
proof fn lemma_literal_in_block(before: Seq<char>, literal: Seq<char>, behind: Seq<char>)
    requires
        forall|i: int|
            0 <= i < before.len() ==> #[trigger] before[i] != '{' && before[i] != '}' && before[i]
                != '"' && before[i] != '#',
        forall|i: int|
            0 <= i < literal.len() ==> #[trigger] literal[i] != '"' && literal[i] != '\\',
        forall|i: int|
            0 <= i < behind.len() ==> #[trigger] behind[i] != '{' && behind[i] != '}' && behind[i]
                != '"',
    ensures
        ({
            let inner = before + seq!['"'] + literal + seq!['"'] + behind;
            block_close("${"@ + inner + "}"@, 1) == Some(inner.len() as int + 2)
        }),
{
    reveal_strlit("${");
    reveal_strlit("}");
    let inner = before + seq!['"'] + literal + seq!['"'] + behind;
    let s = "${"@ + inner + "}"@;
    let a = 2 + before.len() as int;
    let b = a + 1 + literal.len();
    let close = inner.len() as int + 2;
    assert(s[a] == '"' && s[b] == '"' && s[close] == '}');
    assert forall|i: int| 2 <= i < a implies #[trigger] s[i] != '{' && s[i] != '}' && s[i] != '"'
        && s[i] != '#' by {
        assert(s[i] == before[i - 2]);
    }
    assert forall|i: int| a < i < b implies #[trigger] s[i] != '"' && s[i] != '\\' by {
        assert(s[i] == literal[i - a - 1]);
    }
    assert forall|i: int| b < i < close implies #[trigger] s[i] != '{' && s[i] != '}' && s[i]
        != '"' by {
        assert(s[i] == behind[i - b - 1]);
    }
    lemma_plain_run(s, 2, a, 1);
    lemma_literal_end(s, a + 1, b);
    lemma_first_brace(s, b + 1, close, false);
}

/// A block with braces in it.
proof fn lemma_braces_in_block(before: Seq<char>, behind: Seq<char>)
    requires
        forall|i: int|
            0 <= i < before.len() ==> #[trigger] before[i] != '{' && before[i] != '}' && before[i]
                != '"' && before[i] != '#',
        forall|i: int|
            0 <= i < behind.len() ==> #[trigger] behind[i] != '{' && behind[i] != '}' && behind[i]
                != '"',
    ensures
        ({
            let inner = before + seq!['{'] + behind + seq!['}'] + behind;
            block_close("${"@ + inner + "}"@, 1) == Some(inner.len() as int + 2)
        }),
{
    reveal_strlit("${");
    reveal_strlit("}");
    let inner = before + seq!['{'] + behind + seq!['}'] + behind;
    let s = "${"@ + inner + "}"@;
    let a = 2 + before.len() as int;
    let b = a + 1 + behind.len();
    let close = inner.len() as int + 2;
    assert(s[a] == '{' && s[b] == '}' && s[close] == '}');
    assert forall|i: int| 2 <= i < a implies #[trigger] s[i] != '{' && s[i] != '}' && s[i] != '"'
        && s[i] != '#' by {
        assert(s[i] == before[i - 2]);
    }
    assert forall|i: int| a < i < b implies #[trigger] s[i] != '{' && s[i] != '}' && s[i]
        != '"' by {
        assert(s[i] == behind[i - a - 1]);
    }
    assert forall|i: int| b < i < close implies #[trigger] s[i] != '{' && s[i] != '}' && s[i]
        != '"' by {
        assert(s[i] == behind[i - b - 1]);
    }
    lemma_plain_run(s, 2, a, 1);
    let comment = lemma_run_in_depth(s, a + 1, b, 2, false);
    lemma_first_brace(s, b + 1, close, comment);
}

/// Characters that are no braces, marks or comments change nothing.
proof fn lemma_plain_run(s: Seq<char>, i: int, end: int, depth: nat)
    requires
        0 <= i <= end <= s.len(),
        forall|k: int|
            i <= k < end ==> #[trigger] s[k] != '{' && s[k] != '}' && s[k] != '"' && s[k] != '#',
    ensures
        close_from(s, i, depth, false) == close_from(s, end, depth, false),
    decreases end - i,
{
    if i < end {
        assert(s[i] != '{' && s[i] != '}' && s[i] != '"' && s[i] != '#');
        lemma_plain_run(s, i + 1, end, depth);
    }
}

/// Characters that are no braces or marks change no depth.
proof fn lemma_run_in_depth(s: Seq<char>, i: int, end: int, depth: nat, comment: bool) -> (c: bool)
    requires
        0 <= i <= end < s.len(),
        s[end] == '}',
        depth > 1,
        forall|k: int| i <= k < end ==> #[trigger] s[k] != '{' && s[k] != '}' && s[k] != '"',
    ensures
        close_from(s, i, depth, comment) == close_from(s, end + 1, (depth - 1) as nat, c),
    decreases end - i,
{
    if i < end {
        assert(s[i] != '{' && s[i] != '}' && s[i] != '"');
        lemma_run_in_depth(s, i + 1, end, depth, s[i] == '#' || (comment && s[i] != '\n'))
    } else {
        comment
    }
}

/// A literal without marks and escapes ends at the next mark.
proof fn lemma_literal_end(s: Seq<char>, i: int, end: int)
    requires
        0 <= i <= end < s.len(),
        s[end] == '"',
        forall|k: int| i <= k < end ==> #[trigger] s[k] != '"' && s[k] != '\\',
    ensures
        literal_close(s, i) == Some(end),
    decreases end - i,
{
    if i < end {
        assert(s[i] != '"' && s[i] != '\\');
        lemma_literal_end(s, i + 1, end);
    }
}

// ---------------------------------------------------------------------------
// Strings
// ---------------------------------------------------------------------------

/// Characters that are no marks and no escapes belong to a literal segment.
proof fn lemma_segment_run(
    s: Seq<char>,
    i: int,
    end: int,
    tokens: Seq<Lexeme>,
    literal: Seq<char>,
)
    requires
        0 <= i <= end <= s.len(),
        forall|k: int| i <= k < end ==> #[trigger] s[k] != '"' && s[k] != '\\',
    ensures
        string_rest(s, i, tokens, literal) == string_rest(
            s,
            end,
            tokens,
            literal + s.subrange(i, end),
        ),
    decreases end - i,
{
    if i < end {
        assert(s[i] != '"' && s[i] != '\\');
        lemma_segment_run(s, i + 1, end, tokens, literal.push(s[i]));
        assert(literal.push(s[i]) + s.subrange(i + 1, end) =~= literal + s.subrange(i, end));
    } else {
        assert(literal + s.subrange(i, end) =~= literal);
    }
}

/// An interpolation without parentheses in it ends at the next closing one.
proof fn lemma_interpolation_end(s: Seq<char>, i: int, end: int)
    requires
        0 <= i <= end < s.len(),
        s[end] == ')',
        forall|k: int| i <= k < end ==> #[trigger] s[k] != '(' && s[k] != ')',
    ensures
        interp_end(s, i, 1) == Some(end + 1),
    decreases end - i,
{
    if i < end {
        assert(s[i] != '(' && s[i] != ')');
        lemma_interpolation_end(s, i + 1, end);
    }
}

/// A string with an interpolation is the literal before it, the expression in it, and the
/// literal behind it.
pub proof fn law_interpolated_string(
    before: Seq<char>,
    inner: Seq<char>,
    behind: Seq<char>,
    t: Tree,
)
    requires
        before.len() > 0,
        behind.len() > 0,
        forall|i: int|
            0 <= i < before.len() ==> #[trigger] before[i] != '"' && before[i] != '\\',
        forall|i: int| 0 <= i < inner.len() ==> #[trigger] inner[i] != '(' && inner[i] != ')',
        forall|i: int|
            0 <= i < behind.len() ==> #[trigger] behind[i] != '"' && behind[i] != '\\',
        parse_tree(inner) == Ok::<Tree, Failure>(t),
    ensures
        parse_tree(
            seq!['"'] + before + seq!['\\', '('] + inner + seq![')'] + behind + seq!['"'],
        ) == Ok::<Tree, Failure>(
            Tree::Str(
                seq![Part::Literal(before), Part::Expr(Box::new(t)), Part::Literal(behind)],
            ),
        ),
{
    let s = seq!['"'] + before + seq!['\\', '('] + inner + seq![')'] + behind + seq!['"'];
    let n = s.len();
    lemma_string_tokens(before, inner, behind);
    let toks = seq![
        Lexeme::Str(before),
        Lexeme::Interp(inner),
        Lexeme::Str(behind),
        Lexeme::Fixed(Token::Eof),
    ];
    let (a, b, c) = (Part::Literal(before), Part::Expr(Box::new(t)), Part::Literal(behind));
    let tree = Tree::Str(seq![a, b, c]);
    let r = Ok::<(Tree, int), Failure>((tree, 3));
    assert(seq![a].push(b) =~= seq![a, b]);
    assert(seq![a, b].push(c) =~= seq![a, b, c]);
    assert(inner.len() < n);
    assert(p_interp(n, inner) == Ok::<Tree, Failure>(t));
    assert(p_string(n, toks, 3, seq![a, b, c]) == r);
    assert(p_string(n, toks, 2, seq![a, b]) == r);
    assert(p_string(n, toks, 1, seq![a]) == r);
    assert(p_base(n, toks, 0) == r);
    lemma_lifted_base(n, toks, 0, 6, tree, 3);
    lemma_whole_source(s, toks, tree, 3);
}

/// The tokens of a string with an interpolation.
proof fn lemma_string_tokens(before: Seq<char>, inner: Seq<char>, behind: Seq<char>)
    requires
        before.len() > 0,
        behind.len() > 0,
        forall|i: int|
            0 <= i < before.len() ==> #[trigger] before[i] != '"' && before[i] != '\\',
        forall|i: int| 0 <= i < inner.len() ==> #[trigger] inner[i] != '(' && inner[i] != ')',
        forall|i: int|
            0 <= i < behind.len() ==> #[trigger] behind[i] != '"' && behind[i] != '\\',
    ensures
        tokens_of(
            seq!['"'] + before + seq!['\\', '('] + inner + seq![')'] + behind + seq!['"'],
        ) == Ok::<Seq<Lexeme>, Failure>(
            seq![
                Lexeme::Str(before),
                Lexeme::Interp(inner),
                Lexeme::Str(behind),
                Lexeme::Fixed(Token::Eof),
            ],
        ),
{
    let s = seq!['"'] + before + seq!['\\', '('] + inner + seq![')'] + behind + seq!['"'];
    let n = 1 + before.len() as int;
    let m = n + 2 + inner.len();
    let q = m + 1 + behind.len();
    assert(s.len() == q + 1);
    assert(s[0] == '"' && s[n] == '\\' && s[n + 1] == '(' && s[m] == ')' && s[q] == '"');
    assert(s.subrange(1, n) =~= before);
    assert(s.subrange(n + 2, m) =~= inner);
    assert(s.subrange(m + 1, q) =~= behind);
    assert forall|k: int| 1 <= k < n implies #[trigger] s[k] != '"' && s[k] != '\\' by {
        assert(s[k] == before[k - 1]);
    }
    assert forall|k: int| n + 2 <= k < m implies #[trigger] s[k] != '(' && s[k] != ')' by {
        assert(s[k] == inner[k - n - 2]);
    }
    assert forall|k: int| m < k < q implies #[trigger] s[k] != '"' && s[k] != '\\' by {
        assert(s[k] == behind[k - m - 1]);
    }
    let none = Seq::<Lexeme>::empty();
    let nothing = Seq::<char>::empty();
    lemma_segment_run(s, 1, n, none, nothing);
    assert(nothing + s.subrange(1, n) =~= before);
    lemma_interpolation_end(s, n + 2, m);
    let two = seq![Lexeme::Str(before), Lexeme::Interp(inner)];
    let three = seq![Lexeme::Str(before), Lexeme::Interp(inner), Lexeme::Str(behind)];
    assert(flushed(none, before).push(Lexeme::Interp(inner)) =~= two);
    assert(string_rest(s, n, none, before) == string_rest(s, m + 1, two, nothing));
    lemma_segment_run(s, m + 1, q, two, nothing);
    assert(nothing + s.subrange(m + 1, q) =~= behind);
    assert(segments(two, behind) =~= three);
    let end = s.len() as int;
    assert(string_rest(s, q, two, behind) == Ok::<(Seq<Lexeme>, int), Failure>((three, end)));
    lemma_no_blank(s, 0);
    assert(next_batch(s, 0) == Ok::<(Seq<Lexeme>, int), Failure>((three, end)));
    lemma_no_blank(s, end);
    lemma_end(s, end);
    assert(three + seq![Lexeme::Fixed(Token::Eof)] =~= seq![
        Lexeme::Str(before),
        Lexeme::Interp(inner),
        Lexeme::Str(behind),
        Lexeme::Fixed(Token::Eof),
    ]);
}

/// A comment runs to the end of its line and changes nothing: a source means the same
/// with white space or a comment before it.
pub proof fn law_comments(comment: Seq<char>, source: Seq<char>)
    requires
        !comment.contains('\n'),
    ensures
        blank_end(seq!['#'] + comment + seq!['\n'] + source, 0) == comment.len() + 2 + blank_end(
            source,
            0,
        ),
{
    let s = seq!['#'] + comment + seq!['\n'] + source;
    let n = comment.len() as int + 1;
    assert(s[0] == '#' && s[n] == '\n');
    assert(run_end(s, 0, space_test()) == 0);
    assert forall|k: int| 0 <= k < n implies comment_test()(#[trigger] s[k]) by {
        if k > 0 {
            assert(s[k] == comment[k - 1]);
            assert(comment.contains(comment[k - 1]));
        }
    }
    lemma_comment_run(s, 0, n);
    assert(blank_end(s, 0) == blank_end(s, n));
    assert(space_test()(s[n]));
    assert(s.skip(n + 1) =~= source);
    lemma_run_end(s, n + 1, space_test());
    assert(run_end(s, n, space_test()) == run_end(s, n + 1, space_test()));
    assert(blank_end(s, n) == blank_end(s, n + 1));
    lemma_blank_shift(s, n + 1, source, 0);
}

/// A run of a comment ends at a line feed.
proof fn lemma_comment_run(s: Seq<char>, i: int, end: int)
    requires
        0 <= i <= end < s.len(),
        s[end] == '\n',
        forall|k: int| i <= k < end ==> comment_test()(#[trigger] s[k]),
    ensures
        run_end(s, i, comment_test()) == end,
    decreases end - i,
{
    if i < end {
        assert(comment_test()(s[i]));
        lemma_comment_run(s, i + 1, end);
    }
}

/// A run in a tail of a text.
proof fn lemma_run_tail(s: Seq<char>, start: int, t: Seq<char>, i: int, test: CharTest)
    requires
        0 <= start <= s.len(),
        t == s.skip(start),
        0 <= i <= t.len(),
    ensures
        run_end(s, start + i, test) == start + run_end(t, i, test),
    decreases t.len() - i,
{
    if i < t.len() && test(t[i]) {
        lemma_run_tail(s, start, t, i + 1, test);
    }
}

/// What is skipped in a tail of a text.
proof fn lemma_blank_shift(s: Seq<char>, start: int, t: Seq<char>, i: int)
    requires
        0 <= start <= s.len(),
        t == s.skip(start),
        0 <= i <= t.len(),
    ensures
        blank_end(s, start + i) == start + blank_end(t, i),
    decreases t.len() - i,
{
    lemma_run_tail(s, start, t, i, space_test());
    let p = run_end(t, i, space_test());
    lemma_run_end(t, i, space_test());
    if p < t.len() && t[p] == '#' {
        lemma_run_tail(s, start, t, p, comment_test());
        lemma_run_end(t, p + 1, comment_test());
        lemma_blank_shift(s, start, t, run_end(t, p, comment_test()));
    }
}

} // verus!
