//! How tightly operators bind.
//!
//! The laws speak of sources of three operands with two operators between them, and
//! of the trees that they are parsed to.
use crate::double::{from_int, law_integers_exact};
use crate::expressions::ast::{BinOp, Tree};
use crate::expressions::error::Failure;
use crate::expressions::laws::{is_identifier, lemma_double, lemma_whole_source};
use crate::expressions::lexer::{
    Lexeme, Token, blank_end, double_symbol, ident_test, next_batch, tokens_from, tokens_of,
};
use crate::expressions::literals::{
    led, lemma_decimal_denotes, lemma_end, lemma_led, lemma_no_blank, lemma_number,
    lemma_one_blank, lemma_run_at, lemma_run_full, lemma_single, lemma_stands_apart,
    lemma_stands_at, lemma_tokens_at, lemma_word, stands_at, tokens_at,
};
use crate::expressions::operator_laws::whole;
use crate::expressions::parser::{
    joined_trees, joint, p_base, p_chain, p_chain_rest, p_dot, p_postfix, p_unary, parse_tree,
};
use crate::text::{decimal, is_space, run_end};
use vstd::prelude::*;

verus! {

/// An operand without operators.
pub ghost enum Operand {
    /// A field of the input, `.name`.
    Field(Seq<char>),
    /// A variable, `$name`.
    Variable(Seq<char>),
    /// A natural number, in decimal notation.
    Count(nat),
}

/// Whether the name of an operand is an identifier, or its number below 2^53.
pub open spec fn is_operand(o: Operand) -> bool {
    match o {
        Operand::Field(name) => is_identifier(name),
        Operand::Variable(name) => is_identifier(name),
        Operand::Count(n) => n < 0x20_0000_0000_0000,
    }
}

/// The notation of an operand.
pub open spec fn operand_text(o: Operand) -> Seq<char> {
    match o {
        Operand::Field(name) => "."@ + name,
        Operand::Variable(name) => "$"@ + name,
        Operand::Count(n) => decimal(n),
    }
}

/// The tree of an operand.
pub open spec fn operand_tree(o: Operand) -> Tree {
    match o {
        Operand::Field(name) => Tree::Field(Box::new(Tree::Identity), name),
        Operand::Variable(name) => Tree::Variable(name),
        Operand::Count(n) => Tree::Literal(whole(n as int)),
    }
}

/// An operator between two operands.
pub ghost enum Sign {
    Pipe,
    Or,
    And,
    Equal,
    Different,
    Less,
    NotGreater,
    Greater,
    NotLess,
    Plus,
    Minus,
    Otherwise,
    Times,
    Over,
    Modulo,
}

/// The notation of an operator.
pub open spec fn sign_text(sign: Sign) -> Seq<char> {
    match sign {
        Sign::Pipe => "|"@,
        Sign::Or => "or"@,
        Sign::And => "and"@,
        Sign::Equal => "=="@,
        Sign::Different => "!="@,
        Sign::Less => "<"@,
        Sign::NotGreater => "<="@,
        Sign::Greater => ">"@,
        Sign::NotLess => ">="@,
        Sign::Plus => "+"@,
        Sign::Minus => "-"@,
        Sign::Otherwise => "//"@,
        Sign::Times => "*"@,
        Sign::Over => "/"@,
        Sign::Modulo => "%"@,
    }
}

/// How tightly an operator binds: from the pipe, which binds weakest, over `or`,
/// `and`, the comparisons and the sums to the products.
pub open spec fn strength(sign: Sign) -> nat {
    match sign {
        Sign::Pipe => 1,
        Sign::Or => 2,
        Sign::And => 3,
        Sign::Equal => 4,
        Sign::Different => 4,
        Sign::Less => 4,
        Sign::NotGreater => 4,
        Sign::Greater => 4,
        Sign::NotLess => 4,
        Sign::Plus => 5,
        Sign::Minus => 5,
        Sign::Otherwise => 5,
        Sign::Times => 6,
        Sign::Over => 6,
        Sign::Modulo => 6,
    }
}

/// Two trees joined by an operator.
pub open spec fn sign_tree(sign: Sign, l: Tree, r: Tree) -> Tree {
    let (l, r) = (Box::new(l), Box::new(r));
    match sign {
        Sign::Pipe => Tree::Pipe(l, r),
        Sign::Or => Tree::Binary(BinOp::Or, l, r),
        Sign::And => Tree::Binary(BinOp::And, l, r),
        Sign::Equal => Tree::Binary(BinOp::Eq, l, r),
        Sign::Different => Tree::Binary(BinOp::Ne, l, r),
        Sign::Less => Tree::Binary(BinOp::Lt, l, r),
        Sign::NotGreater => Tree::Binary(BinOp::Le, l, r),
        Sign::Greater => Tree::Binary(BinOp::Gt, l, r),
        Sign::NotLess => Tree::Binary(BinOp::Ge, l, r),
        Sign::Plus => Tree::Binary(BinOp::Add, l, r),
        Sign::Minus => Tree::Binary(BinOp::Sub, l, r),
        Sign::Otherwise => Tree::Binary(BinOp::Alternative, l, r),
        Sign::Times => Tree::Binary(BinOp::Mul, l, r),
        Sign::Over => Tree::Binary(BinOp::Div, l, r),
        Sign::Modulo => Tree::Binary(BinOp::Mod, l, r),
    }
}

// ---------------------------------------------------------------------------
// Tokens
// ---------------------------------------------------------------------------

/// The tokens of an operand.
#[verifier::opaque]
pub open spec fn operand_tokens(o: Operand) -> Seq<Lexeme> {
    match o {
        Operand::Field(name) => seq![Lexeme::Fixed(Token::Dot), Lexeme::Ident(name)],
        Operand::Variable(name) => seq![Lexeme::Variable(name)],
        Operand::Count(n) => seq![Lexeme::Number(from_int(n as int))],
    }
}

/// The token of an operator.
spec fn sign_token(sign: Sign) -> Lexeme {
    match sign {
        Sign::Pipe => Lexeme::Fixed(Token::Pipe),
        Sign::Or => Lexeme::Ident("or"@),
        Sign::And => Lexeme::Ident("and"@),
        Sign::Equal => Lexeme::Fixed(Token::EqEq),
        Sign::Different => Lexeme::Fixed(Token::Ne),
        Sign::Less => Lexeme::Fixed(Token::Lt),
        Sign::NotGreater => Lexeme::Fixed(Token::Le),
        Sign::Greater => Lexeme::Fixed(Token::Gt),
        Sign::NotLess => Lexeme::Fixed(Token::Ge),
        Sign::Plus => Lexeme::Fixed(Token::Plus),
        Sign::Minus => Lexeme::Fixed(Token::Minus),
        Sign::Otherwise => Lexeme::Fixed(Token::Alternative),
        Sign::Times => Lexeme::Fixed(Token::Star),
        Sign::Over => Lexeme::Fixed(Token::Slash),
        Sign::Modulo => Lexeme::Fixed(Token::Percent),
    }
}

/// Lexing goes on where skipped characters end.
proof fn lemma_behind(s: Seq<char>, pos: int, p: int)
    requires
        0 <= pos <= p <= s.len(),
        blank_end(s, pos) == p,
        blank_end(s, p) == p,
    ensures
        tokens_from(s, pos) == tokens_from(s, p),
{
    assert(next_batch(s, pos) == next_batch(s, p));
}

/// Lexing an operand before a space or the end.
pub proof fn lemma_lex_operand(o: Operand, s: Seq<char>, pos: int, p: int)
    requires
        is_operand(o),
        0 <= pos <= p,
        blank_end(s, pos) == p,
        stands_at(s, p, operand_text(o)),
        p + operand_text(o).len() < s.len() ==> s[p + operand_text(o).len()] == ' ',
    ensures
        tokens_from(s, pos) == led(
            operand_tokens(o),
            tokens_from(s, p + operand_text(o).len()),
        ),
{
    reveal(operand_tokens);
    reveal_strlit(".");
    reveal_strlit("$");
    let t = operand_text(o);
    lemma_stands_at(s, p, t);
    match o {
        Operand::Field(name) => {
            assert(t.len() == name.len() + 1);
            assert(t[0] == '.' && t[1] == name[0]);
            assert(s[p + 0] == t[0] && s[p + 1] == t[1]);
            lemma_stands_apart(s, p, "."@, name);
            lemma_single(s, pos, p);
            lemma_no_blank(s, p + 1);
            lemma_word(s, p + 1, p + 1, name);
            let dot = seq![Lexeme::Fixed(Token::Dot)];
            let word = seq![Lexeme::Ident(name)];
            lemma_led(dot, word, tokens_from(s, p + t.len()));
            assert(dot + word =~= operand_tokens(o));
        },
        Operand::Variable(name) => {
            assert(t[0] == '$');
            assert(s[p + 0] == t[0]);
            lemma_stands_apart(s, p, "$"@, name);
            lemma_run_at(s, p + 1, name, 0, ident_test());
            lemma_run_full(name, 0, ident_test());
            let end = p + t.len();
            assert(run_end(s, p + 1, ident_test()) == end);
            assert(s.subrange(p + 1, end) =~= name);
            assert(next_batch(s, pos) == Ok::<(Seq<Lexeme>, int), Failure>(
                (seq![Lexeme::Variable(name)], end),
            ));
        },
        Operand::Count(n) => {
            lemma_decimal_denotes(n);
            assert(s[p + 0] == t[0]);
            lemma_no_blank(s, p);
            lemma_behind(s, pos, p);
            lemma_number(s, p, t);
        },
    }
}

/// Lexing an operator with a space on both sides.
proof fn lemma_lex_sign(sign: Sign, s: Seq<char>, pos: int)
    requires
        0 <= pos,
        stands_at(s, pos + 1, sign_text(sign)),
        pos + 1 + sign_text(sign).len() < s.len(),
        s[pos] == ' ',
        s[pos + 1 + sign_text(sign).len()] == ' ',
    ensures
        tokens_from(s, pos) == led(
            seq![sign_token(sign)],
            tokens_from(s, pos + 1 + sign_text(sign).len()),
        ),
{
    reveal_strlit("|");
    reveal_strlit("or");
    reveal_strlit("and");
    reveal_strlit("==");
    reveal_strlit("!=");
    reveal_strlit("<");
    reveal_strlit("<=");
    reveal_strlit(">");
    reveal_strlit(">=");
    reveal_strlit("+");
    reveal_strlit("-");
    reveal_strlit("//");
    reveal_strlit("*");
    reveal_strlit("/");
    reveal_strlit("%");
    let t = sign_text(sign);
    let p = pos + 1;
    lemma_stands_at(s, p, t);
    assert(s[p + 0] == t[0]);
    if t.len() > 1 {
        assert(s[p + 1] == t[1]);
    }
    lemma_one_blank(s, pos);
    match sign {
        Sign::Or => lemma_word(s, pos, p, t),
        Sign::And => {
            assert(s[p + 2] == t[2]);
            lemma_word(s, pos, p, t);
        },
        _ => {
            if t.len() == 1 {
                assert(double_symbol(s[p], ' ') is None);
                lemma_single(s, pos, p);
            } else {
                lemma_double(s, pos, p);
            }
        },
    }
}

/// The source of three operands with two operators between them.
pub open spec fn chain_text(a: Operand, x: Sign, b: Operand, y: Sign, c: Operand) -> Seq<char> {
    operand_text(a) + " "@ + sign_text(x) + " "@ + operand_text(b) + " "@ + sign_text(y) + " "@
        + operand_text(c)
}

/// The notation of an operand starts with a character that is not skipped.
pub proof fn lemma_operand_start(o: Operand)
    requires
        is_operand(o),
    ensures
        operand_text(o).len() > 0,
        !is_space(operand_text(o)[0]),
        operand_text(o)[0] != '#',
{
    reveal_strlit(".");
    reveal_strlit("$");
    match o {
        Operand::Count(n) => lemma_decimal_denotes(n),
        _ => {},
    }
}

/// Where the parts of the source of three operands stand.
proof fn lemma_chain_layout(
    ta: Seq<char>,
    tx: Seq<char>,
    tb: Seq<char>,
    ty: Seq<char>,
    tc: Seq<char>,
)
    requires
        ta.len() > 0 && tb.len() > 0 && tc.len() > 0,
    ensures
        ({
            let s = ta + " "@ + tx + " "@ + tb + " "@ + ty + " "@ + tc;
            let pa = ta.len() as int;
            let px = pa + 1 + tx.len();
            let pb = px + 1 + tb.len();
            let py = pb + 1 + ty.len();
            &&& s.len() == py + 1 + tc.len()
            &&& stands_at(s, 0, ta)
            &&& stands_at(s, pa + 1, tx)
            &&& stands_at(s, px + 1, tb)
            &&& stands_at(s, pb + 1, ty)
            &&& stands_at(s, py + 1, tc)
            &&& s[pa] == ' ' && s[px] == ' ' && s[pb] == ' ' && s[py] == ' '
            &&& s[0] == ta[0] && s[px + 1] == tb[0] && s[py + 1] == tc[0]
        }),
{
    reveal_strlit(" ");
    let s = ta + " "@ + tx + " "@ + tb + " "@ + ty + " "@ + tc;
    let pa = ta.len() as int;
    let px = pa + 1 + tx.len();
    let pb = px + 1 + tb.len();
    let py = pb + 1 + ty.len();
    assert(s.subrange(0, 0int + ta.len()) =~= ta);
    assert(s.subrange(pa + 1, pa + 1 + tx.len()) =~= tx);
    assert(s.subrange(px + 1, px + 1 + tb.len()) =~= tb);
    assert(s.subrange(pb + 1, pb + 1 + ty.len()) =~= ty);
    assert(s.subrange(py + 1, py + 1 + tc.len()) =~= tc);
}

/// The tokens of the source of three operands.
proof fn lemma_chain_tokens(a: Operand, x: Sign, b: Operand, y: Sign, c: Operand)
    requires
        is_operand(a),
        is_operand(b),
        is_operand(c),
    ensures
        tokens_of(chain_text(a, x, b, y, c)) == Ok::<Seq<Lexeme>, Failure>(
            operand_tokens(a) + seq![sign_token(x)] + operand_tokens(b) + seq![sign_token(y)]
                + operand_tokens(c) + seq![Lexeme::Fixed(Token::Eof)],
        ),
{
    let s = chain_text(a, x, b, y, c);
    let (ta, tx, tb, ty, tc) = (
        operand_text(a),
        sign_text(x),
        operand_text(b),
        sign_text(y),
        operand_text(c),
    );
    lemma_operand_start(a);
    lemma_operand_start(b);
    lemma_operand_start(c);
    let pa = ta.len() as int;
    let px = pa + 1 + tx.len();
    let pb = px + 1 + tb.len();
    let py = pb + 1 + ty.len();
    lemma_chain_layout(ta, tx, tb, ty, tc);
    lemma_no_blank(s, 0);
    lemma_lex_operand(a, s, 0, 0);
    lemma_lex_sign(x, s, pa);
    lemma_one_blank(s, px);
    lemma_lex_operand(b, s, px, px + 1);
    lemma_lex_sign(y, s, pb);
    lemma_one_blank(s, py);
    lemma_lex_operand(c, s, py, py + 1);
    let n = s.len() as int;
    lemma_no_blank(s, n);
    lemma_end(s, n);
    let (ka, kx, kb, ky, kc) = (
        operand_tokens(a),
        seq![sign_token(x)],
        operand_tokens(b),
        seq![sign_token(y)],
        operand_tokens(c),
    );
    lemma_led(ka, kx, tokens_from(s, px));
    lemma_led(ka + kx, kb, tokens_from(s, pb));
    lemma_led(ka + kx + kb, ky, tokens_from(s, py));
    lemma_led(ka + kx + kb + ky, kc, tokens_from(s, n));
}

// ---------------------------------------------------------------------------
// Trees
// ---------------------------------------------------------------------------

/// The level of the grammar at which an operator stands.
spec fn sign_level(sign: Sign) -> nat {
    (7 - strength(sign)) as nat
}

/// An operator stands at one level of the grammar.
proof fn lemma_sign_level(sign: Sign)
    ensures
        only_at(sign_token(sign), sign_level(sign)),
        forall|l: Tree, r: Tree|
            #[trigger] joined_trees(joint(sign_level(sign), sign_token(sign)).unwrap(), l, r)
                == sign_tree(sign, l, r),
        1 <= sign_level(sign) <= 6,
        sign_token(sign) != Lexeme::Fixed(Token::Dot),
        sign_token(sign) != Lexeme::Fixed(Token::LBracket),
{
    reveal_strlit("or");
    reveal_strlit("and");
    assert("or"@.len() != "and"@.len());
}

/// Parsing an operand before a token that goes on with nothing below a level.
pub proof fn lemma_parse_operand(o: Operand, n: nat, toks: Seq<Lexeme>, pos: int, level: nat)
    requires
        is_operand(o),
        tokens_at(toks, pos, operand_tokens(o)),
        toks[pos + operand_tokens(o).len()] != Lexeme::Fixed(Token::Dot),
        toks[pos + operand_tokens(o).len()] != Lexeme::Fixed(Token::LBracket),
        forall|k: nat|
            0 < k <= level ==> #[trigger] joint(k, toks[pos + operand_tokens(o).len()]) is None,
    ensures
        p_chain(n, toks, pos, level) == Ok::<(Tree, int), Failure>(
            (operand_tree(o), pos + operand_tokens(o).len()),
        ),
{
    let part = operand_tokens(o);
    let p = pos + part.len();
    let t = operand_tree(o);
    let r = Ok::<(Tree, int), Failure>((t, p));
    reveal(operand_tokens);
    lemma_tokens_at(toks, pos, part);
    assert(toks[pos + 0] == part[0]);
    reveal_strlit("not");
    match o {
        Operand::Field(name) => {
            assert(toks[pos + 1] == part[1]);
            assert(p_dot(toks, pos) == r);
        },
        Operand::Variable(_) => {},
        Operand::Count(k) => {
            law_integers_exact(k as int);
        },
    }
    assert(p_base(n, toks, pos) == r);
    assert(p_postfix(n, toks, p, t) == r);
    assert(p_unary(n, toks, pos) == r);
    assert(p_chain(n, toks, pos, 0) == r);
    lemma_risen(n, toks, pos, 0, level, t, p);
}

/// A chain before a token that goes on with nothing is an operand at higher levels.
pub proof fn lemma_risen(
    n: nat,
    toks: Seq<Lexeme>,
    pos: int,
    from: nat,
    level: nat,
    t: Tree,
    p: int,
)
    requires
        p_chain(n, toks, pos, from) == Ok::<(Tree, int), Failure>((t, p)),
        pos < p < toks.len(),
        0 <= pos,
        from <= level,
        forall|k: nat| from < k <= level ==> #[trigger] joint(k, toks[p]) is None,
    ensures
        p_chain(n, toks, pos, level) == Ok::<(Tree, int), Failure>((t, p)),
    decreases level,
{
    if level > from {
        lemma_risen(n, toks, pos, from, (level - 1) as nat, t, p);
        assert(joint(level, toks[p]) is None);
        assert(p_chain_rest(n, toks, p, level, t) == Ok::<(Tree, int), Failure>((t, p)));
        assert(p_chain(n, toks, pos, level) == p_chain_rest(n, toks, p, level, t));
    }
}

/// What a chain gives: a tree and the position behind it.
pub open spec fn gives(n: nat, toks: Seq<Lexeme>, pos: int, level: nat, t: Tree, p: int) -> bool {
    p_chain(n, toks, pos, level) == Ok::<(Tree, int), Failure>((t, p))
}

/// Whether a token is an operator of one level only, or of none where the level is
/// zero.
pub open spec fn only_at(l: Lexeme, level: nat) -> bool {
    forall|k: nat| 0 < k <= 6 ==> (#[trigger] joint(k, l) is Some <==> k == level)
}

/// Two operands of a level with an operator of it between them.
pub proof fn lemma_two(
    n: nat,
    toks: Seq<Lexeme>,
    pos: int,
    at: int,
    p: int,
    level: nat,
    l: Tree,
    r: Tree,
)
    requires
        0 <= pos < at < p < toks.len(),
        0 < level <= 6,
        gives(n, toks, pos, (level - 1) as nat, l, at),
        gives(n, toks, at + 1, (level - 1) as nat, r, p),
        joint(level, toks[at]) is Some,
        joint(level, toks[p]) is None,
    ensures
        gives(
            n,
            toks,
            pos,
            level,
            joined_trees(joint(level, toks[at]).unwrap(), l, r),
            p,
        ),
{
    let t = joined_trees(joint(level, toks[at]).unwrap(), l, r);
    assert(p_chain_rest(n, toks, p, level, t) == Ok::<(Tree, int), Failure>((t, p)));
    assert(p_chain_rest(n, toks, at, level, l) == p_chain_rest(n, toks, p, level, t));
    assert(p_chain(n, toks, pos, level) == p_chain_rest(n, toks, at, level, l));
}

/// Three operands of a level with two operators of it between them.
proof fn lemma_three(
    n: nat,
    toks: Seq<Lexeme>,
    px: int,
    py: int,
    p: int,
    level: nat,
    a: Tree,
    b: Tree,
    c: Tree,
)
    requires
        0 < px < py < p < toks.len(),
        0 < level <= 6,
        gives(n, toks, 0, (level - 1) as nat, a, px),
        gives(n, toks, px + 1, (level - 1) as nat, b, py),
        gives(n, toks, py + 1, (level - 1) as nat, c, p),
        joint(level, toks[px]) is Some,
        joint(level, toks[py]) is Some,
        joint(level, toks[p]) is None,
    ensures
        gives(
            n,
            toks,
            0,
            level,
            joined_trees(
                joint(level, toks[py]).unwrap(),
                joined_trees(joint(level, toks[px]).unwrap(), a, b),
                c,
            ),
            p,
        ),
{
    let l = joined_trees(joint(level, toks[px]).unwrap(), a, b);
    let t = joined_trees(joint(level, toks[py]).unwrap(), l, c);
    assert(p_chain_rest(n, toks, p, level, t) == Ok::<(Tree, int), Failure>((t, p)));
    assert(p_chain_rest(n, toks, py, level, l) == p_chain_rest(n, toks, p, level, t));
    assert(p_chain_rest(n, toks, px, level, a) == p_chain_rest(n, toks, py, level, l));
    assert(p_chain(n, toks, 0, level) == p_chain_rest(n, toks, px, level, a));
}

/// Two operators of their levels between three operands.
proof fn lemma_levels(
    n: nat,
    toks: Seq<Lexeme>,
    px: int,
    py: int,
    p: int,
    lx: nat,
    ly: nat,
    a: Tree,
    b: Tree,
    c: Tree,
)
    requires
        0 < px < py - 1,
        py < p < toks.len(),
        1 <= lx <= 6,
        1 <= ly <= 6,
        only_at(toks[px], lx),
        only_at(toks[py], ly),
        only_at(toks[p], 0),
        gives(n, toks, 0, (lx - 1) as nat, a, px),
        gives(
            n,
            toks,
            px + 1,
            if lx <= ly {
                (lx - 1) as nat
            } else {
                (ly - 1) as nat
            },
            b,
            py,
        ),
        gives(n, toks, py + 1, (ly - 1) as nat, c, p),
    ensures
        gives(
            n,
            toks,
            0,
            6,
            if lx <= ly {
                joined_trees(
                    joint(ly, toks[py]).unwrap(),
                    joined_trees(joint(lx, toks[px]).unwrap(), a, b),
                    c,
                )
            } else {
                joined_trees(
                    joint(lx, toks[px]).unwrap(),
                    a,
                    joined_trees(joint(ly, toks[py]).unwrap(), b, c),
                )
            },
            p,
        ),
{
    assert(joint(lx, toks[px]) is Some && joint(ly, toks[py]) is Some);
    assert(joint(lx, toks[p]) is None && joint(ly, toks[p]) is None);
    if lx == ly {
        lemma_three(n, toks, px, py, p, lx, a, b, c);
        let t = p_chain(n, toks, 0, lx)->Ok_0.0;
        lemma_risen(n, toks, 0, lx, 6, t, p);
    } else if lx < ly {
        assert(joint(lx, toks[py]) is None);
        lemma_two(n, toks, 0, px, py, lx, a, b);
        let l = p_chain(n, toks, 0, lx)->Ok_0.0;
        lemma_risen(n, toks, 0, lx, (ly - 1) as nat, l, py);
        lemma_two(n, toks, 0, py, p, ly, l, c);
        let t = p_chain(n, toks, 0, ly)->Ok_0.0;
        lemma_risen(n, toks, 0, ly, 6, t, p);
    } else {
        lemma_two(n, toks, px + 1, py, p, ly, b, c);
        let r = p_chain(n, toks, px + 1, ly)->Ok_0.0;
        lemma_risen(n, toks, px + 1, ly, (lx - 1) as nat, r, p);
        lemma_two(n, toks, 0, px, p, lx, a, r);
        let t = p_chain(n, toks, 0, lx)->Ok_0.0;
        lemma_risen(n, toks, 0, lx, 6, t, p);
    }
}

/// Two operators between three operands: the one that binds tighter is applied first,
/// and of two that bind alike the left one. So `a * b + c` is `(a * b) + c`,
/// `a + b * c` is `a + (b * c)`, and `a - b - c` is `(a - b) - c`.
pub proof fn law_precedence(a: Operand, x: Sign, b: Operand, y: Sign, c: Operand)
    requires
        is_operand(a),
        is_operand(b),
        is_operand(c),
    ensures
        parse_tree(chain_text(a, x, b, y, c)) == Ok::<Tree, Failure>(
            if strength(x) >= strength(y) {
                sign_tree(y, sign_tree(x, operand_tree(a), operand_tree(b)), operand_tree(c))
            } else {
                sign_tree(x, operand_tree(a), sign_tree(y, operand_tree(b), operand_tree(c)))
            },
        ),
{
    let source = chain_text(a, x, b, y, c);
    let n = source.len();
    lemma_chain_tokens(a, x, b, y, c);
    lemma_sign_level(x);
    lemma_sign_level(y);
    lemma_chain_parses(
        n,
        a,
        b,
        c,
        sign_token(x),
        sign_token(y),
        sign_level(x),
        sign_level(y),
    );
    let (ka, kb, kc) = (operand_tokens(a), operand_tokens(b), operand_tokens(c));
    let toks = ka + seq![sign_token(x)] + kb + seq![sign_token(y)] + kc + seq![
        Lexeme::Fixed(Token::Eof),
    ];
    let p = (ka.len() + kb.len() + kc.len() + 2) as int;
    assert(toks[p] == Lexeme::Fixed(Token::Eof));
    let t = p_chain(n, toks, 0, 6)->Ok_0.0;
    lemma_whole_source(source, toks, t, p);
}

/// Parsing the tokens of three operands with two operators between them.
proof fn lemma_chain_parses(
    n: nat,
    a: Operand,
    b: Operand,
    c: Operand,
    x: Lexeme,
    y: Lexeme,
    lx: nat,
    ly: nat,
)
    requires
        is_operand(a),
        is_operand(b),
        is_operand(c),
        1 <= lx <= 6,
        1 <= ly <= 6,
        only_at(x, lx),
        only_at(y, ly),
        x != Lexeme::Fixed(Token::Dot),
        x != Lexeme::Fixed(Token::LBracket),
        y != Lexeme::Fixed(Token::Dot),
        y != Lexeme::Fixed(Token::LBracket),
    ensures
        ({
            let (ka, kb, kc) = (operand_tokens(a), operand_tokens(b), operand_tokens(c));
            let toks = ka + seq![x] + kb + seq![y] + kc + seq![Lexeme::Fixed(Token::Eof)];
            let (ta, tb, tc) = (operand_tree(a), operand_tree(b), operand_tree(c));
            gives(
                n,
                toks,
                0,
                6,
                if lx <= ly {
                    joined_trees(
                        joint(ly, y).unwrap(),
                        joined_trees(joint(lx, x).unwrap(), ta, tb),
                        tc,
                    )
                } else {
                    joined_trees(
                        joint(lx, x).unwrap(),
                        ta,
                        joined_trees(joint(ly, y).unwrap(), tb, tc),
                    )
                },
                (ka.len() + kb.len() + kc.len() + 2) as int,
            )
        }),
{
    let (ka, kb, kc) = (operand_tokens(a), operand_tokens(b), operand_tokens(c));
    let end = Lexeme::Fixed(Token::Eof);
    let toks = ka + seq![x] + kb + seq![y] + kc + seq![end];
    let px = ka.len() as int;
    let py = px + 1 + kb.len();
    let p = py + 1 + kc.len();
    reveal(operand_tokens);
    assert(ka.len() > 0 && kb.len() > 0 && kc.len() > 0);
    assert(toks.len() == p + 1);
    assert(toks[px] == x && toks[py] == y && toks[p] == end);
    assert(toks.subrange(0, 0int + ka.len()) =~= ka);
    assert(toks.subrange(px + 1, px + 1 + kb.len()) =~= kb);
    assert(toks.subrange(py + 1, py + 1 + kc.len()) =~= kc);
    assert(only_at(end, 0));
    lemma_parse_operand(a, n, toks, 0, (lx - 1) as nat);
    lemma_parse_operand(
        b,
        n,
        toks,
        px + 1,
        if lx <= ly {
            (lx - 1) as nat
        } else {
            (ly - 1) as nat
        },
    );
    lemma_parse_operand(c, n, toks, py + 1, (ly - 1) as nat);
    lemma_levels(
        n,
        toks,
        px,
        py,
        p,
        lx,
        ly,
        operand_tree(a),
        operand_tree(b),
        operand_tree(c),
    );
}

/// Every product binds tighter than every sum, on either side of it, and both join to
/// the left.
pub proof fn law_product_before_sum(
    a: Operand,
    b: Operand,
    c: Operand,
    plus: Seq<char>,
    sum: BinOp,
    times: Seq<char>,
    product: BinOp,
)
    requires
        is_operand(a),
        is_operand(b),
        is_operand(c),
        (plus == "+"@ && sum == BinOp::Add) || (plus == "-"@ && sum == BinOp::Sub),
        (times == "*"@ && product == BinOp::Mul) || (times == "/"@ && product == BinOp::Div) || (
        times == "%"@ && product == BinOp::Mod),
    ensures
        ({
            let (x, y, z) = (operand_text(a), operand_text(b), operand_text(c));
            let (p, q, r) = (
                Box::new(operand_tree(a)),
                Box::new(operand_tree(b)),
                Box::new(operand_tree(c)),
            );
            let gap = " "@;
            &&& parse_tree(x + gap + plus + gap + y + gap + times + gap + z) == Ok::<
                Tree,
                Failure,
            >(Tree::Binary(sum, p, Box::new(Tree::Binary(product, q, r))))
            &&& parse_tree(x + gap + times + gap + y + gap + plus + gap + z) == Ok::<
                Tree,
                Failure,
            >(Tree::Binary(sum, Box::new(Tree::Binary(product, p, q)), r))
            &&& parse_tree(x + gap + plus + gap + y + gap + plus + gap + z) == Ok::<
                Tree,
                Failure,
            >(Tree::Binary(sum, Box::new(Tree::Binary(sum, p, q)), r))
            &&& parse_tree(x + gap + times + gap + y + gap + times + gap + z) == Ok::<
                Tree,
                Failure,
            >(Tree::Binary(product, Box::new(Tree::Binary(product, p, q)), r))
        }),
{
    let u = if sum == BinOp::Add {
        Sign::Plus
    } else {
        Sign::Minus
    };
    let v = if product == BinOp::Mul {
        Sign::Times
    } else if product == BinOp::Div {
        Sign::Over
    } else {
        Sign::Modulo
    };
    law_precedence(a, u, b, v, c);
    law_precedence(a, v, b, u, c);
    law_precedence(a, u, b, u, c);
    law_precedence(a, v, b, v, c);
}

} // verus!
