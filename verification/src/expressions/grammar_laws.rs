//! What the forms of sources are parsed to.
//!
//! The sources are words with a space between each two of them: operands without
//! operators, symbols and names.
use crate::expressions::ast::{BinOp, Key, Tree, UnaryOp};
use crate::expressions::error::Failure;
use crate::expressions::eval::{Stream, is_function};
use crate::expressions::laws::is_identifier;
use crate::expressions::lexer::{
    Lexeme, Token, blank_end, double_symbol, single_symbol, tokens_from, tokens_of,
};
use crate::expressions::literals::{
    led, lemma_end, lemma_lifted_base, lemma_no_blank, lemma_one_blank, lemma_single,
    lemma_stands_at, lemma_tokens_at, lemma_word, stands_at, tokens_at,
};
use crate::expressions::parser::{
    p_after, p_args, p_array, p_base, p_branch, p_chain, p_dot, p_else, p_expr, p_expr_rest, p_if,
    p_index, p_key, p_name, p_object, p_postfix, p_tail, p_unary, parse_tree, spliced,
};
use crate::expressions::precedence::{
    Operand, gives, is_operand, lemma_lex_operand, lemma_operand_start, lemma_parse_operand,
    lemma_risen, lemma_two, only_at, operand_text, operand_tokens, operand_tree,
};
use crate::json::Json;
use crate::text::is_space;
use vstd::prelude::*;

verus! {

/// A word of a source.
pub ghost enum Word {
    /// An operand without operators.
    Operand(Operand),
    /// A symbol of one character.
    Symbol(char),
    /// A name.
    Name(Seq<char>),
}

/// Whether a word is what its kind says.
pub open spec fn is_word(w: Word) -> bool {
    match w {
        Word::Operand(o) => is_operand(o),
        Word::Symbol(c) => c == '(' || c == ')' || c == '[' || c == ']' || c == '{' || c == '}' || c
            == ',' || c == ':' || c == ';' || c == '+' || c == '-' || c == '*' || c == '|',
        Word::Name(name) => is_identifier(name),
    }
}

/// The notation of a word.
pub open spec fn word_text(w: Word) -> Seq<char> {
    match w {
        Word::Operand(o) => operand_text(o),
        Word::Symbol(c) => seq![c],
        Word::Name(name) => name,
    }
}

/// A source of words, from one of them on, with a space between each two of them.
pub open spec fn spaced_from(words: Seq<Word>, i: int) -> Seq<char>
    decreases words.len() - i,
{
    if i < 0 || i >= words.len() {
        Seq::empty()
    } else if i + 1 == words.len() {
        word_text(words[i])
    } else {
        word_text(words[i]) + seq![' '] + spaced_from(words, i + 1)
    }
}

/// A source of words with a space between each two of them.
pub open spec fn spaced(words: Seq<Word>) -> Seq<char> {
    spaced_from(words, 0)
}

/// The tokens of a word.
spec fn word_tokens(w: Word) -> Seq<Lexeme> {
    match w {
        Word::Operand(o) => operand_tokens(o),
        Word::Symbol(c) => seq![Lexeme::Fixed(single_symbol(c).unwrap())],
        Word::Name(name) => seq![Lexeme::Ident(name)],
    }
}

/// The tokens of words, from one of them on, and the end.
spec fn tokens_behind(words: Seq<Word>, i: int) -> Seq<Lexeme>
    decreases words.len() - i,
{
    if i < 0 || i >= words.len() {
        seq![Lexeme::Fixed(Token::Eof)]
    } else {
        word_tokens(words[i]) + tokens_behind(words, i + 1)
    }
}

/// The tokens of words, and the end.
spec fn spaced_tokens(words: Seq<Word>) -> Seq<Lexeme> {
    tokens_behind(words, 0)
}

/// The notation of a word starts with a character that is not skipped.
proof fn lemma_word_start(w: Word)
    requires
        is_word(w),
    ensures
        word_text(w).len() > 0,
        !is_space(word_text(w)[0]),
        word_text(w)[0] != '#',
{
    match w {
        Word::Operand(o) => lemma_operand_start(o),
        _ => {},
    }
}

/// Lexing a word before a space or the end.
proof fn lemma_lex_word(w: Word, s: Seq<char>, pos: int, p: int)
    requires
        is_word(w),
        0 <= pos <= p,
        blank_end(s, pos) == p,
        stands_at(s, p, word_text(w)),
        p + word_text(w).len() < s.len() ==> s[p + word_text(w).len()] == ' ',
    ensures
        tokens_from(s, pos) == led(word_tokens(w), tokens_from(s, p + word_text(w).len())),
{
    let t = word_text(w);
    lemma_stands_at(s, p, t);
    match w {
        Word::Operand(o) => lemma_lex_operand(o, s, pos, p),
        Word::Symbol(c) => {
            assert(s[p + 0] == t[0]);
            assert(double_symbol(c, ' ') is None);
            lemma_single(s, pos, p);
        },
        Word::Name(name) => lemma_word(s, pos, p, name),
    }
}

/// Lexing words from a position.
proof fn lemma_lex_spaced(words: Seq<Word>, k: int, s: Seq<char>, pos: int, p: int)
    requires
        0 <= k < words.len(),
        forall|i: int| 0 <= i < words.len() ==> is_word(#[trigger] words[i]),
        0 <= pos <= p <= s.len(),
        blank_end(s, pos) == p,
        s.skip(p) == spaced_from(words, k),
    ensures
        tokens_from(s, pos) == Ok::<Seq<Lexeme>, Failure>(tokens_behind(words, k)),
    decreases words.len() - k,
{
    let w = words[k];
    let t = word_text(w);
    let tail = s.skip(p);
    lemma_word_start(w);
    let q = p + t.len();
    if k + 1 == words.len() {
        assert(s.len() == q);
        assert(s.subrange(p, q) =~= tail);
        lemma_lex_word(w, s, pos, p);
        lemma_no_blank(s, q);
        lemma_end(s, q);
        assert(tokens_behind(words, k + 1) == seq![Lexeme::Fixed(Token::Eof)]);
    } else {
        let more = spaced_from(words, k + 1);
        assert(tail == t + seq![' '] + more);
        assert(s.subrange(p, q) =~= t) by {
            assert forall|i: int| 0 <= i < t.len() implies s.subrange(p, q)[i] == t[i] by {
                assert(tail[i] == s[p + i]);
            }
        }
        assert(s[q] == ' ') by {
            assert(tail[t.len() as int] == s[q]);
        }
        lemma_lex_word(w, s, pos, p);
        assert(is_word(words[k + 1]));
        lemma_word_start(words[k + 1]);
        assert(s.skip(q + 1) =~= more) by {
            assert forall|i: int| 0 <= i < more.len() implies s.skip(q + 1)[i] == more[i] by {
                assert(tail[t.len() + 1 + i] == s[q + 1 + i]);
            }
        }
        assert(more.len() > 0 && more[0] == word_text(words[k + 1])[0]);
        assert(s.skip(q + 1)[0] == s[q + 1]);
        lemma_one_blank(s, q);
        lemma_lex_spaced(words, k + 1, s, q, q + 1);
    }
}

/// The tokens of a source of words.
proof fn lemma_spaced_tokens(words: Seq<Word>)
    requires
        words.len() > 0,
        forall|i: int| 0 <= i < words.len() ==> is_word(#[trigger] words[i]),
    ensures
        tokens_of(spaced(words)) == Ok::<Seq<Lexeme>, Failure>(spaced_tokens(words)),
{
    let s = spaced(words);
    lemma_word_start(words[0]);
    assert(s[0] == word_text(words[0])[0]);
    lemma_no_blank(s, 0);
    assert(s.skip(0) =~= s);
    lemma_lex_spaced(words, 0, s, 0, 0);
}

/// Where the tokens of a word start.
spec fn place(words: Seq<Word>, i: int) -> int
    decreases i,
{
    if i <= 0 {
        0
    } else {
        place(words, i - 1) + word_tokens(words[i - 1]).len()
    }
}

/// Behind the tokens of some words stand those of the others.
proof fn lemma_behind(words: Seq<Word>, i: int)
    requires
        0 <= i <= words.len(),
    ensures
        0 <= place(words, i) <= spaced_tokens(words).len(),
        spaced_tokens(words).skip(place(words, i)) == tokens_behind(words, i),
    decreases i,
{
    let toks = spaced_tokens(words);
    if i == 0 {
        assert(toks.skip(0) =~= toks);
    } else {
        lemma_behind(words, i - 1);
        let p = place(words, i - 1);
        let part = word_tokens(words[i - 1]);
        let rest = tokens_behind(words, i);
        assert(tokens_behind(words, i - 1) == part + rest);
        assert(toks.skip(p).len() == part.len() + rest.len());
        assert(toks.skip(p + part.len()) =~= toks.skip(p).skip(part.len() as int));
        assert((part + rest).skip(part.len() as int) =~= rest);
    }
}

/// The tokens of a word at their place, or the end behind the last word.
proof fn lemma_layout(words: Seq<Word>, i: int)
    requires
        0 <= i <= words.len(),
    ensures
        i < words.len() ==> {
            let p = place(words, i);
            &&& tokens_at(spaced_tokens(words), p, word_tokens(words[i]))
            &&& place(words, i + 1) == p + word_tokens(words[i]).len()
            &&& 0 <= p
            &&& p + word_tokens(words[i]).len() < spaced_tokens(words).len()
            &&& word_tokens(words[i]).len() > 0 ==> spaced_tokens(words)[p] == word_tokens(
                words[i],
            )[0]
        },
        i == words.len() ==> {
            let p = place(words, i);
            &&& spaced_tokens(words).len() == p + 1
            &&& spaced_tokens(words)[p] == Lexeme::Fixed(Token::Eof)
        },
        place(words, 0) == 0,
{
    let toks = spaced_tokens(words);
    let p = place(words, i);
    lemma_behind(words, i);
    let rest = tokens_behind(words, i);
    assert(toks.skip(p) == rest);
    if i < words.len() {
        let part = word_tokens(words[i]);
        let more = tokens_behind(words, i + 1);
        assert(rest == part + more);
        lemma_behind(words, i + 1);
        assert(more.len() > 0) by {
            if i + 1 < words.len() {
                lemma_some_token(words, i + 1);
            }
        }
        assert(toks.subrange(p, p + part.len()) =~= part) by {
            assert forall|k: int| 0 <= k < part.len() implies toks.subrange(
                p,
                p + part.len(),
            )[k] == part[k] by {
                assert(toks.skip(p)[k] == toks[p + k]);
            }
        }
        if part.len() > 0 {
            assert(toks.skip(p)[0] == toks[p]);
        }
    } else {
        assert(rest == seq![Lexeme::Fixed(Token::Eof)]);
        assert(rest.len() == 1);
        assert(toks.skip(p)[0] == toks[p]);
    }
}

/// There is always a token, the end at least.
proof fn lemma_some_token(words: Seq<Word>, i: int)
    ensures
        tokens_behind(words, i).len() > 0,
    decreases words.len() - i,
{
    if 0 <= i < words.len() {
        lemma_some_token(words, i + 1);
    }
}

/// The first token of an operand.
proof fn lemma_first_of(o: Operand)
    ensures
        operand_tokens(o).len() > 0,
        operand_tokens(o)[0] != Lexeme::Fixed(Token::RBracket),
        operand_tokens(o)[0] != Lexeme::Fixed(Token::RParen),
        operand_tokens(o)[0] != Lexeme::Fixed(Token::RBrace),
        operand_tokens(o)[0] != Lexeme::Fixed(Token::Minus),
        operand_tokens(o)[0] != Lexeme::Ident("not"@),
        !(operand_tree(o) is Stream),
{
    reveal(operand_tokens);
}

/// Whether a token ends an operand: nothing goes on with it.
spec fn closes(l: Lexeme) -> bool {
    &&& only_at(l, 0)
    &&& l != Lexeme::Fixed(Token::Dot)
    &&& l != Lexeme::Fixed(Token::LBracket)
}

/// An operand before a token that ends it.
proof fn lemma_alone(o: Operand, n: nat, toks: Seq<Lexeme>, pos: int)
    requires
        is_operand(o),
        tokens_at(toks, pos, operand_tokens(o)),
        closes(toks[pos + operand_tokens(o).len()]),
    ensures
        gives(n, toks, pos, 6, operand_tree(o), pos + operand_tokens(o).len()),
        toks[pos + operand_tokens(o).len()] != Lexeme::Fixed(Token::Comma) ==> p_expr(
            n,
            toks,
            pos,
        ) == Ok::<(Tree, int), Failure>((operand_tree(o), pos + operand_tokens(o).len())),
{
    let p = pos + operand_tokens(o).len();
    let t = operand_tree(o);
    lemma_parse_operand(o, n, toks, pos, 6);
    if toks[p] != Lexeme::Fixed(Token::Comma) {
        assert(p_expr_rest(n, toks, p, seq![t]) == Ok::<(Tree, int), Failure>((t, p)));
        assert(p_expr(n, toks, pos) == p_expr_rest(n, toks, p, seq![t]));
    }
}

/// The tree of a source of words that are one comma expression and the end.
proof fn lemma_source(words: Seq<Word>, t: Tree, p: int)
    requires
        words.len() > 0,
        forall|i: int| 0 <= i < words.len() ==> is_word(#[trigger] words[i]),
        p_expr(spaced(words).len(), spaced_tokens(words), 0) == Ok::<(Tree, int), Failure>((t, p)),
        0 <= p < spaced_tokens(words).len(),
        spaced_tokens(words)[p] == Lexeme::Fixed(Token::Eof),
    ensures
        parse_tree(spaced(words)) == Ok::<Tree, Failure>(t),
{
    reveal(parse_tree);
    lemma_spaced_tokens(words);
}

/// A chain that is followed by the end is the whole expression.
proof fn lemma_chain_source(words: Seq<Word>, t: Tree, p: int)
    requires
        words.len() > 0,
        forall|i: int| 0 <= i < words.len() ==> is_word(#[trigger] words[i]),
        gives(spaced(words).len(), spaced_tokens(words), 0, 6, t, p),
        0 < p < spaced_tokens(words).len(),
        spaced_tokens(words)[p] == Lexeme::Fixed(Token::Eof),
    ensures
        parse_tree(spaced(words)) == Ok::<Tree, Failure>(t),
{
    let n = spaced(words).len();
    let toks = spaced_tokens(words);
    assert(p_expr_rest(n, toks, p, seq![t]) == Ok::<(Tree, int), Failure>((t, p)));
    assert(p_expr(n, toks, 0) == p_expr_rest(n, toks, p, seq![t]));
    lemma_source(words, t, p);
}

/// A base that is followed by the end is the whole expression.
proof fn lemma_base_source(words: Seq<Word>, t: Tree, p: int)
    requires
        words.len() > 0,
        forall|i: int| 0 <= i < words.len() ==> is_word(#[trigger] words[i]),
        p_base(spaced(words).len(), spaced_tokens(words), 0) == Ok::<(Tree, int), Failure>((t, p)),
        0 < p < spaced_tokens(words).len(),
        spaced_tokens(words)[p] == Lexeme::Fixed(Token::Eof),
        spaced_tokens(words)[0] != Lexeme::Ident("not"@),
        spaced_tokens(words)[0] != Lexeme::Fixed(Token::Minus),
    ensures
        parse_tree(spaced(words)) == Ok::<Tree, Failure>(t),
{
    let n = spaced(words).len();
    let toks = spaced_tokens(words);
    lemma_lifted_base(n, toks, 0, 6, t, p);
    lemma_chain_source(words, t, p);
}

// ---------------------------------------------------------------------------
// Laws
// ---------------------------------------------------------------------------

/// Parentheses come before precedence: `( a + b ) * c` is the product of the sum.
pub proof fn law_parentheses(a: Operand, b: Operand, c: Operand)
    requires
        is_operand(a),
        is_operand(b),
        is_operand(c),
    ensures
        parse_tree(
            spaced(
                seq![
                    Word::Symbol('('),
                    Word::Operand(a),
                    Word::Symbol('+'),
                    Word::Operand(b),
                    Word::Symbol(')'),
                    Word::Symbol('*'),
                    Word::Operand(c),
                ],
            ),
        ) == Ok::<Tree, Failure>(
            Tree::Binary(
                BinOp::Mul,
                Box::new(
                    Tree::Binary(
                        BinOp::Add,
                        Box::new(operand_tree(a)),
                        Box::new(operand_tree(b)),
                    ),
                ),
                Box::new(operand_tree(c)),
            ),
        ),
{
    let words = seq![
        Word::Symbol('('),
        Word::Operand(a),
        Word::Symbol('+'),
        Word::Operand(b),
        Word::Symbol(')'),
        Word::Symbol('*'),
        Word::Operand(c),
    ];
    let n = spaced(words).len();
    lemma_first_of(a);
    lemma_first_of(b);
    lemma_first_of(c);
    let toks = spaced_tokens(words);
    lemma_layout(words, 0);
    lemma_layout(words, 1);
    lemma_layout(words, 2);
    lemma_layout(words, 3);
    lemma_layout(words, 4);
    lemma_layout(words, 5);
    lemma_layout(words, 6);
    lemma_layout(words, 7);
    let px = place(words, 2);
    let py = place(words, 4);
    let p = place(words, 7);
    assert(toks[py + 1] == Lexeme::Fixed(Token::Star));
    assert(only_at(toks[px], 2) && only_at(toks[py], 0) && only_at(toks[py + 1], 1) && only_at(
        toks[p],
        0,
    ));
    let (ta, tb, tc) = (operand_tree(a), operand_tree(b), operand_tree(c));
    lemma_parse_operand(a, n, toks, 1, 1);
    lemma_parse_operand(b, n, toks, px + 1, 1);
    lemma_two(n, toks, 1, px, py, 2, ta, tb);
    let sum = Tree::Binary(BinOp::Add, Box::new(ta), Box::new(tb));
    lemma_risen(n, toks, 1, 2, 6, sum, py);
    assert(p_expr_rest(n, toks, py, seq![sum]) == Ok::<(Tree, int), Failure>((sum, py)));
    assert(p_expr(n, toks, 1) == Ok::<(Tree, int), Failure>((sum, py)));
    assert(p_base(n, toks, 0) == Ok::<(Tree, int), Failure>((sum, py + 1)));
    assert(p_postfix(n, toks, py + 1, sum) == Ok::<(Tree, int), Failure>((sum, py + 1)));
    assert(p_unary(n, toks, 0) == Ok::<(Tree, int), Failure>((sum, py + 1)));
    assert(gives(n, toks, 0, 0, sum, py + 1));
    lemma_parse_operand(c, n, toks, py + 2, 0);
    lemma_two(n, toks, 0, py + 1, p, 1, sum, tc);
    let t = Tree::Binary(BinOp::Mul, Box::new(sum), Box::new(tc));
    lemma_risen(n, toks, 0, 1, 6, t, p);
    lemma_chain_source(words, t, p);
}

/// A minus before an operand binds tighter than a product.
pub proof fn law_negation_first(a: Operand, b: Operand)
    requires
        is_operand(a),
        is_operand(b),
    ensures
        parse_tree(
            spaced(
                seq![
                    Word::Symbol('-'),
                    Word::Operand(a),
                    Word::Symbol('*'),
                    Word::Operand(b),
                ],
            ),
        ) == Ok::<Tree, Failure>(
            Tree::Binary(
                BinOp::Mul,
                Box::new(Tree::Unary(UnaryOp::Negate, Box::new(operand_tree(a)))),
                Box::new(operand_tree(b)),
            ),
        ),
{
    let words = seq![Word::Symbol('-'), Word::Operand(a), Word::Symbol('*'), Word::Operand(b)];
    let n = spaced(words).len();
    lemma_first_of(a);
    lemma_first_of(b);
    let toks = spaced_tokens(words);
    lemma_layout(words, 0);
    lemma_layout(words, 1);
    lemma_layout(words, 2);
    lemma_layout(words, 3);
    lemma_layout(words, 4);
    let px = place(words, 2);
    let p = place(words, 4);
    assert(only_at(toks[px], 1) && only_at(toks[p], 0));
    lemma_parse_operand(a, n, toks, 1, 0);
    let neg = Tree::Unary(UnaryOp::Negate, Box::new(operand_tree(a)));
    assert(p_unary(n, toks, 1) == Ok::<(Tree, int), Failure>((operand_tree(a), px)));
    assert(p_unary(n, toks, 0) == Ok::<(Tree, int), Failure>((neg, px)));
    assert(gives(n, toks, 0, 0, neg, px));
    lemma_parse_operand(b, n, toks, px + 1, 0);
    lemma_two(n, toks, 0, px, p, 1, neg, operand_tree(b));
    let t = Tree::Binary(BinOp::Mul, Box::new(neg), Box::new(operand_tree(b)));
    lemma_risen(n, toks, 0, 1, 6, t, p);
    lemma_chain_source(words, t, p);
}

/// `not` before an operand binds tighter than `and`.
pub proof fn law_not_first(a: Operand, b: Operand)
    requires
        is_operand(a),
        is_operand(b),
    ensures
        parse_tree(
            spaced(
                seq![
                    Word::Name("not"@),
                    Word::Operand(a),
                    Word::Name("and"@),
                    Word::Operand(b),
                ],
            ),
        ) == Ok::<Tree, Failure>(
            Tree::Binary(
                BinOp::And,
                Box::new(Tree::Unary(UnaryOp::Not, Box::new(operand_tree(a)))),
                Box::new(operand_tree(b)),
            ),
        ),
{
    reveal_strlit("not");
    reveal_strlit("and");
    reveal_strlit("or");
    assert("or"@.len() == 2 && "and"@.len() == 3 && "not"@.len() == 3);
    let words = seq![
        Word::Name("not"@),
        Word::Operand(a),
        Word::Name("and"@),
        Word::Operand(b),
    ];
    let n = spaced(words).len();
    lemma_first_of(a);
    lemma_first_of(b);
    let toks = spaced_tokens(words);
    lemma_layout(words, 0);
    lemma_layout(words, 1);
    lemma_layout(words, 2);
    lemma_layout(words, 3);
    lemma_layout(words, 4);
    let px = place(words, 2);
    let p = place(words, 4);
    assert(only_at(toks[px], 4) && only_at(toks[p], 0));
    lemma_parse_operand(a, n, toks, 1, 0);
    let not = Tree::Unary(UnaryOp::Not, Box::new(operand_tree(a)));
    assert(p_unary(n, toks, 1) == Ok::<(Tree, int), Failure>((operand_tree(a), px)));
    assert(p_unary(n, toks, 0) == Ok::<(Tree, int), Failure>((not, px)));
    assert(gives(n, toks, 0, 0, not, px));
    lemma_risen(n, toks, 0, 0, 3, not, px);
    lemma_parse_operand(b, n, toks, px + 1, 3);
    lemma_two(n, toks, 0, px, p, 4, not, operand_tree(b));
    let t = Tree::Binary(BinOp::And, Box::new(not), Box::new(operand_tree(b)));
    lemma_risen(n, toks, 0, 4, 6, t, p);
    lemma_chain_source(words, t, p);
}

/// A comma between operands makes a stream of both.
pub proof fn law_comma(a: Operand, b: Operand)
    requires
        is_operand(a),
        is_operand(b),
    ensures
        parse_tree(
            spaced(seq![Word::Operand(a), Word::Symbol(','), Word::Operand(b)]),
        ) == Ok::<Tree, Failure>(Tree::Stream(seq![operand_tree(a), operand_tree(b)])),
{
    let words = seq![Word::Operand(a), Word::Symbol(','), Word::Operand(b)];
    let n = spaced(words).len();
    lemma_first_of(a);
    lemma_first_of(b);
    let toks = spaced_tokens(words);
    lemma_layout(words, 0);
    lemma_layout(words, 1);
    lemma_layout(words, 2);
    lemma_layout(words, 3);
    let px = place(words, 1);
    let p = place(words, 3);
    assert(closes(toks[px]) && closes(toks[p]));
    lemma_alone(a, n, toks, 0);
    lemma_alone(b, n, toks, px + 1);
    let (ta, tb) = (operand_tree(a), operand_tree(b));
    lemma_comma(n, toks, px, p, ta, tb);
    lemma_source(words, Tree::Stream(seq![ta, tb]), p);
}

/// Two chains with a comma between them.
proof fn lemma_comma(n: nat, toks: Seq<Lexeme>, px: int, p: int, ta: Tree, tb: Tree)
    requires
        0 < px < p < toks.len(),
        gives(n, toks, 0, 6, ta, px),
        gives(n, toks, px + 1, 6, tb, p),
        toks[px] == Lexeme::Fixed(Token::Comma),
        toks[p] == Lexeme::Fixed(Token::Eof),
    ensures
        p_expr(n, toks, 0) == Ok::<(Tree, int), Failure>((Tree::Stream(seq![ta, tb]), p)),
{
    let t = Tree::Stream(seq![ta, tb]);
    assert(seq![ta].push(tb) =~= seq![ta, tb]);
    assert(p_expr_rest(n, toks, p, seq![ta, tb]) == Ok::<(Tree, int), Failure>((t, p)));
    assert(p_expr_rest(n, toks, px, seq![ta]) == p_expr_rest(n, toks, p, seq![ta, tb]));
    assert(p_expr(n, toks, 0) == p_expr_rest(n, toks, px, seq![ta]));
}

/// Brackets around operands make an array of them.
pub proof fn law_array_source(a: Operand, b: Operand)
    requires
        is_operand(a),
        is_operand(b),
    ensures
        parse_tree(
            spaced(
                seq![
                    Word::Symbol('['),
                    Word::Operand(a),
                    Word::Symbol(','),
                    Word::Operand(b),
                    Word::Symbol(']'),
                ],
            ),
        ) == Ok::<Tree, Failure>(Tree::Array(seq![operand_tree(a), operand_tree(b)])),
        parse_tree(spaced(seq![Word::Symbol('['), Word::Symbol(']')])) == Ok::<Tree, Failure>(
            Tree::Array(Seq::empty()),
        ),
{
    let words = seq![
        Word::Symbol('['),
        Word::Operand(a),
        Word::Symbol(','),
        Word::Operand(b),
        Word::Symbol(']'),
    ];
    let n = spaced(words).len();
    let ka = operand_tokens(a);
    lemma_first_of(a);
    lemma_first_of(b);
    let toks = spaced_tokens(words);
    lemma_layout(words, 0);
    lemma_layout(words, 1);
    lemma_layout(words, 2);
    lemma_layout(words, 3);
    lemma_layout(words, 4);
    lemma_layout(words, 5);
    let px = place(words, 2);
    let p = place(words, 4);
    assert(closes(toks[px]) && closes(toks[p]));
    lemma_alone(a, n, toks, 1);
    lemma_alone(b, n, toks, px + 1);
    let (ta, tb) = (operand_tree(a), operand_tree(b));
    assert(toks[1] == ka[0]);
    lemma_array(n, toks, px, p, ta, tb);
    lemma_base_source(words, Tree::Array(seq![ta, tb]), p + 1);
    lemma_no_items();
}

/// Two chains in brackets.
proof fn lemma_array(n: nat, toks: Seq<Lexeme>, px: int, p: int, ta: Tree, tb: Tree)
    requires
        1 < px < p,
        p + 1 < toks.len(),
        toks[0] == Lexeme::Fixed(Token::LBracket),
        toks[1] != Lexeme::Fixed(Token::RBracket),
        gives(n, toks, 1, 6, ta, px),
        gives(n, toks, px + 1, 6, tb, p),
        toks[px] == Lexeme::Fixed(Token::Comma),
        toks[p] == Lexeme::Fixed(Token::RBracket),
        !(ta is Stream),
        !(tb is Stream),
    ensures
        p_base(n, toks, 0) == Ok::<(Tree, int), Failure>((Tree::Array(seq![ta, tb]), p + 1)),
{
    let t = Tree::Array(seq![ta, tb]);
    let none = Seq::<Tree>::empty();
    assert(spliced(none, ta) =~= seq![ta]);
    assert(spliced(seq![ta], tb) =~= seq![ta, tb]);
    assert(p_array(n, toks, px + 1, seq![ta]) == Ok::<(Tree, int), Failure>((t, p + 1)));
    assert(p_array(n, toks, 1, none) == p_array(n, toks, px + 1, seq![ta]));
    assert(p_base(n, toks, 0) == p_array(n, toks, 1, none));
}

/// Brackets with nothing in them.
proof fn lemma_no_items()
    ensures
        parse_tree(spaced(seq![Word::Symbol('['), Word::Symbol(']')])) == Ok::<Tree, Failure>(
            Tree::Array(Seq::empty()),
        ),
{
    let none = Seq::<Tree>::empty();
    let pair = seq![Word::Symbol('['), Word::Symbol(']')];
    let few = seq![
        Lexeme::Fixed(Token::LBracket),
        Lexeme::Fixed(Token::RBracket),
        Lexeme::Fixed(Token::Eof),
    ];
    assert(spaced_tokens(pair) =~= few) by {
        reveal_with_fuel(tokens_behind, 4);
    }
    lemma_base_source(pair, Tree::Array(none), 2);
}

/// Braces around keys and operands make an object of them.
pub proof fn law_object_source(k: Seq<char>, a: Operand, m: Seq<char>, b: Operand)
    requires
        is_identifier(k),
        is_operand(a),
        is_identifier(m),
        is_operand(b),
    ensures
        parse_tree(
            spaced(
                seq![
                    Word::Symbol('{'),
                    Word::Name(k),
                    Word::Symbol(':'),
                    Word::Operand(a),
                    Word::Symbol(','),
                    Word::Name(m),
                    Word::Symbol(':'),
                    Word::Operand(b),
                    Word::Symbol('}'),
                ],
            ),
        ) == Ok::<Tree, Failure>(
            Tree::Object(
                seq![(Key::Ident(k), operand_tree(a)), (Key::Ident(m), operand_tree(b))],
            ),
        ),
{
    let words = seq![
        Word::Symbol('{'),
        Word::Name(k),
        Word::Symbol(':'),
        Word::Operand(a),
        Word::Symbol(','),
        Word::Name(m),
        Word::Symbol(':'),
        Word::Operand(b),
        Word::Symbol('}'),
    ];
    let n = spaced(words).len();
    lemma_first_of(a);
    lemma_first_of(b);
    let toks = spaced_tokens(words);
    lemma_layout(words, 0);
    lemma_layout(words, 1);
    lemma_layout(words, 2);
    lemma_layout(words, 3);
    lemma_layout(words, 4);
    lemma_layout(words, 5);
    lemma_layout(words, 6);
    lemma_layout(words, 7);
    lemma_layout(words, 8);
    lemma_layout(words, 9);
    let px = place(words, 4);
    let p = place(words, 8);
    assert(closes(toks[px]) && closes(toks[p]));
    lemma_alone(a, n, toks, 3);
    lemma_alone(b, n, toks, px + 3);
    let (ta, tb) = (operand_tree(a), operand_tree(b));
    lemma_object(n, toks, px, p, k, ta, m, tb);
    lemma_base_source(
        words,
        Tree::Object(seq![(Key::Ident(k), ta), (Key::Ident(m), tb)]),
        p + 1,
    );
}

/// Two members in braces.
proof fn lemma_object(
    n: nat,
    toks: Seq<Lexeme>,
    px: int,
    p: int,
    k: Seq<char>,
    ta: Tree,
    m: Seq<char>,
    tb: Tree,
)
    requires
        3 < px,
        px + 3 < p,
        p + 1 < toks.len(),
        toks[0] == Lexeme::Fixed(Token::LBrace),
        toks[1] == Lexeme::Ident(k),
        toks[2] == Lexeme::Fixed(Token::Colon),
        gives(n, toks, 3, 6, ta, px),
        toks[px] == Lexeme::Fixed(Token::Comma),
        toks[px + 1] == Lexeme::Ident(m),
        toks[px + 2] == Lexeme::Fixed(Token::Colon),
        gives(n, toks, px + 3, 6, tb, p),
        toks[p] == Lexeme::Fixed(Token::RBrace),
    ensures
        p_base(n, toks, 0) == Ok::<(Tree, int), Failure>(
            (Tree::Object(seq![(Key::Ident(k), ta), (Key::Ident(m), tb)]), p + 1),
        ),
{
    let none = Seq::<(Key, Tree)>::empty();
    let one = seq![(Key::Ident(k), ta)];
    let two = seq![(Key::Ident(k), ta), (Key::Ident(m), tb)];
    let t = Tree::Object(two);
    assert(none.push((Key::Ident(k), ta)) =~= one);
    assert(one.push((Key::Ident(m), tb)) =~= two);
    assert(p_key(n, toks, 1) == Ok::<(Key, int), Failure>((Key::Ident(k), 2)));
    assert(p_key(n, toks, px + 1) == Ok::<(Key, int), Failure>((Key::Ident(m), px + 2)));
    assert(p_object(n, toks, px + 1, one) == Ok::<(Tree, int), Failure>((t, p + 1)));
    assert(p_object(n, toks, 1, none) == p_object(n, toks, px + 1, one));
    assert(p_base(n, toks, 0) == p_object(n, toks, 1, none));
}

/// Brackets behind an operand select from it by what is in them, or iterate over it
/// where there is nothing in them; a field behind an operand is a field of it.
pub proof fn law_access_sources(a: Operand, b: Operand, name: Seq<char>)
    requires
        is_operand(a),
        is_operand(b),
        is_identifier(name),
    ensures
        parse_tree(
            spaced(
                seq![
                    Word::Operand(a),
                    Word::Symbol('['),
                    Word::Operand(b),
                    Word::Symbol(']'),
                ],
            ),
        ) == Ok::<Tree, Failure>(
            Tree::Index(Box::new(operand_tree(a)), Box::new(operand_tree(b))),
        ),
        parse_tree(
            spaced(seq![Word::Operand(a), Word::Symbol('['), Word::Symbol(']')]),
        ) == Ok::<Tree, Failure>(Tree::Iterate(Box::new(operand_tree(a)))),
        parse_tree(
            spaced(seq![Word::Operand(a), Word::Operand(Operand::Field(name))]),
        ) == Ok::<Tree, Failure>(Tree::Field(Box::new(operand_tree(a)), name)),
{
    lemma_index_source(a, b);
    lemma_iterate_source(a);
    lemma_field_source(a, name);
}

/// What an operand is before anything behind it.
proof fn lemma_operand_base(o: Operand, n: nat, toks: Seq<Lexeme>, pos: int)
    requires
        is_operand(o),
        tokens_at(toks, pos, operand_tokens(o)),
    ensures
        p_base(n, toks, pos) == Ok::<(Tree, int), Failure>(
            (operand_tree(o), pos + operand_tokens(o).len()),
        ),
        toks[pos] == operand_tokens(o)[0],
        toks[pos] != Lexeme::Ident("not"@),
        toks[pos] != Lexeme::Fixed(Token::Minus),
{
    reveal(operand_tokens);
    let part = operand_tokens(o);
    let p = pos + part.len();
    lemma_tokens_at(toks, pos, part);
    assert(toks[pos + 0] == part[0]);
    match o {
        Operand::Field(name) => {
            assert(toks[pos + 1] == part[1]);
            assert(p_dot(toks, pos) == Ok::<(Tree, int), Failure>((operand_tree(o), p)));
        },
        Operand::Variable(_) => {},
        Operand::Count(k) => {
            crate::double::law_integers_exact(k as int);
        },
    }
}

/// The tokens of a field.
proof fn lemma_field_tokens(name: Seq<char>)
    ensures
        operand_tokens(Operand::Field(name)) == seq![
            Lexeme::Fixed(Token::Dot),
            Lexeme::Ident(name),
        ],
{
    reveal(operand_tokens);
}

/// Selecting from an operand.
proof fn lemma_index_source(a: Operand, b: Operand)
    requires
        is_operand(a),
        is_operand(b),
    ensures
        parse_tree(
            spaced(
                seq![
                    Word::Operand(a),
                    Word::Symbol('['),
                    Word::Operand(b),
                    Word::Symbol(']'),
                ],
            ),
        ) == Ok::<Tree, Failure>(
            Tree::Index(Box::new(operand_tree(a)), Box::new(operand_tree(b))),
        ),
{
    let words = seq![Word::Operand(a), Word::Symbol('['), Word::Operand(b), Word::Symbol(']')];
    let n = spaced(words).len();
    let kb = operand_tokens(b);
    lemma_first_of(a);
    lemma_first_of(b);
    let toks = spaced_tokens(words);
    lemma_layout(words, 0);
    lemma_layout(words, 1);
    lemma_layout(words, 2);
    lemma_layout(words, 3);
    lemma_layout(words, 4);
    let px = place(words, 1);
    let p = place(words, 3);
    assert(closes(toks[p]) && closes(toks[p + 1]));
    lemma_operand_base(a, n, toks, 0);
    lemma_alone(b, n, toks, px + 1);
    assert(toks[px + 1] == kb[0]);
    let (ta, tb) = (operand_tree(a), operand_tree(b));
    let t = Tree::Index(Box::new(ta), Box::new(tb));
    let r = Ok::<(Tree, int), Failure>((t, p + 1));
    assert(p_index(n, toks, px, ta) == r);
    assert(p_postfix(n, toks, p + 1, t) == r);
    assert(p_postfix(n, toks, px, ta) == r);
    assert(p_unary(n, toks, 0) == r);
    assert(gives(n, toks, 0, 0, t, p + 1));
    lemma_risen(n, toks, 0, 0, 6, t, p + 1);
    lemma_chain_source(words, t, p + 1);
}

/// Iterating over an operand.
proof fn lemma_iterate_source(a: Operand)
    requires
        is_operand(a),
    ensures
        parse_tree(
            spaced(seq![Word::Operand(a), Word::Symbol('['), Word::Symbol(']')]),
        ) == Ok::<Tree, Failure>(Tree::Iterate(Box::new(operand_tree(a)))),
{
    let words = seq![Word::Operand(a), Word::Symbol('['), Word::Symbol(']')];
    let n = spaced(words).len();
    lemma_first_of(a);
    let toks = spaced_tokens(words);
    lemma_layout(words, 0);
    lemma_layout(words, 1);
    lemma_layout(words, 2);
    lemma_layout(words, 3);
    let px = place(words, 1);
    assert(closes(toks[px + 2]));
    lemma_operand_base(a, n, toks, 0);
    let ta = operand_tree(a);
    let t = Tree::Iterate(Box::new(ta));
    let r = Ok::<(Tree, int), Failure>((t, px + 2));
    assert(p_index(n, toks, px, ta) == r);
    assert(p_postfix(n, toks, px + 2, t) == r);
    assert(p_postfix(n, toks, px, ta) == r);
    assert(p_unary(n, toks, 0) == r);
    assert(gives(n, toks, 0, 0, t, px + 2));
    lemma_risen(n, toks, 0, 0, 6, t, px + 2);
    lemma_chain_source(words, t, px + 2);
}

/// A field of an operand.
proof fn lemma_field_source(a: Operand, name: Seq<char>)
    requires
        is_operand(a),
        is_identifier(name),
    ensures
        parse_tree(
            spaced(seq![Word::Operand(a), Word::Operand(Operand::Field(name))]),
        ) == Ok::<Tree, Failure>(Tree::Field(Box::new(operand_tree(a)), name)),
{
    let words = seq![Word::Operand(a), Word::Operand(Operand::Field(name))];
    let n = spaced(words).len();
    lemma_field_tokens(name);
    lemma_first_of(a);
    let toks = spaced_tokens(words);
    lemma_layout(words, 0);
    lemma_layout(words, 1);
    lemma_layout(words, 2);
    let px = place(words, 1);
    assert(closes(toks[px + 2]));
    lemma_operand_base(a, n, toks, 0);
    let ta = operand_tree(a);
    let t = Tree::Field(Box::new(ta), name);
    let r = Ok::<(Tree, int), Failure>((t, px + 2));
    assert(p_postfix(n, toks, px + 2, t) == r);
    assert(p_postfix(n, toks, px, ta) == r);
    assert(p_unary(n, toks, 0) == r);
    assert(gives(n, toks, 0, 0, t, px + 2));
    lemma_risen(n, toks, 0, 0, 6, t, px + 2);
    lemma_chain_source(words, t, px + 2);
}

/// A conditional: its condition, the branch behind `then`, and the branch behind
/// `else`, or null where there is none.
pub proof fn law_conditional_source(a: Operand, b: Operand, c: Operand)
    requires
        is_operand(a),
        is_operand(b),
        is_operand(c),
    ensures
        parse_tree(
            spaced(
                seq![
                    Word::Name("if"@),
                    Word::Operand(a),
                    Word::Name("then"@),
                    Word::Operand(b),
                    Word::Name("else"@),
                    Word::Operand(c),
                    Word::Name("end"@),
                ],
            ),
        ) == Ok::<Tree, Failure>(
            Tree::If(
                Box::new(operand_tree(a)),
                Box::new(operand_tree(b)),
                Box::new(operand_tree(c)),
            ),
        ),
        parse_tree(
            spaced(
                seq![
                    Word::Name("if"@),
                    Word::Operand(a),
                    Word::Name("then"@),
                    Word::Operand(b),
                    Word::Name("end"@),
                ],
            ),
        ) == Ok::<Tree, Failure>(
            Tree::If(
                Box::new(operand_tree(a)),
                Box::new(operand_tree(b)),
                Box::new(Tree::Literal(Json::Null)),
            ),
        ),
{
    lemma_else_source(a, b, c);
    lemma_then_source(a, b);
}

/// The words of a conditional are different, and none of them is an operator.
proof fn lemma_keywords()
    ensures
        closes(Lexeme::Ident("then"@)),
        closes(Lexeme::Ident("else"@)),
        closes(Lexeme::Ident("end"@)),
        closes(Lexeme::Fixed(Token::Eof)),
        "else"@ != "elif"@ && "end"@ != "elif"@ && "end"@ != "else"@,
        "if"@ != "true"@ && "if"@ != "false"@ && "if"@ != "null"@ && "if"@ != "not"@,
        is_identifier("if"@) && is_identifier("then"@) && is_identifier("else"@),
        is_identifier("end"@),
{
    reveal_strlit("if");
    reveal_strlit("then");
    reveal_strlit("else");
    reveal_strlit("elif");
    reveal_strlit("end");
    reveal_strlit("and");
    reveal_strlit("or");
    reveal_strlit("not");
    reveal_strlit("true");
    reveal_strlit("false");
    reveal_strlit("null");
    assert("if"@.len() == 2 && "then"@.len() == 4 && "else"@.len() == 4 && "elif"@.len() == 4);
    assert("end"@.len() == 3 && "and"@.len() == 3 && "or"@.len() == 2 && "not"@.len() == 3);
    assert("true"@.len() == 4 && "false"@.len() == 5 && "null"@.len() == 4);
    assert("else"@[2] != "elif"@[2]);
    assert("end"@[0] != "and"@[0]);
}

/// A conditional with two branches.
proof fn lemma_else_source(a: Operand, b: Operand, c: Operand)
    requires
        is_operand(a),
        is_operand(b),
        is_operand(c),
    ensures
        parse_tree(
            spaced(
                seq![
                    Word::Name("if"@),
                    Word::Operand(a),
                    Word::Name("then"@),
                    Word::Operand(b),
                    Word::Name("else"@),
                    Word::Operand(c),
                    Word::Name("end"@),
                ],
            ),
        ) == Ok::<Tree, Failure>(
            Tree::If(
                Box::new(operand_tree(a)),
                Box::new(operand_tree(b)),
                Box::new(operand_tree(c)),
            ),
        ),
{
    lemma_keywords();
    let words = seq![
        Word::Name("if"@),
        Word::Operand(a),
        Word::Name("then"@),
        Word::Operand(b),
        Word::Name("else"@),
        Word::Operand(c),
        Word::Name("end"@),
    ];
    let n = spaced(words).len();
    lemma_first_of(a);
    lemma_first_of(b);
    lemma_first_of(c);
    let toks = spaced_tokens(words);
    lemma_layout(words, 0);
    lemma_layout(words, 1);
    lemma_layout(words, 2);
    lemma_layout(words, 3);
    lemma_layout(words, 4);
    lemma_layout(words, 5);
    lemma_layout(words, 6);
    lemma_layout(words, 7);
    let px = place(words, 2);
    let py = place(words, 4);
    let pz = place(words, 6);
    lemma_alone(a, n, toks, 1);
    lemma_alone(b, n, toks, px + 1);
    lemma_alone(c, n, toks, py + 1);
    let (ta, tb, tc) = (operand_tree(a), operand_tree(b), operand_tree(c));
    lemma_if_else(n, toks, px, py, pz, ta, tb, tc);
    lemma_base_source(words, Tree::If(Box::new(ta), Box::new(tb), Box::new(tc)), pz + 1);
}

/// A condition and two branches between their words.
proof fn lemma_if_else(
    n: nat,
    toks: Seq<Lexeme>,
    px: int,
    py: int,
    pz: int,
    ta: Tree,
    tb: Tree,
    tc: Tree,
)
    requires
        1 < px < py < pz,
        pz + 1 < toks.len(),
        toks[0] == Lexeme::Ident("if"@),
        p_expr(n, toks, 1) == Ok::<(Tree, int), Failure>((ta, px)),
        toks[px] == Lexeme::Ident("then"@),
        p_expr(n, toks, px + 1) == Ok::<(Tree, int), Failure>((tb, py)),
        toks[py] == Lexeme::Ident("else"@),
        p_expr(n, toks, py + 1) == Ok::<(Tree, int), Failure>((tc, pz)),
        toks[pz] == Lexeme::Ident("end"@),
    ensures
        p_base(n, toks, 0) == Ok::<(Tree, int), Failure>(
            (Tree::If(Box::new(ta), Box::new(tb), Box::new(tc)), pz + 1),
        ),
{
    lemma_keywords();
    let t = Tree::If(Box::new(ta), Box::new(tb), Box::new(tc));
    assert(p_after(n, toks, px, "then"@) == Ok::<(Tree, int), Failure>((tb, py)));
    assert(p_branch(n, toks, 1) == Ok::<(Tree, Tree, int), Failure>((ta, tb, py)));
    assert(p_else(n, toks, py) == Ok::<(Tree, int), Failure>((tc, pz)));
    assert(p_tail(n, toks, py) == Ok::<(Tree, int), Failure>((tc, pz)));
    assert(p_if(n, toks, 0) == Ok::<(Tree, int), Failure>((t, pz + 1)));
    assert(p_name(n, toks, 0, "if"@) == p_if(n, toks, 0));
    assert(p_base(n, toks, 0) == p_name(n, toks, 0, "if"@));
}

/// A conditional with one branch.
proof fn lemma_then_source(a: Operand, b: Operand)
    requires
        is_operand(a),
        is_operand(b),
    ensures
        parse_tree(
            spaced(
                seq![
                    Word::Name("if"@),
                    Word::Operand(a),
                    Word::Name("then"@),
                    Word::Operand(b),
                    Word::Name("end"@),
                ],
            ),
        ) == Ok::<Tree, Failure>(
            Tree::If(
                Box::new(operand_tree(a)),
                Box::new(operand_tree(b)),
                Box::new(Tree::Literal(Json::Null)),
            ),
        ),
{
    lemma_keywords();
    let words = seq![
        Word::Name("if"@),
        Word::Operand(a),
        Word::Name("then"@),
        Word::Operand(b),
        Word::Name("end"@),
    ];
    let n = spaced(words).len();
    lemma_first_of(a);
    lemma_first_of(b);
    let toks = spaced_tokens(words);
    lemma_layout(words, 0);
    lemma_layout(words, 1);
    lemma_layout(words, 2);
    lemma_layout(words, 3);
    lemma_layout(words, 4);
    lemma_layout(words, 5);
    let px = place(words, 2);
    let py = place(words, 4);
    lemma_alone(a, n, toks, 1);
    lemma_alone(b, n, toks, px + 1);
    let (ta, tb) = (operand_tree(a), operand_tree(b));
    lemma_if_then(n, toks, px, py, ta, tb);
    let null = Tree::Literal(Json::Null);
    lemma_base_source(words, Tree::If(Box::new(ta), Box::new(tb), Box::new(null)), py + 1);
}

/// A condition and one branch between their words.
proof fn lemma_if_then(n: nat, toks: Seq<Lexeme>, px: int, py: int, ta: Tree, tb: Tree)
    requires
        1 < px < py,
        py + 1 < toks.len(),
        toks[0] == Lexeme::Ident("if"@),
        p_expr(n, toks, 1) == Ok::<(Tree, int), Failure>((ta, px)),
        toks[px] == Lexeme::Ident("then"@),
        p_expr(n, toks, px + 1) == Ok::<(Tree, int), Failure>((tb, py)),
        toks[py] == Lexeme::Ident("end"@),
    ensures
        p_base(n, toks, 0) == Ok::<(Tree, int), Failure>(
            (
                Tree::If(Box::new(ta), Box::new(tb), Box::new(Tree::Literal(Json::Null))),
                py + 1,
            ),
        ),
{
    lemma_keywords();
    let null = Tree::Literal(Json::Null);
    let t = Tree::If(Box::new(ta), Box::new(tb), Box::new(null));
    assert(p_after(n, toks, px, "then"@) == Ok::<(Tree, int), Failure>((tb, py)));
    assert(p_branch(n, toks, 1) == Ok::<(Tree, Tree, int), Failure>((ta, tb, py)));
    assert(p_else(n, toks, py) == Ok::<(Tree, int), Failure>((null, py)));
    assert(p_tail(n, toks, py) == Ok::<(Tree, int), Failure>((null, py)));
    assert(p_if(n, toks, 0) == Ok::<(Tree, int), Failure>((t, py + 1)));
    assert(p_name(n, toks, 0, "if"@) == p_if(n, toks, 0));
    assert(p_base(n, toks, 0) == p_name(n, toks, 0, "if"@));
}

/// A name with parentheses is a call; a semicolon and a comma both separate arguments,
/// and there may be none.
pub proof fn law_call_source(name: Seq<char>, a: Operand, b: Operand, separator: char)
    requires
        is_identifier(name),
        name != "true"@ && name != "false"@ && name != "null"@ && name != "if"@ && name != "not"@,
        is_operand(a),
        is_operand(b),
        separator == ';' || separator == ',',
    ensures
        parse_tree(
            spaced(
                seq![
                    Word::Name(name),
                    Word::Symbol('('),
                    Word::Operand(a),
                    Word::Symbol(separator),
                    Word::Operand(b),
                    Word::Symbol(')'),
                ],
            ),
        ) == Ok::<Tree, Failure>(Tree::Call(name, seq![operand_tree(a), operand_tree(b)])),
        parse_tree(
            spaced(seq![Word::Name(name), Word::Symbol('('), Word::Symbol(')')]),
        ) == Ok::<Tree, Failure>(Tree::Call(name, Seq::empty())),
{
    let words = seq![
        Word::Name(name),
        Word::Symbol('('),
        Word::Operand(a),
        Word::Symbol(separator),
        Word::Operand(b),
        Word::Symbol(')'),
    ];
    let n = spaced(words).len();
    let ka = operand_tokens(a);
    lemma_first_of(a);
    lemma_first_of(b);
    let toks = spaced_tokens(words);
    lemma_layout(words, 0);
    lemma_layout(words, 1);
    lemma_layout(words, 2);
    lemma_layout(words, 3);
    lemma_layout(words, 4);
    lemma_layout(words, 5);
    lemma_layout(words, 6);
    let px = place(words, 3);
    let p = place(words, 5);
    assert(closes(toks[px]) && closes(toks[p]) && closes(toks[p + 1]));
    lemma_alone(a, n, toks, 2);
    lemma_alone(b, n, toks, px + 1);
    assert(toks[2] == ka[0]);
    let (ta, tb) = (operand_tree(a), operand_tree(b));
    lemma_call(n, toks, px, p, name, ta, tb);
    lemma_base_source(words, Tree::Call(name, seq![ta, tb]), p + 1);
    lemma_no_arguments(name);
}

/// Two arguments of a call.
proof fn lemma_call(
    n: nat,
    toks: Seq<Lexeme>,
    px: int,
    p: int,
    name: Seq<char>,
    ta: Tree,
    tb: Tree,
)
    requires
        2 < px < p,
        p + 1 < toks.len(),
        name != "true"@ && name != "false"@ && name != "null"@ && name != "if"@,
        toks[0] == Lexeme::Ident(name),
        toks[1] == Lexeme::Fixed(Token::LParen),
        toks[2] != Lexeme::Fixed(Token::RParen),
        gives(n, toks, 2, 6, ta, px),
        toks[px] == Lexeme::Fixed(Token::Comma) || toks[px] == Lexeme::Fixed(Token::Semicolon),
        gives(n, toks, px + 1, 6, tb, p),
        toks[p] == Lexeme::Fixed(Token::RParen),
    ensures
        p_base(n, toks, 0) == Ok::<(Tree, int), Failure>(
            (Tree::Call(name, seq![ta, tb]), p + 1),
        ),
{
    let none = Seq::<Tree>::empty();
    let t = Tree::Call(name, seq![ta, tb]);
    assert(none.push(ta) =~= seq![ta]);
    assert(seq![ta].push(tb) =~= seq![ta, tb]);
    assert(p_args(n, toks, px + 1, name, seq![ta]) == Ok::<(Tree, int), Failure>((t, p + 1)));
    assert(p_args(n, toks, 2, name, none) == p_args(n, toks, px + 1, name, seq![ta]));
    assert(p_name(n, toks, 0, name) == p_args(n, toks, 2, name, none));
    assert(p_base(n, toks, 0) == p_name(n, toks, 0, name));
}

/// A call without arguments.
proof fn lemma_no_arguments(name: Seq<char>)
    requires
        is_identifier(name),
        name != "true"@ && name != "false"@ && name != "null"@ && name != "if"@ && name != "not"@,
    ensures
        parse_tree(
            spaced(seq![Word::Name(name), Word::Symbol('('), Word::Symbol(')')]),
        ) == Ok::<Tree, Failure>(Tree::Call(name, Seq::empty())),
{
    let none = Seq::<Tree>::empty();
    let few = seq![Word::Name(name), Word::Symbol('('), Word::Symbol(')')];
    let tk = seq![
        Lexeme::Ident(name),
        Lexeme::Fixed(Token::LParen),
        Lexeme::Fixed(Token::RParen),
        Lexeme::Fixed(Token::Eof),
    ];
    assert(spaced_tokens(few) =~= tk) by {
        reveal_with_fuel(tokens_behind, 5);
    }
    let k = spaced(few).len();
    assert(p_name(k, tk, 0, name) == Ok::<(Tree, int), Failure>((Tree::Call(name, none), 3)));
    lemma_base_source(few, Tree::Call(name, none), 3);
}

/// A name alone is a literal, a call of a function of the language, or an error.
pub proof fn law_name_source(name: Seq<char>)
    requires
        is_identifier(name),
        name != "if"@ && name != "not"@,
    ensures
        name == "true"@ ==> parse_tree(name) == Ok::<Tree, Failure>(
            Tree::Literal(Json::Bool(true)),
        ),
        name == "false"@ ==> parse_tree(name) == Ok::<Tree, Failure>(
            Tree::Literal(Json::Bool(false)),
        ),
        name == "null"@ ==> parse_tree(name) == Ok::<Tree, Failure>(Tree::Literal(Json::Null)),
        name != "true"@ && name != "false"@ && name != "null"@ ==> parse_tree(name)
            == if is_function(name) {
            Ok::<Tree, Failure>(Tree::Call(name, Seq::empty()))
        } else {
            Err(Failure::Parse { pos: 0, message: "unknown identifier `"@ + name + "`"@ })
        },
{
    reveal_strlit("true");
    reveal_strlit("false");
    reveal_strlit("null");
    assert("true"@.len() == 4 && "false"@.len() == 5 && "null"@.len() == 4);
    assert("true"@[0] != "null"@[0]);
    let words = seq![Word::Name(name)];
    let toks = seq![Lexeme::Ident(name), Lexeme::Fixed(Token::Eof)];
    assert(spaced_tokens(words) =~= toks) by {
        reveal_with_fuel(tokens_behind, 3);
    }
    let n = name.len();
    assert(spaced(words) == name);
    let r = p_name(n, toks, 0, name);
    assert(p_base(n, toks, 0) == r);
    match r {
        Ok((t, p)) => lemma_base_source(words, t, 1),
        Err(e) => {
            lemma_spaced_tokens(words);
            lemma_failed(n, toks, 6, e);
            reveal(parse_tree);
        },
    }
}

/// A base that fails makes every chain fail that starts with it.
proof fn lemma_failed(n: nat, toks: Seq<Lexeme>, level: nat, e: Failure)
    requires
        toks.len() > 0,
        p_base(n, toks, 0) == Err::<(Tree, int), Failure>(e),
        toks[0] != Lexeme::Ident("not"@),
        toks[0] != Lexeme::Fixed(Token::Minus),
    ensures
        p_chain(n, toks, 0, level) == Err::<(Tree, int), Failure>(e),
        p_expr(n, toks, 0) == p_chain(n, toks, 0, 6) || level != 6,
    decreases level,
{
    if level == 0 {
        assert(p_unary(n, toks, 0) == Err::<(Tree, int), Failure>(e));
    } else {
        lemma_failed(n, toks, (level - 1) as nat, e);
    }
}

} // verus!
