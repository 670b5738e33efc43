//! What holds of the expression language as a whole.
use crate::double::{is_finite, lemma_from_int_finite, lemma_zero_double, one};
use crate::expressions::ast::{BinOp, Key, Tree};
use crate::expressions::engine::{
    Plan, block_close, close_from, filled, opens_block, plan_of, single_block,
};
use crate::expressions::error::Failure;
use crate::expressions::eval::{
    cross, eval_call, eval_entries, eval_key, eval_last, eval_tree, is_function, object_values,
    only, operation, plain_call, row,
};
use crate::expressions::lexer::{
    Lexeme, Token, blank_end, double_symbol, is_ident_part, is_ident_start, next_batch,
    tokens_from, tokens_of,
};
use crate::expressions::literals::{
    is_stop, json_tokens, json_tree, led, lemma_decimal_denotes, lemma_end, lemma_eval_number,
    lemma_eval_value, lemma_first_token, lemma_led, lemma_lex_number, lemma_lex_value,
    lemma_lifted_base, lemma_no_blank, lemma_number_text, lemma_one_blank, lemma_one_object,
    lemma_parse_number, lemma_parse_value, lemma_single, lemma_sorted_lookup, lemma_word,
    number_tokens, number_tree, number_value, reread, single_entries,
};
use crate::expressions::operators::{
    Order, applied, field_of, int_json, is_equal, is_truthy, items_order, order_of, sum_of,
};
use crate::expressions::parser::{
    Joint, field_name, joint, p_base, p_chain, p_chain_rest, p_dot, p_expr, p_expr_rest, p_key,
    p_object, p_postfix, p_unary, parse_tree,
};
use crate::json::{Json, Members, Number};
use crate::text::{
    CharTest, decimal, is_space, lemma_less_irreflexive, lemma_less_total, lemma_less_transitive,
    lemma_run_end, occurs, occurs_at, run_end, run_start, space_test, text_less, trimmed,
    trimmed_end, trimmed_start,
};
use crate::value::{
    is_canonical, is_sorted, is_written, json_text, lookup, number_double, number_text,
};
use vstd::prelude::*;

verus! {

/// A token of two characters.
pub proof fn lemma_double(s: Seq<char>, pos: int, p: int)
    requires
        0 <= pos <= p,
        p + 1 < s.len(),
        blank_end(s, pos) == p,
        double_symbol(s[p], s[p + 1]) is Some,
    ensures
        tokens_from(s, pos) == led(
            seq![Lexeme::Fixed(double_symbol(s[p], s[p + 1]).unwrap())],
            tokens_from(s, p + 2),
        ),
{
    let l = Lexeme::Fixed(double_symbol(s[p], s[p + 1]).unwrap());
    assert(next_batch(s, pos) == Ok::<(Seq<Lexeme>, int), Failure>((seq![l], p + 2)));
}

/// Lexing goes on behind a space.
proof fn lemma_behind_blank(s: Seq<char>, pos: int)
    requires
        0 <= pos < s.len(),
        s[pos] == ' ',
        pos + 1 < s.len() ==> !is_space(s[pos + 1]) && s[pos + 1] != '#',
    ensures
        tokens_from(s, pos) == tokens_from(s, pos + 1),
{
    lemma_one_blank(s, pos);
    lemma_no_blank(s, pos + 1);
    assert(next_batch(s, pos) == next_batch(s, pos + 1));
}

/// A leading dot before an operator or the end is the identity, at every level
/// below that of the operator.
proof fn lemma_dot(n: nat, toks: Seq<Lexeme>, level: nat)
    requires
        toks.len() > 1,
        toks[0] == Lexeme::Fixed(Token::Dot),
        field_name(toks[1]) is None,
        toks[1] != Lexeme::Fixed(Token::Dot),
        toks[1] != Lexeme::Fixed(Token::LBracket),
        forall|k: nat| 0 < k <= level ==> #[trigger] joint(k, toks[1]) is None,
    ensures
        p_chain(n, toks, 0, level) == Ok::<(Tree, int), Failure>((Tree::Identity, 1)),
    decreases level,
{
    let r = Ok::<(Tree, int), Failure>((Tree::Identity, 1));
    if level == 0 {
        assert(p_dot(toks, 0) == r);
        assert(p_base(n, toks, 0) == r);
        assert(p_postfix(n, toks, 1, Tree::Identity) == r);
        assert(p_unary(n, toks, 0) == r);
        assert(p_chain(n, toks, 0, 0) == p_unary(n, toks, 0));
    } else {
        lemma_dot(n, toks, (level - 1) as nat);
        assert(joint(level, toks[1]) is None);
        assert(p_chain_rest(n, toks, 1, level, Tree::Identity) == r);
        assert(p_chain(n, toks, 0, level) == p_chain_rest(n, toks, 1, level, Tree::Identity));
    }
}

/// A chain before the end of an expression is an operand at every higher level.
proof fn lemma_raised(n: nat, toks: Seq<Lexeme>, from: nat, level: nat, t: Tree, p: int)
    requires
        p_chain(n, toks, 0, from) == Ok::<(Tree, int), Failure>((t, p)),
        0 < p < toks.len(),
        is_stop(toks[p]),
        from <= level,
    ensures
        p_chain(n, toks, 0, level) == Ok::<(Tree, int), Failure>((t, p)),
    decreases level,
{
    if level > from {
        lemma_raised(n, toks, from, (level - 1) as nat, t, p);
        assert(joint(level, toks[p]) is None);
        assert(p_chain_rest(n, toks, p, level, t) == Ok::<(Tree, int), Failure>((t, p)));
        assert(p_chain(n, toks, 0, level) == p_chain_rest(n, toks, p, level, t));
    }
}

/// The tree of a source whose tokens are one chain and the end.
pub proof fn lemma_whole_source(source: Seq<char>, toks: Seq<Lexeme>, t: Tree, p: int)
    requires
        tokens_of(source) == Ok::<Seq<Lexeme>, Failure>(toks),
        p_chain(source.len(), toks, 0, 6) == Ok::<(Tree, int), Failure>((t, p)),
        0 < p < toks.len(),
        toks[p] == Lexeme::Fixed(Token::Eof),
    ensures
        parse_tree(source) == Ok::<Tree, Failure>(t),
{
    reveal(parse_tree);
    let n = source.len();
    assert(p_expr_rest(n, toks, p, seq![t]) == Ok::<(Tree, int), Failure>((t, p)));
    assert(p_expr(n, toks, 0) == p_expr_rest(n, toks, p, seq![t]));
}

/// One value combined with one other.
proof fn lemma_cross(op: BinOp, a: Json, b: Json, v: Json)
    requires
        applied(op, a, b) == Ok::<Json, Failure>(v),
    ensures
        cross(operation(op), seq![a], seq![b]) == only(v),
{
    let f = operation(op);
    let none = Seq::<Json>::empty();
    assert(f(a, b) == Ok::<Json, Failure>(v));
    assert(seq![b].skip(1) =~= none);
    assert(seq![a].skip(1) =~= none);
    assert(row(f, a, none) == Ok::<Seq<Json>, Failure>(none));
    assert(seq![v] + none =~= seq![v]);
    assert(row(f, a, seq![b]) == only(v));
    assert(cross(f, none, seq![b]) == Ok::<Seq<Json>, Failure>(none));
}

/// The identity: `.` gives its input, whatever it is.
pub proof fn law_identity(input: Json, env: Members)
    ensures
        parse_tree("."@) == Ok::<Tree, Failure>(Tree::Identity),
        eval_last(Tree::Identity, input, env) == Ok::<Json, Failure>(input),
{
    reveal(eval_last);
    reveal_strlit(".");
    let s = "."@;
    lemma_no_blank(s, 0);
    lemma_no_blank(s, 1);
    lemma_single(s, 0, 0);
    lemma_end(s, 1);
    let toks = seq![Lexeme::Fixed(Token::Dot), Lexeme::Fixed(Token::Eof)];
    assert(seq![Lexeme::Fixed(Token::Dot)] + seq![Lexeme::Fixed(Token::Eof)] =~= toks);
    lemma_dot(s.len(), toks, 6);
    lemma_whole_source(s, toks, Tree::Identity, 1);
}

/// The source that compares its input with a written value.
pub open spec fn equality_source(v: Json) -> Seq<char> {
    ". == "@ + json_text(v)
}

/// The notation of a value starts with a character that is not skipped.
proof fn lemma_first_char(j: Json)
    requires
        is_canonical(j),
        is_written(j),
    ensures
        json_text(j).len() > 0,
        !is_space(json_text(j)[0]),
        json_text(j)[0] != '#',
{
    reveal_strlit("null");
    reveal_strlit("true");
    reveal_strlit("false");
    reveal_strlit("[");
    reveal_strlit("{");
    match j {
        Json::Number(n) => lemma_number_text(n),
        _ => {},
    }
}

/// The tokens of the source that compares its input with a written value.
proof fn lemma_equality_tokens(v: Json)
    requires
        is_canonical(v),
        is_written(v),
    ensures
        tokens_of(equality_source(v)) == Ok::<Seq<Lexeme>, Failure>(
            seq![Lexeme::Fixed(Token::Dot), Lexeme::Fixed(Token::EqEq)] + json_tokens(v) + seq![
                Lexeme::Fixed(Token::Eof),
            ],
        ),
{
    reveal_strlit(". == ");
    let s = equality_source(v);
    let head = ". == "@;
    let text = json_text(v);
    lemma_first_char(v);
    assert(s[0] == '.' && s[1] == ' ' && s[2] == '=' && s[3] == '=' && s[4] == ' ');
    assert(s[5] == text[0]);
    assert(s.subrange(5, 5int + text.len()) =~= text);
    let dot = seq![Lexeme::Fixed(Token::Dot)];
    let eq = seq![Lexeme::Fixed(Token::EqEq)];
    let end = seq![Lexeme::Fixed(Token::Eof)];
    lemma_no_blank(s, 0);
    lemma_single(s, 0, 0);
    lemma_one_blank(s, 1);
    lemma_double(s, 1, 2);
    lemma_behind_blank(s, 4);
    lemma_lex_value(v, s, 5);
    lemma_no_blank(s, s.len() as int);
    lemma_end(s, s.len() as int);
    lemma_led(dot, eq, tokens_from(s, 4));
    lemma_led(dot + eq, json_tokens(v), tokens_from(s, s.len() as int));
    assert(dot + eq =~= seq![Lexeme::Fixed(Token::Dot), Lexeme::Fixed(Token::EqEq)]);
}

/// Every value is equal to what is written of it: `. == v`, with `v` in its JSON
/// notation, is true on the input `v`.
pub proof fn law_equality_with_input(v: Json, env: Members)
    requires
        is_canonical(v),
        is_written(v),
    ensures
        match parse_tree(equality_source(v)) {
            Ok(t) => eval_last(t, v, env) == Ok::<Json, Failure>(Json::Bool(true)),
            Err(_) => false,
        },
{
    let source = equality_source(v);
    let n = source.len();
    let part = json_tokens(v);
    let toks = seq![Lexeme::Fixed(Token::Dot), Lexeme::Fixed(Token::EqEq)] + part + seq![
        Lexeme::Fixed(Token::Eof),
    ];
    lemma_equality_tokens(v);
    assert(toks.subrange(2, 2int + part.len()) =~= part);
    let p = 2int + part.len();
    assert(toks[p] == Lexeme::Fixed(Token::Eof));
    lemma_dot(n, toks, 2);
    lemma_parse_value(v, n, toks, 2, 2);
    let t = Tree::Binary(BinOp::Eq, Box::new(Tree::Identity), Box::new(json_tree(v)));
    let r = Ok::<(Tree, int), Failure>((t, p));
    assert(joint(3, toks[1]) == Some(Joint::Op(BinOp::Eq)));
    assert(p_chain_rest(n, toks, p, 3, t) == r);
    assert(p_chain_rest(n, toks, 1, 3, Tree::Identity) == p_chain_rest(n, toks, p, 3, t));
    assert(p_chain(n, toks, 0, 3) == p_chain_rest(n, toks, 1, 3, Tree::Identity));
    lemma_raised(n, toks, 3, 6, t, p);
    lemma_whole_source(source, toks, t, p);
    lemma_eval_value(v, v, env);
    lemma_cross(BinOp::Eq, v, reread(v), Json::Bool(true));
    reveal(eval_last);
    assert(eval_tree(Tree::Identity, v, env) == only(v));
    assert(eval_tree(t, v, env) == only(Json::Bool(true)));
}

/// Adding zero to an integer of 64 bits leaves it unchanged.
pub proof fn law_add_zero(k: i64, env: Members)
    ensures
        match parse_tree(". + 0"@) {
            Ok(t) => eval_last(t, int_json(k), env) == Ok::<Json, Failure>(int_json(k)),
            Err(_) => false,
        },
{
    reveal_strlit(". + 0");
    let s = ". + 0"@;
    let n = s.len();
    let zero = Number::PosInt(0);
    assert(decimal(0) =~= seq!['0']);
    assert(s.subrange(4, 5) =~= seq!['0']);
    assert(number_text(zero) == seq!['0']);
    let dot = seq![Lexeme::Fixed(Token::Dot)];
    let plus = seq![Lexeme::Fixed(Token::Plus)];
    let end = seq![Lexeme::Fixed(Token::Eof)];
    let part = number_tokens(zero);
    lemma_no_blank(s, 0);
    lemma_single(s, 0, 0);
    lemma_one_blank(s, 1);
    lemma_single(s, 1, 2);
    lemma_behind_blank(s, 3);
    lemma_lex_number(zero, s, 4);
    lemma_no_blank(s, 5);
    lemma_end(s, 5);
    lemma_led(dot, plus, tokens_from(s, 3));
    lemma_led(dot + plus, part, tokens_from(s, 5));
    let toks = dot + plus + part + end;
    assert(part.len() == 1);
    assert(toks.subrange(2, 3) =~= part);
    assert(toks[3] == Lexeme::Fixed(Token::Eof));
    lemma_dot(n, toks, 1);
    lemma_parse_number(zero, n, toks, 2, 1);
    let t = Tree::Binary(BinOp::Add, Box::new(Tree::Identity), Box::new(number_tree(zero)));
    assert(joint(2, toks[1]) == Some(Joint::Op(BinOp::Add)));
    assert(p_chain_rest(n, toks, 3, 2, t) == Ok::<(Tree, int), Failure>((t, 3)));
    assert(p_chain_rest(n, toks, 1, 2, Tree::Identity) == p_chain_rest(n, toks, 3, 2, t));
    assert(p_chain(n, toks, 0, 2) == p_chain_rest(n, toks, 1, 2, Tree::Identity));
    lemma_raised(n, toks, 2, 6, t, 3);
    lemma_whole_source(s, toks, t, 3);
    lemma_eval_number(zero, int_json(k), env);
    lemma_zero_value();
    lemma_cross(BinOp::Add, int_json(k), int_json(0), int_json(k));
    reveal(eval_last);
    assert(eval_tree(Tree::Identity, int_json(k), env) == only(int_json(k)));
    assert(eval_tree(t, int_json(k), env) == only(int_json(k)));
}

/// The literal zero is the integer zero.
proof fn lemma_zero_value()
    ensures
        number_value(Number::PosInt(0)) == int_json(0),
{
    lemma_decimal_denotes(0);
    assert(0 * one() == 0) by (nonlinear_arith);
    lemma_zero_double();
}

/// Whether a text is an identifier.
pub open spec fn is_identifier(name: Seq<char>) -> bool {
    &&& name.len() > 0
    &&& is_ident_start(name[0])
    &&& !is_space(name[0])
    &&& forall|i: int| 0 <= i < name.len() ==> is_ident_part(#[trigger] name[i])
}

/// The source that makes an object of one member of its input.
pub open spec fn member_source(name: Seq<char>) -> Seq<char> {
    "{ "@ + name + ": ."@ + name + " }"@
}

/// The tokens of the source that makes an object of one member.
proof fn lemma_member_tokens(name: Seq<char>)
    requires
        is_identifier(name),
    ensures
        tokens_of(member_source(name)) == Ok::<Seq<Lexeme>, Failure>(
            seq![
                Lexeme::Fixed(Token::LBrace),
                Lexeme::Ident(name),
                Lexeme::Fixed(Token::Colon),
                Lexeme::Fixed(Token::Dot),
                Lexeme::Ident(name),
                Lexeme::Fixed(Token::RBrace),
                Lexeme::Fixed(Token::Eof),
            ],
        ),
{
    reveal_strlit("{ ");
    reveal_strlit(": .");
    reveal_strlit(" }");
    let s = member_source(name);
    let k = name.len() as int;
    assert(s.len() == 2 * k + 7);
    assert(s[0] == '{' && s[1] == ' ' && s[2] == name[0]);
    assert(s[k + 2] == ':' && s[k + 3] == ' ' && s[k + 4] == '.' && s[k + 5] == name[0]);
    assert(s[2 * k + 5] == ' ' && s[2 * k + 6] == '}');
    assert(s.subrange(2, 2 + k) =~= name);
    assert(s.subrange(k + 5, k + 5 + k) =~= name);
    let word = seq![Lexeme::Ident(name)];
    let open = seq![Lexeme::Fixed(Token::LBrace)];
    let colon = seq![Lexeme::Fixed(Token::Colon)];
    let dot = seq![Lexeme::Fixed(Token::Dot)];
    let close = seq![Lexeme::Fixed(Token::RBrace)];
    let end = seq![Lexeme::Fixed(Token::Eof)];
    lemma_no_blank(s, 0);
    lemma_single(s, 0, 0);
    lemma_one_blank(s, 1);
    lemma_word(s, 1, 2, name);
    lemma_no_blank(s, k + 2);
    lemma_single(s, k + 2, k + 2);
    lemma_one_blank(s, k + 3);
    lemma_single(s, k + 3, k + 4);
    lemma_no_blank(s, k + 5);
    lemma_word(s, k + 5, k + 5, name);
    lemma_one_blank(s, 2 * k + 5);
    lemma_single(s, 2 * k + 5, 2 * k + 6);
    lemma_no_blank(s, 2 * k + 7);
    lemma_end(s, 2 * k + 7);
    lemma_led(open, word, tokens_from(s, k + 2));
    lemma_led(open + word, colon, tokens_from(s, k + 3));
    lemma_led(open + word + colon, dot, tokens_from(s, k + 5));
    lemma_led(open + word + colon + dot, word, tokens_from(s, 2 * k + 5));
    lemma_led(open + word + colon + dot + word, close, tokens_from(s, 2 * k + 7));
    assert(open + word + colon + dot + word + close + end =~= seq![
        Lexeme::Fixed(Token::LBrace),
        Lexeme::Ident(name),
        Lexeme::Fixed(Token::Colon),
        Lexeme::Fixed(Token::Dot),
        Lexeme::Ident(name),
        Lexeme::Fixed(Token::RBrace),
        Lexeme::Fixed(Token::Eof),
    ]);
}

/// The tree of the source that makes an object of one member.
pub open spec fn member_tree(name: Seq<char>) -> Tree {
    Tree::Object(seq![(Key::Ident(name), Tree::Field(Box::new(Tree::Identity), name))])
}

/// Parsing an access to a field before a closing brace.
proof fn lemma_parse_field(name: Seq<char>, n: nat, toks: Seq<Lexeme>, pos: int)
    requires
        0 <= pos,
        pos + 2 < toks.len(),
        toks[pos] == Lexeme::Fixed(Token::Dot),
        toks[pos + 1] == Lexeme::Ident(name),
        toks[pos + 2] == Lexeme::Fixed(Token::RBrace),
    ensures
        p_chain(n, toks, pos, 6) == Ok::<(Tree, int), Failure>(
            (Tree::Field(Box::new(Tree::Identity), name), pos + 2),
        ),
{
    let field = Tree::Field(Box::new(Tree::Identity), name);
    let r = Ok::<(Tree, int), Failure>((field, pos + 2));
    assert(p_dot(toks, pos) == r);
    assert(p_base(n, toks, pos) == r);
    lemma_lifted_base(n, toks, pos, 6, field, pos + 2);
}

/// Parsing the source that makes an object of one member.
proof fn lemma_parse_member(name: Seq<char>)
    requires
        is_identifier(name),
    ensures
        parse_tree(member_source(name)) == Ok::<Tree, Failure>(member_tree(name)),
{
    let source = member_source(name);
    let n = source.len();
    lemma_member_tokens(name);
    let toks = tokens_of(source)->Ok_0;
    lemma_parse_field(name, n, toks, 3);
    let field = Tree::Field(Box::new(Tree::Identity), name);
    let none = Seq::<(Key, Tree)>::empty();
    assert(none.push((Key::Ident(name), field)) =~= seq![(Key::Ident(name), field)]);
    let t = member_tree(name);
    let r = Ok::<(Tree, int), Failure>((t, 6));
    assert(p_key(n, toks, 1) == Ok::<(Key, int), Failure>((Key::Ident(name), 2)));
    assert(p_object(n, toks, 1, none) == r);
    assert(p_base(n, toks, 0) == r);
    lemma_lifted_base(n, toks, 0, 6, t, 6);
    lemma_whole_source(source, toks, t, 6);
}

/// An access to a field of the input gives that field.
proof fn lemma_eval_field(name: Seq<char>, input: Json, env: Members)
    ensures
        eval_tree(Tree::Field(Box::new(Tree::Identity), name), input, env) == only(
            field_of(input, name),
        ),
{
    assert(eval_tree(Tree::Identity, input, env) == only(input));
    assert(seq![input].map_values(|v: Json| field_of(v, name)) =~= seq![field_of(input, name)]);
}

/// One entry with one value makes one object.
proof fn lemma_eval_entry(name: Seq<char>, t: Tree, v: Json, input: Json, env: Members)
    requires
        eval_tree(t, input, env) == only(v),
    ensures
        eval_tree(Tree::Object(seq![(Key::Ident(name), t)]), input, env) == only(
            Json::Object(seq![(name, v)]),
        ),
{
    let entries = seq![(Key::Ident(name), t)];
    let m = seq![(name, v)];
    let none = Seq::<(Seq<char>, Seq<Json>)>::empty();
    assert(entries.skip(1) =~= Seq::empty());
    assert(eval_entries(entries.skip(1), input, env) == Ok::<
        Seq<(Seq<char>, Seq<Json>)>,
        Failure,
    >(none));
    assert(eval_key(entries[0].0, input, env) == Ok::<Seq<char>, Failure>(name));
    assert(seq![(name, seq![v])] + none =~= single_entries(m));
    assert(eval_entries(entries, input, env) == Ok::<Seq<(Seq<char>, Seq<Json>)>, Failure>(
        single_entries(m),
    ));
    lemma_one_object(m);
    assert(object_values(seq![m]) =~= seq![Json::Object(m)]);
}

/// Construction keeps the values of fields: `{ name: .name }` gives an object
/// with that one member, and its value is the one in the input.
pub proof fn law_object_construction(name: Seq<char>, input: Json, env: Members)
    requires
        is_identifier(name),
    ensures
        match parse_tree(member_source(name)) {
            Ok(t) => eval_last(t, input, env) == Ok::<Json, Failure>(
                Json::Object(seq![(name, field_of(input, name))]),
            ),
            Err(_) => false,
        },
{
    lemma_parse_member(name);
    let field = Tree::Field(Box::new(Tree::Identity), name);
    lemma_eval_field(name, input, env);
    lemma_eval_entry(name, field, field_of(input, name), input, env);
    reveal(eval_last);
}

/// An object of one member is constructed anew from its member.
pub proof fn law_object_roundtrip(name: Seq<char>, v: Json, env: Members)
    requires
        is_identifier(name),
    ensures
        match parse_tree(member_source(name)) {
            Ok(t) => eval_last(t, Json::Object(seq![(name, v)]), env) == Ok::<Json, Failure>(
                Json::Object(seq![(name, v)]),
            ),
            Err(_) => false,
        },
{
    law_object_construction(name, Json::Object(seq![(name, v)]), env);
}

/// The JSON notation of a value is an expression that gives an equal value,
/// whatever its input is.
pub proof fn law_notation_is_its_value(v: Json, input: Json, env: Members)
    requires
        is_canonical(v),
        is_written(v),
    ensures
        match parse_tree(json_text(v)) {
            Ok(t) => eval_last(t, input, env) matches Ok(w) && is_equal(v, w),
            Err(_) => false,
        },
{
    let s = json_text(v);
    let part = json_tokens(v);
    let end = seq![Lexeme::Fixed(Token::Eof)];
    let toks = part + end;
    let p = part.len() as int;
    assert(s.subrange(0, 0int + s.len()) =~= s);
    lemma_lex_value(v, s, 0);
    lemma_no_blank(s, s.len() as int);
    lemma_end(s, s.len() as int);
    assert(toks.subrange(0, p) =~= part);
    assert(toks[p] == Lexeme::Fixed(Token::Eof));
    lemma_first_token(v);
    lemma_parse_value(v, s.len(), toks, 0, 6);
    lemma_whole_source(s, toks, json_tree(v), p);
    lemma_eval_value(v, input, env);
    reveal(eval_last);
}

// ---------------------------------------------------------------------------
// Fields and operators between them
// ---------------------------------------------------------------------------

/// A field of the input is an operand of the operator that follows it.
proof fn lemma_field_operand(n: nat, toks: Seq<Lexeme>, pos: int, level: nat, name: Seq<char>)
    requires
        0 <= pos,
        pos + 2 < toks.len(),
        toks[pos] == Lexeme::Fixed(Token::Dot),
        toks[pos + 1] == Lexeme::Ident(name),
        toks[pos + 2] != Lexeme::Fixed(Token::Dot),
        toks[pos + 2] != Lexeme::Fixed(Token::LBracket),
        forall|k: nat| 0 < k <= level ==> #[trigger] joint(k, toks[pos + 2]) is None,
    ensures
        p_chain(n, toks, pos, level) == Ok::<(Tree, int), Failure>(
            (Tree::Field(Box::new(Tree::Identity), name), pos + 2),
        ),
    decreases level,
{
    let field = Tree::Field(Box::new(Tree::Identity), name);
    let r = Ok::<(Tree, int), Failure>((field, pos + 2));
    if level == 0 {
        assert(p_dot(toks, pos) == r);
        assert(p_base(n, toks, pos) == r);
        assert(p_postfix(n, toks, pos + 2, field) == r);
        assert(p_unary(n, toks, pos) == r);
        assert(p_chain(n, toks, pos, 0) == p_unary(n, toks, pos));
    } else {
        lemma_field_operand(n, toks, pos, (level - 1) as nat, name);
        assert(joint(level, toks[pos + 2]) is None);
        assert(p_chain_rest(n, toks, pos + 2, level, field) == r);
        assert(p_chain(n, toks, pos, level) == p_chain_rest(n, toks, pos + 2, level, field));
    }
}

/// The tokens of two fields with a word between them.
proof fn lemma_word_between(a: Seq<char>, word: Seq<char>, b: Seq<char>)
    requires
        is_identifier(a),
        is_identifier(word),
        is_identifier(b),
    ensures
        tokens_of("."@ + a + " "@ + word + " ."@ + b) == Ok::<Seq<Lexeme>, Failure>(
            seq![
                Lexeme::Fixed(Token::Dot),
                Lexeme::Ident(a),
                Lexeme::Ident(word),
                Lexeme::Fixed(Token::Dot),
                Lexeme::Ident(b),
                Lexeme::Fixed(Token::Eof),
            ],
        ),
{
    reveal_strlit(".");
    reveal_strlit(" ");
    reveal_strlit(" .");
    let s = "."@ + a + " "@ + word + " ."@ + b;
    let (i, j, k) = (a.len() as int, word.len() as int, b.len() as int);
    assert(s.len() == i + j + k + 4);
    assert(s[0] == '.' && s[1] == a[0] && s[i + 1] == ' ' && s[i + 2] == word[0]);
    assert(s[i + j + 2] == ' ' && s[i + j + 3] == '.' && s[i + j + 4] == b[0]);
    assert(s.subrange(1, 1 + i) =~= a);
    assert(s.subrange(i + 2, i + 2 + j) =~= word);
    assert(s.subrange(i + j + 4, i + j + 4 + k) =~= b);
    let dot = seq![Lexeme::Fixed(Token::Dot)];
    let (x, y, z) = (seq![Lexeme::Ident(a)], seq![Lexeme::Ident(word)], seq![Lexeme::Ident(b)]);
    let end = seq![Lexeme::Fixed(Token::Eof)];
    lemma_no_blank(s, 0);
    lemma_single(s, 0, 0);
    lemma_no_blank(s, 1);
    lemma_word(s, 1, 1, a);
    lemma_one_blank(s, i + 1);
    lemma_word(s, i + 1, i + 2, word);
    lemma_one_blank(s, i + j + 2);
    lemma_single(s, i + j + 2, i + j + 3);
    lemma_no_blank(s, i + j + 4);
    lemma_word(s, i + j + 4, i + j + 4, b);
    lemma_no_blank(s, s.len() as int);
    lemma_end(s, s.len() as int);
    lemma_led(dot, x, tokens_from(s, i + 1));
    lemma_led(dot + x, y, tokens_from(s, i + j + 2));
    lemma_led(dot + x + y, dot, tokens_from(s, i + j + 4));
    lemma_led(dot + x + y + dot, z, tokens_from(s, s.len() as int));
    assert(dot + x + y + dot + z + end =~= seq![
        Lexeme::Fixed(Token::Dot),
        Lexeme::Ident(a),
        Lexeme::Ident(word),
        Lexeme::Fixed(Token::Dot),
        Lexeme::Ident(b),
        Lexeme::Fixed(Token::Eof),
    ]);
}

/// `.a and .b` joins the two fields, for any names.
pub proof fn law_and_joins_fields(a: Seq<char>, b: Seq<char>)
    requires
        is_identifier(a),
        is_identifier(b),
    ensures
        parse_tree("."@ + a + " "@ + "and"@ + " ."@ + b) == Ok::<Tree, Failure>(
            Tree::Binary(
                BinOp::And,
                Box::new(Tree::Field(Box::new(Tree::Identity), a)),
                Box::new(Tree::Field(Box::new(Tree::Identity), b)),
            ),
        ),
{
    reveal_strlit("and");
    let source = "."@ + a + " "@ + "and"@ + " ."@ + b;
    let n = source.len();
    lemma_word_between(a, "and"@, b);
    let toks = tokens_of(source)->Ok_0;
    let left = Tree::Field(Box::new(Tree::Identity), a);
    let right = Tree::Field(Box::new(Tree::Identity), b);
    let t = Tree::Binary(BinOp::And, Box::new(left), Box::new(right));
    lemma_field_operand(n, toks, 0, 3, a);
    lemma_field_operand(n, toks, 3, 3, b);
    assert(joint(4, toks[2]) == Some(Joint::Op(BinOp::And)));
    assert(p_chain_rest(n, toks, 5, 4, t) == Ok::<(Tree, int), Failure>((t, 5)));
    assert(p_chain_rest(n, toks, 2, 4, left) == p_chain_rest(n, toks, 5, 4, t));
    assert(p_chain(n, toks, 0, 4) == p_chain_rest(n, toks, 2, 4, left));
    lemma_raised(n, toks, 4, 6, t, 5);
    lemma_whole_source(source, toks, t, 5);
}

/// `.a or .b` joins the two fields, for any names.
pub proof fn law_or_joins_fields(a: Seq<char>, b: Seq<char>)
    requires
        is_identifier(a),
        is_identifier(b),
    ensures
        parse_tree("."@ + a + " "@ + "or"@ + " ."@ + b) == Ok::<Tree, Failure>(
            Tree::Binary(
                BinOp::Or,
                Box::new(Tree::Field(Box::new(Tree::Identity), a)),
                Box::new(Tree::Field(Box::new(Tree::Identity), b)),
            ),
        ),
{
    reveal_strlit("or");
    reveal_strlit("and");
    let source = "."@ + a + " "@ + "or"@ + " ."@ + b;
    let n = source.len();
    lemma_word_between(a, "or"@, b);
    let toks = tokens_of(source)->Ok_0;
    let left = Tree::Field(Box::new(Tree::Identity), a);
    let right = Tree::Field(Box::new(Tree::Identity), b);
    let t = Tree::Binary(BinOp::Or, Box::new(left), Box::new(right));
    assert("or"@.len() != "and"@.len());
    lemma_field_operand(n, toks, 0, 4, a);
    lemma_field_operand(n, toks, 3, 4, b);
    assert(joint(5, toks[2]) == Some(Joint::Op(BinOp::Or)));
    assert(p_chain_rest(n, toks, 5, 5, t) == Ok::<(Tree, int), Failure>((t, 5)));
    assert(p_chain_rest(n, toks, 2, 5, left) == p_chain_rest(n, toks, 5, 5, t));
    assert(p_chain(n, toks, 0, 5) == p_chain_rest(n, toks, 2, 5, left));
    lemma_raised(n, toks, 5, 6, t, 5);
    lemma_whole_source(source, toks, t, 5);
}

/// A call of what is not a function of the language fails as unsupported, whatever
/// its arguments are.
pub proof fn law_unsupported_functions(name: Seq<char>, args: Seq<Tree>, input: Json, env: Members)
    requires
        !is_function(name),
    ensures
        eval_call(name, args, input, env) == Err::<Seq<Json>, Failure>(
            Failure::UnsupportedFunction { name },
        ),
{
    reveal(is_function);
    assert(plain_call(name, input) is None);
}

/// Null is the neutral element of addition, on both sides.
pub proof fn law_null_is_neutral(v: Json)
    ensures
        sum_of(Json::Null, v) == Ok::<Json, Failure>(v),
        sum_of(v, Json::Null) == Ok::<Json, Failure>(v),
{
}

// ---------------------------------------------------------------------------
// Operators that do not look at both sides
// ---------------------------------------------------------------------------

/// `and` is false where its left side is, whatever the right side is: it may
/// even fail.
pub proof fn law_and_stops(l: Tree, r: Tree, input: Json, env: Members)
    requires
        eval_last(l, input, env) matches Ok(v) && !is_truthy(v),
    ensures
        eval_last(Tree::Binary(BinOp::And, Box::new(l), Box::new(r)), input, env) == Ok::<
            Json,
            Failure,
        >(Json::Bool(false)),
{
    reveal(eval_last);
}

/// `or` is true where its left side is, whatever the right side is: it may even
/// fail.
pub proof fn law_or_stops(l: Tree, r: Tree, input: Json, env: Members)
    requires
        eval_last(l, input, env) matches Ok(v) && is_truthy(v),
    ensures
        eval_last(Tree::Binary(BinOp::Or, Box::new(l), Box::new(r)), input, env) == Ok::<
            Json,
            Failure,
        >(Json::Bool(true)),
{
    reveal(eval_last);
}

/// `//` gives its left side where that counts as true, and its right side where
/// it does not.
pub proof fn law_alternative(l: Tree, r: Tree, input: Json, env: Members)
    requires
        eval_last(l, input, env) is Ok,
    ensures
        eval_last(Tree::Binary(BinOp::Alternative, Box::new(l), Box::new(r)), input, env)
            == if is_truthy(eval_last(l, input, env)->Ok_0) {
            eval_last(l, input, env)
        } else {
            eval_last(r, input, env)
        },
{
    reveal(eval_last);
}

// ---------------------------------------------------------------------------
// Equality and order
// ---------------------------------------------------------------------------

/// The double of a canonical number is finite.
proof fn lemma_number_finite(n: Number)
    requires
        is_canonical(Json::Number(n)),
    ensures
        is_finite(number_double(n)),
{
    match n {
        Number::PosInt(u) => lemma_from_int_finite(u as int),
        Number::NegInt(i) => lemma_from_int_finite(i as int),
        Number::Float(_) => {},
    }
}

/// Every value in canonical form is equal to itself.
pub proof fn law_equality_reflexive(a: Json)
    requires
        is_canonical(a),
    ensures
        is_equal(a, a),
    decreases a,
{
    match a {
        Json::Number(n) => lemma_number_finite(n),
        Json::Array(items) => {
            assert forall|i: int| 0 <= i < items.len() implies is_equal(
                #[trigger] items[i],
                items[i],
            ) by {
                law_equality_reflexive(items[i]);
            }
        },
        Json::Object(m) => {
            assert forall|i: int| 0 <= i < m.len() implies match lookup(m, (#[trigger] m[i]).0) {
                Some(v) => is_equal(m[i].1, v),
                None => false,
            } by {
                lemma_sorted_lookup(m, i);
                law_equality_reflexive(m[i].1);
            }
        },
        _ => {},
    }
}

/// A member that is found stands somewhere.
proof fn lemma_lookup_index(m: Members, key: Seq<char>) -> (k: int)
    requires
        lookup(m, key) is Some,
    ensures
        0 <= k < m.len(),
        m[k] == (key, lookup(m, key).unwrap()),
    decreases m.len(),
{
    if m[0].0 == key {
        0
    } else {
        let k = lemma_lookup_index(m.skip(1), key);
        assert(m.skip(1)[k] == m[k + 1]);
        k + 1
    }
}

/// Whether every key of a list is a key of another.
pub open spec fn keys_within(x: Members, y: Members) -> bool {
    forall|i: int| 0 <= i < x.len() ==> lookup(y, (#[trigger] x[i]).0) is Some
}

/// In a sorted list a smaller key stands before a larger one.
proof fn lemma_sorted_before(m: Members, a: int, b: int)
    requires
        is_sorted(m),
        0 <= a < m.len(),
        0 <= b < m.len(),
        text_less(m[a].0, m[b].0),
    ensures
        a < b,
{
    lemma_less_irreflexive(m[a].0);
    if b < a {
        lemma_less_transitive(m[a].0, m[b].0, m[a].0);
    }
}

/// The place of the key at an index in another list that has all keys is at that
/// index or behind it.
proof fn lemma_key_not_before(x: Members, y: Members, i: int) -> (k: int)
    requires
        is_sorted(x),
        is_sorted(y),
        keys_within(x, y),
        0 <= i < x.len(),
    ensures
        i <= k < y.len(),
        y[k] == (x[i].0, lookup(y, x[i].0).unwrap()),
    decreases i,
{
    let k = lemma_lookup_index(y, x[i].0);
    if i > 0 {
        let before = lemma_key_not_before(x, y, i - 1);
        assert(text_less(x[i - 1].0, x[i].0));
        lemma_sorted_before(y, before, k);
    }
    k
}

/// The place of the key at an index in another list of the same length that has
/// all keys is at that index or before it.
proof fn lemma_key_not_behind(x: Members, y: Members, i: int) -> (k: int)
    requires
        is_sorted(x),
        is_sorted(y),
        keys_within(x, y),
        x.len() == y.len(),
        0 <= i < x.len(),
    ensures
        0 <= k <= i,
        y[k] == (x[i].0, lookup(y, x[i].0).unwrap()),
    decreases x.len() - i,
{
    let k = lemma_lookup_index(y, x[i].0);
    if i + 1 < x.len() {
        let behind = lemma_key_not_behind(x, y, i + 1);
        assert(text_less(x[i].0, x[i + 1].0));
        lemma_sorted_before(y, k, behind);
    }
    k
}

/// Two sorted lists of the same length, one with all keys of the other, have the
/// same keys in the same places.
proof fn lemma_same_keys(x: Members, y: Members, i: int)
    requires
        is_sorted(x),
        is_sorted(y),
        keys_within(x, y),
        x.len() == y.len(),
        0 <= i < x.len(),
    ensures
        y[i] == (x[i].0, lookup(y, x[i].0).unwrap()),
{
    let a = lemma_key_not_before(x, y, i);
    let b = lemma_key_not_behind(x, y, i);
    assert(y[a].0 == y[b].0);
    lemma_less_irreflexive(y[a].0);
    if b < a {
        assert(text_less(y[b].0, y[a].0));
    }
}

/// Equality is symmetric on values in canonical form.
pub proof fn law_equality_symmetric(a: Json, b: Json)
    requires
        is_canonical(a),
        is_canonical(b),
        is_equal(a, b),
    ensures
        is_equal(b, a),
    decreases a,
{
    match (a, b) {
        (Json::Array(x), Json::Array(y)) => {
            assert forall|i: int| 0 <= i < y.len() implies is_equal(#[trigger] y[i], x[i]) by {
                assert(is_canonical(x[i]));
                assert(is_equal(x[i], y[i]));
                law_equality_symmetric(x[i], y[i]);
            }
        },
        (Json::Object(x), Json::Object(y)) => {
            assert(keys_within(x, y));
            assert forall|i: int| 0 <= i < y.len() implies match lookup(x, (#[trigger] y[i]).0) {
                Some(v) => is_equal(y[i].1, v),
                None => false,
            } by {
                lemma_same_keys(x, y, i);
                lemma_sorted_lookup(x, i);
                assert(is_canonical(x[i].1));
                law_equality_symmetric(x[i].1, y[i].1);
            }
        },
        _ => {},
    }
}

/// Equality is transitive.
pub proof fn law_equality_transitive(a: Json, b: Json, c: Json)
    requires
        is_equal(a, b),
        is_equal(b, c),
    ensures
        is_equal(a, c),
    decreases a,
{
    match (a, b, c) {
        (Json::Array(x), Json::Array(y), Json::Array(z)) => {
            assert forall|i: int| 0 <= i < x.len() implies is_equal(#[trigger] x[i], z[i]) by {
                assert(is_equal(y[i], z[i]));
                law_equality_transitive(x[i], y[i], z[i]);
            }
        },
        (Json::Object(x), Json::Object(y), Json::Object(z)) => {
            assert forall|i: int| 0 <= i < x.len() implies match lookup(z, (#[trigger] x[i]).0) {
                Some(v) => is_equal(x[i].1, v),
                None => false,
            } by {
                let k = lemma_lookup_index(y, x[i].0);
                assert(lookup(z, y[k].0) is Some);
                law_equality_transitive(x[i].1, y[k].1, lookup(z, y[k].0).unwrap());
            }
        },
        _ => {},
    }
}

/// The order seen from the other side.
pub open spec fn mirrored(o: Order) -> Order {
    match o {
        Order::Less => Order::Greater,
        Order::Equal => Order::Equal,
        Order::Greater => Order::Less,
    }
}

/// Comparing two values the other way round mirrors their order; and two values
/// that cannot be compared cannot be compared the other way round.
pub proof fn law_order_mirrored(a: Json, b: Json)
    ensures
        match order_of(a, b) {
            Ok(o) => order_of(b, a) == Ok::<Order, Failure>(mirrored(o)),
            Err(_) => order_of(b, a) is Err,
        },
    decreases a, 0nat,
{
    match (a, b) {
        (Json::String(x), Json::String(y)) => {
            lemma_less_irreflexive(x);
            if text_less(x, y) && text_less(y, x) {
                lemma_less_transitive(x, y, x);
            }
        },
        (Json::Array(x), Json::Array(y)) => lemma_items_mirrored(x, y),
        _ => {},
    }
}

/// Comparing two lists the other way round mirrors their order.
proof fn lemma_items_mirrored(x: Seq<Json>, y: Seq<Json>)
    ensures
        match items_order(x, y) {
            Ok(o) => items_order(y, x) == Ok::<Order, Failure>(mirrored(o)),
            Err(_) => items_order(y, x) is Err,
        },
    decreases x, 1nat,
{
    if x.len() > 0 && y.len() > 0 {
        law_order_mirrored(x[0], y[0]);
        assert(x.subrange(1, x.len() as int) =~= x.skip(1));
        assert(y.subrange(1, y.len() as int) =~= y.skip(1));
        lemma_items_mirrored(x.subrange(1, x.len() as int), y.skip(1));
    }
}

/// Values in canonical form that stand at the same place in the order are equal.
pub proof fn law_order_agrees(a: Json, b: Json)
    requires
        is_canonical(a),
        is_canonical(b),
        order_of(a, b) == Ok::<Order, Failure>(Order::Equal),
    ensures
        is_equal(a, b),
    decreases a, 0nat,
{
    match (a, b) {
        (Json::Number(x), Json::Number(y)) => {
            lemma_number_finite(x);
            lemma_number_finite(y);
        },
        (Json::String(x), Json::String(y)) => lemma_less_total(x, y),
        (Json::Array(x), Json::Array(y)) => lemma_items_agree(x, y),
        _ => {},
    }
}

/// Lists that stand at the same place in the order are equal.
proof fn lemma_items_agree(x: Seq<Json>, y: Seq<Json>)
    requires
        forall|i: int| 0 <= i < x.len() ==> is_canonical(#[trigger] x[i]),
        forall|i: int| 0 <= i < y.len() ==> is_canonical(#[trigger] y[i]),
        items_order(x, y) == Ok::<Order, Failure>(Order::Equal),
    ensures
        x.len() == y.len(),
        forall|i: int| 0 <= i < x.len() ==> is_equal(#[trigger] x[i], y[i]),
    decreases x, 1nat,
{
    if x.len() > 0 && y.len() > 0 {
        law_order_agrees(x[0], y[0]);
        let xs = x.subrange(1, x.len() as int);
        let ys = y.skip(1);
        assert forall|i: int| 0 <= i < xs.len() implies is_canonical(#[trigger] xs[i]) by {
            assert(xs[i] == x[i + 1]);
        }
        assert forall|i: int| 0 <= i < ys.len() implies is_canonical(#[trigger] ys[i]) by {
            assert(ys[i] == y[i + 1]);
        }
        lemma_items_agree(xs, ys);
        assert forall|i: int| 0 <= i < x.len() implies is_equal(#[trigger] x[i], y[i]) by {
            if i > 0 {
                assert(xs[i - 1] == x[i] && ys[i - 1] == y[i]);
                assert(is_equal(xs[i - 1], ys[i - 1]));
            }
        }
    }
}

// ---------------------------------------------------------------------------
// Blocks
// ---------------------------------------------------------------------------

/// A text without a block stands for itself in a template.
pub proof fn law_text_stands_for_itself(source: Seq<char>, input: Json, env: Members)
    requires
        !occurs(source, "${"@),
    ensures
        plan_of(source) == Ok::<Plan, Failure>(Plan::Plain(source)),
        filled(Plan::Plain(source), input, env) == Ok::<Json, Failure>(Json::String(source)),
{
    law_inline_expressions(source);
}

/// A text that is one block, closed by its last brace, is the expression in it, so
/// that it keeps the type of its value: it is no text.
pub proof fn law_block_is_its_expression(inner: Seq<char>)
    requires
        block_close("${"@ + inner + "}"@, 1) == Some(inner.len() as int + 2),
    ensures
        plan_of("${"@ + inner + "}"@) == match parse_tree(trimmed(inner)) {
            Ok(t) => Ok::<Plan, Failure>(Plan::Expr(t)),
            Err(e) => Err(e),
        },
{
    reveal_strlit("${");
    reveal_strlit("}");
    let s = "${"@ + inner + "}"@;
    let close = inner.len() as int + 2;
    assert(s[0] == '$' && s[1] == '{' && s[close] == '}');
    assert(s.subrange(2, close) =~= inner);
    assert(run_start(s, s.len() as int, space_test()) == s.len());
    assert(trimmed_end(s) =~= s);
    assert(run_end(s, 0, space_test()) == 0);
    assert(trimmed_start(s) =~= s);
    assert(trimmed(s) == s);
    assert(run_end(s, close + 1, space_test()) == s.len());
    assert(single_block(s) == Some(trimmed(inner)));
}

/// A block without braces and string literals is closed by the first brace behind
/// it.
pub proof fn law_simple_block_closes(inner: Seq<char>)
    requires
        forall|i: int|
            0 <= i < inner.len() ==> #[trigger] inner[i] != '{' && inner[i] != '}' && inner[i]
                != '"',
    ensures
        block_close("${"@ + inner + "}"@, 1) == Some(inner.len() as int + 2),
{
    reveal_strlit("${");
    reveal_strlit("}");
    let s = "${"@ + inner + "}"@;
    let close = inner.len() as int + 2;
    assert(s[close] == '}');
    assert forall|i: int| 2 <= i < close implies #[trigger] s[i] != '{' && s[i] != '}' && s[i]
        != '"' by {
        assert(s[i] == inner[i - 2]);
    }
    lemma_first_brace(s, 2, close, false);
}

/// The first brace closes a block without braces and string literals before it.
pub proof fn lemma_first_brace(s: Seq<char>, from: int, close: int, comment: bool)
    requires
        0 <= from <= close < s.len(),
        s[close] == '}',
        forall|i: int|
            from <= i < close ==> #[trigger] s[i] != '{' && s[i] != '}' && s[i] != '"',
    ensures
        close_from(s, from, 1, comment) == Some(close),
    decreases close - from,
{
    if from < close {
        assert(s[from] != '{' && s[from] != '}' && s[from] != '"');
        lemma_first_brace(
            s,
            from + 1,
            close,
            s[from] == '#' || (comment && s[from] != '\n'),
        );
    }
}

/// Behind the start of a run that ends at a position, every character passes.
proof fn lemma_run_behind(s: Seq<char>, pos: int, test: CharTest)
    requires
        0 <= pos <= s.len(),
    ensures
        0 <= run_start(s, pos, test) <= pos,
        forall|i: int| run_start(s, pos, test) <= i < pos ==> test(#[trigger] s[i]),
    decreases pos,
{
    if 0 < pos && test(s[pos - 1]) {
        lemma_run_behind(s, pos - 1, test);
    }
}

/// White space around a text holds no start of a block.
proof fn lemma_block_in_trimmed(source: Seq<char>)
    ensures
        occurs(trimmed(source), "${"@) == occurs(source, "${"@),
{
    reveal_strlit("${");
    let mark = "${"@;
    let end = run_start(source, source.len() as int, space_test());
    lemma_run_behind(source, source.len() as int, space_test());
    let t = source.take(end);
    assert(trimmed_end(source) == t);
    let start = run_end(t, 0, space_test());
    lemma_run_end(t, 0, space_test());
    let s = t.skip(start);
    assert(trimmed(source) == s);
    assert(s =~= source.subrange(start, end));
    if occurs(s, mark) {
        let i = choose|i: int| occurs_at(s, mark, i);
        assert(source.subrange(start + i, start + i + 2) =~= s.subrange(i, i + 2));
        assert(occurs_at(source, mark, start + i));
    }
    if occurs(source, mark) {
        let i = choose|i: int| occurs_at(source, mark, i);
        let two = source.subrange(i, i + 2);
        assert(two[0] == source[i] && two[1] == source[i + 1]);
        assert(source[i] == '$' && source[i + 1] == '{');
        if i < start {
            assert(space_test()(t[i]));
            assert(t[i] == source[i]);
        }
        if i + 1 >= end {
            assert(space_test()(source[i + 1]));
        }
        assert(s.subrange(i - start, i - start + 2) =~= two);
        assert(occurs_at(s, mark, i - start));
    }
}

/// A text that holds an inline expression is one block or a template with blocks,
/// or it cannot be compiled; any other text is plain.
pub proof fn law_inline_expressions(source: Seq<char>)
    ensures
        occurs(source, "${"@) <==> plan_of(source) != Ok::<Plan, Failure>(Plan::Plain(source)),
{
    reveal_strlit("${");
    lemma_block_in_trimmed(source);
    let s = trimmed(source);
    let start = run_end(s, 0, space_test());
    if opens_block(s, start) {
        assert(s.subrange(start, start + 2) =~= "${"@);
        assert(occurs_at(s, "${"@, start));
    }
}

} // verus!
