//! The abstract syntax of the expression language.
use crate::json::{Json, Object, Value};
use vstd::prelude::*;

verus! {

broadcast use crate::json::group_json;

/// A binary operator.
#[derive(Debug, Clone, Copy, PartialEq, Eq, Structural)]
pub enum BinOp {
    Add,
    Sub,
    Mul,
    Div,
    Mod,
    Eq,
    Ne,
    Lt,
    Le,
    Gt,
    Ge,
    And,
    Or,
    Alternative,
}

/// The notation of an operator.
pub open spec fn operator_text(op: BinOp) -> Seq<char> {
    match op {
        BinOp::Add => "+"@,
        BinOp::Sub => "-"@,
        BinOp::Mul => "*"@,
        BinOp::Div => "/"@,
        BinOp::Mod => "%"@,
        BinOp::Eq => "=="@,
        BinOp::Ne => "!="@,
        BinOp::Lt => "<"@,
        BinOp::Le => "<="@,
        BinOp::Gt => ">"@,
        BinOp::Ge => ">="@,
        BinOp::And => "and"@,
        BinOp::Or => "or"@,
        BinOp::Alternative => "//"@,
    }
}

impl BinOp {
    /// A short display form for error messages.
    pub fn symbol(self) -> (r: &'static str)
        ensures
            r@ == operator_text(self),
    {
        match self {
            BinOp::Add => "+",
            BinOp::Sub => "-",
            BinOp::Mul => "*",
            BinOp::Div => "/",
            BinOp::Mod => "%",
            BinOp::Eq => "==",
            BinOp::Ne => "!=",
            BinOp::Lt => "<",
            BinOp::Le => "<=",
            BinOp::Gt => ">",
            BinOp::Ge => ">=",
            BinOp::And => "and",
            BinOp::Or => "or",
            BinOp::Alternative => "//",
        }
    }
}

/// A unary operator.
#[derive(Debug, Clone, Copy, PartialEq, Eq, Structural)]
pub enum UnaryOp {
    Not,
    Negate,
}

/// A key of an object constructor.
#[derive(Debug, PartialEq)]
pub enum ObjKey {
    /// An identifier, `{ foo: ... }`.
    Ident(String),
    /// A string, `{ "foo bar": ... }`.
    Str(String),
    /// A computed key, `{ ($k): ... }`.
    Computed(Box<Expr>),
}

/// A part of a string with interpolation.
#[derive(Debug, PartialEq)]
pub enum InterpPart {
    /// A literal segment.
    Literal(String),
    /// An interpolated expression.
    Expr(Box<Expr>),
}

/// An expression.
#[derive(Debug, PartialEq)]
pub enum Expr {
    /// `.`
    Identity,
    /// `.foo`
    Field(Box<Expr>, String),
    /// `.[expr]`
    Index(Box<Expr>, Box<Expr>),
    /// `.[]`
    Iterate(Box<Expr>),
    /// `$name`
    Variable(String),
    /// A literal value.
    Literal(Value),
    /// A string, possibly with interpolation.
    Str(Vec<InterpPart>),
    /// A binary operation.
    Binary(BinOp, Box<Expr>, Box<Expr>),
    /// `not expr` or `-expr`
    Unary(UnaryOp, Box<Expr>),
    /// `a | b`
    Pipe(Box<Expr>, Box<Expr>),
    /// `[a, b, c]`
    Array(Vec<Expr>),
    /// `{ k: v, ... }`
    Object(Vec<(ObjKey, Expr)>),
    /// `if cond then t else f end`
    If(Box<Expr>, Box<Expr>, Box<Expr>),
    /// `name(args...)`
    Call(String, Vec<Expr>),
    /// `(a, b)`
    Stream(Vec<Expr>),
}

/// The model of an expression.
pub ghost enum Tree {
    Identity,
    Field(Box<Tree>, Seq<char>),
    Index(Box<Tree>, Box<Tree>),
    Iterate(Box<Tree>),
    Variable(Seq<char>),
    Literal(Json),
    Str(Seq<Part>),
    Binary(BinOp, Box<Tree>, Box<Tree>),
    Unary(UnaryOp, Box<Tree>),
    Pipe(Box<Tree>, Box<Tree>),
    Array(Seq<Tree>),
    Object(Seq<(Key, Tree)>),
    If(Box<Tree>, Box<Tree>, Box<Tree>),
    Call(Seq<char>, Seq<Tree>),
    Stream(Seq<Tree>),
}

/// The model of a part of a string.
pub ghost enum Part {
    Literal(Seq<char>),
    Expr(Box<Tree>),
}

/// The model of a key of an object constructor.
pub ghost enum Key {
    Ident(Seq<char>),
    Str(Seq<char>),
    Computed(Box<Tree>),
}

/// The model of an expression.
pub open spec fn expr_tree(e: Expr) -> Tree
    decreases e,
{
    match e {
        Expr::Identity => Tree::Identity,
        Expr::Field(base, name) => Tree::Field(Box::new(expr_tree(*base)), name@),
        Expr::Index(base, index) => Tree::Index(
            Box::new(expr_tree(*base)),
            Box::new(expr_tree(*index)),
        ),
        Expr::Iterate(base) => Tree::Iterate(Box::new(expr_tree(*base))),
        Expr::Variable(name) => Tree::Variable(name@),
        Expr::Literal(v) => Tree::Literal(v@),
        Expr::Str(parts) => Tree::Str(
            Seq::new(
                parts@.len(),
                |i: int|
                    if 0 <= i < parts@.len() {
                        part_tree(parts@[i])
                    } else {
                        Part::Literal(Seq::empty())
                    },
            ),
        ),
        Expr::Binary(op, l, r) => Tree::Binary(
            op,
            Box::new(expr_tree(*l)),
            Box::new(expr_tree(*r)),
        ),
        Expr::Unary(op, inner) => Tree::Unary(op, Box::new(expr_tree(*inner))),
        Expr::Pipe(l, r) => Tree::Pipe(Box::new(expr_tree(*l)), Box::new(expr_tree(*r))),
        Expr::Array(items) => Tree::Array(
            Seq::new(
                items@.len(),
                |i: int|
                    if 0 <= i < items@.len() {
                        expr_tree(items@[i])
                    } else {
                        Tree::Identity
                    },
            ),
        ),
        Expr::Object(entries) => Tree::Object(
            Seq::new(
                entries@.len(),
                |i: int|
                    if 0 <= i < entries@.len() {
                        (key_tree(entries@[i].0), expr_tree(entries@[i].1))
                    } else {
                        (Key::Ident(Seq::empty()), Tree::Identity)
                    },
            ),
        ),
        Expr::If(c, t, f) => Tree::If(
            Box::new(expr_tree(*c)),
            Box::new(expr_tree(*t)),
            Box::new(expr_tree(*f)),
        ),
        Expr::Call(name, args) => Tree::Call(
            name@,
            Seq::new(
                args@.len(),
                |i: int|
                    if 0 <= i < args@.len() {
                        expr_tree(args@[i])
                    } else {
                        Tree::Identity
                    },
            ),
        ),
        Expr::Stream(items) => Tree::Stream(
            Seq::new(
                items@.len(),
                |i: int|
                    if 0 <= i < items@.len() {
                        expr_tree(items@[i])
                    } else {
                        Tree::Identity
                    },
            ),
        ),
    }
}

/// The model of a part of a string.
pub open spec fn part_tree(p: InterpPart) -> Part
    decreases p,
{
    match p {
        InterpPart::Literal(s) => Part::Literal(s@),
        InterpPart::Expr(e) => Part::Expr(Box::new(expr_tree(*e))),
    }
}

/// The model of a key of an object constructor.
pub open spec fn key_tree(k: ObjKey) -> Key
    decreases k,
{
    match k {
        ObjKey::Ident(s) => Key::Ident(s@),
        ObjKey::Str(s) => Key::Str(s@),
        ObjKey::Computed(e) => Key::Computed(Box::new(expr_tree(*e))),
    }
}

impl View for Expr {
    type V = Tree;

    open spec fn view(&self) -> Tree {
        expr_tree(*self)
    }
}

impl View for InterpPart {
    type V = Part;

    open spec fn view(&self) -> Part {
        part_tree(*self)
    }
}

impl View for ObjKey {
    type V = Key;

    open spec fn view(&self) -> Key {
        key_tree(*self)
    }
}

/// The models of a list of expressions.
pub open spec fn trees(items: Seq<Expr>) -> Seq<Tree> {
    items.map_values(|e: Expr| e@)
}

/// The models of a list of parts.
pub open spec fn part_trees(items: Seq<InterpPart>) -> Seq<Part> {
    items.map_values(|p: InterpPart| p@)
}

/// The models of a list of object entries.
pub open spec fn entry_trees(items: Seq<(ObjKey, Expr)>) -> Seq<(Key, Tree)> {
    items.map_values(|e: (ObjKey, Expr)| (e.0@, e.1@))
}

/// The model of an array constructor.
pub broadcast proof fn lemma_array_tree(items: Vec<Expr>)
    ensures
        #[trigger] Expr::Array(items)@ == Tree::Array(trees(items@)),
{
    assert(Expr::Array(items)@->Array_0 =~= trees(items@));
}

/// The model of a stream.
pub broadcast proof fn lemma_stream_tree(items: Vec<Expr>)
    ensures
        #[trigger] Expr::Stream(items)@ == Tree::Stream(trees(items@)),
{
    assert(Expr::Stream(items)@->Stream_0 =~= trees(items@));
}

/// The model of a call.
pub broadcast proof fn lemma_call_tree(name: String, args: Vec<Expr>)
    ensures
        #[trigger] Expr::Call(name, args)@ == Tree::Call(name@, trees(args@)),
{
    assert(Expr::Call(name, args)@->Call_1 =~= trees(args@));
}

/// The model of an object constructor.
pub broadcast proof fn lemma_object_tree(entries: Vec<(ObjKey, Expr)>)
    ensures
        #[trigger] Expr::Object(entries)@ == Tree::Object(entry_trees(entries@)),
{
    assert(Expr::Object(entries)@->Object_0 =~= entry_trees(entries@));
}

/// The model of a string.
pub broadcast proof fn lemma_str_tree(parts: Vec<InterpPart>)
    ensures
        #[trigger] Expr::Str(parts)@ == Tree::Str(part_trees(parts@)),
{
    assert(Expr::Str(parts)@->Str_0 =~= part_trees(parts@));
}

pub broadcast group group_ast {
    lemma_array_tree,
    lemma_stream_tree,
    lemma_call_tree,
    lemma_object_tree,
    lemma_str_tree,
}

} // verus!
