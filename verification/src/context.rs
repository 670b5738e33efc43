//! What expressions are evaluated in, and what an engine gives back.
use crate::dict::{Dict, Entries};
use crate::json::{Json, Members, Object, Value};
use crate::text::{concat2, concat3};
use crate::value::{inserted, merged, to_string};
use vstd::prelude::*;

verus! {

broadcast use crate::json::group_json;

/// The arguments that an expression can name.
#[derive(Debug)]
pub struct ExpressionContext {
    /// The workflow's context data (`$context`).
    pub context: Value,
    /// The task's transformed input (`$input`).
    pub input: Value,
    /// The task's transformed output (`$output`).
    pub output: Value,
    /// The workflow's secrets by name (`$secrets`).
    pub secrets: Dict<String>,
    /// The resolved authorization (`$authorization`), if any.
    pub authorization: Option<Value>,
    /// The current task descriptor (`$task`), if any.
    pub task: Option<Value>,
    /// The current workflow descriptor (`$workflow`), if any.
    pub workflow: Option<Value>,
    /// The runtime descriptor (`$runtime`), if any.
    pub runtime: Option<Value>,
    /// Further variables, such as those of a loop.
    pub extra_vars: Object,
}

/// The secrets as members of an object.
pub open spec fn secret_members(secrets: Entries<String>) -> Members
    decreases secrets.len(),
{
    if secrets.len() == 0 {
        Seq::empty()
    } else {
        inserted(
            secret_members(secrets.drop_last()),
            secrets.last().0,
            Json::String(secrets.last().1@),
        )
    }
}

/// The members with one set where there is a value for it.
pub open spec fn with_optional(m: Members, key: Seq<char>, v: Option<Value>) -> Members {
    match v {
        Some(j) => inserted(m, key, j@),
        None => m,
    }
}

/// The variables of a context with the given input and output. Further
/// variables replace the standard ones of the same name.
pub open spec fn context_variables(c: ExpressionContext, input: Json, output: Json) -> Members {
    let m = Seq::<(Seq<char>, Json)>::empty();
    let m = inserted(m, "context"@, c.context@);
    let m = inserted(m, "input"@, input);
    let m = inserted(m, "output"@, output);
    let m = inserted(m, "secrets"@, Json::Object(secret_members(c.secrets@)));
    let m = with_optional(m, "authorization"@, c.authorization);
    let m = with_optional(m, "task"@, c.task);
    let m = with_optional(m, "workflow"@, c.workflow);
    let m = with_optional(m, "runtime"@, c.runtime);
    merged(m, c.extra_vars@)
}

/// Sets a member where there is a value for it.
fn insert_optional(o: &mut Object, key: &str, v: &Option<Value>)
    ensures
        final(o)@ == with_optional(old(o)@, key@, *v),
{
    match v {
        Some(j) => o.insert(key.to_owned(), j.clone()),
        None => {},
    }
}

impl Default for ExpressionContext {
    fn default() -> (r: Self)
        ensures
            r.context@ == Json::Null,
            r.input@ == Json::Null,
            r.output@ == Json::Null,
            r.secrets@.len() == 0,
            r.authorization is None,
            r.task is None,
            r.workflow is None,
            r.runtime is None,
            r.extra_vars@.len() == 0,
    {
        Self {
            context: Value::Null,
            input: Value::Null,
            output: Value::Null,
            secrets: Dict::new(),
            authorization: None,
            task: None,
            workflow: None,
            runtime: None,
            extra_vars: Object::new(),
        }
    }
}

impl ExpressionContext {
    /// The secrets as an object.
    fn secrets_object(&self) -> (r: Object)
        ensures
            r@ == secret_members(self.secrets@),
    {
        let ghost m = self.secrets@;
        let mut out = Object::new();
        let mut i: usize = 0;
        assert(m.take(0) =~= Seq::empty());
        while i < self.secrets.entries.len()
            invariant
                i <= self.secrets.entries.len(),
                m == self.secrets@,
                out@ == secret_members(m.take(i as int)),
            decreases self.secrets.entries.len() - i,
        {
            let key = self.secrets.entries[i].0.clone();
            let text = self.secrets.entries[i].1.clone();
            out.insert(key, Value::String(text));
            proof {
                let next = m.take(i + 1);
                assert(next.drop_last() =~= m.take(i as int));
                assert(next.last() == m[i as int]);
            }
            i += 1;
        }
        assert(m.take(self.secrets.entries.len() as int) =~= m);
        out
    }

    /// Builds the map of arguments exposed to the expression.
    pub fn as_variable_map(&self) -> (r: Object)
        ensures
            r@ == context_variables(*self, self.input@, self.output@),
    {
        self.as_variable_map_updated(&self.input, &self.output)
    }

    /// Builds the map of arguments with another input and output.
    pub fn as_variable_map_updated(&self, input: &Value, output: &Value) -> (r: Object)
        ensures
            r@ == context_variables(*self, input@, output@),
    {
        let mut map = Object::new();
        map.insert("context".to_owned(), self.context.clone());
        map.insert("input".to_owned(), input.clone());
        map.insert("output".to_owned(), output.clone());
        let secrets = self.secrets_object();
        map.insert("secrets".to_owned(), Value::Object(secrets));
        insert_optional(&mut map, "authorization", &self.authorization);
        insert_optional(&mut map, "task", &self.task);
        insert_optional(&mut map, "workflow", &self.workflow);
        insert_optional(&mut map, "runtime", &self.runtime);
        map.extend(&self.extra_vars);
        map
    }
}

/// An error raised during expression evaluation.
#[derive(Debug)]
pub struct ExpressionError {
    /// A human readable message.
    pub message: String,
    /// The expression that failed, if known.
    pub expression: Option<String>,
}

/// The displayed text of an expression error.
pub open spec fn expression_error_text(e: ExpressionError) -> Seq<char> {
    match e.expression {
        Some(x) => "expression error in `"@ + x@ + "`: "@ + e.message@,
        None => "expression error: "@ + e.message@,
    }
}

impl ExpressionError {
    /// The displayed text.
    pub fn to_string(&self) -> (r: String)
        ensures
            r@ == expression_error_text(*self),
    {
        match &self.expression {
            Some(x) => {
                let mut out = concat3("expression error in `", x.as_str(), "`: ");
                out.append(self.message.as_str());
                out
            },
            None => concat2("expression error: ", self.message.as_str()),
        }
    }
}

/// A compiled expression: its source and what the engine made of it.
#[derive(Debug)]
pub struct CompiledExpression<D> {
    /// The source text.
    pub source: String,
    /// The data of the engine.
    pub data: D,
}

impl<D> CompiledExpression<D> {
    /// A compiled expression.
    pub fn new(source: &str, data: D) -> (r: Self)
        ensures
            r.source@ == source@,
            r.data == data,
    {
        Self { source: source.to_owned(), data }
    }
}

/// An engine for runtime expressions. An engine never runs code from outside the
/// expression.
pub trait ExpressionEngine {
    /// What the engine makes of a source text.
    type Data;

    /// Parses and compiles an expression.
    fn compile(&self, source: &str) -> Result<CompiledExpression<Self::Data>, ExpressionError>;

    /// Evaluates a compiled expression on an input with variables.
    fn evaluate(
        &self,
        compiled: &CompiledExpression<Self::Data>,
        input: &Value,
        variables: &Object,
    ) -> Result<Value, ExpressionError>;

    /// Whether a text holds an inline expression.
    fn is_expression(&self, value: &str) -> bool;

    /// Evaluates the expressions in a text and puts their values in.
    fn evaluate_interpolation(
        &self,
        source: &str,
        input: &Value,
        variables: &Object,
    ) -> Result<Value, ExpressionError>;
}

} // verus!
