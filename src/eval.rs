use crate::value::Value;
use evalexpr::{
    eval_with_context, Context, ContextWithMutableVariables, DefaultNumericTypes,
    EvalexprNumericTypes, HashMapContext,
};
use vstd::string::StrSliceExecFns;
use vstd::prelude::*;

verus! {

/// The variables in scope while the facts of one variant are evaluated:
/// an evalexpr context without built-in functions, so that an expression
/// holds only literals, operators and variables.
#[verifier::external_body]
pub struct Scope {
    ctx: HashMapContext<DefaultNumericTypes>,
}

/// The variables that an evaluation context binds, by name.
pub uninterp spec fn scope_vars(c: Scope) -> Map<Seq<char>, Value>;

/// What evaluating an expression that does not use the power operator
/// yields with the given variables in scope, with any NaN given the bits
/// `NAN_BITS`: `None` where the expression does not parse, names an unbound
/// identifier or function, or applies an operator to operands of the wrong
/// kinds or with an overflowing or undefined integer result.
pub uninterp spec fn evaluated(expr: Seq<char>, vars: Map<Seq<char>, Value>) -> Option<Value>;

/// Relies on HashMapContext::new, a context with no variables, and on
/// HashMapContext::set_builtin_functions_disabled, which turns its built-in
/// functions off.
#[verifier::external_body]
pub(crate) fn new_scope() -> (r: Scope)
    ensures
        scope_vars(r) =~= Map::empty(),
{
    let mut ctx = HashMapContext::new();
    let _ = ctx.set_builtin_functions_disabled(true);
    Scope { ctx }
}

/// Relies on HashMapContext::set_value: a name not yet bound is always
/// accepted; a successful call binds the name to the value, a failed one
/// leaves the context as it was.
#[verifier::external_body]
pub(crate) fn bind(c: &mut Scope, name: &String, v: &Value) -> (r: bool)
    requires
        v.is_supported(),
    ensures
        r ==> scope_vars(*final(c)) == scope_vars(*old(c)).insert(name@, *v),
        !r ==> scope_vars(*final(c)) == scope_vars(*old(c)),
        !scope_vars(*old(c)).contains_key(name@) ==> r,
{
    let ev = match v {
        Value::String(s) => evalexpr::Value::String(s.clone()),
        Value::Float(b) => evalexpr::Value::Float(<<DefaultNumericTypes as EvalexprNumericTypes>::Float>::from_bits(*b)),
        Value::Integer(i) => evalexpr::Value::Int(*i),
        Value::Boolean(b) => evalexpr::Value::Boolean(*b),
        Value::Unsupported => evalexpr::Value::Empty,
    };
    c.ctx.set_value(name.clone(), ev).is_ok()
}

impl Scope {
    /// A scope with no variables.
    pub fn new() -> (r: Scope)
        ensures
            scope_vars(r) =~= Map::empty(),
    {
        new_scope()
    }

    /// Binds `name` to `v`; a name bound already to a value of another kind
    /// is refused, and the scope is left as it was.
    pub fn define(&mut self, name: &String, v: &Value) -> (r: bool)
        requires
            v.is_supported(),
        ensures
            r ==> scope_vars(*final(self)) == scope_vars(*old(self)).insert(name@, *v),
            !r ==> scope_vars(*final(self)) == scope_vars(*old(self)),
            !scope_vars(*old(self)).contains_key(name@) ==> r,
    {
        bind(self, name, v)
    }
}

/// Where evalexpr's tokenizer stands after reading some text: in code,
/// just after a `/` in code, in a string literal, just after a `\` in a
/// string literal, in a line comment, in a block comment, or just after a
/// `*` in a block comment.
#[derive(Debug, Clone, Copy, PartialEq, Eq, Structural)]
pub enum LexState {
    Code,
    Slash,
    Str,
    Escape,
    Line,
    Block,
    BlockStar,
}

/// The state after reading `c` in code.
pub open spec fn code_next(c: char) -> LexState {
    if c == '"' {
        LexState::Str
    } else if c == '/' {
        LexState::Slash
    } else {
        LexState::Code
    }
}

/// The state after reading `c` in state `st`. A `/` in code opens a comment
/// where `/` or `*` follows it; otherwise the next character is read as code.
pub open spec fn lex_next(st: LexState, c: char) -> LexState {
    match st {
        LexState::Code => code_next(c),
        LexState::Slash => if c == '/' {
            LexState::Line
        } else if c == '*' {
            LexState::Block
        } else {
            code_next(c)
        },
        LexState::Str => if c == '"' {
            LexState::Code
        } else if c == '\\' {
            LexState::Escape
        } else {
            LexState::Str
        },
        LexState::Escape => LexState::Str,
        LexState::Line => if c == '\n' {
            LexState::Code
        } else {
            LexState::Line
        },
        LexState::Block => if c == '*' {
            LexState::BlockStar
        } else {
            LexState::Block
        },
        LexState::BlockStar => if c == '/' {
            LexState::Code
        } else if c == '*' {
            LexState::BlockStar
        } else {
            LexState::Block
        },
    }
}

/// The state after reading `s` from the start.
pub open spec fn lex_state(s: Seq<char>) -> LexState
    decreases s.len(),
{
    if s.len() == 0 {
        LexState::Code
    } else {
        lex_next(lex_state(s.drop_last()), s.last())
    }
}

/// Whether the character at `i` is a `^` read as code: the power operator.
pub open spec fn power_op_at(s: Seq<char>, i: int) -> bool {
    s[i] == '^' && (lex_state(s.take(i)) == LexState::Code || lex_state(s.take(i))
        == LexState::Slash)
}

/// Whether the expression uses the power operator.
pub open spec fn has_power_op(s: Seq<char>) -> bool {
    exists|i: int| 0 <= i < s.len() && #[trigger] power_op_at(s, i)
}

/// The bit pattern that stands for every NaN.
pub const NAN_BITS: u64 = 0x7ff8000000000000;

/// Whether the bits are those of a NaN: exponent all ones, fraction not zero.
pub open spec fn nan_bits(b: u64) -> bool {
    (b >> 52u64) & 0x7ffu64 == 0x7ffu64 && b & 0xfffffffffffffu64 != 0
}

/// The value with any NaN replaced by the one NaN of `NAN_BITS`.
pub open spec fn canonical(v: Value) -> Value {
    match v {
        Value::Float(b) => if nan_bits(b) {
            Value::Float(NAN_BITS)
        } else {
            v
        },
        _ => v,
    }
}

/// Relies on evalexpr::eval_with_context: evaluates the expression against
/// the variables of the context; a tuple or empty result becomes
/// `Value::Unsupported`. The sign and payload of a NaN that it computes
/// differ between platforms, so the result is given up to them. The power
/// operator `^` is left out: it computes with `f64::powf`, whose result
/// may differ between platforms.
#[verifier::external_body]
fn eval_in(expr: &String, c: &Scope) -> (r: Option<Value>)
    requires
        !has_power_op(expr@),
    ensures
        r is Some <==> evaluated(expr@, scope_vars(*c)) is Some,
        r is Some ==> canonical(r->0) == evaluated(expr@, scope_vars(*c))->0,
{
    match eval_with_context(expr, &c.ctx) {
        Ok(evalexpr::Value::String(s)) => Some(Value::String(s)),
        Ok(evalexpr::Value::Float(f)) => Some(Value::Float(f.to_bits())),
        Ok(evalexpr::Value::Int(i)) => Some(Value::Integer(i)),
        Ok(evalexpr::Value::Boolean(b)) => Some(Value::Boolean(b)),
        Ok(_) => Some(Value::Unsupported),
        Err(_) => None,
    }
}

/// What evaluating an expression yields: nothing for an expression that
/// uses the power operator `^` (not part of the expression language), else
/// `evaluated`.
pub open spec fn evaluation(expr: Seq<char>, vars: Map<Seq<char>, Value>) -> Option<Value> {
    if has_power_op(expr) {
        None
    } else {
        evaluated(expr, vars)
    }
}

impl LexState {
    fn next(self, c: char) -> (r: LexState)
        ensures
            r == lex_next(self, c),
    {
        let code = if c == '"' {
            LexState::Str
        } else if c == '/' {
            LexState::Slash
        } else {
            LexState::Code
        };
        match self {
            LexState::Code => code,
            LexState::Slash => if c == '/' {
                LexState::Line
            } else if c == '*' {
                LexState::Block
            } else {
                code
            },
            LexState::Str => if c == '"' {
                LexState::Code
            } else if c == '\\' {
                LexState::Escape
            } else {
                LexState::Str
            },
            LexState::Escape => LexState::Str,
            LexState::Line => if c == '\n' {
                LexState::Code
            } else {
                LexState::Line
            },
            LexState::Block => if c == '*' {
                LexState::BlockStar
            } else {
                LexState::Block
            },
            LexState::BlockStar => if c == '/' {
                LexState::Code
            } else if c == '*' {
                LexState::BlockStar
            } else {
                LexState::Block
            },
        }
    }
}

/// Whether the expression uses the power operator `^`.
pub fn uses_power_op(expr: &String) -> (r: bool)
    ensures
        r == has_power_op(expr@),
{
    let n = expr.as_str().unicode_len();
    let mut st = LexState::Code;
    let mut i: usize = 0;
    while i < n
        invariant
            n == expr@.len(),
            i <= n,
            st == lex_state(expr@.take(i as int)),
            forall|k: int| 0 <= k < i ==> !#[trigger] power_op_at(expr@, k),
        decreases n - i,
    {
        let c = expr.as_str().get_char(i);
        if c == '^' && (st == LexState::Code || st == LexState::Slash) {
            assert(power_op_at(expr@, i as int));
            return true;
        }
        assert(expr@.take(i as int + 1).drop_last() =~= expr@.take(i as int));
        st = st.next(c);
        i = i + 1;
    }
    false
}

/// Evaluates an expression against the variables of the scope; any NaN
/// comes out as the one of `NAN_BITS`.
pub fn evaluate_expr(expr: &String, c: &Scope) -> (r: Option<Value>)
    ensures
        r == evaluation(expr@, scope_vars(*c)),
{
    if uses_power_op(expr) {
        return None;
    }
    match eval_in(expr, c) {
        Some(Value::Float(b)) => {
            if (b >> 52u64) & 0x7ffu64 == 0x7ffu64 && b & 0xfffffffffffffu64 != 0 {
                Some(Value::Float(NAN_BITS))
            } else {
                Some(Value::Float(b))
            }
        },
        Some(v) => Some(v),
        None => None,
    }
}

} // verus!
