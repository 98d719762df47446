use vstd::prelude::*;
use vstd::string::*;
use crate::lexer::Position;
use crate::style::{Expr, ExprType, Value as Literal};
use crate::value::{as_map, get_key, keys_unique, str_eq, Rect, Value, ValueView};

verus! {

/// An operator, as named in errors.
#[derive(Debug, Clone, Copy, PartialEq, Eq, Structural)]
pub enum Op {
    Add,
    Subtract,
    Multiply,
    Divide,
    Negate,
}

/// Why an expression could not be evaluated.
#[derive(Debug, Clone)]
pub enum EvalError {
    UnknownVariable(String, Position),
    UnknownFunction(String, Position),
    /// The operator does not apply to the values it was given.
    CantOp(Op, Position),
    /// A style function failed, with its message.
    FunctionFailed(String, Position),
    /// Float literals and arithmetic on floats (division included) are not computed.
    FloatUnsupported(Position),
}

pub enum EvalErrorView {
    UnknownVariable(Seq<char>, Position),
    UnknownFunction(Seq<char>, Position),
    CantOp(Op, Position),
    FunctionFailed(Position),
    FloatUnsupported(Position),
}

impl View for EvalError {
    type V = EvalErrorView;

    open spec fn view(&self) -> EvalErrorView {
        match *self {
            EvalError::UnknownVariable(n, p) => EvalErrorView::UnknownVariable(n@, p),
            EvalError::UnknownFunction(n, p) => EvalErrorView::UnknownFunction(n@, p),
            EvalError::CantOp(o, p) => EvalErrorView::CantOp(o, p),
            EvalError::FunctionFailed(_, p) => EvalErrorView::FunctionFailed(p),
            EvalError::FloatUnsupported(p) => EvalErrorView::FloatUnsupported(p),
        }
    }
}

/// A function that styles can call by name.
pub trait StyleFunction {
    fn call(&self, args: Vec<Value>) -> Result<Value, String>;
}

pub type Outcome = Result<ValueView, EvalErrorView>;

pub open spec fn outcome(r: Result<Value, EvalError>) -> Outcome {
    match r {
        Ok(v) => Ok(v@),
        Err(e) => Err(e@),
    }
}

pub const SIGN_BIT: u64 = 0x8000_0000_0000_0000;

pub open spec fn is_number(v: ValueView) -> bool {
    v is Integer || v is Float
}

pub open spec fn neg_spec(v: ValueView, p: Position) -> Outcome {
    match v {
        ValueView::Boolean(b) => Ok(ValueView::Boolean(!b)),
        ValueView::Integer(i) => Ok(ValueView::Integer(0i32.wrapping_sub(i))),
        ValueView::Float(f) => Ok(ValueView::Float(f ^ SIGN_BIT)),
        _ => Err(EvalErrorView::CantOp(Op::Negate, p)),
    }
}

/// `+`: integers wrap, strings concatenate.
pub open spec fn add_spec(l: ValueView, r: ValueView, p: Position) -> Outcome {
    match (l, r) {
        (ValueView::Integer(a), ValueView::Integer(b)) => Ok(ValueView::Integer(a.wrapping_add(b))),
        (ValueView::String(a), ValueView::String(b)) => Ok(ValueView::String(a + b)),
        _ => if is_number(l) && is_number(r) {
            Err(EvalErrorView::FloatUnsupported(p))
        } else {
            Err(EvalErrorView::CantOp(Op::Add, p))
        },
    }
}

pub open spec fn sub_spec(l: ValueView, r: ValueView, p: Position) -> Outcome {
    match (l, r) {
        (ValueView::Integer(a), ValueView::Integer(b)) => Ok(ValueView::Integer(a.wrapping_sub(b))),
        _ => if is_number(l) && is_number(r) {
            Err(EvalErrorView::FloatUnsupported(p))
        } else {
            Err(EvalErrorView::CantOp(Op::Subtract, p))
        },
    }
}

pub open spec fn mul_spec(l: ValueView, r: ValueView, p: Position) -> Outcome {
    match (l, r) {
        (ValueView::Integer(a), ValueView::Integer(b)) => Ok(ValueView::Integer(a.wrapping_mul(b))),
        _ => if is_number(l) && is_number(r) {
            Err(EvalErrorView::FloatUnsupported(p))
        } else {
            Err(EvalErrorView::CantOp(Op::Multiply, p))
        },
    }
}

/// `/` always yields a float, so only its type errors are computed.
pub open spec fn div_spec(l: ValueView, r: ValueView, p: Position) -> Outcome {
    if is_number(l) && is_number(r) {
        Err(EvalErrorView::FloatUnsupported(p))
    } else {
        Err(EvalErrorView::CantOp(Op::Divide, p))
    }
}

/// The value of a literal or variable: the four `parent_*` names read the
/// parent rectangle, other names the rule's bindings.
pub open spec fn literal_spec(v: Literal, p: Position, vars: Map<Seq<char>, Value>, rect: Rect) -> Outcome {
    match v {
        Literal::Boolean(b) => Ok(ValueView::Boolean(b)),
        Literal::Integer(i) => Ok(ValueView::Integer(i)),
        Literal::Float(_) => Err(EvalErrorView::FloatUnsupported(p)),
        Literal::String(s) => Ok(ValueView::String(s@)),
        Literal::Variable(id) => if id.name@ == "parent_x"@ {
            Ok(ValueView::Integer(rect.x))
        } else if id.name@ == "parent_y"@ {
            Ok(ValueView::Integer(rect.y))
        } else if id.name@ == "parent_width"@ {
            Ok(ValueView::Integer(rect.width))
        } else if id.name@ == "parent_height"@ {
            Ok(ValueView::Integer(rect.height))
        } else {
            if vars.contains_key(id.name@) {
                Ok(vars[id.name@]@)
            } else {
                Err(EvalErrorView::UnknownVariable(id.name@, id.position))
            }
        },
    }
}

/// The expression calls no function.
pub open spec fn call_free(e: ExprType) -> bool
    decreases e,
{
    match e.expr {
        Expr::Value(_) => true,
        Expr::Neg(x) => call_free(*x),
        Expr::Add(l, r) => call_free(*l) && call_free(*r),
        Expr::Sub(l, r) => call_free(*l) && call_free(*r),
        Expr::Mul(l, r) => call_free(*l) && call_free(*r),
        Expr::Div(l, r) => call_free(*l) && call_free(*r),
        Expr::Call(_, _) => false,
    }
}

pub open spec fn binary(l: Outcome, r: Outcome, f: spec_fn(ValueView, ValueView) -> Outcome) -> Outcome {
    match l {
        Err(e) => Err(e),
        Ok(a) => match r {
            Err(e) => Err(e),
            Ok(b) => f(a, b),
        },
    }
}

/// The value of a call-free expression: operands left to right, the first error wins.
pub open spec fn eval_spec(e: ExprType, vars: Map<Seq<char>, Value>, rect: Rect) -> Outcome
    decreases e,
{
    let p = e.position;
    match e.expr {
        Expr::Value(v) => literal_spec(v, p, vars, rect),
        Expr::Neg(x) => match eval_spec(*x, vars, rect) {
            Ok(v) => neg_spec(v, p),
            Err(er) => Err(er),
        },
        Expr::Add(l, r) => binary(eval_spec(*l, vars, rect), eval_spec(*r, vars, rect), |a, b| add_spec(a, b, p)),
        Expr::Sub(l, r) => binary(eval_spec(*l, vars, rect), eval_spec(*r, vars, rect), |a, b| sub_spec(a, b, p)),
        Expr::Mul(l, r) => binary(eval_spec(*l, vars, rect), eval_spec(*r, vars, rect), |a, b| mul_spec(a, b, p)),
        Expr::Div(l, r) => binary(eval_spec(*l, vars, rect), eval_spec(*r, vars, rect), |a, b| div_spec(a, b, p)),
        Expr::Call(id, _) => Err(EvalErrorView::UnknownFunction(id.name@, id.position)),
    }
}

pub(crate) fn boxed_function<F: StyleFunction + 'static>(func: F) -> Box<dyn StyleFunction> {
    Box::new(func)
}

/// A style function with the name that styles call it by.
pub struct FunctionEntry {
    pub name: String,
    pub func: Box<dyn StyleFunction>,
}

impl FunctionEntry {
    pub fn new(name: &str, func: Box<dyn StyleFunction>) -> (r: FunctionEntry)
        ensures
            r.name@ == name@,
    {
        FunctionEntry { name: String::from_str(name), func }
    }
}

/// Every argument calls no function.
pub open spec fn args_call_free(args: Seq<ExprType>) -> bool {
    forall|k: int| 0 <= k < args.len() ==> call_free(#[trigger] args[k])
}

/// The error of the first argument, left to right, that fails to evaluate.
pub open spec fn first_error(args: Seq<ExprType>, vars: Map<Seq<char>, Value>, rect: Rect) -> Option<EvalErrorView>
    decreases args.len(),
{
    if args.len() == 0 {
        None
    } else {
        match eval_spec(args[0], vars, rect) {
            Err(er) => Some(er),
            Ok(_) => first_error(args.drop_first(), vars, rect),
        }
    }
}

/// The style functions, in the order registered; the first of a name is called.
pub struct Functions {
    pub entries: Vec<FunctionEntry>,
}

impl Functions {
    pub fn new() -> (r: Functions)
        ensures
            r.entries@.len() == 0,
    {
        Functions { entries: Vec::new() }
    }

    /// Registers a function under a name; an earlier one of that name stays first.
    pub fn add(&mut self, name: &str, func: Box<dyn StyleFunction>)
        ensures
            final(self).entries@.len() == old(self).entries@.len() + 1,
            final(self).entries@.last().name@ == name@,
            forall|i: int| 0 <= i < old(self).entries@.len() ==> final(self).entries@[i] == old(self).entries@[i],
    {
        let entry = FunctionEntry::new(name, func);
        self.push_entry(entry);
    }

    fn push_entry(&mut self, entry: FunctionEntry)
        ensures
            final(self).entries@ == old(self).entries@.push(entry),
    {
        self.entries.push(entry);
    }
}

pub open spec fn has_function(funcs: Functions, name: Seq<char>) -> bool {
    exists|i: int| 0 <= i < funcs.entries@.len() && funcs.entries@[i].name@ == name
}

fn is_num(v: &Value) -> (r: bool)
    ensures
        r == is_number(v@),
{
    match v {
        Value::Integer(_) => true,
        Value::Float(_) => true,
        _ => false,
    }
}

pub(crate) fn negate(v: Value, p: Position) -> (r: Result<Value, EvalError>)
    ensures
        outcome(r) == neg_spec(v@, p),
{
    match v {
        Value::Boolean(b) => Ok(Value::Boolean(!b)),
        Value::Integer(i) => Ok(Value::Integer(0i32.wrapping_sub(i))),
        Value::Float(f) => Ok(Value::Float(f ^ SIGN_BIT)),
        _ => Err(EvalError::CantOp(Op::Negate, p)),
    }
}

pub(crate) fn add_values(l: Value, r: Value, p: Position) -> (res: Result<Value, EvalError>)
    ensures
        outcome(res) == add_spec(l@, r@, p),
{
    let numbers = is_num(&l) && is_num(&r);
    match l {
        Value::Integer(a) => match r {
            Value::Integer(b) => {
                return Ok(Value::Integer(a.wrapping_add(b)));
            },
            _ => {},
        },
        Value::String(a) => match r {
            Value::String(b) => {
                let mut s = a;
                s.append(b.as_str());
                return Ok(Value::String(s));
            },
            _ => {},
        },
        _ => {},
    }
    if numbers {
        Err(EvalError::FloatUnsupported(p))
    } else {
        Err(EvalError::CantOp(Op::Add, p))
    }
}

pub(crate) fn sub_values(l: Value, r: Value, p: Position) -> (res: Result<Value, EvalError>)
    ensures
        outcome(res) == sub_spec(l@, r@, p),
{
    if let Value::Integer(a) = l {
        if let Value::Integer(b) = r {
            return Ok(Value::Integer(a.wrapping_sub(b)));
        }
    }
    if is_num(&l) && is_num(&r) {
        Err(EvalError::FloatUnsupported(p))
    } else {
        Err(EvalError::CantOp(Op::Subtract, p))
    }
}

pub(crate) fn mul_values(l: Value, r: Value, p: Position) -> (res: Result<Value, EvalError>)
    ensures
        outcome(res) == mul_spec(l@, r@, p),
{
    if let Value::Integer(a) = l {
        if let Value::Integer(b) = r {
            return Ok(Value::Integer(a.wrapping_mul(b)));
        }
    }
    if is_num(&l) && is_num(&r) {
        Err(EvalError::FloatUnsupported(p))
    } else {
        Err(EvalError::CantOp(Op::Multiply, p))
    }
}

pub(crate) fn div_values(l: Value, r: Value, p: Position) -> (res: Result<Value, EvalError>)
    ensures
        outcome(res) == div_spec(l@, r@, p),
{
    if is_num(&l) && is_num(&r) {
        Err(EvalError::FloatUnsupported(p))
    } else {
        Err(EvalError::CantOp(Op::Divide, p))
    }
}

/// The value of a literal or variable.
pub(crate) fn literal(v: &Literal, p: Position, vars: &Vec<(String, Value)>, rect: Rect) -> (r: Result<Value, EvalError>)
    requires
        keys_unique(vars@),
    ensures
        outcome(r) == literal_spec(*v, p, as_map(vars@), rect),
{
    match v {
        Literal::Boolean(b) => Ok(Value::Boolean(*b)),
        Literal::Integer(i) => Ok(Value::Integer(*i)),
        Literal::Float(_) => Err(EvalError::FloatUnsupported(p)),
        Literal::String(s) => Ok(Value::String(s.clone())),
        Literal::Variable(id) => {
            let name = id.name.as_str();
            if str_eq(name, "parent_x") {
                Ok(Value::Integer(rect.x))
            } else if str_eq(name, "parent_y") {
                Ok(Value::Integer(rect.y))
            } else if str_eq(name, "parent_width") {
                Ok(Value::Integer(rect.width))
            } else if str_eq(name, "parent_height") {
                Ok(Value::Integer(rect.height))
            } else {
                match get_key(vars, name) {
                    Some(val) => Ok(val),
                    None => Err(EvalError::UnknownVariable(id.name.clone(), id.position)),
                }
            }
        },
    }
}

/// The index of the style function named `name`.
pub(crate) fn find_function(funcs: &Functions, name: &str) -> (r: Option<usize>)
    ensures
        match r {
            Some(i) => i < funcs.entries@.len() && funcs.entries@[i as int].name@ == name@,
            None => !has_function(*funcs, name@),
        },
{
    let mut i: usize = 0;
    while i < funcs.entries.len()
        invariant
            i <= funcs.entries@.len(),
            forall|j: int| 0 <= j < i ==> funcs.entries@[j].name@ != name@,
        decreases funcs.entries@.len() - i,
    {
        if str_eq(funcs.entries[i].name.as_str(), name) {
            return Some(i);
        }
        i += 1;
    }
    None
}

/// Evaluates an expression against a rule's bindings, the parent rectangle and
/// the style functions.
///
/// A call looks its function up first (`UnknownFunction` where there is none),
/// then evaluates the arguments left to right; a failing function gives
/// `FunctionFailed` at the call.
pub fn eval(
    e: &ExprType,
    vars: &Vec<(String, Value)>,
    rect: Rect,
    funcs: &Functions,
) -> (r: Result<Value, EvalError>)
    requires
        keys_unique(vars@),
    ensures
        call_free(*e) ==> outcome(r) == eval_spec(*e, as_map(vars@), rect),
        match e.expr {
            Expr::Call(id, _) => !has_function(*funcs, id.name@) ==> outcome(r) == Err::<ValueView, EvalErrorView>(
                EvalErrorView::UnknownFunction(id.name@, id.position)),
            _ => true,
        },
        match e.expr {
            Expr::Call(id, args) => has_function(*funcs, id.name@) && args_call_free(args@) ==> match first_error(
                args@,
                as_map(vars@),
                rect,
            ) {
                Some(er) => outcome(r) == Err::<ValueView, EvalErrorView>(er),
                None => r is Ok || (r matches Err(EvalError::FunctionFailed(_, q)) && q == e.position),
            },
            _ => true,
        },
    decreases e,
{
    let p = e.position;
    match &e.expr {
        Expr::Value(v) => literal(v, p, vars, rect),
        Expr::Neg(x) => {
            let v = eval(x, vars, rect, funcs)?;
            negate(v, p)
        },
        Expr::Add(l, r) => {
            let a = eval(l, vars, rect, funcs)?;
            let b = eval(r, vars, rect, funcs)?;
            add_values(a, b, p)
        },
        Expr::Sub(l, r) => {
            let a = eval(l, vars, rect, funcs)?;
            let b = eval(r, vars, rect, funcs)?;
            sub_values(a, b, p)
        },
        Expr::Mul(l, r) => {
            let a = eval(l, vars, rect, funcs)?;
            let b = eval(r, vars, rect, funcs)?;
            mul_values(a, b, p)
        },
        Expr::Div(l, r) => {
            let a = eval(l, vars, rect, funcs)?;
            let b = eval(r, vars, rect, funcs)?;
            div_values(a, b, p)
        },
        Expr::Call(id, args) => {
            let f = match find_function(funcs, id.name.as_str()) {
                Some(f) => f,
                None => {
                    return Err(EvalError::UnknownFunction(id.name.clone(), id.position));
                },
            };
            let mut values: Vec<Value> = Vec::new();
            let mut k: usize = 0;
            assert(args@.subrange(0, args@.len() as int) =~= args@);
            while k < args.len()
                invariant
                    k <= args@.len(),
                    keys_unique(vars@),
                    f < funcs.entries@.len(),
                    funcs.entries@[f as int].name@ == id.name@,
                    !call_free(*e),
                    e.expr is Call && e.expr->Call_0 == *id,
                    forall|m: int| 0 <= m < args@.len() ==> decreases_to!(*e => #[trigger] args@[m]),
                    e.expr->Call_1 == *args,
                    args_call_free(args@) ==> first_error(args@, as_map(vars@), rect) == first_error(
                        args@.subrange(k as int, args@.len() as int),
                        as_map(vars@),
                        rect,
                    ),
                decreases args@.len() - k,
            {
                let ghost rest = args@.subrange(k as int, args@.len() as int);
                assert(rest.drop_first() =~= args@.subrange(k + 1, args@.len() as int));
                assert(args_call_free(args@) ==> call_free(args@[k as int]));
                let v = eval(&args[k], vars, rect, funcs)?;
                values.push(v);
                k += 1;
            }
            assert(args@.subrange(k as int, args@.len() as int).len() == 0);
            match funcs.entries[f].func.call(values) {
                Ok(v) => Ok(v),
                Err(msg) => Err(EvalError::FunctionFailed(msg, p)),
            }
        },
    }
}

/// Negating a number twice gives it back (integers wrap, so `i32::MIN` too).
pub proof fn lemma_double_negation(v: ValueView, p: Position)
    requires
        is_number(v),
    ensures
        neg_spec(v, p) matches Ok(w) && neg_spec(w, p) == Ok::<ValueView, EvalErrorView>(v),
{
    match v {
        ValueView::Float(f) => {
            assert((f ^ SIGN_BIT) ^ SIGN_BIT == f) by (bit_vector);
        },
        _ => {},
    }
}

pub open spec fn int_value(i: i32) -> ValueView {
    ValueView::Integer(i)
}

proof fn lemma_mul_in_range(a: i32, b: i32)
    requires
        i32::MIN <= a * b <= i32::MAX,
    ensures
        a.wrapping_mul(b) == a * b,
{
    let t = a * b;
    assert(t % 0x1_0000_0000 == if t >= 0 { t } else { t + 0x1_0000_0000 });
}

/// Multiplication distributes over addition on integers where nothing overflows.
pub proof fn lemma_distributive(a: i32, b: i32, c: i32, p: Position)
    requires
        i32::MIN <= b + c <= i32::MAX,
        i32::MIN <= a * b <= i32::MAX,
        i32::MIN <= a * c <= i32::MAX,
        i32::MIN <= a * b + a * c <= i32::MAX,
    ensures
        match (add_spec(int_value(b), int_value(c), p), mul_spec(int_value(a), int_value(b), p), mul_spec(
            int_value(a),
            int_value(c),
            p,
        )) {
            (Ok(sum), Ok(x), Ok(y)) => mul_spec(int_value(a), sum, p) == add_spec(x, y, p),
            _ => false,
        },
{
    let s = (b + c) as i32;
    assert(a * (b + c) == a * b + a * c) by (nonlinear_arith);
    lemma_mul_in_range(a, b);
    lemma_mul_in_range(a, c);
    lemma_mul_in_range(a, s);
}

} // verus!
