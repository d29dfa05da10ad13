//! The value model: what a program computes with.

use vstd::prelude::*;
use std::sync::Arc;
use crate::builtins::Builtin;
use crate::compiler::Outer;
use crate::numbers::{number_eq, numbers_equal, Arith, Numbers};
use crate::printer::display_text;
use crate::text::{push_str, string_from_chars};
use crate::text::ZapString;
use crate::vm::{Chunk, Op};

verus! {

/// The identifier of an interned symbol.
pub type Symbol = u32;

/// A shared, ordered sequence of values.
pub type ZapList = Arc<Vec<Value>>;

/// A runtime value.
#[derive(Debug)]
pub enum Value {
    Nil,
    Bool(bool),
    /// A number, as the bits of an IEEE 754 binary64.
    Number(u64),
    Symbol(Symbol),
    Str(ZapString),
    List(ZapList),
    FuncNative(Arc<ZapFnNative>),
    Func(Arc<ZapFn>),
    Closure(Arc<Closure>),
}

/// A compiled function with its local slots filled in as far as they are
/// known when it is made.
#[derive(Debug)]
pub struct ZapFn {
    pub locals: Vec<Value>,
    pub chunk: Arc<Chunk>,
}

/// A compiled function that still has to take values from the activations
/// around it.
#[derive(Debug)]
pub struct Closure {
    pub outers: Vec<Outer>,
    pub chunk: Arc<Chunk>,
}

/// A native function under its name.
#[derive(Debug)]
pub struct ZapFnNative {
    pub name: ZapString,
    pub func: Builtin,
}

/// An error with its message.
#[derive(Debug, PartialEq)]
pub enum ZapErr {
    Msg(String),
}

/// A value as pure data.
pub enum ValueModel {
    Nil,
    Bool(bool),
    Number(u64),
    Symbol(Symbol),
    Str(Seq<char>),
    List(Seq<ValueModel>),
    FuncNative(Seq<char>, Builtin),
    Func(Seq<ValueModel>, ChunkModel),
    Closure(Seq<Outer>, ChunkModel),
}

/// A chunk as pure data.
pub struct ChunkModel {
    pub ops: Seq<Op>,
    pub consts: Seq<ValueModel>,
    pub scope_size: nat,
    pub arity: nat,
}

/// The data that a value stands for.
pub open spec fn value_model(v: Value) -> ValueModel
    decreases v,
{
    match v {
        Value::Nil => ValueModel::Nil,
        Value::Bool(b) => ValueModel::Bool(b),
        Value::Number(n) => ValueModel::Number(n),
        Value::Symbol(s) => ValueModel::Symbol(s),
        Value::Str(s) => ValueModel::Str(s@),
        Value::List(l) => ValueModel::List(values_model(l@)),
        Value::FuncNative(f) => ValueModel::FuncNative(f.name@, f.func),
        Value::Func(f) => ValueModel::Func(values_model(f.locals@), chunk_model(*f.chunk)),
        Value::Closure(c) => ValueModel::Closure(c.outers@, chunk_model(*c.chunk)),
    }
}

/// The data that a sequence of values stands for.
pub open spec fn values_model(s: Seq<Value>) -> Seq<ValueModel>
    decreases s,
{
    Seq::new(
        s.len(),
        |i: int|
            if 0 <= i < s.len() {
                value_model(s[i])
            } else {
                ValueModel::Nil
            },
    )
}

/// The data that a chunk stands for.
pub open spec fn chunk_model(c: Chunk) -> ChunkModel
    decreases c,
{
    ChunkModel {
        ops: c.ops@,
        consts: values_model(c.consts@),
        scope_size: c.scope_size as nat,
        arity: c.arity as nat,
    }
}

impl View for Value {
    type V = ValueModel;

    open spec fn view(&self) -> ValueModel {
        value_model(*self)
    }
}

impl View for Chunk {
    type V = ChunkModel;

    open spec fn view(&self) -> ChunkModel {
        chunk_model(*self)
    }
}

impl View for ZapErr {
    type V = Seq<char>;

    /// The message.
    open spec fn view(&self) -> Seq<char> {
        match self {
            ZapErr::Msg(s) => s@,
        }
    }
}

/// `Arc::clone` of std: another handle on the same shared value.
#[verifier::external_body]
fn share<T>(a: &Arc<T>) -> (r: Arc<T>)
    ensures
        r == *a,
{
    Arc::clone(a)
}

/// `Arc::ptr_eq` of std: whether two handles are on the same allocation. Two
/// handles on one allocation show the same value; two on different
/// allocations may or may not.
#[verifier::external_body]
fn same_allocation<T>(a: &Arc<T>, b: &Arc<T>) -> (r: bool)
    ensures
        r ==> *a == *b,
{
    Arc::ptr_eq(a, b)
}

/// An error with the message `msg`.
pub fn error_msg(msg: &str) -> (e: ZapErr)
    ensures
        e@ == msg@,
{
    ZapErr::Msg(msg.to_owned())
}

/// An error with the message `msg`.
pub fn error(msg: &str) -> (e: ZapErr)
    ensures
        e@ == msg@,
{
    error_msg(msg)
}

/// `n` times `Nil`.
pub open spec fn nils(n: nat) -> Seq<ValueModel> {
    Seq::new(n, |i: int| ValueModel::Nil)
}

impl ZapFn {
    /// A function that captures nothing: `scope_size` empty slots and its
    /// chunk.
    pub fn new(scope_size: usize, chunk: Chunk) -> (v: Value)
        ensures
            v@ == ValueModel::Func(nils(scope_size as nat), chunk@),
    {
        let mut locals: Vec<Value> = Vec::new();
        let mut i: usize = 0;
        while i < scope_size
            invariant
                i <= scope_size,
                locals@.len() == i,
                forall|j: int| 0 <= j < i ==> locals@[j] == Value::Nil,
            decreases scope_size - i,
        {
            locals.push(Value::Nil);
            i += 1;
        }
        proof {
            assert(values_model(locals@) =~= nils(scope_size as nat));
        }
        Value::Func(Arc::new(ZapFn { locals, chunk: Arc::new(chunk) }))
    }

    /// A function that has yet to take the values `outers` from the
    /// activations around it.
    pub fn new_closure(outers: Vec<Outer>, chunk: Chunk) -> (v: Value)
        ensures
            v@ == ValueModel::Closure(outers@, chunk@),
    {
        Value::Closure(Arc::new(Closure { outers, chunk: Arc::new(chunk) }))
    }
}

impl ZapFnNative {
    /// The native function `func` under the name `name`.
    pub fn new(name: ZapString, func: Builtin) -> (r: Arc<ZapFnNative>)
        ensures
            r.name == name,
            r.func == func,
    {
        Arc::new(ZapFnNative { name, func })
    }
}

impl Clone for Value {
    /// A copy of the value. Lists and functions are shared, not copied.
    fn clone(&self) -> (r: Self)
        ensures
            r == *self,
    {
        match self {
            Value::Nil => Value::Nil,
            Value::Bool(b) => Value::Bool(*b),
            Value::Number(n) => Value::Number(*n),
            Value::Symbol(s) => Value::Symbol(*s),
            Value::Str(s) => Value::Str(s.clone()),
            Value::List(l) => Value::List(share(l)),
            Value::FuncNative(f) => Value::FuncNative(share(f)),
            Value::Func(f) => Value::Func(share(f)),
            Value::Closure(c) => Value::Closure(share(c)),
        }
    }
}

impl Default for Value {
    fn default() -> (r: Self)
        ensures
            r == Value::Nil,
    {
        Value::Nil
    }
}

/// What comparing `a` with `b` gives, where their data decides it: atoms and
/// strings compare by what they hold, values of different kinds are unequal,
/// and two closures are never equal. For two lists, two functions or two native
/// functions it is `None`: they are equal exactly if they are the same shared
/// container, which their data does not show.
pub open spec fn eq_by_data(a: ValueModel, b: ValueModel) -> Option<bool> {
    match (a, b) {
        (ValueModel::Nil, ValueModel::Nil) => Some(true),
        (ValueModel::Bool(x), ValueModel::Bool(y)) => Some(x == y),
        (ValueModel::Number(x), ValueModel::Number(y)) => Some(number_eq(x, y)),
        (ValueModel::Symbol(x), ValueModel::Symbol(y)) => Some(x == y),
        (ValueModel::Str(x), ValueModel::Str(y)) => Some(x == y),
        (ValueModel::List(_), ValueModel::List(_)) => None,
        (ValueModel::FuncNative(_, _), ValueModel::FuncNative(_, _)) => None,
        (ValueModel::Func(_, _), ValueModel::Func(_, _)) => None,
        (_, _) => Some(false),
    }
}

/// The words of the message for an arithmetic operation that cannot be done.
pub open spec fn arith_words(op: Arith) -> (Seq<char>, Seq<char>) {
    match op {
        Arith::Add => ("Can't add "@, " + "@),
        Arith::Sub => ("Can't substract "@, " - "@),
        Arith::Mul => ("Can't multiply "@, " - "@),
    }
}

/// What an arithmetic operation on two values gives: on two numbers what the
/// host computes, on anything else an error that shows both values.
pub open spec fn arith_result(
    op: Arith,
    a: ValueModel,
    b: ValueModel,
    calc: spec_fn(Arith, u64, u64) -> u64,
    show: spec_fn(u64) -> Seq<char>,
) -> Result<ValueModel, Seq<char>> {
    match (a, b) {
        (ValueModel::Number(x), ValueModel::Number(y)) => Ok(ValueModel::Number(calc(op, x, y))),
        _ => Err(arith_words(op).0 + display_text(a, show) + arith_words(op).1 + display_text(b, show)),
    }
}

/// Whether a result is the value, or the error, that is expected.
pub open spec fn value_result_is(r: Result<Value, ZapErr>, expected: Result<ValueModel, Seq<char>>) -> bool {
    match (r, expected) {
        (Ok(v), Ok(m)) => v@ == m,
        (Err(e), Err(msg)) => e@ == msg,
        _ => false,
    }
}

/// Whether a value counts as true: everything but `Nil` and `false` does.
pub open spec fn truthy(v: ValueModel) -> bool {
    !(v is Nil) && v != ValueModel::Bool(false)
}

impl Value {
    /// A shared list of the given values.
    pub fn new_list(list: Vec<Value>) -> (r: ZapList)
        ensures
            r@ == list@,
    {
        Arc::new(list)
    }

    /// Whether the value counts as true.
    pub fn is_truthy(&self) -> (r: bool)
        ensures
            r == truthy(self@),
    {
        match self {
            Value::Nil => false,
            Value::Bool(b) => *b,
            _ => true,
        }
    }

    /// One arithmetic operation on two values.
    pub fn arith<P: Fn(&str) -> Option<u64>, S: Fn(u64) -> String, A: Fn(Arith, u64, u64) -> u64>(
        &self,
        op: Arith,
        other: &Value,
        nums: &Numbers<P, S, A>,
    ) -> (r: Result<Value, ZapErr>)
        requires
            nums.wf(),
        ensures
            value_result_is(
                r,
                arith_result(op, self@, other@, nums.calculator(), nums.printer()),
            ),
    {
        match (self, other) {
            (Value::Number(a), Value::Number(b)) => Ok(Value::Number(nums.compute(op, *a, *b))),
            (a, b) => {
                let mut text: Vec<char> = Vec::new();
                match op {
                    Arith::Add => push_str(&mut text, "Can't add "),
                    Arith::Sub => push_str(&mut text, "Can't substract "),
                    Arith::Mul => push_str(&mut text, "Can't multiply "),
                }
                let left = a.display(nums);
                push_str(&mut text, left.as_str());
                match op {
                    Arith::Add => push_str(&mut text, " + "),
                    Arith::Sub => push_str(&mut text, " - "),
                    Arith::Mul => push_str(&mut text, " - "),
                }
                let right = b.display(nums);
                push_str(&mut text, right.as_str());
                proof {
                    assert(text@ =~= arith_words(op).0 + display_text(a@, nums.printer())
                        + arith_words(op).1 + display_text(b@, nums.printer()));
                }
                Err(ZapErr::Msg(string_from_chars(&text)))
            },
        }
    }

    /// The sum of two numbers.
    pub fn add<P: Fn(&str) -> Option<u64>, S: Fn(u64) -> String, A: Fn(Arith, u64, u64) -> u64>(
        &self,
        other: &Value,
        nums: &Numbers<P, S, A>,
    ) -> (r: Result<Value, ZapErr>)
        requires
            nums.wf(),
        ensures
            value_result_is(
                r,
                arith_result(Arith::Add, self@, other@, nums.calculator(), nums.printer()),
            ),
    {
        self.arith(Arith::Add, other, nums)
    }

    /// The difference of two numbers.
    pub fn sub<P: Fn(&str) -> Option<u64>, S: Fn(u64) -> String, A: Fn(Arith, u64, u64) -> u64>(
        &self,
        other: &Value,
        nums: &Numbers<P, S, A>,
    ) -> (r: Result<Value, ZapErr>)
        requires
            nums.wf(),
        ensures
            value_result_is(
                r,
                arith_result(Arith::Sub, self@, other@, nums.calculator(), nums.printer()),
            ),
    {
        self.arith(Arith::Sub, other, nums)
    }

    /// The product of two numbers.
    pub fn mul<P: Fn(&str) -> Option<u64>, S: Fn(u64) -> String, A: Fn(Arith, u64, u64) -> u64>(
        &self,
        other: &Value,
        nums: &Numbers<P, S, A>,
    ) -> (r: Result<Value, ZapErr>)
        requires
            nums.wf(),
        ensures
            value_result_is(
                r,
                arith_result(Arith::Mul, self@, other@, nums.calculator(), nums.printer()),
            ),
    {
        self.arith(Arith::Mul, other, nums)
    }

    /// Whether two values are equal: atoms and strings by what they hold, lists
    /// and functions by being the same shared container.
    pub fn eq(&self, other: &Value) -> (r: bool)
        ensures
            eq_by_data(self@, other@) matches Some(b) ==> r == b,
            eq_by_data(self@, other@) is None && r ==> *self == *other,
    {
        match (self, other) {
            (Value::Nil, Value::Nil) => true,
            (Value::Bool(a), Value::Bool(b)) => *a == *b,
            (Value::Number(a), Value::Number(b)) => numbers_equal(*a, *b),
            (Value::Symbol(a), Value::Symbol(b)) => *a == *b,
            (Value::Str(a), Value::Str(b)) => a.same_text(b),
            (Value::List(a), Value::List(b)) => same_allocation(a, b),
            (Value::FuncNative(a), Value::FuncNative(b)) => same_allocation(a, b),
            (Value::Func(a), Value::Func(b)) => same_allocation(a, b),
            (_, _) => false,
        }
    }
}

} // verus!
