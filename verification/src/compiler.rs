//! The compiler: from a tree of values to a chunk of bytecode.
//!
//! The compiler keeps a stack of forms, the pieces of work that are still to
//! be done. It takes the topmost form, emits the instructions that the form
//! calls for, and pushes the forms that have to follow; when no form is left
//! the chunk is complete.

use vstd::prelude::*;
use std::sync::Arc;
use crate::compiler_laws::{
    chunk_itself_ok, chunk_ok, lemma_compiled_chunk_is_in_order,
    lemma_compiled_chunks_are_in_order, sound,
};
use crate::env::symbols;
use crate::numbers::ZERO;
use crate::vm::{Chunk, LocalIndex, Op};
use crate::builtins::Builtin;
use crate::text::ZapString;
use crate::zap::{
    eq_by_data, error_msg, nils, values_model, ChunkModel, Symbol, Value, ValueModel, ZapErr,
    ZapFn, ZapFnNative, ZapList,
};

verus! {

/// A value that a closure takes from an enclosing activation when it is made:
/// the value at `position` above the base that `level` names, copied into the
/// closure's own slot `dest`. Level 0 names the bottom of the stack, where the
/// top level begins; any other level names where the frame at the place
/// `level - 1` begins, the frames counted from the outermost.
#[derive(Clone, Copy, PartialEq, Eq, Structural, Debug)]
pub struct Outer {
    pub level: usize,
    pub position: usize,
    pub dest: LocalIndex,
}

/// The most slots that a scope can have: as many as a local index can tell
/// apart.
pub const MAX_SLOTS: usize = 256;

/// The locals of one function body, or of the top level.
pub struct Scope {
    /// The symbols declared, in the order of their declaration.
    pub(crate) symbols: Vec<Symbol>,
    /// The slot of the first symbol: 1 for a function, which keeps slot 0 for
    /// itself, and 0 for the top level.
    pub(crate) base: usize,
    /// The values to take from enclosing activations.
    pub(crate) outers: Vec<Outer>,
}

impl Scope {
    #[verifier::type_invariant]
    spec fn fits(self) -> bool {
        self.base <= 1 && self.base + self.symbols@.len() <= MAX_SLOTS
    }
}

/// A scope as pure data.
pub struct ScopeModel {
    pub symbols: Seq<Symbol>,
    pub base: nat,
    pub outers: Seq<Outer>,
}

impl View for Scope {
    type V = ScopeModel;

    closed spec fn view(&self) -> ScopeModel {
        ScopeModel { symbols: self.symbols@, base: self.base as nat, outers: self.outers@ }
    }
}

/// The data that a stack of scopes stands for.
pub open spec fn scopes_model(s: Seq<Scope>) -> Seq<ScopeModel> {
    Seq::new(s.len(), |i: int| s[i]@)
}

/// The place of the last declaration of `s` among `symbols`.
pub open spec fn last_declared(symbols: Seq<Symbol>, s: Symbol) -> Option<nat>
    decreases symbols.len(),
{
    if symbols.len() == 0 {
        None
    } else if symbols.last() == s {
        Some((symbols.len() - 1) as nat)
    } else {
        last_declared(symbols.drop_last(), s)
    }
}

impl ScopeModel {
    /// The number of slots that the scope takes up.
    pub open spec fn size(self) -> nat {
        self.base + self.symbols.len()
    }

    /// The slot of the symbol `s`, if the scope declares it.
    pub open spec fn slot_of(self, s: Symbol) -> Option<nat> {
        match last_declared(self.symbols, s) {
            Some(i) => Some(self.base + i),
            None => None,
        }
    }
}

/// The level by which a closure names the activation of a scope: 0 for the
/// top level, whose activation begins at the bottom of the stack, and for the
/// scope of a function one more than its depth, since the frame of an
/// activation at depth `d` is the frame at the place `d`, the frames counted
/// from the outermost.
pub open spec fn level_of(depth: nat) -> nat {
    if depth == 0 {
        0
    } else {
        depth + 1
    }
}

/// Where the symbol `s` is found in the scopes below `upto`, the nearest
/// first: the level of the scope, and the slot there.
pub open spec fn find_outer(scopes: Seq<ScopeModel>, upto: int, s: Symbol) -> Option<(nat, nat)>
    decreases upto,
{
    if upto <= 0 || upto > scopes.len() {
        None
    } else {
        match scopes[upto - 1].slot_of(s) {
            Some(slot) => Some((level_of((upto - 1) as nat), slot)),
            None => find_outer(scopes, upto - 1, s),
        }
    }
}

/// A piece of work that the compiler still has to do.
pub enum Form {
    /// Compile a value.
    Value(Value),
    /// Compile the operands of a call from the given place on.
    List(ZapList, u8),
    /// Emit the call.
    Apply,
    /// The condition of an `if` has been compiled.
    IfCond(ZapList),
    /// The then-branch has been compiled; the instructions before the `if`
    /// are set aside.
    IfThen(ZapList, Vec<Op>),
    /// The else-branch has been compiled; the instructions before the `if` and
    /// those of the then-branch are set aside.
    IfElse(Vec<Op>, Vec<Op>),
    /// Compile the expressions of a `do` from the given place on.
    Do(ZapList, usize),
    /// Emit the definition.
    Define,
    /// The body of a `let` with so many bindings is being compiled.
    Let(usize),
    /// Declare a local and store the value on top into it.
    Binding(Symbol),
    /// Compile the operands of a sum from the given place on.
    AddMany(ZapList, usize),
    /// Emit an addition.
    Add,
    /// Emit a comparison.
    Equal,
    /// Emit a comparison with a constant.
    EqualConst(u16),
    /// The body of a function has been compiled; the chunk around the
    /// function is set aside.
    Return(Chunk),
    /// The value above is quoted.
    Quoting,
    /// Compile the items of a quasiquoted list from the given place on, each
    /// as a part of the list that is built when the chunk runs.
    Quasi(ZapList, usize),
    /// Emit the call that makes a list of one item.
    Wrap,
}

/// A form as pure data.
pub enum FormModel {
    Value(ValueModel),
    List(Seq<ValueModel>, u8),
    Apply,
    IfCond(Seq<ValueModel>),
    IfThen(Seq<ValueModel>, Seq<Op>),
    IfElse(Seq<Op>, Seq<Op>),
    Do(Seq<ValueModel>, nat),
    Define,
    Let(nat),
    Binding(Symbol),
    AddMany(Seq<ValueModel>, nat),
    Add,
    Equal,
    EqualConst(u16),
    Return(ChunkModel),
    Quoting,
    Quasi(Seq<ValueModel>, nat),
    Wrap,
}

impl View for Form {
    type V = FormModel;

    open spec fn view(&self) -> FormModel {
        match self {
            Form::Value(v) => FormModel::Value(v@),
            Form::List(l, idx) => FormModel::List(values_model(l@), *idx),
            Form::Apply => FormModel::Apply,
            Form::IfCond(l) => FormModel::IfCond(values_model(l@)),
            Form::IfThen(l, ops) => FormModel::IfThen(values_model(l@), ops@),
            Form::IfElse(ops, then_ops) => FormModel::IfElse(ops@, then_ops@),
            Form::Do(l, idx) => FormModel::Do(values_model(l@), *idx as nat),
            Form::Define => FormModel::Define,
            Form::Let(n) => FormModel::Let(*n as nat),
            Form::Binding(s) => FormModel::Binding(*s),
            Form::AddMany(l, idx) => FormModel::AddMany(values_model(l@), *idx as nat),
            Form::Add => FormModel::Add,
            Form::Equal => FormModel::Equal,
            Form::EqualConst(k) => FormModel::EqualConst(*k),
            Form::Return(chunk) => FormModel::Return(chunk@),
            Form::Quoting => FormModel::Quoting,
            Form::Quasi(l, idx) => FormModel::Quasi(values_model(l@), *idx as nat),
            Form::Wrap => FormModel::Wrap,
        }
    }
}

/// The data that a stack of forms stands for.
pub open spec fn forms_model(s: Seq<Form>) -> Seq<FormModel> {
    Seq::new(s.len(), |i: int| s[i]@)
}

/// Whether a value is a constant for the compiler: anything but a list or a
/// symbol.
pub open spec fn is_const_model(v: ValueModel) -> bool {
    !(v is List) && !(v is Symbol)
}

/// Whether a constant is kept only once in a constant pool: atoms and strings
/// are, lists and functions are not.
pub open spec fn is_plain(v: ValueModel) -> bool {
    v is Nil || v is Bool || v is Number || v is Symbol || v is Str
}

/// Whether two constants are the same for the constant pool.
pub open spec fn same_const(a: ValueModel, b: ValueModel) -> bool {
    is_plain(a) && is_plain(b) && eq_by_data(a, b) == Some(true)
}

/// The first place among the first `n` constants that holds the same constant
/// as `v`.
pub open spec fn find_const(consts: Seq<ValueModel>, n: nat, v: ValueModel) -> Option<nat>
    decreases n,
{
    if n == 0 || n > consts.len() {
        None
    } else {
        match find_const(consts, (n - 1) as nat, v) {
            Some(i) => Some(i),
            None => if same_const(consts[n - 1], v) {
                Some((n - 1) as nat)
            } else {
                None
            },
        }
    }
}

/// Whether the call that the compiler is about to emit is the last thing its
/// function does: nothing is left to do after it but to close branches of
/// `if`, bodies of `let`, and the function itself.
pub open spec fn in_tail(forms: Seq<FormModel>) -> bool
    decreases forms.len(),
{
    if forms.len() == 0 {
        true
    } else {
        match forms.last() {
            FormModel::Return(_) => true,
            FormModel::IfThen(_, _) => in_tail(forms.drop_last()),
            FormModel::IfElse(_, _) => in_tail(forms.drop_last()),
            FormModel::Let(_) => in_tail(forms.drop_last()),
            _ => false,
        }
    }
}

/// Whether a list of bindings is well formed: symbols and expressions in
/// turn.
pub open spec fn bindings_ok(b: Seq<ValueModel>) -> bool {
    &&& b.len() % 2 == 0
    &&& forall|i: int| 0 <= i < b.len() && i % 2 == 0 ==> (#[trigger] b[i]) is Symbol
}

/// The forms for the last `n` bindings of `b`, the last binding first: for
/// each the declaration, and above it the expression.
pub open spec fn binding_forms(b: Seq<ValueModel>, n: nat) -> Seq<FormModel>
    decreases n,
{
    if n == 0 || 2 * n > b.len() {
        Seq::empty()
    } else {
        let k = b.len() / 2 - n;
        binding_forms(b, (n - 1) as nat).push(FormModel::Binding(b[2 * k]->Symbol_0)).push(
            FormModel::Value(b[2 * k + 1]),
        )
    }
}

/// The symbols of a parameter list.
pub open spec fn param_symbols(args: Seq<ValueModel>) -> Seq<Symbol> {
    Seq::new(args.len(), |i: int| args[i]->Symbol_0)
}

/// Whether every parameter is a symbol.
pub open spec fn params_ok(args: Seq<ValueModel>) -> bool {
    forall|i: int| 0 <= i < args.len() ==> (#[trigger] args[i]) is Symbol
}

/// Whether a list is an `unquote` form.
pub open spec fn is_unquote(l: Seq<ValueModel>) -> bool {
    l.len() == 2 && l[0] == ValueModel::Symbol(symbols::UNQUOTE)
}

/// Whether a list is a `splice-unquote` form.
pub open spec fn is_splice(l: Seq<ValueModel>) -> bool {
    l.len() == 2 && l[0] == ValueModel::Symbol(symbols::SPLICE_UNQUOTE)
}

/// Whether a quoted value holds an `unquote` or a `splice-unquote` form, at
/// any depth.
pub open spec fn unquotes(v: ValueModel) -> bool
    decreases v, 0nat,
{
    match v {
        ValueModel::List(l) => is_unquote(l) || is_splice(l) || any_unquotes(l, l.len()),
        _ => false,
    }
}

/// Whether one of the first `n` items holds an `unquote` or a
/// `splice-unquote` form.
pub open spec fn any_unquotes(items: Seq<ValueModel>, n: nat) -> bool
    decreases items, n,
{
    if n == 0 || n > items.len() {
        false
    } else {
        any_unquotes(items, (n - 1) as nat) || unquotes(items[n - 1])
    }
}

/// The native function that makes a list of its arguments, as a constant.
pub open spec fn list_native() -> ValueModel {
    ValueModel::FuncNative("list"@, Builtin::List)
}

/// The native function that joins lists, as a constant.
pub open spec fn join_native() -> ValueModel {
    ValueModel::FuncNative("join"@, Builtin::Join)
}

/// The state of the compiler as pure data.
pub struct CompilerModel {
    /// The chunk that is being built.
    pub chunk: ChunkModel,
    /// The work that is left, the next piece last.
    pub forms: Seq<FormModel>,
    /// The number of values of the call whose operands were compiled last.
    pub argc: u8,
    /// The scopes, the innermost last.
    pub scopes: Seq<ScopeModel>,
}

/// Where one step leaves the compiler.
pub enum CompileStep {
    Done(Result<ChunkModel, Seq<char>>),
    More(CompilerModel),
}

/// A chunk with nothing in it.
pub open spec fn empty_chunk(arity: nat) -> ChunkModel {
    ChunkModel { ops: Seq::empty(), consts: Seq::empty(), scope_size: 0, arity }
}

impl CompilerModel {
    /// The compiler at the start: one form, the value to compile, and the scope
    /// of the top level.
    pub open spec fn init(ast: ValueModel) -> CompilerModel {
        CompilerModel {
            chunk: empty_chunk(0),
            forms: seq![FormModel::Value(ast)],
            argc: 0,
            scopes: seq![ScopeModel { symbols: Seq::empty(), base: 0, outers: Seq::empty() }],
        }
    }

    /// With one more instruction.
    pub open spec fn emit(self, op: Op) -> CompilerModel {
        CompilerModel { chunk: ChunkModel { ops: self.chunk.ops.push(op), ..self.chunk }, ..self }
    }

    /// With one more form to do.
    pub open spec fn later(self, f: FormModel) -> CompilerModel {
        CompilerModel { forms: self.forms.push(f), ..self }
    }

    /// The index of the constant `v` in the pool. An atom or a string that the
    /// pool holds already keeps its place; anything else is added at the end.
    pub open spec fn get_const_idx(self, v: ValueModel) -> Result<(CompilerModel, u16), Seq<char>> {
        let found = if is_plain(v) {
            find_const(self.chunk.consts, self.chunk.consts.len(), v)
        } else {
            None
        };
        match found {
            Some(i) => if i <= u16::MAX {
                Ok((self, i as u16))
            } else {
                Err("Too many constants in the constants table"@)
            },
            None => if self.chunk.consts.len() <= u16::MAX {
                Ok(
                    (
                        CompilerModel {
                            chunk: ChunkModel {
                                consts: self.chunk.consts.push(v),
                                ..self.chunk
                            },
                            ..self
                        },
                        self.chunk.consts.len() as u16,
                    ),
                )
            } else {
                Err("Too many constants in the constants table"@)
            },
        }
    }

    /// With the instruction that pushes the constant `v`.
    pub open spec fn push(self, v: ValueModel) -> Result<CompilerModel, Seq<char>> {
        match self.get_const_idx(v) {
            Ok((c, idx)) => Ok(c.emit(Op::Push(idx))),
            Err(msg) => Err(msg),
        }
    }

    /// With the symbol `s` declared in the innermost scope: the compiler
    /// afterwards, and the slot of the symbol.
    pub open spec fn register_local(self, s: Symbol) -> Result<(CompilerModel, LocalIndex), Seq<char>> {
        if self.scopes.len() == 0 || self.scopes.last().size() > LocalIndex::MAX {
            Err("Too many locals in scope!"@)
        } else {
            let scope = self.scopes.last();
            Ok(
                (
                    CompilerModel {
                        scopes: self.scopes.drop_last().push(
                            ScopeModel { symbols: scope.symbols.push(s), ..scope },
                        ),
                        ..self
                    },
                    scope.size() as LocalIndex,
                ),
            )
        }
    }

    /// With the capture `outer` noted in the innermost scope.
    pub open spec fn capture(self, outer: Outer) -> CompilerModel {
        if self.scopes.len() == 0 {
            self
        } else {
            let scope = self.scopes.last();
            CompilerModel {
                scopes: self.scopes.drop_last().push(
                    ScopeModel { outers: scope.outers.push(outer), ..scope },
                ),
                ..self
            }
        }
    }

    /// The slot of `s` in the innermost scope.
    pub open spec fn get_local(self, s: Symbol) -> Option<nat> {
        if self.scopes.len() == 0 {
            None
        } else {
            self.scopes.last().slot_of(s)
        }
    }

    /// A symbol: a local of the innermost scope is loaded from its slot; a
    /// local of a scope further out gets a slot in the innermost scope, is
    /// noted as a capture, and is loaded from there; anything else is looked up
    /// as a global when the chunk runs.
    pub open spec fn eval_symbol(self, s: Symbol) -> Result<CompilerModel, Seq<char>> {
        match self.get_local(s) {
            Some(slot) => Ok(self.emit(Op::Load(slot as LocalIndex))),
            None => match find_outer(self.scopes, self.scopes.len() - 1, s) {
                Some((level, position)) => match self.register_local(s) {
                    Ok((c, dest)) => Ok(
                        c.capture(
                            Outer { level: level as usize, position: position as usize, dest },
                        ).emit(Op::Load(dest)),
                    ),
                    Err(msg) => Err(msg),
                },
                None => Ok(self.emit(Op::LookUp(s))),
            },
        }
    }

    /// An `if` form.
    pub open spec fn eval_if(self, l: Seq<ValueModel>) -> Result<CompilerModel, Seq<char>> {
        if l.len() != 4 {
            Err("An if form must have 3 parameters"@)
        } else {
            Ok(self.later(FormModel::IfCond(l)).later(FormModel::Value(l[1])))
        }
    }

    /// A `do` form.
    pub open spec fn eval_do(self, l: Seq<ValueModel>) -> Result<CompilerModel, Seq<char>> {
        if l.len() < 2 {
            Err("A do form must contains at least 1 parameter"@)
        } else {
            Ok(self.later(FormModel::Do(l, 1)))
        }
    }

    /// A `def` form.
    pub open spec fn eval_def(self, l: Seq<ValueModel>) -> Result<CompilerModel, Seq<char>> {
        if l.len() != 3 {
            Err("A def form must have 2 parameters"@)
        } else {
            match self.push(l[1]) {
                Ok(c) => Ok(c.later(FormModel::Define).later(FormModel::Value(l[2]))),
                Err(msg) => Err(msg),
            }
        }
    }

    /// A `fn` form: the chunk so far is set aside, and a new chunk and a new
    /// scope are opened for the body.
    pub open spec fn eval_fn(self, l: Seq<ValueModel>) -> Result<CompilerModel, Seq<char>> {
        if l.len() != 3 {
            Err("A fn form must contains 2 parameters"@)
        } else {
            match l[1] {
                ValueModel::List(args) => if args.len() > 254 {
                    Err("A function cannot have more than 254 parameters."@)
                } else if !params_ok(args) {
                    Err("Only symbols can be used as args in fn."@)
                } else {
                    Ok(
                        CompilerModel {
                            chunk: empty_chunk(args.len()),
                            forms: self.forms.push(FormModel::Return(self.chunk)).push(
                                FormModel::Value(l[2]),
                            ),
                            argc: self.argc,
                            scopes: self.scopes.push(
                                ScopeModel {
                                    symbols: param_symbols(args),
                                    base: 1,
                                    outers: Seq::empty(),
                                },
                            ),
                        },
                    )
                },
                _ => Err("fn's first parameter must be a list"@),
            }
        }
    }

    /// A `let` form: the expressions of the bindings come first, each
    /// followed by its declaration, and the body last.
    pub open spec fn eval_let(self, l: Seq<ValueModel>) -> Result<CompilerModel, Seq<char>> {
        if l.len() != 3 {
            Err("A let form must have 2 parameters"@)
        } else {
            match l[1] {
                ValueModel::List(b) => if !bindings_ok(b) {
                    Err("A binding must consist of a symbol and an expression"@)
                } else {
                    Ok(
                        CompilerModel {
                            forms: self.forms.push(FormModel::Let(b.len() / 2)).push(
                                FormModel::Value(l[2]),
                            ) + binding_forms(b, b.len() / 2),
                            ..self
                        },
                    )
                },
                _ => Err("A binding must consist of a symbol and an expression"@),
            }
        }
    }

    /// An `=` form. Two constants are compared here and now, where what they
    /// hold decides; a constant and an expression are compared by one
    /// instruction after the expression.
    pub open spec fn eval_eq(self, l: Seq<ValueModel>) -> Result<CompilerModel, Seq<char>> {
        if l.len() != 3 {
            Err("A = form must have 2 parameters"@)
        } else if is_const_model(l[1]) && is_const_model(l[2]) && eq_by_data(l[1], l[2]) is Some {
            self.push(ValueModel::Bool(eq_by_data(l[1], l[2])->Some_0))
        } else if is_const_model(l[2]) {
            match self.get_const_idx(l[2]) {
                Ok((c, idx)) => Ok(c.later(FormModel::EqualConst(idx)).later(FormModel::Value(l[1]))),
                Err(msg) => Err(msg),
            }
        } else if is_const_model(l[1]) {
            match self.get_const_idx(l[1]) {
                Ok((c, idx)) => Ok(c.later(FormModel::EqualConst(idx)).later(FormModel::Value(l[2]))),
                Err(msg) => Err(msg),
            }
        } else {
            Ok(
                self.later(FormModel::Equal).later(FormModel::Value(l[1])).later(
                    FormModel::Value(l[2]),
                ),
            )
        }
    }

    /// A `+` form.
    pub open spec fn eval_plus(self, l: Seq<ValueModel>) -> Result<CompilerModel, Seq<char>> {
        if l.len() == 1 {
            self.push(ValueModel::Number(ZERO))
        } else if l.len() == 2 {
            Ok(self.later(FormModel::Value(l[1])))
        } else {
            Ok(self.later(FormModel::AddMany(l, 1)))
        }
    }

    /// A `quote` form.
    pub open spec fn eval_quote(self, l: Seq<ValueModel>) -> Result<CompilerModel, Seq<char>> {
        if l.len() != 2 {
            Err("A quote form must have 1 parameter"@)
        } else {
            self.push(l[1])
        }
    }

    /// A `quasiquote` form.
    pub open spec fn eval_quasiquote(self, l: Seq<ValueModel>) -> Result<CompilerModel, Seq<char>> {
        if l.len() != 2 {
            Err("A quasiquote form must have 1 parameter"@)
        } else {
            Ok(self.later(FormModel::Quoting).later(FormModel::Value(l[1])))
        }
    }

    /// A list that is not empty: a special form where it begins with one of
    /// the reserved symbols, a call otherwise.
    pub open spec fn eval_list(self, l: Seq<ValueModel>) -> Result<CompilerModel, Seq<char>> {
        if l.len() > 255 {
            Err("A function cannot have more than 254 parameters."@)
        } else if l.len() == 0 {
            Ok(self)
        } else if l[0] == ValueModel::Symbol(symbols::DO) {
            self.eval_do(l)
        } else if l[0] == ValueModel::Symbol(symbols::FN) {
            self.eval_fn(l)
        } else if l[0] == ValueModel::Symbol(symbols::DEFINE) {
            self.eval_def(l)
        } else if l[0] == ValueModel::Symbol(symbols::IF) {
            self.eval_if(l)
        } else if l[0] == ValueModel::Symbol(symbols::LET) {
            self.eval_let(l)
        } else if l[0] == ValueModel::Symbol(symbols::EQUAL) {
            self.eval_eq(l)
        } else if l[0] == ValueModel::Symbol(symbols::PLUS) {
            self.eval_plus(l)
        } else if l[0] == ValueModel::Symbol(symbols::QUOTE) {
            self.eval_quote(l)
        } else if l[0] == ValueModel::Symbol(symbols::QUASIQUOTE) {
            self.eval_quasiquote(l)
        } else {
            Ok(self.later(FormModel::Apply).later(FormModel::List(l, 0)))
        }
    }

    /// A value to evaluate.
    pub open spec fn eval_value(self, v: ValueModel) -> Result<CompilerModel, Seq<char>> {
        match v {
            ValueModel::List(l) => if l.len() == 0 {
                self.push(v)
            } else {
                self.eval_list(l)
            },
            ValueModel::Symbol(s) => self.eval_symbol(s),
            _ => self.push(v),
        }
    }

    /// A quoted value. An `unquote` form is left for its argument, which is
    /// evaluated. A list that holds such a form further in is built when the
    /// chunk runs: its parts are joined by a call of the joining function. Any
    /// other value is a constant.
    pub open spec fn eval_quoted(self, v: ValueModel) -> Result<CompilerModel, Seq<char>> {
        match v {
            ValueModel::List(l) => if is_unquote(l) {
                Ok(self.later(FormModel::Value(l[1])))
            } else if is_splice(l) {
                Err("Cannot splice-unquote out of a list."@)
            } else if any_unquotes(l, l.len()) {
                if l.len() > 254 {
                    Err("A function cannot have more than 254 parameters."@)
                } else {
                    match self.push(join_native()) {
                        Ok(c) => Ok(c.later(FormModel::Apply).later(FormModel::Quasi(l, 0))),
                        Err(msg) => Err(msg),
                    }
                }
            } else {
                self.push(v)
            },
            _ => self.push(v),
        }
    }

    /// The next item of a quasiquoted list that is built when the chunk runs.
    /// The argument of a `splice-unquote` form is evaluated and is a part of
    /// the list as it is; any other item is quoted in its turn and made a list
    /// of one item. When all items are done, the number of values of the
    /// joining call is noted.
    pub open spec fn eval_next_in_quasi(self, l: Seq<ValueModel>, idx: nat) -> Result<
        CompilerModel,
        Seq<char>,
    > {
        if idx < l.len() {
            let c = self.later(FormModel::Quasi(l, idx + 1));
            match l[idx as int] {
                ValueModel::List(e) => if is_splice(e) {
                    Ok(c.later(FormModel::Value(e[1])))
                } else {
                    c.wrap_quoted(l[idx as int])
                },
                item => c.wrap_quoted(item),
            }
        } else if idx < u8::MAX {
            Ok(CompilerModel { argc: (idx + 1) as u8, ..self })
        } else {
            Err("A function cannot have more than 254 parameters."@)
        }
    }

    /// A quoted item as a list of one item: the list-making function, the
    /// item, and the call.
    pub open spec fn wrap_quoted(self, item: ValueModel) -> Result<CompilerModel, Seq<char>> {
        match self.push(list_native()) {
            Ok(c) => Ok(
                c.later(FormModel::Wrap).later(FormModel::Quoting).later(FormModel::Value(item)),
            ),
            Err(msg) => Err(msg),
        }
    }

    /// The next operand of a call, or the number of its values when all
    /// operands are done.
    pub open spec fn eval_next_in_list(self, l: Seq<ValueModel>, idx: u8) -> CompilerModel {
        if idx < l.len() && idx < u8::MAX {
            self.later(FormModel::List(l, (idx + 1) as u8)).later(FormModel::Value(l[idx as int]))
        } else {
            CompilerModel { argc: idx, ..self }
        }
    }

    /// The next expression of a `do`. The value of every expression but the
    /// last is dropped.
    pub open spec fn eval_next_in_do(self, l: Seq<ValueModel>, idx: nat) -> CompilerModel {
        if idx < l.len() {
            let c = if idx + 1 < l.len() {
                self.later(FormModel::Do(l, idx + 1))
            } else {
                self
            };
            let c = if idx > 1 {
                c.emit(Op::Pop)
            } else {
                c
            };
            c.later(FormModel::Value(l[idx as int]))
        } else {
            self
        }
    }

    /// The call: in place of the running activation where it is the last
    /// thing that the function does.
    pub open spec fn apply(self) -> CompilerModel {
        if in_tail(self.forms) {
            self.emit(Op::Tailcall(self.argc))
        } else {
            self.emit(Op::Call(self.argc))
        }
    }

    /// After the condition of an `if`: the instructions so far are set aside
    /// and the then-branch is compiled on its own.
    pub open spec fn eval_then_branch(self, l: Seq<ValueModel>) -> CompilerModel {
        if l.len() == 4 {
            CompilerModel {
                chunk: ChunkModel { ops: Seq::empty(), ..self.chunk },
                forms: self.forms.push(FormModel::IfThen(l, self.chunk.ops)).push(
                    FormModel::Value(l[2]),
                ),
                ..self
            }
        } else {
            self
        }
    }

    /// After the then-branch: its instructions are set aside and the
    /// else-branch is compiled on its own.
    pub open spec fn eval_else_branch(self, l: Seq<ValueModel>, saved: Seq<Op>) -> CompilerModel {
        if l.len() == 4 {
            CompilerModel {
                chunk: ChunkModel { ops: Seq::empty(), ..self.chunk },
                forms: self.forms.push(FormModel::IfElse(saved, self.chunk.ops)).push(
                    FormModel::Value(l[3]),
                ),
                ..self
            }
        } else {
            CompilerModel { chunk: ChunkModel { ops: saved + self.chunk.ops, ..self.chunk }, ..self }
        }
    }

    /// After the else-branch: the instructions before the `if`, a
    /// conditional jump over the then-branch, the then-branch, a jump over
    /// the else-branch, and the else-branch. Where the `if` is the last thing
    /// that the function does, the then-branch ends with a return in place of
    /// the jump.
    pub open spec fn combine_branches(self, saved: Seq<Op>, then_branch: Seq<Op>) -> Result<
        CompilerModel,
        Seq<char>,
    > {
        let else_branch = self.chunk.ops;
        if 1 + then_branch.len() > u16::MAX {
            Err("Then branch jump is too big."@)
        } else {
            let head = saved.push(Op::CondJmp((1 + then_branch.len()) as u16)) + then_branch;
            if in_tail(self.forms) {
                Ok(
                    CompilerModel {
                        chunk: ChunkModel {
                            ops: head.push(Op::Return) + else_branch,
                            ..self.chunk
                        },
                        ..self
                    },
                )
            } else if else_branch.len() > u16::MAX {
                Err("Else branch jump is too big."@)
            } else {
                Ok(
                    CompilerModel {
                        chunk: ChunkModel {
                            ops: head.push(Op::Jmp(else_branch.len() as u16)) + else_branch,
                            ..self.chunk
                        },
                        ..self
                    },
                )
            }
        }
    }

    /// The next operand of a sum: the first is evaluated, a constant after it
    /// is added by one instruction, any other is evaluated and added.
    pub open spec fn eval_next_in_add(self, l: Seq<ValueModel>, idx: nat) -> Result<
        CompilerModel,
        Seq<char>,
    > {
        if idx >= l.len() {
            Ok(self)
        } else if idx == 1 {
            Ok(
                self.later(FormModel::AddMany(l, idx + 1)).later(
                    FormModel::Value(l[idx as int]),
                ),
            )
        } else {
            let c = self.later(FormModel::AddMany(l, idx + 1));
            if is_const_model(l[idx as int]) {
                match c.get_const_idx(l[idx as int]) {
                    Ok((c, k)) => Ok(c.emit(Op::AddConst(k))),
                    Err(msg) => Err(msg),
                }
            } else {
                Ok(c.later(FormModel::Add).later(FormModel::Value(l[idx as int])))
            }
        }
    }

    /// A binding: the symbol is declared and the value on top is stored into
    /// its slot.
    pub open spec fn eval_binding(self, s: Symbol) -> Result<CompilerModel, Seq<char>> {
        match self.register_local(s) {
            Ok((c, slot)) => Ok(c.emit(Op::Store(slot))),
            Err(msg) => Err(msg),
        }
    }

    /// After the body of a function: the chunk of the function is closed and
    /// becomes a constant of the chunk around it, a function where it
    /// captures nothing and a closure where it does.
    pub open spec fn wrap_fn(self, parent: ChunkModel) -> Result<CompilerModel, Seq<char>> {
        let scope = if self.scopes.len() > 0 {
            self.scopes.last()
        } else {
            ScopeModel { symbols: Seq::empty(), base: 0, outers: Seq::empty() }
        };
        let body = ChunkModel {
            ops: self.chunk.ops.push(Op::Return),
            scope_size: scope.size(),
            ..self.chunk
        };
        let outside = CompilerModel {
            chunk: parent,
            scopes: if self.scopes.len() > 0 {
                self.scopes.drop_last()
            } else {
                self.scopes
            },
            ..self
        };
        if scope.outers.len() == 0 {
            outside.push(ValueModel::Func(nils(scope.size()), body))
        } else {
            match outside.push(ValueModel::Closure(scope.outers, body)) {
                Ok(c) => Ok(c.emit(Op::Closure)),
                Err(msg) => Err(msg),
            }
        }
    }

    /// The chunk when no work is left: it ends with a return and reserves the
    /// slots of its scope.
    pub open spec fn finish(self) -> ChunkModel {
        ChunkModel {
            ops: self.chunk.ops.push(Op::Return),
            scope_size: if self.scopes.len() > 0 {
                self.scopes.last().size()
            } else {
                0
            },
            ..self.chunk
        }
    }

    /// One step: takes the next form and does it.
    pub open spec fn step(self) -> CompileStep {
        if self.forms.len() == 0 {
            CompileStep::Done(Ok(self.finish()))
        } else {
            let rest = CompilerModel { forms: self.forms.drop_last(), ..self };
            let next = match self.forms.last() {
                FormModel::Value(v) => if rest.forms.len() > 0 && rest.forms.last() is Quoting {
                    CompilerModel { forms: rest.forms.drop_last(), ..rest }.eval_quoted(v)
                } else {
                    rest.eval_value(v)
                },
                FormModel::List(l, idx) => Ok(rest.eval_next_in_list(l, idx)),
                FormModel::Apply => Ok(rest.apply()),
                FormModel::IfCond(l) => Ok(rest.eval_then_branch(l)),
                FormModel::IfThen(l, saved) => Ok(rest.eval_else_branch(l, saved)),
                FormModel::IfElse(saved, then_branch) => rest.combine_branches(saved, then_branch),
                FormModel::Do(l, idx) => Ok(rest.eval_next_in_do(l, idx)),
                FormModel::Define => Ok(rest.emit(Op::Define)),
                FormModel::Let(_) => Ok(rest),
                FormModel::Binding(s) => rest.eval_binding(s),
                FormModel::AddMany(l, idx) => rest.eval_next_in_add(l, idx),
                FormModel::Add => Ok(rest.emit(Op::Add)),
                FormModel::Equal => Ok(rest.emit(Op::Eq)),
                FormModel::EqualConst(k) => Ok(rest.emit(Op::EqConst(k))),
                FormModel::Return(parent) => rest.wrap_fn(parent),
                FormModel::Quoting => Ok(rest),
                FormModel::Quasi(l, idx) => rest.eval_next_in_quasi(l, idx),
                FormModel::Wrap => Ok(rest.emit(Op::Call(2))),
            };
            match next {
                Ok(c) => CompileStep::More(c),
                Err(msg) => CompileStep::Done(Err(msg)),
            }
        }
    }

    /// A bound on the steps that are left.
    pub open spec fn work(self) -> nat {
        1 + forms_work(self.forms)
    }

    /// The chunk that the compiler ends with, or the error that stops it.
    pub open spec fn run(self) -> Result<ChunkModel, Seq<char>>
        decreases self.work(),
    {
        match self.step() {
            CompileStep::Done(r) => r,
            CompileStep::More(c) => {
                proof {
                    lemma_step_works(self);
                }
                c.run()
            },
        }
    }
}

/// The chunk that a value compiles to, or the error that it is refused with.
pub open spec fn compile_spec(ast: ValueModel) -> Result<ChunkModel, Seq<char>> {
    CompilerModel::init(ast).run()
}

/// A bound on the steps that compiling a value takes.
pub open spec fn cost(v: ValueModel) -> nat
    decreases v, 0nat,
{
    match v {
        ValueModel::List(items) => 4 + 3 * items_cost(items, 0),
        _ => 1,
    }
}

/// A bound on the steps that compiling the items from `from` on takes, and
/// one more for each.
pub open spec fn items_cost(items: Seq<ValueModel>, from: nat) -> nat
    decreases items, items.len() - from,
{
    if from >= items.len() {
        0
    } else {
        cost(items[from as int]) + 1 + items_cost(items, from + 1)
    }
}

/// A bound on the steps that one form takes, with all that follows from it.
pub open spec fn form_work(f: FormModel) -> nat {
    match f {
        FormModel::Value(v) => cost(v),
        FormModel::List(l, idx) => 1 + items_cost(l, idx as nat),
        FormModel::IfCond(l) => 3 + 2 * items_cost(l, 0),
        FormModel::IfThen(l, _) => 2 + items_cost(l, 0),
        FormModel::Do(l, idx) => 1 + items_cost(l, idx),
        FormModel::AddMany(l, idx) => 1 + 2 * items_cost(l, idx),
        FormModel::Quasi(l, idx) => 1 + 3 * items_cost(l, idx),
        _ => 1,
    }
}

/// A bound on the steps that a stack of forms takes.
pub open spec fn forms_work(forms: Seq<FormModel>) -> nat
    decreases forms.len(),
{
    if forms.len() == 0 {
        0
    } else {
        forms_work(forms.drop_last()) + form_work(forms.last())
    }
}

proof fn lemma_work_push(forms: Seq<FormModel>, f: FormModel)
    ensures
        forms_work(forms.push(f)) == forms_work(forms) + form_work(f),
{
    assert(forms.push(f).drop_last() =~= forms);
}

proof fn lemma_work_concat(a: Seq<FormModel>, b: Seq<FormModel>)
    ensures
        forms_work(a + b) == forms_work(a) + forms_work(b),
    decreases b.len(),
{
    if b.len() == 0 {
        assert(a + b =~= a);
    } else {
        assert((a + b).drop_last() =~= a + b.drop_last());
        lemma_work_concat(a, b.drop_last());
    }
}

/// The cost of the items from `from` on is the cost of the item at `from`,
/// one more, and the cost of the rest; the cost of no items is nothing.
proof fn lemma_items_cost(items: Seq<ValueModel>, from: nat)
    ensures
        from < items.len() ==> items_cost(items, from) == cost(items[from as int]) + 1 + items_cost(
            items,
            from + 1,
        ),
        from >= items.len() ==> items_cost(items, from) == 0,
        cost(ValueModel::List(items)) == 4 + 3 * items_cost(items, 0),
{
}

/// The forms of the bindings cost no more than the list of bindings.
proof fn lemma_binding_work(b: Seq<ValueModel>, n: nat)
    requires
        2 * n <= b.len(),
        b.len() % 2 == 0,
    ensures
        forms_work(binding_forms(b, n)) <= items_cost(b, (b.len() - 2 * n) as nat),
    decreases n,
{
    if n > 0 {
        let k = b.len() / 2 - n;
        lemma_binding_work(b, (n - 1) as nat);
        let inner = binding_forms(b, (n - 1) as nat);
        lemma_work_push(inner, FormModel::Binding(b[2 * k]->Symbol_0));
        lemma_work_push(
            inner.push(FormModel::Binding(b[2 * k]->Symbol_0)),
            FormModel::Value(b[2 * k + 1]),
        );
        lemma_items_cost(b, (2 * k) as nat);
        lemma_items_cost(b, (2 * k + 1) as nat);
    }
}

/// The first items of a list cost less than the list.
proof fn lemma_list_cost(l: Seq<ValueModel>)
    ensures
        cost(ValueModel::List(l)) == 4 + 3 * items_cost(l, 0),
        l.len() >= 1 ==> items_cost(l, 0) == cost(l[0]) + 1 + items_cost(l, 1),
        l.len() >= 2 ==> items_cost(l, 1) == cost(l[1]) + 1 + items_cost(l, 2),
        l.len() >= 3 ==> items_cost(l, 2) == cost(l[2]) + 1 + items_cost(l, 3),
        l.len() >= 4 ==> items_cost(l, 3) == cost(l[3]) + 1 + items_cost(l, 4),
{
    lemma_items_cost(l, 0);
    lemma_items_cost(l, 1);
    lemma_items_cost(l, 2);
    lemma_items_cost(l, 3);
}

proof fn lemma_push_keeps_forms(c: CompilerModel, v: ValueModel)
    ensures
        c.push(v) matches Ok(d) ==> d.forms == c.forms,
        c.get_const_idx(v) matches Ok((d, _)) ==> d.forms == c.forms,
{
}

proof fn lemma_eval_list_works(c: CompilerModel, l: Seq<ValueModel>)
    requires
        l.len() > 0,
    ensures
        c.eval_list(l) matches Ok(d) ==> forms_work(d.forms) < forms_work(c.forms) + cost(
            ValueModel::List(l),
        ),
{
    lemma_list_cost(l);
    let f = c.forms;
    if l.len() > 255 {
    } else if l[0] == ValueModel::Symbol(symbols::DO) {
        lemma_work_push(f, FormModel::Do(l, 1));
    } else if l[0] == ValueModel::Symbol(symbols::FN) {
        if l.len() == 3 {
            lemma_work_push(f, FormModel::Return(c.chunk));
            lemma_work_push(f.push(FormModel::Return(c.chunk)), FormModel::Value(l[2]));
        }
    } else if l[0] == ValueModel::Symbol(symbols::DEFINE) {
        if l.len() == 3 {
            lemma_push_keeps_forms(c, l[1]);
            lemma_work_push(f, FormModel::Define);
            lemma_work_push(f.push(FormModel::Define), FormModel::Value(l[2]));
        }
    } else if l[0] == ValueModel::Symbol(symbols::IF) {
        if l.len() == 4 {
            lemma_work_push(f, FormModel::IfCond(l));
            lemma_work_push(f.push(FormModel::IfCond(l)), FormModel::Value(l[1]));
        }
    } else if l[0] == ValueModel::Symbol(symbols::LET) {
        if l.len() == 3 {
            match l[1] {
                ValueModel::List(b) => {
                    if bindings_ok(b) {
                        let n = (b.len() / 2) as nat;
                        let head = f.push(FormModel::Let(n)).push(FormModel::Value(l[2]));
                        lemma_work_push(f, FormModel::Let(n));
                        lemma_work_push(f.push(FormModel::Let(n)), FormModel::Value(l[2]));
                        lemma_work_concat(head, binding_forms(b, n));
                        lemma_binding_work(b, n);
                        lemma_list_cost(b);
                    }
                },
                _ => {},
            }
        }
    } else if l[0] == ValueModel::Symbol(symbols::EQUAL) {
        if l.len() == 3 {
            lemma_push_keeps_forms(c, ValueModel::Bool(eq_by_data(l[1], l[2])->Some_0));
            lemma_push_keeps_forms(c, l[1]);
            lemma_push_keeps_forms(c, l[2]);
            if is_const_model(l[1]) && is_const_model(l[2]) && eq_by_data(l[1], l[2]) is Some {
            } else if is_const_model(l[2]) {
                match c.get_const_idx(l[2]) {
                    Ok((d, idx)) => {
                        lemma_work_push(f, FormModel::EqualConst(idx));
                        lemma_work_push(f.push(FormModel::EqualConst(idx)), FormModel::Value(l[1]));
                    },
                    _ => {},
                }
            } else if is_const_model(l[1]) {
                match c.get_const_idx(l[1]) {
                    Ok((d, idx)) => {
                        lemma_work_push(f, FormModel::EqualConst(idx));
                        lemma_work_push(f.push(FormModel::EqualConst(idx)), FormModel::Value(l[2]));
                    },
                    _ => {},
                }
            } else {
                lemma_work_push(f, FormModel::Equal);
                lemma_work_push(f.push(FormModel::Equal), FormModel::Value(l[1]));
                lemma_work_push(
                    f.push(FormModel::Equal).push(FormModel::Value(l[1])),
                    FormModel::Value(l[2]),
                );
            }
        }
    } else if l[0] == ValueModel::Symbol(symbols::PLUS) {
        lemma_push_keeps_forms(c, ValueModel::Number(ZERO));
        if l.len() == 2 {
            lemma_work_push(f, FormModel::Value(l[1]));
        } else if l.len() > 2 {
            lemma_work_push(f, FormModel::AddMany(l, 1));
        }
    } else if l[0] == ValueModel::Symbol(symbols::QUOTE) {
        if l.len() == 2 {
            lemma_push_keeps_forms(c, l[1]);
        }
    } else if l[0] == ValueModel::Symbol(symbols::QUASIQUOTE) {
        if l.len() == 2 {
            lemma_work_push(f, FormModel::Quoting);
            lemma_work_push(f.push(FormModel::Quoting), FormModel::Value(l[1]));
        }
    } else {
        lemma_work_push(f, FormModel::Apply);
        lemma_work_push(f.push(FormModel::Apply), FormModel::List(l, 0));
    }
}

proof fn lemma_eval_value_works(c: CompilerModel, v: ValueModel)
    ensures
        c.eval_value(v) matches Ok(d) ==> forms_work(d.forms) < forms_work(c.forms) + cost(v),
        c.eval_quoted(v) matches Ok(d) ==> forms_work(d.forms) < forms_work(c.forms) + cost(v),
{
    lemma_push_keeps_forms(c, v);
    match v {
        ValueModel::List(l) => {
            lemma_list_cost(l);
            if l.len() > 0 {
                lemma_eval_list_works(c, l);
            }
            if l.len() == 2 {
                lemma_work_push(c.forms, FormModel::Value(l[1]));
            }
            lemma_push_keeps_forms(c, join_native());
            lemma_work_push(c.forms, FormModel::Apply);
            lemma_work_push(c.forms.push(FormModel::Apply), FormModel::Quasi(l, 0));
        },
        ValueModel::Symbol(s) => {},
        _ => {},
    }
}

/// A step that does not end the compilation leaves less work.
pub proof fn lemma_step_works(m: CompilerModel)
    ensures
        m.step() matches CompileStep::More(c) ==> c.work() < m.work(),
{
    if m.forms.len() > 0 {
        let rest = CompilerModel { forms: m.forms.drop_last(), ..m };
        let f = rest.forms;
        assert(forms_work(m.forms) == forms_work(f) + form_work(m.forms.last()));
        match m.forms.last() {
            FormModel::Value(v) => {
                if f.len() > 0 && f.last() is Quoting {
                    lemma_eval_value_works(CompilerModel { forms: f.drop_last(), ..rest }, v);
                } else {
                    lemma_eval_value_works(rest, v);
                }
            },
            FormModel::List(l, idx) => {
                if idx < l.len() && idx < u8::MAX {
                    lemma_items_cost(l, idx as nat);
                    lemma_work_push(f, FormModel::List(l, (idx + 1) as u8));
                    lemma_work_push(
                        f.push(FormModel::List(l, (idx + 1) as u8)),
                        FormModel::Value(l[idx as int]),
                    );
                }
            },
            FormModel::IfCond(l) => {
                if l.len() == 4 {
                    lemma_list_cost(l);
                    lemma_work_push(f, FormModel::IfThen(l, rest.chunk.ops));
                    lemma_work_push(
                        f.push(FormModel::IfThen(l, rest.chunk.ops)),
                        FormModel::Value(l[2]),
                    );
                }
            },
            FormModel::IfThen(l, saved) => {
                if l.len() == 4 {
                    lemma_list_cost(l);
                    lemma_work_push(f, FormModel::IfElse(saved, rest.chunk.ops));
                    lemma_work_push(
                        f.push(FormModel::IfElse(saved, rest.chunk.ops)),
                        FormModel::Value(l[3]),
                    );
                }
            },
            FormModel::Do(l, idx) => {
                if idx < l.len() {
                    lemma_items_cost(l, idx);
                    let c = if idx + 1 < l.len() {
                        rest.later(FormModel::Do(l, idx + 1))
                    } else {
                        rest
                    };
                    if idx + 1 < l.len() {
                        lemma_work_push(f, FormModel::Do(l, idx + 1));
                    }
                    lemma_work_push(c.forms, FormModel::Value(l[idx as int]));
                }
            },
            FormModel::Binding(s) => {},
            FormModel::AddMany(l, idx) => {
                if idx < l.len() {
                    lemma_items_cost(l, idx);
                    let c = rest.later(FormModel::AddMany(l, idx + 1));
                    lemma_work_push(f, FormModel::AddMany(l, idx + 1));
                    lemma_push_keeps_forms(c, l[idx as int]);
                    lemma_work_push(c.forms, FormModel::Value(l[idx as int]));
                    lemma_work_push(c.forms, FormModel::Add);
                    lemma_work_push(c.forms.push(FormModel::Add), FormModel::Value(l[idx as int]));
                }
            },
            FormModel::Quasi(l, idx) => {
                if idx < l.len() {
                    lemma_items_cost(l, idx);
                    let c = rest.later(FormModel::Quasi(l, idx + 1));
                    lemma_work_push(f, FormModel::Quasi(l, idx + 1));
                    let item = l[idx as int];
                    match item {
                        ValueModel::List(e) => {
                            lemma_list_cost(e);
                            if e.len() == 2 {
                                lemma_work_push(c.forms, FormModel::Value(e[1]));
                            }
                        },
                        _ => {},
                    }
                    lemma_push_keeps_forms(c, list_native());
                    match c.push(list_native()) {
                        Ok(d) => {
                            let wrap = d.forms.push(FormModel::Wrap);
                            lemma_work_push(d.forms, FormModel::Wrap);
                            lemma_work_push(wrap, FormModel::Quoting);
                            lemma_work_push(wrap.push(FormModel::Quoting), FormModel::Value(item));
                        },
                        Err(_) => {},
                    }
                }
            },
            FormModel::Return(parent) => {
                let scope = if rest.scopes.len() > 0 {
                    rest.scopes.last()
                } else {
                    ScopeModel { symbols: Seq::empty(), base: 0, outers: Seq::empty() }
                };
                let body = ChunkModel {
                    ops: rest.chunk.ops.push(Op::Return),
                    scope_size: scope.size(),
                    ..rest.chunk
                };
                let outside = CompilerModel {
                    chunk: parent,
                    scopes: if rest.scopes.len() > 0 {
                        rest.scopes.drop_last()
                    } else {
                        rest.scopes
                    },
                    ..rest
                };
                lemma_push_keeps_forms(outside, ValueModel::Func(nils(scope.size()), body));
                lemma_push_keeps_forms(outside, ValueModel::Closure(scope.outers, body));
            },
            _ => {},
        }
    }
}

/// Whether a step of the compiler went as it should: it ends in the state,
/// or fails with the message, that is expected.
pub open spec fn went(
    r: Result<(), ZapErr>,
    after: CompilerModel,
    expected: Result<CompilerModel, Seq<char>>,
) -> bool {
    match (r, expected) {
        (Ok(_), Ok(m)) => after == m,
        (Err(e), Err(msg)) => e@ == msg,
        _ => false,
    }
}

/// The compiler.
pub struct Compiler {
    chunk: Chunk,
    forms: Vec<Form>,
    argc: u8,
    scopes: Vec<Scope>,
}

impl View for Compiler {
    type V = CompilerModel;

    closed spec fn view(&self) -> CompilerModel {
        CompilerModel {
            chunk: self.chunk@,
            forms: forms_model(self.forms@),
            argc: self.argc,
            scopes: scopes_model(self.scopes@),
        }
    }
}

fn is_plain_value(v: &Value) -> (r: bool)
    ensures
        r == is_plain(v@),
{
    match v {
        Value::Nil => true,
        Value::Bool(_) => true,
        Value::Number(_) => true,
        Value::Symbol(_) => true,
        Value::Str(_) => true,
        _ => false,
    }
}

/// Whether a value is a constant for the compiler: anything but a list or a
/// symbol.
pub fn is_const(val: &Value) -> (r: bool)
    ensures
        r == is_const_model(val@),
{
    match val {
        Value::List(_) => false,
        Value::Symbol(_) => false,
        _ => true,
    }
}

/// Whether what two constants hold decides if they are equal.
fn decided_by_data(a: &Value, b: &Value) -> (r: bool)
    ensures
        r == eq_by_data(a@, b@) is Some,
{
    match (a, b) {
        (Value::List(_), Value::List(_)) => false,
        (Value::FuncNative(_), Value::FuncNative(_)) => false,
        (Value::Func(_), Value::Func(_)) => false,
        _ => true,
    }
}

/// Another handle on a list.
fn share_list(list: &ZapList) -> (r: ZapList)
    ensures
        r == *list,
{
    match Value::List(Arc::clone(list)) {
        Value::List(l) => l,
        _ => Value::new_list(Vec::new()),
    }
}

/// Whether a quoted value holds an `unquote` or a `splice-unquote` form, at
/// any depth.
fn holds_unquote(v: &Value) -> (r: bool)
    ensures
        r == unquotes(v@),
    decreases v,
{
    match v {
        Value::List(list) => {
            if list.len() == 2 && (is_symbol(&list[0], symbols::UNQUOTE) || is_symbol(
                &list[0],
                symbols::SPLICE_UNQUOTE,
            )) {
                return true;
            }
            let ghost items = values_model(list@);
            let mut i: usize = 0;
            while i < list.len()
                invariant
                    i <= list.len(),
                    *v == Value::List(*list),
                    items == values_model(list@),
                    !any_unquotes(items, i as nat),
                decreases list.len() - i,
            {
                proof {
                    broadcast use vstd::std_specs::vec::axiom_vec_index_decreases;
                    assert(decreases_to!(**list => (**list)[i as int]));
                    assert(decreases_to!(*v => v->List_0));
                }
                if holds_unquote(&list[i]) {
                    proof {
                        lemma_unquote_found(items, (i + 1) as nat, items.len());
                    }
                    return true;
                }
                i += 1;
            }
            false
        },
        _ => false,
    }
}

/// Whether one of the items of a quoted list holds an `unquote` or a
/// `splice-unquote` form.
fn any_holds_unquote(list: &ZapList) -> (r: bool)
    ensures
        r == any_unquotes(values_model(list@), list@.len()),
{
    let ghost items = values_model(list@);
    let mut i: usize = 0;
    while i < list.len()
        invariant
            i <= list.len(),
            items == values_model(list@),
            !any_unquotes(items, i as nat),
        decreases list.len() - i,
    {
        if holds_unquote(&list[i]) {
            proof {
                lemma_unquote_found(items, (i + 1) as nat, items.len());
            }
            return true;
        }
        i += 1;
    }
    false
}

/// A form that is found among the first items is found among all.
proof fn lemma_unquote_found(items: Seq<ValueModel>, n: nat, m: nat)
    requires
        any_unquotes(items, n),
        n <= m <= items.len(),
    ensures
        any_unquotes(items, m),
    decreases m - n,
{
    if n < m {
        lemma_unquote_found(items, n, (m - 1) as nat);
    }
}

fn is_symbol(v: &Value, s: Symbol) -> (r: bool)
    ensures
        r == (v@ == ValueModel::Symbol(s)),
{
    match v {
        Value::Symbol(x) => *x == s,
        _ => false,
    }
}

fn empty_ops() -> (ops: Vec<Op>)
    ensures
        ops@ == Seq::<Op>::empty(),
{
    Vec::new()
}

fn new_chunk(arity: usize) -> (c: Chunk)
    ensures
        c@ == empty_chunk(arity as nat),
{
    let c = Chunk { ops: Vec::new(), consts: Vec::new(), scope_size: 0, arity };
    proof {
        assert(c@.consts =~= Seq::<ValueModel>::empty());
        assert(c@.ops =~= Seq::<Op>::empty());
    }
    c
}

proof fn lemma_find_const_stays(consts: Seq<ValueModel>, k: nat, n: nat, v: ValueModel, i: nat)
    requires
        find_const(consts, k, v) == Some(i),
        k <= n <= consts.len(),
    ensures
        find_const(consts, n, v) == Some(i),
    decreases n - k,
{
    if k < n {
        lemma_find_const_stays(consts, k, (n - 1) as nat, v, i);
    }
}

proof fn lemma_last_declared_take(symbols: Seq<Symbol>, s: Symbol, i: int)
    requires
        0 < i <= symbols.len(),
    ensures
        last_declared(symbols.take(i), s) == if symbols[i - 1] == s {
            Some((i - 1) as nat)
        } else {
            last_declared(symbols.take(i - 1), s)
        },
{
    assert(symbols.take(i).drop_last() =~= symbols.take(i - 1));
}

proof fn lemma_in_tail_take(forms: Seq<FormModel>, i: int)
    requires
        0 < i <= forms.len(),
    ensures
        in_tail(forms.take(i)) == match forms[i - 1] {
            FormModel::Return(_) => true,
            FormModel::IfThen(_, _) => in_tail(forms.take(i - 1)),
            FormModel::IfElse(_, _) => in_tail(forms.take(i - 1)),
            FormModel::Let(_) => in_tail(forms.take(i - 1)),
            _ => false,
        },
{
    assert(forms.take(i).drop_last() =~= forms.take(i - 1));
}

impl Scope {
    fn new(symbols: Vec<Symbol>, base: usize) -> (r: Scope)
        requires
            base <= 1,
            base + symbols@.len() <= MAX_SLOTS,
        ensures
            r@ == (ScopeModel { symbols: symbols@, base: base as nat, outers: Seq::empty() }),
    {
        Scope { symbols, base, outers: Vec::new() }
    }

    /// The number of slots that the scope takes up.
    fn size(&self) -> (n: usize)
        ensures
            n == self@.size(),
            n <= MAX_SLOTS,
    {
        proof {
            use_type_invariant(self);
        }
        self.symbols.len() + self.base
    }

    /// The slot of the symbol `s`, if the scope declares it.
    fn slot_of(&self, s: Symbol) -> (r: Option<usize>)
        ensures
            r matches Some(slot) ==> self@.slot_of(s) == Some(slot as nat) && slot < MAX_SLOTS,
            r is None ==> self@.slot_of(s) is None,
    {
        proof {
            use_type_invariant(self);
        }
        let mut i = self.symbols.len();
        proof {
            assert(self.symbols@.take(i as int) =~= self.symbols@);
        }
        while i > 0
            invariant
                i <= self.symbols.len(),
                self.base <= 1,
                self.base + self.symbols@.len() <= MAX_SLOTS,
                last_declared(self.symbols@, s) == last_declared(self.symbols@.take(i as int), s),
            decreases i,
        {
            proof {
                lemma_last_declared_take(self.symbols@, s, i as int);
            }
            if self.symbols[i - 1] == s {
                return Some(i - 1 + self.base);
            }
            i -= 1;
        }
        None
    }
}

impl Compiler {
    /// The compiler at the start: one form, the value to compile, and the scope
    /// of the top level.
    pub fn init(ast: Value) -> (c: Compiler)
        ensures
            c@ == CompilerModel::init(ast@),
    {
        let mut forms: Vec<Form> = Vec::new();
        forms.push(Form::Value(ast));
        let mut scopes: Vec<Scope> = Vec::new();
        scopes.push(Scope::new(Vec::new(), 0));
        let c = Compiler { chunk: new_chunk(0), forms, argc: 0, scopes };
        proof {
            assert(c@.forms =~= seq![FormModel::Value(ast@)]);
            assert(c@.scopes =~= seq![
                ScopeModel { symbols: Seq::empty(), base: 0, outers: Seq::empty() },
            ]);
        }
        c
    }

    /// Takes the next form off the stack.
    pub fn get_form(&mut self) -> (f: Option<Form>)
        ensures
            match f {
                Some(x) => {
                    &&& old(self)@.forms.len() > 0
                    &&& x@ == old(self)@.forms.last()
                    &&& final(self)@ == (CompilerModel {
                        forms: old(self)@.forms.drop_last(),
                        ..old(self)@
                    })
                },
                None => old(self)@.forms.len() == 0 && final(self)@ == old(self)@,
            },
    {
        let f = self.forms.pop();
        proof {
            if f is Some {
                assert(final(self)@.forms =~= old(self)@.forms.drop_last());
            } else {
                assert(final(self)@.forms =~= old(self)@.forms);
            }
        }
        f
    }

    /// Puts a form on the stack.
    fn later(&mut self, f: Form)
        ensures
            final(self)@ == old(self)@.later(f@),
    {
        self.forms.push(f);
        proof {
            assert(final(self)@.forms =~= old(self)@.forms.push(f@));
        }
    }

    /// Whether a call emitted now would be the last thing its function does.
    fn is_last_exp(&self) -> (r: bool)
        ensures
            r == in_tail(self@.forms),
    {
        let ghost forms = self@.forms;
        let mut i = self.forms.len();
        proof {
            assert(forms.take(i as int) =~= forms);
        }
        while i > 0
            invariant
                i <= self.forms.len(),
                forms == forms_model(self.forms@),
                in_tail(forms) == in_tail(forms.take(i as int)),
            decreases i,
        {
            proof {
                lemma_in_tail_take(forms, i as int);
            }
            match &self.forms[i - 1] {
                Form::Return(_) => {
                    return true;
                },
                Form::IfThen(_, _) => {},
                Form::IfElse(_, _) => {},
                Form::Let(_) => {},
                _ => {
                    return false;
                },
            }
            i -= 1;
        }
        true
    }

    /// Declares the symbol `s` in the innermost scope and gives its slot.
    pub fn register_local(&mut self, s: Symbol) -> (r: Result<LocalIndex, ZapErr>)
        ensures
            match old(self)@.register_local(s) {
                Ok((m, slot)) => r == Ok::<LocalIndex, ZapErr>(slot) && final(self)@ == m,
                Err(msg) => r matches Err(e) && e@ == msg,
            },
    {
        let ghost scopes0 = self@.scopes;
        match self.scopes.pop() {
            Some(scope) => {
                proof {
                    assert(scopes0.last() == scope@);
                    assert(self@.scopes =~= scopes0.drop_last());
                    use_type_invariant(&scope);
                }
                let size = scope.size();
                if size > 255 {
                    return Err(error_msg("Too many locals in scope!"));
                }
                let ghost before = scope@;
                let Scope { symbols, base, outers } = scope;
                let mut symbols = symbols;
                symbols.push(s);
                let scope = Scope { symbols, base, outers };
                proof {
                    assert(scope@ == ScopeModel { symbols: before.symbols.push(s), ..before });
                }
                self.scopes.push(scope);
                proof {
                    assert(final(self)@.scopes =~= scopes0.drop_last().push(
                        ScopeModel { symbols: before.symbols.push(s), ..before },
                    ));
                }
                Ok(size as LocalIndex)
            },
            None => {
                proof {
                    assert(scopes0.len() == 0);
                }
                Err(error_msg("Too many locals in scope!"))
            },
        }
    }

    /// Notes a capture in the innermost scope.
    fn capture(&mut self, outer: Outer)
        ensures
            final(self)@ == old(self)@.capture(outer),
    {
        let ghost scopes0 = self@.scopes;
        match self.scopes.pop() {
            Some(scope) => {
                proof {
                    assert(scopes0.last() == scope@);
                    assert(self@.scopes =~= scopes0.drop_last());
                    use_type_invariant(&scope);
                }
                let ghost before = scope@;
                let Scope { symbols, base, outers } = scope;
                let mut outers = outers;
                outers.push(outer);
                let scope = Scope { symbols, base, outers };
                proof {
                    assert(scope@ == ScopeModel { outers: before.outers.push(outer), ..before });
                }
                self.scopes.push(scope);
                proof {
                    assert(final(self)@.scopes =~= scopes0.drop_last().push(
                        ScopeModel { outers: before.outers.push(outer), ..before },
                    ));
                }
            },
            None => {
                proof {
                    assert(scopes0.len() == 0);
                    assert(final(self)@.scopes =~= scopes0);
                }
            },
        }
    }

    /// The slot of `s` in the innermost scope.
    pub fn get_local(&self, s: Symbol) -> (r: Option<usize>)
        ensures
            r matches Some(slot) ==> self@.get_local(s) == Some(slot as nat) && slot < MAX_SLOTS,
            r is None ==> self@.get_local(s) is None,
    {
        let n = self.scopes.len();
        if n == 0 {
            None
        } else {
            self.scopes[n - 1].slot_of(s)
        }
    }

    /// Where `s` is found in the scopes around the innermost one.
    fn find_outer(&self, s: Symbol) -> (r: Option<(usize, usize)>)
        ensures
            r matches Some((level, position)) ==> find_outer(
                self@.scopes,
                self@.scopes.len() - 1,
                s,
            ) == Some((level as nat, position as nat)),
            r is None ==> find_outer(self@.scopes, self@.scopes.len() - 1, s) is None,
    {
        let n = self.scopes.len();
        if n == 0 {
            return None;
        }
        let mut upto = n - 1;
        while upto > 0
            invariant
                upto < n,
                n == self.scopes.len(),
                find_outer(self@.scopes, n - 1, s) == find_outer(self@.scopes, upto as int, s),
            decreases upto,
        {
            match self.scopes[upto - 1].slot_of(s) {
                Some(slot) => {
                    let level = if upto == 1 {
                        0
                    } else {
                        upto
                    };
                    return Some((level, slot));
                },
                None => {},
            }
            upto -= 1;
        }
        None
    }

    /// The chunk that has been built.
    pub fn chunk(self) -> (r: Arc<Chunk>)
        ensures
            r@ == self@.finish(),
    {
        let mut this = self;
        this.emit(Op::Return);
        let n = this.scopes.len();
        let size = if n > 0 {
            this.scopes[n - 1].size()
        } else {
            0
        };
        let mut chunk = new_chunk(0);
        std::mem::swap(&mut this.chunk, &mut chunk);
        chunk.scope_size = size;
        Arc::new(chunk)
    }

    /// Notes the number of values of a call.
    pub fn set_argc(&mut self, argc: u8)
        ensures
            final(self)@ == (CompilerModel { argc, ..old(self)@ }),
    {
        self.argc = argc;
    }

    /// Emits the instruction that pushes the constant `val`.
    pub fn push(&mut self, val: &Value) -> (r: Result<(), ZapErr>)
        ensures
            went(r, final(self)@, old(self)@.push(val@)),
    {
        let idx = self.get_const_idx(val)?;
        self.emit(Op::Push(idx));
        Ok(())
    }

    /// Emits an instruction.
    pub fn emit(&mut self, op: Op)
        ensures
            final(self)@ == old(self)@.emit(op),
    {
        self.chunk.ops.push(op);
    }

    /// The index of the constant `val` in the pool. An atom or a string that
    /// the pool holds already keeps its place; anything else is added at the
    /// end.
    pub fn get_const_idx(&mut self, val: &Value) -> (r: Result<u16, ZapErr>)
        ensures
            match old(self)@.get_const_idx(val@) {
                Ok((m, idx)) => r == Ok::<u16, ZapErr>(idx) && final(self)@ == m,
                Err(msg) => r matches Err(e) && e@ == msg,
            },
    {
        let ghost consts = self@.chunk.consts;
        if is_plain_value(val) {
            let mut i: usize = 0;
            while i < self.chunk.consts.len()
                invariant
                    i <= self.chunk.consts.len(),
                    is_plain(val@),
                    consts == values_model(self.chunk.consts@),
                    *self == *old(self),
                    find_const(consts, i as nat, val@) is None,
                decreases self.chunk.consts.len() - i,
            {
                if self.chunk.consts[i].eq(val) {
                    proof {
                        assert(same_const(consts[i as int], val@));
                        assert(find_const(consts, (i + 1) as nat, val@) == Some(i as nat));
                        lemma_find_const_stays(consts, (i + 1) as nat, consts.len(), val@, i as nat);
                    }
                    if i > 0xffff {
                        return Err(error_msg("Too many constants in the constants table"));
                    }
                    return Ok(i as u16);
                }
                proof {
                    assert(!same_const(consts[i as int], val@));
                }
                i += 1;
            }
        }
        let idx = self.chunk.consts.len();
        if idx > 0xffff {
            return Err(error_msg("Too many constants in the constants table"));
        }
        self.chunk.consts.push(val.clone());
        proof {
            assert(final(self)@.chunk.consts =~= consts.push(val@));
        }
        Ok(idx as u16)
    }

    /// A constant: the instruction that pushes it.
    pub fn eval_const(&mut self, val: &Value) -> (r: Result<(), ZapErr>)
        ensures
            went(r, final(self)@, old(self)@.push(val@)),
    {
        self.push(val)
    }

    /// A symbol: a load from a slot, or the lookup of a global.
    pub fn eval_symbol(&mut self, s: Symbol) -> (r: Result<(), ZapErr>)
        ensures
            went(r, final(self)@, old(self)@.eval_symbol(s)),
    {
        match self.get_local(s) {
            Some(slot) => {
                self.emit(Op::Load(slot as LocalIndex));
                Ok(())
            },
            None => match self.find_outer(s) {
                Some((level, position)) => {
                    let dest = self.register_local(s)?;
                    self.capture(Outer { level, position, dest });
                    self.emit(Op::Load(dest));
                    Ok(())
                },
                None => {
                    self.emit(Op::LookUp(s));
                    Ok(())
                },
            },
        }
    }

    /// The instruction of a definition.
    pub fn eval_define(&mut self)
        ensures
            final(self)@ == old(self)@.emit(Op::Define),
    {
        self.emit(Op::Define);
    }

    /// The instruction of a call.
    pub fn apply(&mut self)
        ensures
            final(self)@ == old(self)@.apply(),
    {
        if self.is_last_exp() {
            self.emit(Op::Tailcall(self.argc));
        } else {
            self.emit(Op::Call(self.argc));
        }
    }

    /// The instruction of an addition.
    pub fn eval_add(&mut self)
        ensures
            final(self)@ == old(self)@.emit(Op::Add),
    {
        self.emit(Op::Add);
    }

    /// The instruction of a comparison.
    pub fn eval_equal(&mut self)
        ensures
            final(self)@ == old(self)@.emit(Op::Eq),
    {
        self.emit(Op::Eq);
    }

    /// The instruction of a comparison with a constant.
    pub fn eval_equal_const(&mut self, idx: u16)
        ensures
            final(self)@ == old(self)@.emit(Op::EqConst(idx)),
    {
        self.emit(Op::EqConst(idx));
    }
}

impl Compiler {
    fn eval_if(&mut self, list: ZapList) -> (r: Result<(), ZapErr>)
        ensures
            went(r, final(self)@, old(self)@.eval_if(values_model(list@))),
    {
        if list.len() != 4 {
            return Err(error_msg("An if form must have 3 parameters"));
        }
        let cond = list[1].clone();
        self.later(Form::IfCond(list));
        self.later(Form::Value(cond));
        Ok(())
    }

    fn eval_do(&mut self, list: ZapList) -> (r: Result<(), ZapErr>)
        ensures
            went(r, final(self)@, old(self)@.eval_do(values_model(list@))),
    {
        if list.len() < 2 {
            return Err(error_msg("A do form must contains at least 1 parameter"));
        }
        self.later(Form::Do(list, 1));
        Ok(())
    }

    fn eval_def(&mut self, list: ZapList) -> (r: Result<(), ZapErr>)
        ensures
            went(r, final(self)@, old(self)@.eval_def(values_model(list@))),
    {
        if list.len() != 3 {
            return Err(error_msg("A def form must have 2 parameters"));
        }
        self.push(&list[1])?;
        self.later(Form::Define);
        self.later(Form::Value(list[2].clone()));
        Ok(())
    }

    fn eval_fn(&mut self, list: ZapList) -> (r: Result<(), ZapErr>)
        ensures
            went(r, final(self)@, old(self)@.eval_fn(values_model(list@))),
    {
        if list.len() != 3 {
            return Err(error_msg("A fn form must contains 2 parameters"));
        }
        match &list[1] {
            Value::List(args) => {
                let ghost model = values_model(args@);
                if args.len() > 254 {
                    return Err(error_msg("A function cannot have more than 254 parameters."));
                }
                let mut params: Vec<Symbol> = Vec::new();
                let mut i: usize = 0;
                while i < args.len()
                    invariant
                        i <= args.len(),
                        args.len() <= 254,
                        list.len() == 3,
                        values_model(list@)[1] == ValueModel::List(model),
                        model == values_model(args@),
                        params@.len() == i,
                        forall|j: int| 0 <= j < i ==> (#[trigger] model[j]) is Symbol,
                        forall|j: int| 0 <= j < i ==> params@[j] == model[j]->Symbol_0,
                    decreases args.len() - i,
                {
                    match &args[i] {
                        Value::Symbol(s) => {
                            params.push(*s);
                        },
                        _ => {
                            proof {
                                assert(!(model[i as int] is Symbol));
                            }
                            return Err(error_msg("Only symbols can be used as args in fn."));
                        },
                    }
                    i += 1;
                }
                proof {
                    assert(params_ok(model));
                    assert(params@ =~= param_symbols(model));
                }
                let mut parent = new_chunk(args.len());
                std::mem::swap(&mut self.chunk, &mut parent);
                self.later(Form::Return(parent));
                self.scopes.push(Scope::new(params, 1));
                self.later(Form::Value(list[2].clone()));
                proof {
                    let l = values_model(list@);
                    assert(final(self)@.scopes =~= old(self)@.scopes.push(
                        ScopeModel { symbols: param_symbols(model), base: 1, outers: Seq::empty() },
                    ));
                    assert(final(self)@.forms =~= old(self)@.forms.push(
                        FormModel::Return(old(self)@.chunk),
                    ).push(FormModel::Value(l[2])));
                }
                Ok(())
            },
            _ => Err(error_msg("fn's first parameter must be a list")),
        }
    }

    fn eval_let(&mut self, list: ZapList) -> (r: Result<(), ZapErr>)
        ensures
            went(r, final(self)@, old(self)@.eval_let(values_model(list@))),
    {
        if list.len() != 3 {
            return Err(error_msg("A let form must have 2 parameters"));
        }
        match &list[1] {
            Value::List(bindings) => {
                let ghost b = values_model(bindings@);
                let n = bindings.len();
                if n % 2 != 0 {
                    return Err(error_msg("A binding must consist of a symbol and an expression"));
                }
                let mut i: usize = 0;
                while i < n
                    invariant
                        i <= n,
                        list.len() == 3,
                        values_model(list@)[1] == ValueModel::List(b),
                        i % 2 == 0,
                        n % 2 == 0,
                        n == bindings.len(),
                        b == values_model(bindings@),
                        forall|j: int| 0 <= j < i && j % 2 == 0 ==> (#[trigger] b[j]) is Symbol,
                    decreases n - i,
                {
                    match &bindings[i] {
                        Value::Symbol(_) => {},
                        _ => {
                            proof {
                                assert(!(b[i as int] is Symbol));
                            }
                            return Err(
                                error_msg("A binding must consist of a symbol and an expression"),
                            );
                        },
                    }
                    i += 2;
                }
                proof {
                    assert(bindings_ok(b));
                }
                let pairs = n / 2;
                self.later(Form::Let(pairs));
                self.later(Form::Value(list[2].clone()));
                let ghost head = self@.forms;
                let mut done: usize = 0;
                proof {
                    assert(self@.forms =~= head + binding_forms(b, 0));
                }
                while done < pairs
                    invariant
                        done <= pairs,
                        pairs == n / 2,
                        n % 2 == 0,
                        n == bindings.len(),
                        b == values_model(bindings@),
                        bindings_ok(b),
                        self@.forms == head + binding_forms(b, done as nat),
                        self@.chunk == old(self)@.chunk,
                        self@.argc == old(self)@.argc,
                        self@.scopes == old(self)@.scopes,
                    decreases pairs - done,
                {
                    let k = pairs - done - 1;
                    let ghost before = self@.forms;
                    match &bindings[2 * k] {
                        Value::Symbol(s) => {
                            self.later(Form::Binding(*s));
                        },
                        _ => {
                            proof {
                                assert(b[2 * k] is Symbol);
                            }
                        },
                    }
                    self.later(Form::Value(bindings[2 * k + 1].clone()));
                    proof {
                        assert(b.len() / 2 - (done + 1) == k);
                        assert(self@.forms =~= head + binding_forms(b, (done + 1) as nat));
                    }
                    done += 1;
                }
                Ok(())
            },
            _ => Err(error_msg("A binding must consist of a symbol and an expression")),
        }
    }

    fn eval_eq(&mut self, list: ZapList) -> (r: Result<(), ZapErr>)
        ensures
            went(r, final(self)@, old(self)@.eval_eq(values_model(list@))),
    {
        if list.len() != 3 {
            return Err(error_msg("A = form must have 2 parameters"));
        }
        let left = is_const(&list[1]);
        let right = is_const(&list[2]);
        if left && right && decided_by_data(&list[1], &list[2]) {
            let same = list[1].eq(&list[2]);
            self.push(&Value::Bool(same))
        } else if right {
            let idx = self.get_const_idx(&list[2])?;
            self.later(Form::EqualConst(idx));
            self.later(Form::Value(list[1].clone()));
            Ok(())
        } else if left {
            let idx = self.get_const_idx(&list[1])?;
            self.later(Form::EqualConst(idx));
            self.later(Form::Value(list[2].clone()));
            Ok(())
        } else {
            self.later(Form::Equal);
            self.later(Form::Value(list[1].clone()));
            self.later(Form::Value(list[2].clone()));
            Ok(())
        }
    }

    fn eval_plus(&mut self, list: ZapList) -> (r: Result<(), ZapErr>)
        ensures
            went(r, final(self)@, old(self)@.eval_plus(values_model(list@))),
    {
        if list.len() == 1 {
            self.push(&Value::Number(ZERO))
        } else if list.len() == 2 {
            self.later(Form::Value(list[1].clone()));
            Ok(())
        } else {
            self.later(Form::AddMany(list, 1));
            Ok(())
        }
    }

    fn eval_quote(&mut self, list: ZapList) -> (r: Result<(), ZapErr>)
        ensures
            went(r, final(self)@, old(self)@.eval_quote(values_model(list@))),
    {
        if list.len() != 2 {
            return Err(error_msg("A quote form must have 1 parameter"));
        }
        self.push(&list[1])
    }

    fn eval_quasiquote(&mut self, list: ZapList) -> (r: Result<(), ZapErr>)
        ensures
            went(r, final(self)@, old(self)@.eval_quasiquote(values_model(list@))),
    {
        if list.len() != 2 {
            return Err(error_msg("A quasiquote form must have 1 parameter"));
        }
        self.later(Form::Quoting);
        self.later(Form::Value(list[1].clone()));
        Ok(())
    }

    /// A list that is not empty: a special form where it begins with one of
    /// the reserved symbols, a call otherwise.
    pub fn eval_list(&mut self, list: ZapList) -> (r: Result<(), ZapErr>)
        ensures
            went(r, final(self)@, old(self)@.eval_list(values_model(list@))),
    {
        if list.len() > 255 {
            return Err(error_msg("A function cannot have more than 254 parameters."));
        }
        if list.len() == 0 {
            return Ok(());
        }
        if is_symbol(&list[0], symbols::DO) {
            self.eval_do(list)
        } else if is_symbol(&list[0], symbols::FN) {
            self.eval_fn(list)
        } else if is_symbol(&list[0], symbols::DEFINE) {
            self.eval_def(list)
        } else if is_symbol(&list[0], symbols::IF) {
            self.eval_if(list)
        } else if is_symbol(&list[0], symbols::LET) {
            self.eval_let(list)
        } else if is_symbol(&list[0], symbols::EQUAL) {
            self.eval_eq(list)
        } else if is_symbol(&list[0], symbols::PLUS) {
            self.eval_plus(list)
        } else if is_symbol(&list[0], symbols::QUOTE) {
            self.eval_quote(list)
        } else if is_symbol(&list[0], symbols::QUASIQUOTE) {
            self.eval_quasiquote(list)
        } else {
            self.later(Form::Apply);
            self.later(Form::List(list, 0));
            Ok(())
        }
    }

    /// A value to evaluate.
    fn eval_value(&mut self, val: Value) -> (r: Result<(), ZapErr>)
        ensures
            went(r, final(self)@, old(self)@.eval_value(val@)),
    {
        match val {
            Value::List(list) => {
                if list.len() == 0 {
                    self.eval_const(&Value::List(list))
                } else {
                    self.eval_list(list)
                }
            },
            Value::Symbol(s) => self.eval_symbol(s),
            atom => self.eval_const(&atom),
        }
    }

    /// A quoted value.
    fn eval_quoted(&mut self, val: Value) -> (r: Result<(), ZapErr>)
        ensures
            went(r, final(self)@, old(self)@.eval_quoted(val@)),
    {
        match &val {
            Value::List(list) => {
                if list.len() == 2 && is_symbol(&list[0], symbols::UNQUOTE) {
                    self.later(Form::Value(list[1].clone()));
                    Ok(())
                } else if list.len() == 2 && is_symbol(&list[0], symbols::SPLICE_UNQUOTE) {
                    Err(error_msg("Cannot splice-unquote out of a list."))
                } else if any_holds_unquote(list) {
                    if list.len() > 254 {
                        return Err(
                            error_msg("A function cannot have more than 254 parameters."),
                        );
                    }
                    let join = Value::FuncNative(
                        ZapFnNative::new(ZapString::new("join"), Builtin::Join),
                    );
                    self.push(&join)?;
                    self.later(Form::Apply);
                    self.later(Form::Quasi(share_list(list), 0));
                    Ok(())
                } else {
                    self.eval_const(&val)
                }
            },
            _ => self.eval_const(&val),
        }
    }

    /// A quoted item as a list of one item.
    fn wrap_quoted(&mut self, item: Value) -> (r: Result<(), ZapErr>)
        ensures
            went(r, final(self)@, old(self)@.wrap_quoted(item@)),
    {
        let list = Value::FuncNative(ZapFnNative::new(ZapString::new("list"), Builtin::List));
        self.push(&list)?;
        self.later(Form::Wrap);
        self.later(Form::Quoting);
        self.later(Form::Value(item));
        Ok(())
    }

    /// The next item of a quasiquoted list that is built when the chunk runs.
    fn eval_next_in_quasi(&mut self, list: ZapList, idx: usize) -> (r: Result<(), ZapErr>)
        ensures
            went(
                r,
                final(self)@,
                old(self)@.eval_next_in_quasi(values_model(list@), idx as nat),
            ),
    {
        if idx < list.len() {
            let item = list[idx].clone();
            proof {
                assert(values_model(list@)[idx as int] == item@);
            }
            self.later(Form::Quasi(list, idx + 1));
            match &item {
                Value::List(e) => {
                    proof {
                        assert(item@ == ValueModel::List(values_model(e@)));
                    }
                    if e.len() == 2 && is_symbol(&e[0], symbols::SPLICE_UNQUOTE) {
                        self.later(Form::Value(e[1].clone()));
                        return Ok(());
                    }
                },
                _ => {},
            }
            self.wrap_quoted(item)
        } else if idx < 255 {
            self.set_argc((idx + 1) as u8);
            Ok(())
        } else {
            Err(error_msg("A function cannot have more than 254 parameters."))
        }
    }

    /// The next operand of a call, or the number of its values when all
    /// operands are done.
    pub fn eval_next_in_list(&mut self, list: ZapList, idx: u8)
        ensures
            final(self)@ == old(self)@.eval_next_in_list(values_model(list@), idx),
    {
        if (idx as usize) < list.len() && idx < 255 {
            let item = list[idx as usize].clone();
            self.later(Form::List(list, idx + 1));
            self.later(Form::Value(item));
        } else {
            self.set_argc(idx);
        }
    }

    /// The next expression of a `do`.
    pub fn eval_next_in_do(&mut self, list: ZapList, idx: usize)
        ensures
            final(self)@ == old(self)@.eval_next_in_do(values_model(list@), idx as nat),
    {
        if idx < list.len() {
            let item = list[idx].clone();
            if idx + 1 < list.len() {
                self.later(Form::Do(list, idx + 1));
            }
            if idx > 1 {
                self.emit(Op::Pop);
            }
            self.later(Form::Value(item));
        }
    }

    /// After the condition of an `if`.
    pub fn eval_then_branch(&mut self, args: ZapList)
        ensures
            final(self)@ == old(self)@.eval_then_branch(values_model(args@)),
    {
        if args.len() == 4 {
            let branch = args[2].clone();
            let mut saved = empty_ops();
            std::mem::swap(&mut self.chunk.ops, &mut saved);
            self.later(Form::IfThen(args, saved));
            self.later(Form::Value(branch));
        }
    }

    /// After the then-branch of an `if`.
    pub fn eval_else_branch(&mut self, args: &ZapList, chunk: Vec<Op>)
        ensures
            final(self)@ == old(self)@.eval_else_branch(values_model(args@), chunk@),
    {
        let mut then_branch = empty_ops();
        std::mem::swap(&mut self.chunk.ops, &mut then_branch);
        if args.len() == 4 {
            let branch = args[3].clone();
            self.later(Form::IfElse(chunk, then_branch));
            self.later(Form::Value(branch));
        } else {
            let mut ops = chunk;
            ops.append(&mut then_branch);
            self.chunk.ops = ops;
        }
    }

    /// After the else-branch of an `if`: puts the branches together.
    pub fn combine_branches(&mut self, chunk: Vec<Op>, then_branch: Vec<Op>) -> (r: Result<
        (),
        ZapErr,
    >)
        ensures
            went(r, final(self)@, old(self)@.combine_branches(chunk@, then_branch@)),
    {
        let mut else_branch = empty_ops();
        std::mem::swap(&mut self.chunk.ops, &mut else_branch);
        if then_branch.len() >= 0xffff {
            return Err(error_msg("Then branch jump is too big."));
        }
        let mut then_branch = then_branch;
        let then_jump = (1 + then_branch.len()) as u16;
        let mut ops = chunk;
        ops.push(Op::CondJmp(then_jump));
        ops.append(&mut then_branch);
        if self.is_last_exp() {
            ops.push(Op::Return);
        } else {
            if else_branch.len() > 0xffff {
                return Err(error_msg("Else branch jump is too big."));
            }
            ops.push(Op::Jmp(else_branch.len() as u16));
        }
        ops.append(&mut else_branch);
        self.chunk.ops = ops;
        Ok(())
    }

    /// The next operand of a sum.
    pub fn eval_next_in_add(&mut self, list: &ZapList, idx: usize) -> (r: Result<(), ZapErr>)
        ensures
            went(r, final(self)@, old(self)@.eval_next_in_add(values_model(list@), idx as nat)),
    {
        if idx >= list.len() {
            return Ok(());
        }
        let item = &list[idx];
        if idx == 1 {
            self.later(Form::AddMany(list.clone(), idx + 1));
            self.later(Form::Value(item.clone()));
        } else {
            self.later(Form::AddMany(list.clone(), idx + 1));
            if is_const(item) {
                let const_idx = self.get_const_idx(item)?;
                self.emit(Op::AddConst(const_idx));
            } else {
                self.later(Form::Add);
                self.later(Form::Value(item.clone()));
            }
        }
        Ok(())
    }

    /// A binding: declares the symbol and stores the value on top into its
    /// slot.
    fn eval_binding(&mut self, s: Symbol) -> (r: Result<(), ZapErr>)
        ensures
            went(r, final(self)@, old(self)@.eval_binding(s)),
    {
        let slot = self.register_local(s)?;
        self.emit(Op::Store(slot));
        Ok(())
    }

    /// After the body of a function: closes the chunk of the function and
    /// makes it a constant of the chunk around it.
    pub fn wrap_fn(&mut self, chunk: Chunk) -> (r: Result<(), ZapErr>)
        ensures
            went(r, final(self)@, old(self)@.wrap_fn(chunk@)),
    {
        self.emit(Op::Return);
        let ghost scopes0 = self@.scopes;
        let (size, outers) = match self.scopes.pop() {
            Some(scope) => {
                proof {
                    assert(scopes0.last() == scope@);
                    assert(self@.scopes =~= scopes0.drop_last());
                }
                let size = scope.size();
                let Scope { symbols, base, outers } = scope;
                (size, outers)
            },
            None => {
                proof {
                    assert(scopes0.len() == 0);
                    assert(self@.scopes =~= scopes0);
                }
                (0, Vec::new())
            },
        };
        let mut body = chunk;
        std::mem::swap(&mut self.chunk, &mut body);
        body.scope_size = size;
        if outers.len() == 0 {
            let func = ZapFn::new(size, body);
            self.push(&func)
        } else {
            let closure = ZapFn::new_closure(outers, body);
            self.push(&closure)?;
            self.emit(Op::Closure);
            Ok(())
        }
    }

    /// Does the form `form`, which has just been taken off the stack.
    fn eval_form(&mut self, form: Form) -> (r: Result<(), ZapErr>)
        ensures
            match (CompilerModel { forms: old(self)@.forms.push(form@), ..old(self)@ }).step() {
                CompileStep::More(m) => r is Ok && final(self)@ == m,
                CompileStep::Done(out) => r matches Err(e) && out == Err::<ChunkModel, Seq<char>>(e@),
            },
    {
        proof {
            assert(old(self)@.forms.push(form@).drop_last() =~= old(self)@.forms);
        }
        match form {
            Form::Value(val) => {
                let n = self.forms.len();
                let quoting = n > 0 && match &self.forms[n - 1] {
                    Form::Quoting => true,
                    _ => false,
                };
                if quoting {
                    let _ = self.get_form();
                    self.eval_quoted(val)
                } else {
                    self.eval_value(val)
                }
            },
            Form::List(list, idx) => {
                self.eval_next_in_list(list, idx);
                Ok(())
            },
            Form::Apply => {
                self.apply();
                Ok(())
            },
            Form::IfCond(args) => {
                self.eval_then_branch(args);
                Ok(())
            },
            Form::IfThen(args, chunk) => {
                self.eval_else_branch(&args, chunk);
                Ok(())
            },
            Form::IfElse(chunk, then_branch) => self.combine_branches(chunk, then_branch),
            Form::Do(list, idx) => {
                self.eval_next_in_do(list, idx);
                Ok(())
            },
            Form::Define => {
                self.eval_define();
                Ok(())
            },
            Form::Let(_) => Ok(()),
            Form::Binding(s) => self.eval_binding(s),
            Form::AddMany(list, idx) => self.eval_next_in_add(&list, idx),
            Form::Add => {
                self.eval_add();
                Ok(())
            },
            Form::Equal => {
                self.eval_equal();
                Ok(())
            },
            Form::EqualConst(idx) => {
                self.eval_equal_const(idx);
                Ok(())
            },
            Form::Return(chunk) => self.wrap_fn(chunk),
            Form::Quoting => Ok(()),
            Form::Quasi(list, idx) => self.eval_next_in_quasi(list, idx),
            Form::Wrap => {
                self.emit(Op::Call(2));
                Ok(())
            },
        }
    }
}

/// Whether a result of compiling is as expected.
pub open spec fn compiled_is(r: Result<Arc<Chunk>, ZapErr>, expected: Result<ChunkModel, Seq<char>>) -> bool {
    match (r, expected) {
        (Ok(c), Ok(m)) => c@ == m,
        (Err(e), Err(msg)) => e@ == msg,
        _ => false,
    }
}

/// Compiles a value into a chunk. The chunk is in order by itself, whatever
/// it is made of; where the functions that the value holds are in order, as
/// they are in plain data, which holds none, every function among the
/// constants of the chunk is in order too, to any depth.
pub fn compile(ast: Value) -> (r: Result<Arc<Chunk>, ZapErr>)
    ensures
        compiled_is(r, compile_spec(ast@)),
        r matches Ok(chunk) ==> chunk_itself_ok(chunk@),
        sound(ast@) ==> (r matches Ok(chunk) ==> chunk_ok(chunk@)),
{
    proof {
        lemma_compiled_chunk_is_in_order(ast@);
        if sound(ast@) {
            lemma_compiled_chunks_are_in_order(ast@);
        }
    }
    let mut compiler = Compiler::init(ast);
    loop
        invariant
            compiler@.run() == compile_spec(ast@),
            compile_spec(ast@) matches Ok(chunk) ==> chunk_itself_ok(chunk),
            sound(ast@) ==> (compile_spec(ast@) matches Ok(chunk) ==> chunk_ok(chunk)),
        decreases compiler@.work(),
    {
        let ghost before = compiler@;
        proof {
            lemma_step_works(before);
        }
        match compiler.get_form() {
            Some(form) => {
                proof {
                    assert(compiler@.forms.push(form@) =~= before.forms);
                }
                match compiler.eval_form(form) {
                    Ok(_) => {},
                    Err(e) => {
                        return Err(e);
                    },
                }
            },
            None => {
                return Ok(compiler.chunk());
            },
        }
    }
}

} // verus!
