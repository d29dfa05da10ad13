//! The virtual machine: bytecode, chunks, call frames and the run loop.

use vstd::prelude::*;
use std::sync::Arc;
use crate::builtins::{
    builtin_result, builtin_same_ok, call_builtin, eq_outcome, same_ok, Natives,
};
use crate::compiler::Outer;
use crate::env::{lookup, unknown_id_message, Env};
use crate::numbers::{Arith, Numbers};
use crate::zap::{
    arith_result, error_msg, nils, truthy, values_model, ChunkModel, Closure, Symbol, Value,
    ValueModel, ZapErr, ZapFn,
};

verus! {

/// The index of a local slot within an activation.
pub type LocalIndex = u8;

/// One instruction of the virtual machine.
#[derive(Clone, Copy, PartialEq, Eq, Structural, Debug)]
pub enum Op {
    /// Push a constant.
    Push(u16),
    /// Call the function that lies `argc` values below the top of the stack.
    Call(u8),
    /// As `Call`, but in place of the running activation.
    Tailcall(u8),
    /// Pop a value; jump forward if it is falsy.
    CondJmp(u16),
    /// Jump forward.
    Jmp(u16),
    /// Push the global value of a symbol.
    LookUp(Symbol),
    /// Bind the value on top to the symbol below it; the value stays on top.
    Define,
    /// Discard the top of the stack.
    Pop,
    /// Push a copy of a local slot.
    Load(LocalIndex),
    /// Pop a value into a local slot.
    Store(LocalIndex),
    /// Add a constant to the value on top.
    AddConst(u16),
    /// Add the two values on top.
    Add,
    /// Compare the value on top with a constant.
    EqConst(u16),
    /// Compare the two values on top.
    Eq,
    /// Leave the running activation.
    Return,
    /// Turn the closure on top into a function, taking its captures.
    Closure,
}

/// A compiled function body.
#[derive(Debug)]
pub struct Chunk {
    /// The instructions.
    pub ops: Vec<Op>,
    /// The constant pool.
    pub consts: Vec<Value>,
    /// The number of local slots to reserve on entry.
    pub scope_size: usize,
    /// The number of arguments the function expects.
    pub arity: usize,
}

/// The message for bytecode that cannot be run: an index that leads out of
/// the chunk or out of the stack.
pub open spec fn invalid_bytecode() -> Seq<char> {
    "Invalid bytecode."@
}

/// A call frame as pure data.
pub struct FrameModel {
    /// The chunk that is running.
    pub chunk: ChunkModel,
    /// The place of the next instruction.
    pub pc: nat,
    /// The place on the stack of the activation's slot 0, which holds the
    /// function while it runs and its result when it has returned.
    pub ret: nat,
}

/// The machine as pure data.
pub struct VmModel {
    /// The frame of the running activation.
    pub frame: FrameModel,
    /// The value stack.
    pub stack: Seq<ValueModel>,
    /// The frames of the activations that wait for the running one, the
    /// outermost first.
    pub calls: Seq<FrameModel>,
}

/// Where one instruction leaves the machine: in a new state, with new global
/// bindings; at the end, with the result; or in an error.
pub enum Outcome {
    More(VmModel, Seq<Option<ValueModel>>),
    Done(ValueModel),
    Fail(Seq<char>),
}

/// The data that global bindings stand for.
pub open spec fn globals_model(g: Seq<Option<Value>>) -> Seq<Option<ValueModel>> {
    Seq::new(
        g.len(),
        |i: int|
            match g[i] {
                Some(v) => Some(v@),
                None => None,
            },
    )
}

/// The local slots of a function made from a closure: `locals` with each of
/// the first `n` captures copied in. A capture is read from the stack, at its
/// position above a base: the bottom of the stack for level 0, and for any
/// other level where the frame at the place `level - 1` begins, the frames
/// counted from the outermost.
pub open spec fn captured(
    outers: Seq<Outer>,
    n: nat,
    locals: Seq<ValueModel>,
    frames: Seq<FrameModel>,
    stack: Seq<ValueModel>,
) -> Option<Seq<ValueModel>>
    decreases n,
{
    if n == 0 || n > outers.len() {
        Some(locals)
    } else {
        match captured(outers, (n - 1) as nat, locals, frames, stack) {
            None => None,
            Some(sofar) => capture_one(outers[n - 1], sofar, frames, stack),
        }
    }
}

/// Where the captures of a level are read from: the bottom of the stack for
/// level 0, otherwise where the frame at the place `level - 1` begins.
pub open spec fn capture_base(level: nat, frames: Seq<FrameModel>) -> nat {
    if level == 0 {
        0
    } else {
        frames[level - 1].ret
    }
}

/// `locals` with one capture copied in, or `None` where the capture leads
/// out of the stack, out of the frames or out of the slots.
pub open spec fn capture_one(
    o: Outer,
    locals: Seq<ValueModel>,
    frames: Seq<FrameModel>,
    stack: Seq<ValueModel>,
) -> Option<Seq<ValueModel>> {
    if o.level > frames.len() {
        None
    } else {
        let base = capture_base(o.level as nat, frames);
        if base + o.position < stack.len() && o.dest < locals.len() {
            Some(locals.update(o.dest as int, stack[base + o.position]))
        } else {
            None
        }
    }
}

/// The slots that a function brings along for the part of its scope that the
/// call does not fill.
pub open spec fn rest_of_locals(locals: Seq<ValueModel>, argc: nat) -> Seq<ValueModel> {
    if argc <= locals.len() {
        locals.skip(argc as int)
    } else {
        Seq::empty()
    }
}

impl VmModel {
    /// The machine at the start of a chunk: the chunk's slots, all empty, and
    /// nothing else.
    pub open spec fn start(chunk: ChunkModel) -> VmModel {
        VmModel {
            frame: FrameModel { chunk, pc: 0, ret: 0 },
            stack: nils(chunk.scope_size),
            calls: Seq::empty(),
        }
    }

    /// With another stack.
    pub open spec fn with_stack(self, stack: Seq<ValueModel>) -> VmModel {
        VmModel { stack, ..self }
    }

    /// With one more value on the stack.
    pub open spec fn pushed(self, v: ValueModel) -> VmModel {
        VmModel { stack: self.stack.push(v), ..self }
    }

    /// With the next instruction taken: the instruction, and the machine
    /// ready for the one after it.
    pub open spec fn get_next_op(self) -> Option<(Op, VmModel)> {
        if self.frame.pc < self.frame.chunk.ops.len() {
            Some(
                (
                    self.frame.chunk.ops[self.frame.pc as int],
                    VmModel { frame: FrameModel { pc: self.frame.pc + 1, ..self.frame }, ..self },
                ),
            )
        } else {
            None
        }
    }

    /// `Push`: a constant goes onto the stack.
    pub open spec fn push_const(self, k: u16) -> Result<VmModel, Seq<char>> {
        if k < self.frame.chunk.consts.len() {
            Ok(self.pushed(self.frame.chunk.consts[k as int]))
        } else {
            Err(invalid_bytecode())
        }
    }

    /// `Pop`: the top of the stack goes.
    pub open spec fn pop_void(self) -> Result<VmModel, Seq<char>> {
        if self.stack.len() > 0 {
            Ok(self.with_stack(self.stack.drop_last()))
        } else {
            Err(invalid_bytecode())
        }
    }

    /// `Load`: a copy of a local slot goes onto the stack.
    pub open spec fn load(self, i: LocalIndex) -> Result<VmModel, Seq<char>> {
        if self.frame.ret + i < self.stack.len() {
            Ok(self.pushed(self.stack[self.frame.ret + i]))
        } else {
            Err(invalid_bytecode())
        }
    }

    /// `Store`: the top of the stack goes into a local slot.
    pub open spec fn store(self, i: LocalIndex) -> Result<VmModel, Seq<char>> {
        if self.stack.len() > 0 && self.frame.ret + i < self.stack.len() - 1 {
            Ok(self.with_stack(self.stack.drop_last().update(self.frame.ret + i, self.stack.last())))
        } else {
            Err(invalid_bytecode())
        }
    }

    /// `LookUp`: the global value of a symbol goes onto the stack.
    pub open spec fn lookup(
        self,
        id: Symbol,
        names: Seq<Seq<char>>,
        globals: Seq<Option<ValueModel>>,
    ) -> Result<VmModel, Seq<char>> {
        match lookup(names, globals, id) {
            Ok(v) => Ok(self.pushed(v)),
            Err(msg) => Err(msg),
        }
    }

    /// `Define`: the value on top becomes the global value of the symbol
    /// below it; the symbol goes, the value stays.
    pub open spec fn define(
        self,
        names: Seq<Seq<char>>,
        globals: Seq<Option<ValueModel>>,
    ) -> Result<(VmModel, Seq<Option<ValueModel>>), Seq<char>> {
        if self.stack.len() < 2 {
            Err(invalid_bytecode())
        } else {
            let val = self.stack.last();
            match self.stack[self.stack.len() - 2] {
                ValueModel::Symbol(id) => if id < names.len() && id < globals.len() {
                    Ok(
                        (
                            self.with_stack(self.stack.drop_last().drop_last().push(val)),
                            globals.update(id as int, Some(val)),
                        ),
                    )
                } else {
                    Err(unknown_id_message(id))
                },
                _ => Err("Env set: only symbols can be used as keys."@),
            }
        }
    }

    /// `Jmp`: so many instructions are skipped.
    pub open spec fn jump(self, n: u16) -> Result<VmModel, Seq<char>> {
        if self.frame.pc + n <= self.frame.chunk.ops.len() {
            Ok(VmModel { frame: FrameModel { pc: self.frame.pc + n as nat, ..self.frame }, ..self })
        } else {
            Err(invalid_bytecode())
        }
    }

    /// `CondJmp`: the top of the stack goes; if it does not count as true, so
    /// many instructions are skipped.
    pub open spec fn cond_jump(self, n: u16) -> Result<VmModel, Seq<char>> {
        if self.stack.len() == 0 {
            Err(invalid_bytecode())
        } else if truthy(self.stack.last()) {
            Ok(self.with_stack(self.stack.drop_last()))
        } else {
            self.with_stack(self.stack.drop_last()).jump(n)
        }
    }

    /// `Add`: the two values on top give way to their sum.
    pub open spec fn add(
        self,
        calc: spec_fn(Arith, u64, u64) -> u64,
        show: spec_fn(u64) -> Seq<char>,
    ) -> Result<VmModel, Seq<char>> {
        if self.stack.len() < 2 {
            Err(invalid_bytecode())
        } else {
            match arith_result(
                Arith::Add,
                self.stack.last(),
                self.stack[self.stack.len() - 2],
                calc,
                show,
            ) {
                Ok(v) => Ok(self.with_stack(self.stack.drop_last().drop_last().push(v))),
                Err(msg) => Err(msg),
            }
        }
    }

    /// `AddConst`: the value on top gives way to its sum with a constant.
    pub open spec fn add_const(
        self,
        k: u16,
        calc: spec_fn(Arith, u64, u64) -> u64,
        show: spec_fn(u64) -> Seq<char>,
    ) -> Result<VmModel, Seq<char>> {
        if self.stack.len() < 1 || k >= self.frame.chunk.consts.len() {
            Err(invalid_bytecode())
        } else {
            match arith_result(
                Arith::Add,
                self.stack.last(),
                self.frame.chunk.consts[k as int],
                calc,
                show,
            ) {
                Ok(v) => Ok(self.with_stack(self.stack.drop_last().push(v))),
                Err(msg) => Err(msg),
            }
        }
    }

    /// `Eq`: the two values on top give way to whether they are equal.
    pub open spec fn eq(self, same: bool) -> Result<VmModel, Seq<char>> {
        if self.stack.len() < 2 {
            Err(invalid_bytecode())
        } else {
            Ok(
                self.with_stack(
                    self.stack.drop_last().drop_last().push(
                        ValueModel::Bool(
                            eq_outcome(self.stack.last(), self.stack[self.stack.len() - 2], same),
                        ),
                    ),
                ),
            )
        }
    }

    /// `EqConst`: the value on top gives way to whether it equals a
    /// constant.
    pub open spec fn eq_const(self, k: u16, same: bool) -> Result<VmModel, Seq<char>> {
        if self.stack.len() < 1 || k >= self.frame.chunk.consts.len() {
            Err(invalid_bytecode())
        } else {
            Ok(
                self.with_stack(
                    self.stack.drop_last().push(
                        ValueModel::Bool(
                            eq_outcome(self.stack.last(), self.frame.chunk.consts[k as int], same),
                        ),
                    ),
                ),
            )
        }
    }

    /// `Closure`: the closure on top gives way to the function that it
    /// becomes once its captures are copied in. The frames that the captures
    /// are counted by are those that wait, the outermost first, and after
    /// them the running one.
    pub open spec fn closure(self) -> Result<VmModel, Seq<char>> {
        if self.stack.len() < 1 {
            Err(invalid_bytecode())
        } else {
            match self.stack.last() {
                ValueModel::Closure(outers, chunk) => {
                    let below = self.with_stack(self.stack.drop_last());
                    match captured(
                        outers,
                        outers.len(),
                        nils(chunk.scope_size),
                        self.calls.push(self.frame),
                        below.stack,
                    ) {
                        Some(locals) => Ok(below.pushed(ValueModel::Func(locals, chunk))),
                        None => Err(invalid_bytecode()),
                    }
                },
                _ => Err("A Closure was expected at the top of the stack."@),
            }
        }
    }

    /// `Call`: the function that lies `argc` values below the top of the
    /// stack is called with the values above it. A native function is run at
    /// once, and its result takes the place of the function and the arguments. A
    /// compiled function gets a frame of its own: the function is its slot 0,
    /// the arguments are its first slots, and the rest of its slots come from
    /// the function.
    pub open spec fn call(
        self,
        argc: u8,
        same: bool,
        calc: spec_fn(Arith, u64, u64) -> u64,
        show: spec_fn(u64) -> Seq<char>,
        host: spec_fn(u32, Seq<ValueModel>) -> Result<ValueModel, Seq<char>>,
    ) -> Result<VmModel, Seq<char>> {
        if argc == 0 || argc > self.stack.len() {
            Err(invalid_bytecode())
        } else {
            let ret = (self.stack.len() - argc) as nat;
            match self.stack[ret as int] {
                ValueModel::FuncNative(_, func) => match builtin_result(
                    func,
                    self.stack.skip(ret + 1 as int),
                    same,
                    calc,
                    show,
                    host,
                ) {
                    Ok(v) => Ok(self.with_stack(self.stack.take(ret as int).push(v))),
                    Err(msg) => Err(msg),
                },
                ValueModel::Func(locals, chunk) => Ok(
                    VmModel {
                        frame: FrameModel { chunk, pc: 0, ret },
                        stack: self.stack + rest_of_locals(locals, argc as nat),
                        calls: self.calls.push(self.frame),
                    },
                ),
                _ => Err("Cannot call a non-function"@),
            }
        }
    }

    /// `Tailcall`: as `Call`, but the running activation is given up for the
    /// one that is called: the function and the arguments move down to where
    /// the running activation began, and no frame is kept.
    pub open spec fn tailcall(
        self,
        argc: u8,
        same: bool,
        calc: spec_fn(Arith, u64, u64) -> u64,
        show: spec_fn(u64) -> Seq<char>,
        host: spec_fn(u32, Seq<ValueModel>) -> Result<ValueModel, Seq<char>>,
    ) -> Result<VmModel, Seq<char>> {
        if argc == 0 || argc > self.stack.len() || self.stack.len() - argc < self.frame.ret {
            Err(invalid_bytecode())
        } else {
            let base = (self.stack.len() - argc) as nat;
            let ret = self.frame.ret;
            match self.stack[base as int] {
                ValueModel::FuncNative(_, func) => match builtin_result(
                    func,
                    self.stack.skip(base + 1 as int),
                    same,
                    calc,
                    show,
                    host,
                ) {
                    Ok(v) => Ok(self.with_stack(self.stack.take(ret as int).push(v))),
                    Err(msg) => Err(msg),
                },
                ValueModel::Func(locals, chunk) => Ok(
                    VmModel {
                        frame: FrameModel { chunk, pc: 0, ret },
                        stack: self.stack.take(ret as int) + self.stack.skip(base as int)
                            + rest_of_locals(locals, argc as nat),
                        calls: self.calls,
                    },
                ),
                _ => Err("Cannot call a non-function"@),
            }
        }
    }

    /// `Return`: the running activation ends. Its result, the value on top,
    /// takes the place of its slot 0, everything above goes, and the
    /// activation that waited runs on. With no activation waiting the machine
    /// stops, and the value on top is the result of the run.
    pub open spec fn pop_call(self) -> Result<Option<VmModel>, Seq<char>> {
        if self.stack.len() == 0 {
            Err(invalid_bytecode())
        } else if self.calls.len() == 0 {
            Ok(None)
        } else if self.frame.ret < self.stack.len() {
            Ok(
                Some(
                    VmModel {
                        frame: self.calls.last(),
                        stack: self.stack.take(self.frame.ret as int).push(self.stack.last()),
                        calls: self.calls.drop_last(),
                    },
                ),
            )
        } else {
            Err(invalid_bytecode())
        }
    }

    /// Whether `same` can be the answer where the next instruction asks if two
    /// values are the same shared container.
    #[verifier::opaque]
    pub open spec fn same_allowed(self, same: bool) -> bool {
        match self.get_next_op() {
            Some((Op::Eq, _)) => self.stack.len() >= 2 ==> same_ok(
                self.stack.last(),
                self.stack[self.stack.len() - 2],
                same,
            ),
            Some((Op::EqConst(k), _)) => self.stack.len() >= 1 && k < self.frame.chunk.consts.len()
                ==> same_ok(self.stack.last(), self.frame.chunk.consts[k as int], same),
            Some((Op::Call(argc), _)) => self.native_same_allowed(argc, same),
            Some((Op::Tailcall(argc), _)) => self.native_same_allowed(argc, same),
            _ => true,
        }
    }

    /// Whether `same` can be the answer where the native function that a call
    /// is about to run asks if two of its arguments are the same shared
    /// container.
    pub open spec fn native_same_allowed(self, argc: u8, same: bool) -> bool {
        0 < argc <= self.stack.len() ==> match self.stack[self.stack.len() - argc] {
            ValueModel::FuncNative(_, func) => builtin_same_ok(
                func,
                self.stack.skip(self.stack.len() - argc + 1),
                same,
            ),
            _ => true,
        }
    }

    /// One instruction.
    #[verifier::opaque]
    pub open spec fn step(
        self,
        names: Seq<Seq<char>>,
        globals: Seq<Option<ValueModel>>,
        same: bool,
        calc: spec_fn(Arith, u64, u64) -> u64,
        show: spec_fn(u64) -> Seq<char>,
        host: spec_fn(u32, Seq<ValueModel>) -> Result<ValueModel, Seq<char>>,
    ) -> Outcome {
        match self.get_next_op() {
            None => Outcome::Fail(invalid_bytecode()),
            Some((op, vm)) => {
                let moved = match op {
                    Op::Push(k) => vm.push_const(k),
                    Op::Call(argc) => vm.call(argc, same, calc, show, host),
                    Op::Tailcall(argc) => vm.tailcall(argc, same, calc, show, host),
                    Op::CondJmp(n) => vm.cond_jump(n),
                    Op::Jmp(n) => vm.jump(n),
                    Op::LookUp(id) => vm.lookup(id, names, globals),
                    Op::Pop => vm.pop_void(),
                    Op::Load(i) => vm.load(i),
                    Op::Store(i) => vm.store(i),
                    Op::AddConst(k) => vm.add_const(k, calc, show),
                    Op::Add => vm.add(calc, show),
                    Op::EqConst(k) => vm.eq_const(k, same),
                    Op::Eq => vm.eq(same),
                    Op::Closure => vm.closure(),
                    Op::Define => Ok(vm),
                    Op::Return => Ok(vm),
                };
                match op {
                    Op::Define => match vm.define(names, globals) {
                        Ok((next, bound)) => Outcome::More(next, bound),
                        Err(msg) => Outcome::Fail(msg),
                    },
                    Op::Return => match vm.pop_call() {
                        Ok(Some(next)) => Outcome::More(next, globals),
                        Ok(None) => Outcome::Done(vm.stack.last()),
                        Err(msg) => Outcome::Fail(msg),
                    },
                    _ => match moved {
                        Ok(next) => Outcome::More(next, globals),
                        Err(msg) => Outcome::Fail(msg),
                    },
                }
            },
        }
    }
}

/// Whether an instruction went as it should: it leaves the machine in the
/// state, or fails with the message, that is expected.
pub open spec fn moved(r: Result<(), ZapErr>, after: VmModel, expected: Result<VmModel, Seq<char>>) -> bool {
    match (r, expected) {
        (Ok(_), Ok(m)) => after == m,
        (Err(e), Err(msg)) => e@ == msg,
        _ => false,
    }
}

/// The frame of an activation: the chunk that runs, the place of its next
/// instruction, and the place of its slot 0 on the stack.
pub struct CallFrame {
    chunk: Arc<Chunk>,
    pc: usize,
    ret: usize,
}

impl View for CallFrame {
    type V = FrameModel;

    closed spec fn view(&self) -> FrameModel {
        FrameModel { chunk: self.chunk@, pc: self.pc as nat, ret: self.ret as nat }
    }
}

/// The data that a stack of frames stands for.
pub open spec fn frames_model(s: Seq<CallFrame>) -> Seq<FrameModel> {
    Seq::new(s.len(), |i: int| s[i]@)
}

impl Chunk {
    /// The frame of an activation of this chunk that begins at `ret`.
    pub fn get_callframe(chunk: &Arc<Chunk>, ret: usize) -> (f: CallFrame)
        ensures
            f@ == (FrameModel { chunk: chunk@, pc: 0, ret: ret as nat }),
    {
        CallFrame { chunk: Arc::clone(chunk), pc: 0, ret }
    }
}

impl CallFrame {
    /// The place of the activation's slot 0 on the stack.
    pub fn get_ret(&self) -> (ret: usize)
        ensures
            ret == self@.ret,
    {
        self.ret
    }
}

/// The error for bytecode that cannot be run.
fn invalid() -> (e: ZapErr)
    ensures
        e@ == invalid_bytecode(),
{
    error_msg("Invalid bytecode.")
}

/// `n` empty slots.
fn empty_slots(n: usize) -> (v: Vec<Value>)
    ensures
        values_model(v@) == nils(n as nat),
        v@.len() == n,
{
    let mut v: Vec<Value> = Vec::new();
    let mut i: usize = 0;
    while i < n
        invariant
            i <= n,
            v@.len() == i,
            forall|j: int| 0 <= j < i ==> v@[j] == Value::Nil,
        decreases n - i,
    {
        v.push(Value::Nil);
        i += 1;
    }
    proof {
        assert(values_model(v@) =~= nils(n as nat));
    }
    v
}

impl ZapFn {
    /// The function that a closure becomes: its slots, all empty but for the
    /// captures, which are copied from the stack. A capture of level 0 is read
    /// at its position from the bottom of the stack, a capture of any other
    /// level at its position above where the frame `callframes[level - 1]`
    /// begins. The function shares the chunk of the closure. A capture that
    /// leads out of the frames, out of the stack or out of the slots is an
    /// error.
    pub fn from_closure(
        closure: &Closure,
        callframes: &Vec<CallFrame>,
        stack: &Vec<Value>,
    ) -> (r: Result<Value, ZapErr>)
        ensures
            match captured(
                closure.outers@,
                closure.outers@.len(),
                nils(closure.chunk@.scope_size),
                frames_model(callframes@),
                values_model(stack@),
            ) {
                Some(locals) => r matches Ok(v) && v@ == ValueModel::Func(locals, closure.chunk@),
                None => r matches Err(e) && e@ == invalid_bytecode(),
            },
    {
        let ghost calls = frames_model(callframes@);
        let ghost below = values_model(stack@);
        let ghost start = nils(closure.chunk@.scope_size);
        let mut locals = empty_slots(closure.chunk.scope_size);
        let mut i: usize = 0;
        while i < closure.outers.len()
            invariant
                i <= closure.outers.len(),
                calls == frames_model(callframes@),
                below == values_model(stack@),
                start == nils(closure.chunk@.scope_size),
                captured(closure.outers@, i as nat, start, calls, below) == Some(
                    values_model(locals@),
                ),
            decreases closure.outers.len() - i,
        {
            let outer = closure.outers[i];
            let ghost sofar = values_model(locals@);
            if outer.level > callframes.len() {
                proof {
                    lemma_capture_fails(closure.outers@, (i + 1) as nat, start, calls, below);
                }
                return Err(invalid());
            }
            let base = if outer.level == 0 {
                0
            } else {
                callframes[outer.level - 1].get_ret()
            };
            if base >= stack.len() || outer.position >= stack.len() - base || (outer.dest as usize)
                >= locals.len() {
                proof {
                    lemma_capture_fails(closure.outers@, (i + 1) as nat, start, calls, below);
                }
                return Err(invalid());
            }
            let val = stack[base + outer.position].clone();
            locals.set(outer.dest as usize, val);
            proof {
                assert(values_model(locals@) =~= sofar.update(
                    outer.dest as int,
                    below[base + outer.position],
                ));
            }
            i += 1;
        }
        Ok(Value::Func(Arc::new(ZapFn { locals, chunk: Arc::clone(&closure.chunk) })))
    }
}

/// Once a capture has failed, all captures have failed.
proof fn lemma_capture_fails(
    outers: Seq<Outer>,
    n: nat,
    locals: Seq<ValueModel>,
    frames: Seq<FrameModel>,
    stack: Seq<ValueModel>,
)
    requires
        captured(outers, n, locals, frames, stack) is None,
        n <= outers.len(),
    ensures
        captured(outers, outers.len(), locals, frames, stack) is None,
    decreases outers.len() - n,
{
    if n < outers.len() {
        lemma_capture_fails(outers, n + 1, locals, frames, stack);
    }
}

/// The machine: the stack, the frame of the running activation, and the
/// frames of those that wait for it.
pub struct VmState {
    callframe: CallFrame,
    stack: Vec<Value>,
    calls: Vec<CallFrame>,
}

impl View for VmState {
    type V = VmModel;

    closed spec fn view(&self) -> VmModel {
        VmModel {
            frame: self.callframe@,
            stack: values_model(self.stack@),
            calls: frames_model(self.calls@),
        }
    }
}

impl VmState {
    /// The machine at the start of a chunk.
    pub fn new(chunk: &Arc<Chunk>) -> (vm: VmState)
        ensures
            vm@ == VmModel::start(chunk@),
    {
        let vm = VmState {
            callframe: Chunk::get_callframe(chunk, 0),
            stack: empty_slots(chunk.scope_size),
            calls: Vec::new(),
        };
        proof {
            assert(vm@.calls =~= Seq::<FrameModel>::empty());
        }
        vm
    }

    /// Takes the next instruction.
    fn get_next_op(&mut self) -> (r: Option<Op>)
        ensures
            match old(self)@.get_next_op() {
                Some((op, vm)) => r == Some(op) && final(self)@ == vm,
                None => r is None && final(self)@ == old(self)@,
            },
    {
        let pc = self.callframe.pc;
        if pc < self.callframe.chunk.ops.len() {
            let op = self.callframe.chunk.ops[pc];
            self.callframe.pc = pc + 1;
            Some(op)
        } else {
            None
        }
    }

    /// Puts a value on the stack.
    fn push(&mut self, val: Value)
        ensures
            final(self)@ == old(self)@.pushed(val@),
    {
        self.stack.push(val);
        proof {
            assert(final(self)@.stack =~= old(self)@.stack.push(val@));
        }
    }

    /// Takes the value on top off the stack.
    fn pop(&mut self) -> (r: Option<Value>)
        ensures
            match r {
                Some(v) => {
                    &&& old(self)@.stack.len() > 0
                    &&& v@ == old(self)@.stack.last()
                    &&& final(self)@ == old(self)@.with_stack(old(self)@.stack.drop_last())
                },
                None => old(self)@.stack.len() == 0 && final(self)@ == old(self)@,
            },
    {
        let r = self.stack.pop();
        proof {
            if r is Some {
                assert(final(self)@.stack =~= old(self)@.stack.drop_last());
            } else {
                assert(final(self)@.stack =~= old(self)@.stack);
            }
        }
        r
    }

    /// `Pop`.
    fn pop_void(&mut self) -> (r: Result<(), ZapErr>)
        ensures
            moved(r, final(self)@, old(self)@.pop_void()),
    {
        match self.pop() {
            Some(_) => Ok(()),
            None => Err(invalid()),
        }
    }

    /// `Push`.
    fn push_const(&mut self, idx: u16) -> (r: Result<(), ZapErr>)
        ensures
            moved(r, final(self)@, old(self)@.push_const(idx)),
    {
        let k = idx as usize;
        if k < self.callframe.chunk.consts.len() {
            let val = self.callframe.chunk.consts[k].clone();
            self.push(val);
            Ok(())
        } else {
            Err(invalid())
        }
    }

    /// `Jmp`.
    fn jump(&mut self, n: u16) -> (r: Result<(), ZapErr>)
        ensures
            moved(r, final(self)@, old(self)@.jump(n)),
    {
        let len = self.callframe.chunk.ops.len();
        let pc = self.callframe.pc;
        if pc <= len && (n as usize) <= len - pc {
            self.callframe.pc = pc + n as usize;
            Ok(())
        } else {
            Err(invalid())
        }
    }

    /// `CondJmp`.
    fn cond_jump(&mut self, n: u16) -> (r: Result<(), ZapErr>)
        ensures
            moved(r, final(self)@, old(self)@.cond_jump(n)),
    {
        match self.pop() {
            Some(v) => {
                if v.is_truthy() {
                    Ok(())
                } else {
                    self.jump(n)
                }
            },
            None => Err(invalid()),
        }
    }

    /// `LookUp`.
    fn lookup<E: Env>(&mut self, id: Symbol, env: &E) -> (r: Result<(), ZapErr>)
        requires
            env.inv(),
        ensures
            moved(
                r,
                final(self)@,
                old(self)@.lookup(id, env.names(), globals_model(env.globals())),
            ),
    {
        let val = env.get_by_id(id)?;
        self.push(val);
        Ok(())
    }

    /// `Define`.
    fn define<E: Env>(&mut self, env: &mut E) -> (r: Result<(), ZapErr>)
        requires
            old(env).inv(),
        ensures
            final(env).inv(),
            final(env).names() == old(env).names(),
            match old(self)@.define(old(env).names(), globals_model(old(env).globals())) {
                Ok((vm, globals)) => {
                    &&& r is Ok
                    &&& final(self)@ == vm
                    &&& globals_model(final(env).globals()) == globals
                },
                Err(msg) => {
                    &&& r matches Err(e) && e@ == msg
                    &&& final(env).globals() == old(env).globals()
                },
            },
    {
        proof {
            old(env).lemma_inv();
        }
        if self.stack.len() < 2 {
            return Err(invalid());
        }
        let ghost stack0 = self@.stack;
        let val = match self.pop() {
            Some(v) => v,
            None => {
                return Err(invalid());
            },
        };
        let key = match self.pop() {
            Some(v) => v,
            None => {
                return Err(invalid());
            },
        };
        self.push(val.clone());
        let r = env.set(&key, &val);
        proof {
            match key {
                Value::Symbol(id) => {
                    if id < old(env).names().len() {
                        assert(globals_model(final(env).globals()) =~= globals_model(
                            old(env).globals(),
                        ).update(id as int, Some(val@)));
                    }
                },
                _ => {},
            }
        }
        r
    }

    /// `Load`.
    fn load(&mut self, idx: LocalIndex) -> (r: Result<(), ZapErr>)
        ensures
            moved(r, final(self)@, old(self)@.load(idx)),
    {
        let len = self.stack.len();
        let ret = self.callframe.ret;
        if ret < len && (idx as usize) < len - ret {
            let val = self.stack[ret + idx as usize].clone();
            self.push(val);
            Ok(())
        } else {
            Err(invalid())
        }
    }

    /// `Store`.
    fn store(&mut self, idx: LocalIndex) -> (r: Result<(), ZapErr>)
        ensures
            moved(r, final(self)@, old(self)@.store(idx)),
    {
        let ret = self.callframe.ret;
        match self.pop() {
            Some(val) => {
                let len = self.stack.len();
                if ret < len && (idx as usize) < len - ret {
                    self.stack.set(ret + idx as usize, val);
                    proof {
                        assert(final(self)@.stack =~= old(self)@.stack.drop_last().update(
                            ret + idx,
                            old(self)@.stack.last(),
                        ));
                    }
                    Ok(())
                } else {
                    Err(invalid())
                }
            },
            None => Err(invalid()),
        }
    }

    /// `AddConst`.
    fn add_const<P: Fn(&str) -> Option<u64>, S: Fn(u64) -> String, A: Fn(Arith, u64, u64) -> u64>(
        &mut self,
        idx: u16,
        nums: &Numbers<P, S, A>,
    ) -> (r: Result<(), ZapErr>)
        requires
            nums.wf(),
        ensures
            moved(r, final(self)@, old(self)@.add_const(idx, nums.calculator(), nums.printer())),
    {
        let k = idx as usize;
        if self.stack.len() < 1 || k >= self.callframe.chunk.consts.len() {
            return Err(invalid());
        }
        let a = match self.pop() {
            Some(v) => v,
            None => {
                return Err(invalid());
            },
        };
        let sum = a.arith(Arith::Add, &self.callframe.chunk.consts[k], nums)?;
        self.push(sum);
        Ok(())
    }

    /// `Add`.
    fn add<P: Fn(&str) -> Option<u64>, S: Fn(u64) -> String, A: Fn(Arith, u64, u64) -> u64>(
        &mut self,
        nums: &Numbers<P, S, A>,
    ) -> (r: Result<(), ZapErr>)
        requires
            nums.wf(),
        ensures
            moved(r, final(self)@, old(self)@.add(nums.calculator(), nums.printer())),
    {
        if self.stack.len() < 2 {
            return Err(invalid());
        }
        let a = match self.pop() {
            Some(v) => v,
            None => {
                return Err(invalid());
            },
        };
        let b = match self.pop() {
            Some(v) => v,
            None => {
                return Err(invalid());
            },
        };
        let sum = a.arith(Arith::Add, &b, nums)?;
        self.push(sum);
        Ok(())
    }

    /// `EqConst`.
    fn eq_const(&mut self, idx: u16) -> (r: (Result<(), ZapErr>, Ghost<bool>))
        ensures
            old(self)@.stack.len() >= 1 && idx < old(self)@.frame.chunk.consts.len() ==> same_ok(
                old(self)@.stack.last(),
                old(self)@.frame.chunk.consts[idx as int],
                r.1@,
            ),
            moved(r.0, final(self)@, old(self)@.eq_const(idx, r.1@)),
    {
        let k = idx as usize;
        if self.stack.len() < 1 || k >= self.callframe.chunk.consts.len() {
            return (Err(invalid()), Ghost(false));
        }
        let a = match self.pop() {
            Some(v) => v,
            None => {
                return (Err(invalid()), Ghost(false));
            },
        };
        let same = a.eq(&self.callframe.chunk.consts[k]);
        self.push(Value::Bool(same));
        (Ok(()), Ghost(same))
    }

    /// `Eq`.
    fn eq(&mut self) -> (r: (Result<(), ZapErr>, Ghost<bool>))
        ensures
            old(self)@.stack.len() >= 2 ==> same_ok(
                old(self)@.stack.last(),
                old(self)@.stack[old(self)@.stack.len() - 2],
                r.1@,
            ),
            moved(r.0, final(self)@, old(self)@.eq(r.1@)),
    {
        if self.stack.len() < 2 {
            return (Err(invalid()), Ghost(false));
        }
        let a = match self.pop() {
            Some(v) => v,
            None => {
                return (Err(invalid()), Ghost(false));
            },
        };
        let b = match self.pop() {
            Some(v) => v,
            None => {
                return (Err(invalid()), Ghost(false));
            },
        };
        let same = a.eq(&b);
        self.push(Value::Bool(same));
        (Ok(()), Ghost(same))
    }

    /// `Closure`.
    fn closure(&mut self) -> (r: Result<(), ZapErr>)
        ensures
            moved(r, final(self)@, old(self)@.closure()),
    {
        match self.pop() {
            Some(Value::Closure(closure)) => {
                let ghost waiting = self@.calls;
                let running = CallFrame {
                    chunk: Arc::clone(&self.callframe.chunk),
                    pc: self.callframe.pc,
                    ret: self.callframe.ret,
                };
                self.calls.push(running);
                proof {
                    assert(frames_model(self.calls@) =~= waiting.push(old(self)@.frame));
                }
                let made = ZapFn::from_closure(&closure, &self.calls, &self.stack);
                self.calls.pop();
                proof {
                    assert(frames_model(self.calls@) =~= waiting);
                }
                let func = made?;
                self.push(func);
                Ok(())
            },
            Some(_) => Err(error_msg("A Closure was expected at the top of the stack.")),
            None => Err(invalid()),
        }
    }
}

/// The most instructions that one run carries out.
pub const STEP_BUDGET: u64 = 0xffff_ffff_ffff_ffff;

/// The machine and the global bindings at one moment of a run.
pub struct Snapshot {
    pub vm: VmModel,
    pub globals: Seq<Option<ValueModel>>,
}

/// Whether one instruction leads from `before` to `after`.
pub open spec fn steps_to(
    before: Snapshot,
    after: Snapshot,
    names: Seq<Seq<char>>,
    calc: spec_fn(Arith, u64, u64) -> u64,
    show: spec_fn(u64) -> Seq<char>,
    host: spec_fn(u32, Seq<ValueModel>) -> Result<ValueModel, Seq<char>>,
) -> bool {
    exists|same: bool|
        #![trigger before.vm.same_allowed(same)]
        before.vm.same_allowed(same) && before.vm.step(names, before.globals, same, calc, show, host)
            == Outcome::More(after.vm, after.globals)
}

/// Whether one instruction ends the run at `last` with `result`.
pub open spec fn ends_with(
    last: Snapshot,
    result: Result<ValueModel, Seq<char>>,
    names: Seq<Seq<char>>,
    calc: spec_fn(Arith, u64, u64) -> u64,
    show: spec_fn(u64) -> Seq<char>,
    host: spec_fn(u32, Seq<ValueModel>) -> Result<ValueModel, Seq<char>>,
) -> bool {
    exists|same: bool|
        #![trigger last.vm.same_allowed(same)]
        last.vm.same_allowed(same) && match last.vm.step(names, last.globals, same, calc, show, host) {
            Outcome::More(_, _) => false,
            Outcome::Done(v) => result == Ok::<ValueModel, Seq<char>>(v),
            Outcome::Fail(msg) => result == Err::<ValueModel, Seq<char>>(msg),
        }
}

/// Whether `trace` is a run of the machine: every moment but the first
/// follows from the one before it by one instruction.
pub open spec fn is_run(
    trace: Seq<Snapshot>,
    names: Seq<Seq<char>>,
    calc: spec_fn(Arith, u64, u64) -> u64,
    show: spec_fn(u64) -> Seq<char>,
    host: spec_fn(u32, Seq<ValueModel>) -> Result<ValueModel, Seq<char>>,
) -> bool {
    forall|i: int|
        0 <= i < trace.len() - 1 ==> steps_to(#[trigger] trace[i], trace[i + 1], names, calc, show, host)
}

/// The message of a run that has used up its instructions.
pub open spec fn out_of_steps() -> Seq<char> {
    "The step budget is used up."@
}

/// What one instruction did, as the machine reports it: `Ok(None)` to go
/// on, `Ok(Some(v))` at the end of the run, an error otherwise.
pub open spec fn stepped(
    r: Result<Option<Value>, ZapErr>,
    after: Snapshot,
    before: Snapshot,
    same: bool,
    names: Seq<Seq<char>>,
    calc: spec_fn(Arith, u64, u64) -> u64,
    show: spec_fn(u64) -> Seq<char>,
    host: spec_fn(u32, Seq<ValueModel>) -> Result<ValueModel, Seq<char>>,
) -> bool {
    &&& before.vm.same_allowed(same)
    &&& match before.vm.step(names, before.globals, same, calc, show, host) {
        Outcome::More(vm, globals) => r matches Ok(None) && after.vm == vm && after.globals
            == globals,
        Outcome::Done(v) => r matches Ok(Some(x)) && x@ == v && after.globals == before.globals,
        Outcome::Fail(msg) => r matches Err(e) && e@ == msg && after.globals == before.globals,
    }
}

impl VmState {
    /// Runs a native function on the values that lie above `base`; its result
    /// takes the place of everything from `keep` on.
    fn call_native<
        P: Fn(&str) -> Option<u64>,
        S: Fn(u64) -> String,
        A: Fn(Arith, u64, u64) -> u64,
        H: Fn(u32, &Vec<Value>) -> Result<Value, ZapErr>,
    >(
        &mut self,
        func: crate::builtins::Builtin,
        base: usize,
        keep: usize,
        nums: &Numbers<P, S, A>,
        natives: &Natives<H>,
    ) -> (r: (Result<(), ZapErr>, Ghost<bool>))
        requires
            nums.wf(),
            natives.wf(),
            keep <= base < old(self)@.stack.len(),
        ensures
            builtin_same_ok(func, old(self)@.stack.skip(base + 1), r.1@),
            moved(
                r.0,
                final(self)@,
                match builtin_result(
                    func,
                    old(self)@.stack.skip(base + 1),
                    r.1@,
                    nums.calculator(),
                    nums.printer(),
                    natives.hosted(),
                ) {
                    Ok(v) => Ok(old(self)@.with_stack(old(self)@.stack.take(keep as int).push(v))),
                    Err(msg) => Err(msg),
                },
            ),
    {
        let ghost stack0 = self@.stack;
        let len = self.stack.len();
        proof {
            assert(len == stack0.len());
        }
        let args = self.stack.split_off(base + 1);
        proof {
            assert(values_model(args@) =~= stack0.skip(base + 1));
        }
        let result = call_builtin(func, &args, nums, natives);
        let ghost same = choose|same: bool|
            #![trigger builtin_same_ok(func, values_model(args@), same)]
            {
                &&& builtin_same_ok(func, values_model(args@), same)
                &&& crate::zap::value_result_is(
                    result,
                    builtin_result(
                        func,
                        values_model(args@),
                        same,
                        nums.calculator(),
                        nums.printer(),
                        natives.hosted(),
                    ),
                )
            };
        match result {
            Ok(v) => {
                self.stack.truncate(keep);
                self.stack.push(v);
                proof {
                    assert(final(self)@.stack =~= stack0.take(keep as int).push(v@));
                }
                (Ok(()), Ghost(same))
            },
            Err(e) => (Err(e), Ghost(same)),
        }
    }

    /// Brings along the slots of a function that a call does not fill.
    fn push_rest_of_locals(&mut self, func: &ZapFn, argc: usize)
        ensures
            final(self)@ == old(self)@.with_stack(
                old(self)@.stack + rest_of_locals(values_model(func.locals@), argc as nat),
            ),
    {
        let ghost stack0 = self@.stack;
        let ghost locals = values_model(func.locals@);
        let n = func.locals.len();
        if argc <= n {
            let mut i = argc;
            proof {
                assert(self@.stack =~= stack0 + locals.subrange(argc as int, i as int));
            }
            while i < n
                invariant
                    argc <= i <= n,
                    n == func.locals.len(),
                    locals == values_model(func.locals@),
                    self@.frame == old(self)@.frame,
                    self@.calls == old(self)@.calls,
                    self@.stack == stack0 + locals.subrange(argc as int, i as int),
                decreases n - i,
            {
                let ghost before = self@.stack;
                self.push(func.locals[i].clone());
                proof {
                    assert(self@.stack =~= stack0 + locals.subrange(argc as int, i + 1));
                }
                i += 1;
            }
            proof {
                assert(locals.subrange(argc as int, n as int) =~= locals.skip(argc as int));
            }
        } else {
            proof {
                assert(self@.stack =~= stack0 + Seq::<ValueModel>::empty());
            }
        }
    }

    /// `Call`.
    fn call<
        P: Fn(&str) -> Option<u64>,
        S: Fn(u64) -> String,
        A: Fn(Arith, u64, u64) -> u64,
        H: Fn(u32, &Vec<Value>) -> Result<Value, ZapErr>,
    >(
        &mut self,
        argc: u8,
        nums: &Numbers<P, S, A>,
        natives: &Natives<H>,
    ) -> (r: (Result<(), ZapErr>, Ghost<bool>))
        requires
            nums.wf(),
            natives.wf(),
        ensures
            old(self)@.native_same_allowed(argc, r.1@),
            moved(
                r.0,
                final(self)@,
                old(self)@.call(argc, r.1@, nums.calculator(), nums.printer(), natives.hosted()),
            ),
    {
        let len = self.stack.len();
        let n = argc as usize;
        if n == 0 || n > len {
            return (Err(invalid()), Ghost(false));
        }
        let ret = len - n;
        let head = self.stack[ret].clone();
        match head {
            Value::Func(func) => {
                let mut frame = Chunk::get_callframe(&func.chunk, ret);
                std::mem::swap(&mut self.callframe, &mut frame);
                self.calls.push(frame);
                proof {
                    assert(self@.calls =~= old(self)@.calls.push(old(self)@.frame));
                }
                self.push_rest_of_locals(&func, n);
                (Ok(()), Ghost(false))
            },
            Value::FuncNative(f) => self.call_native(f.func, ret, ret, nums, natives),
            _ => (Err(error_msg("Cannot call a non-function")), Ghost(false)),
        }
    }

    /// `Tailcall`.
    fn tailcall<
        P: Fn(&str) -> Option<u64>,
        S: Fn(u64) -> String,
        A: Fn(Arith, u64, u64) -> u64,
        H: Fn(u32, &Vec<Value>) -> Result<Value, ZapErr>,
    >(
        &mut self,
        argc: u8,
        nums: &Numbers<P, S, A>,
        natives: &Natives<H>,
    ) -> (r: (Result<(), ZapErr>, Ghost<bool>))
        requires
            nums.wf(),
            natives.wf(),
        ensures
            old(self)@.native_same_allowed(argc, r.1@),
            moved(
                r.0,
                final(self)@,
                old(self)@.tailcall(argc, r.1@, nums.calculator(), nums.printer(), natives.hosted()),
            ),
    {
        let len = self.stack.len();
        let n = argc as usize;
        let ret = self.callframe.ret;
        if n == 0 || n > len || len - n < ret {
            return (Err(invalid()), Ghost(false));
        }
        let args_base = len - n;
        let head = self.stack[args_base].clone();
        match head {
            Value::Func(func) => {
                let ghost stack0 = self@.stack;
                self.callframe = Chunk::get_callframe(&func.chunk, ret);
                let mut j: usize = 0;
                while j < n
                    invariant
                        j <= n,
                        n <= len,
                        args_base == len - n,
                        ret <= args_base,
                        self.stack@.len() == len,
                        stack0.len() == len,
                        self@.frame == (FrameModel { chunk: func.chunk@, pc: 0, ret: ret as nat }),
                        self@.calls == old(self)@.calls,
                        forall|i: int| 0 <= i < ret ==> self@.stack[i] == stack0[i],
                        forall|i: int| ret <= i < ret + j ==> self@.stack[i] == stack0[args_base + i - ret],
                        forall|i: int| ret + j <= i < len ==> self@.stack[i] == stack0[i],
                    decreases n - j,
                {
                    let ghost cur = self@.stack;
                    proof {
                        assert(cur[args_base + j] == stack0[args_base + j]);
                    }
                    let v = self.stack[args_base + j].clone();
                    self.stack.set(ret + j, v);
                    proof {
                        assert(v@ == cur[args_base + j]);
                        assert(self@.stack =~= cur.update(ret + j, v@));
                    }
                    j += 1;
                }
                let ghost moved_down = self@.stack;
                self.stack.truncate(ret + n);
                proof {
                    assert(self@.stack =~= moved_down.take(ret + n));
                    assert(self@.stack =~= stack0.take(ret as int) + stack0.skip(args_base as int));
                }
                self.push_rest_of_locals(&func, n);
                (Ok(()), Ghost(false))
            },
            Value::FuncNative(f) => self.call_native(f.func, args_base, ret, nums, natives),
            _ => (Err(error_msg("Cannot call a non-function")), Ghost(false)),
        }
    }

    /// `Return`: `Some` of the result where the run ends.
    fn pop_call(&mut self) -> (r: Result<Option<Value>, ZapErr>)
        ensures
            match old(self)@.pop_call() {
                Ok(Some(vm)) => r matches Ok(None) && final(self)@ == vm,
                Ok(None) => r matches Ok(Some(v)) && v@ == old(self)@.stack.last(),
                Err(msg) => r matches Err(e) && e@ == msg,
            },
    {
        let ghost stack0 = self@.stack;
        let ghost calls0 = self@.calls;
        let top = match self.stack.pop() {
            Some(v) => v,
            None => {
                return Err(invalid());
            },
        };
        match self.calls.pop() {
            Some(frame) => {
                let ret = self.callframe.ret;
                if ret > self.stack.len() {
                    return Err(invalid());
                }
                self.stack.truncate(ret);
                self.stack.push(top);
                self.callframe = frame;
                proof {
                    assert(final(self)@.stack =~= stack0.take(ret as int).push(stack0.last()));
                    assert(final(self)@.calls =~= calls0.drop_last());
                    assert(calls0.last() == frame@);
                }
                Ok(None)
            },
            None => Ok(Some(top)),
        }
    }

    /// Carries out the next instruction.
    fn step<
        E: Env,
        P: Fn(&str) -> Option<u64>,
        S: Fn(u64) -> String,
        A: Fn(Arith, u64, u64) -> u64,
        H: Fn(u32, &Vec<Value>) -> Result<Value, ZapErr>,
    >(
        &mut self,
        env: &mut E,
        nums: &Numbers<P, S, A>,
        natives: &Natives<H>,
    ) -> (r: (Result<Option<Value>, ZapErr>, Ghost<bool>))
        requires
            old(env).inv(),
            nums.wf(),
            natives.wf(),
        ensures
            final(env).inv(),
            final(env).names() == old(env).names(),
            stepped(
                r.0,
                Snapshot { vm: final(self)@, globals: globals_model(final(env).globals()) },
                Snapshot { vm: old(self)@, globals: globals_model(old(env).globals()) },
                r.1@,
                old(env).names(),
                nums.calculator(),
                nums.printer(),
                natives.hosted(),
            ),
    {
        proof {
            reveal(VmModel::step);
            reveal(VmModel::same_allowed);
        }
        let op = match self.get_next_op() {
            Some(op) => op,
            None => {
                return (Err(invalid()), Ghost(false));
            },
        };
        match op {
            Op::Push(const_idx) => (lift(self.push_const(const_idx)), Ghost(false)),
            Op::Call(argc) => {
                let (r, same) = self.call(argc, nums, natives);
                (lift(r), same)
            },
            Op::Tailcall(argc) => {
                let (r, same) = self.tailcall(argc, nums, natives);
                (lift(r), same)
            },
            Op::CondJmp(n) => (lift(self.cond_jump(n)), Ghost(false)),
            Op::Jmp(n) => (lift(self.jump(n)), Ghost(false)),
            Op::LookUp(id) => (lift(self.lookup(id, env)), Ghost(false)),
            Op::Define => (lift(self.define(env)), Ghost(false)),
            Op::Pop => (lift(self.pop_void()), Ghost(false)),
            Op::Load(offset) => (lift(self.load(offset)), Ghost(false)),
            Op::Store(offset) => (lift(self.store(offset)), Ghost(false)),
            Op::AddConst(const_idx) => (lift(self.add_const(const_idx, nums)), Ghost(false)),
            Op::Add => (lift(self.add(nums)), Ghost(false)),
            Op::EqConst(const_idx) => {
                let (r, same) = self.eq_const(const_idx);
                (lift(r), same)
            },
            Op::Eq => {
                let (r, same) = self.eq();
                (lift(r), same)
            },
            Op::Closure => (lift(self.closure()), Ghost(false)),
            Op::Return => (self.pop_call(), Ghost(false)),
        }
    }
}

/// The report of an instruction that does not end the run.
fn lift(r: Result<(), ZapErr>) -> (out: Result<Option<Value>, ZapErr>)
    ensures
        match r {
            Ok(_) => out matches Ok(None),
            Err(e) => out matches Err(x) && x@ == e@,
        },
{
    match r {
        Ok(_) => Ok(None),
        Err(e) => Err(e),
    }
}

/// The data that a result of a run stands for.
pub open spec fn result_model(r: Result<Value, ZapErr>) -> Result<ValueModel, Seq<char>> {
    match r {
        Ok(v) => Ok(v@),
        Err(e) => Err(e@),
    }
}

/// Whether `trace` is the run of `chunk` that begins with the global bindings
/// `before` and ends with `result` and the global bindings `after`: it begins
/// at the start of the chunk, every moment follows from the one before it by
/// one instruction, and the instruction at its last moment ends it, with the
/// value that is on top when the outermost activation returns, or with the
/// error of an instruction that fails. A run that has carried out
/// [`STEP_BUDGET`] instructions and has not ended is stopped with an error.
pub open spec fn ran(
    trace: Seq<Snapshot>,
    chunk: ChunkModel,
    before: Seq<Option<ValueModel>>,
    result: Result<ValueModel, Seq<char>>,
    after: Seq<Option<ValueModel>>,
    names: Seq<Seq<char>>,
    calc: spec_fn(Arith, u64, u64) -> u64,
    show: spec_fn(u64) -> Seq<char>,
    host: spec_fn(u32, Seq<ValueModel>) -> Result<ValueModel, Seq<char>>,
) -> bool {
    &&& trace.len() > 0
    &&& trace[0] == Snapshot { vm: VmModel::start(chunk), globals: before }
    &&& is_run(trace, names, calc, show, host)
    &&& trace.last().globals == after
    &&& if trace.len() <= STEP_BUDGET {
        ends_with(trace.last(), result, names, calc, show, host)
    } else {
        result == Err::<ValueModel, Seq<char>>(out_of_steps())
    }
}

/// A run that one more instruction continues is a run.
proof fn lemma_run_goes_on(
    trace: Seq<Snapshot>,
    after: Snapshot,
    r: Result<Option<Value>, ZapErr>,
    same: bool,
    names: Seq<Seq<char>>,
    calc: spec_fn(Arith, u64, u64) -> u64,
    show: spec_fn(u64) -> Seq<char>,
    host: spec_fn(u32, Seq<ValueModel>) -> Result<ValueModel, Seq<char>>,
)
    requires
        trace.len() > 0,
        is_run(trace, names, calc, show, host),
        stepped(r, after, trace.last(), same, names, calc, show, host),
        r matches Ok(None),
    ensures
        is_run(trace.push(after), names, calc, show, host),
{
    let before = trace.last();
    assert(before.vm.same_allowed(same));
    assert(steps_to(before, after, names, calc, show, host));
    let longer = trace.push(after);
    assert forall|i: int| 0 <= i < longer.len() - 1 implies steps_to(
        #[trigger] longer[i],
        longer[i + 1],
        names,
        calc,
        show,
        host,
    ) by {
        if i < trace.len() - 1 {
            assert(longer[i] == trace[i]);
            assert(longer[i + 1] == trace[i + 1]);
        }
    }
}

/// A run whose next instruction ends it has ended.
proof fn lemma_run_ends(
    last: Snapshot,
    after: Snapshot,
    r: Result<Option<Value>, ZapErr>,
    same: bool,
    names: Seq<Seq<char>>,
    calc: spec_fn(Arith, u64, u64) -> u64,
    show: spec_fn(u64) -> Seq<char>,
    host: spec_fn(u32, Seq<ValueModel>) -> Result<ValueModel, Seq<char>>,
)
    requires
        stepped(r, after, last, same, names, calc, show, host),
        !(r matches Ok(None)),
    ensures
        after.globals == last.globals,
        r matches Ok(Some(v)) ==> ends_with(last, Ok(v@), names, calc, show, host),
        r matches Err(e) ==> ends_with(last, Err(e@), names, calc, show, host),
{
    assert(last.vm.same_allowed(same));
}

/// Runs a chunk against an environment and gives the value that the chunk
/// computes.
pub fn run<
    E: Env,
    P: Fn(&str) -> Option<u64>,
    S: Fn(u64) -> String,
    A: Fn(Arith, u64, u64) -> u64,
    H: Fn(u32, &Vec<Value>) -> Result<Value, ZapErr>,
>(
    chunk: Arc<Chunk>,
    env: &mut E,
    nums: &Numbers<P, S, A>,
    natives: &Natives<H>,
) -> (r: Result<Value, ZapErr>)
    requires
        old(env).inv(),
        nums.wf(),
        natives.wf(),
    ensures
        final(env).inv(),
        final(env).names() == old(env).names(),
        exists|trace: Seq<Snapshot>|
            #[trigger] ran(
                trace,
                chunk@,
                globals_model(old(env).globals()),
                result_model(r),
                globals_model(final(env).globals()),
                old(env).names(),
                nums.calculator(),
                nums.printer(),
                natives.hosted(),
            ),
{
    let mut vm = VmState::new(&chunk);
    let mut budget: u64 = STEP_BUDGET;
    let ghost names = env.names();
    let ghost calc = nums.calculator();
    let ghost show = nums.printer();
    let ghost host = natives.hosted();
    let ghost first = Snapshot { vm: vm@, globals: globals_model(env.globals()) };
    let ghost mut trace = seq![first];
    while budget > 0
        invariant
            env.inv(),
            nums.wf(),
            natives.wf(),
            env.names() == names,
            names == old(env).names(),
            calc == nums.calculator(),
            show == nums.printer(),
            host == natives.hosted(),
            first == (Snapshot {
                vm: VmModel::start(chunk@),
                globals: globals_model(old(env).globals()),
            }),
            trace.len() > 0,
            trace[0] == first,
            is_run(trace, names, calc, show, host),
            trace.last() == (Snapshot { vm: vm@, globals: globals_model(env.globals()) }),
            trace.len() + budget == STEP_BUDGET + 1,
        decreases budget,
    {
        let ghost before = trace.last();
        let (r, same) = vm.step(env, nums, natives);
        let ghost after = Snapshot { vm: vm@, globals: globals_model(env.globals()) };
        match r {
            Ok(None) => {
                proof {
                    lemma_run_goes_on(trace, after, r, same@, names, calc, show, host);
                    trace = trace.push(after);
                }
                budget -= 1;
            },
            Ok(Some(v)) => {
                proof {
                    lemma_run_ends(before, after, r, same@, names, calc, show, host);
                    assert(ran(
                        trace,
                        chunk@,
                        globals_model(old(env).globals()),
                        Ok(v@),
                        globals_model(env.globals()),
                        names,
                        calc,
                        show,
                        host,
                    ));
                }
                return Ok(v);
            },
            Err(e) => {
                proof {
                    lemma_run_ends(before, after, r, same@, names, calc, show, host);
                    assert(ran(
                        trace,
                        chunk@,
                        globals_model(old(env).globals()),
                        Err(e@),
                        globals_model(env.globals()),
                        names,
                        calc,
                        show,
                        host,
                    ));
                }
                return Err(e);
            },
        }
    }
    let e = error_msg("The step budget is used up.");
    proof {
        assert(ran(
            trace,
            chunk@,
            globals_model(old(env).globals()),
            Err(e@),
            globals_model(env.globals()),
            names,
            calc,
            show,
            host,
        ));
    }
    Err(e)
}

} // verus!
