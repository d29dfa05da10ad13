//! What holds of every run of the machine.

use vstd::prelude::*;
use crate::compiler::{in_tail, CompilerModel};
use crate::numbers::Arith;
use crate::vm::{capture_one, is_run, steps_to, FrameModel, Op, Outcome, Snapshot, VmModel};
use crate::compiler::Outer;
use crate::zap::{truthy, ChunkModel, ValueModel};

verus! {

/// Where the compiler puts the branches of an `if`: the conditional jump
/// stands right behind the instructions before the `if`, the then-branch right
/// behind the jump, and the else-branch one instruction behind the
/// then-branch. That one instruction keeps the then-branch from running on
/// into the else-branch: it is a return where the `if` is the last thing that
/// the function does, and else a jump over the whole else-branch.
pub proof fn lemma_if_layout(c: CompilerModel, saved: Seq<Op>, then_branch: Seq<Op>)
    ensures
        c.combine_branches(saved, then_branch) matches Ok(after) ==> {
            let ops = after.chunk.ops;
            let at = saved.len() as int;
            &&& ops.len() == saved.len() + then_branch.len() + c.chunk.ops.len() + 2
            &&& ops[at] == Op::CondJmp((1 + then_branch.len()) as u16)
            &&& ops.subrange(at + 1, at + 1 + then_branch.len()) == then_branch
            &&& ops[at + 1 + then_branch.len()] == if in_tail(c.forms) {
                Op::Return
            } else {
                Op::Jmp(c.chunk.ops.len() as u16)
            }
            &&& !in_tail(c.forms) ==> c.chunk.ops.len() <= u16::MAX
            &&& ops.subrange(at + 2 + then_branch.len(), ops.len() as int) == c.chunk.ops
        },
{
    match c.combine_branches(saved, then_branch) {
        Ok(after) => {
            let ops = after.chunk.ops;
            let at = saved.len() as int;
            assert(ops.subrange(at + 1, at + 1 + then_branch.len()) =~= then_branch);
            assert(ops.subrange(at + 2 + then_branch.len(), ops.len() as int) =~= c.chunk.ops);
        },
        Err(_) => {},
    }
}

/// An `if` selects the then-branch exactly if its condition is neither `Nil`
/// nor `false`: with the condition on top of the stack, the conditional jump
/// of an `if` whose then-branch has `then_len` instructions goes on with the
/// instruction right behind it, the first of the then-branch, where the
/// condition counts as true, and with the instruction `then_len + 1` further
/// on, the first of the else-branch, where it does not. Either way the
/// condition is taken off the stack.
pub proof fn lemma_if_selects_branch(
    vm: VmModel,
    then_len: nat,
    names: Seq<Seq<char>>,
    globals: Seq<Option<ValueModel>>,
    same: bool,
    calc: spec_fn(Arith, u64, u64) -> u64,
    show: spec_fn(u64) -> Seq<char>,
    host: spec_fn(u32, Seq<ValueModel>) -> Result<ValueModel, Seq<char>>,
)
    requires
        vm.frame.pc < vm.frame.chunk.ops.len(),
        1 + then_len <= u16::MAX,
        vm.frame.chunk.ops[vm.frame.pc as int] == Op::CondJmp((1 + then_len) as u16),
        vm.frame.pc + 2 + then_len <= vm.frame.chunk.ops.len(),
        vm.stack.len() > 0,
    ensures
        vm.step(names, globals, same, calc, show, host) == Outcome::More(
            VmModel {
                frame: FrameModel {
                    pc: if truthy(vm.stack.last()) {
                        vm.frame.pc + 1
                    } else {
                        vm.frame.pc + 2 + then_len
                    },
                    ..vm.frame
                },
                stack: vm.stack.drop_last(),
                calls: vm.calls,
            },
            globals,
        ),
{
    reveal(VmModel::step);
}

/// The branch of an `if` that was not selected is not run: the jump at the end
/// of the then-branch, over an else-branch of `else_len` instructions, goes on
/// with the instruction right behind the else-branch, and changes nothing
/// else.
pub proof fn lemma_then_branch_skips_else(
    vm: VmModel,
    else_len: nat,
    names: Seq<Seq<char>>,
    globals: Seq<Option<ValueModel>>,
    same: bool,
    calc: spec_fn(Arith, u64, u64) -> u64,
    show: spec_fn(u64) -> Seq<char>,
    host: spec_fn(u32, Seq<ValueModel>) -> Result<ValueModel, Seq<char>>,
)
    requires
        vm.frame.pc < vm.frame.chunk.ops.len(),
        else_len <= u16::MAX,
        vm.frame.chunk.ops[vm.frame.pc as int] == Op::Jmp(else_len as u16),
        vm.frame.pc + 1 + else_len <= vm.frame.chunk.ops.len(),
    ensures
        vm.step(names, globals, same, calc, show, host) == Outcome::More(
            VmModel { frame: FrameModel { pc: vm.frame.pc + 1 + else_len, ..vm.frame }, ..vm },
            globals,
        ),
{
    reveal(VmModel::step);
}

/// A closure takes copies when it is made: the slot of a capture holds the
/// value that the captured slot had on the stack at that moment, and the
/// other slots are left as they were. The captured slot lies at the position
/// of the capture above the bottom of the stack for level 0, and above where
/// the frame at the place `level - 1` begins for any other level.
pub proof fn lemma_capture_copies(
    o: Outer,
    locals: Seq<ValueModel>,
    frames: Seq<FrameModel>,
    stack: Seq<ValueModel>,
)
    ensures
        capture_one(o, locals, frames, stack) matches Some(after) ==> {
            let base = if o.level == 0 {
                0
            } else {
                frames[o.level - 1].ret
            };
            &&& after.len() == locals.len()
            &&& after[o.dest as int] == stack[base + o.position]
            &&& forall|i: int|
                0 <= i < locals.len() && i != o.dest ==> after[i] == #[trigger] locals[i]
        },
{
}

/// What a closure has captured stays what it was, whatever is stored on the
/// stack afterwards: when the function is called, each of its slots that the
/// call does not fill holds the value that the function brought along, not
/// what the captured slot holds by then.
pub proof fn lemma_call_brings_captures(
    vm: VmModel,
    argc: u8,
    slot: nat,
    same: bool,
    calc: spec_fn(Arith, u64, u64) -> u64,
    show: spec_fn(u64) -> Seq<char>,
    host: spec_fn(u32, Seq<ValueModel>) -> Result<ValueModel, Seq<char>>,
)
    requires
        0 < argc <= vm.stack.len(),
        vm.stack[vm.stack.len() - argc] is Func,
        argc <= slot < vm.stack[vm.stack.len() - argc]->Func_0.len(),
    ensures
        vm.call(argc, same, calc, show, host) matches Ok(next) && next.frame.ret == vm.stack.len() - argc
            && next.stack[(next.frame.ret + slot) as int] == vm.stack[vm.stack.len()
            - argc]->Func_0[slot as int],
{
}

/// The part of the stack that belongs to the running activation: from its
/// slot 0 upwards.
pub open spec fn window(vm: VmModel) -> Seq<ValueModel> {
    vm.stack.skip(vm.frame.ret as int)
}

/// Whether two machines are at the same place of the same chunk with the same
/// values in the running activation. They may differ in where the activation
/// lies on the stack, and in what lies and waits below it.
pub open spec fn same_activation(a: VmModel, b: VmModel) -> bool {
    &&& a.frame.chunk == b.frame.chunk
    &&& a.frame.pc == b.frame.pc
    &&& a.frame.ret <= a.stack.len()
    &&& b.frame.ret <= b.stack.len()
    &&& window(a) == window(b)
}

/// Whether an instruction works on the running activation alone: it neither
/// calls nor returns, and does not reach for the activations below.
pub open spec fn is_local(op: Op) -> bool {
    !(op is Call) && !(op is Tailcall) && !(op is Return) && !(op is Closure)
}

/// The number of values that an instruction takes off the stack.
pub open spec fn takes(op: Op) -> nat {
    match op {
        Op::Pop => 1,
        Op::Store(_) => 1,
        Op::CondJmp(_) => 1,
        Op::AddConst(_) => 1,
        Op::EqConst(_) => 1,
        Op::Define => 2,
        Op::Add => 2,
        Op::Eq => 2,
        _ => 0,
    }
}

/// An instruction that works on the running activation alone does the same
/// wherever the activation lies on the stack: where what it takes off the
/// stack belongs to the activation, it leads from two machines with the same
/// activation to two machines with the same activation and to the same global
/// bindings, or to the same error in both; and it leaves the stack below the
/// activation, and the activations that wait, as they were.
pub proof fn lemma_local_instructions_do_not_see_below(
    a: VmModel,
    b: VmModel,
    names: Seq<Seq<char>>,
    globals: Seq<Option<ValueModel>>,
    same: bool,
    calc: spec_fn(Arith, u64, u64) -> u64,
    show: spec_fn(u64) -> Seq<char>,
    host: spec_fn(u32, Seq<ValueModel>) -> Result<ValueModel, Seq<char>>,
)
    requires
        same_activation(a, b),
        a.frame.pc < a.frame.chunk.ops.len(),
        is_local(a.frame.chunk.ops[a.frame.pc as int]),
        window(a).len() >= takes(a.frame.chunk.ops[a.frame.pc as int]),
    ensures
        match (a.step(names, globals, same, calc, show, host), b.step(names, globals, same, calc, show, host)) {
            (Outcome::More(x, g), Outcome::More(y, h)) => {
                &&& same_activation(x, y)
                &&& g == h
                &&& x.calls == a.calls
                &&& y.calls == b.calls
                &&& x.frame.ret == a.frame.ret
                &&& y.frame.ret == b.frame.ret
                &&& x.stack.take(a.frame.ret as int) == a.stack.take(a.frame.ret as int)
                &&& y.stack.take(b.frame.ret as int) == b.stack.take(b.frame.ret as int)
            },
            (Outcome::Fail(m), Outcome::Fail(n)) => m == n,
            _ => false,
        },
{
    reveal(VmModel::step);
    let wa = window(a);
    let wb = window(b);
    let ra = a.frame.ret as int;
    let rb = b.frame.ret as int;
    let op = a.frame.chunk.ops[a.frame.pc as int];
    assert(a.stack.len() - ra == b.stack.len() - rb);
    assert(forall|i: int| 0 <= i < wa.len() ==> a.stack[ra + i] == #[trigger] wa[i]);
    assert(forall|i: int| 0 <= i < wb.len() ==> b.stack[rb + i] == #[trigger] wb[i]);
    if wa.len() >= 1 {
        assert(a.stack.last() == wa.last());
        assert(b.stack.last() == wb.last());
    }
    if wa.len() >= 2 {
        assert(a.stack[a.stack.len() - 2] == wa[wa.len() - 2]);
        assert(b.stack[b.stack.len() - 2] == wb[wb.len() - 2]);
    }
    match (a.step(names, globals, same, calc, show, host), b.step(names, globals, same, calc, show, host)) {
        (Outcome::More(x, g), Outcome::More(y, h)) => {
            let grown = match op {
                Op::Push(k) => wa.push(a.frame.chunk.consts[k as int]),
                Op::Load(i) => wa.push(wa[i as int]),
                Op::LookUp(id) => wa.push(x.stack.last()),
                Op::Pop => wa.drop_last(),
                Op::CondJmp(_) => wa.drop_last(),
                Op::Store(i) => wa.drop_last().update(i as int, wa.last()),
                Op::Define => wa.drop_last().drop_last().push(wa.last()),
                Op::Add => wa.drop_last().drop_last().push(x.stack.last()),
                Op::Eq => wa.drop_last().drop_last().push(x.stack.last()),
                Op::AddConst(_) => wa.drop_last().push(x.stack.last()),
                Op::EqConst(_) => wa.drop_last().push(x.stack.last()),
                _ => wa,
            };
            assert(x.stack.last() == y.stack.last() || op is Jmp || op is Pop || op is CondJmp
                || op is Store);
            assert(window(x) =~= grown);
            assert(window(y) =~= grown);
            assert(x.stack.take(ra) =~= a.stack.take(ra));
            assert(y.stack.take(rb) =~= b.stack.take(rb));
        },
        _ => {},
    }
}

/// A tail call and a call of a compiled function begin the same activation:
/// the same chunk from its first instruction, with the same values in its
/// slots. They differ in where the activation lies, on top of the running one
/// or in its place, and in whether the running one is kept waiting.
pub proof fn lemma_tailcall_enters_like_call(
    vm: VmModel,
    argc: u8,
    same: bool,
    calc: spec_fn(Arith, u64, u64) -> u64,
    show: spec_fn(u64) -> Seq<char>,
    host: spec_fn(u32, Seq<ValueModel>) -> Result<ValueModel, Seq<char>>,
)
    requires
        0 < argc <= vm.stack.len(),
        vm.frame.ret <= vm.stack.len() - argc,
        vm.stack[vm.stack.len() - argc] is Func,
    ensures
        vm.tailcall(argc, same, calc, show, host) is Ok,
        vm.call(argc, same, calc, show, host) is Ok,
        ({
            let fast = vm.tailcall(argc, same, calc, show, host)->Ok_0;
            let slow = vm.call(argc, same, calc, show, host)->Ok_0;
            &&& same_activation(fast, slow)
            &&& fast.frame.pc == 0
            &&& fast.frame.ret == vm.frame.ret
            &&& slow.frame.ret == vm.stack.len() - argc
            &&& fast.calls == vm.calls
            &&& slow.calls == vm.calls.push(vm.frame)
            &&& fast.stack.take(vm.frame.ret as int) == vm.stack.take(vm.frame.ret as int)
            &&& slow.stack.take(vm.stack.len() - argc) == vm.stack.take(vm.stack.len() - argc)
        }),
{
    let fast = vm.tailcall(argc, same, calc, show, host)->Ok_0;
    let slow = vm.call(argc, same, calc, show, host)->Ok_0;
    assert(window(fast) =~= window(slow));
    assert(fast.stack.take(vm.frame.ret as int) =~= vm.stack.take(vm.frame.ret as int));
    assert(slow.stack.take(vm.stack.len() - argc) =~= vm.stack.take(vm.stack.len() - argc));
}

/// A tail call of a compiled function does not let the stack grow with the
/// number of tail calls made: no frame is kept waiting, the new activation
/// begins where the old one began, and above that the stack holds the
/// function, its arguments and the slots that the function brings along, and
/// nothing else, however high the stack was before.
pub proof fn lemma_tailcall_keeps_the_stack_low(
    vm: VmModel,
    argc: u8,
    same: bool,
    calc: spec_fn(Arith, u64, u64) -> u64,
    show: spec_fn(u64) -> Seq<char>,
    host: spec_fn(u32, Seq<ValueModel>) -> Result<ValueModel, Seq<char>>,
)
    requires
        0 < argc <= vm.stack.len(),
        vm.frame.ret <= vm.stack.len() - argc,
        vm.stack[vm.stack.len() - argc] is Func,
    ensures
        vm.tailcall(argc, same, calc, show, host) matches Ok(next) && next.calls == vm.calls
            && next.frame.ret == vm.frame.ret && next.stack.len() == vm.frame.ret + if argc
            <= vm.stack[vm.stack.len() - argc]->Func_0.len() {
            vm.stack[vm.stack.len() - argc]->Func_0.len()
        } else {
            argc as nat
        },
{
}

/// Only a call adds a waiting frame, and it adds one: after any other
/// instruction, a tail call among them, no more frames wait than before.
pub proof fn lemma_only_calls_add_frames(
    vm: VmModel,
    names: Seq<Seq<char>>,
    globals: Seq<Option<ValueModel>>,
    same: bool,
    calc: spec_fn(Arith, u64, u64) -> u64,
    show: spec_fn(u64) -> Seq<char>,
    host: spec_fn(u32, Seq<ValueModel>) -> Result<ValueModel, Seq<char>>,
)
    ensures
        vm.step(names, globals, same, calc, show, host) matches Outcome::More(next, _) ==> {
            &&& next.calls.len() <= vm.calls.len() + 1
            &&& next.calls.len() == vm.calls.len() + 1 ==> vm.frame.chunk.ops[vm.frame.pc as int] is Call
                && next.calls.drop_last() == vm.calls
            &&& !(vm.frame.chunk.ops[vm.frame.pc as int] is Call) ==> next.calls.len()
                <= vm.calls.len()
        },
{
    reveal(VmModel::step);
    match vm.step(names, globals, same, calc, show, host) {
        Outcome::More(next, _) => {
            if next.calls.len() == vm.calls.len() + 1 {
                assert(next.calls.drop_last() =~= vm.calls);
            }
        },
        _ => {},
    }
}

/// Whether the next instruction begins an activation on top of the running
/// one: it is a call of a compiled function.
pub open spec fn enters(vm: VmModel) -> bool {
    vm.frame.pc < vm.frame.chunk.ops.len() && match vm.frame.chunk.ops[vm.frame.pc as int] {
        Op::Call(argc) => 0 < argc <= vm.stack.len() && vm.stack[vm.stack.len() - argc] is Func,
        _ => false,
    }
}

/// Whether the next instruction ends the running activation.
pub open spec fn leaves(vm: VmModel) -> bool {
    vm.frame.pc < vm.frame.chunk.ops.len() && vm.frame.chunk.ops[vm.frame.pc as int] == Op::Return
}

/// What the next instruction, if it is a tail call of a compiled function,
/// begins: how many slots the new activation has at its start, and the chunk
/// that it runs.
pub open spec fn tail_called(vm: VmModel) -> Option<(nat, ChunkModel)> {
    if vm.frame.pc < vm.frame.chunk.ops.len() {
        match vm.frame.chunk.ops[vm.frame.pc as int] {
            Op::Tailcall(argc) => if 0 < argc <= vm.stack.len() {
                match vm.stack[vm.stack.len() - argc] {
                    ValueModel::Func(locals, chunk) => Some(
                        (
                            if argc <= locals.len() {
                                locals.len()
                            } else {
                                argc as nat
                            },
                            chunk,
                        ),
                    ),
                    _ => None,
                }
            } else {
                None
            },
            _ => None,
        }
    } else {
        None
    }
}

/// How high the running activation can still get: what it holds above its
/// slot 0, and one more value for each instruction that is left of its chunk.
pub open spec fn reach(vm: VmModel) -> int {
    vm.stack.len() - vm.frame.ret + if vm.frame.pc <= vm.frame.chunk.ops.len() {
        vm.frame.chunk.ops.len() - vm.frame.pc
    } else {
        0
    }
}

/// One instruction that neither begins an activation on top of the running
/// one nor ends the running one keeps the waiting frames and the place of slot
/// 0. A tail call of a compiled function begins its chunk with its slots and
/// nothing above them; any other instruction goes forward in its chunk and
/// puts at most one value more onto the stack.
pub proof fn lemma_step_in_place(
    vm: VmModel,
    names: Seq<Seq<char>>,
    globals: Seq<Option<ValueModel>>,
    same: bool,
    calc: spec_fn(Arith, u64, u64) -> u64,
    show: spec_fn(u64) -> Seq<char>,
    host: spec_fn(u32, Seq<ValueModel>) -> Result<ValueModel, Seq<char>>,
)
    requires
        !enters(vm),
        !leaves(vm),
    ensures
        vm.step(names, globals, same, calc, show, host) matches Outcome::More(next, _) ==> {
            &&& next.calls == vm.calls
            &&& next.frame.ret == vm.frame.ret
            &&& match tail_called(vm) {
                Some((slots, chunk)) => {
                    &&& next.frame.chunk == chunk
                    &&& next.frame.pc == 0
                    &&& next.stack.len() == vm.frame.ret + slots
                },
                None => {
                    &&& next.frame.chunk == vm.frame.chunk
                    &&& vm.frame.pc < next.frame.pc <= vm.frame.chunk.ops.len()
                    &&& next.stack.len() <= vm.stack.len() + 1
                },
            }
        },
{
    reveal(VmModel::step);
}

/// Tail calls run in bounded space, however many of them are made. Over a
/// stretch of a run in which no function is called but by a tail call, and
/// none returns, no frame is added to those that wait, slot 0 stays where it
/// is, and the stack never gets higher above it than `bound`, if the running
/// activation can get no higher at the start of the stretch, and if each
/// function that is tail-called has no more slots and instructions together
/// than `bound`.
pub proof fn lemma_tail_calls_run_in_bounded_space(
    trace: Seq<Snapshot>,
    i: int,
    j: int,
    bound: int,
    names: Seq<Seq<char>>,
    calc: spec_fn(Arith, u64, u64) -> u64,
    show: spec_fn(u64) -> Seq<char>,
    host: spec_fn(u32, Seq<ValueModel>) -> Result<ValueModel, Seq<char>>,
)
    requires
        is_run(trace, names, calc, show, host),
        0 <= i <= j < trace.len(),
        forall|k: int| i <= k < j ==> !enters((#[trigger] trace[k]).vm) && !leaves(trace[k].vm),
        reach(trace[i].vm) <= bound,
        forall|k: int|
            i <= k < j ==> (tail_called((#[trigger] trace[k]).vm) matches Some((slots, chunk))
                ==> slots + chunk.ops.len() <= bound),
    ensures
        trace[j].vm.calls == trace[i].vm.calls,
        trace[j].vm.frame.ret == trace[i].vm.frame.ret,
        reach(trace[j].vm) <= bound,
        trace[j].vm.stack.len() <= trace[i].vm.frame.ret + bound,
    decreases j - i,
{
    if i < j {
        lemma_tail_calls_run_in_bounded_space(trace, i, j - 1, bound, names, calc, show, host);
        let before = trace[j - 1];
        assert(steps_to(before, trace[j - 1 + 1], names, calc, show, host));
        let same = choose|same: bool|
            #![trigger before.vm.same_allowed(same)]
            before.vm.same_allowed(same) && before.vm.step(names, before.globals, same, calc, show, host)
                == Outcome::More(trace[j].vm, trace[j].globals);
        lemma_step_in_place(before.vm, names, before.globals, same, calc, show, host);
    }
}

/// Returning from a tail call ends where returning from a call and then
/// returning once more ends. `fast` is an activation that a tail call began
/// in place of its caller, `slow` the same activation begun by a call, with
/// the caller kept waiting at a `Return`. When the activation returns, `fast`
/// hands its result to whoever waited for the caller; `slow` hands it to the
/// caller, which returns it at once: after that the two machines are in the
/// same state, or have ended with the same value.
pub proof fn lemma_return_after_tailcall(
    fast: VmModel,
    slow: VmModel,
    caller: FrameModel,
    names: Seq<Seq<char>>,
    globals: Seq<Option<ValueModel>>,
    same: bool,
    calc: spec_fn(Arith, u64, u64) -> u64,
    show: spec_fn(u64) -> Seq<char>,
    host: spec_fn(u32, Seq<ValueModel>) -> Result<ValueModel, Seq<char>>,
)
    requires
        same_activation(fast, slow),
        fast.frame.pc < fast.frame.chunk.ops.len(),
        fast.frame.chunk.ops[fast.frame.pc as int] == Op::Return,
        window(fast).len() >= 1,
        slow.calls == fast.calls.push(caller),
        caller.ret == fast.frame.ret,
        caller.ret <= slow.frame.ret,
        caller.pc < caller.chunk.ops.len(),
        caller.chunk.ops[caller.pc as int] == Op::Return,
        slow.stack.take(caller.ret as int) == fast.stack.take(caller.ret as int),
    ensures
        slow.step(names, globals, same, calc, show, host) matches Outcome::More(back, bound) && bound
            == globals && back.step(names, globals, same, calc, show, host) == fast.step(
            names,
            globals,
            same,
            calc,
            show,
            host,
        ),
{
    reveal(VmModel::step);
    let wf = window(fast);
    let ws = window(slow);
    assert(fast.stack.last() == wf.last());
    assert(slow.stack.last() == ws.last());
    assert(slow.calls.last() == caller);
    assert(slow.calls.drop_last() =~= fast.calls);
    let v = fast.stack.last();
    let back = VmModel {
        frame: caller,
        stack: slow.stack.take(slow.frame.ret as int).push(v),
        calls: fast.calls,
    };
    assert(slow.step(names, globals, same, calc, show, host) == Outcome::More(back, globals));
    assert(back.stack.last() == v);
    if fast.calls.len() > 0 {
        assert(back.stack.take(caller.ret as int).push(v) =~= fast.stack.take(
            fast.frame.ret as int,
        ).push(v)) by {
            assert(back.stack.take(caller.ret as int) =~= slow.stack.take(caller.ret as int));
        }
    }
}

/// A tail call of a native function, followed by a return, ends where a call
/// of it, followed by a return, ends. `fast` is about to make the tail call,
/// `slow` is the same machine with the call in place of the tail call; in both
/// the next instruction is `Return`. After the two instructions the machines
/// are in the same state, or have ended with the same value or the same error.
pub proof fn lemma_native_tailcall_is_call_then_return(
    fast: VmModel,
    slow: VmModel,
    argc: u8,
    names: Seq<Seq<char>>,
    globals: Seq<Option<ValueModel>>,
    same: bool,
    calc: spec_fn(Arith, u64, u64) -> u64,
    show: spec_fn(u64) -> Seq<char>,
    host: spec_fn(u32, Seq<ValueModel>) -> Result<ValueModel, Seq<char>>,
)
    requires
        fast.stack == slow.stack,
        fast.calls == slow.calls,
        fast.frame.pc == slow.frame.pc,
        fast.frame.ret == slow.frame.ret,
        fast.frame.pc + 1 < fast.frame.chunk.ops.len(),
        fast.frame.chunk.ops.len() == slow.frame.chunk.ops.len(),
        fast.frame.chunk.ops[fast.frame.pc as int] == Op::Tailcall(argc),
        slow.frame.chunk.ops[slow.frame.pc as int] == Op::Call(argc),
        fast.frame.chunk.ops[fast.frame.pc + 1 as int] == Op::Return,
        slow.frame.chunk.ops[slow.frame.pc + 1 as int] == Op::Return,
        0 < argc <= fast.stack.len(),
        fast.frame.ret <= fast.stack.len() - argc,
        fast.stack[fast.stack.len() - argc] is FuncNative,
    ensures
        match (
            fast.step(names, globals, same, calc, show, host),
            slow.step(names, globals, same, calc, show, host),
        ) {
            (Outcome::More(x, g), Outcome::More(y, h)) => g == globals && h == globals && x.step(
                names,
                globals,
                same,
                calc,
                show,
                host,
            ) == y.step(names, globals, same, calc, show, host),
            (Outcome::Fail(m), Outcome::Fail(n)) => m == n,
            _ => false,
        },
{
    reveal(VmModel::step);
    match (
        fast.step(names, globals, same, calc, show, host),
        slow.step(names, globals, same, calc, show, host),
    ) {
        (Outcome::More(x, g), Outcome::More(y, h)) => {
            let v = x.stack.last();
            assert(y.stack.last() == v);
            if fast.calls.len() > 0 {
                assert(x.stack.take(fast.frame.ret as int).push(v) =~= y.stack.take(
                    fast.frame.ret as int,
                ).push(v));
            }
        },
        _ => {},
    }
}

} // verus!
