//! Tail calls: a tail call gives what a call followed by a return gives.
//!
//! The machine is compared with a machine that carries out every `Tailcall`
//! as a `Call`. Where a `Return` stands behind the `Tailcall`, that is the
//! same as a program in which every `Tailcall` is replaced by a `Call`
//! followed by a `Return`. The two machines differ in how the stack grows: the
//! second keeps a frame waiting for every tail call, with nothing left to do
//! but to pass on what it is handed.

use vstd::prelude::*;
use crate::numbers::Arith;
use crate::vm::{
    ends_with, is_run, rest_of_locals, steps_to, FrameModel, Op, Outcome, Snapshot, VmModel,
};
use crate::vm_laws::{is_local, lemma_local_instructions_do_not_see_below, takes, window};
use crate::zap::{ChunkModel, ValueModel};

verus! {

impl VmModel {
    /// One instruction, with a tail call carried out as a call.
    pub open spec fn step_with_calls(
        self,
        names: Seq<Seq<char>>,
        globals: Seq<Option<ValueModel>>,
        same: bool,
        calc: spec_fn(Arith, u64, u64) -> u64,
        show: spec_fn(u64) -> Seq<char>,
        host: spec_fn(u32, Seq<ValueModel>) -> Result<ValueModel, Seq<char>>,
    ) -> Outcome {
        match self.get_next_op() {
            Some((Op::Tailcall(argc), vm)) => match vm.call(argc, same, calc, show, host) {
                Ok(next) => Outcome::More(next, globals),
                Err(msg) => Outcome::Fail(msg),
            },
            _ => self.step(names, globals, same, calc, show, host),
        }
    }
}

/// An activation apart from where it lies on the stack: its chunk, the place
/// of its next instruction, and the values that belong to it.
pub struct Activation {
    pub chunk: ChunkModel,
    pub pc: nat,
    pub window: Seq<ValueModel>,
}

/// The running activation.
pub open spec fn running(vm: VmModel) -> Activation {
    Activation { chunk: vm.frame.chunk, pc: vm.frame.pc, window: window(vm) }
}

/// Whether a frame has nothing left to do but to return: its next
/// instruction is `Return`.
pub open spec fn passes_on(f: FrameModel) -> bool {
    f.pc < f.chunk.ops.len() && f.chunk.ops[f.pc as int] == Op::Return
}

/// Whether the frames lie one above the other on the stack, below `upper`.
pub open spec fn ordered(calls: Seq<FrameModel>, upper: nat) -> bool
    decreases calls.len(),
{
    calls.len() == 0 || (calls.last().ret <= upper && ordered(
        calls.drop_last(),
        calls.last().ret,
    ))
}

/// The activations that wait and have something left to do, the outermost
/// first, each with the values that belong to it: those from its slot 0 up to
/// where the next frame begins. Frames that only pass on what they are handed
/// are left out.
pub open spec fn waiting(calls: Seq<FrameModel>, stack: Seq<ValueModel>, upper: nat) -> Seq<
    Activation,
>
    decreases calls.len(),
{
    if calls.len() == 0 {
        Seq::empty()
    } else {
        let c = calls.last();
        let below = waiting(calls.drop_last(), stack, c.ret);
        if passes_on(c) {
            below
        } else {
            below.push(
                Activation {
                    chunk: c.chunk,
                    pc: c.pc,
                    window: stack.subrange(c.ret as int, upper as int),
                },
            )
        }
    }
}

/// Whether the frames of a machine lie in order on its stack.
pub open spec fn in_order(vm: VmModel) -> bool {
    vm.frame.ret <= vm.stack.len() && ordered(vm.calls, vm.frame.ret)
}

/// Whether two machines are alike but for how their stacks have grown: their
/// frames lie in order, the same activations wait in both, and either the same
/// activation runs in both, or both are about to return the same value.
pub open spec fn alike(f: VmModel, s: VmModel) -> bool {
    &&& in_order(f)
    &&& in_order(s)
    &&& waiting(f.calls, f.stack, f.frame.ret) == waiting(s.calls, s.stack, s.frame.ret)
    &&& {
        ||| running(f) == running(s)
        ||| {
            &&& passes_on(f.frame)
            &&& passes_on(s.frame)
            &&& window(f).len() > 0
            &&& window(s).len() > 0
            &&& f.stack.last() == s.stack.last()
        }
    }
}

/// Whether the next instruction of a machine stays within the running
/// activation: what it takes off the stack belongs to the activation; a
/// function that it calls lies in the activation; a `Return` stands behind a
/// tail call; and a closure that it completes captures nothing, since
/// captures are found by counting frames, of which the two machines keep
/// different numbers.
pub open spec fn stays_within(vm: VmModel) -> bool {
    match vm.get_next_op() {
        None => true,
        Some((op, next)) => match op {
            Op::Call(argc) => argc <= window(vm).len(),
            Op::Tailcall(argc) => argc <= window(vm).len() && passes_on(next.frame),
            Op::Return => window(vm).len() > 0,
            Op::Closure => window(vm).len() > 0 && match vm.stack.last() {
                ValueModel::Closure(outers, _) => outers.len() == 0,
                _ => true,
            },
            _ => window(vm).len() >= takes(op),
        },
    }
}

/// The activations that wait depend on the stack only below where the
/// running activation begins.
proof fn lemma_waiting_below(
    calls: Seq<FrameModel>,
    a: Seq<ValueModel>,
    b: Seq<ValueModel>,
    upper: nat,
)
    requires
        ordered(calls, upper),
        upper <= a.len(),
        upper <= b.len(),
        a.take(upper as int) == b.take(upper as int),
    ensures
        waiting(calls, a, upper) == waiting(calls, b, upper),
    decreases calls.len(),
{
    if calls.len() > 0 {
        let c = calls.last();
        assert(a.take(c.ret as int) =~= a.take(upper as int).take(c.ret as int));
        assert(b.take(c.ret as int) =~= b.take(upper as int).take(c.ret as int));
        lemma_waiting_below(calls.drop_last(), a, b, c.ret);
        assert(a.subrange(c.ret as int, upper as int) =~= a.take(upper as int).skip(c.ret as int));
        assert(b.subrange(c.ret as int, upper as int) =~= b.take(upper as int).skip(c.ret as int));
    }
}

/// What two machines that are alike are left with after one instruction
/// each: alike again, with the same global bindings, or failed with the same
/// error.
pub open spec fn alike_after(fast: Outcome, slow: Outcome) -> bool {
    match (fast, slow) {
        (Outcome::More(f, g), Outcome::More(s, h)) => alike(f, s) && g == h,
        (Outcome::Fail(m), Outcome::Fail(n)) => m == n,
        _ => false,
    }
}

/// The values on top of two stacks that end alike are the same.
proof fn lemma_tops(f: VmModel, s: VmModel)
    requires
        f.frame.ret <= f.stack.len(),
        s.frame.ret <= s.stack.len(),
        window(f) == window(s),
    ensures
        f.stack.len() - f.frame.ret == s.stack.len() - s.frame.ret,
        forall|i: int|
            0 <= i < window(f).len() ==> (#[trigger] window(f)[i]) == f.stack[f.frame.ret + i]
                && window(f)[i] == s.stack[s.frame.ret + i],
        forall|k: int|
            0 <= k <= window(f).len() ==> #[trigger] f.stack.skip(f.stack.len() - k) == s.stack.skip(
                s.stack.len() - k,
            ),
{
    let wf = window(f);
    let ws = window(s);
    assert forall|i: int| 0 <= i < wf.len() implies (#[trigger] wf[i]) == f.stack[f.frame.ret + i]
        && wf[i] == s.stack[s.frame.ret + i] by {
        assert(ws[i] == s.stack[s.frame.ret + i]);
    }
    assert forall|k: int| 0 <= k <= wf.len() implies #[trigger] f.stack.skip(f.stack.len() - k)
        == s.stack.skip(s.stack.len() - k) by {
        assert(f.stack.skip(f.stack.len() - k) =~= wf.skip(wf.len() - k));
        assert(s.stack.skip(s.stack.len() - k) =~= ws.skip(ws.len() - k));
    }
}

/// An instruction that works on the running activation alone leaves two
/// machines that are alike alike.
proof fn lemma_alike_local(
    f: VmModel,
    s: VmModel,
    names: Seq<Seq<char>>,
    globals: Seq<Option<ValueModel>>,
    same: bool,
    calc: spec_fn(Arith, u64, u64) -> u64,
    show: spec_fn(u64) -> Seq<char>,
    host: spec_fn(u32, Seq<ValueModel>) -> Result<ValueModel, Seq<char>>,
)
    requires
        alike(f, s),
        running(f) == running(s),
        stays_within(f),
        f.frame.pc < f.frame.chunk.ops.len(),
        is_local(f.frame.chunk.ops[f.frame.pc as int]),
    ensures
        alike_after(
            f.step(names, globals, same, calc, show, host),
            s.step_with_calls(names, globals, same, calc, show, host),
        ),
        f.same_allowed(same) == s.same_allowed(same),
{
    lemma_local_instructions_do_not_see_below(f, s, names, globals, same, calc, show, host);
    lemma_tops(f, s);
    assert(f.same_allowed(same) == s.same_allowed(same)) by {
        reveal(VmModel::same_allowed);
        let w = window(f);
        if w.len() >= 1 {
            assert(f.stack.last() == w[w.len() - 1]);
            assert(s.stack.last() == w[w.len() - 1]);
        }
        if w.len() >= 2 {
            assert(f.stack[f.stack.len() - 2] == w[w.len() - 2]);
            assert(s.stack[s.stack.len() - 2] == w[w.len() - 2]);
        }
    }
    match (f.step(names, globals, same, calc, show, host), s.step(names, globals, same, calc, show, host)) {
        (Outcome::More(x, g), Outcome::More(y, h)) => {
            lemma_waiting_below(f.calls, x.stack, f.stack, f.frame.ret);
            lemma_waiting_below(s.calls, y.stack, s.stack, s.frame.ret);
        },
        _ => {},
    }
}

/// Completing a closure leaves two machines that are alike alike.
proof fn lemma_alike_closure(
    f: VmModel,
    s: VmModel,
    names: Seq<Seq<char>>,
    globals: Seq<Option<ValueModel>>,
    same: bool,
    calc: spec_fn(Arith, u64, u64) -> u64,
    show: spec_fn(u64) -> Seq<char>,
    host: spec_fn(u32, Seq<ValueModel>) -> Result<ValueModel, Seq<char>>,
)
    requires
        alike(f, s),
        running(f) == running(s),
        stays_within(f),
        f.frame.pc < f.frame.chunk.ops.len(),
        f.frame.chunk.ops[f.frame.pc as int] == Op::Closure,
    ensures
        alike_after(
            f.step(names, globals, same, calc, show, host),
            s.step_with_calls(names, globals, same, calc, show, host),
        ),
        f.same_allowed(same) == s.same_allowed(same),
{
    reveal(VmModel::step);
    reveal(VmModel::same_allowed);
    lemma_tops(f, s);
    let w = window(f);
    assert(f.stack.last() == w[w.len() - 1]);
    assert(s.stack.last() == w[w.len() - 1]);
    match f.stack.last() {
        ValueModel::Closure(outers, chunk) => {
            let fb = f.stack.drop_last();
            let sb = s.stack.drop_last();
            assert(fb.skip(f.frame.ret as int) =~= w.drop_last());
            assert(sb.skip(s.frame.ret as int) =~= w.drop_last());
assert(outers.len() == 0);
            match (
                f.step(names, globals, same, calc, show, host),
                s.step(names, globals, same, calc, show, host),
            ) {
                (Outcome::More(x, g), Outcome::More(y, h)) => {
                    assert(window(x) =~= w.drop_last().push(x.stack.last()));
                    assert(window(y) =~= w.drop_last().push(y.stack.last()));
                    assert(x.stack.take(f.frame.ret as int) =~= f.stack.take(f.frame.ret as int));
                    assert(y.stack.take(s.frame.ret as int) =~= s.stack.take(s.frame.ret as int));
                    lemma_waiting_below(f.calls, x.stack, f.stack, f.frame.ret);
                    lemma_waiting_below(s.calls, y.stack, s.stack, s.frame.ret);
                },
                _ => {},
            }
        },
        _ => {},
    }
}

/// The frame that keeps waiting when its activation calls.
pub open spec fn resumed(vm: VmModel) -> FrameModel {
    FrameModel { pc: vm.frame.pc + 1, ..vm.frame }
}

/// The activations that wait once the running activation waits too.
proof fn lemma_waiting_push(vm: VmModel, stack: Seq<ValueModel>, base: nat)
    requires
        in_order(vm),
        vm.frame.ret <= base <= vm.stack.len(),
        base <= stack.len(),
        stack.take(base as int) == vm.stack.take(base as int),
    ensures
        ordered(vm.calls.push(resumed(vm)), base),
        waiting(vm.calls.push(resumed(vm)), stack, base) == if passes_on(resumed(vm)) {
            waiting(vm.calls, vm.stack, vm.frame.ret)
        } else {
            waiting(vm.calls, vm.stack, vm.frame.ret).push(
                Activation {
                    chunk: vm.frame.chunk,
                    pc: vm.frame.pc + 1,
                    window: window(vm).take(base - vm.frame.ret),
                },
            )
        },
{
    let calls = vm.calls.push(resumed(vm));
    assert(calls.drop_last() =~= vm.calls);
    assert(calls.last() == resumed(vm));
    assert(stack.take(vm.frame.ret as int) =~= stack.take(base as int).take(vm.frame.ret as int));
    assert(vm.stack.take(vm.frame.ret as int) =~= vm.stack.take(base as int).take(
        vm.frame.ret as int,
    ));
    lemma_waiting_below(vm.calls, stack, vm.stack, vm.frame.ret);
    assert(stack.subrange(vm.frame.ret as int, base as int) =~= stack.take(base as int).skip(
        vm.frame.ret as int,
    ));
    assert(window(vm).take(base - vm.frame.ret) =~= vm.stack.take(base as int).skip(
        vm.frame.ret as int,
    ));
}

/// A call leaves two machines that are alike alike.
proof fn lemma_alike_call(
    f: VmModel,
    s: VmModel,
    argc: u8,
    names: Seq<Seq<char>>,
    globals: Seq<Option<ValueModel>>,
    same: bool,
    calc: spec_fn(Arith, u64, u64) -> u64,
    show: spec_fn(u64) -> Seq<char>,
    host: spec_fn(u32, Seq<ValueModel>) -> Result<ValueModel, Seq<char>>,
)
    requires
        alike(f, s),
        running(f) == running(s),
        stays_within(f),
        f.frame.pc < f.frame.chunk.ops.len(),
        f.frame.chunk.ops[f.frame.pc as int] == Op::Call(argc),
    ensures
        alike_after(
            f.step(names, globals, same, calc, show, host),
            s.step_with_calls(names, globals, same, calc, show, host),
        ),
        f.same_allowed(same) == s.same_allowed(same),
{
    reveal(VmModel::step);
    reveal(VmModel::same_allowed);
    lemma_tops(f, s);
    let w = window(f);
    if argc > 0 {
        let fbase = (f.stack.len() - argc) as nat;
        let sbase = (s.stack.len() - argc) as nat;
        assert(f.stack[fbase as int] == w[w.len() - argc]);
        assert(s.stack[sbase as int] == w[w.len() - argc]);
        assert(f.stack.skip(f.stack.len() - (argc - 1)) == s.stack.skip(
            s.stack.len() - (argc - 1),
        ));
        match (
            f.step(names, globals, same, calc, show, host),
            s.step(names, globals, same, calc, show, host),
        ) {
            (Outcome::More(x, g), Outcome::More(y, h)) => {
                match f.stack[fbase as int] {
                    ValueModel::Func(locals, chunk) => {
                        let rest = rest_of_locals(locals, argc as nat);
                        assert(window(x) =~= w.skip(w.len() - argc) + rest);
                        assert(window(y) =~= w.skip(w.len() - argc) + rest);
                        assert(x.stack.take(fbase as int) =~= f.stack.take(fbase as int));
                        assert(y.stack.take(sbase as int) =~= s.stack.take(sbase as int));
                        lemma_waiting_push(f, x.stack, fbase);
                        lemma_waiting_push(s, y.stack, sbase);
                        assert(x.calls == f.calls.push(resumed(f)));
                        assert(y.calls == s.calls.push(resumed(s)));
                    },
                    _ => {
                        assert(window(x) =~= w.take(w.len() - argc).push(x.stack.last()));
                        assert(window(y) =~= w.take(w.len() - argc).push(y.stack.last()));
                        assert(x.stack.take(f.frame.ret as int) =~= f.stack.take(
                            f.frame.ret as int,
                        ));
                        assert(y.stack.take(s.frame.ret as int) =~= s.stack.take(
                            s.frame.ret as int,
                        ));
                        lemma_waiting_below(f.calls, x.stack, f.stack, f.frame.ret);
                        lemma_waiting_below(s.calls, y.stack, s.stack, s.frame.ret);
                    },
                }
            },
            _ => {},
        }
    }
}

/// A tail call in the one machine and a call in its place in the other leave
/// the two machines alike.
proof fn lemma_alike_tailcall(
    f: VmModel,
    s: VmModel,
    argc: u8,
    names: Seq<Seq<char>>,
    globals: Seq<Option<ValueModel>>,
    same: bool,
    calc: spec_fn(Arith, u64, u64) -> u64,
    show: spec_fn(u64) -> Seq<char>,
    host: spec_fn(u32, Seq<ValueModel>) -> Result<ValueModel, Seq<char>>,
)
    requires
        alike(f, s),
        running(f) == running(s),
        stays_within(f),
        f.frame.pc < f.frame.chunk.ops.len(),
        f.frame.chunk.ops[f.frame.pc as int] == Op::Tailcall(argc),
    ensures
        alike_after(
            f.step(names, globals, same, calc, show, host),
            s.step_with_calls(names, globals, same, calc, show, host),
        ),
        f.same_allowed(same) == s.same_allowed(same),
{
    reveal(VmModel::step);
    reveal(VmModel::same_allowed);
    lemma_tops(f, s);
    let w = window(f);
    if argc > 0 {
        let fbase = (f.stack.len() - argc) as nat;
        let sbase = (s.stack.len() - argc) as nat;
        assert(f.stack[fbase as int] == w[w.len() - argc]);
        assert(s.stack[sbase as int] == w[w.len() - argc]);
        assert(f.stack.skip(f.stack.len() - (argc - 1)) == s.stack.skip(
            s.stack.len() - (argc - 1),
        ));
        assert(passes_on(resumed(f)));
        assert(passes_on(resumed(s)));
        match (
            f.step(names, globals, same, calc, show, host),
            s.step_with_calls(names, globals, same, calc, show, host),
        ) {
            (Outcome::More(x, g), Outcome::More(y, h)) => {
                match f.stack[fbase as int] {
                    ValueModel::Func(locals, chunk) => {
                        let rest = rest_of_locals(locals, argc as nat);
                        assert(window(x) =~= w.skip(w.len() - argc) + rest);
                        assert(window(y) =~= w.skip(w.len() - argc) + rest);
                        assert(x.stack.take(f.frame.ret as int) =~= f.stack.take(
                            f.frame.ret as int,
                        ));
                        assert(y.stack.take(sbase as int) =~= s.stack.take(sbase as int));
                        lemma_waiting_below(f.calls, x.stack, f.stack, f.frame.ret);
                        lemma_waiting_push(s, y.stack, sbase);
                        assert(y.calls == s.calls.push(resumed(s)));
                    },
                    _ => {
                        assert(window(x) =~= seq![x.stack.last()]);
                        assert(window(y) =~= w.take(w.len() - argc).push(y.stack.last()));
                        assert(x.stack.take(f.frame.ret as int) =~= f.stack.take(
                            f.frame.ret as int,
                        ));
                        assert(y.stack.take(s.frame.ret as int) =~= s.stack.take(
                            s.frame.ret as int,
                        ));
                        lemma_waiting_below(f.calls, x.stack, f.stack, f.frame.ret);
                        lemma_waiting_below(s.calls, y.stack, s.stack, s.frame.ret);
                        assert(x.frame == resumed(f));
                        assert(y.frame == resumed(s));
                    },
                }
            },
            _ => {},
        }
    }
}

/// An instruction other than `Return` leaves two machines in which the same
/// activation runs alike, where the one machine makes tail calls and the
/// other makes calls in their place.
proof fn lemma_alike_step(
    f: VmModel,
    s: VmModel,
    names: Seq<Seq<char>>,
    globals: Seq<Option<ValueModel>>,
    same: bool,
    calc: spec_fn(Arith, u64, u64) -> u64,
    show: spec_fn(u64) -> Seq<char>,
    host: spec_fn(u32, Seq<ValueModel>) -> Result<ValueModel, Seq<char>>,
)
    requires
        alike(f, s),
        running(f) == running(s),
        !passes_on(f.frame),
        stays_within(f),
    ensures
        alike_after(
            f.step(names, globals, same, calc, show, host),
            s.step_with_calls(names, globals, same, calc, show, host),
        ),
        f.same_allowed(same) == s.same_allowed(same),
{
    if f.frame.pc < f.frame.chunk.ops.len() {
        let op = f.frame.chunk.ops[f.frame.pc as int];
        match op {
            Op::Call(argc) => lemma_alike_call(f, s, argc, names, globals, same, calc, show, host),
            Op::Tailcall(argc) => lemma_alike_tailcall(
                f,
                s,
                argc,
                names,
                globals,
                same,
                calc,
                show,
                host,
            ),
            Op::Closure => lemma_alike_closure(f, s, names, globals, same, calc, show, host),
            _ => lemma_alike_local(f, s, names, globals, same, calc, show, host),
        }
    } else {
        reveal(VmModel::step);
        reveal(VmModel::same_allowed);
    }
}

/// What is handed to the innermost of the activations that wait when the
/// value `v` is returned to it: the activation with the value on top of its
/// values.
pub open spec fn handed(w: Seq<Activation>, v: ValueModel) -> Activation {
    Activation { window: w.last().window.push(v), ..w.last() }
}

/// A return hands the value on top to the frame below: a frame that only
/// passes on is then about to return the same value, with the same
/// activations waiting; a frame that has something left to do runs on with the
/// value. With no frame below the run ends with the value.
proof fn lemma_return_step(
    x: VmModel,
    names: Seq<Seq<char>>,
    globals: Seq<Option<ValueModel>>,
    same: bool,
    calc: spec_fn(Arith, u64, u64) -> u64,
    show: spec_fn(u64) -> Seq<char>,
    host: spec_fn(u32, Seq<ValueModel>) -> Result<ValueModel, Seq<char>>,
)
    requires
        in_order(x),
        passes_on(x.frame),
        window(x).len() > 0,
    ensures
        x.same_allowed(same),
        x.step_with_calls(names, globals, same, calc, show, host) == x.step(
            names,
            globals,
            same,
            calc,
            show,
            host,
        ),
        match x.step(names, globals, same, calc, show, host) {
            Outcome::Done(r) => r == x.stack.last() && x.calls.len() == 0,
            Outcome::More(y, g) => {
                let w = waiting(x.calls, x.stack, x.frame.ret);
                &&& g == globals
                &&& in_order(y)
                &&& x.calls.len() > 0
                &&& y.calls == x.calls.drop_last()
                &&& window(y).len() > 0
                &&& y.stack.last() == x.stack.last()
                &&& if passes_on(x.calls.last()) {
                    passes_on(y.frame) && waiting(y.calls, y.stack, y.frame.ret) == w
                } else {
                    &&& w.len() > 0
                    &&& running(y) == handed(w, x.stack.last())
                    &&& waiting(y.calls, y.stack, y.frame.ret) == w.drop_last()
                }
            },
            Outcome::Fail(_) => false,
        },
{
    reveal(VmModel::step);
    reveal(VmModel::same_allowed);
    if x.calls.len() > 0 {
        let c = x.calls.last();
        let v = x.stack.last();
        let y = VmModel {
            frame: c,
            stack: x.stack.take(x.frame.ret as int).push(v),
            calls: x.calls.drop_last(),
        };
        assert(x.step(names, globals, same, calc, show, host) == Outcome::More(y, globals));
        assert(y.stack.take(c.ret as int) =~= x.stack.take(c.ret as int));
        lemma_waiting_below(y.calls, y.stack, x.stack, c.ret);
        assert(window(y) =~= x.stack.subrange(c.ret as int, x.frame.ret as int).push(v));
        if !passes_on(c) {
            let w = waiting(x.calls, x.stack, x.frame.ret);
            assert(w.drop_last() =~= waiting(x.calls.drop_last(), x.stack, c.ret));
        }
    }
}

/// Whether one instruction, with tail calls carried out as calls, leads from
/// `before` to `after`.
pub open spec fn slowly_steps_to(
    before: Snapshot,
    after: Snapshot,
    names: Seq<Seq<char>>,
    calc: spec_fn(Arith, u64, u64) -> u64,
    show: spec_fn(u64) -> Seq<char>,
    host: spec_fn(u32, Seq<ValueModel>) -> Result<ValueModel, Seq<char>>,
) -> bool {
    exists|same: bool|
        #![trigger before.vm.same_allowed(same)]
        before.vm.same_allowed(same) && before.vm.step_with_calls(
            names,
            before.globals,
            same,
            calc,
            show,
            host,
        ) == Outcome::More(after.vm, after.globals)
}

/// Whether one instruction, with tail calls carried out as calls, ends the
/// run at `last` with the value `v`.
pub open spec fn slowly_ends_with(
    last: Snapshot,
    v: ValueModel,
    names: Seq<Seq<char>>,
    calc: spec_fn(Arith, u64, u64) -> u64,
    show: spec_fn(u64) -> Seq<char>,
    host: spec_fn(u32, Seq<ValueModel>) -> Result<ValueModel, Seq<char>>,
) -> bool {
    exists|same: bool|
        #![trigger last.vm.same_allowed(same)]
        last.vm.same_allowed(same) && last.vm.step_with_calls(
            names,
            last.globals,
            same,
            calc,
            show,
            host,
        ) == Outcome::Done(v)
}

/// Whether `trace` is a run of the machine that carries out tail calls as
/// calls.
pub open spec fn is_slow_run(
    trace: Seq<Snapshot>,
    names: Seq<Seq<char>>,
    calc: spec_fn(Arith, u64, u64) -> u64,
    show: spec_fn(u64) -> Seq<char>,
    host: spec_fn(u32, Seq<ValueModel>) -> Result<ValueModel, Seq<char>>,
) -> bool {
    forall|i: int|
        0 <= i < trace.len() - 1 ==> slowly_steps_to(
            #[trigger] trace[i],
            trace[i + 1],
            names,
            calc,
            show,
            host,
        )
}

/// A run that begins where another ends goes on with it.
proof fn lemma_join(
    a: Seq<Snapshot>,
    b: Seq<Snapshot>,
    names: Seq<Seq<char>>,
    calc: spec_fn(Arith, u64, u64) -> u64,
    show: spec_fn(u64) -> Seq<char>,
    host: spec_fn(u32, Seq<ValueModel>) -> Result<ValueModel, Seq<char>>,
)
    requires
        a.len() > 0,
        b.len() > 0,
        a.last() == b[0],
        is_slow_run(a, names, calc, show, host),
        is_slow_run(b, names, calc, show, host),
    ensures
        is_slow_run(a + b.drop_first(), names, calc, show, host),
        (a + b.drop_first())[0] == a[0],
        (a + b.drop_first()).last() == b.last(),
        (a + b.drop_first()).len() == a.len() + b.len() - 1,
{
    let all = a + b.drop_first();
    assert forall|i: int| 0 <= i < all.len() - 1 implies slowly_steps_to(
        #[trigger] all[i],
        all[i + 1],
        names,
        calc,
        show,
        host,
    ) by {
        if i < a.len() - 1 {
            assert(all[i] == a[i]);
            assert(all[i + 1] == a[i + 1]);
        } else {
            let j = i - (a.len() - 1);
            assert(all[i] == b[j]);
            assert(all[i + 1] == b[j + 1]);
        }
    }
}

/// A machine that is about to return a value, with tail calls carried out as
/// calls, returns it through the frames that only pass on: to the innermost
/// activation that waits and has something left to do, or, where there is
/// none, as the result of the run.
proof fn lemma_slowly_returns(
    s: VmModel,
    names: Seq<Seq<char>>,
    globals: Seq<Option<ValueModel>>,
    calc: spec_fn(Arith, u64, u64) -> u64,
    show: spec_fn(u64) -> Seq<char>,
    host: spec_fn(u32, Seq<ValueModel>) -> Result<ValueModel, Seq<char>>,
) -> (run: Seq<Snapshot>)
    requires
        in_order(s),
        passes_on(s.frame),
        window(s).len() > 0,
    ensures
        run.len() > 0,
        run[0] == (Snapshot { vm: s, globals }),
        is_slow_run(run, names, calc, show, host),
        run.last().globals == globals,
        ({
            let w = waiting(s.calls, s.stack, s.frame.ret);
            let t = run.last().vm;
            if w.len() == 0 {
                slowly_ends_with(run.last(), s.stack.last(), names, calc, show, host)
            } else {
                &&& in_order(t)
                &&& running(t) == handed(w, s.stack.last())
                &&& waiting(t.calls, t.stack, t.frame.ret) == w.drop_last()
            }
        }),
    decreases s.calls.len(),
{
    let here = Snapshot { vm: s, globals };
    lemma_return_step(s, names, globals, false, calc, show, host);
    match s.step(names, globals, false, calc, show, host) {
        Outcome::More(y, g) => {
            let next = Snapshot { vm: y, globals };
            assert(slowly_steps_to(here, next, names, calc, show, host)) by {
                assert(here.vm.same_allowed(false));
            }
            let first = seq![here, next];
            assert(is_slow_run(first, names, calc, show, host));
            if passes_on(s.calls.last()) {
                let rest = lemma_slowly_returns(y, names, globals, calc, show, host);
                lemma_join(first, rest, names, calc, show, host);
                first + rest.drop_first()
            } else {
                first
            }
        },
        _ => {
            let only = seq![here];
            assert(slowly_ends_with(here, s.stack.last(), names, calc, show, host)) by {
                assert(here.vm.same_allowed(false));
            }
            only
        },
    }
}

/// Whether every instruction of a run stays within the activation that
/// carries it out.
pub open spec fn run_stays_within(trace: Seq<Snapshot>) -> bool {
    forall|i: int| 0 <= i < trace.len() ==> stays_within((#[trigger] trace[i]).vm)
}

/// From the moment `i` of a run on, the machine that carries out tail calls as
/// calls can follow the run from any state that is alike, and ends with the
/// same value.
proof fn lemma_follow(
    trace: Seq<Snapshot>,
    i: int,
    s: Snapshot,
    v: ValueModel,
    names: Seq<Seq<char>>,
    calc: spec_fn(Arith, u64, u64) -> u64,
    show: spec_fn(u64) -> Seq<char>,
    host: spec_fn(u32, Seq<ValueModel>) -> Result<ValueModel, Seq<char>>,
) -> (run: Seq<Snapshot>)
    requires
        0 <= i < trace.len(),
        is_run(trace, names, calc, show, host),
        run_stays_within(trace),
        ends_with(trace.last(), Ok(v), names, calc, show, host),
        alike(trace[i].vm, s.vm),
        trace[i].globals == s.globals,
    ensures
        run.len() > 0,
        run[0] == s,
        is_slow_run(run, names, calc, show, host),
        slowly_ends_with(run.last(), v, names, calc, show, host),
    decreases trace.len() - i,
{
    let f = trace[i].vm;
    let globals = s.globals;
    assert(stays_within(f));
    if i == trace.len() - 1 {
        let same = choose|same: bool|
            #![trigger trace.last().vm.same_allowed(same)]
            trace.last().vm.same_allowed(same) && match trace.last().vm.step(
                names,
                trace.last().globals,
                same,
                calc,
                show,
                host,
            ) {
                Outcome::More(_, _) => false,
                Outcome::Done(r) => Ok::<ValueModel, Seq<char>>(v) == Ok::<ValueModel, Seq<char>>(r),
                Outcome::Fail(msg) => Ok::<ValueModel, Seq<char>>(v) == Err::<
                    ValueModel,
                    Seq<char>,
                >(msg),
            };
        assert(f.step(names, globals, same, calc, show, host) == Outcome::Done(v));
        assert(passes_on(f.frame)) by {
            reveal(VmModel::step);
        }
        lemma_return_step(f, names, globals, same, calc, show, host);
        lemma_about_to_return(f, s.vm);
        assert(waiting(f.calls, f.stack, f.frame.ret).len() == 0);
        lemma_slowly_returns(s.vm, names, globals, calc, show, host)
    } else {
        let next = trace[i + 1];
        assert(steps_to(trace[i], next, names, calc, show, host));
        let same = choose|same: bool|
            #![trigger trace[i].vm.same_allowed(same)]
            trace[i].vm.same_allowed(same) && trace[i].vm.step(
                names,
                trace[i].globals,
                same,
                calc,
                show,
                host,
            ) == Outcome::More(next.vm, next.globals);
        if passes_on(f.frame) {
            lemma_return_step(f, names, globals, same, calc, show, host);
            lemma_about_to_return(f, s.vm);
            if passes_on(f.calls.last()) {
                lemma_follow(trace, i + 1, s, v, names, calc, show, host)
            } else {
                let back = lemma_slowly_returns(s.vm, names, globals, calc, show, host);
                let rest = lemma_follow(trace, i + 1, back.last(), v, names, calc, show, host);
                lemma_join(back, rest, names, calc, show, host);
                back + rest.drop_first()
            }
        } else {
            lemma_alike_step(f, s.vm, names, globals, same, calc, show, host);
            match s.vm.step_with_calls(names, globals, same, calc, show, host) {
                Outcome::More(t, bound) => {
                    let then = Snapshot { vm: t, globals: bound };
                    assert(slowly_steps_to(s, then, names, calc, show, host)) by {
                        assert(s.vm.same_allowed(same));
                    }
                    let rest = lemma_follow(trace, i + 1, then, v, names, calc, show, host);
                    let first = seq![s, then];
                    assert(is_slow_run(first, names, calc, show, host));
                    lemma_join(first, rest, names, calc, show, host);
                    first + rest.drop_first()
                },
                _ => {
                    seq![s]
                },
            }
        }
    }
}

/// Of two machines that are alike, where the one is about to return, the
/// other is about to return the same value.
proof fn lemma_about_to_return(f: VmModel, s: VmModel)
    requires
        alike(f, s),
        passes_on(f.frame),
        window(f).len() > 0,
    ensures
        passes_on(s.frame),
        window(s).len() > 0,
        s.stack.last() == f.stack.last(),
{
    if running(f) == running(s) {
        let w = window(f);
        assert(f.stack.last() == w[w.len() - 1]);
        assert(window(s)[w.len() - 1] == s.stack.last());
    }
}

/// Tail calls give what calls followed by returns give. Take a run of the
/// machine that ends with a value. Where every instruction of the run stays
/// within the activation that carries it out (what it takes off the stack
/// belongs to the activation, a `Return` stands behind every tail call, and
/// no closure with captures is completed), the machine that carries out every
/// tail call as a call, followed by that `Return`, has a run from the same
/// start that ends with the same value. The two runs differ only in how the
/// stack grows.
pub proof fn lemma_tail_calls_are_calls_then_returns(
    trace: Seq<Snapshot>,
    v: ValueModel,
    names: Seq<Seq<char>>,
    calc: spec_fn(Arith, u64, u64) -> u64,
    show: spec_fn(u64) -> Seq<char>,
    host: spec_fn(u32, Seq<ValueModel>) -> Result<ValueModel, Seq<char>>,
) -> (run: Seq<Snapshot>)
    requires
        trace.len() > 0,
        in_order(trace[0].vm),
        is_run(trace, names, calc, show, host),
        run_stays_within(trace),
        ends_with(trace.last(), Ok(v), names, calc, show, host),
    ensures
        run.len() > 0,
        run[0] == trace[0],
        is_slow_run(run, names, calc, show, host),
        slowly_ends_with(run.last(), v, names, calc, show, host),
{
    lemma_follow(trace, 0, trace[0], v, names, calc, show, host)
}

} // verus!
