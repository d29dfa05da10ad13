//! What an `if` gives, from the form to the value: the form is compiled, the
//! chunk is run, and the value of one branch comes out.

use vstd::prelude::*;
use crate::compiler::{
    compile_spec, find_const, in_tail, is_const_model, is_plain, same_const, CompileStep,
    CompilerModel, FormModel,
};
use crate::env::symbols;
use crate::numbers::Arith;
use crate::vm::{ends_with, ran, steps_to, FrameModel, Op, Outcome, Snapshot, VmModel};
use crate::zap::{truthy, ChunkModel, ValueModel};

verus! {

/// The form `(if c t e)`.
pub open spec fn if_form(c: ValueModel, t: ValueModel, e: ValueModel) -> ValueModel {
    ValueModel::List(seq![ValueModel::Symbol(symbols::IF), c, t, e])
}

/// Whether `kept` is what a chunk keeps for the constant `v`: `v` itself, or
/// an atom or a string equal to `v` that the chunk held before. The two can
/// differ in one way only: they are the two zeros.
pub open spec fn kept_for(kept: ValueModel, v: ValueModel) -> bool {
    kept == v || same_const(kept, v)
}

/// The place that the constant `v` gets in a pool.
spec fn place(consts: Seq<ValueModel>, v: ValueModel) -> nat {
    if is_plain(v) {
        match find_const(consts, consts.len(), v) {
            Some(i) => i,
            None => consts.len(),
        }
    } else {
        consts.len()
    }
}

/// The pool once it holds the constant `v`.
spec fn pool(consts: Seq<ValueModel>, v: ValueModel) -> Seq<ValueModel> {
    if place(consts, v) < consts.len() {
        consts
    } else {
        consts.push(v)
    }
}

/// The chunk of `(if c t e)` for three constants.
spec fn if_chunk(c: ValueModel, t: ValueModel, e: ValueModel) -> ChunkModel {
    let first = pool(Seq::empty(), c);
    let second = pool(first, t);
    ChunkModel {
        ops: seq![
            Op::Push(0),
            Op::CondJmp(2),
            Op::Push(place(first, t) as u16),
            Op::Return,
            Op::Push(place(second, e) as u16),
            Op::Return,
        ],
        consts: pool(second, e),
        scope_size: 0,
        arity: 0,
    }
}

/// A constant that is found in a pool is found at a place of the pool, and
/// what lies there is the same constant.
proof fn lemma_found(consts: Seq<ValueModel>, n: nat, v: ValueModel)
    ensures
        find_const(consts, n, v) matches Some(i) ==> i < n && i < consts.len() && same_const(
            consts[i as int],
            v,
        ),
    decreases n,
{
    if n > 0 && n <= consts.len() {
        lemma_found(consts, (n - 1) as nat, v);
    }
}

/// A constant is compiled into the instruction that pushes it from its place
/// in the pool.
proof fn lemma_constant(m: CompilerModel, v: ValueModel)
    requires
        is_const_model(v),
        m.chunk.consts.len() < 8,
    ensures
        m.eval_value(v) == Ok::<CompilerModel, Seq<char>>(
            CompilerModel {
                chunk: ChunkModel {
                    ops: m.chunk.ops.push(Op::Push(place(m.chunk.consts, v) as u16)),
                    consts: pool(m.chunk.consts, v),
                    ..m.chunk
                },
                ..m
            },
        ),
        place(m.chunk.consts, v) < pool(m.chunk.consts, v).len(),
        kept_for(pool(m.chunk.consts, v)[place(m.chunk.consts, v) as int], v),
        m.chunk.consts.len() <= pool(m.chunk.consts, v).len() <= m.chunk.consts.len() + 1,
        forall|i: int|
            0 <= i < m.chunk.consts.len() ==> pool(m.chunk.consts, v)[i] == m.chunk.consts[i],
{
    lemma_found(m.chunk.consts, m.chunk.consts.len(), v);
}

/// The compiler with `forms` left to do, the instructions `ops` so far, and
/// the constants `consts`, at the top level.
spec fn at(forms: Seq<FormModel>, ops: Seq<Op>, consts: Seq<ValueModel>) -> CompilerModel {
    let start = CompilerModel::init(ValueModel::Nil);
    CompilerModel { chunk: ChunkModel { ops, consts, ..start.chunk }, forms, ..start }
}

/// The items of the form `(if c t e)`.
spec fn items(c: ValueModel, t: ValueModel, e: ValueModel) -> Seq<ValueModel> {
    seq![ValueModel::Symbol(symbols::IF), c, t, e]
}

/// An `if` form is taken apart: its condition comes first.
proof fn lemma_form_step(c: ValueModel, t: ValueModel, e: ValueModel)
    ensures
        CompilerModel::init(if_form(c, t, e)).step() == CompileStep::More(
            at(
                seq![FormModel::IfCond(items(c, t, e)), FormModel::Value(c)],
                Seq::empty(),
                Seq::empty(),
            ),
        ),
{
    let l = items(c, t, e);
    let m0 = CompilerModel::init(if_form(c, t, e));
    let none = Seq::<FormModel>::empty();
    let rest0 = CompilerModel { forms: none, ..m0 };
    assert(m0.forms.drop_last() =~= none);
    let m1 = at(seq![FormModel::IfCond(l), FormModel::Value(c)], Seq::empty(), Seq::empty());
    assert(rest0.later(FormModel::IfCond(l)).later(FormModel::Value(l[1])).forms =~= m1.forms);
    assert(rest0.eval_if(l) == Ok::<CompilerModel, Seq<char>>(m1));
    assert(rest0.eval_list(l) == Ok::<CompilerModel, Seq<char>>(m1));
    assert(rest0.eval_value(if_form(c, t, e)) == Ok::<CompilerModel, Seq<char>>(m1));
}

/// A constant that is next in turn is compiled, and the form below it comes
/// next.
proof fn lemma_constant_step(
    below: FormModel,
    v: ValueModel,
    ops: Seq<Op>,
    consts: Seq<ValueModel>,
)
    requires
        is_const_model(v),
        consts.len() < 8,
        !(below is Quoting),
    ensures
        at(seq![below, FormModel::Value(v)], ops, consts).step() == CompileStep::More(
            at(seq![below], ops.push(Op::Push(place(consts, v) as u16)), pool(consts, v)),
        ),
{
    let m = at(seq![below, FormModel::Value(v)], ops, consts);
    assert(m.forms.drop_last() =~= seq![below]);
    let rest = CompilerModel { forms: seq![below], ..m };
    assert(rest.forms.last() == below);
    lemma_constant(rest, v);
}

/// After the condition the then-branch is compiled on its own.
proof fn lemma_then_step(
    l: Seq<ValueModel>,
    ops: Seq<Op>,
    consts: Seq<ValueModel>,
)
    requires
        l.len() == 4,
    ensures
        at(seq![FormModel::IfCond(l)], ops, consts).step() == CompileStep::More(
            at(seq![FormModel::IfThen(l, ops), FormModel::Value(l[2])], Seq::empty(), consts),
        ),
{
    let m = at(seq![FormModel::IfCond(l)], ops, consts);
    let none = Seq::<FormModel>::empty();
    assert(m.forms.drop_last() =~= none);
    let next = at(seq![FormModel::IfThen(l, ops), FormModel::Value(l[2])], Seq::empty(), consts);
    assert(none.push(FormModel::IfThen(l, ops)).push(FormModel::Value(l[2])) =~= next.forms);
}

/// After the then-branch the else-branch is compiled on its own.
proof fn lemma_else_step(
    l: Seq<ValueModel>,
    saved: Seq<Op>,
    ops: Seq<Op>,
    consts: Seq<ValueModel>,
)
    requires
        l.len() == 4,
    ensures
        at(seq![FormModel::IfThen(l, saved)], ops, consts).step() == CompileStep::More(
            at(seq![FormModel::IfElse(saved, ops), FormModel::Value(l[3])], Seq::empty(), consts),
        ),
{
    let m = at(seq![FormModel::IfThen(l, saved)], ops, consts);
    let none = Seq::<FormModel>::empty();
    assert(m.forms.drop_last() =~= none);
    let next = at(
        seq![FormModel::IfElse(saved, ops), FormModel::Value(l[3])],
        Seq::empty(),
        consts,
    );
    assert(none.push(FormModel::IfElse(saved, ops)).push(FormModel::Value(l[3])) =~= next.forms);
}

/// After the else-branch the branches are put together; at the top level
/// the then-branch ends with a return.
proof fn lemma_join_step(
    saved: Seq<Op>,
    then_branch: Seq<Op>,
    ops: Seq<Op>,
    consts: Seq<ValueModel>,
)
    requires
        then_branch.len() < 8,
    ensures
        at(seq![FormModel::IfElse(saved, then_branch)], ops, consts).step() == CompileStep::More(
            at(
                Seq::empty(),
                (saved.push(Op::CondJmp((1 + then_branch.len()) as u16)) + then_branch).push(
                    Op::Return,
                ) + ops,
                consts,
            ),
        ),
{
    let m = at(seq![FormModel::IfElse(saved, then_branch)], ops, consts);
    let none = Seq::<FormModel>::empty();
    assert(m.forms.drop_last() =~= none);
    assert(in_tail(none));
}

/// With nothing left to do the chunk is closed by a return.
proof fn lemma_last_step(ops: Seq<Op>, consts: Seq<ValueModel>)
    ensures
        at(Seq::empty(), ops, consts).step() == CompileStep::Done(
            Ok(ChunkModel { ops: ops.push(Op::Return), consts, scope_size: 0, arity: 0 }),
        ),
{
}

/// The form `(if c t e)` for three constants compiles to the chunk that tests
/// `c` and has one branch for `t` and one for `e`, each ending the run.
proof fn lemma_if_compiles(c: ValueModel, t: ValueModel, e: ValueModel)
    requires
        is_const_model(c),
        is_const_model(t),
        is_const_model(e),
    ensures
        compile_spec(if_form(c, t, e)) == Ok::<ChunkModel, Seq<char>>(if_chunk(c, t, e)),
        ({
            let chunk = if_chunk(c, t, e);
            &&& chunk.consts.len() > 0
            &&& chunk.consts[0] == c
            &&& chunk.ops[2] matches Op::Push(k) && k < chunk.consts.len() && kept_for(
                chunk.consts[k as int],
                t,
            )
            &&& chunk.ops[4] matches Op::Push(k) && k < chunk.consts.len() && kept_for(
                chunk.consts[k as int],
                e,
            )
        }),
{
    let l = items(c, t, e);
    let no_ops = Seq::<Op>::empty();
    let no_consts = Seq::<ValueModel>::empty();
    let first = pool(no_consts, c);
    let second = pool(first, t);
    let third = pool(second, e);
    let saved = no_ops.push(Op::Push(place(no_consts, c) as u16));
    let then_branch = no_ops.push(Op::Push(place(first, t) as u16));
    let else_branch = no_ops.push(Op::Push(place(second, e) as u16));
    let joined = (saved.push(Op::CondJmp((1 + then_branch.len()) as u16)) + then_branch).push(
        Op::Return,
    ) + else_branch;
    let m0 = CompilerModel::init(if_form(c, t, e));
    let m1 = at(seq![FormModel::IfCond(l), FormModel::Value(c)], no_ops, no_consts);
    let m2 = at(seq![FormModel::IfCond(l)], saved, first);
    let m3 = at(seq![FormModel::IfThen(l, saved), FormModel::Value(t)], no_ops, first);
    let m4 = at(seq![FormModel::IfThen(l, saved)], then_branch, second);
    let m5 = at(seq![FormModel::IfElse(saved, then_branch), FormModel::Value(e)], no_ops, second);
    let m6 = at(seq![FormModel::IfElse(saved, then_branch)], else_branch, third);
    let m7 = at(Seq::empty(), joined, third);
    lemma_form_step(c, t, e);
    lemma_constant_step(FormModel::IfCond(l), c, no_ops, no_consts);
    lemma_constant(at(seq![FormModel::IfCond(l)], no_ops, no_consts), c);
    lemma_then_step(l, saved, first);
    lemma_constant_step(FormModel::IfThen(l, saved), t, no_ops, first);
    lemma_constant(at(seq![FormModel::IfThen(l, saved)], no_ops, first), t);
    lemma_else_step(l, saved, then_branch, second);
    lemma_constant_step(FormModel::IfElse(saved, then_branch), e, no_ops, second);
    lemma_constant(at(seq![FormModel::IfElse(saved, then_branch)], no_ops, second), e);
    lemma_join_step(saved, then_branch, else_branch, third);
    lemma_last_step(joined, third);
    assert(first =~= seq![c]);
    assert(joined.push(Op::Return) =~= if_chunk(c, t, e).ops);
    assert(m7.run() == Ok::<ChunkModel, Seq<char>>(if_chunk(c, t, e)));
    assert(m6.run() == m7.run());
    assert(m5.run() == m6.run());
    assert(m4.run() == m5.run());
    assert(m3.run() == m4.run());
    assert(m2.run() == m3.run());
    assert(m1.run() == m2.run());
    assert(m0.run() == m1.run());
}

/// The machine in the outermost activation of `chunk`, before the
/// instruction at `pc`, with `stack` and the global bindings `globals`.
spec fn moment(
    chunk: ChunkModel,
    pc: nat,
    stack: Seq<ValueModel>,
    globals: Seq<Option<ValueModel>>,
) -> Snapshot {
    Snapshot {
        vm: VmModel { frame: FrameModel { chunk, pc, ret: 0 }, stack, calls: Seq::empty() },
        globals,
    }
}

/// What `Push` does.
proof fn lemma_push_step(
    chunk: ChunkModel,
    pc: nat,
    k: u16,
    stack: Seq<ValueModel>,
    names: Seq<Seq<char>>,
    globals: Seq<Option<ValueModel>>,
    same: bool,
    calc: spec_fn(Arith, u64, u64) -> u64,
    show: spec_fn(u64) -> Seq<char>,
    host: spec_fn(u32, Seq<ValueModel>) -> Result<ValueModel, Seq<char>>,
)
    requires
        pc < chunk.ops.len(),
        chunk.ops[pc as int] == Op::Push(k),
        k < chunk.consts.len(),
    ensures
        moment(chunk, pc, stack, globals).vm.step(names, globals, same, calc, show, host)
            == Outcome::More(
            moment(chunk, pc + 1, stack.push(chunk.consts[k as int]), globals).vm,
            globals,
        ),
{
    reveal(VmModel::step);
}

/// What `CondJmp` does.
proof fn lemma_test_step(
    chunk: ChunkModel,
    pc: nat,
    n: u16,
    stack: Seq<ValueModel>,
    names: Seq<Seq<char>>,
    globals: Seq<Option<ValueModel>>,
    same: bool,
    calc: spec_fn(Arith, u64, u64) -> u64,
    show: spec_fn(u64) -> Seq<char>,
    host: spec_fn(u32, Seq<ValueModel>) -> Result<ValueModel, Seq<char>>,
)
    requires
        pc < chunk.ops.len(),
        chunk.ops[pc as int] == Op::CondJmp(n),
        pc + 1 + n <= chunk.ops.len(),
        stack.len() > 0,
    ensures
        moment(chunk, pc, stack, globals).vm.step(names, globals, same, calc, show, host)
            == Outcome::More(
            moment(
                chunk,
                if truthy(stack.last()) {
                    pc + 1
                } else {
                    (pc + 1 + n) as nat
                },
                stack.drop_last(),
                globals,
            ).vm,
            globals,
        ),
{
    reveal(VmModel::step);
}

/// What `Return` does in the outermost activation.
proof fn lemma_end_step(
    chunk: ChunkModel,
    pc: nat,
    stack: Seq<ValueModel>,
    names: Seq<Seq<char>>,
    globals: Seq<Option<ValueModel>>,
    same: bool,
    calc: spec_fn(Arith, u64, u64) -> u64,
    show: spec_fn(u64) -> Seq<char>,
    host: spec_fn(u32, Seq<ValueModel>) -> Result<ValueModel, Seq<char>>,
)
    requires
        pc < chunk.ops.len(),
        chunk.ops[pc as int] == Op::Return,
        stack.len() > 0,
    ensures
        moment(chunk, pc, stack, globals).vm.step(names, globals, same, calc, show, host)
            == Outcome::Done(stack.last()),
{
    reveal(VmModel::step);
}

/// A run does not end at a moment after which the machine goes on, and the
/// next moment is the one that the machine goes on to.
proof fn lemma_goes_on(
    trace: Seq<Snapshot>,
    i: int,
    next: Snapshot,
    chunk: ChunkModel,
    globals: Seq<Option<ValueModel>>,
    result: Result<ValueModel, Seq<char>>,
    after: Seq<Option<ValueModel>>,
    names: Seq<Seq<char>>,
    calc: spec_fn(Arith, u64, u64) -> u64,
    show: spec_fn(u64) -> Seq<char>,
    host: spec_fn(u32, Seq<ValueModel>) -> Result<ValueModel, Seq<char>>,
)
    requires
        ran(trace, chunk, globals, result, after, names, calc, show, host),
        0 <= i < trace.len(),
        i < 8,
        forall|same: bool|
            trace[i].vm.step(names, trace[i].globals, same, calc, show, host) == Outcome::More(
                next.vm,
                next.globals,
            ),
    ensures
        i + 1 < trace.len(),
        trace[i + 1] == next,
{
    if i == trace.len() - 1 {
        assert(ends_with(trace[i], result, names, calc, show, host));
        assert(false);
    } else {
        assert(steps_to(trace[i], trace[i + 1], names, calc, show, host));
    }
}

/// A run ends at a moment at which the machine stops, with the value that
/// the machine stops with.
proof fn lemma_stops(
    trace: Seq<Snapshot>,
    i: int,
    v: ValueModel,
    chunk: ChunkModel,
    globals: Seq<Option<ValueModel>>,
    result: Result<ValueModel, Seq<char>>,
    after: Seq<Option<ValueModel>>,
    names: Seq<Seq<char>>,
    calc: spec_fn(Arith, u64, u64) -> u64,
    show: spec_fn(u64) -> Seq<char>,
    host: spec_fn(u32, Seq<ValueModel>) -> Result<ValueModel, Seq<char>>,
)
    requires
        ran(trace, chunk, globals, result, after, names, calc, show, host),
        0 <= i < trace.len(),
        i < 8,
        forall|same: bool|
            trace[i].vm.step(names, trace[i].globals, same, calc, show, host) == Outcome::Done(v),
    ensures
        trace.len() == i + 1,
        result == Ok::<ValueModel, Seq<char>>(v),
        after == trace[i].globals,
{
    if i < trace.len() - 1 {
        assert(steps_to(trace[i], trace[i + 1], names, calc, show, host));
        assert(false);
    } else {
        assert(ends_with(trace[i], result, names, calc, show, host));
    }
}

/// An `if` form whose condition and branches are constants compiles.
pub proof fn lemma_if_of_constants_compiles(c: ValueModel, t: ValueModel, e: ValueModel)
    requires
        is_const_model(c),
        is_const_model(t),
        is_const_model(e),
    ensures
        compile_spec(if_form(c, t, e)) is Ok,
{
    lemma_if_compiles(c, t, e);
}

/// An `if` gives its then-branch exactly if its condition is neither `Nil`
/// nor `false`, and its else-branch otherwise. For a condition and branches
/// that are constants: every run of the chunk that `(if c t e)` compiles to
/// ends with the constant that the chunk keeps for `t` where `c` counts as
/// true, with the one that it keeps for `e` where it does not, and leaves the
/// global bindings as they were.
pub proof fn lemma_if_gives_one_branch(
    c: ValueModel,
    t: ValueModel,
    e: ValueModel,
    trace: Seq<Snapshot>,
    globals: Seq<Option<ValueModel>>,
    result: Result<ValueModel, Seq<char>>,
    after: Seq<Option<ValueModel>>,
    names: Seq<Seq<char>>,
    calc: spec_fn(Arith, u64, u64) -> u64,
    show: spec_fn(u64) -> Seq<char>,
    host: spec_fn(u32, Seq<ValueModel>) -> Result<ValueModel, Seq<char>>,
)
    requires
        is_const_model(c),
        is_const_model(t),
        is_const_model(e),
        compile_spec(if_form(c, t, e)) matches Ok(chunk) && ran(
            trace,
            chunk,
            globals,
            result,
            after,
            names,
            calc,
            show,
            host,
        ),
    ensures
        after == globals,
        result matches Ok(v) && kept_for(
            v,
            if truthy(c) {
                t
            } else {
                e
            },
        ),
{
    lemma_if_compiles(c, t, e);
    let chunk = if_chunk(c, t, e);
    let none = Seq::<ValueModel>::empty();
    assert(VmModel::start(chunk).stack =~= none);
    assert(trace[0] == moment(chunk, 0, none, globals));
    let tested = none.push(c);
    assert forall|same: bool|
        trace[0].vm.step(names, trace[0].globals, same, calc, show, host) == Outcome::More(
            moment(chunk, 1, tested, globals).vm,
            globals,
        ) by {
        lemma_push_step(chunk, 0, 0, none, names, globals, same, calc, show, host);
    }
    lemma_goes_on(
        trace,
        0,
        moment(chunk, 1, tested, globals),
        chunk,
        globals,
        result,
        after,
        names,
        calc,
        show,
        host,
    );
    let at: nat = if truthy(c) {
        2
    } else {
        4
    };
    assert(tested.last() == c);
    assert(tested.drop_last() =~= none);
    assert forall|same: bool|
        trace[1].vm.step(names, trace[1].globals, same, calc, show, host) == Outcome::More(
            moment(chunk, at, none, globals).vm,
            globals,
        ) by {
        lemma_test_step(chunk, 1, 2, tested, names, globals, same, calc, show, host);
    }
    lemma_goes_on(
        trace,
        1,
        moment(chunk, at, none, globals),
        chunk,
        globals,
        result,
        after,
        names,
        calc,
        show,
        host,
    );
    let k = chunk.ops[at as int]->Push_0;
    let given = none.push(chunk.consts[k as int]);
    assert forall|same: bool|
        trace[2].vm.step(names, trace[2].globals, same, calc, show, host) == Outcome::More(
            moment(chunk, at + 1, given, globals).vm,
            globals,
        ) by {
        lemma_push_step(chunk, at, k, none, names, globals, same, calc, show, host);
    }
    lemma_goes_on(
        trace,
        2,
        moment(chunk, at + 1, given, globals),
        chunk,
        globals,
        result,
        after,
        names,
        calc,
        show,
        host,
    );
    assert(given.last() == chunk.consts[k as int]);
    assert forall|same: bool|
        trace[3].vm.step(names, trace[3].globals, same, calc, show, host) == Outcome::Done(
            chunk.consts[k as int],
        ) by {
        lemma_end_step(chunk, at + 1, given, names, globals, same, calc, show, host);
    }
    lemma_stops(
        trace,
        3,
        chunk.consts[k as int],
        chunk,
        globals,
        result,
        after,
        names,
        calc,
        show,
        host,
    );
}

} // verus!
