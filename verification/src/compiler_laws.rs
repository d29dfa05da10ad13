//! What holds of every chunk that the compiler makes.

use vstd::prelude::*;
use crate::compiler::{
    join_native, list_native, binding_forms, bindings_ok, compile_spec, find_const, find_outer, is_const_model,
    last_declared, lemma_step_works, param_symbols, same_const, CompileStep, CompilerModel,
    FormModel, Outer, ScopeModel, MAX_SLOTS,
};
use crate::env::symbols;
use crate::vm::Op;
use crate::zap::{eq_by_data, nils, ChunkModel, Symbol, ValueModel};

verus! {

/// Whether every function that a value holds is in order. Plain data, which
/// is what the reader makes, holds no function at all.
pub open spec fn sound(v: ValueModel) -> bool
    decreases v, 0nat,
{
    match v {
        ValueModel::List(items) => all_sound(items, items.len()),
        ValueModel::Func(_, _) => func_ok(v),
        ValueModel::Closure(_, _) => func_ok(v),
        _ => true,
    }
}

/// Whether every function that the first `n` items hold is in order.
pub open spec fn all_sound(items: Seq<ValueModel>, n: nat) -> bool
    decreases items, n,
{
    if n == 0 || n > items.len() {
        true
    } else {
        all_sound(items, (n - 1) as nat) && sound(items[n - 1])
    }
}

/// Whether a value is plain data: an atom, a string, or a list of plain data.
pub open spec fn data_only(v: ValueModel) -> bool
    decreases v, 0nat,
{
    match v {
        ValueModel::List(items) => all_data(items, items.len()),
        ValueModel::FuncNative(_, _) => false,
        ValueModel::Func(_, _) => false,
        ValueModel::Closure(_, _) => false,
        _ => true,
    }
}

/// Whether the first `n` items are plain data.
pub open spec fn all_data(items: Seq<ValueModel>, n: nat) -> bool
    decreases items, n,
{
    if n == 0 || n > items.len() {
        true
    } else {
        all_data(items, (n - 1) as nat) && data_only(items[n - 1])
    }
}

/// Plain data holds no function that could be out of order.
pub proof fn lemma_data_is_sound(v: ValueModel)
    requires
        data_only(v),
    ensures
        sound(v),
    decreases v, 0nat,
{
    match v {
        ValueModel::List(items) => {
            lemma_all_data_is_sound(items, items.len());
        },
        _ => {},
    }
}

proof fn lemma_all_data_is_sound(items: Seq<ValueModel>, n: nat)
    requires
        all_data(items, n),
    ensures
        all_sound(items, n),
    decreases items, n,
{
    if n > 0 && n <= items.len() {
        lemma_all_data_is_sound(items, (n - 1) as nat);
        lemma_data_is_sound(items[n - 1]);
    }
}

/// Whether an instruction at the place `p` of `len` instructions is in order:
/// a constant that it names is in the pool, a local slot that it names is in
/// the scope, and a jump that it makes stays within the instructions or leads
/// just behind them.
pub open spec fn op_ok(op: Op, p: int, len: nat, consts: nat, slots: nat) -> bool {
    match op {
        Op::Push(k) => k < consts,
        Op::AddConst(k) => k < consts,
        Op::EqConst(k) => k < consts,
        Op::Load(i) => i < slots,
        Op::Store(i) => i < slots,
        Op::Jmp(n) => p + 1 + n <= len,
        Op::CondJmp(n) => p + 1 + n <= len,
        _ => true,
    }
}

/// Whether every instruction of a run of instructions is in order.
pub open spec fn ops_ok(ops: Seq<Op>, consts: nat, slots: nat) -> bool {
    forall|p: int| 0 <= p < ops.len() ==> op_ok(#[trigger] ops[p], p, ops.len(), consts, slots)
}

/// Whether no atom and no string occurs twice among the constants.
pub open spec fn no_repeats(consts: Seq<ValueModel>) -> bool {
    forall|i: int, j: int|
        0 <= i < j < consts.len() ==> !same_const(#[trigger] consts[i], #[trigger] consts[j])
}

/// Whether every capture of a closure goes into a slot of its function.
pub open spec fn outers_ok(outers: Seq<Outer>, slots: nat) -> bool {
    forall|i: int| 0 <= i < outers.len() ==> (#[trigger] outers[i]).dest < slots
}

/// Whether a chunk is in order by itself:
///
/// * no atom and no string occurs twice in the constant pool;
/// * every constant that an instruction names is in the pool;
/// * every local slot that an instruction loads or stores is below the
///   chunk's `scope_size`;
/// * every jump leads to an instruction of the chunk;
/// * the last instruction is `Return`.
pub open spec fn chunk_itself_ok(c: ChunkModel) -> bool {
    &&& no_repeats(c.consts)
    &&& forall|p: int|
        0 <= p < c.ops.len() ==> op_ok(
            #[trigger] c.ops[p],
            p,
            (c.ops.len() - 1) as nat,
            c.consts.len(),
            c.scope_size,
        )
    &&& c.ops.len() > 0
    &&& c.ops.last() == Op::Return
}

/// Whether a chunk is in order, and with it every function among its
/// constants, to any depth: each chunk is in order by itself, a function among
/// the constants brings as many slots as its chunk reserves, and the captures
/// of a closure go into slots of its chunk.
pub open spec fn chunk_ok(c: ChunkModel) -> bool
    decreases c, 0nat,
{
    chunk_itself_ok(c) && funcs_ok(c.consts, c.consts.len())
}

/// Whether every function among the first `n` constants is in order.
pub open spec fn funcs_ok(consts: Seq<ValueModel>, n: nat) -> bool
    decreases consts, n,
{
    if n == 0 || n > consts.len() {
        true
    } else {
        funcs_ok(consts, (n - 1) as nat) && func_ok(consts[n - 1])
    }
}

/// Whether a constant, if it is a function, is in order.
pub open spec fn func_ok(v: ValueModel) -> bool
    decreases v, 1nat,
{
    match v {
        ValueModel::Func(locals, chunk) => locals.len() == chunk.scope_size && chunk_ok(chunk),
        ValueModel::Closure(outers, chunk) => outers_ok(outers, chunk.scope_size) && chunk_ok(
            chunk,
        ),
        _ => true,
    }
}

/// With `deep`, whether every function that a value holds is in order.
pub open spec fn sound_if(deep: bool, v: ValueModel) -> bool {
    deep ==> sound(v)
}

/// With `deep`, whether every function that the first `n` items hold is in
/// order.
pub open spec fn all_sound_if(deep: bool, items: Seq<ValueModel>, n: nat) -> bool {
    deep ==> all_sound(items, n)
}

/// With `deep`, whether a constant, if it is a function, is in order.
pub open spec fn func_ok_if(deep: bool, v: ValueModel) -> bool {
    deep ==> func_ok(v)
}

/// With `deep`, whether every function among the first `n` constants is in
/// order.
pub open spec fn funcs_ok_if(deep: bool, consts: Seq<ValueModel>, n: nat) -> bool {
    deep ==> funcs_ok(consts, n)
}

/// Whether a chunk is in order by itself and, with `deep`, every function
/// among its constants too.
pub open spec fn chunk_ok_if(deep: bool, c: ChunkModel) -> bool {
    chunk_itself_ok(c) && (deep ==> funcs_ok(c.consts, c.consts.len()))
}

/// Whether a scope is in order: it has no more slots than a local index can
/// tell apart, and its captures go into slots of its own.
pub open spec fn scope_ok(s: ScopeModel) -> bool {
    s.size() <= MAX_SLOTS && outers_ok(s.outers, s.size())
}

/// Whether a chunk that is being built is in order, with the scope that
/// belongs to it.
pub open spec fn level_ok(deep: bool, chunk: ChunkModel, scope: ScopeModel) -> bool {
    &&& ops_ok(chunk.ops, chunk.consts.len(), scope.size())
    &&& no_repeats(chunk.consts)
    &&& funcs_ok_if(deep, chunk.consts, chunk.consts.len())
    &&& scope_ok(scope)
}

/// Whether a form other than `Return` is in order: the values that it holds
/// are plain data, and the instructions and constants that it holds fit the
/// chunk that is being built.
pub open spec fn form_ok(deep: bool, f: FormModel, consts: nat, slots: nat) -> bool {
    match f {
        FormModel::Value(v) => sound_if(deep, v),
        FormModel::List(l, _) => all_sound_if(deep, l, l.len()),
        FormModel::IfCond(l) => all_sound_if(deep, l, l.len()),
        FormModel::Do(l, _) => all_sound_if(deep, l, l.len()),
        FormModel::AddMany(l, _) => all_sound_if(deep, l, l.len()),
        FormModel::Quasi(l, _) => all_sound_if(deep, l, l.len()),
        FormModel::IfThen(l, saved) => all_sound_if(deep, l, l.len()) && ops_ok(saved, consts, slots),
        FormModel::IfElse(saved, then_branch) => ops_ok(saved, consts, slots) && ops_ok(
            then_branch,
            consts,
            slots,
        ),
        FormModel::EqualConst(k) => k < consts,
        _ => true,
    }
}

/// Whether the first `n` forms are in order. The forms above a `Return`
/// belong to the chunk of a function and to the innermost scope; the `Return`
/// holds the chunk around the function, to which the forms below it and the
/// next scope belong.
pub open spec fn forms_ok(deep: bool, forms: Seq<FormModel>, n: nat, consts: nat, scopes: Seq<ScopeModel>) -> bool
    decreases n,
{
    if n == 0 {
        scopes.len() == 1
    } else if n > forms.len() || scopes.len() == 0 {
        false
    } else {
        match forms[n - 1] {
            FormModel::Return(parent) => {
                &&& scopes.len() >= 2
                &&& level_ok(deep, parent, scopes[scopes.len() - 2])
                &&& forms_ok(deep, forms, (n - 1) as nat, parent.consts.len(), scopes.drop_last())
            },
            f => form_ok(deep, f, consts, scopes.last().size()) && forms_ok(deep, 
                forms,
                (n - 1) as nat,
                consts,
                scopes,
            ),
        }
    }
}

/// Whether the compiler is in order.
pub open spec fn inv(deep: bool, m: CompilerModel) -> bool {
    &&& m.scopes.len() >= 1
    &&& level_ok(deep, m.chunk, m.scopes.last())
    &&& forms_ok(deep, m.forms, m.forms.len(), m.chunk.consts.len(), m.scopes)
}

proof fn lemma_forms_agree(deep: bool, 
    a: Seq<FormModel>,
    b: Seq<FormModel>,
    n: nat,
    consts: nat,
    scopes: Seq<ScopeModel>,
)
    requires
        n <= a.len(),
        n <= b.len(),
        forall|i: int| 0 <= i < n ==> a[i] == b[i],
    ensures
        forms_ok(deep, a, n, consts, scopes) == forms_ok(deep, b, n, consts, scopes),
    decreases n,
{
    if n > 0 && scopes.len() > 0 {
        match a[n - 1] {
            FormModel::Return(parent) => {
                lemma_forms_agree(deep, a, b, (n - 1) as nat, parent.consts.len(), scopes.drop_last());
            },
            _ => {
                lemma_forms_agree(deep, a, b, (n - 1) as nat, consts, scopes);
            },
        }
    }
}

proof fn lemma_ops_mono(ops: Seq<Op>, c1: nat, c2: nat, s1: nat, s2: nat)
    requires
        ops_ok(ops, c1, s1),
        c1 <= c2,
        s1 <= s2,
    ensures
        ops_ok(ops, c2, s2),
{
    assert forall|p: int| 0 <= p < ops.len() implies op_ok(
        #[trigger] ops[p],
        p,
        ops.len(),
        c2,
        s2,
    ) by {
        assert(op_ok(ops[p], p, ops.len(), c1, s1));
    }
}

proof fn lemma_ops_push(ops: Seq<Op>, op: Op, consts: nat, slots: nat)
    requires
        ops_ok(ops, consts, slots),
        op_ok(op, ops.len() as int, ops.len() + 1, consts, slots),
    ensures
        ops_ok(ops.push(op), consts, slots),
{
    let longer = ops.push(op);
    assert forall|p: int| 0 <= p < longer.len() implies op_ok(
        #[trigger] longer[p],
        p,
        longer.len(),
        consts,
        slots,
    ) by {
        if p < ops.len() {
            assert(op_ok(ops[p], p, ops.len(), consts, slots));
        }
    }
}

proof fn lemma_ops_concat(a: Seq<Op>, b: Seq<Op>, consts: nat, slots: nat)
    requires
        ops_ok(a, consts, slots),
        ops_ok(b, consts, slots),
    ensures
        ops_ok(a + b, consts, slots),
{
    let all = a + b;
    assert forall|p: int| 0 <= p < all.len() implies op_ok(
        #[trigger] all[p],
        p,
        all.len(),
        consts,
        slots,
    ) by {
        if p < a.len() {
            assert(op_ok(a[p], p, a.len(), consts, slots));
        } else {
            assert(all[p] == b[p - a.len()]);
            assert(op_ok(b[p - a.len()], p - a.len(), b.len(), consts, slots));
        }
    }
}

/// Forms that are in order stay in order when the pool or the innermost scope
/// grows.
proof fn lemma_forms_mono(deep: bool, 
    forms: Seq<FormModel>,
    n: nat,
    c1: nat,
    c2: nat,
    scopes: Seq<ScopeModel>,
    grown: ScopeModel,
)
    requires
        forms_ok(deep, forms, n, c1, scopes),
        c1 <= c2,
        scopes.len() >= 1,
        scopes.last().size() <= grown.size(),
    ensures
        forms_ok(deep, forms, n, c2, scopes.drop_last().push(grown)),
    decreases n,
{
    let after = scopes.drop_last().push(grown);
    if n > 0 {
        match forms[n - 1] {
            FormModel::Return(parent) => {
                assert(after[after.len() - 2] == scopes[scopes.len() - 2]);
                assert(after.drop_last() =~= scopes.drop_last());
            },
            f => {
                lemma_forms_mono(deep, forms, (n - 1) as nat, c1, c2, scopes, grown);
                match f {
                    FormModel::IfThen(l, saved) => {
                        lemma_ops_mono(saved, c1, c2, scopes.last().size(), grown.size());
                    },
                    FormModel::IfElse(saved, then_branch) => {
                        lemma_ops_mono(saved, c1, c2, scopes.last().size(), grown.size());
                        lemma_ops_mono(then_branch, c1, c2, scopes.last().size(), grown.size());
                    },
                    _ => {},
                }
            },
        }
    }
}

/// With one more instruction that is in order, the compiler stays in order.
proof fn lemma_emit(deep: bool, m: CompilerModel, op: Op)
    requires
        inv(deep, m),
        op_ok(
            op,
            m.chunk.ops.len() as int,
            m.chunk.ops.len() + 1,
            m.chunk.consts.len(),
            m.scopes.last().size(),
        ),
    ensures
        inv(deep, m.emit(op)),
{
    lemma_ops_push(m.chunk.ops, op, m.chunk.consts.len(), m.scopes.last().size());
}

/// With one more form that is in order, the compiler stays in order.
proof fn lemma_later(deep: bool, m: CompilerModel, f: FormModel)
    requires
        inv(deep, m),
        !(f is Return),
        form_ok(deep, f, m.chunk.consts.len(), m.scopes.last().size()),
    ensures
        inv(deep, m.later(f)),
{
    lemma_forms_agree(deep, m.forms.push(f), m.forms, m.forms.len(), m.chunk.consts.len(), m.scopes);
}

/// Without its topmost form, where that is not a `Return`, the compiler
/// stays in order.
proof fn lemma_rest(deep: bool, m: CompilerModel)
    requires
        inv(deep, m),
        m.forms.len() > 0,
        !(m.forms.last() is Return),
    ensures
        inv(deep, CompilerModel { forms: m.forms.drop_last(), ..m }),
        form_ok(deep, m.forms.last(), m.chunk.consts.len(), m.scopes.last().size()),
{
    lemma_forms_agree(deep, 
        m.forms.drop_last(),
        m.forms,
        (m.forms.len() - 1) as nat,
        m.chunk.consts.len(),
        m.scopes,
    );
}

proof fn lemma_find_const(consts: Seq<ValueModel>, n: nat, v: ValueModel)
    requires
        n <= consts.len(),
    ensures
        find_const(consts, n, v) matches Some(i) ==> i < n,
        find_const(consts, n, v) is None ==> forall|i: int|
            0 <= i < n ==> !same_const(#[trigger] consts[i], v),
    decreases n,
{
    if n > 0 {
        lemma_find_const(consts, (n - 1) as nat, v);
    }
}

proof fn lemma_funcs_push(deep: bool, consts: Seq<ValueModel>, v: ValueModel)
    requires
        funcs_ok_if(deep, consts, consts.len()),
        func_ok_if(deep, v),
    ensures
        funcs_ok_if(deep, consts.push(v), consts.len() + 1),
{
    lemma_funcs_agree(deep, consts, consts.push(v), consts.len());
}

proof fn lemma_funcs_agree(deep: bool, a: Seq<ValueModel>, b: Seq<ValueModel>, n: nat)
    requires
        n <= a.len(),
        n <= b.len(),
        forall|i: int| 0 <= i < n ==> a[i] == b[i],
    ensures
        funcs_ok_if(deep, a, n) == funcs_ok_if(deep, b, n),
    decreases n,
{
    if n > 0 {
        lemma_funcs_agree(deep, a, b, (n - 1) as nat);
    }
}

/// Taking a constant into the pool keeps the compiler in order.
proof fn lemma_const(deep: bool, m: CompilerModel, v: ValueModel)
    requires
        inv(deep, m),
        func_ok_if(deep, v),
    ensures
        m.get_const_idx(v) matches Ok((after, k)) ==> {
            &&& inv(deep, after)
            &&& k < after.chunk.consts.len()
            &&& after.forms == m.forms
            &&& after.scopes == m.scopes
            &&& after.chunk.ops == m.chunk.ops
            &&& after.argc == m.argc
            &&& m.chunk.consts.len() <= after.chunk.consts.len()
        },
{
    let consts = m.chunk.consts;
    lemma_find_const(consts, consts.len(), v);
    match m.get_const_idx(v) {
        Ok((after, k)) => {
            if after.chunk.consts.len() > consts.len() {
                let longer = consts.push(v);
                lemma_funcs_push(deep, consts, v);
                assert(no_repeats(longer)) by {
                    assert forall|i: int, j: int| 0 <= i < j < longer.len() implies !same_const(
                        #[trigger] longer[i],
                        #[trigger] longer[j],
                    ) by {
                        if j < consts.len() {
                            assert(!same_const(consts[i], consts[j]));
                        } else {
                            assert(!same_const(consts[i], v));
                        }
                    }
                }
                lemma_ops_mono(
                    m.chunk.ops,
                    consts.len(),
                    longer.len(),
                    m.scopes.last().size(),
                    m.scopes.last().size(),
                );
                lemma_forms_mono(deep, 
                    m.forms,
                    m.forms.len(),
                    consts.len(),
                    longer.len(),
                    m.scopes,
                    m.scopes.last(),
                );
                assert(m.scopes.drop_last().push(m.scopes.last()) =~= m.scopes);
            }
        },
        Err(_) => {},
    }
}

/// Emitting the push of a constant keeps the compiler in order.
proof fn lemma_push(deep: bool, m: CompilerModel, v: ValueModel)
    requires
        inv(deep, m),
        func_ok_if(deep, v),
    ensures
        m.push(v) matches Ok(after) ==> {
            &&& inv(deep, after)
            &&& after.forms == m.forms
            &&& after.scopes == m.scopes
            &&& after.argc == m.argc
        },
{
    lemma_const(deep, m, v);
    match m.get_const_idx(v) {
        Ok((after, k)) => {
            lemma_emit(deep, after, Op::Push(k));
        },
        Err(_) => {},
    }
}

proof fn lemma_data_item(deep: bool, l: Seq<ValueModel>, n: nat, i: int)
    requires
        all_sound_if(deep, l, n),
        0 <= i < n <= l.len(),
    ensures
        sound_if(deep, l[i]),
    decreases n,
{
    if i < n - 1 {
        lemma_data_item(deep, l, (n - 1) as nat, i);
    }
}

proof fn lemma_data_list(deep: bool, v: ValueModel)
    requires
        sound_if(deep, v),
    ensures
        func_ok_if(deep, v),
        v matches ValueModel::List(l) ==> all_sound_if(deep, l, l.len()),
{
}

proof fn lemma_last_declared(symbols: Seq<Symbol>, s: Symbol)
    ensures
        last_declared(symbols, s) matches Some(i) ==> i < symbols.len(),
    decreases symbols.len(),
{
    if symbols.len() > 0 && symbols.last() != s {
        lemma_last_declared(symbols.drop_last(), s);
    }
}

/// Declaring a local keeps the compiler in order.
proof fn lemma_register(deep: bool, m: CompilerModel, s: Symbol)
    requires
        inv(deep, m),
    ensures
        m.register_local(s) matches Ok((after, slot)) ==> {
            &&& inv(deep, after)
            &&& slot < after.scopes.last().size()
            &&& after.forms == m.forms
            &&& after.chunk == m.chunk
            &&& after.argc == m.argc
        },
{
    match m.register_local(s) {
        Ok((after, slot)) => {
            let scope = m.scopes.last();
            let grown = ScopeModel { symbols: scope.symbols.push(s), ..scope };
            assert(after.scopes.last() == grown);
            lemma_ops_mono(
                m.chunk.ops,
                m.chunk.consts.len(),
                m.chunk.consts.len(),
                scope.size(),
                grown.size(),
            );
            lemma_forms_mono(deep, 
                m.forms,
                m.forms.len(),
                m.chunk.consts.len(),
                m.chunk.consts.len(),
                m.scopes,
                grown,
            );
            assert forall|i: int| 0 <= i < grown.outers.len() implies (#[trigger] grown.outers[i]).dest
                < grown.size() by {
                assert(scope.outers[i].dest < scope.size());
            }
        },
        Err(_) => {},
    }
}

/// Noting a capture that goes into a slot of the scope keeps the compiler in
/// order.
proof fn lemma_capture(deep: bool, m: CompilerModel, o: Outer)
    requires
        inv(deep, m),
        o.dest < m.scopes.last().size(),
    ensures
        inv(deep, m.capture(o)),
        m.capture(o).forms == m.forms,
        m.capture(o).chunk == m.chunk,
        m.capture(o).scopes.len() == m.scopes.len(),
        m.capture(o).scopes.last().size() == m.scopes.last().size(),
{
    let scope = m.scopes.last();
    let noted = ScopeModel { outers: scope.outers.push(o), ..scope };
    assert(m.capture(o).scopes.last() == noted);
    lemma_forms_mono(deep, 
        m.forms,
        m.forms.len(),
        m.chunk.consts.len(),
        m.chunk.consts.len(),
        m.scopes,
        noted,
    );
    assert forall|i: int| 0 <= i < noted.outers.len() implies (#[trigger] noted.outers[i]).dest
        < noted.size() by {
        if i < scope.outers.len() {
            assert(scope.outers[i].dest < scope.size());
        }
    }
}

proof fn lemma_eval_symbol(deep: bool, m: CompilerModel, s: Symbol)
    requires
        inv(deep, m),
    ensures
        m.eval_symbol(s) matches Ok(after) ==> inv(deep, after),
{
    match m.get_local(s) {
        Some(slot) => {
            lemma_last_declared(m.scopes.last().symbols, s);
            lemma_emit(deep, m, Op::Load(slot as u8));
        },
        None => {
            match find_outer(m.scopes, m.scopes.len() - 1, s) {
                Some((level, position)) => {
                    lemma_register(deep, m, s);
                    match m.register_local(s) {
                        Ok((c, dest)) => {
                            let o = Outer {
                                level: level as usize,
                                position: position as usize,
                                dest,
                            };
                            lemma_capture(deep, c, o);
                            lemma_emit(deep, c.capture(o), Op::Load(dest));
                        },
                        Err(_) => {},
                    }
                },
                None => {
                    lemma_emit(deep, m, Op::LookUp(s));
                },
            }
        },
    }
}

/// With the forms of bindings on top, the forms stay in order.
proof fn lemma_binding_forms(deep: bool, 
    forms: Seq<FormModel>,
    b: Seq<ValueModel>,
    n: nat,
    consts: nat,
    scopes: Seq<ScopeModel>,
)
    requires
        forms_ok(deep, forms, forms.len(), consts, scopes),
        all_sound_if(deep, b, b.len()),
        2 * n <= b.len(),
        b.len() % 2 == 0,
        scopes.len() >= 1,
    ensures
        forms_ok(deep, 
            forms + binding_forms(b, n),
            (forms + binding_forms(b, n)).len(),
            consts,
            scopes,
        ),
    decreases n,
{
    if n == 0 {
        assert(forms + binding_forms(b, n) =~= forms);
    } else {
        let k = b.len() / 2 - n;
        lemma_binding_forms(deep, forms, b, (n - 1) as nat, consts, scopes);
        let inner = forms + binding_forms(b, (n - 1) as nat);
        let binding = FormModel::Binding(b[2 * k]->Symbol_0);
        let value = FormModel::Value(b[2 * k + 1]);
        lemma_data_item(deep, b, b.len(), 2 * k + 1);
        assert(forms + binding_forms(b, n) =~= inner.push(binding).push(value));
        lemma_forms_agree(deep, inner.push(binding), inner, inner.len(), consts, scopes);
        lemma_forms_agree(deep, 
            inner.push(binding).push(value),
            inner.push(binding),
            inner.len() + 1,
            consts,
            scopes,
        );
    }
}

proof fn lemma_eval_list(deep: bool, m: CompilerModel, l: Seq<ValueModel>)
    requires
        inv(deep, m),
        all_sound_if(deep, l, l.len()),
        l.len() > 0,
    ensures
        m.eval_list(l) matches Ok(after) ==> inv(deep, after),
{
    let consts = m.chunk.consts.len();
    let slots = m.scopes.last().size();
    if l.len() > 255 {
    } else if l[0] == ValueModel::Symbol(symbols::DO) {
        if l.len() >= 2 {
            lemma_later(deep, m, FormModel::Do(l, 1));
        }
    } else if l[0] == ValueModel::Symbol(symbols::FN) {
        if l.len() == 3 {
            lemma_fn(deep, m, l);
        }
    } else if l[0] == ValueModel::Symbol(symbols::DEFINE) {
        if l.len() == 3 {
            lemma_data_item(deep, l, l.len(), 1);
            lemma_data_item(deep, l, l.len(), 2);
            lemma_data_list(deep, l[1]);
            lemma_push(deep, m, l[1]);
            match m.push(l[1]) {
                Ok(c) => {
                    lemma_later(deep, c, FormModel::Define);
                    lemma_later(deep, c.later(FormModel::Define), FormModel::Value(l[2]));
                },
                Err(_) => {},
            }
        }
    } else if l[0] == ValueModel::Symbol(symbols::IF) {
        if l.len() == 4 {
            lemma_data_item(deep, l, l.len(), 1);
            lemma_later(deep, m, FormModel::IfCond(l));
            lemma_later(deep, m.later(FormModel::IfCond(l)), FormModel::Value(l[1]));
        }
    } else if l[0] == ValueModel::Symbol(symbols::LET) {
        if l.len() == 3 {
            lemma_data_item(deep, l, l.len(), 1);
            lemma_data_item(deep, l, l.len(), 2);
            match l[1] {
                ValueModel::List(b) => {
                    if bindings_ok(b) {
                        let n = (b.len() / 2) as nat;
                        let c = m.later(FormModel::Let(n)).later(FormModel::Value(l[2]));
                        lemma_later(deep, m, FormModel::Let(n));
                        lemma_later(deep, m.later(FormModel::Let(n)), FormModel::Value(l[2]));
                        lemma_data_list(deep, l[1]);
                        lemma_binding_forms(deep, c.forms, b, n, consts, m.scopes);
                    }
                },
                _ => {},
            }
        }
    } else if l[0] == ValueModel::Symbol(symbols::EQUAL) {
        if l.len() == 3 {
            lemma_eq(deep, m, l);
        }
    } else if l[0] == ValueModel::Symbol(symbols::PLUS) {
        if l.len() == 1 {
            lemma_push(deep, m, ValueModel::Number(crate::numbers::ZERO));
        } else if l.len() == 2 {
            lemma_data_item(deep, l, l.len(), 1);
            lemma_later(deep, m, FormModel::Value(l[1]));
        } else {
            lemma_later(deep, m, FormModel::AddMany(l, 1));
        }
    } else if l[0] == ValueModel::Symbol(symbols::QUOTE) {
        if l.len() == 2 {
            lemma_data_item(deep, l, l.len(), 1);
            lemma_data_list(deep, l[1]);
            lemma_push(deep, m, l[1]);
        }
    } else if l[0] == ValueModel::Symbol(symbols::QUASIQUOTE) {
        if l.len() == 2 {
            lemma_data_item(deep, l, l.len(), 1);
            lemma_later(deep, m, FormModel::Quoting);
            lemma_later(deep, m.later(FormModel::Quoting), FormModel::Value(l[1]));
        }
    } else {
        lemma_later(deep, m, FormModel::Apply);
        lemma_later(deep, m.later(FormModel::Apply), FormModel::List(l, 0));
    }
}

proof fn lemma_eq(deep: bool, m: CompilerModel, l: Seq<ValueModel>)
    requires
        inv(deep, m),
        all_sound_if(deep, l, l.len()),
        l.len() == 3,
    ensures
        m.eval_eq(l) matches Ok(after) ==> inv(deep, after),
{
    lemma_data_item(deep, l, l.len(), 1);
    lemma_data_item(deep, l, l.len(), 2);
    lemma_data_list(deep, l[1]);
    lemma_data_list(deep, l[2]);
    if is_const_model(l[1]) && is_const_model(l[2]) && eq_by_data(l[1], l[2]) is Some {
        lemma_push(deep, m, ValueModel::Bool(eq_by_data(l[1], l[2])->Some_0));
    } else if is_const_model(l[2]) {
        lemma_const(deep, m, l[2]);
        match m.get_const_idx(l[2]) {
            Ok((c, idx)) => {
                lemma_later(deep, c, FormModel::EqualConst(idx));
                lemma_later(deep, c.later(FormModel::EqualConst(idx)), FormModel::Value(l[1]));
            },
            Err(_) => {},
        }
    } else if is_const_model(l[1]) {
        lemma_const(deep, m, l[1]);
        match m.get_const_idx(l[1]) {
            Ok((c, idx)) => {
                lemma_later(deep, c, FormModel::EqualConst(idx));
                lemma_later(deep, c.later(FormModel::EqualConst(idx)), FormModel::Value(l[2]));
            },
            Err(_) => {},
        }
    } else {
        lemma_later(deep, m, FormModel::Equal);
        lemma_later(deep, m.later(FormModel::Equal), FormModel::Value(l[1]));
        lemma_later(deep, 
            m.later(FormModel::Equal).later(FormModel::Value(l[1])),
            FormModel::Value(l[2]),
        );
    }
}

proof fn lemma_fn(deep: bool, m: CompilerModel, l: Seq<ValueModel>)
    requires
        inv(deep, m),
        all_sound_if(deep, l, l.len()),
        l.len() == 3,
    ensures
        m.eval_fn(l) matches Ok(after) ==> inv(deep, after),
{
    match m.eval_fn(l) {
        Ok(after) => {
            let args = l[1]->List_0;
            lemma_data_item(deep, l, l.len(), 2);
            let scope = ScopeModel { symbols: param_symbols(args), base: 1, outers: Seq::empty() };
            assert(after.scopes.last() == scope);
            assert(after.scopes.drop_last() =~= m.scopes);
            assert(after.scopes[after.scopes.len() - 2] == m.scopes.last());
            let pushed = m.forms.push(FormModel::Return(m.chunk));
            lemma_forms_agree(deep, pushed, m.forms, m.forms.len(), m.chunk.consts.len(), m.scopes);
            assert(forms_ok(deep, pushed, pushed.len(), 0, after.scopes));
            lemma_forms_agree(deep, after.forms, pushed, pushed.len(), 0, after.scopes);
        },
        Err(_) => {},
    }
}

proof fn lemma_eval_value(deep: bool, m: CompilerModel, v: ValueModel)
    requires
        inv(deep, m),
        sound_if(deep, v),
    ensures
        m.eval_value(v) matches Ok(after) ==> inv(deep, after),
        m.eval_quoted(v) matches Ok(after) ==> inv(deep, after),
{
    lemma_data_list(deep, v);
    lemma_push(deep, m, v);
    match v {
        ValueModel::List(l) => {
            if l.len() > 0 {
                lemma_eval_list(deep, m, l);
            }
            if l.len() == 2 {
                lemma_data_item(deep, l, l.len(), 1);
                lemma_later(deep, m, FormModel::Value(l[1]));
            }
            lemma_push(deep, m, join_native());
            match m.push(join_native()) {
                Ok(c) => {
                    lemma_later(deep, c, FormModel::Apply);
                    lemma_later(deep, c.later(FormModel::Apply), FormModel::Quasi(l, 0));
                },
                Err(_) => {},
            }
        },
        ValueModel::Symbol(s) => {
            lemma_eval_symbol(deep, m, s);
        },
        _ => {},
    }
}

proof fn lemma_quasi(deep: bool, m: CompilerModel, l: Seq<ValueModel>, idx: nat)
    requires
        inv(deep, m),
        all_sound_if(deep, l, l.len()),
    ensures
        m.eval_next_in_quasi(l, idx) matches Ok(after) ==> inv(deep, after),
{
    if idx < l.len() {
        let item = l[idx as int];
        let c = m.later(FormModel::Quasi(l, idx + 1));
        lemma_later(deep, m, FormModel::Quasi(l, idx + 1));
        lemma_data_item(deep, l, l.len(), idx as int);
        lemma_data_list(deep, item);
        match item {
            ValueModel::List(e) => {
                if e.len() == 2 {
                    lemma_data_item(deep, e, e.len(), 1);
                    lemma_later(deep, c, FormModel::Value(e[1]));
                }
            },
            _ => {},
        }
        lemma_push(deep, c, list_native());
        match c.push(list_native()) {
            Ok(d) => {
                lemma_later(deep, d, FormModel::Wrap);
                lemma_later(deep, d.later(FormModel::Wrap), FormModel::Quoting);
                lemma_later(
                    deep,
                    d.later(FormModel::Wrap).later(FormModel::Quoting),
                    FormModel::Value(item),
                );
            },
            Err(_) => {},
        }
    } else if idx < u8::MAX {
        assert(inv(deep, CompilerModel { argc: (idx + 1) as u8, ..m }));
    }
}

/// The instructions of an `if` that is put together are in order.
proof fn lemma_combine(
    saved: Seq<Op>,
    then_branch: Seq<Op>,
    else_branch: Seq<Op>,
    link: Op,
    consts: nat,
    slots: nat,
)
    requires
        ops_ok(saved, consts, slots),
        ops_ok(then_branch, consts, slots),
        ops_ok(else_branch, consts, slots),
        1 + then_branch.len() <= u16::MAX,
        link == Op::Return || (else_branch.len() <= u16::MAX && link == Op::Jmp(
            else_branch.len() as u16,
        )),
    ensures
        ops_ok(
            (saved.push(Op::CondJmp((1 + then_branch.len()) as u16)) + then_branch).push(link)
                + else_branch,
            consts,
            slots,
        ),
{
    let jump = Op::CondJmp((1 + then_branch.len()) as u16);
    let all = (saved.push(jump) + then_branch).push(link) + else_branch;
    let a = saved.len() as int;
    let t = then_branch.len() as int;
    assert forall|p: int| 0 <= p < all.len() implies op_ok(
        #[trigger] all[p],
        p,
        all.len(),
        consts,
        slots,
    ) by {
        if p < a {
            assert(all[p] == saved[p]);
            assert(op_ok(saved[p], p, saved.len(), consts, slots));
        } else if p == a {
            assert(all[p] == jump);
        } else if p < a + 1 + t {
            assert(all[p] == then_branch[p - a - 1]);
            assert(op_ok(then_branch[p - a - 1], p - a - 1, then_branch.len(), consts, slots));
        } else if p == a + 1 + t {
            assert(all[p] == link);
        } else {
            assert(all[p] == else_branch[p - a - t - 2]);
            assert(op_ok(
                else_branch[p - a - t - 2],
                p - a - t - 2,
                else_branch.len(),
                consts,
                slots,
            ));
        }
    }
}

/// A chunk that is closed is in order.
proof fn lemma_close(deep: bool, chunk: ChunkModel, scope: ScopeModel)
    requires
        level_ok(deep, chunk, scope),
    ensures
        chunk_ok_if(deep, 
            ChunkModel { ops: chunk.ops.push(Op::Return), scope_size: scope.size(), ..chunk },
        ),
{
    let closed = ChunkModel { ops: chunk.ops.push(Op::Return), scope_size: scope.size(), ..chunk };
    assert forall|p: int| 0 <= p < closed.ops.len() implies op_ok(
        #[trigger] closed.ops[p],
        p,
        (closed.ops.len() - 1) as nat,
        closed.consts.len(),
        closed.scope_size,
    ) by {
        if p < chunk.ops.len() {
            assert(closed.ops[p] == chunk.ops[p]);
            assert(op_ok(chunk.ops[p], p, chunk.ops.len(), chunk.consts.len(), scope.size()));
        }
    }
}

proof fn lemma_wrap_fn(deep: bool, m: CompilerModel, parent: ChunkModel)
    requires
        m.scopes.len() >= 2,
        level_ok(deep, m.chunk, m.scopes.last()),
        level_ok(deep, parent, m.scopes[m.scopes.len() - 2]),
        forms_ok(deep, m.forms, m.forms.len(), parent.consts.len(), m.scopes.drop_last()),
    ensures
        m.wrap_fn(parent) matches Ok(after) ==> inv(deep, after),
{
    let scope = m.scopes.last();
    let body = ChunkModel { ops: m.chunk.ops.push(Op::Return), scope_size: scope.size(), ..m.chunk };
    lemma_close(deep, m.chunk, scope);
    let outside = CompilerModel { chunk: parent, scopes: m.scopes.drop_last(), ..m };
    assert(outside.scopes.last() == m.scopes[m.scopes.len() - 2]);
    assert(inv(deep, outside));
    if scope.outers.len() == 0 {
        let func = ValueModel::Func(nils(scope.size()), body);
        assert(func_ok_if(deep, func));
        lemma_push(deep, outside, func);
    } else {
        let closure = ValueModel::Closure(scope.outers, body);
        assert(func_ok_if(deep, closure));
        lemma_push(deep, outside, closure);
        match outside.push(closure) {
            Ok(c) => {
                lemma_emit(deep, c, Op::Closure);
            },
            Err(_) => {},
        }
    }
}

/// A step keeps the compiler in order.
pub proof fn lemma_step_keeps_order(deep: bool, m: CompilerModel)
    requires
        inv(deep, m),
    ensures
        m.step() matches CompileStep::More(after) ==> inv(deep, after),
        m.step() matches CompileStep::Done(Ok(chunk)) ==> chunk_ok_if(deep, chunk),
{
    if m.forms.len() == 0 {
        assert(m.scopes.len() == 1);
        lemma_close(deep, m.chunk, m.scopes.last());
    } else {
        let rest = CompilerModel { forms: m.forms.drop_last(), ..m };
        let consts = m.chunk.consts.len();
        let slots = m.scopes.last().size();
        match m.forms.last() {
            FormModel::Return(parent) => {
                lemma_forms_agree(deep, 
                    rest.forms,
                    m.forms,
                    rest.forms.len(),
                    parent.consts.len(),
                    m.scopes.drop_last(),
                );
                lemma_wrap_fn(deep, rest, parent);
            },
            f => {
                lemma_rest(deep, m);
                match f {
                    FormModel::Value(v) => {
                        if rest.forms.len() > 0 && rest.forms.last() is Quoting {
                            lemma_rest(deep, rest);
                            lemma_eval_value(deep, 
                                CompilerModel { forms: rest.forms.drop_last(), ..rest },
                                v,
                            );
                        } else {
                            lemma_eval_value(deep, rest, v);
                        }
                    },
                    FormModel::List(l, idx) => {
                        if idx < l.len() && idx < u8::MAX {
                            lemma_data_item(deep, l, l.len(), idx as int);
                            lemma_later(deep, rest, FormModel::List(l, (idx + 1) as u8));
                            lemma_later(deep, 
                                rest.later(FormModel::List(l, (idx + 1) as u8)),
                                FormModel::Value(l[idx as int]),
                            );
                        } else {
                            assert(inv(deep, CompilerModel { argc: idx, ..rest }));
                        }
                    },
                    FormModel::Apply => {
                        lemma_emit(deep, rest, Op::Tailcall(rest.argc));
                        lemma_emit(deep, rest, Op::Call(rest.argc));
                    },
                    FormModel::IfCond(l) => {
                        if l.len() == 4 {
                            lemma_data_item(deep, l, l.len(), 2);
                            let cleared = CompilerModel {
                                chunk: ChunkModel { ops: Seq::empty(), ..rest.chunk },
                                ..rest
                            };
                            assert(inv(deep, cleared));
                            lemma_later(deep, cleared, FormModel::IfThen(l, rest.chunk.ops));
                            lemma_later(deep, 
                                cleared.later(FormModel::IfThen(l, rest.chunk.ops)),
                                FormModel::Value(l[2]),
                            );
                        }
                    },
                    FormModel::IfThen(l, saved) => {
                        if l.len() == 4 {
                            lemma_data_item(deep, l, l.len(), 3);
                            let cleared = CompilerModel {
                                chunk: ChunkModel { ops: Seq::empty(), ..rest.chunk },
                                ..rest
                            };
                            assert(inv(deep, cleared));
                            lemma_later(deep, cleared, FormModel::IfElse(saved, rest.chunk.ops));
                            lemma_later(deep, 
                                cleared.later(FormModel::IfElse(saved, rest.chunk.ops)),
                                FormModel::Value(l[3]),
                            );
                        } else {
                            lemma_ops_concat(saved, rest.chunk.ops, consts, slots);
                        }
                    },
                    FormModel::IfElse(saved, then_branch) => {
                        if 1 + then_branch.len() <= u16::MAX {
                            if crate::compiler::in_tail(rest.forms) {
                                lemma_combine(
                                    saved,
                                    then_branch,
                                    rest.chunk.ops,
                                    Op::Return,
                                    consts,
                                    slots,
                                );
                            } else if rest.chunk.ops.len() <= u16::MAX {
                                lemma_combine(
                                    saved,
                                    then_branch,
                                    rest.chunk.ops,
                                    Op::Jmp(rest.chunk.ops.len() as u16),
                                    consts,
                                    slots,
                                );
                            }
                        }
                    },
                    FormModel::Do(l, idx) => {
                        if idx < l.len() {
                            lemma_data_item(deep, l, l.len(), idx as int);
                            let c = if idx + 1 < l.len() {
                                rest.later(FormModel::Do(l, idx + 1))
                            } else {
                                rest
                            };
                            if idx + 1 < l.len() {
                                lemma_later(deep, rest, FormModel::Do(l, idx + 1));
                            }
                            let d = if idx > 1 {
                                c.emit(Op::Pop)
                            } else {
                                c
                            };
                            if idx > 1 {
                                lemma_emit(deep, c, Op::Pop);
                            }
                            lemma_later(deep, d, FormModel::Value(l[idx as int]));
                        }
                    },
                    FormModel::Define => {
                        lemma_emit(deep, rest, Op::Define);
                    },
                    FormModel::Binding(s) => {
                        lemma_register(deep, rest, s);
                        match rest.register_local(s) {
                            Ok((c, slot)) => {
                                lemma_emit(deep, c, Op::Store(slot));
                            },
                            Err(_) => {},
                        }
                    },
                    FormModel::AddMany(l, idx) => {
                        if idx < l.len() {
                            lemma_data_item(deep, l, l.len(), idx as int);
                            lemma_data_list(deep, l[idx as int]);
                            let c = rest.later(FormModel::AddMany(l, idx + 1));
                            lemma_later(deep, rest, FormModel::AddMany(l, idx + 1));
                            lemma_later(deep, c, FormModel::Value(l[idx as int]));
                            lemma_const(deep, c, l[idx as int]);
                            match c.get_const_idx(l[idx as int]) {
                                Ok((d, k)) => {
                                    lemma_emit(deep, d, Op::AddConst(k));
                                },
                                Err(_) => {},
                            }
                            lemma_later(deep, c, FormModel::Add);
                            lemma_later(deep, c.later(FormModel::Add), FormModel::Value(l[idx as int]));
                        }
                    },
                    FormModel::Add => {
                        lemma_emit(deep, rest, Op::Add);
                    },
                    FormModel::Equal => {
                        lemma_emit(deep, rest, Op::Eq);
                    },
                    FormModel::EqualConst(k) => {
                        lemma_emit(deep, rest, Op::EqConst(k));
                    },
                    FormModel::Quasi(l, idx) => {
                        lemma_quasi(deep, rest, l, idx);
                    },
                    FormModel::Wrap => {
                        lemma_emit(deep, rest, Op::Call(2));
                    },
                    _ => {},
                }
            },
        }
    }
}

/// A compiler that is in order ends with a chunk that is in order.
proof fn lemma_run_keeps_order(deep: bool, m: CompilerModel)
    requires
        inv(deep, m),
    ensures
        m.run() matches Ok(chunk) ==> chunk_ok_if(deep, chunk),
    decreases m.work(),
{
    lemma_step_keeps_order(deep, m);
    lemma_step_works(m);
    match m.step() {
        CompileStep::More(after) => {
            lemma_run_keeps_order(deep, after);
        },
        CompileStep::Done(_) => {},
    }
}

/// Every chunk that the compiler makes is in order by itself, whatever it is
/// made of: no atom and no string occurs twice in its constant pool; every
/// constant that an instruction names is in the pool; every local slot that is
/// loaded or stored is below its `scope_size`; every jump leads to one of its
/// instructions; and its last instruction is `Return`.
pub proof fn lemma_compiled_chunk_is_in_order(ast: ValueModel)
    ensures
        compile_spec(ast) matches Ok(chunk) ==> chunk_itself_ok(chunk),
{
    lemma_starts_in_order(false, ast);
    lemma_run_keeps_order(false, CompilerModel::init(ast));
}

/// Every chunk that the compiler makes is in order, and so is every function
/// among its constants, to any depth, provided the functions that the value
/// to compile holds already are in order; plain data holds none. Of each of
/// these chunks it holds that no atom and no string occurs twice in its
/// constant pool; every local slot that is loaded or stored is below its
/// `scope_size`; every jump leads to one of its instructions; and its last
/// instruction is `Return`.
pub proof fn lemma_compiled_chunks_are_in_order(ast: ValueModel)
    requires
        sound(ast),
    ensures
        compile_spec(ast) matches Ok(chunk) ==> chunk_ok(chunk),
{
    lemma_starts_in_order(true, ast);
    lemma_run_keeps_order(true, CompilerModel::init(ast));
}

/// The compiler starts in order.
proof fn lemma_starts_in_order(deep: bool, ast: ValueModel)
    requires
        sound_if(deep, ast),
    ensures
        inv(deep, CompilerModel::init(ast)),
{
    let m = CompilerModel::init(ast);
    assert(m.scopes.len() == 1);
    assert(m.scopes.last().size() == 0);
    assert(level_ok(deep, m.chunk, m.scopes.last()));
    assert(m.forms.len() == 1);
    assert(m.forms[0] == FormModel::Value(ast));
    assert(forms_ok(deep, m.forms, 0, 0, m.scopes));
    assert(form_ok(deep, m.forms[0], 0, 0));
    assert(forms_ok(deep, m.forms, 1, 0, m.scopes));
}

} // verus!
