//! The native functions: those of the standard library, and the way to those
//! of the host.

use vstd::prelude::*;
use crate::env::{id_of, symbol_limit, Env};
use crate::numbers::{Arith, Numbers, ZERO};
use crate::text::{push_str, string_from_chars, ZapString};
use crate::vm::result_model;
use crate::zap::{
    arith_result, eq_by_data, error_msg, value_result_is, values_model, Value, ValueModel, ZapErr,
};

verus! {

/// The native functions that a program can call.
#[derive(Clone, Copy, PartialEq, Eq, Structural, Debug)]
pub enum Builtin {
    /// `+`: the sum of its arguments.
    Plus,
    /// `-`: the first argument less the others.
    Minus,
    /// `*`: the product of its arguments.
    Times,
    /// `=`: whether two values are equal.
    Equal,
    /// `float?`: whether every argument is a number.
    IsFloat,
    /// `false?`: whether every argument is `false`.
    IsFalse,
    /// `concat`: the arguments, all strings, joined.
    Concat,
    /// The list of the arguments. Quasiquoted lists are built with it.
    List,
    /// The arguments, all lists, joined into one list. Quasiquoted lists are
    /// built with it.
    Join,
    /// A native function of the host's own, known to the host by this number.
    Host(u32),
}

/// The host's own native functions: `call` runs the one that the host knows
/// by the given number on the given arguments.
pub struct Natives<H> {
    pub call: H,
}

impl<H: Fn(u32, &Vec<Value>) -> Result<Value, ZapErr>> Natives<H> {
    /// `call` accepts every input and is a function of the data of its
    /// arguments: the same number and arguments of the same data always give
    /// a result of the same data.
    pub open spec fn wf(&self) -> bool {
        &&& forall|id: u32, args: &Vec<Value>| #[trigger] self.call.requires((id, args))
        &&& forall|
            id: u32,
            a1: &Vec<Value>,
            a2: &Vec<Value>,
            r1: Result<Value, ZapErr>,
            r2: Result<Value, ZapErr>,
        |
            values_model(a1@) == values_model(a2@) && #[trigger] self.call.ensures((id, a1), r1)
                && #[trigger] self.call.ensures((id, a2), r2) ==> result_model(r1) == result_model(
                r2,
            )
    }

    /// `call` may answer `r` for the function `id` on arguments of the data
    /// `args`.
    pub open spec fn call_gives(
        &self,
        id: u32,
        args: Seq<ValueModel>,
        r: Result<ValueModel, Seq<char>>,
    ) -> bool {
        exists|a: &Vec<Value>, res: Result<Value, ZapErr>|
            values_model(a@) == args && #[trigger] self.call.ensures((id, a), res) && result_model(
                res,
            ) == r
    }

    /// What `call` answers for the function `id` on `args`.
    pub open spec fn answer(&self, id: u32, args: Seq<ValueModel>) -> Result<
        ValueModel,
        Seq<char>,
    > {
        choose|r: Result<ValueModel, Seq<char>>| #[trigger] self.call_gives(id, args, r)
    }

    /// `call` as a function from a number and arguments to a result.
    pub open spec fn hosted(&self) -> spec_fn(u32, Seq<ValueModel>) -> Result<
        ValueModel,
        Seq<char>,
    > {
        |id: u32, args: Seq<ValueModel>| self.answer(id, args)
    }

    /// Asks the host to run its function `id` on `args`.
    pub fn call_native(&self, id: u32, args: &Vec<Value>) -> (r: Result<Value, ZapErr>)
        requires
            self.wf(),
        ensures
            value_result_is(r, self.answer(id, values_model(args@))),
    {
        let r = (self.call)(id, args);
        proof {
            assert(self.call.ensures((id, args), r));
            assert(self.call_gives(id, values_model(args@), result_model(r)));
            let chosen = self.answer(id, values_model(args@));
            assert(self.call_gives(id, values_model(args@), chosen));
        }
        r
    }
}

/// What comparing `a` with `b` gives. Where their data does not decide it,
/// `same` says whether they are the same shared container.
pub open spec fn eq_outcome(a: ValueModel, b: ValueModel, same: bool) -> bool {
    match eq_by_data(a, b) {
        Some(r) => r,
        None => same,
    }
}

/// Whether `same` can be the answer to the question if `a` and `b` are the
/// same shared container: two values that are have the same data.
pub open spec fn same_ok(a: ValueModel, b: ValueModel, same: bool) -> bool {
    eq_by_data(a, b) is None && same ==> a == b
}

/// The first `n` arguments combined by `op`, from the left.
pub open spec fn fold_arith(
    op: Arith,
    args: Seq<ValueModel>,
    n: nat,
    calc: spec_fn(Arith, u64, u64) -> u64,
    show: spec_fn(u64) -> Seq<char>,
) -> Result<ValueModel, Seq<char>>
    decreases n,
{
    if n == 0 || n > args.len() {
        Ok(ValueModel::Number(ZERO))
    } else if n == 1 {
        Ok(args[0])
    } else {
        match fold_arith(op, args, (n - 1) as nat, calc, show) {
            Ok(acc) => arith_result(op, acc, args[n - 1], calc, show),
            Err(msg) => Err(msg),
        }
    }
}

/// Whether each of the first `n` arguments is a number.
pub open spec fn all_numbers(args: Seq<ValueModel>, n: nat) -> bool {
    forall|i: int| 0 <= i < n && i < args.len() ==> (#[trigger] args[i]) is Number
}

/// Whether each of the first `n` arguments is `false`.
pub open spec fn all_false(args: Seq<ValueModel>, n: nat) -> bool {
    forall|i: int| 0 <= i < n && i < args.len() ==> (#[trigger] args[i]) == ValueModel::Bool(false)
}

/// Whether each of the first `n` arguments is a string.
pub open spec fn all_strings(args: Seq<ValueModel>, n: nat) -> bool {
    forall|i: int| 0 <= i < n && i < args.len() ==> (#[trigger] args[i]) is Str
}

/// The texts of the first `n` arguments, joined.
pub open spec fn joined_text(args: Seq<ValueModel>, n: nat) -> Seq<char>
    decreases n,
{
    if n == 0 || n > args.len() {
        Seq::empty()
    } else {
        joined_text(args, (n - 1) as nat) + match args[n - 1] {
            ValueModel::Str(s) => s,
            _ => Seq::empty(),
        }
    }
}

/// Whether each of the first `n` arguments is a list.
pub open spec fn all_lists(args: Seq<ValueModel>, n: nat) -> bool {
    forall|i: int| 0 <= i < n && i < args.len() ==> (#[trigger] args[i]) is List
}

/// The items of the first `n` arguments, joined.
pub open spec fn joined_items(args: Seq<ValueModel>, n: nat) -> Seq<ValueModel>
    decreases n,
{
    if n == 0 || n > args.len() {
        Seq::empty()
    } else {
        joined_items(args, (n - 1) as nat) + match args[n - 1] {
            ValueModel::List(items) => items,
            _ => Seq::empty(),
        }
    }
}

/// What a native function gives for its arguments.
pub open spec fn builtin_result(
    func: Builtin,
    args: Seq<ValueModel>,
    same: bool,
    calc: spec_fn(Arith, u64, u64) -> u64,
    show: spec_fn(u64) -> Seq<char>,
    host: spec_fn(u32, Seq<ValueModel>) -> Result<ValueModel, Seq<char>>,
) -> Result<ValueModel, Seq<char>> {
    match func {
        Builtin::Plus => fold_arith(Arith::Add, args, args.len(), calc, show),
        Builtin::Minus => fold_arith(Arith::Sub, args, args.len(), calc, show),
        Builtin::Times => fold_arith(Arith::Mul, args, args.len(), calc, show),
        Builtin::Equal => if args.len() == 2 {
            Ok(ValueModel::Bool(eq_outcome(args[0], args[1], same)))
        } else {
            Err("'=' requires 2 arguments."@)
        },
        Builtin::IsFloat => if args.len() == 0 {
            Err("'float?' requires at least 1 argument."@)
        } else {
            Ok(ValueModel::Bool(all_numbers(args, args.len())))
        },
        Builtin::IsFalse => if args.len() == 0 {
            Err("'false?' requires at least 1 argument."@)
        } else {
            Ok(ValueModel::Bool(all_false(args, args.len())))
        },
        Builtin::Concat => if args.len() == 0 {
            Err("'concat' requires at least 1 argument."@)
        } else if !all_strings(args, args.len()) {
            Err("'concat' can only concatenate strings."@)
        } else {
            Ok(ValueModel::Str(joined_text(args, args.len())))
        },
        Builtin::List => Ok(ValueModel::List(args)),
        Builtin::Join => if !all_lists(args, args.len()) {
            Err("cannot splice-unquote a non-sequence."@)
        } else {
            Ok(ValueModel::List(joined_items(args, args.len())))
        },
        Builtin::Host(id) => host(id, args),
    }
}

/// Whether `same` can be the answer where a native function asks if two of
/// its arguments are the same shared container.
pub open spec fn builtin_same_ok(func: Builtin, args: Seq<ValueModel>, same: bool) -> bool {
    func == Builtin::Equal && args.len() == 2 ==> same_ok(args[0], args[1], same)
}

/// The arguments combined by `op`, from the left: no argument gives zero, one
/// argument gives itself.
fn arith_all<P: Fn(&str) -> Option<u64>, S: Fn(u64) -> String, A: Fn(Arith, u64, u64) -> u64>(
    op: Arith,
    args: &Vec<Value>,
    nums: &Numbers<P, S, A>,
) -> (r: Result<Value, ZapErr>)
    requires
        nums.wf(),
    ensures
        value_result_is(
            r,
            fold_arith(op, values_model(args@), args@.len(), nums.calculator(), nums.printer()),
        ),
{
    if args.len() == 0 {
        return Ok(Value::Number(ZERO));
    }
    let mut acc = args[0].clone();
    let mut i: usize = 1;
    while i < args.len()
        invariant
            1 <= i <= args.len(),
            nums.wf(),
            fold_arith(op, values_model(args@), i as nat, nums.calculator(), nums.printer()) == Ok::<
                ValueModel,
                Seq<char>,
            >(acc@),
        decreases args.len() - i,
    {
        match acc.arith(op, &args[i], nums) {
            Ok(next) => {
                acc = next;
            },
            Err(e) => {
                proof {
                    lemma_fold_fails(
                        op,
                        values_model(args@),
                        (i + 1) as nat,
                        args@.len(),
                        nums.calculator(),
                        nums.printer(),
                    );
                }
                return Err(e);
            },
        }
        i += 1;
    }
    Ok(acc)
}

/// Once combining the arguments has failed, it has failed for good.
proof fn lemma_fold_fails(
    op: Arith,
    args: Seq<ValueModel>,
    n: nat,
    m: nat,
    calc: spec_fn(Arith, u64, u64) -> u64,
    show: spec_fn(u64) -> Seq<char>,
)
    requires
        fold_arith(op, args, n, calc, show) is Err,
        n <= m <= args.len(),
    ensures
        fold_arith(op, args, m, calc, show) == fold_arith(op, args, n, calc, show),
    decreases m - n,
{
    if n < m {
        lemma_fold_fails(op, args, n, (m - 1) as nat, calc, show);
    }
}

/// `+`: the sum of the arguments.
pub fn plus<P: Fn(&str) -> Option<u64>, S: Fn(u64) -> String, A: Fn(Arith, u64, u64) -> u64>(
    args: &Vec<Value>,
    nums: &Numbers<P, S, A>,
) -> (r: Result<Value, ZapErr>)
    requires
        nums.wf(),
    ensures
        value_result_is(
            r,
            fold_arith(
                Arith::Add,
                values_model(args@),
                args@.len(),
                nums.calculator(),
                nums.printer(),
            ),
        ),
{
    arith_all(Arith::Add, args, nums)
}

/// `float?`: whether every argument is a number.
pub fn is_float(args: &Vec<Value>) -> (r: Result<Value, ZapErr>)
    ensures
        if args@.len() == 0 {
            r matches Err(e) && e@ == "'float?' requires at least 1 argument."@
        } else {
            r matches Ok(v) && v@ == ValueModel::Bool(
                all_numbers(values_model(args@), args@.len()),
            )
        },
{
    if args.len() == 0 {
        return Err(error_msg("'float?' requires at least 1 argument."));
    }
    let mut i: usize = 0;
    while i < args.len()
        invariant
            i <= args.len(),
            all_numbers(values_model(args@), i as nat),
        decreases args.len() - i,
    {
        match &args[i] {
            Value::Number(_) => {},
            _ => {
                proof {
                    assert(!(values_model(args@)[i as int] is Number));
                }
                return Ok(Value::Bool(false));
            },
        }
        i += 1;
    }
    Ok(Value::Bool(true))
}

/// `false?`: whether every argument is `false`.
pub fn is_false(args: &Vec<Value>) -> (r: Result<Value, ZapErr>)
    ensures
        if args@.len() == 0 {
            r matches Err(e) && e@ == "'false?' requires at least 1 argument."@
        } else {
            r matches Ok(v) && v@ == ValueModel::Bool(all_false(values_model(args@), args@.len()))
        },
{
    if args.len() == 0 {
        return Err(error_msg("'false?' requires at least 1 argument."));
    }
    let mut i: usize = 0;
    while i < args.len()
        invariant
            i <= args.len(),
            all_false(values_model(args@), i as nat),
        decreases args.len() - i,
    {
        match &args[i] {
            Value::Bool(false) => {},
            _ => {
                proof {
                    assert(values_model(args@)[i as int] != ValueModel::Bool(false));
                }
                return Ok(Value::Bool(false));
            },
        }
        i += 1;
    }
    Ok(Value::Bool(true))
}

/// `concat`: the arguments, all strings, joined.
pub fn concat(args: &Vec<Value>) -> (r: Result<Value, ZapErr>)
    ensures
        if args@.len() == 0 {
            r matches Err(e) && e@ == "'concat' requires at least 1 argument."@
        } else if !all_strings(values_model(args@), args@.len()) {
            r matches Err(e) && e@ == "'concat' can only concatenate strings."@
        } else {
            r matches Ok(v) && v@ == ValueModel::Str(joined_text(values_model(args@), args@.len()))
        },
{
    if args.len() == 0 {
        return Err(error_msg("'concat' requires at least 1 argument."));
    }
    let mut text: Vec<char> = Vec::new();
    let mut i: usize = 0;
    while i < args.len()
        invariant
            i <= args.len(),
            all_strings(values_model(args@), i as nat),
            text@ == joined_text(values_model(args@), i as nat),
        decreases args.len() - i,
    {
        match &args[i] {
            Value::Str(s) => {
                push_str(&mut text, s.as_str());
            },
            _ => {
                proof {
                    assert(!(values_model(args@)[i as int] is Str));
                }
                return Err(error_msg("'concat' can only concatenate strings."));
            },
        }
        i += 1;
    }
    let joined = string_from_chars(&text);
    Ok(Value::Str(ZapString::new(joined.as_str())))
}

/// The list of the arguments.
pub fn list_of(args: &Vec<Value>) -> (r: Value)
    ensures
        r@ == ValueModel::List(values_model(args@)),
{
    let mut items: Vec<Value> = Vec::new();
    let mut i: usize = 0;
    while i < args.len()
        invariant
            i <= args.len(),
            items@ == args@.take(i as int),
        decreases args.len() - i,
    {
        items.push(args[i].clone());
        proof {
            assert(items@ =~= args@.take(i + 1));
        }
        i += 1;
    }
    proof {
        assert(items@ =~= args@);
    }
    Value::List(Value::new_list(items))
}

/// The arguments, all lists, joined into one list.
pub fn join_lists(args: &Vec<Value>) -> (r: Result<Value, ZapErr>)
    ensures
        if all_lists(values_model(args@), args@.len()) {
            r matches Ok(v) && v@ == ValueModel::List(
                joined_items(values_model(args@), args@.len()),
            )
        } else {
            r matches Err(e) && e@ == "cannot splice-unquote a non-sequence."@
        },
{
    let mut items: Vec<Value> = Vec::new();
    let mut i: usize = 0;
    proof {
        assert(values_model(items@) =~= joined_items(values_model(args@), 0));
    }
    while i < args.len()
        invariant
            i <= args.len(),
            all_lists(values_model(args@), i as nat),
            values_model(items@) == joined_items(values_model(args@), i as nat),
        decreases args.len() - i,
    {
        match &args[i] {
            Value::List(part) => {
                let ghost before = values_model(items@);
                let mut j: usize = 0;
                proof {
                    assert(values_model(items@) =~= before + values_model(part@).take(0));
                }
                while j < part.len()
                    invariant
                        j <= part.len(),
                        values_model(items@) == before + values_model(part@).take(j as int),
                    decreases part.len() - j,
                {
                    let ghost sofar = values_model(items@);
                    items.push(part[j].clone());
                    proof {
                        assert(values_model(items@) =~= sofar.push(part@[j as int]@));
                        assert(values_model(part@).take(j + 1) =~= values_model(part@).take(
                            j as int,
                        ).push(part@[j as int]@));
                        assert(values_model(items@) =~= before + values_model(part@).take(j + 1));
                    }
                    j += 1;
                }
                proof {
                    assert(values_model(part@).take(part@.len() as int) =~= values_model(part@));
                    assert(values_model(args@)[i as int] == ValueModel::List(values_model(part@)));
                }
            },
            _ => {
                proof {
                    assert(!(values_model(args@)[i as int] is List));
                }
                return Err(error_msg("cannot splice-unquote a non-sequence."));
            },
        }
        i += 1;
    }
    Ok(Value::List(Value::new_list(items)))
}

/// Calls a native function: one of the library's own is run here, one of the
/// host's is asked of the host.
pub fn call_builtin<
    P: Fn(&str) -> Option<u64>,
    S: Fn(u64) -> String,
    A: Fn(Arith, u64, u64) -> u64,
    H: Fn(u32, &Vec<Value>) -> Result<Value, ZapErr>,
>(
    func: Builtin,
    args: &Vec<Value>,
    nums: &Numbers<P, S, A>,
    natives: &Natives<H>,
) -> (r: Result<Value, ZapErr>)
    requires
        nums.wf(),
        natives.wf(),
    ensures
        exists|same: bool|
            #![trigger builtin_same_ok(func, values_model(args@), same)]
            {
                &&& builtin_same_ok(func, values_model(args@), same)
                &&& value_result_is(
                    r,
                    builtin_result(
                        func,
                        values_model(args@),
                        same,
                        nums.calculator(),
                        nums.printer(),
                        natives.hosted(),
                    ),
                )
            },
{
    let ghost model = values_model(args@);
    match func {
        Builtin::Plus => {
            let r = arith_all(Arith::Add, args, nums);
            proof {
                assert(builtin_same_ok(func, model, false));
            }
            r
        },
        Builtin::Minus => {
            let r = arith_all(Arith::Sub, args, nums);
            proof {
                assert(builtin_same_ok(func, model, false));
            }
            r
        },
        Builtin::Times => {
            let r = arith_all(Arith::Mul, args, nums);
            proof {
                assert(builtin_same_ok(func, model, false));
            }
            r
        },
        Builtin::Equal => {
            if args.len() == 2 {
                let same = args[0].eq(&args[1]);
                proof {
                    assert(builtin_same_ok(func, model, same));
                }
                Ok(Value::Bool(same))
            } else {
                proof {
                    assert(builtin_same_ok(func, model, false));
                }
                Err(error_msg("'=' requires 2 arguments."))
            }
        },
        Builtin::IsFloat => {
            let r = is_float(args);
            proof {
                assert(builtin_same_ok(func, model, false));
            }
            r
        },
        Builtin::IsFalse => {
            let r = is_false(args);
            proof {
                assert(builtin_same_ok(func, model, false));
            }
            r
        },
        Builtin::Concat => {
            let r = concat(args);
            proof {
                assert(builtin_same_ok(func, model, false));
            }
            r
        },
        Builtin::List => {
            let r = list_of(args);
            proof {
                assert(builtin_same_ok(func, model, false));
            }
            Ok(r)
        },
        Builtin::Join => {
            let r = join_lists(args);
            proof {
                assert(builtin_same_ok(func, model, false));
            }
            r
        },
        Builtin::Host(id) => {
            let r = natives.call_native(id, args);
            proof {
                assert(builtin_same_ok(func, model, false));
            }
            r
        },
    }
}

/// Whether `env` binds the name `name` to the native function `func`.
pub open spec fn binds_native<E: Env>(env: E, name: Seq<char>, func: Builtin) -> bool {
    &&& env.names().contains(name)
    &&& id_of(env.names(), name) < env.globals().len()
    &&& env.globals()[id_of(env.names(), name)] matches Some(v) && v@ == ValueModel::FuncNative(
        name,
        func,
    )
}

/// Whether the names of `before` are still the first names of `after`.
pub open spec fn names_kept<E: Env>(before: E, after: E) -> bool {
    before.names().len() <= after.names().len() && after.names().take(
        before.names().len() as int,
    ) == before.names()
}

proof fn lemma_id_of(names: Seq<Seq<char>>, i: int)
    requires
        names.no_duplicates(),
        0 <= i < names.len(),
    ensures
        id_of(names, names[i]) == i,
{
    let j = id_of(names, names[i]);
    assert(0 <= j < names.len() && names[j] == names[i]);
}

/// Binds one native function under its name. Bindings of other names stay.
/// It fails exactly where the name is new and no identifier is left for it,
/// and then leaves the environment as it was.
fn bind<E: Env>(env: &mut E, name: &str, func: Builtin) -> (r: Result<(), ZapErr>)
    requires
        old(env).inv(),
    ensures
        final(env).inv(),
        r is Err <==> !old(env).names().contains(name@) && old(env).names().len()
            >= symbol_limit(),
        match r {
            Ok(_) => {
                &&& names_kept(*old(env), *final(env))
                &&& final(env).names() == with_name(old(env).names(), name@)
                &&& binds_native(*final(env), name@, func)
                &&& forall|j: int|
                    0 <= j < old(env).names().len() && old(env).names()[j] != name@
                        ==> #[trigger] final(env).globals()[j] == old(env).globals()[j]
                &&& forall|other: Seq<char>, f: Builtin|
                    other != name@ && binds_native(*old(env), other, f) ==> #[trigger] binds_native(
                        *final(env),
                        other,
                        f,
                    )
            },
            Err(e) => {
                &&& e@ == "Too many symbols."@
                &&& final(env).names() == old(env).names()
                &&& final(env).globals() == old(env).globals()
            },
        },
{
    proof {
        old(env).lemma_inv();
    }
    let r = env.reg_fn(name, func);
    proof {
        env.lemma_inv();
        if r is Ok {
            let before = old(env).names();
            let after = env.names();
            assert(after.take(before.len() as int) =~= before);
            let known = before.contains(name@);
            let id = if known {
                id_of(before, name@)
            } else {
                before.len() as int
            };
            assert(after[id] == name@);
            lemma_id_of(after, id);
            assert forall|j: int|
                0 <= j < before.len() && before[j] != name@ implies #[trigger] env.globals()[j]
                == old(env).globals()[j] by {
                assert(j != id);
            }
            assert forall|other: Seq<char>, f: Builtin|
                other != name@ && binds_native(*old(env), other, f) implies #[trigger] binds_native(
                *env,
                other,
                f,
            ) by {
                let j = id_of(before, other);
                assert(0 <= j < before.len() && before[j] == other);
                assert(after[j] == other);
                lemma_id_of(after, j);
            }
        }
    }
    r
}

/// No two native functions have the same name.
proof fn lemma_builtin_names_differ()
    ensures
        "+"@ != "-"@,
        "+"@ != "*"@,
        "+"@ != "="@,
        "+"@ != "float?"@,
        "+"@ != "false?"@,
        "+"@ != "concat"@,
        "-"@ != "*"@,
        "-"@ != "="@,
        "-"@ != "float?"@,
        "-"@ != "false?"@,
        "-"@ != "concat"@,
        "*"@ != "="@,
        "*"@ != "float?"@,
        "*"@ != "false?"@,
        "*"@ != "concat"@,
        "="@ != "float?"@,
        "="@ != "false?"@,
        "="@ != "concat"@,
        "float?"@ != "false?"@,
        "float?"@ != "concat"@,
        "false?"@ != "concat"@,
{
    reveal_strlit("+");
    reveal_strlit("-");
    reveal_strlit("*");
    reveal_strlit("=");
    reveal_strlit("float?");
    reveal_strlit("false?");
    reveal_strlit("concat");
    assert("+"@.len() == 1 && "+"@[0] == '+');
    assert("-"@.len() == 1 && "-"@[0] == '-');
    assert("*"@.len() == 1 && "*"@[0] == '*');
    assert("="@.len() == 1 && "="@[0] == '=');
    assert("float?"@.len() == 6 && "float?"@[1] == 'l');
    assert("false?"@.len() == 6 && "false?"@[1] == 'a' && "false?"@[0] == 'f');
    assert("concat"@.len() == 6 && "concat"@[0] == 'c' && "float?"@[0] == 'f');
}

/// The names with `name` among them: a name that is new comes last.
pub open spec fn with_name(names: Seq<Seq<char>>, name: Seq<char>) -> Seq<Seq<char>> {
    if names.contains(name) {
        names
    } else {
        names.push(name)
    }
}

/// The names of the native functions of the standard library, in the order
/// in which they are bound.
pub open spec fn library_names() -> Seq<Seq<char>> {
    seq!["+"@, "-"@, "*"@, "="@, "float?"@, "false?"@, "concat"@]
}

/// The names once the first `n` names of the standard library are among
/// them.
pub open spec fn with_library(names: Seq<Seq<char>>, n: nat) -> Seq<Seq<char>>
    decreases n,
{
    if n == 0 || n > library_names().len() {
        names
    } else {
        with_name(with_library(names, (n - 1) as nat), library_names()[n - 1])
    }
}

/// How many of the first `n` names of the standard library can be bound, one
/// after the other, in an environment that knows `names`: binding stops at the
/// first name that is new with no identifier left for it.
pub open spec fn library_reach(names: Seq<Seq<char>>, n: nat) -> nat
    decreases n,
{
    if n == 0 || n > library_names().len() {
        0
    } else {
        let k = library_reach(names, (n - 1) as nat);
        let known = with_library(names, k);
        if k == n - 1 && (known.contains(library_names()[n - 1]) || known.len() < symbol_limit()) {
            n
        } else {
            k
        }
    }
}

/// Whether `env` binds the first `n` native functions of the standard library
/// under their names.
pub open spec fn loaded_first<E: Env>(env: E, n: nat) -> bool {
    &&& n >= 1 ==> binds_native(env, "+"@, Builtin::Plus)
    &&& n >= 2 ==> binds_native(env, "-"@, Builtin::Minus)
    &&& n >= 3 ==> binds_native(env, "*"@, Builtin::Times)
    &&& n >= 4 ==> binds_native(env, "="@, Builtin::Equal)
    &&& n >= 5 ==> binds_native(env, "float?"@, Builtin::IsFloat)
    &&& n >= 6 ==> binds_native(env, "false?"@, Builtin::IsFalse)
    &&& n >= 7 ==> binds_native(env, "concat"@, Builtin::Concat)
}

/// Whether the global values of `before` are those of `after`, but for the
/// names of the standard library.
pub open spec fn others_kept<E: Env>(before: E, after: E) -> bool {
    forall|j: int|
        0 <= j < before.names().len() && !library_names().contains(before.names()[j])
            ==> #[trigger] after.globals()[j] == before.globals()[j]
}

/// Whether `env` binds every native function of the standard library under
/// its name.
pub open spec fn loaded<E: Env>(env: E) -> bool {
    &&& binds_native(env, "+"@, Builtin::Plus)
    &&& binds_native(env, "-"@, Builtin::Minus)
    &&& binds_native(env, "*"@, Builtin::Times)
    &&& binds_native(env, "="@, Builtin::Equal)
    &&& binds_native(env, "float?"@, Builtin::IsFloat)
    &&& binds_native(env, "false?"@, Builtin::IsFalse)
    &&& binds_native(env, "concat"@, Builtin::Concat)
}

/// Binds the native functions of the standard library in `env`, each under
/// its name, one after the other. It stops at the first name that is new
/// with no identifier left for it, and fails; so it succeeds wherever
/// identifiers are left for seven more names. Either way the names known
/// before are kept, the functions bound before it stopped are bound, and
/// the global values of all other names are as they were.
pub fn load<E: Env>(env: &mut E) -> (r: Result<(), ZapErr>)
    requires
        old(env).inv(),
    ensures
        final(env).inv(),
        names_kept(*old(env), *final(env)),
        others_kept(*old(env), *final(env)),
        old(env).names().len() + 7 <= symbol_limit() ==> r is Ok,
        r is Ok <==> library_reach(old(env).names(), 7) == 7,
        final(env).names() == with_library(old(env).names(), library_reach(old(env).names(), 7)),
        loaded_first(*final(env), library_reach(old(env).names(), 7)),
        match r {
            Ok(_) => loaded(*final(env)),
            Err(e) => e@ == "Too many symbols."@ && final(env).names().len() >= symbol_limit(),
        },
{
    let ghost start = *env;
    proof {
        lemma_kept(start, start);
    }
    let ghost before = *env;
    match bind(env, "+", Builtin::Plus) {
        Ok(_) => {},
        Err(e) => {
            proof {
                lemma_stopped(start, before, *env, 0, "+"@);
            }
            return Err(e);
        },
    }
    proof {
        lemma_bound(start, before, *env, 0, "+"@, Builtin::Plus);
    }
    let ghost before = *env;
    match bind(env, "-", Builtin::Minus) {
        Ok(_) => {},
        Err(e) => {
            proof {
                lemma_stopped(start, before, *env, 1, "-"@);
            }
            return Err(e);
        },
    }
    proof {
        lemma_bound(start, before, *env, 1, "-"@, Builtin::Minus);
    }
    let ghost before = *env;
    match bind(env, "*", Builtin::Times) {
        Ok(_) => {},
        Err(e) => {
            proof {
                lemma_stopped(start, before, *env, 2, "*"@);
            }
            return Err(e);
        },
    }
    proof {
        lemma_bound(start, before, *env, 2, "*"@, Builtin::Times);
    }
    let ghost before = *env;
    match bind(env, "=", Builtin::Equal) {
        Ok(_) => {},
        Err(e) => {
            proof {
                lemma_stopped(start, before, *env, 3, "="@);
            }
            return Err(e);
        },
    }
    proof {
        lemma_bound(start, before, *env, 3, "="@, Builtin::Equal);
    }
    let ghost before = *env;
    match bind(env, "float?", Builtin::IsFloat) {
        Ok(_) => {},
        Err(e) => {
            proof {
                lemma_stopped(start, before, *env, 4, "float?"@);
            }
            return Err(e);
        },
    }
    proof {
        lemma_bound(start, before, *env, 4, "float?"@, Builtin::IsFloat);
    }
    let ghost before = *env;
    match bind(env, "false?", Builtin::IsFalse) {
        Ok(_) => {},
        Err(e) => {
            proof {
                lemma_stopped(start, before, *env, 5, "false?"@);
            }
            return Err(e);
        },
    }
    proof {
        lemma_bound(start, before, *env, 5, "false?"@, Builtin::IsFalse);
    }
    let ghost before = *env;
    match bind(env, "concat", Builtin::Concat) {
        Ok(_) => {},
        Err(e) => {
            proof {
                lemma_stopped(start, before, *env, 6, "concat"@);
            }
            return Err(e);
        },
    }
    proof {
        lemma_bound(start, before, *env, 6, "concat"@, Builtin::Concat);
    }
    Ok(())
}

/// Whether the environment `now` is what binding the first `k` native
/// functions of the standard library makes of `start`.
spec fn bound_so_far<E: Env>(start: E, now: E, k: nat) -> bool {
    &&& names_kept(start, now)
    &&& others_kept(start, now)
    &&& now.names() == with_library(start.names(), k)
    &&& now.names().len() <= start.names().len() + k
    &&& library_reach(start.names(), k) == k
    &&& loaded_first(now, k)
}

/// The native function that is bound under the `k`-th name of the standard
/// library.
spec fn library_function(k: nat) -> Builtin {
    if k == 0 {
        Builtin::Plus
    } else if k == 1 {
        Builtin::Minus
    } else if k == 2 {
        Builtin::Times
    } else if k == 3 {
        Builtin::Equal
    } else if k == 4 {
        Builtin::IsFloat
    } else if k == 5 {
        Builtin::IsFalse
    } else {
        Builtin::Concat
    }
}

/// One more native function is bound.
proof fn lemma_bound<E: Env>(start: E, before: E, after: E, k: nat, name: Seq<char>, func: Builtin)
    requires
        k < 7,
        library_names()[k as int] == name,
        library_function(k) == func,
        bound_so_far(start, before, k),
        before.names().contains(name) || before.names().len() < symbol_limit(),
        names_kept(before, after),
        after.names() == with_name(before.names(), name),
        binds_native(after, name, func),
        forall|j: int|
            0 <= j < before.names().len() && before.names()[j] != name
                ==> #[trigger] after.globals()[j] == before.globals()[j],
        forall|other: Seq<char>, f: Builtin|
            other != name && binds_native(before, other, f) ==> #[trigger] binds_native(
                after,
                other,
                f,
            ),
    ensures
        bound_so_far(start, after, k + 1),
{
    lemma_builtin_names_differ();
    lemma_kept_twice(start, before, after);
    lemma_others_kept(start, before, after, name);
    assert(library_names().len() == 7);
    assert(library_reach(start.names(), k + 1) == k + 1);
    assert(after.names() == with_library(start.names(), k + 1));
}

/// Binding has stopped.
proof fn lemma_stopped<E: Env>(start: E, before: E, after: E, k: nat, name: Seq<char>)
    requires
        k < 7,
        library_names()[k as int] == name,
        bound_so_far(start, before, k),
        !before.names().contains(name),
        before.names().len() >= symbol_limit(),
        after.names() == before.names(),
        after.globals() == before.globals(),
    ensures
        names_kept(start, after),
        others_kept(start, after),
        library_reach(start.names(), 7) == k,
        after.names() == with_library(start.names(), k),
        loaded_first(after, k),
        after.names().len() >= symbol_limit(),
        start.names().len() + 7 > symbol_limit(),
{
    lemma_kept(before, after);
    lemma_kept_twice(start, before, after);
    assert(library_names().len() == 7);
    lemma_reach_ends(start.names(), k + 1, 7);
}

/// Binding stops for good: where not all of the first `m` names can be
/// bound, no more of the first `n` can.
proof fn lemma_reach_ends(names: Seq<Seq<char>>, m: nat, n: nat)
    requires
        1 <= m <= n <= library_names().len(),
        library_reach(names, (m - 1) as nat) == m - 1,
        !with_library(names, (m - 1) as nat).contains(library_names()[m - 1]),
        with_library(names, (m - 1) as nat).len() >= symbol_limit(),
    ensures
        library_reach(names, n) == m - 1,
    decreases n - m,
{
    if m < n {
        lemma_reach_ends(names, m, (n - 1) as nat);
    }
}

/// What one binding leaves alone is left alone by all of them.
proof fn lemma_others_kept<E: Env>(start: E, before: E, after: E, name: Seq<char>)
    requires
        names_kept(start, before),
        others_kept(start, before),
        library_names().contains(name),
        forall|j: int|
            0 <= j < before.names().len() && before.names()[j] != name
                ==> #[trigger] after.globals()[j] == before.globals()[j],
    ensures
        others_kept(start, after),
{
    assert forall|j: int|
        0 <= j < start.names().len() && !library_names().contains(
            start.names()[j],
        ) implies #[trigger] after.globals()[j] == start.globals()[j] by {
        assert(before.names().take(start.names().len() as int)[j] == before.names()[j]);
        assert(before.globals()[j] == start.globals()[j]);
    }
}

/// An environment keeps its own names.
proof fn lemma_kept<E: Env>(a: E, b: E)
    requires
        a.names() == b.names(),
    ensures
        names_kept(a, b),
{
    assert(b.names().take(a.names().len() as int) =~= a.names());
}

proof fn lemma_kept_twice<E: Env>(a: E, b: E, c: E)
    requires
        names_kept(a, b),
        names_kept(b, c),
    ensures
        names_kept(a, c),
{
    assert(c.names().take(a.names().len() as int) =~= b.names().take(a.names().len() as int));
}

} // verus!
