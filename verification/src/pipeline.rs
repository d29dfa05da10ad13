//! The whole way from source text to the text of a result: read, compile,
//! run, print.

use vstd::prelude::*;
use crate::builtins::Natives;
use crate::compiler::{compile, compile_spec};
use crate::env::{no_values, Env, SandboxEnv};
use crate::numbers::{Arith, Numbers};
use crate::printer::to_string_text;
use crate::reader::{lemma_step_works, ReadModel, ReadStep, Reader};
use crate::text::str_eq;
use crate::vm::{globals_model, ran, result_model, run, Snapshot};
use crate::zap::{error_msg, Value, ValueModel, ZapErr};

verus! {

/// The message for a source text that holds no form.
pub open spec fn nothing_to_evaluate() -> Seq<char> {
    "No form to evaluate."@
}

/// Whether `result` is what evaluating the forms that `reader` still holds
/// gives, one after the other, where `last` is the value of the form
/// evaluated last: the text of the value of the last form, or the first error
/// that reading, compiling or running meets.
pub open spec fn evaluates_to(
    reader: ReadModel,
    globals: Seq<Option<ValueModel>>,
    last: Option<ValueModel>,
    result: Result<Seq<char>, Seq<char>>,
    parse: spec_fn(Seq<char>) -> Option<u64>,
    calc: spec_fn(Arith, u64, u64) -> u64,
    show: spec_fn(u64) -> Seq<char>,
    host: spec_fn(u32, Seq<ValueModel>) -> Result<ValueModel, Seq<char>>,
) -> bool
    decreases reader.work(),
{
    let (rest, out) = reader.read(parse);
    match out {
        Err(msg) => result == Err::<Seq<char>, Seq<char>>(msg),
        Ok(None) => match last {
            Some(v) => result == Ok::<Seq<char>, Seq<char>>(to_string_text(v, show)),
            None => result == Err::<Seq<char>, Seq<char>>(nothing_to_evaluate()),
        },
        Ok(Some(ast)) => match compile_spec(ast) {
            Err(msg) => result == Err::<Seq<char>, Seq<char>>(msg),
            Ok(chunk) => exists|
                trace: Seq<Snapshot>,
                r: Result<ValueModel, Seq<char>>,
                bound: Seq<Option<ValueModel>>,
            |
                #![trigger ran(trace, chunk, globals + no_values::<ValueModel>(rest.names.len() - reader.names.len()), r, bound, rest.names, calc, show, host)]
                {
                    &&& ran(
                        trace,
                        chunk,
                        globals + no_values::<ValueModel>(rest.names.len() - reader.names.len()),
                        r,
                        bound,
                        rest.names,
                        calc,
                        show,
                        host,
                    )
                    &&& match r {
                        Err(msg) => result == Err::<Seq<char>, Seq<char>>(msg),
                        Ok(v) => rest.work() < reader.work() && evaluates_to(
                            rest,
                            bound,
                            Some(v),
                            result,
                            parse,
                            calc,
                            show,
                            host,
                        ),
                    }
                },
        },
    }
}

/// Reading leaves no more work than there was, and less where it gives a
/// value.
pub proof fn lemma_read_consumes(reader: ReadModel, parse: spec_fn(Seq<char>) -> Option<u64>)
    ensures
        reader.read(parse).0.work() <= reader.work() || reader.read(parse).1 is Err,
        reader.read(parse).1 matches Ok(Some(_)) ==> reader.read(parse).0.work() < reader.work(),
    decreases reader.work(),
{
    lemma_step_works(reader, parse);
    match reader.step(parse) {
        ReadStep::Done(m, r) => {
            if r matches Ok(Some(_)) {
                lemma_done_consumes(reader, parse);
            }
        },
        ReadStep::More(m) => {
            lemma_read_consumes(m, parse);
        },
    }
}

proof fn lemma_done_consumes(reader: ReadModel, parse: spec_fn(Seq<char>) -> Option<u64>)
    ensures
        reader.step(parse) matches ReadStep::Done(m, Ok(r)) ==> (r is Some ==> m.work()
            < reader.work()) && (r is None ==> m == reader),
{
    if reader.tokens.len() > 0 {
        assert(crate::reader::macro_count(Seq::<crate::reader::ParentModel>::empty()) == 0);
        if reader.stack.len() == 1 {
            assert(reader.stack.drop_last() =~= Seq::<crate::reader::ParentModel>::empty());
        }
    }
}

/// Whether the text of a result, or its error, is as expected.
pub open spec fn text_result_is(r: Result<String, ZapErr>, expected: Result<Seq<char>, Seq<char>>) -> bool {
    match (r, expected) {
        (Ok(s), Ok(t)) => s@ == t,
        (Err(e), Err(msg)) => e@ == msg,
        _ => false,
    }
}

/// The tokens of a whole source text, read by a reader that has read nothing
/// before, with the names that an environment knows.
pub open spec fn source_forms(src: Seq<char>, names: Seq<Seq<char>>) -> ReadModel {
    ReadModel {
        tokens: Reader::fresh().lexer.run(src).flush().tokens,
        stack: Seq::empty(),
        names,
    }
}

/// Evaluates the forms of a source text one after the other in `env`, and
/// gives the text of the value of the last form.
pub fn run_exp<
    E: Env,
    P: Fn(&str) -> Option<u64>,
    S: Fn(u64) -> String,
    A: Fn(Arith, u64, u64) -> u64,
    H: Fn(u32, &Vec<Value>) -> Result<Value, ZapErr>,
>(
    src: &str,
    env: E,
    nums: &Numbers<P, S, A>,
    natives: &Natives<H>,
) -> (r: Result<String, ZapErr>)
    requires
        env.inv(),
        nums.wf(),
        natives.wf(),
    ensures
        exists|result: Result<Seq<char>, Seq<char>>|
            #![trigger text_result_is(r, result)]
            {
                &&& text_result_is(r, result)
                &&& evaluates_to(
                    source_forms(src@, env.names()),
                    globals_model(env.globals()),
                    None,
                    result,
                    nums.parser(),
                    nums.calculator(),
                    nums.printer(),
                    natives.hosted(),
                )
            },
{
    let mut scope = env;
    let mut reader = Reader::new();
    reader.tokenize(src);
    reader.flush_token();
    let ghost parse = nums.parser();
    let ghost calc = nums.calculator();
    let ghost show = nums.printer();
    let ghost host = natives.hosted();
    let ghost start = source_forms(src@, env.names());
    let ghost globals0 = globals_model(env.globals());
    let mut last: Option<Value> = None;
    let ghost mut last_model: Option<ValueModel> = None;
    loop
        invariant
            scope.inv(),
            nums.wf(),
            natives.wf(),
            parse == nums.parser(),
            calc == nums.calculator(),
            show == nums.printer(),
            host == natives.hosted(),
            start == source_forms(src@, env.names()),
            globals0 == globals_model(env.globals()),
            last_model == match last {
                Some(v) => Some(v@),
                None => None,
            },
            forall|result: Result<Seq<char>, Seq<char>>|
                #![trigger evaluates_to(start, globals0, None, result, parse, calc, show, host)]
                evaluates_to(
                    reader@.reading(scope.names()),
                    globals_model(scope.globals()),
                    last_model,
                    result,
                    parse,
                    calc,
                    show,
                    host,
                ) ==> evaluates_to(start, globals0, None, result, parse, calc, show, host),
        decreases reader@.reading(scope.names()).work(),
    {
        let ghost before = reader@.reading(scope.names());
        let ghost globals1 = globals_model(scope.globals());
        proof {
            lemma_read_consumes(before, parse);
        }
        let ast = match reader.read_ast(&mut scope, nums) {
            Ok(Some(ast)) => ast,
            Ok(None) => {
                return match last {
                    Some(v) => {
                        let text = v.to_string(&scope, nums);
                        proof {
                            assert(evaluates_to(
                                before,
                                globals1,
                                last_model,
                                Ok(text@),
                                parse,
                                calc,
                                show,
                                host,
                            ));
                            assert(evaluates_to(start, globals0, None, Ok(text@), parse, calc, show, host));
                            assert(text_result_is(Ok(text), Ok(text@)));
                        }
                        Ok(text)
                    },
                    None => {
                        let e = error_msg("No form to evaluate.");
                        proof {
                            assert(evaluates_to(
                                before,
                                globals1,
                                last_model,
                                Err(e@),
                                parse,
                                calc,
                                show,
                                host,
                            ));
                            assert(evaluates_to(start, globals0, None, Err(e@), parse, calc, show, host));
                            assert(text_result_is(Err(e), Err(e@)));
                        }
                        Err(e)
                    },
                };
            },
            Err(e) => {
                proof {
                    assert(evaluates_to(before, globals1, last_model, Err(e@), parse, calc, show, host));
                    assert(evaluates_to(start, globals0, None, Err(e@), parse, calc, show, host));
                    assert(text_result_is(Err(e), Err(e@)));
                }
                return Err(e);
            },
        };
        let ghost rest = before.read(parse).0;
        let ghost globals2 = globals_model(scope.globals());
        proof {
            assert(globals2 =~= globals1 + no_values::<ValueModel>(rest.names.len() - before.names.len()));
        }
        let chunk = match compile(ast) {
            Ok(chunk) => chunk,
            Err(e) => {
                proof {
                    assert(evaluates_to(before, globals1, last_model, Err(e@), parse, calc, show, host));
                    assert(evaluates_to(start, globals0, None, Err(e@), parse, calc, show, host));
                    assert(text_result_is(Err(e), Err(e@)));
                }
                return Err(e);
            },
        };
        let ran_result = run(chunk, &mut scope, nums, natives);
        let ghost trace = choose|trace: Seq<Snapshot>|
            #[trigger] ran(
                trace,
                chunk@,
                globals2,
                result_model(ran_result),
                globals_model(scope.globals()),
                rest.names,
                calc,
                show,
                host,
            );
        let ghost globals3 = globals_model(scope.globals());
        match ran_result {
            Ok(v) => {
                proof {
                    assert forall|result: Result<Seq<char>, Seq<char>>|
                        evaluates_to(
                            rest,
                            globals3,
                            Some(v@),
                            result,
                            parse,
                            calc,
                            show,
                            host,
                        ) implies #[trigger] evaluates_to(
                        start,
                        globals0,
                        None,
                        result,
                        parse,
                        calc,
                        show,
                        host,
                    ) by {
                        assert(ran(
                            trace,
                            chunk@,
                            globals1 + no_values::<ValueModel>(rest.names.len() - before.names.len()),
                            Ok(v@),
                            globals3,
                            rest.names,
                            calc,
                            show,
                            host,
                        ));
                        assert(evaluates_to(
                            before,
                            globals1,
                            last_model,
                            result,
                            parse,
                            calc,
                            show,
                            host,
                        ));
                    }
                    last_model = Some(v@);
                }
                last = Some(v);
            },
            Err(e) => {
                proof {
                    assert(ran(
                        trace,
                        chunk@,
                        globals1 + no_values::<ValueModel>(rest.names.len() - before.names.len()),
                        Err(e@),
                        globals3,
                        rest.names,
                        calc,
                        show,
                        host,
                    ));
                    assert(evaluates_to(before, globals1, last_model, Err(e@), parse, calc, show, host));
                    assert(evaluates_to(start, globals0, None, Err(e@), parse, calc, show, host));
                    assert(text_result_is(Err(e), Err(e@)));
                }
                return Err(e);
            },
        }
    }
}

/// Whether evaluating `src` in a fresh environment gives the text `expected`.
pub fn test_exp<
    P: Fn(&str) -> Option<u64>,
    S: Fn(u64) -> String,
    A: Fn(Arith, u64, u64) -> u64,
    H: Fn(u32, &Vec<Value>) -> Result<Value, ZapErr>,
>(
    src: &str,
    expected: &str,
    nums: &Numbers<P, S, A>,
    natives: &Natives<H>,
) -> (ok: bool)
    requires
        nums.wf(),
        natives.wf(),
    ensures
        exists|result: Result<Seq<char>, Seq<char>>|
            #![trigger evaluates_to(source_forms(src@, crate::env::symbols::reserved_names()), no_values::<ValueModel>(crate::env::symbols::COUNT as int), None, result, nums.parser(), nums.calculator(), nums.printer(), natives.hosted())]
            {
                &&& ok == (result == Ok::<Seq<char>, Seq<char>>(expected@))
                &&& evaluates_to(
                    source_forms(src@, crate::env::symbols::reserved_names()),
                    no_values::<ValueModel>(crate::env::symbols::COUNT as int),
                    None,
                    result,
                    nums.parser(),
                    nums.calculator(),
                    nums.printer(),
                    natives.hosted(),
                )
            },
{
    let env = SandboxEnv::default();
    proof {
        assert(globals_model(env.globals()) =~= no_values::<ValueModel>(crate::env::symbols::COUNT as int));
    }
    let r = run_exp(src, env, nums, natives);
    let ghost result = choose|result: Result<Seq<char>, Seq<char>>|
        #![trigger text_result_is(r, result)]
        {
            &&& text_result_is(r, result)
            &&& evaluates_to(
                source_forms(src@, env.names()),
                globals_model(env.globals()),
                None,
                result,
                nums.parser(),
                nums.calculator(),
                nums.printer(),
                natives.hosted(),
            )
        };
    match r {
        Ok(text) => str_eq(text.as_str(), expected),
        Err(_) => false,
    }
}

} // verus!
