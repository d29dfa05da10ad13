use std::sync::Arc;

use zap::builtins::{load, Builtin, Natives};
use zap::compiler::Outer;
use zap::env::{Env, SandboxEnv};
use zap::numbers::{Arith, Numbers};
use zap::pipeline::{run_exp, test_exp};
use zap::text::ZapString;
use zap::vm::{run, CallFrame, Chunk, Op, VmState};
use zap::zap::{Closure, Value, ZapErr, ZapFn};

fn parse_number(text: &str) -> Option<u64> {
    text.parse::<f64>().ok().map(f64::to_bits)
}

fn show_number(bits: u64) -> String {
    format!("{}", f64::from_bits(bits))
}

fn compute(op: Arith, a: u64, b: u64) -> u64 {
    let (x, y) = (f64::from_bits(a), f64::from_bits(b));
    match op {
        Arith::Add => (x + y).to_bits(),
        Arith::Sub => (x - y).to_bits(),
        Arith::Mul => (x * y).to_bits(),
    }
}

type Host = Numbers<fn(&str) -> Option<u64>, fn(u64) -> String, fn(Arith, u64, u64) -> u64>;

fn host() -> Host {
    Numbers { parse: parse_number, show: show_number, arith: compute }
}

type HostNatives = Natives<fn(u32, &Vec<Value>) -> Result<Value, ZapErr>>;

fn call_native(id: u32, args: &Vec<Value>) -> Result<Value, ZapErr> {
    match (id, args.as_slice()) {
        (1, [Value::Number(bits)]) => Ok(Value::Number((f64::from_bits(*bits) * 2.0).to_bits())),
        (2, _) => Ok(Value::Number((args.len() as f64).to_bits())),
        _ => Err(ZapErr::Msg(format!("No native function #{}.", id))),
    }
}

fn natives() -> HostNatives {
    Natives { call: call_native }
}

fn num(x: f64) -> Value {
    Value::Number(x.to_bits())
}

fn evaluate(src: &str) -> Result<String, ZapErr> {
    let mut env = SandboxEnv::default();
    load(&mut env).unwrap();
    run_exp(src, env, &host(), &natives())
}

fn gives(src: &str, expected: &str) {
    assert_eq!(evaluate(src), Ok(expected.to_string()), "{}", src);
}

fn fails(src: &str, expected: &str) {
    assert_eq!(evaluate(src), Err(ZapErr::Msg(expected.to_string())), "{}", src);
}

fn chunk(ops: Vec<Op>, consts: Vec<Value>, scope_size: usize) -> Arc<Chunk> {
    Arc::new(Chunk { ops, consts, scope_size, arity: 0 })
}

fn run_chunk(ops: Vec<Op>, consts: Vec<Value>, scope_size: usize) -> Result<String, ZapErr> {
    let nums = host();
    let mut env = SandboxEnv::default();
    let value = run(chunk(ops, consts, scope_size), &mut env, &nums, &natives())?;
    Ok(value.display(&nums))
}

fn invalid(ops: Vec<Op>, consts: Vec<Value>, scope_size: usize) {
    assert_eq!(run_chunk(ops, consts, scope_size), Err(ZapErr::Msg("Invalid bytecode.".to_string())));
}

#[test]
fn test_exp_tells_whether_the_text_is_as_expected() {
    assert!(test_exp("(+ 1 2)", "3", &host(), &natives()));
    assert!(!test_exp("(+ 1 2)", "4", &host(), &natives()));
    assert!(!test_exp("(+ 1 nil)", "3", &host(), &natives()));
}

#[test]
fn an_empty_source_has_nothing_to_evaluate() {
    fails("", "No form to evaluate.");
    fails("  ; only a comment\n", "No form to evaluate.");
}

#[test]
fn the_value_of_the_last_form_is_the_result() {
    gives("1 2 3", "3");
    gives("(def a 5) (def b (+ a 1)) (+ a b)", "11");
}

#[test]
fn everything_but_nil_and_false_selects_the_then_branch() {
    gives("(if nil 1 2)", "2");
    gives("(if false 1 2)", "2");
    gives("(if true 1 2)", "1");
    gives("(if 0 1 2)", "1");
    gives("(if \"\" 1 2)", "1");
    gives("(if () 1 2)", "1");
    gives("(if 'x 1 2)", "1");
    gives("(if (fn () nil) 1 2)", "1");
    gives("(if (= 1 1) 1 2)", "1");
    gives("(def n nil) (if n 1 2)", "2");
}

#[test]
fn nested_ifs() {
    gives("(def a true) (def b false) (+ (if a (if b 1 2) 3) (if b 10 (if a 20 30)))", "22");
    gives("(def a true) (do (if a 1 2) (if a 3 4))", "3");
}

#[test]
fn definitions_are_seen_by_later_forms() {
    gives("(def x 3) x", "3");
    gives("(def x 3) (def x 4) x", "4");
    gives("(def f (fn (a b) (+ a b))) (f 1 2)", "3");
    fails("(def 1 2)", "Env set: only symbols can be used as keys.");
}

#[test]
fn definitions_made_before_an_error_stay() {
    let nums = host();
    let mut env = SandboxEnv::default();
    let x = env.reg_symbol(ZapString::new("x")).unwrap();
    let defines_then_fails = chunk(
        vec![Op::Push(0), Op::Push(1), Op::Define, Op::Pop, Op::Push(1), Op::Push(2), Op::Add, Op::Return],
        vec![x.clone(), num(1.0), Value::Nil],
        0,
    );
    assert_eq!(run(defines_then_fails, &mut env, &nums, &natives()).err(), Some(ZapErr::Msg("Can't add nil + 1".to_string())));
    assert!(env.get(&x).unwrap().eq(&num(1.0)));
}

#[test]
fn let_binds_in_order() {
    gives("(let (a 1 b (+ a 1) c (+ a b)) (+ a b c))", "6");
    gives("(let (a 1) (let (a 2 b a) (+ a b)))", "4");
    gives("(def a 10) (let (a (+ a 1)) a)", "11");
}

#[test]
fn functions_take_their_arguments() {
    gives("((fn () 7))", "7");
    gives("((fn (a b c) (+ a (+ b b) (+ c c c))) 1 2 3)", "14");
    gives("((fn (a b) b) 1)", "nil");
    gives("(def twice (fn (f x) (f (f x)))) (twice (fn (n) (+ n n)) 3)", "12");
    gives("(fn (x) x)", "Func<>");
}

#[test]
fn recursion_that_is_not_in_tail_position() {
    gives("(def sum (fn (n) (if (= n 0) 0 (+ n (sum (+ n -1)))))) (sum 100)", "5050");
    gives("(def fib (fn (n) (if (= n 0) 0 (if (= n 1) 1 (+ (fib (+ n -1)) (fib (+ n -2))))))) (fib 15)", "610");
}

#[test]
fn a_call_gives_the_same_in_and_out_of_tail_position() {
    let shared = "(def inc (fn (x) (+ x 1))) (def keep (fn (r) r)) ";
    // In tail position, and as an operand, after which the function returns.
    let tail = "(def f (fn (x) (if (= x 0) (inc 10) (inc x)))) ";
    let called = "(def f (fn (x) (if (= x 0) (keep (inc 10)) (keep (inc x))))) ";
    for argument in ["0", "5"] {
        let fast = evaluate(format!("{}{}(f {})", shared, tail, argument).as_str());
        let slow = evaluate(format!("{}{}(f {})", shared, called, argument).as_str());
        assert!(fast.is_ok());
        assert_eq!(fast, slow);
    }
    gives("(def loop (fn (n acc) (if (= n 0) acc (loop (+ n -1) (+ acc n))))) (loop 1000 0)", "500500");
    gives("(def loop (fn (n acc) (if (= n 0) acc (keep (loop (+ n -1) (+ acc n)))))) (def keep (fn (r) r)) (loop 1000 0)", "500500");
}

#[test]
fn mutual_tail_recursion() {
    gives(
        "(def even (fn (n) (if (= n 0) true (odd (+ n -1))))) (def odd (fn (n) (if (= n 0) false (even (+ n -1))))) (even 100001)",
        "false",
    );
}

#[test]
fn closures_capture_values() {
    gives("(let (a 1 b 2) ((fn (x) (+ a b x)) 3))", "6");
    gives("(def adder (fn (n) (fn (x) (+ x n)))) (def add2 (adder 2)) (def add5 (adder 5)) (+ (add2 1) (add5 1))", "9");
    gives("(let (n 1 f (fn () n) n 2 g (fn () n)) (+ (f) (+ (g) (g))))", "5");
}

#[test]
fn native_functions_are_called() {
    gives("(concat \"a\" \"b\" \"c\")", "\"abc\"");
    gives("(- 10 1 2)", "7");
    gives("(* 2 3 4)", "24");
    gives("(float? 1 2)", "true");
    gives("(do (float? 1) (false? false))", "true");
    gives("((fn (f) (f 2 2)) =)", "true");
    gives("((fn (f) (f 1 2 3)) +)", "6");
    gives("(def l '(1)) ((fn (f a) (f a a)) = l)", "true");
    gives("((fn (f) (f '(1) '(1))) =)", "false");
    gives("(if (float? 1) (concat \"y\") (concat \"n\"))", "\"y\"");
    gives("concat", "FuncNative<concat>");
    fails("(concat 1)", "'concat' can only concatenate strings.");
    fails("(float?)", "'float?' requires at least 1 argument.");
    fails("(- 1 \"a\")", "Can't substract 1 - \"a\"");
}

#[test]
fn equality_at_run_time() {
    gives("(def x 1) (= x 1)", "true");
    gives("(def x 1) (= 2 x)", "false");
    gives("(def x \"a\") (def y \"a\") (= x y)", "true");
    gives("(def x '(1)) (= x x)", "true");
    gives("(def x '(1)) (def y '(1)) (= x y)", "false");
    gives("(def f (fn () 1)) (= f f)", "true");
}

#[test]
fn sums_at_run_time() {
    gives("(def x 1.5) (+ x 1 x)", "4");
    fails("(def x nil) (+ x 1)", "Can't add nil + 1");
    fails("(def x 1) (def y \"s\") (+ x y)", "Can't add \"s\" + 1");
}

#[test]
fn quoting() {
    // The standard library has taken the identifiers 11 to 15.
    gives("'(a 1 \"s\")", "(Symbol#16 1 \"s\")");
    gives("(quote x)", "Symbol#16");
    gives("`(1 x)", "(1 Symbol#16)");
    gives("(def x 5) `~x", "5");
    gives("(def x 5) `(1 ~x)", "(1 5)");
    gives("(def x 5) `(1 (2 ~(+ x 1)) \"s\" ())", "(1 (2 6) \"s\" ())");
    gives("(def l '(2 3)) `(1 ~@l 4)", "(1 2 3 4)");
    gives("(def l '(2 3)) `(~@l ~@l)", "(2 3 2 3)");
    gives("(def l '()) `(~@l)", "()");
    gives("(def f (fn (a b) `(~a (~@b) ~a))) (f 1 '(2 3))", "(1 (2 3) 1)");
    gives("(def x 5) (+ 1 (if `(~x) 1 2))", "2");
    fails("(def x 5) `(1 ~@x)", "cannot splice-unquote a non-sequence.");
    fails("`(1 ~y)", "symbol 'y' not in scope.");
    fails("`~@x", "Cannot splice-unquote out of a list.");
}

#[test]
fn run_time_errors() {
    fails("gg", "symbol 'gg' not in scope.");
    fails("(1 2)", "Cannot call a non-function");
    fails("(nil)", "Cannot call a non-function");
    fails("((fn (x) (x)) \"s\")", "Cannot call a non-function");
    fails("(do (undefined) 1)", "symbol 'undefined' not in scope.");
    fails("~x", "symbol 'unquote' not in scope.");
}

#[test]
fn hand_made_chunks_run() {
    assert_eq!(run_chunk(vec![Op::Push(0), Op::Return], vec![num(4.0)], 0), Ok("4".to_string()));
    assert_eq!(
        run_chunk(vec![Op::Push(0), Op::Store(1), Op::Load(1), Op::Load(0), Op::Pop, Op::Return], vec![num(4.0)], 2),
        Ok("4".to_string())
    );
    assert_eq!(
        run_chunk(vec![Op::Push(0), Op::Jmp(1), Op::Push(1), Op::Return], vec![num(1.0), num(2.0)], 0),
        Ok("1".to_string())
    );
    assert_eq!(
        run_chunk(vec![Op::Push(0), Op::Push(1), Op::Eq, Op::Return], vec![num(1.0), num(1.0)], 0),
        Ok("true".to_string())
    );
    assert_eq!(
        run_chunk(vec![Op::Push(0), Op::Closure, Op::Return], vec![Value::Nil], 0),
        Err(ZapErr::Msg("A Closure was expected at the top of the stack.".to_string()))
    );
}

#[test]
fn chunks_that_lead_out_of_bounds_are_refused() {
    invalid(vec![], vec![], 0);
    invalid(vec![Op::Push(0)], vec![num(1.0)], 0);
    invalid(vec![Op::Push(1), Op::Return], vec![num(1.0)], 0);
    invalid(vec![Op::Pop, Op::Return], vec![], 0);
    invalid(vec![Op::Return], vec![], 0);
    invalid(vec![Op::Load(0), Op::Return], vec![], 0);
    invalid(vec![Op::Push(0), Op::Store(0), Op::Return], vec![num(1.0)], 0);
    invalid(vec![Op::Store(0), Op::Return], vec![], 0);
    invalid(vec![Op::Define, Op::Return], vec![], 1);
    invalid(vec![Op::Jmp(5), Op::Return], vec![], 1);
    invalid(vec![Op::CondJmp(1), Op::Return], vec![], 0);
    invalid(vec![Op::Load(0), Op::CondJmp(9), Op::Return], vec![], 1);
    invalid(vec![Op::Add, Op::Return], vec![], 1);
    invalid(vec![Op::AddConst(0), Op::Return], vec![], 1);
    invalid(vec![Op::Eq, Op::Return], vec![], 1);
    invalid(vec![Op::EqConst(3), Op::Return], vec![], 1);
    invalid(vec![Op::Closure, Op::Return], vec![], 0);
    invalid(vec![Op::Call(0), Op::Return], vec![], 1);
    invalid(vec![Op::Call(2), Op::Return], vec![], 1);
    invalid(vec![Op::Tailcall(0), Op::Return], vec![], 1);
    invalid(vec![Op::Tailcall(3), Op::Return], vec![], 1);
}

#[test]
fn a_closure_copies_its_captures_from_the_stack() {
    let body = Arc::new(Chunk { ops: vec![Op::Load(1), Op::Return], consts: vec![], scope_size: 2, arity: 0 });
    let stack = vec![num(10.0), num(20.0), num(30.0)];
    let no_frames: Vec<CallFrame> = Vec::new();
    // Level 0 is counted from the bottom of the stack.
    let bottom = Closure { outers: vec![Outer { level: 0, position: 1, dest: 1 }], chunk: body.clone() };
    match ZapFn::from_closure(&bottom, &no_frames, &stack).unwrap() {
        Value::Func(f) => {
            assert_eq!(f.locals.len(), 2);
            assert!(matches!(f.locals[0], Value::Nil));
            assert!(f.locals[1].eq(&num(20.0)));
            assert!(Arc::ptr_eq(&f.chunk, &body));
        }
        other => panic!("a function was expected, not {:?}", other),
    }
    // Level 1 is counted from where the outermost frame begins, level 2 from the next.
    let frames = vec![Chunk::get_callframe(&body, 0), Chunk::get_callframe(&body, 1)];
    assert_eq!(frames[1].get_ret(), 1);
    let outermost = Closure { outers: vec![Outer { level: 1, position: 0, dest: 0 }], chunk: body.clone() };
    assert!(matches!(ZapFn::from_closure(&outermost, &frames, &stack).unwrap(), Value::Func(f) if f.locals[0].eq(&num(10.0))));
    let next = Closure { outers: vec![Outer { level: 2, position: 0, dest: 0 }], chunk: body.clone() };
    assert!(matches!(ZapFn::from_closure(&next, &frames, &stack).unwrap(), Value::Func(f) if f.locals[0].eq(&num(20.0))));
    let both = Closure {
        outers: vec![Outer { level: 2, position: 1, dest: 0 }, Outer { level: 0, position: 0, dest: 1 }],
        chunk: body.clone(),
    };
    assert!(matches!(ZapFn::from_closure(&both, &frames, &stack).unwrap(), Value::Func(f) if f.locals[0].eq(&num(30.0)) && f.locals[1].eq(&num(10.0))));
    // A level that leads out of the frames, a position out of the stack, a slot out of the scope.
    let up = Closure { outers: vec![Outer { level: 3, position: 0, dest: 0 }], chunk: body.clone() };
    assert!(ZapFn::from_closure(&up, &frames, &stack).is_err());
    assert!(ZapFn::from_closure(&outermost, &no_frames, &stack).is_err());
    let far = Closure { outers: vec![Outer { level: 0, position: 3, dest: 0 }], chunk: body.clone() };
    assert!(ZapFn::from_closure(&far, &no_frames, &stack).is_err());
    let wide = Closure { outers: vec![Outer { level: 0, position: 0, dest: 2 }], chunk: body };
    assert!(ZapFn::from_closure(&wide, &no_frames, &stack).is_err());
    let made = ZapFn::new_closure(vec![], Chunk { ops: vec![Op::Return], consts: vec![], scope_size: 0, arity: 0 });
    assert!(matches!(made, Value::Closure(_)));
}

#[test]
fn captures_are_found_by_counting_frames() {
    // The function that makes the closure runs at the depth at which it was written.
    gives("(def adder (fn (n) (fn (x) (+ x n)))) (def add2 (adder 2)) (add2 40)", "42");
    gives("(def f (fn (a) (+ 0 ((fn (b) ((fn (c) a) 2)) 1)))) (+ 0 (f 7))", "7");
    // As the last thing of the top level it runs in the place of the top level:
    // the frame that the capture counts on is not there.
    fails("(def adder (fn (n) (fn (x) (+ x n)))) (adder 2)", "Invalid bytecode.");
}

#[test]
fn the_machine_starts_with_empty_slots() {
    let vm = VmState::new(&chunk(vec![Op::Return], vec![], 3));
    let _ = vm;
    assert_eq!(run_chunk(vec![Op::Load(2), Op::Return], vec![], 3), Ok("nil".to_string()));
}

fn evaluate_with_natives(src: &str) -> Result<String, ZapErr> {
    let mut env = SandboxEnv::default();
    load(&mut env).unwrap();
    env.reg_fn("double", Builtin::Host(1)).unwrap();
    env.reg_fn("count", Builtin::Host(2)).unwrap();
    env.reg_fn("missing", Builtin::Host(9)).unwrap();
    run_exp(src, env, &host(), &natives())
}

#[test]
fn the_host_registers_native_functions_of_its_own() {
    assert_eq!(evaluate_with_natives("(double 21)"), Ok("42".to_string()));
    assert_eq!(evaluate_with_natives("(+ 1 (double 4))"), Ok("9".to_string()));
    assert_eq!(evaluate_with_natives("(count 7 8 9)"), Ok("3".to_string()));
    assert_eq!(evaluate_with_natives("(count)"), Ok("0".to_string()));
    assert_eq!(evaluate_with_natives("((fn (x) (double x)) 5)"), Ok("10".to_string()));
    assert_eq!(evaluate_with_natives("(let (twice double) (twice (twice 3)))"), Ok("12".to_string()));
    assert_eq!(evaluate_with_natives("double"), Ok("FuncNative<double>".to_string()));
}

#[test]
fn what_the_host_refuses_ends_the_run() {
    assert_eq!(
        evaluate_with_natives("(double nil)"),
        Err(ZapErr::Msg("No native function #1.".to_string()))
    );
    assert_eq!(
        evaluate_with_natives("(+ 1 (missing 1))"),
        Err(ZapErr::Msg("No native function #9.".to_string()))
    );
}
