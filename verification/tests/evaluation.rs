use zap::builtins::{load, Natives};
use zap::env::SandboxEnv;
use zap::numbers::{Arith, Numbers};
use zap::pipeline::{run_exp, test_exp};
use zap::vm::Op;
use zap::zap::{Value, ZapErr};

fn parse_number(text: &str) -> Option<u64> {
    text.parse::<f64>().ok().map(f64::to_bits)
}

fn show_number(bits: u64) -> String {
    format!("{}", f64::from_bits(bits))
}

fn compute(op: Arith, a: u64, b: u64) -> u64 {
    let (x, y) = (f64::from_bits(a), f64::from_bits(b));
    match op {
        Arith::Add => (x + y).to_bits(),
        Arith::Sub => (x - y).to_bits(),
        Arith::Mul => (x * y).to_bits(),
    }
}

type Host = Numbers<fn(&str) -> Option<u64>, fn(u64) -> String, fn(Arith, u64, u64) -> u64>;

fn host() -> Host {
    Numbers { parse: parse_number, show: show_number, arith: compute }
}

type HostNatives = Natives<fn(u32, &Vec<Value>) -> Result<Value, ZapErr>>;

fn call_native(id: u32, args: &Vec<Value>) -> Result<Value, ZapErr> {
    match (id, args.as_slice()) {
        (1, [Value::Number(bits)]) => Ok(Value::Number((f64::from_bits(*bits) * 2.0).to_bits())),
        (2, _) => Ok(Value::Number((args.len() as f64).to_bits())),
        _ => Err(ZapErr::Msg(format!("No native function #{}.", id))),
    }
}

fn natives() -> HostNatives {
    Natives { call: call_native }
}

fn check(src: &str, expected: &str) {
    assert!(test_exp(src, expected, &host(), &natives()), "{} should give {}", src, expected);
}

fn check_core(src: &str, expected: &str) {
    let mut env = SandboxEnv::default();
    load(&mut env).unwrap();
    assert_eq!(run_exp(src, env, &host(), &natives()).unwrap(), expected);
}

#[test]
fn op_size() {
    assert!(std::mem::size_of::<Op>() <= 8);
}

#[test]
fn value_size() {
    assert_eq!(std::mem::size_of::<Value>(), 32);
}

#[test]
fn eval_number() {
    check("1", "1");
}

#[test]
fn eval_string() {
    check("\"test\"", "\"test\"");
}

#[test]
fn eval_bool() {
    check("false", "false");
    check("true", "true");
}

#[test]
fn eval_empty_list() {
    check("()", "()");
}

#[test]
fn eval_if() {
    check("(if true 10 20)", "10");
    check("(if false 10 20)", "20");
    check("(if nil false true)", "true");
}

#[test]
fn eval_do() {
    check("(do 1 2 3)", "3");
}

#[test]
fn lookup_symbol() {
    let env = SandboxEnv::default();
    assert_eq!(
        run_exp("gg", env, &host(), &natives()),
        Err(ZapErr::Msg("symbol 'gg' not in scope.".to_string()))
    );
}

#[test]
fn eval_def() {
    check("(def x 3)", "3");
}

#[test]
fn eval_fn() {
    check("((fn (x) x) 4)", "4");
}

#[test]
fn add_numbers() {
    check("(+)", "0");
    check("(+ 8)", "8");
    check("(+ 1 2)", "3");
    check("(+ 1 2 2)", "5");
    check("(+ 1 2 3 (+ 4 2))", "12");
}

#[test]
fn eval_eq() {
    check("(= 1 2)", "false");
    check("(= nil false)", "false");
    check("(= false false)", "true");
}

#[test]
fn is_false() {
    check_core("(false? false)", "true");
    check_core("(false? nil)", "false");
    check_core("(false? 12)", "false");
    check_core("(false? true)", "false");
    check_core("(false? ())", "false");
    check_core("(false? (false? true))", "true");
}

#[test]
fn is_float() {
    check_core("(float? false)", "false");
    check_core("(float? nil)", "false");
    check_core("(float? \"test\")", "false");
    check_core("(float? 12)", "true");
    check_core("(float? true)", "false");
    check_core("(float? ())", "false");
}

#[test]
fn nested_sums_add_up() {
    check("(+ 1 2 3 (+ 4 2))", "12");
}

#[test]
fn if_takes_the_else_branch_on_unequal_numbers() {
    check("(if (= 1 2) 10 20)", "20");
}

#[test]
fn a_function_is_called_with_its_argument() {
    check("((fn (x) (+ x x x)) 12)", "36");
}

#[test]
fn a_function_sees_a_local_of_the_enclosing_let() {
    check("(let (n 2 f (fn (x) (+ x n))) (f 3))", "5");
}

#[test]
fn deep_tail_recursion_does_not_grow_the_stack() {
    check(
        "(def rec (fn (x) (if (= x 1000000) \"boom\" (rec (+ x 1))))) (rec 0)",
        "\"boom\"",
    );
}

#[test]
fn a_made_closure_keeps_its_argument() {
    check("(let (same-maker (fn (x) (fn () x))) ((same-maker 4)))", "4");
}

#[test]
fn closure_keeps_value_after_rebinding() {
    check("(let (n 2 f (fn () n) n 3) (f))", "2");
    check("(let (n 2 f (fn () n) n 3) (+ n (f)))", "5");
}
