use zap::builtins;
use zap::builtins::{call_builtin, is_false, is_float, load, plus, Builtin, Natives};
use zap::env::symbols;
use zap::env::{Env, SandboxEnv};
use zap::numbers::{numbers_equal, Arith, Numbers};
use zap::text::{chars_eq, chars_of, push_decimal, push_str, str_eq, string_from_chars, ZapString};
use zap::zap::{error, error_msg, Value, ZapErr, ZapFnNative};

fn parse_number(text: &str) -> Option<u64> {
    text.parse::<f64>().ok().map(f64::to_bits)
}

fn show_number(bits: u64) -> String {
    format!("{}", f64::from_bits(bits))
}

fn compute(op: Arith, a: u64, b: u64) -> u64 {
    let (x, y) = (f64::from_bits(a), f64::from_bits(b));
    match op {
        Arith::Add => (x + y).to_bits(),
        Arith::Sub => (x - y).to_bits(),
        Arith::Mul => (x * y).to_bits(),
    }
}

type Host = Numbers<fn(&str) -> Option<u64>, fn(u64) -> String, fn(Arith, u64, u64) -> u64>;

fn host() -> Host {
    Numbers { parse: parse_number, show: show_number, arith: compute }
}

type HostNatives = Natives<fn(u32, &Vec<Value>) -> Result<Value, ZapErr>>;

fn call_native(id: u32, args: &Vec<Value>) -> Result<Value, ZapErr> {
    match (id, args.as_slice()) {
        (1, [Value::Number(bits)]) => Ok(Value::Number((f64::from_bits(*bits) * 2.0).to_bits())),
        (2, _) => Ok(Value::Number((args.len() as f64).to_bits())),
        _ => Err(ZapErr::Msg(format!("No native function #{}.", id))),
    }
}

fn natives() -> HostNatives {
    Natives { call: call_native }
}

fn num(x: f64) -> Value {
    Value::Number(x.to_bits())
}

fn text(s: &str) -> Value {
    Value::Str(ZapString::new(s))
}

fn message<T: std::fmt::Debug>(r: Result<T, ZapErr>) -> String {
    match r {
        Err(ZapErr::Msg(msg)) => msg,
        Ok(v) => panic!("an error was expected, not {:?}", v),
    }
}

#[test]
fn errors_carry_their_message() {
    assert_eq!(error_msg("oops"), ZapErr::Msg("oops".to_string()));
    assert_eq!(error("oops"), ZapErr::Msg("oops".to_string()));
}

#[test]
fn only_nil_and_false_are_falsy() {
    assert!(!Value::Nil.is_truthy());
    assert!(!Value::Bool(false).is_truthy());
    assert!(Value::Bool(true).is_truthy());
    assert!(num(0.0).is_truthy());
    assert!(text("").is_truthy());
    assert!(Value::Symbol(3).is_truthy());
    assert!(Value::List(Value::new_list(vec![])).is_truthy());
}

#[test]
fn atoms_compare_by_what_they_hold() {
    assert!(Value::Nil.eq(&Value::Nil));
    assert!(Value::Bool(true).eq(&Value::Bool(true)));
    assert!(!Value::Bool(true).eq(&Value::Bool(false)));
    assert!(num(1.5).eq(&num(1.5)));
    assert!(!num(1.5).eq(&num(2.5)));
    assert!(Value::Symbol(4).eq(&Value::Symbol(4)));
    assert!(!Value::Symbol(4).eq(&Value::Symbol(5)));
    assert!(text("a").eq(&text("a")));
    assert!(!text("a").eq(&text("b")));
    assert!(!Value::Nil.eq(&Value::Bool(false)));
    assert!(!num(0.0).eq(&text("0")));
}

#[test]
fn lists_compare_by_identity() {
    let a = Value::List(Value::new_list(vec![num(1.0)]));
    let b = Value::List(Value::new_list(vec![num(1.0)]));
    let a_again = a.clone();
    assert!(a.eq(&a_again));
    assert!(!a.eq(&b));
}

#[test]
fn numbers_compare_as_floats() {
    assert!(numbers_equal(0.0f64.to_bits(), (-0.0f64).to_bits()));
    assert!(!numbers_equal(f64::NAN.to_bits(), f64::NAN.to_bits()));
    assert!(numbers_equal(f64::INFINITY.to_bits(), f64::INFINITY.to_bits()));
    assert!(!numbers_equal(f64::INFINITY.to_bits(), f64::NEG_INFINITY.to_bits()));
    assert!(!numbers_equal(1.0f64.to_bits(), 1.0000000000000002f64.to_bits()));
    for (a, b) in [(1.5, 1.5), (1.5, -1.5), (0.0, 1e-320), (-0.0, 0.0), (f64::NAN, 1.0), (f64::MAX, f64::MAX)] {
        assert_eq!(numbers_equal(f64::to_bits(a), f64::to_bits(b)), a == b, "{} {}", a, b);
    }
}

#[test]
fn arithmetic_is_on_numbers() {
    let nums = host();
    assert!(num(1.5).add(&num(2.0), &nums).unwrap().eq(&num(3.5)));
    assert!(num(1.5).sub(&num(2.0), &nums).unwrap().eq(&num(-0.5)));
    assert!(num(1.5).mul(&num(2.0), &nums).unwrap().eq(&num(3.0)));
    assert!(num(7.0).arith(Arith::Sub, &num(2.0), &nums).unwrap().eq(&num(5.0)));
}

#[test]
fn arithmetic_on_anything_else_is_an_error() {
    let nums = host();
    assert_eq!(message(num(1.0).add(&text("a"), &nums)), "Can't add 1 + \"a\"");
    assert_eq!(message(Value::Nil.sub(&num(2.0), &nums)), "Can't substract nil - 2");
    assert_eq!(message(Value::Bool(true).mul(&Value::Symbol(3), &nums)), "Can't multiply true - Symbol#3");
}

#[test]
fn strings_keep_their_text() {
    let s = ZapString::new("héllo wörld, longer than an inline string can hold");
    assert_eq!(s.as_str(), "héllo wörld, longer than an inline string can hold");
    assert_eq!(s.to_std(), "héllo wörld, longer than an inline string can hold".to_string());
    assert_eq!(s.clone().as_str(), s.as_str());
    assert!(s.same_text(&s.clone()));
    assert!(!s.same_text(&ZapString::new("other")));
    assert!(ZapString::new("").same_text(&ZapString::new("")));
}

#[test]
fn text_helpers() {
    assert_eq!(chars_of("aé\n"), vec!['a', 'é', '\n']);
    assert_eq!(string_from_chars(&vec!['x', 'ß', '!']), "xß!");
    assert!(str_eq("abc", "abc"));
    assert!(!str_eq("abc", "abd"));
    assert!(!str_eq("abc", "ab"));
    assert!(chars_eq(&vec!['a'], &vec!['a']));
    assert!(!chars_eq(&vec!['a'], &vec![]));
    let mut out = vec!['#'];
    push_decimal(&mut out, 0);
    push_str(&mut out, ", ");
    push_decimal(&mut out, 7);
    push_str(&mut out, ", ");
    push_decimal(&mut out, 4294967295);
    assert_eq!(string_from_chars(&out), "#0, 7, 4294967295");
}

#[test]
fn a_fresh_environment_knows_the_reserved_symbols() {
    let env = SandboxEnv::default();
    let names = ["if", "let", "fn", "do", "def", "quote", "quasiquote", "unquote", "splice-unquote", "+", "="];
    for (id, name) in names.iter().enumerate() {
        assert_eq!(env.get_symbol(id as u32).unwrap().as_str(), *name);
        assert_eq!(symbols::reserved_name(id as u32), Some(*name));
    }
    assert_eq!(symbols::reserved_name(11), None);
    assert_eq!(symbols::COUNT, 11);
    assert_eq!((symbols::IF, symbols::LET, symbols::FN, symbols::DO, symbols::DEFINE), (0, 1, 2, 3, 4));
    assert_eq!((symbols::QUOTE, symbols::QUASIQUOTE, symbols::UNQUOTE, symbols::SPLICE_UNQUOTE), (5, 6, 7, 8));
    assert_eq!((symbols::PLUS, symbols::EQUAL), (9, 10));
    assert_eq!(message(env.get_symbol(11)), "No known symbol for id=11");
    assert_eq!(message(env.get_by_id(0)), "symbol 'if' not in scope.");
}

#[test]
fn registering_a_symbol_is_idempotent() {
    let mut env = SandboxEnv::empty();
    assert_eq!(message(env.get_symbol(0)), "No known symbol for id=0");
    let a = env.reg_symbol(ZapString::new("a")).unwrap();
    let b = env.reg_symbol(ZapString::new("b")).unwrap();
    let a_again = env.reg_symbol(ZapString::new("a")).unwrap();
    assert!(matches!(a, Value::Symbol(0)));
    assert!(matches!(b, Value::Symbol(1)));
    assert!(matches!(a_again, Value::Symbol(0)));
    assert_eq!(env.get_symbol(1).unwrap().as_str(), "b");
    assert_eq!(message(env.get_symbol(2)), "No known symbol for id=2");
}

#[test]
fn globals_are_set_and_found() {
    let mut env = SandboxEnv::default();
    let x = env.reg_symbol(ZapString::new("x")).unwrap();
    assert_eq!(message(env.get(&x)), "symbol 'x' not in scope.");
    env.set(&x, &Value::Bool(true)).unwrap();
    assert!(matches!(env.get(&x), Ok(Value::Bool(true))));
    assert!(matches!(env.get_by_id(11), Ok(Value::Bool(true))));
    env.set(&x, &Value::Nil).unwrap();
    assert!(matches!(env.get(&x), Ok(Value::Nil)));
    assert_eq!(message(env.set(&Value::Nil, &Value::Nil)), "Env set: only symbols can be used as keys.");
    assert_eq!(message(env.set(&Value::Symbol(500), &Value::Nil)), "No known symbol for id=500");
    assert_eq!(message(env.get(&Value::Nil)), "Only symbols can be used as keys in env.");
    assert_eq!(message(env.get_by_id(500)), "No known symbol for id=500");
}

#[test]
fn native_functions_are_registered_under_their_names() {
    let mut env = SandboxEnv::default();
    env.reg_fn("float?", Builtin::IsFloat).unwrap();
    match env.get_by_id(11).unwrap() {
        Value::FuncNative(f) => {
            assert_eq!(f.name.as_str(), "float?");
            assert_eq!(f.func, Builtin::IsFloat);
        }
        other => panic!("a native function was expected, not {:?}", other),
    }
    // The name `+` is reserved, so it keeps its identifier.
    env.reg_fn("+", Builtin::Plus).unwrap();
    assert!(matches!(env.get_by_id(symbols::PLUS), Ok(Value::FuncNative(_))));
    let native = ZapFnNative::new(ZapString::new("n"), Builtin::Concat);
    assert_eq!(native.name.as_str(), "n");
}

#[test]
fn the_standard_library_is_loaded() {
    let mut env = SandboxEnv::default();
    load(&mut env).unwrap();
    let expected = [
        ("+", Builtin::Plus),
        ("-", Builtin::Minus),
        ("*", Builtin::Times),
        ("=", Builtin::Equal),
        ("float?", Builtin::IsFloat),
        ("false?", Builtin::IsFalse),
        ("concat", Builtin::Concat),
    ];
    for (name, func) in expected {
        let symbol = env.reg_symbol(ZapString::new(name)).unwrap();
        match env.get(&symbol).unwrap() {
            Value::FuncNative(f) => {
                assert_eq!(f.name.as_str(), name);
                assert_eq!(f.func, func);
            }
            other => panic!("a native function was expected, not {:?}", other),
        }
    }
}

#[test]
fn loading_keeps_what_was_there_and_adds_the_new_names_in_order() {
    let mut env = SandboxEnv::default();
    let mine = env.reg_symbol(ZapString::new("mine")).unwrap();
    env.set(&mine, &num(7.0)).unwrap();
    env.reg_fn("concat", Builtin::Host(1)).unwrap();
    load(&mut env).unwrap();
    // `+` and `=` are reserved, `mine` and `concat` were known: the five
    // names that are new come after them, in the order of the library.
    let names = ["mine", "concat", "-", "*", "float?", "false?"];
    for (i, name) in names.iter().enumerate() {
        assert_eq!(env.get_symbol(symbols::COUNT + i as u32).unwrap().as_str(), *name);
    }
    assert!(env.get_symbol(symbols::COUNT + 6).is_err());
    assert!(env.get(&mine).unwrap().eq(&num(7.0)));
    match env.get_by_id(symbols::COUNT + 1).unwrap() {
        Value::FuncNative(f) => assert_eq!(f.func, Builtin::Concat),
        other => panic!("a native function was expected, not {:?}", other),
    }
    // Loading once more finds every name known.
    load(&mut env).unwrap();
    assert!(env.get_symbol(symbols::COUNT + 6).is_err());
    assert!(env.get(&mine).unwrap().eq(&num(7.0)));
}

#[test]
fn native_predicates() {
    assert!(matches!(is_float(&vec![num(1.0), num(2.0)]), Ok(Value::Bool(true))));
    assert!(matches!(is_float(&vec![num(1.0), Value::Nil]), Ok(Value::Bool(false))));
    assert_eq!(message(is_float(&vec![])), "'float?' requires at least 1 argument.");
    assert!(matches!(is_false(&vec![Value::Bool(false), Value::Bool(false)]), Ok(Value::Bool(true))));
    assert!(matches!(is_false(&vec![Value::Bool(false), Value::Nil]), Ok(Value::Bool(false))));
    assert_eq!(message(is_false(&vec![])), "'false?' requires at least 1 argument.");
}

#[test]
fn native_concat() {
    assert!(matches!(builtins::concat(&vec![text("a"), text(""), text("bc")]), Ok(Value::Str(s)) if s.as_str() == "abc"));
    assert_eq!(message(builtins::concat(&vec![])), "'concat' requires at least 1 argument.");
    assert_eq!(message(builtins::concat(&vec![text("a"), num(1.0)])), "'concat' can only concatenate strings.");
}

#[test]
fn native_arithmetic() {
    let nums = host();
    assert!(plus(&vec![], &nums).unwrap().eq(&num(0.0)));
    assert!(plus(&vec![num(4.0)], &nums).unwrap().eq(&num(4.0)));
    assert!(plus(&vec![num(1.0), num(2.0), num(3.5)], &nums).unwrap().eq(&num(6.5)));
    assert!(call_builtin(Builtin::Minus, &vec![num(10.0), num(2.0), num(3.0)], &nums, &natives()).unwrap().eq(&num(5.0)));
    assert!(call_builtin(Builtin::Times, &vec![num(10.0), num(2.0), num(3.0)], &nums, &natives()).unwrap().eq(&num(60.0)));
    assert_eq!(message(plus(&vec![num(1.0), Value::Nil, text("x")], &nums)), "Can't add 1 + nil");
    assert!(matches!(call_builtin(Builtin::Equal, &vec![num(1.0), num(1.0)], &nums, &natives()), Ok(Value::Bool(true))));
    assert!(matches!(call_builtin(Builtin::Equal, &vec![num(1.0), text("1")], &nums, &natives()), Ok(Value::Bool(false))));
    assert_eq!(message(call_builtin(Builtin::Equal, &vec![num(1.0)], &nums, &natives())), "'=' requires 2 arguments.");
    assert!(matches!(call_builtin(Builtin::IsFloat, &vec![num(1.0)], &nums, &natives()), Ok(Value::Bool(true))));
    assert!(matches!(call_builtin(Builtin::IsFalse, &vec![num(1.0)], &nums, &natives()), Ok(Value::Bool(false))));
    assert!(matches!(call_builtin(Builtin::Concat, &vec![text("a"), text("b")], &nums, &natives()), Ok(Value::Str(s)) if s.as_str() == "ab"));
    let one_two = call_builtin(Builtin::List, &vec![num(1.0), num(2.0)], &nums, &natives()).unwrap();
    assert_eq!(one_two.display(&nums), "(1 2)");
    assert_eq!(builtins::list_of(&vec![]).display(&nums), "()");
    let joined = call_builtin(Builtin::Join, &vec![one_two.clone(), builtins::list_of(&vec![]), one_two.clone()], &nums, &natives()).unwrap();
    assert_eq!(joined.display(&nums), "(1 2 1 2)");
    assert_eq!(builtins::join_lists(&vec![]).unwrap().display(&nums), "()");
    assert_eq!(message(builtins::join_lists(&vec![one_two, num(1.0)])), "cannot splice-unquote a non-sequence.");
}

#[test]
fn the_host_is_asked_for_numbers() {
    let nums = host();
    assert_eq!(nums.parse_number("2.5"), Some(2.5f64.to_bits()));
    assert_eq!(nums.parse_number("two"), None);
    assert_eq!(nums.show_number(2.5f64.to_bits()), "2.5");
    assert_eq!(nums.compute(Arith::Mul, 2.5f64.to_bits(), 2.0f64.to_bits()), 5.0f64.to_bits());
}

#[test]
fn a_native_of_the_host_is_asked_of_the_host() {
    let nums = host();
    let doubled = call_builtin(Builtin::Host(1), &vec![num(4.0)], &nums, &natives()).unwrap();
    assert!(doubled.eq(&num(8.0)));
    let counted = call_builtin(Builtin::Host(2), &vec![text("a"), Value::Nil], &nums, &natives()).unwrap();
    assert!(counted.eq(&num(2.0)));
    assert_eq!(
        message(call_builtin(Builtin::Host(3), &vec![], &nums, &natives())),
        "No native function #3."
    );
    let mut env = SandboxEnv::default();
    env.reg_fn("double", Builtin::Host(1)).unwrap();
    match env.get_by_id(11) {
        Ok(Value::FuncNative(f)) => assert_eq!(f.func, Builtin::Host(1)),
        other => panic!("a native function was expected, not {:?}", other),
    }
}
