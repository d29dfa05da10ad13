use std::sync::Arc;

use zap::compiler::{compile, is_const, Compiler, Outer};
use zap::env::SandboxEnv;
use zap::numbers::{Arith, Numbers};
use zap::reader::Reader;
use zap::text::ZapString;
use zap::vm::{Chunk, Op};
use zap::zap::{Value, ZapErr, ZapFn};

fn parse_number(text: &str) -> Option<u64> {
    text.parse::<f64>().ok().map(f64::to_bits)
}

fn show_number(bits: u64) -> String {
    format!("{}", f64::from_bits(bits))
}

fn compute(op: Arith, a: u64, b: u64) -> u64 {
    let (x, y) = (f64::from_bits(a), f64::from_bits(b));
    match op {
        Arith::Add => (x + y).to_bits(),
        Arith::Sub => (x - y).to_bits(),
        Arith::Mul => (x * y).to_bits(),
    }
}

type Host = Numbers<fn(&str) -> Option<u64>, fn(u64) -> String, fn(Arith, u64, u64) -> u64>;

fn host() -> Host {
    Numbers { parse: parse_number, show: show_number, arith: compute }
}

fn read(src: &str) -> Value {
    let nums = host();
    let mut env = SandboxEnv::default();
    let mut reader = Reader::new();
    reader.tokenize(src);
    reader.flush_token();
    reader.read_ast(&mut env, &nums).unwrap().unwrap()
}

fn compiled(src: &str) -> Arc<Chunk> {
    compile(read(src)).unwrap()
}

fn refused(src: &str) -> String {
    match compile(read(src)) {
        Err(ZapErr::Msg(msg)) => msg,
        Ok(chunk) => panic!("{} should not compile, but gave {:?}", src, chunk),
    }
}

fn is_plain(v: &Value) -> bool {
    matches!(v, Value::Nil | Value::Bool(_) | Value::Number(_) | Value::Symbol(_) | Value::Str(_))
}

/// Checks a chunk, and every function among its constants, and gives the
/// number of chunks checked.
fn check_chunk(chunk: &Chunk) -> usize {
    let len = chunk.ops.len();
    assert!(matches!(chunk.ops.last(), Some(Op::Return)), "the last instruction is Return");
    for (at, op) in chunk.ops.iter().enumerate() {
        match op {
            Op::Push(k) | Op::AddConst(k) | Op::EqConst(k) => assert!((*k as usize) < chunk.consts.len()),
            Op::Load(i) | Op::Store(i) => assert!((*i as usize) < chunk.scope_size),
            Op::Jmp(n) | Op::CondJmp(n) => assert!(at + 1 + (*n as usize) < len),
            _ => {}
        }
    }
    for (i, a) in chunk.consts.iter().enumerate() {
        for b in chunk.consts.iter().skip(i + 1) {
            assert!(!(is_plain(a) && is_plain(b) && a.eq(b)), "a constant occurs twice");
        }
    }
    let mut checked = 1;
    for c in chunk.consts.iter() {
        match c {
            Value::Func(f) => {
                assert_eq!(f.locals.len(), f.chunk.scope_size);
                checked += check_chunk(&f.chunk);
            }
            Value::Closure(c) => {
                for outer in c.outers.iter() {
                    assert!((outer.dest as usize) < c.chunk.scope_size);
                }
                checked += check_chunk(&c.chunk);
            }
            _ => {}
        }
    }
    checked
}

fn nested_function(chunk: &Chunk) -> Arc<Chunk> {
    for c in chunk.consts.iter() {
        match c {
            Value::Func(f) => return f.chunk.clone(),
            Value::Closure(c) => return c.chunk.clone(),
            _ => {}
        }
    }
    panic!("no function among the constants");
}

#[test]
fn an_atom_is_pushed() {
    let chunk = compiled("12");
    assert_eq!(chunk.ops, vec![Op::Push(0), Op::Return]);
    assert!(chunk.consts[0].eq(&Value::Number(12.0f64.to_bits())));
    assert_eq!(chunk.scope_size, 0);
    assert_eq!(chunk.arity, 0);
}

#[test]
fn a_global_symbol_is_looked_up() {
    assert_eq!(compiled("zz").ops, vec![Op::LookUp(11), Op::Return]);
}

#[test]
fn if_puts_jumps_around_its_branches() {
    // Not the last thing: the then-branch jumps over the else-branch.
    let chunk = compiled("(do (if x 10 (+ 20 1)) 1)");
    assert_eq!(
        chunk.ops,
        vec![
            Op::LookUp(11),
            Op::CondJmp(2),
            Op::Push(0),
            Op::Jmp(2),
            Op::Push(1),
            Op::AddConst(2),
            Op::Pop,
            Op::Push(2),
            Op::Return,
        ]
    );
    // The last thing: the then-branch returns.
    let chunk = compiled("(if x 10 20)");
    assert_eq!(
        chunk.ops,
        vec![Op::LookUp(11), Op::CondJmp(2), Op::Push(0), Op::Return, Op::Push(1), Op::Return]
    );
}

#[test]
fn do_drops_all_values_but_the_last() {
    assert_eq!(
        compiled("(do 1 2 3)").ops,
        vec![Op::Push(0), Op::Pop, Op::Push(1), Op::Pop, Op::Push(2), Op::Return]
    );
}

#[test]
fn def_pushes_the_symbol_and_defines() {
    let chunk = compiled("(def x 3)");
    assert_eq!(chunk.ops, vec![Op::Push(0), Op::Push(1), Op::Define, Op::Return]);
    assert!(matches!(chunk.consts[0], Value::Symbol(11)));
}

#[test]
fn equality_of_constants_is_folded() {
    let chunk = compiled("(= 1 2)");
    assert_eq!(chunk.ops, vec![Op::Push(0), Op::Return]);
    assert!(matches!(chunk.consts[0], Value::Bool(false)));
    let chunk = compiled("(= \"a\" \"a\")");
    assert!(matches!(chunk.consts[0], Value::Bool(true)));
}

#[test]
fn equality_with_one_constant_is_one_instruction() {
    assert_eq!(compiled("(= x 1)").ops, vec![Op::LookUp(11), Op::EqConst(0), Op::Return]);
    assert_eq!(compiled("(= 1 x)").ops, vec![Op::LookUp(11), Op::EqConst(0), Op::Return]);
    assert_eq!(compiled("(= x y)").ops, vec![Op::LookUp(12), Op::LookUp(11), Op::Eq, Op::Return]);
}

#[test]
fn sums_add_constants_directly() {
    assert_eq!(compiled("(+)").ops, vec![Op::Push(0), Op::Return]);
    assert_eq!(compiled("(+ x)").ops, vec![Op::LookUp(11), Op::Return]);
    assert_eq!(
        compiled("(+ x 1 y)").ops,
        vec![Op::LookUp(11), Op::AddConst(0), Op::LookUp(12), Op::Add, Op::Return]
    );
}

#[test]
fn calls_are_tail_calls_where_nothing_follows() {
    assert_eq!(
        compiled("(f 1 2)").ops,
        vec![Op::LookUp(11), Op::Push(0), Op::Push(1), Op::Tailcall(3), Op::Return]
    );
    assert_eq!(
        compiled("(f (g))").ops,
        vec![Op::LookUp(11), Op::LookUp(12), Op::Call(1), Op::Tailcall(2), Op::Return]
    );
    assert_eq!(
        compiled("(do (f) 1)").ops,
        vec![Op::LookUp(11), Op::Call(1), Op::Pop, Op::Push(0), Op::Return]
    );
    assert_eq!(
        compiled("(let (a 1) (f a))").ops,
        vec![Op::Push(0), Op::Store(0), Op::LookUp(12), Op::Load(0), Op::Tailcall(2), Op::Return]
    );
    // Inside a function the call is the last thing of the function, whatever follows the function.
    let inner = nested_function(&compiled("(do (fn (x) (f x)) 1)"));
    assert_eq!(inner.ops, vec![Op::LookUp(12), Op::Load(1), Op::Tailcall(2), Op::Return]);
}

#[test]
fn functions_keep_slot_zero_and_count_their_parameters() {
    let chunk = compiled("(fn (a b) b)");
    assert_eq!(chunk.ops, vec![Op::Push(0), Op::Return]);
    match &chunk.consts[0] {
        Value::Func(f) => {
            assert_eq!(f.chunk.ops, vec![Op::Load(2), Op::Return]);
            assert_eq!(f.chunk.arity, 2);
            assert_eq!(f.chunk.scope_size, 3);
            assert_eq!(f.locals.len(), 3);
            assert!(f.locals.iter().all(|v| matches!(v, Value::Nil)));
        }
        other => panic!("a function was expected, not {:?}", other),
    }
}

#[test]
fn locals_of_an_enclosing_scope_are_captured() {
    let chunk = compiled("(let (n 2) (fn (x) (+ x n n)))");
    assert_eq!(chunk.ops, vec![Op::Push(0), Op::Store(0), Op::Push(1), Op::Closure, Op::Return]);
    assert_eq!(chunk.scope_size, 1);
    match &chunk.consts[1] {
        Value::Closure(c) => {
            assert_eq!(c.outers, vec![Outer { level: 0, position: 0, dest: 2 }]);
            assert_eq!(c.chunk.ops, vec![Op::Load(1), Op::Load(2), Op::Add, Op::Load(2), Op::Add, Op::Return]);
            assert_eq!(c.chunk.scope_size, 3);
        }
        other => panic!("a closure was expected, not {:?}", other),
    }
    // Two scopes out.
    let outer = nested_function(&compiled("(fn (a) (fn (b) (fn (c) a)))"));
    let middle = nested_function(&outer);
    match &middle.consts[0] {
        // `a` lives in the scope of the outermost function, at depth 1: level 2.
        Value::Closure(c) => assert_eq!(c.outers, vec![Outer { level: 2, position: 1, dest: 2 }]),
        other => panic!("a closure was expected, not {:?}", other),
    }
    // One scope out, from a function at depth 1: level 2 as well.
    match &nested_function(&compiled("(fn (x) (fn () x))")).consts[0] {
        Value::Closure(c) => assert_eq!(c.outers, vec![Outer { level: 2, position: 1, dest: 1 }]),
        other => panic!("a closure was expected, not {:?}", other),
    }
}

#[test]
fn quoted_values_are_constants() {
    let chunk = compiled("'(a b)");
    assert_eq!(chunk.ops, vec![Op::Push(0), Op::Return]);
    assert!(matches!(&chunk.consts[0], Value::List(l) if l.len() == 2));
    let chunk = compiled("'x");
    assert!(matches!(chunk.consts[0], Value::Symbol(11)));
    let chunk = compiled("`(a (b) \"c\")");
    assert_eq!(chunk.ops, vec![Op::Push(0), Op::Return]);
    assert!(matches!(&chunk.consts[0], Value::List(l) if l.len() == 3));
    assert_eq!(compiled("`~b").ops, vec![Op::LookUp(11), Op::Return]);
    assert_eq!(compiled("()").ops, vec![Op::Push(0), Op::Return]);
}

#[test]
fn quasiquoted_lists_with_unquotes_are_built_at_run_time() {
    // The parts are joined: a list of one item for each item, the spliced list as it is.
    let chunk = compiled("`(1 ~x ~@y)");
    assert_eq!(
        chunk.ops,
        vec![
            Op::Push(0),
            Op::Push(1),
            Op::Push(2),
            Op::Call(2),
            Op::Push(3),
            Op::LookUp(11),
            Op::Call(2),
            Op::LookUp(12),
            Op::Tailcall(4),
            Op::Return,
        ]
    );
    assert!(matches!(&chunk.consts[0], Value::FuncNative(f) if f.name.as_str() == "join"));
    assert!(matches!(&chunk.consts[1], Value::FuncNative(f) if f.name.as_str() == "list"));
    assert_eq!(check_chunk(&chunk), 1);
    // An unquote further in makes the lists around it be built, the others stay constants.
    let chunk = compiled("(do `((1 2) (3 ~x)) 1)");
    assert!(chunk.ops.contains(&Op::Call(3)));
    assert!(chunk.consts.iter().any(|c| matches!(c, Value::List(l) if l.len() == 2)));
    assert_eq!(check_chunk(&chunk), 1);
    let items: String = (0..255).map(|i| format!("{} ", i)).collect();
    assert_eq!(
        refused(format!("`({} ~x)", items).as_str()),
        "A function cannot have more than 254 parameters."
    );
}

#[test]
fn atoms_and_strings_are_kept_once() {
    let chunk = compiled("(do 1 \"a\" 1 \"a\" nil nil true 2 'x 'x)");
    assert_eq!(chunk.consts.len(), 6);
    let chunk = compiled("(do () () '(1) '(1))");
    assert_eq!(chunk.consts.len(), 4);
}

#[test]
fn compiled_chunks_are_in_order() {
    let sources = [
        "1",
        "(if (= 1 2) 10 20)",
        "(do (if a (if b 1 2) (if c 3 4)) (if d 5 6))",
        "(let (n 2 f (fn (x) (+ x n))) (f 3))",
        "(def rec (fn (x) (if (= x 1000000) \"boom\" (rec (+ x 1)))))",
        "(let (same-maker (fn (x) (fn () x))) ((same-maker 4)))",
        "(fn (a b c) (let (d (+ a b) e (fn () (+ c d 1 1 \"s\" \"s\"))) (if (e) (do a b) `~c)))",
        "(+ 1 2 3 (+ 4 2))",
    ];
    let mut chunks = 0;
    for src in sources {
        chunks += check_chunk(&compiled(src));
    }
    assert_eq!(chunks, 14);
}

#[test]
fn malformed_special_forms_are_refused() {
    assert_eq!(refused("(if 1 2)"), "An if form must have 3 parameters");
    assert_eq!(refused("(if 1 2 3 4)"), "An if form must have 3 parameters");
    assert_eq!(refused("(do)"), "A do form must contains at least 1 parameter");
    assert_eq!(refused("(def x)"), "A def form must have 2 parameters");
    assert_eq!(refused("(fn (x))"), "A fn form must contains 2 parameters");
    assert_eq!(refused("(fn x x)"), "fn's first parameter must be a list");
    assert_eq!(refused("(fn (1) x)"), "Only symbols can be used as args in fn.");
    assert_eq!(refused("(let (x 1))"), "A let form must have 2 parameters");
    assert_eq!(refused("(let (x) x)"), "A binding must consist of a symbol and an expression");
    assert_eq!(refused("(let (1 2) x)"), "A binding must consist of a symbol and an expression");
    assert_eq!(refused("(let x x)"), "A binding must consist of a symbol and an expression");
    assert_eq!(refused("(= 1)"), "A = form must have 2 parameters");
    assert_eq!(refused("(quote)"), "A quote form must have 1 parameter");
    assert_eq!(refused("(quasiquote 1 2)"), "A quasiquote form must have 1 parameter");
    assert_eq!(refused("`~@x"), "Cannot splice-unquote out of a list.");
}

fn numbered_symbols(prefix: &str, n: usize) -> String {
    (0..n).map(|i| format!("{}{} ", prefix, i)).collect()
}

#[test]
fn too_many_parameters_are_refused() {
    let call = format!("(f {})", numbered_symbols("a", 255));
    assert_eq!(refused(call.as_str()), "A function cannot have more than 254 parameters.");
    let function = format!("(fn ({}) 1)", numbered_symbols("a", 255));
    assert_eq!(refused(function.as_str()), "A function cannot have more than 254 parameters.");
    let function = format!("(fn ({}) 1)", numbered_symbols("a", 254));
    assert_eq!(nested_function(&compiled(function.as_str())).scope_size, 255);
}

#[test]
fn too_many_locals_are_refused() {
    let bindings: String = (0..128).map(|i| format!("a{} {} ", i, i)).collect();
    let two_lets = format!("(let ({}) (let ({}) 1))", bindings, bindings);
    assert_eq!(check_chunk(&compiled(two_lets.as_str())), 1);
    assert_eq!(compiled(two_lets.as_str()).scope_size, 256);
    let three_lets = format!("(let ({}) (let ({}) (let (b 1) 1)))", bindings, bindings);
    assert_eq!(refused(three_lets.as_str()), "Too many locals in scope!");
}

/// A `do` of the expressions, nested so that no list is longer than a list
/// may be.
fn do_all(mut expressions: Vec<String>) -> String {
    while expressions.len() > 200 {
        expressions = expressions.chunks(200).map(|group| format!("(do {})", group.join(" "))).collect();
    }
    format!("(do {})", expressions.join(" "))
}

#[test]
fn too_many_constants_are_refused() {
    let fits = do_all((0..65536).map(|i| i.to_string()).collect());
    assert_eq!(compiled(fits.as_str()).consts.len(), 65536);
    let over = do_all((0..65537).map(|i| i.to_string()).collect());
    assert_eq!(refused(over.as_str()), "Too many constants in the constants table");
}

#[test]
fn too_long_branches_are_refused() {
    let long = do_all((0..40000).map(|_| "1".to_string()).collect());
    let then_too_long = format!("(do (if x {} 2) 3)", long);
    assert_eq!(refused(then_too_long.as_str()), "Then branch jump is too big.");
    let else_too_long = format!("(do (if x 2 {}) 3)", long);
    assert_eq!(refused(else_too_long.as_str()), "Else branch jump is too big.");
    // Where the `if` is the last thing, nothing jumps over the else-branch.
    let last = format!("(if x 2 {})", long);
    assert_eq!(check_chunk(&compiled(last.as_str())), 1);
}

#[test]
fn constants_are_anything_but_lists_and_symbols() {
    assert!(is_const(&Value::Nil));
    assert!(is_const(&Value::Str(ZapString::new("s"))));
    assert!(is_const(&ZapFn::new(0, Chunk { ops: vec![Op::Return], consts: vec![], scope_size: 0, arity: 0 })));
    assert!(!is_const(&Value::Symbol(1)));
    assert!(!is_const(&Value::List(Value::new_list(vec![]))));
}

#[test]
fn the_compiler_works_form_by_form() {
    let mut compiler = Compiler::init(Value::Nil);
    assert!(compiler.get_form().is_some());
    assert!(compiler.get_form().is_none());
    assert_eq!(compiler.get_const_idx(&Value::Bool(true)).unwrap(), 0);
    assert_eq!(compiler.get_const_idx(&Value::Nil).unwrap(), 1);
    assert_eq!(compiler.get_const_idx(&Value::Bool(true)).unwrap(), 0);
    assert_eq!(compiler.register_local(7).unwrap(), 0);
    assert_eq!(compiler.register_local(8).unwrap(), 1);
    assert_eq!(compiler.register_local(7).unwrap(), 2);
    assert_eq!(compiler.get_local(7), Some(2));
    assert_eq!(compiler.get_local(8), Some(1));
    assert_eq!(compiler.get_local(9), None);
    compiler.eval_symbol(8).unwrap();
    compiler.eval_symbol(9).unwrap();
    compiler.eval_const(&Value::Nil).unwrap();
    compiler.set_argc(3);
    compiler.apply();
    compiler.emit(Op::Pop);
    compiler.eval_add();
    compiler.eval_equal();
    compiler.eval_equal_const(1);
    compiler.eval_define();
    let chunk = compiler.chunk();
    assert_eq!(
        chunk.ops,
        vec![
            Op::Load(1),
            Op::LookUp(9),
            Op::Push(1),
            Op::Tailcall(3),
            Op::Pop,
            Op::Add,
            Op::Eq,
            Op::EqConst(1),
            Op::Define,
            Op::Return,
        ]
    );
    assert_eq!(chunk.scope_size, 3);
    assert_eq!(chunk.consts.len(), 2);
}
