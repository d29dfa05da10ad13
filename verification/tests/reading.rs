use zap::env::{Env, SandboxEnv};
use zap::numbers::{Arith, Numbers};
use zap::printer::escape_str;
use zap::reader::Reader;
use zap::text::ZapString;
use zap::zap::{Value, ZapErr};

fn parse_number(text: &str) -> Option<u64> {
    text.parse::<f64>().ok().map(f64::to_bits)
}

fn show_number(bits: u64) -> String {
    format!("{}", f64::from_bits(bits))
}

fn compute(op: Arith, a: u64, b: u64) -> u64 {
    let (x, y) = (f64::from_bits(a), f64::from_bits(b));
    match op {
        Arith::Add => (x + y).to_bits(),
        Arith::Sub => (x - y).to_bits(),
        Arith::Mul => (x * y).to_bits(),
    }
}

type Host = Numbers<fn(&str) -> Option<u64>, fn(u64) -> String, fn(Arith, u64, u64) -> u64>;

fn host() -> Host {
    Numbers { parse: parse_number, show: show_number, arith: compute }
}

/// Reads every form of the pieces, fed in order, and prints each form.
fn read_all(pieces: &[&str]) -> Result<Vec<String>, ZapErr> {
    let nums = host();
    let mut env = SandboxEnv::default();
    let mut reader = Reader::new();
    for piece in pieces {
        reader.tokenize(piece);
    }
    reader.flush_token();
    let mut forms = Vec::new();
    while let Some(form) = reader.read_ast(&mut env, &nums)? {
        forms.push(form.pr_str(&env, &nums));
    }
    Ok(forms)
}

fn read_one(src: &str) -> String {
    let forms = read_all(&[src]).unwrap();
    assert_eq!(forms.len(), 1, "{} should hold one form", src);
    forms[0].clone()
}

fn read_error(src: &str) -> String {
    match read_all(&[src]) {
        Err(ZapErr::Msg(msg)) => msg,
        Ok(forms) => panic!("{} should not read, but gave {:?}", src, forms),
    }
}

#[test]
fn atoms_are_read_as_their_values() {
    let nums = host();
    let mut env = SandboxEnv::default();
    let mut reader = Reader::new();
    reader.tokenize("nil true false 1.5 \"hi\" if fresh");
    reader.flush_token();
    let mut values = Vec::new();
    while let Some(v) = reader.read_ast(&mut env, &nums).unwrap() {
        values.push(v);
    }
    assert_eq!(values.len(), 7);
    assert!(matches!(values[0], Value::Nil));
    assert!(matches!(values[1], Value::Bool(true)));
    assert!(matches!(values[2], Value::Bool(false)));
    assert!(matches!(values[3], Value::Number(bits) if f64::from_bits(bits) == 1.5));
    assert!(matches!(&values[4], Value::Str(s) if s.as_str() == "hi"));
    assert!(matches!(values[5], Value::Symbol(0)));
    assert!(matches!(values[6], Value::Symbol(11)));
    assert_eq!(env.get_symbol(11).unwrap().as_str(), "fresh");
}

#[test]
fn lists_nest() {
    assert_eq!(read_one("(a (b c) () \"d\")"), "(a (b c) () \"d\")");
}

#[test]
fn separators_and_comments_are_dropped() {
    assert_eq!(read_all(&["a,b\tc\nd ; e f\n g"]).unwrap(), vec!["a", "b", "c", "d", "g"]);
}

#[test]
fn reader_macros_become_lists() {
    assert_eq!(read_one("'x"), "(quote x)");
    assert_eq!(read_one("`x"), "(quasiquote x)");
    assert_eq!(read_one("~x"), "(unquote x)");
    assert_eq!(read_one("~@x"), "(splice-unquote x)");
    assert_eq!(read_one("@x"), "(deref x)");
    assert_eq!(read_one("''x"), "(quote (quote x))");
    assert_eq!(read_one("'(a ~b)"), "(quote (a (unquote b)))");
    assert_eq!(read_one("(a 'b c)"), "(a (quote b) c)");
}

#[test]
fn string_escapes_are_resolved() {
    let nums = host();
    let mut env = SandboxEnv::default();
    let mut reader = Reader::new();
    reader.tokenize("\"a\\nb\\tc\\rd\\0e\\\\f\\\"g\\xh\"");
    let value = reader.read_ast(&mut env, &nums).unwrap().unwrap();
    assert!(matches!(&value, Value::Str(s) if s.as_str() == "a\nb\tc\rd\0e\\f\"gxh"));
}

#[test]
fn an_open_form_waits_for_more_text() {
    let nums = host();
    let mut env = SandboxEnv::default();
    let mut reader = Reader::new();
    reader.tokenize("(1 (2");
    assert!(reader.read_ast(&mut env, &nums).unwrap().is_none());
    reader.tokenize(" 3) 4");
    assert!(reader.read_ast(&mut env, &nums).unwrap().is_none());
    reader.tokenize(")");
    let value = reader.read_ast(&mut env, &nums).unwrap().unwrap();
    assert_eq!(value.pr_str(&env, &nums), "(1 (2 3) 4)");
    assert!(reader.read_form(&mut env, &nums).unwrap().is_none());
}

#[test]
fn a_pending_atom_needs_a_flush() {
    let nums = host();
    let mut env = SandboxEnv::default();
    let mut reader = Reader::new();
    reader.tokenize("12");
    assert!(reader.read_ast(&mut env, &nums).unwrap().is_none());
    reader.flush_token();
    let value = reader.read_ast(&mut env, &nums).unwrap().unwrap();
    assert_eq!(value.pr_str(&env, &nums), "12");
}

#[test]
fn misplaced_closing_parens_are_errors() {
    assert_eq!(read_error(")"), "A form cannot begin with ')'");
    assert_eq!(read_error("')"), "Cannot quote a ')'");
    assert_eq!(read_error("`)"), "Cannot quasiquote a ')'");
    assert_eq!(read_error("~)"), "Cannot unquote a ')'");
    assert_eq!(read_error("~@)"), "Cannot splice-unquote a ')'");
    assert_eq!(read_error("@)"), "Cannot deref a ')'");
}

#[test]
fn an_error_gives_up_the_open_forms_and_keeps_the_tokens() {
    let nums = host();
    let mut env = SandboxEnv::default();
    let mut reader = Reader::new();
    reader.tokenize("(a ') b) c ");
    assert!(reader.read_ast(&mut env, &nums).is_err());
    // The open list is gone: `b` is a form of its own, the `)` behind it begins none.
    let value = reader.read_ast(&mut env, &nums).unwrap().unwrap();
    assert_eq!(value.pr_str(&env, &nums), "b");
    assert!(reader.read_ast(&mut env, &nums).is_err());
    let value = reader.read_ast(&mut env, &nums).unwrap().unwrap();
    assert_eq!(value.pr_str(&env, &nums), "c");
}

#[test]
fn lines_are_counted() {
    let mut reader = Reader::new();
    assert_eq!(reader.line(), 0);
    reader.tokenize("a\n\"b\nc\" ; d\n");
    assert_eq!(reader.line(), 3);
    reader.tokenize("\n");
    assert_eq!(reader.line(), 4);
}

#[test]
fn every_split_in_two_reads_the_same() {
    let src = "(def f (fn (x) `(~x ~@y 'z @w \"a\\nb\\\\\" 1.5))) ; note\n(+ 1 2) ~ tail^x";
    let whole = read_all(&[src]).unwrap();
    assert_eq!(whole.len(), 3);
    assert_eq!(whole[2], "(unquote tail^x)");
    for (at, _) in src.char_indices() {
        let (a, b) = src.split_at(at);
        assert_eq!(read_all(&[a, b]).unwrap(), whole, "split at {}", at);
    }
}

#[test]
fn every_character_on_its_own_reads_the_same() {
    let src = "(a \"b\\n\\\\\" ~@c ~d ;e\n 'f)\"g";
    let whole = read_all(&[src]).unwrap();
    let pieces: Vec<String> = src.chars().map(|c| c.to_string()).collect();
    let pieces: Vec<&str> = pieces.iter().map(|s| s.as_str()).collect();
    assert_eq!(read_all(&pieces).unwrap(), whole);
}

#[test]
fn printing_and_reading_again_gives_the_same() {
    for src in ["nil", "true", "false", "12", "-0.5", "sym", "\"a\\\"b\\\\c\\nd\"", "()", "(a (b \"c\") 1 nil)"] {
        let printed = read_one(src);
        assert_eq!(read_one(printed.as_str()), printed, "{}", src);
    }
}

#[test]
fn escape_str_escapes_quotes_backslashes_and_line_ends() {
    assert_eq!(escape_str("a\"b\\c\nd\te"), "a\\\"b\\\\c\\nd\te");
    assert_eq!(escape_str(""), "");
}

#[test]
fn escaped_text_has_no_line_end_and_no_bare_quote() {
    for s in ["\"", "\\\"", "\\\\\"", "a\nb\"c\\", "\\n\n", "plain text", ""] {
        let out: Vec<char> = escape_str(s).chars().collect();
        assert!(!out.contains(&'\n'));
        for i in 0..out.len() {
            if out[i] == '"' {
                let run = out[..i].iter().rev().take_while(|c| **c == '\\').count();
                assert_eq!(run % 2, 1);
            }
        }
        let run = out.iter().rev().take_while(|c| **c == '\\').count();
        assert_eq!(run % 2, 0);
    }
    assert_eq!(escape_str("plain text"), "plain text");
}

#[test]
fn a_written_string_is_read_as_it_was() {
    let nums = host();
    let mut env = SandboxEnv::default();
    for s in ["\"", "\\", "a\nb\"c\\", "\\n", "two words", ""] {
        let written = Value::Str(ZapString::new(s)).pr_str(&env, &nums);
        let mut reader = Reader::new();
        reader.tokenize(&written);
        reader.flush_token();
        match reader.read_ast(&mut env, &nums) {
            Ok(Some(Value::Str(back))) => assert_eq!(back.as_str(), s),
            other => panic!("unexpected: {:?}", other),
        }
        assert!(matches!(reader.read_ast(&mut env, &nums), Ok(None)));
    }
}

#[test]
fn symbols_print_by_name_or_by_identifier() {
    let nums = host();
    let mut env = SandboxEnv::default();
    let known = env.reg_symbol(ZapString::new("known")).unwrap();
    assert_eq!(known.pr_str(&env, &nums), "known");
    assert_eq!(known.display(&nums), "Symbol#11");
    assert_eq!(known.to_string(&env, &nums), "Symbol#11");
    assert_eq!(Value::Symbol(99).pr_str(&env, &nums), "Symbol#99");
    let list = Value::List(Value::new_list(vec![known, Value::Str(ZapString::new("s\n")), Value::Nil]));
    assert_eq!(list.pr_str(&env, &nums), "(known \"s\\n\" nil)");
    assert_eq!(list.display(&nums), "(Symbol#11 \"s\\n\" nil)");
}
