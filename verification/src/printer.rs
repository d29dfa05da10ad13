//! The printer: the text of a value.

use vstd::prelude::*;
use crate::env::Env;
use crate::numbers::{Arith, Numbers};
use crate::text::{chars_of, decimal, push_decimal, push_str, string_from_chars};
use crate::zap::{Value, ValueModel};

verus! {

/// How one character of a string is written between quotes.
pub open spec fn escape_char(c: char) -> Seq<char> {
    if c == '"' {
        seq!['\\', '"']
    } else if c == '\\' {
        seq!['\\', '\\']
    } else if c == '\n' {
        seq!['\\', 'n']
    } else {
        seq![c]
    }
}

/// How the content of a string is written between quotes: a quote as `\"`, a
/// backslash as `\\`, a line end as `\n`, every other character as itself.
pub open spec fn escaped(s: Seq<char>) -> Seq<char>
    decreases s.len(),
{
    if s.len() == 0 {
        Seq::empty()
    } else {
        escaped(s.drop_last()) + escape_char(s.last())
    }
}

/// The text of a value where symbols are written as their names. A symbol
/// that `names` does not know is written as in [`display_text`].
pub open spec fn print_text(
    v: ValueModel,
    names: Seq<Seq<char>>,
    show: spec_fn(u64) -> Seq<char>,
) -> Seq<char>
    decreases v, 0nat,
{
    match v {
        ValueModel::Symbol(id) => if id < names.len() {
            names[id as int]
        } else {
            display_text(v, show)
        },
        ValueModel::List(items) => "("@ + print_items(items, items.len(), names, show) + ")"@,
        _ => display_text(v, show),
    }
}

/// The texts of the first `n` of `items`, with a space between two of them.
pub open spec fn print_items(
    items: Seq<ValueModel>,
    n: nat,
    names: Seq<Seq<char>>,
    show: spec_fn(u64) -> Seq<char>,
) -> Seq<char>
    decreases items, n,
{
    if n == 0 || n > items.len() {
        Seq::empty()
    } else if n == 1 {
        print_text(items[0], names, show)
    } else {
        print_items(items, (n - 1) as nat, names, show) + " "@ + print_text(
            items[n - 1],
            names,
            show,
        )
    }
}

/// The text of a value where a symbol is written as `Symbol#` and its
/// identifier.
pub open spec fn display_text(v: ValueModel, show: spec_fn(u64) -> Seq<char>) -> Seq<char>
    decreases v, 0nat,
{
    match v {
        ValueModel::Nil => "nil"@,
        ValueModel::Bool(b) => if b {
            "true"@
        } else {
            "false"@
        },
        ValueModel::Number(n) => show(n),
        ValueModel::Symbol(id) => "Symbol#"@ + decimal(id as nat),
        ValueModel::Str(s) => "\""@ + escaped(s) + "\""@,
        ValueModel::List(items) => "("@ + display_items(items, items.len(), show) + ")"@,
        ValueModel::FuncNative(name, _) => "FuncNative<"@ + name + ">"@,
        ValueModel::Func(_, _) => "Func"@,
        ValueModel::Closure(_, _) => "Closure"@,
    }
}

/// The texts of the first `n` of `items` as in [`display_text`], with a space
/// between two of them.
pub open spec fn display_items(
    items: Seq<ValueModel>,
    n: nat,
    show: spec_fn(u64) -> Seq<char>,
) -> Seq<char>
    decreases items, n,
{
    if n == 0 || n > items.len() {
        Seq::empty()
    } else if n == 1 {
        display_text(items[0], show)
    } else {
        display_items(items, (n - 1) as nat, show) + " "@ + display_text(items[n - 1], show)
    }
}

/// The text that [`Value::to_string`] gives.
pub open spec fn to_string_text(v: ValueModel, show: spec_fn(u64) -> Seq<char>) -> Seq<char> {
    match v {
        ValueModel::Func(_, _) => "Func<>"@,
        _ => display_text(v, show),
    }
}

/// What is written for the content of a string holds no line end.
pub proof fn lemma_escaped_has_no_line_end(s: Seq<char>)
    ensures
        forall|i: int| 0 <= i < escaped(s).len() ==> (#[trigger] escaped(s)[i]) != '\n',
    decreases s.len(),
{
    if s.len() > 0 {
        lemma_escaped_has_no_line_end(s.drop_last());
        let head = escaped(s.drop_last());
        let tail = escape_char(s.last());
        assert forall|i: int| 0 <= i < escaped(s).len() implies (#[trigger] escaped(s)[i])
            != '\n' by {
            if i < head.len() {
                assert(escaped(s)[i] == head[i]);
            } else {
                assert(escaped(s)[i] == tail[i - head.len()]);
            }
        }
    }
}

/// A string that holds no quote, no backslash and no line end is written as
/// it is.
pub proof fn lemma_escaped_keeps_plain_text(s: Seq<char>)
    requires
        forall|i: int|
            0 <= i < s.len() ==> (#[trigger] s[i]) != '"' && s[i] != '\\' && s[i] != '\n',
    ensures
        escaped(s) == s,
    decreases s.len(),
{
    if s.len() > 0 {
        assert forall|i: int| 0 <= i < s.drop_last().len() implies (#[trigger] s.drop_last()[i])
            != '"' && s.drop_last()[i] != '\\' && s.drop_last()[i] != '\n' by {
            assert(s.drop_last()[i] == s[i]);
        }
        lemma_escaped_keeps_plain_text(s.drop_last());
        assert(escape_char(s.last()) =~= seq![s.last()]);
        assert(escaped(s) =~= s);
    } else {
        assert(escaped(s) =~= s);
    }
}

/// How many backslashes stand one after another directly before position `i`
/// of `t`.
pub open spec fn backslashes_before(t: Seq<char>, i: int) -> nat
    decreases i,
{
    if 0 < i <= t.len() && t[i - 1] == '\\' {
        1 + backslashes_before(t, i - 1)
    } else {
        0
    }
}

/// The backslashes before a position are counted in the text up to it.
proof fn lemma_backslashes_in_prefix(a: Seq<char>, b: Seq<char>, i: int)
    requires
        0 <= i <= a.len(),
    ensures
        backslashes_before(a + b, i) == backslashes_before(a, i),
    decreases i,
{
    if i > 0 {
        assert((a + b)[i - 1] == a[i - 1]);
        lemma_backslashes_in_prefix(a, b, i - 1);
    }
}

/// In what is written for the content of a string every quote follows an odd
/// number of backslashes, and the text ends with an even number of them: no
/// quote in it ends the string literal, and the quote that closes the literal
/// is not escaped.
pub proof fn lemma_escaped_quotes_follow_odd_runs(s: Seq<char>)
    ensures
        forall|i: int|
            0 <= i < escaped(s).len() && (#[trigger] escaped(s)[i]) == '"' ==> backslashes_before(
                escaped(s),
                i,
            ) % 2 == 1,
        backslashes_before(escaped(s), escaped(s).len() as int) % 2 == 0,
    decreases s.len(),
{
    if s.len() > 0 {
        lemma_escaped_quotes_follow_odd_runs(s.drop_last());
        let head = escaped(s.drop_last());
        let tail = escape_char(s.last());
        let c = s.last();
        let t = escaped(s);
        let n = head.len() as int;
        assert(t == head + tail);
        lemma_backslashes_in_prefix(head, tail, n);
        assert(t[n] == tail[0]);
        if tail.len() == 2 {
            assert(t[n + 1] == tail[1]);
            assert(backslashes_before(t, n + 1) == 1 + backslashes_before(t, n));
            if c == '\\' {
                assert(backslashes_before(t, n + 2) == 1 + backslashes_before(t, n + 1));
            } else {
                assert(backslashes_before(t, n + 2) == 0);
            }
        } else {
            assert(backslashes_before(t, n + 1) == 0);
        }
        assert forall|i: int| 0 <= i < t.len() && (#[trigger] t[i]) == '"' implies backslashes_before(
            t,
            i,
        ) % 2 == 1 by {
            if i < n {
                assert(t[i] == head[i]);
                lemma_backslashes_in_prefix(head, tail, i);
            } else {
                assert(t[i] == tail[i - n]);
            }
        }
    }
}

fn push_escaped(out: &mut Vec<char>, s: &str)
    ensures
        final(out)@ == old(out)@ + escaped(s@),
{
    let chars = chars_of(s);
    let mut i: usize = 0;
    proof {
        assert(chars@.take(0) =~= Seq::<char>::empty());
        assert(out@ =~= old(out)@ + escaped(chars@.take(0)));
    }
    while i < chars.len()
        invariant
            i <= chars.len(),
            chars@ == s@,
            out@ == old(out)@ + escaped(chars@.take(i as int)),
        decreases chars.len() - i,
    {
        let c = chars[i];
        let ghost before = out@;
        if c == '"' {
            out.push('\\');
            out.push('"');
        } else if c == '\\' {
            out.push('\\');
            out.push('\\');
        } else if c == '\n' {
            out.push('\\');
            out.push('n');
        } else {
            out.push(c);
        }
        proof {
            assert(out@ =~= before + escape_char(c));
            assert(chars@.take(i + 1).drop_last() =~= chars@.take(i as int));
            assert(chars@.take(i + 1).last() == c);
            assert(out@ =~= old(out)@ + escaped(chars@.take(i + 1)));
        }
        i += 1;
    }
    proof {
        assert(chars@.take(chars@.len() as int) =~= chars@);
    }
}

/// The content of a string as it is written between quotes.
pub fn escape_str(s: &str) -> (r: String)
    ensures
        r@ == escaped(s@),
{
    let mut out: Vec<char> = Vec::new();
    push_escaped(&mut out, s);
    proof {
        assert(out@ =~= escaped(s@));
    }
    string_from_chars(&out)
}

impl Value {
    fn display_into<P: Fn(&str) -> Option<u64>, S: Fn(u64) -> String, A: Fn(Arith, u64, u64) -> u64>(
        &self,
        out: &mut Vec<char>,
        nums: &Numbers<P, S, A>,
    )
        requires
            nums.wf(),
        ensures
            final(out)@ == old(out)@ + display_text(self@, nums.printer()),
        decreases self,
    {
        match self {
            Value::Nil => push_str(out, "nil"),
            Value::Bool(true) => push_str(out, "true"),
            Value::Bool(false) => push_str(out, "false"),
            Value::Number(n) => {
                let text = nums.show_number(*n);
                push_str(out, text.as_str());
            },
            Value::Symbol(id) => {
                push_str(out, "Symbol#");
                push_decimal(out, *id);
                proof {
                    assert(out@ =~= old(out)@ + ("Symbol#"@ + decimal(*id as nat)));
                }
            },
            Value::Str(s) => {
                push_str(out, "\"");
                push_escaped(out, s.as_str());
                push_str(out, "\"");
                proof {
                    assert(out@ =~= old(out)@ + ("\""@ + escaped(s@) + "\""@));
                }
            },
            Value::List(l) => {
                push_str(out, "(");
                let ghost items = self@->List_0;
                let ghost show = nums.printer();
                let mut i: usize = 0;
                while i < l.len()
                    invariant
                        i <= l.len(),
                        nums.wf(),
                        show == nums.printer(),
                        *self == Value::List(*l),
                        items == crate::zap::values_model(l@),
                        out@ == old(out)@ + "("@ + display_items(items, i as nat, show),
                    decreases l.len() - i,
                {
                    if i > 0 {
                        push_str(out, " ");
                    }
                    let item = &l[i];
                    proof {
                        assert(items[i as int] == item@);
                        broadcast use vstd::std_specs::vec::axiom_vec_index_decreases;
                        assert(decreases_to!(**l => (**l)[i as int]));
                        assert(decreases_to!(*self => self->List_0));
                    }
                    item.display_into(out, nums);
                    proof {
                        assert(out@ =~= old(out)@ + "("@ + display_items(
                            items,
                            (i + 1) as nat,
                            show,
                        ));
                    }
                    i += 1;
                }
                push_str(out, ")");
                proof {
                    assert(out@ =~= old(out)@ + ("("@ + display_items(items, items.len(), show)
                        + ")"@));
                }
            },
            Value::FuncNative(f) => {
                push_str(out, "FuncNative<");
                push_str(out, f.name.as_str());
                push_str(out, ">");
                proof {
                    assert(out@ =~= old(out)@ + ("FuncNative<"@ + f.name@ + ">"@));
                }
            },
            Value::Func(_) => push_str(out, "Func"),
            Value::Closure(_) => push_str(out, "Closure"),
        }
    }

    fn print_into<E: Env, P: Fn(&str) -> Option<u64>, S: Fn(u64) -> String, A: Fn(
        Arith,
        u64,
        u64,
    ) -> u64>(&self, out: &mut Vec<char>, env: &E, nums: &Numbers<P, S, A>)
        requires
            env.inv(),
            nums.wf(),
        ensures
            final(out)@ == old(out)@ + print_text(self@, env.names(), nums.printer()),
        decreases self,
    {
        match self {
            Value::Symbol(id) => {
                match env.get_symbol(*id) {
                    Ok(name) => push_str(out, name.as_str()),
                    Err(_) => self.display_into(out, nums),
                }
            },
            Value::List(l) => {
                push_str(out, "(");
                let ghost items = self@->List_0;
                let ghost show = nums.printer();
                let ghost names = env.names();
                let mut i: usize = 0;
                while i < l.len()
                    invariant
                        i <= l.len(),
                        nums.wf(),
                        env.inv(),
                        show == nums.printer(),
                        names == env.names(),
                        *self == Value::List(*l),
                        items == crate::zap::values_model(l@),
                        out@ == old(out)@ + "("@ + print_items(items, i as nat, names, show),
                    decreases l.len() - i,
                {
                    if i > 0 {
                        push_str(out, " ");
                    }
                    let item = &l[i];
                    proof {
                        assert(items[i as int] == item@);
                        broadcast use vstd::std_specs::vec::axiom_vec_index_decreases;
                        assert(decreases_to!(**l => (**l)[i as int]));
                        assert(decreases_to!(*self => self->List_0));
                    }
                    item.print_into(out, env, nums);
                    proof {
                        assert(out@ =~= old(out)@ + "("@ + print_items(
                            items,
                            (i + 1) as nat,
                            names,
                            show,
                        ));
                    }
                    i += 1;
                }
                push_str(out, ")");
                proof {
                    assert(out@ =~= old(out)@ + ("("@ + print_items(
                        items,
                        items.len(),
                        names,
                        show,
                    ) + ")"@));
                }
            },
            _ => self.display_into(out, nums),
        }
    }

    /// The text of the value, with symbols written as their names in `env`.
    pub fn pr_str<E: Env, P: Fn(&str) -> Option<u64>, S: Fn(u64) -> String, A: Fn(
        Arith,
        u64,
        u64,
    ) -> u64>(&self, env: &E, nums: &Numbers<P, S, A>) -> (r: String)
        requires
            env.inv(),
            nums.wf(),
        ensures
            r@ == print_text(self@, env.names(), nums.printer()),
    {
        let mut out: Vec<char> = Vec::new();
        self.print_into(&mut out, env, nums);
        proof {
            assert(out@ =~= print_text(self@, env.names(), nums.printer()));
        }
        string_from_chars(&out)
    }

    /// The text of the value, with symbols written by their identifiers.
    pub fn display<P: Fn(&str) -> Option<u64>, S: Fn(u64) -> String, A: Fn(Arith, u64, u64) -> u64>(
        &self,
        nums: &Numbers<P, S, A>,
    ) -> (r: String)
        requires
            nums.wf(),
        ensures
            r@ == display_text(self@, nums.printer()),
    {
        let mut out: Vec<char> = Vec::new();
        self.display_into(&mut out, nums);
        proof {
            assert(out@ =~= display_text(self@, nums.printer()));
        }
        string_from_chars(&out)
    }

    /// The text of the value as a result is shown: a function as `Func<>`,
    /// anything else as [`Value::display`] writes it.
    pub fn to_string<E: Env, P: Fn(&str) -> Option<u64>, S: Fn(u64) -> String, A: Fn(
        Arith,
        u64,
        u64,
    ) -> u64>(&self, _env: &E, nums: &Numbers<P, S, A>) -> (r: String)
        requires
            nums.wf(),
        ensures
            r@ == to_string_text(self@, nums.printer()),
    {
        match self {
            Value::Func(_) => "Func<>".to_owned(),
            _ => self.display(nums),
        }
    }
}

} // verus!
