//! Reading what the printer has written gives the value that was printed.

use vstd::prelude::*;
use crate::printer::{escape_char, escaped, print_items, print_text};
use crate::reader::{
    atom_value, is_separator, lemma_run_split, Lexer, ParentModel, ReadModel,
    ReadStep, Reader, TokenModel,
};
use crate::zap::ValueModel;

verus! {

/// Whether a character can stand anywhere in an atom: it neither separates
/// tokens nor means anything to the tokenizer by itself.
pub open spec fn plain_char(c: char) -> bool {
    &&& !is_separator(c)
    &&& c != '('
    &&& c != ')'
    &&& c != '\''
    &&& c != '@'
    &&& c != '`'
    &&& c != '^'
    &&& c != '~'
    &&& c != ';'
    &&& c != '"'
}

/// Whether a text is one atom to the tokenizer.
pub open spec fn plain_text(t: Seq<char>) -> bool {
    t.len() > 0 && forall|i: int| 0 <= i < t.len() ==> plain_char(#[trigger] t[i])
}

/// Whether a name is read as a symbol: it is one atom, it is none of the
/// words `nil`, `true` and `false`, and the host does not take it for a
/// number.
pub open spec fn names_a_symbol(t: Seq<char>, parse: spec_fn(Seq<char>) -> Option<u64>) -> bool {
    &&& plain_text(t)
    &&& t != "nil"@
    &&& t != "true"@
    &&& t != "false"@
    &&& parse(t) is None
}

/// Whether a number is read back from what the host writes for it: the text
/// is one atom, it is none of the words `nil`, `true` and `false`, and the host
/// reads it as the same number.
pub open spec fn number_reads_back(
    n: u64,
    parse: spec_fn(Seq<char>) -> Option<u64>,
    show: spec_fn(u64) -> Seq<char>,
) -> bool {
    &&& plain_text(show(n))
    &&& show(n) != "nil"@
    &&& show(n) != "true"@
    &&& show(n) != "false"@
    &&& parse(show(n)) == Some(n)
}

/// Whether a value is made of what reads back: atoms, strings and lists of
/// them, with every symbol known under a name that is read as a symbol, and
/// every number one that the host reads back from what it writes.
pub open spec fn reads_back(
    v: ValueModel,
    names: Seq<Seq<char>>,
    parse: spec_fn(Seq<char>) -> Option<u64>,
    show: spec_fn(u64) -> Seq<char>,
) -> bool
    decreases v, 0nat,
{
    match v {
        ValueModel::Nil => true,
        ValueModel::Bool(_) => true,
        ValueModel::Number(n) => number_reads_back(n, parse, show),
        ValueModel::Symbol(id) => id < names.len() && names_a_symbol(names[id as int], parse),
        ValueModel::Str(_) => true,
        ValueModel::List(items) => all_read_back(items, items.len(), names, parse, show),
        _ => false,
    }
}

/// Whether the first `n` items read back.
pub open spec fn all_read_back(
    items: Seq<ValueModel>,
    n: nat,
    names: Seq<Seq<char>>,
    parse: spec_fn(Seq<char>) -> Option<u64>,
    show: spec_fn(u64) -> Seq<char>,
) -> bool
    decreases items, n,
{
    if n == 0 || n > items.len() {
        true
    } else {
        all_read_back(items, (n - 1) as nat, names, parse, show) && reads_back(
            items[n - 1],
            names,
            parse,
            show,
        )
    }
}

/// The tokens that the text of a value is made of.
pub open spec fn tokens_of(
    v: ValueModel,
    names: Seq<Seq<char>>,
    show: spec_fn(u64) -> Seq<char>,
) -> Seq<TokenModel>
    decreases v, 0nat,
{
    match v {
        ValueModel::List(items) => seq![TokenModel::ListStart] + items_tokens(
            items,
            items.len(),
            names,
            show,
        ) + seq![TokenModel::ListEnd],
        ValueModel::Str(s) => seq![TokenModel::Atom(seq!['"'] + s)],
        _ => seq![TokenModel::Atom(print_text(v, names, show))],
    }
}

/// The tokens that the texts of the first `n` items are made of.
pub open spec fn items_tokens(
    items: Seq<ValueModel>,
    n: nat,
    names: Seq<Seq<char>>,
    show: spec_fn(u64) -> Seq<char>,
) -> Seq<TokenModel>
    decreases items, n,
{
    if n == 0 || n > items.len() {
        Seq::empty()
    } else {
        items_tokens(items, (n - 1) as nat, names, show) + tokens_of(items[n - 1], names, show)
    }
}

/// Whether the tokenizer is between two tokens, or in an atom.
pub open spec fn calm(l: Lexer) -> bool {
    !l.escaped && (l.buf.len() == 0 || plain_char(l.buf[0]))
}

/// The tokenizer after the tokens `more`, with no token in progress.
pub open spec fn settled(l: Lexer, more: Seq<TokenModel>) -> Lexer {
    Lexer { tokens: l.tokens + more, buf: Seq::empty(), escaped: false, line: l.line }
}

proof fn lemma_run_one(l: Lexer, c: char)
    ensures
        l.run(seq![c]) == l.step(c),
{
    assert(seq![c].drop_first() =~= Seq::<char>::empty());
    assert(l.step(c).run(Seq::<char>::empty()) == l.step(c));
}

/// A character that ends an atom completes it.
proof fn lemma_separators(l: Lexer)
    requires
        calm(l),
    ensures
        l.step(' ') == l.flush(),
        l.step(')') == l.flush().emit(TokenModel::ListEnd),
        l.step('(') == l.flush().emit(TokenModel::ListStart),
        l.step('"') == l.flush().hold(seq!['"']),
{
}

/// The characters of an atom are kept as they come.
proof fn lemma_run_plain(l: Lexer, t: Seq<char>)
    requires
        calm(l),
        forall|i: int| 0 <= i < t.len() ==> plain_char(#[trigger] t[i]),
        l.buf.len() > 0 || t.len() > 0,
    ensures
        l.run(t) == l.hold(l.buf + t),
        calm(l.run(t)),
    decreases t.len(),
{
    if t.len() == 0 {
        assert(l.buf + t =~= l.buf);
    } else {
        let c = t[0];
        assert(plain_char(c));
        let next = l.step(c);
        assert(next == l.keep(c));
        assert forall|i: int| 0 <= i < t.drop_first().len() implies plain_char(
            #[trigger] t.drop_first()[i],
        ) by {
            assert(t.drop_first()[i] == t[i + 1]);
        }
        lemma_run_plain(next, t.drop_first());
        assert(next.buf + t.drop_first() =~= l.buf + t);
    }
}

/// The tokenizer undoes what the printer does to the content of a string:
/// inside a string literal, what the printer writes for the characters of a
/// string is read as those characters.
pub proof fn lemma_run_escaped(l: Lexer, s: Seq<char>)
    requires
        l.in_string(),
        !l.escaped,
    ensures
        l.run(escaped(s)) == l.hold(l.buf + s),
    decreases s.len(),
{
    if s.len() == 0 {
        assert(l.buf + s =~= l.buf);
    } else {
        let head = s.drop_last();
        let c = s.last();
        lemma_run_escaped(l, head);
        lemma_run_split(l, escaped(head), escape_char(c));
        let mid = l.hold(l.buf + head);
        assert(mid.in_string());
        if c == '"' || c == '\\' || c == '\n' {
            let first = escape_char(c)[0];
            let second = escape_char(c)[1];
            assert(escape_char(c) =~= seq![first] + seq![second]);
            lemma_run_split(mid, seq![first], seq![second]);
            lemma_run_one(mid, first);
            lemma_run_one(mid.step(first), second);
            assert(mid.step(first).step(second).buf =~= l.buf + s);
        } else {
            lemma_run_one(mid, c);
            assert(mid.step(c).buf =~= l.buf + s);
        }
        assert(l.buf + head + seq![c] =~= l.buf + s);
    }
}

proof fn lemma_words_are_plain()
    ensures
        plain_text("nil"@),
        plain_text("true"@),
        plain_text("false"@),
        "("@ == seq!['('],
        ")"@ == seq![')'],
        " "@ == seq![' '],
        "\""@ == seq!['"'],
{
    reveal_strlit("nil");
    reveal_strlit("true");
    reveal_strlit("false");
    reveal_strlit("(");
    reveal_strlit(")");
    reveal_strlit(" ");
    reveal_strlit("\"");
    assert("("@ =~= seq!['(']);
    assert(")"@ =~= seq![')']);
    assert(" "@ =~= seq![' ']);
    assert("\""@ =~= seq!['"']);
}

/// An atom that is written out waits in the buffer, and is the next token.
proof fn lemma_lex_atom(l: Lexer, t: Seq<char>)
    requires
        l.buf.len() == 0,
        !l.escaped,
        plain_text(t),
    ensures
        calm(l.run(t)),
        l.run(t).flush() == settled(l, seq![TokenModel::Atom(t)]),
{
    lemma_run_plain(l, t);
    assert(l.buf + t =~= t);
    assert(l.tokens.push(TokenModel::Atom(t)) =~= l.tokens + seq![TokenModel::Atom(t)]);
}

/// The tokenizer makes of the text of a value the tokens of the value.
pub proof fn lemma_lex_value(
    l: Lexer,
    v: ValueModel,
    names: Seq<Seq<char>>,
    parse: spec_fn(Seq<char>) -> Option<u64>,
    show: spec_fn(u64) -> Seq<char>,
)
    requires
        l.buf.len() == 0,
        !l.escaped,
        reads_back(v, names, parse, show),
    ensures
        calm(l.run(print_text(v, names, show))),
        l.run(print_text(v, names, show)).flush() == settled(l, tokens_of(v, names, show)),
    decreases v, 0nat,
{
    lemma_words_are_plain();
    let text = print_text(v, names, show);
    match v {
        ValueModel::Str(s) => {
            let quote = seq!['"'];
            assert(text == quote + escaped(s) + quote);
            lemma_run_split(l, quote + escaped(s), quote);
            lemma_run_split(l, quote, escaped(s));
            lemma_run_one(l, '"');
            lemma_separators(l);
            let open = l.step('"');
            assert(open.buf =~= quote);
            lemma_run_escaped(open, s);
            let full = open.run(escaped(s));
            lemma_run_one(full, '"');
            assert(full.step('"') == full.flush());
            assert(l.tokens.push(TokenModel::Atom(quote + s)) =~= l.tokens + seq![
                TokenModel::Atom(quote + s),
            ]);
        },
        ValueModel::List(items) => {
            let inner = print_items(items, items.len(), names, show);
            assert(text == seq!['('] + inner + seq![')']);
            lemma_run_split(l, seq!['('] + inner, seq![')']);
            lemma_run_split(l, seq!['('], inner);
            lemma_run_one(l, '(');
            lemma_separators(l);
            let open = l.step('(');
            assert(open == settled(l, seq![TokenModel::ListStart])) by {
                assert(l.tokens.push(TokenModel::ListStart) =~= l.tokens + seq![
                    TokenModel::ListStart,
                ]);
                assert(open.buf =~= Seq::<char>::empty());
            }
            lemma_lex_items(open, items, items.len(), names, parse, show);
            let full = open.run(inner);
            lemma_run_one(full, ')');
            lemma_separators(full);
            let toks = items_tokens(items, items.len(), names, show);
            assert(full.flush().emit(TokenModel::ListEnd) == settled(
                l,
                tokens_of(v, names, show),
            )) by {
                assert((l.tokens + seq![TokenModel::ListStart] + toks).push(TokenModel::ListEnd)
                    =~= l.tokens + (seq![TokenModel::ListStart] + toks + seq![
                    TokenModel::ListEnd,
                ]));
            }
        },
        ValueModel::Nil => {
            lemma_lex_atom(l, text);
        },
        ValueModel::Bool(b) => {
            lemma_lex_atom(l, text);
        },
        ValueModel::Number(n) => {
            lemma_lex_atom(l, text);
        },
        ValueModel::Symbol(id) => {
            lemma_lex_atom(l, text);
        },
        _ => {},
    }
}

/// The tokenizer makes of the texts of items, with spaces between them, the
/// tokens of the items.
pub proof fn lemma_lex_items(
    l: Lexer,
    items: Seq<ValueModel>,
    n: nat,
    names: Seq<Seq<char>>,
    parse: spec_fn(Seq<char>) -> Option<u64>,
    show: spec_fn(u64) -> Seq<char>,
)
    requires
        l.buf.len() == 0,
        !l.escaped,
        n <= items.len(),
        all_read_back(items, n, names, parse, show),
    ensures
        calm(l.run(print_items(items, n, names, show))),
        l.run(print_items(items, n, names, show)).flush() == settled(
            l,
            items_tokens(items, n, names, show),
        ),
    decreases items, n,
{
    lemma_words_are_plain();
    if n == 0 {
        assert(l.tokens + Seq::<TokenModel>::empty() =~= l.tokens);
        assert(l.buf =~= Seq::<char>::empty());
        assert(l.run(Seq::<char>::empty()) == l);
    } else if n == 1 {
        assert(all_read_back(items, 0, names, parse, show));
        assert(reads_back(items[0], names, parse, show));
        lemma_lex_value(l, items[0], names, parse, show);
        assert(items_tokens(items, 0, names, show) =~= Seq::<TokenModel>::empty());
        assert(items_tokens(items, 1, names, show) =~= tokens_of(items[0], names, show));
    } else {
        let before = print_items(items, (n - 1) as nat, names, show);
        let last = print_text(items[n - 1], names, show);
        lemma_lex_items(l, items, (n - 1) as nat, names, parse, show);
        lemma_run_split(l, before + seq![' '], last);
        lemma_run_split(l, before, seq![' ']);
        let pending = l.run(before);
        lemma_run_one(pending, ' ');
        lemma_separators(pending);
        let mid = pending.step(' ');
        lemma_lex_value(mid, items[n - 1], names, parse, show);
        assert(settled(mid, tokens_of(items[n - 1], names, show)) == settled(
            l,
            items_tokens(items, n, names, show),
        )) by {
            assert(l.tokens + items_tokens(items, (n - 1) as nat, names, show) + tokens_of(
                items[n - 1],
                names,
                show,
            ) =~= l.tokens + items_tokens(items, n, names, show));
        }
    }
}

/// The tokens that the texts of the items from `from` on are made of.
pub open spec fn rest_tokens(
    items: Seq<ValueModel>,
    from: nat,
    names: Seq<Seq<char>>,
    show: spec_fn(u64) -> Seq<char>,
) -> Seq<TokenModel>
    decreases items.len() - from,
{
    if from >= items.len() {
        Seq::empty()
    } else {
        tokens_of(items[from as int], names, show) + rest_tokens(items, from + 1, names, show)
    }
}

proof fn lemma_rest_tokens(
    items: Seq<ValueModel>,
    n: nat,
    names: Seq<Seq<char>>,
    show: spec_fn(u64) -> Seq<char>,
)
    requires
        n <= items.len(),
    ensures
        items_tokens(items, n, names, show) + rest_tokens(items, n, names, show) == items_tokens(
            items,
            items.len(),
            names,
            show,
        ),
    decreases items.len() - n,
{
    if n < items.len() {
        lemma_rest_tokens(items, n + 1, names, show);
        assert(items_tokens(items, n, names, show) + rest_tokens(items, n, names, show)
            =~= items_tokens(items, n + 1, names, show) + rest_tokens(items, n + 1, names, show));
    } else {
        assert(items_tokens(items, n, names, show) + rest_tokens(items, n, names, show)
            =~= items_tokens(items, n, names, show));
    }
}

proof fn lemma_item_reads_back(
    items: Seq<ValueModel>,
    n: nat,
    i: int,
    names: Seq<Seq<char>>,
    parse: spec_fn(Seq<char>) -> Option<u64>,
    show: spec_fn(u64) -> Seq<char>,
)
    requires
        all_read_back(items, n, names, parse, show),
        0 <= i < n <= items.len(),
    ensures
        reads_back(items[i], names, parse, show),
    decreases n,
{
    if i < n - 1 {
        lemma_item_reads_back(items, (n - 1) as nat, i, names, parse, show);
    }
}

/// What reading goes on to once the value `v` is complete.
pub open spec fn after_value(m: ReadModel, v: ValueModel, parse: spec_fn(Seq<char>) -> Option<u64>) -> (
    ReadModel,
    Result<Option<ValueModel>, Seq<char>>,
) {
    match m.attach(v) {
        ReadStep::Done(after, r) => (after, r),
        ReadStep::More(after) => after.read(parse),
    }
}

/// An atom that was written for a value is read as that value.
proof fn lemma_atom_reads_back(
    v: ValueModel,
    names: Seq<Seq<char>>,
    parse: spec_fn(Seq<char>) -> Option<u64>,
    show: spec_fn(u64) -> Seq<char>,
)
    requires
        !(v is List),
        reads_back(v, names, parse, show),
        names.no_duplicates(),
    ensures
        tokens_of(v, names, show) == seq![TokenModel::Atom(tokens_of(v, names, show)[0]->Atom_0)],
        atom_value(
            tokens_of(v, names, show)[0]->Atom_0,
            parse(tokens_of(v, names, show)[0]->Atom_0),
            names,
        ) == Some((v, names)),
{
    reveal_strlit("nil");
    reveal_strlit("true");
    reveal_strlit("false");
    let text = tokens_of(v, names, show)[0]->Atom_0;
    match v {
        ValueModel::Nil => {},
        ValueModel::Bool(b) => {
            assert("true"@.len() == 4 && "false"@.len() == 5 && "nil"@.len() == 3);
        },
        ValueModel::Number(n) => {
            assert(plain_char(text[0]));
        },
        ValueModel::Symbol(id) => {
            assert(plain_char(text[0]));
            assert(names.contains(text));
            let j = crate::env::id_of(names, text);
            assert(0 <= j < names.len() && names[j] == text);
            assert(j == id);
        },
        ValueModel::Str(s) => {
            assert(text[0] == '"');
            assert("nil"@[0] == 'n' && "true"@[0] == 't' && "false"@[0] == 'f');
            assert(text.skip(1) =~= s);
        },
        _ => {},
    }
}

/// The reader makes of the tokens of a value the value.
pub proof fn lemma_read_value(
    v: ValueModel,
    rest: Seq<TokenModel>,
    stack: Seq<ParentModel>,
    names: Seq<Seq<char>>,
    parse: spec_fn(Seq<char>) -> Option<u64>,
    show: spec_fn(u64) -> Seq<char>,
)
    requires
        reads_back(v, names, parse, show),
        names.no_duplicates(),
    ensures
        (ReadModel { tokens: tokens_of(v, names, show) + rest, stack, names }).read(parse)
            == after_value(ReadModel { tokens: rest, stack, names }, v, parse),
    decreases v, 0nat,
{
    let start = ReadModel { tokens: tokens_of(v, names, show) + rest, stack, names };
    let behind = ReadModel { tokens: rest, stack, names };
    match v {
        ValueModel::List(items) => {
            let inner = items_tokens(items, items.len(), names, show);
            let tail = seq![TokenModel::ListEnd] + rest;
            assert(start.tokens[0] == TokenModel::ListStart);
            assert(start.tokens.drop_first() =~= inner + tail);
            let opened = ReadModel {
                tokens: inner + tail,
                stack: stack.push(ParentModel::List(Seq::empty())),
                names,
            };
            assert(start.step(parse) == ReadStep::More(opened));
            lemma_rest_tokens(items, 0, names, show);
            assert(items_tokens(items, 0, names, show) + rest_tokens(items, 0, names, show)
                =~= rest_tokens(items, 0, names, show));
            assert(items.take(0) =~= Seq::<ValueModel>::empty());
            lemma_read_items(items, 0, tail, stack, names, parse, show);
            let closing = ReadModel {
                tokens: tail,
                stack: stack.push(ParentModel::List(items)),
                names,
            };
            assert(closing.tokens[0] == TokenModel::ListEnd);
            assert(closing.tokens.drop_first() =~= rest);
            assert(closing.stack.drop_last() =~= stack);
        },
        _ => {
            lemma_atom_reads_back(v, names, parse, show);
            assert(start.tokens.drop_first() =~= rest);
        },
    }
}

/// The reader makes of the tokens of the items of a list the list.
pub proof fn lemma_read_items(
    items: Seq<ValueModel>,
    from: nat,
    tail: Seq<TokenModel>,
    stack: Seq<ParentModel>,
    names: Seq<Seq<char>>,
    parse: spec_fn(Seq<char>) -> Option<u64>,
    show: spec_fn(u64) -> Seq<char>,
)
    requires
        from <= items.len(),
        all_read_back(items, items.len(), names, parse, show),
        names.no_duplicates(),
    ensures
        (ReadModel {
            tokens: rest_tokens(items, from, names, show) + tail,
            stack: stack.push(ParentModel::List(items.take(from as int))),
            names,
        }).read(parse) == (ReadModel {
            tokens: tail,
            stack: stack.push(ParentModel::List(items)),
            names,
        }).read(parse),
    decreases items, items.len() - from,
{
    if from >= items.len() {
        assert(items.take(from as int) =~= items);
        assert(rest_tokens(items, from, names, show) + tail =~= tail);
    } else {
        let item = items[from as int];
        lemma_item_reads_back(items, items.len(), from as int, names, parse, show);
        let later = rest_tokens(items, from + 1, names, show) + tail;
        let open = stack.push(ParentModel::List(items.take(from as int)));
        assert(rest_tokens(items, from, names, show) + tail =~= tokens_of(item, names, show)
            + later);
        lemma_read_value(item, later, open, names, parse, show);
        assert(open.drop_last() =~= stack);
        assert(items.take(from as int).push(item) =~= items.take(from + 1 as int));
        lemma_read_items(items, from + 1, tail, stack, names, parse, show);
    }
}

/// Reading what the printer has written gives the value that was printed: for
/// every value that reads back, tokenizing its printed text from the start
/// and completing the last token leaves exactly the tokens of which the reader
/// makes that value, with nothing left over and no form left open; reading
/// once more gives nothing.
pub proof fn lemma_print_then_read(
    v: ValueModel,
    names: Seq<Seq<char>>,
    parse: spec_fn(Seq<char>) -> Option<u64>,
    show: spec_fn(u64) -> Seq<char>,
)
    requires
        reads_back(v, names, parse, show),
        names.no_duplicates(),
    ensures
        ({
            let lexer = Reader::fresh().lexer.run(print_text(v, names, show)).flush();
            let done = ReadModel { tokens: Seq::empty(), stack: Seq::empty(), names };
            &&& (ReadModel { tokens: lexer.tokens, stack: Seq::empty(), names }).read(parse) == (
                done,
                Ok::<Option<ValueModel>, Seq<char>>(Some(v)),
            )
            &&& done.read(parse) == (done, Ok::<Option<ValueModel>, Seq<char>>(None))
        }),
{
    let fresh = Reader::fresh().lexer;
    lemma_lex_value(fresh, v, names, parse, show);
    let tokens = tokens_of(v, names, show);
    assert(fresh.tokens + tokens =~= tokens);
    assert(tokens + Seq::<TokenModel>::empty() =~= tokens);
    lemma_read_value(v, Seq::empty(), Seq::empty(), names, parse, show);
}

} // verus!
