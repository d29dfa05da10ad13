//! The symbols that every environment knows from the start. The compiler
//! treats lists that begin with one of them specially, so their identifiers
//! are fixed.

use vstd::prelude::*;
use crate::zap::Symbol;

verus! {

pub const IF: Symbol = 0;

pub const LET: Symbol = 1;

pub const FN: Symbol = 2;

pub const DO: Symbol = 3;

pub const DEFINE: Symbol = 4;

pub const QUOTE: Symbol = 5;

pub const QUASIQUOTE: Symbol = 6;

pub const UNQUOTE: Symbol = 7;

pub const SPLICE_UNQUOTE: Symbol = 8;

pub const PLUS: Symbol = 9;

pub const EQUAL: Symbol = 10;

/// The number of reserved symbols.
pub const COUNT: Symbol = 11;

/// The names of the reserved symbols, each at the place of its identifier.
pub open spec fn reserved_names() -> Seq<Seq<char>> {
    seq![
        "if"@,
        "let"@,
        "fn"@,
        "do"@,
        "def"@,
        "quote"@,
        "quasiquote"@,
        "unquote"@,
        "splice-unquote"@,
        "+"@,
        "="@,
    ]
}

/// The name of the reserved symbol `id`, or `None` where `id` is not
/// reserved.
pub fn reserved_name(id: Symbol) -> (name: Option<&'static str>)
    ensures
        match name {
            Some(text) => id < COUNT && text@ == reserved_names()[id as int],
            None => id >= COUNT,
        },
{
    if id == IF {
        Some("if")
    } else if id == LET {
        Some("let")
    } else if id == FN {
        Some("fn")
    } else if id == DO {
        Some("do")
    } else if id == DEFINE {
        Some("def")
    } else if id == QUOTE {
        Some("quote")
    } else if id == QUASIQUOTE {
        Some("quasiquote")
    } else if id == UNQUOTE {
        Some("unquote")
    } else if id == SPLICE_UNQUOTE {
        Some("splice-unquote")
    } else if id == PLUS {
        Some("+")
    } else if id == EQUAL {
        Some("=")
    } else {
        None
    }
}

/// No two reserved symbols have the same name.
pub proof fn lemma_reserved_names_differ()
    ensures
        reserved_names().len() == COUNT,
        reserved_names().no_duplicates(),
{
    reveal_strlit("if");
    reveal_strlit("let");
    reveal_strlit("fn");
    reveal_strlit("do");
    reveal_strlit("def");
    reveal_strlit("quote");
    reveal_strlit("quasiquote");
    reveal_strlit("unquote");
    reveal_strlit("splice-unquote");
    reveal_strlit("+");
    reveal_strlit("=");
    let names = reserved_names();
    assert(names[0].len() == 2 && names[0][0] == 'i');
    assert(names[1].len() == 3 && names[1][0] == 'l');
    assert(names[2].len() == 2 && names[2][0] == 'f');
    assert(names[3].len() == 2 && names[3][0] == 'd');
    assert(names[4].len() == 3 && names[4][0] == 'd');
    assert(names[5].len() == 5);
    assert(names[6].len() == 10);
    assert(names[7].len() == 7);
    assert(names[8].len() == 14);
    assert(names[9].len() == 1 && names[9][0] == '+');
    assert(names[10].len() == 1 && names[10][0] == '=');
}

} // verus!
