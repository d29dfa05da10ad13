//! The symbol environment: an interning table that gives every name a small
//! integer, and the global bindings, one slot per symbol.

use vstd::prelude::*;
use crate::builtins::Builtin;
use crate::text::{push_decimal, push_str, string_from_chars, decimal, ZapString};
use crate::zap::{Symbol, Value, ValueModel, ZapErr, ZapFnNative};

pub mod symbols;

verus! {

/// The global bindings: the slot of a symbol is at the place of its
/// identifier.
pub type Scope = Vec<Option<Value>>;

/// The interning table, from names to identifiers.
pub type SymbolTable = fxhash::FxHashMap<ZapString, Symbol>;

/// `fxhash::FxHasher`, the hasher of the interning table. Nothing is said of
/// it; the type is only named so that the table can be held.
#[verifier::external_type_specification]
#[verifier::external_body]
pub struct ExFxHasher(fxhash::FxHasher);

/// `BuildHasherDefault` of std, which makes the hashers of the interning
/// table. Nothing is said of it; the type is only named so that the table can
/// be held.
#[verifier::external_type_specification]
#[verifier::external_body]
#[verifier::reject_recursive_types(H)]
pub struct ExBuildHasherDefault<H>(std::hash::BuildHasherDefault<H>);

/// What an interning table holds: the identifier of each name in it.
pub uninterp spec fn table_of(t: SymbolTable) -> Map<Seq<char>, Symbol>;

/// `FxHashMap::default()`: a table that holds nothing.
#[verifier::external_body]
fn table_new() -> (table: SymbolTable)
    ensures
        table_of(table).dom() =~= Set::empty(),
{
    fxhash::FxHashMap::default()
}

/// `HashMap::get` on an `FxHashMap`: the identifier stored under the text of
/// `name`, if there is one. Names are hashed and compared by their text.
#[verifier::external_body]
fn table_get(t: &SymbolTable, name: &ZapString) -> (r: Option<Symbol>)
    ensures
        r == (if table_of(*t).contains_key(name@) {
            Some(table_of(*t)[name@])
        } else {
            None
        }),
{
    t.get(name).copied()
}

/// `HashMap::insert` on an `FxHashMap`: afterwards the table holds `id` under
/// the text of `name`, and everything else as before.
#[verifier::external_body]
fn table_insert(t: &mut SymbolTable, name: ZapString, id: Symbol)
    ensures
        table_of(*final(t)) == table_of(*old(t)).insert(name@, id),
{
    t.insert(name, id);
}

/// The message for an identifier that no symbol has.
pub open spec fn unknown_id_message(id: Symbol) -> Seq<char> {
    "No known symbol for id="@ + decimal(id as nat)
}

/// The message for a symbol that has no global binding.
pub open spec fn unbound_message(name: Seq<char>) -> Seq<char> {
    "symbol '"@ + name + "' not in scope."@
}

/// `n` slots without a value.
pub open spec fn no_values<T>(n: int) -> Seq<Option<T>> {
    Seq::new(n as nat, |i: int| None::<T>)
}

/// What looking up the global binding of `id` gives.
pub open spec fn lookup<T>(names: Seq<Seq<char>>, globals: Seq<Option<T>>, id: Symbol) -> Result<
    T,
    Seq<char>,
> {
    if id < names.len() && id < globals.len() {
        match globals[id as int] {
            Some(v) => Ok(v),
            None => Err(unbound_message(names[id as int])),
        }
    } else {
        Err(unknown_id_message(id))
    }
}

/// Whether a result is the given value, or the error with the given message.
pub open spec fn result_is<T>(r: Result<T, ZapErr>, expected: Result<T, Seq<char>>) -> bool {
    match (r, expected) {
        (Ok(a), Ok(b)) => a == b,
        (Err(e), Err(msg)) => e@ == msg,
        _ => false,
    }
}

/// The largest number of symbols that identifiers can tell apart.
pub open spec fn symbol_limit() -> nat {
    0x1_0000_0000
}

/// The names that an environment knows are all different, every one of them
/// has a slot, and their identifiers fit the identifier type.
pub open spec fn names_ok(names: Seq<Seq<char>>, globals: Seq<Option<Value>>) -> bool {
    &&& names.no_duplicates()
    &&& names.len() == globals.len()
    &&& names.len() <= symbol_limit()
}

/// The place of `name` among `names`.
pub open spec fn id_of(names: Seq<Seq<char>>, name: Seq<char>) -> int {
    choose|i: int| 0 <= i < names.len() && names[i] == name
}

/// An environment: the symbols that are known and the global value of each.
///
/// Identifiers are given out in the order in which names are first
/// registered, and are never taken back: the sequence of names only grows, and
/// a name keeps its place in it.
pub trait Env: Sized {
    /// The names that are known, each at the place of its identifier.
    spec fn names(&self) -> Seq<Seq<char>>;

    /// The global bindings, each at the place of its symbol's identifier.
    spec fn globals(&self) -> Seq<Option<Value>>;

    /// The environment is in order.
    spec fn inv(&self) -> bool;

    /// An environment that is in order has its names in order.
    proof fn lemma_inv(&self)
        requires
            self.inv(),
        ensures
            names_ok(self.names(), self.globals()),
    ;

    /// The global value of the symbol `id`.
    fn get_by_id(&self, id: Symbol) -> (r: Result<Value, ZapErr>)
        requires
            self.inv(),
        ensures
            result_is(r, lookup(self.names(), self.globals(), id)),
    ;

    /// Binds the global value of the symbol `key` to `val`.
    fn set(&mut self, key: &Value, val: &Value) -> (r: Result<(), ZapErr>)
        requires
            old(self).inv(),
        ensures
            final(self).inv(),
            final(self).names() == old(self).names(),
            match *key {
                Value::Symbol(id) => if id < old(self).names().len() {
                    &&& r is Ok
                    &&& final(self).globals() == old(self).globals().update(id as int, Some(*val))
                } else {
                    &&& r matches Err(e) && e@ == unknown_id_message(id)
                    &&& final(self).globals() == old(self).globals()
                },
                _ => {
                    &&& r matches Err(e) && e@ == "Env set: only symbols can be used as keys."@
                    &&& final(self).globals() == old(self).globals()
                },
            },
    ;

    /// The symbol of the name `s`. A name that is new gets the next
    /// identifier and an empty slot; a name that is known keeps its identifier.
    fn reg_symbol(&mut self, s: ZapString) -> (r: Result<Value, ZapErr>)
        requires
            old(self).inv(),
        ensures
            final(self).inv(),
            if old(self).names().contains(s@) {
                &&& r matches Ok(v) && v == Value::Symbol(id_of(old(self).names(), s@) as Symbol)
                &&& final(self).names() == old(self).names()
                &&& final(self).globals() == old(self).globals()
            } else if old(self).names().len() < symbol_limit() {
                &&& r matches Ok(v) && v == Value::Symbol(old(self).names().len() as Symbol)
                &&& final(self).names() == old(self).names().push(s@)
                &&& final(self).globals() == old(self).globals().push(None)
            } else {
                &&& r matches Err(e) && e@ == "Too many symbols."@
                &&& final(self).names() == old(self).names()
                &&& final(self).globals() == old(self).globals()
            },
    ;

    /// The name of the symbol `id`.
    fn get_symbol(&self, id: Symbol) -> (r: Result<ZapString, ZapErr>)
        requires
            self.inv(),
        ensures
            if id < self.names().len() {
                r matches Ok(s) && s@ == self.names()[id as int]
            } else {
                r matches Err(e) && e@ == unknown_id_message(id)
            },
    ;

    /// Binds the name `symbol` to the native function `f`: registers the
    /// name and sets its global value.
    fn reg_fn(&mut self, symbol: &str, f: Builtin) -> (r: Result<(), ZapErr>)
        requires
            old(self).inv(),
        ensures
            final(self).inv(),
            match r {
                Ok(_) => {
                    let known = old(self).names().contains(symbol@);
                    let id = if known {
                        id_of(old(self).names(), symbol@)
                    } else {
                        old(self).names().len() as int
                    };
                    &&& known || old(self).names().len() < symbol_limit()
                    &&& final(self).names() == if known {
                        old(self).names()
                    } else {
                        old(self).names().push(symbol@)
                    }
                    &&& final(self).globals().len() == final(self).names().len()
                    &&& final(self).globals()[id] matches Some(v) && v@ == ValueModel::FuncNative(
                        symbol@,
                        f,
                    )
                    &&& forall|j: int|
                        0 <= j < old(self).globals().len() && j != id ==> final(self).globals()[j]
                            == old(self).globals()[j]
                },
                Err(e) => {
                    &&& !old(self).names().contains(symbol@)
                    &&& old(self).names().len() >= symbol_limit()
                    &&& e@ == "Too many symbols."@
                    &&& final(self).names() == old(self).names()
                    &&& final(self).globals() == old(self).globals()
                },
            },
    {
        proof {
            old(self).lemma_inv();
        }
        let id = self.reg_symbol(ZapString::new(symbol))?;
        let native = Value::FuncNative(ZapFnNative::new(ZapString::new(symbol), f));
        proof {
            self.lemma_inv();
            if old(self).names().contains(symbol@) {
                let i = id_of(old(self).names(), symbol@);
                assert(0 <= i < old(self).names().len());
            }
        }
        self.set(&id, &native)
    }

    /// The global value of the symbol `key`.
    fn get(&self, key: &Value) -> (r: Result<Value, ZapErr>)
        requires
            self.inv(),
        ensures
            match *key {
                Value::Symbol(id) => result_is(r, lookup(self.names(), self.globals(), id)),
                _ => r matches Err(e) && e@ == "Only symbols can be used as keys in env."@,
            },
    {
        match key {
            Value::Symbol(id) => self.get_by_id(*id),
            _ => Err(crate::zap::error_msg("Only symbols can be used as keys in env.")),
        }
    }
}

/// The error for an identifier that no symbol has.
pub fn unknown_id(id: Symbol) -> (e: ZapErr)
    ensures
        e@ == unknown_id_message(id),
{
    let mut text: Vec<char> = Vec::new();
    push_str(&mut text, "No known symbol for id=");
    push_decimal(&mut text, id);
    ZapErr::Msg(string_from_chars(&text))
}

/// The error for a symbol that has no global binding.
pub fn unbound(name: &ZapString) -> (e: ZapErr)
    ensures
        e@ == unbound_message(name@),
{
    let mut text: Vec<char> = Vec::new();
    push_str(&mut text, "symbol '");
    push_str(&mut text, name.as_str());
    push_str(&mut text, "' not in scope.");
    ZapErr::Msg(string_from_chars(&text))
}

/// An environment of its own, shared with nobody.
pub struct SandboxEnv {
    globals: Scope,
    symbols: SymbolTable,
    names: Vec<ZapString>,
}

/// The texts of a sequence of names.
pub open spec fn texts(names: Seq<ZapString>) -> Seq<Seq<char>> {
    Seq::new(names.len(), |i: int| names[i]@)
}

impl SandboxEnv {
    /// An environment that knows no symbol at all, not even the reserved ones.
    pub fn empty() -> (r: SandboxEnv)
        ensures
            r.inv(),
            r.names() == Seq::<Seq<char>>::empty(),
            r.globals() == Seq::<Option<Value>>::empty(),
    {
        let r = SandboxEnv { globals: Vec::new(), symbols: table_new(), names: Vec::new() };
        proof {
            assert(r.names() =~= Seq::<Seq<char>>::empty());
            assert(table_of(r.symbols).dom() =~= Set::new(|t: Seq<char>| r.names().contains(t)));
        }
        r
    }
}

impl Default for SandboxEnv {
    /// An environment that knows the reserved symbols, each under its fixed
    /// identifier, and binds none of them.
    fn default() -> (r: Self)
        ensures
            r.inv(),
            r.names() == symbols::reserved_names(),
            r.globals() == Seq::new(symbols::COUNT as nat, |i: int| None::<Value>),
    {
        let mut this = SandboxEnv::empty();
        let mut id: Symbol = 0;
        proof {
            symbols::lemma_reserved_names_differ();
            assert(this.names() =~= symbols::reserved_names().take(0));
            assert(this.globals() =~= Seq::new(0, |i: int| None::<Value>));
        }
        while id < symbols::COUNT
            invariant
                id <= symbols::COUNT,
                this.inv(),
                symbols::reserved_names().len() == symbols::COUNT,
                symbols::reserved_names().no_duplicates(),
                this.names() == symbols::reserved_names().take(id as int),
                this.globals() == Seq::new(id as nat, |i: int| None::<Value>),
            decreases symbols::COUNT - id,
        {
            let name = match symbols::reserved_name(id) {
                Some(name) => name,
                None => "",
            };
            proof {
                let all = symbols::reserved_names();
                if this.names().contains(name@) {
                    let j = choose|j: int| 0 <= j < this.names().len() && this.names()[j] == name@;
                    assert(all[j] == all[id as int]);
                }
                assert(all.take(id + 1) =~= all.take(id as int).push(name@));
                assert(Seq::new((id + 1) as nat, |i: int| None::<Value>) =~= Seq::new(
                    id as nat,
                    |i: int| None::<Value>,
                ).push(None));
            }
            let _ = this.reg_symbol(ZapString::new(name));
            id += 1;
        }
        proof {
            assert(symbols::reserved_names().take(symbols::COUNT as int) =~= symbols::reserved_names());
        }
        this
    }
}

impl Env for SandboxEnv {
    closed spec fn names(&self) -> Seq<Seq<char>> {
        texts(self.names@)
    }

    closed spec fn globals(&self) -> Seq<Option<Value>> {
        self.globals@
    }

    closed spec fn inv(&self) -> bool {
        &&& names_ok(self.names(), self.globals())
        &&& table_of(self.symbols).dom() == Set::new(|t: Seq<char>| self.names().contains(t))
        &&& forall|i: int|
            0 <= i < self.names().len() ==> #[trigger] table_of(self.symbols)[self.names()[i]] == i
    }

    proof fn lemma_inv(&self) {
    }

    fn get_by_id(&self, id: Symbol) -> (r: Result<Value, ZapErr>) {
        let i = id as usize;
        if i < self.globals.len() {
            match &self.globals[i] {
                Some(val) => Ok(val.clone()),
                None => Err(unbound(&self.names[i])),
            }
        } else {
            Err(unknown_id(id))
        }
    }

    fn set(&mut self, key: &Value, val: &Value) -> (r: Result<(), ZapErr>) {
        match key {
            Value::Symbol(id) => {
                let i = *id as usize;
                if i < self.globals.len() {
                    self.globals.set(i, Some(val.clone()));
                    Ok(())
                } else {
                    Err(unknown_id(*id))
                }
            },
            _ => Err(crate::zap::error_msg("Env set: only symbols can be used as keys.")),
        }
    }

    fn reg_symbol(&mut self, s: ZapString) -> (r: Result<Value, ZapErr>) {
        match table_get(&self.symbols, &s) {
            Some(id) => {
                proof {
                    let names = self.names();
                    assert(names.contains(s@));
                    let i = id_of(names, s@);
                    assert(table_of(self.symbols)[names[i]] == i);
                }
                Ok(Value::Symbol(id))
            },
            None => {
                let len = self.names.len();
                proof {
                    assert(!self.names().contains(s@));
                }
                if len > 0xffff_ffff {
                    Err(crate::zap::error_msg("Too many symbols."))
                } else {
                    let id = len as Symbol;
                    table_insert(&mut self.symbols, s.clone(), id);
                    self.names.push(s);
                    self.globals.push(None);
                    proof {
                        let before = old(self).names();
                        let after = self.names();
                        assert(after =~= before.push(s@));
                        assert forall|t: Seq<char>|
                            table_of(self.symbols).dom().contains(t) == after.contains(t) by {
                            if before.contains(t) {
                                let j = choose|j: int| 0 <= j < before.len() && before[j] == t;
                                assert(after[j] == t);
                            }
                            if t == s@ {
                                assert(after[len as int] == t);
                            }
                        }
                        assert(table_of(self.symbols).dom() =~= Set::new(
                            |t: Seq<char>| after.contains(t),
                        ));
                        assert(after.no_duplicates()) by {
                            assert forall|i: int, j: int|
                                0 <= i < after.len() && 0 <= j < after.len() && i != j implies after[i]
                                != after[j] by {
                                if i < before.len() && j < before.len() {
                                } else if i < before.len() {
                                    assert(before.contains(before[i]));
                                } else if j < before.len() {
                                    assert(before.contains(before[j]));
                                }
                            }
                        }
                        assert forall|i: int| 0 <= i < after.len() implies #[trigger] table_of(
                            self.symbols,
                        )[after[i]] == i by {
                            if i < before.len() {
                                assert(before.contains(before[i]));
                                assert(table_of(old(self).symbols)[before[i]] == i);
                            }
                        }
                    }
                    Ok(Value::Symbol(id))
                }
            },
        }
    }

    fn get_symbol(&self, id: Symbol) -> (r: Result<ZapString, ZapErr>) {
        let i = id as usize;
        if i < self.names.len() {
            Ok(self.names[i].clone())
        } else {
            Err(unknown_id(id))
        }
    }
}

} // verus!
