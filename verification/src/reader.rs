//! The reader: from source text to trees of values.
//!
//! The reader is incremental. The host feeds it text as the text arrives;
//! tokens that are complete are queued, a token that is not yet complete waits
//! in a buffer, and forms that are not yet closed wait on a stack.

use vstd::prelude::*;
use std::collections::VecDeque;
use crate::env::{id_of, no_values, symbol_limit, Env};
use crate::numbers::Numbers;
use crate::text::{chars_of, chars_eq, string_from_chars, ZapString};
use crate::zap::{error_msg, Symbol, Value, ValueModel, ZapErr, values_model};

verus! {

/// A token of the source text.
pub enum Token {
    Atom(Vec<char>),
    Quote,
    Quasiquote,
    Unquote,
    SpliceUnquote,
    Deref,
    ListStart,
    ListEnd,
}

/// A token as pure data.
pub enum TokenModel {
    Atom(Seq<char>),
    Quote,
    Quasiquote,
    Unquote,
    SpliceUnquote,
    Deref,
    ListStart,
    ListEnd,
}

impl View for Token {
    type V = TokenModel;

    open spec fn view(&self) -> TokenModel {
        match self {
            Token::Atom(text) => TokenModel::Atom(text@),
            Token::Quote => TokenModel::Quote,
            Token::Quasiquote => TokenModel::Quasiquote,
            Token::Unquote => TokenModel::Unquote,
            Token::SpliceUnquote => TokenModel::SpliceUnquote,
            Token::Deref => TokenModel::Deref,
            Token::ListStart => TokenModel::ListStart,
            Token::ListEnd => TokenModel::ListEnd,
        }
    }
}

/// The data that a sequence of tokens stands for.
pub open spec fn tokens_model(s: Seq<Token>) -> Seq<TokenModel> {
    Seq::new(s.len(), |i: int| s[i]@)
}

/// A form that has been opened and is waiting for what it contains.
pub enum ParentForm {
    List(Vec<Value>),
    Quote,
    Quasiquote,
    Unquote,
    SpliceUnquote,
    Deref,
}

/// An open form as pure data.
pub enum ParentModel {
    List(Seq<ValueModel>),
    Quote,
    Quasiquote,
    Unquote,
    SpliceUnquote,
    Deref,
}

impl View for ParentForm {
    type V = ParentModel;

    open spec fn view(&self) -> ParentModel {
        match self {
            ParentForm::List(items) => ParentModel::List(values_model(items@)),
            ParentForm::Quote => ParentModel::Quote,
            ParentForm::Quasiquote => ParentModel::Quasiquote,
            ParentForm::Unquote => ParentModel::Unquote,
            ParentForm::SpliceUnquote => ParentModel::SpliceUnquote,
            ParentForm::Deref => ParentModel::Deref,
        }
    }
}

/// The data that a stack of open forms stands for.
pub open spec fn parents_model(s: Seq<ParentForm>) -> Seq<ParentModel> {
    Seq::new(s.len(), |i: int| s[i]@)
}

/// Whether a character separates tokens.
pub open spec fn is_separator(c: char) -> bool {
    c == ' ' || c == '\n' || c == '\t' || c == ','
}

/// What the character after a backslash stands for inside a string literal.
pub open spec fn unescape(c: char) -> char {
    if c == 'n' {
        '\n'
    } else if c == 'r' {
        '\r'
    } else if c == '0' {
        '\0'
    } else if c == 't' {
        '\t'
    } else {
        c
    }
}

/// The state of the tokenizer between two characters.
///
/// What the tokenizer is in the middle of shows in the buffer: a buffer that
/// starts with `"` holds a string literal that is still open, one that starts
/// with `;` stands for a comment that has not reached its line end, one that
/// starts with `~` for a `~` that may yet become `~@`. Any other buffer holds
/// the characters of an atom.
pub struct Lexer {
    /// The tokens completed so far.
    pub tokens: Seq<TokenModel>,
    /// The token in progress.
    pub buf: Seq<char>,
    /// Inside a string literal: the last character was a backslash.
    pub escaped: bool,
    /// The number of line ends seen.
    pub line: u64,
}

impl Lexer {
    pub open spec fn in_string(self) -> bool {
        self.buf.len() > 0 && self.buf[0] == '"'
    }

    pub open spec fn in_comment(self) -> bool {
        self.buf.len() > 0 && self.buf[0] == ';'
    }

    pub open spec fn in_tilde(self) -> bool {
        self.buf.len() > 0 && self.buf[0] == '~'
    }

    /// The state with one more completed token.
    pub open spec fn emit(self, t: TokenModel) -> Lexer {
        Lexer { tokens: self.tokens.push(t), ..self }
    }

    /// The state with the token in progress replaced.
    pub open spec fn hold(self, buf: Seq<char>) -> Lexer {
        Lexer { buf, ..self }
    }

    /// The state with one more character in the token in progress.
    pub open spec fn keep(self, c: char) -> Lexer {
        Lexer { buf: self.buf.push(c), ..self }
    }

    /// The state after the token in progress, if there is one, has been
    /// completed as an atom.
    pub open spec fn flush(self) -> Lexer {
        if self.buf.len() > 0 {
            Lexer {
                tokens: self.tokens.push(TokenModel::Atom(self.buf)),
                buf: Seq::empty(),
                escaped: false,
                line: self.line,
            }
        } else {
            Lexer { escaped: false, ..self }
        }
    }

    /// The state with the line count raised by one, as far as it can be
    /// raised.
    pub open spec fn count_line(self) -> Lexer {
        if self.line < u64::MAX {
            Lexer { line: (self.line + 1) as u64, ..self }
        } else {
            self
        }
    }

    /// One character inside a string literal.
    pub open spec fn step_string(self, c: char) -> Lexer {
        if self.escaped {
            Lexer { buf: self.buf.push(unescape(c)), escaped: false, ..self }
        } else if c == '"' {
            self.flush()
        } else if c == '\\' {
            Lexer { escaped: true, ..self }
        } else {
            self.keep(c)
        }
    }

    /// One character outside string literals and comments, with no `~`
    /// waiting.
    pub open spec fn step_plain(self, c: char) -> Lexer {
        if is_separator(c) {
            self.flush()
        } else if c == '(' {
            self.flush().emit(TokenModel::ListStart)
        } else if c == ')' {
            self.flush().emit(TokenModel::ListEnd)
        } else if c == '\'' {
            self.flush().emit(TokenModel::Quote)
        } else if c == '@' {
            self.emit(TokenModel::Deref)
        } else if c == '`' {
            if self.buf.len() == 0 {
                self.emit(TokenModel::Quasiquote)
            } else {
                self.keep(c)
            }
        } else if c == '^' {
            if self.buf.len() == 0 {
                self.emit(TokenModel::Atom(seq![c]))
            } else {
                self.keep(c)
            }
        } else if c == '~' {
            self.keep(c)
        } else if c == ';' {
            self.flush().hold(seq![';'])
        } else if c == '"' {
            self.flush().hold(seq!['"'])
        } else {
            self.keep(c)
        }
    }

    /// One character after a `~` that is waiting: `~@` is one token, any
    /// other character leaves `~` a token of its own and is then read as usual.
    pub open spec fn step_tilde(self, c: char) -> Lexer {
        if c == '@' {
            self.hold(Seq::empty()).emit(TokenModel::SpliceUnquote)
        } else {
            self.hold(Seq::empty()).emit(TokenModel::Unquote).step_plain(c)
        }
    }

    /// The state after one more character.
    pub open spec fn step(self, c: char) -> Lexer {
        let s = if c == '\n' {
            self.count_line()
        } else {
            self
        };
        if s.in_string() {
            s.step_string(c)
        } else if s.in_comment() {
            if c == '\n' {
                s.hold(Seq::empty())
            } else {
                s
            }
        } else if s.in_tilde() {
            s.step_tilde(c)
        } else {
            s.step_plain(c)
        }
    }

    /// The state after the characters of `src`, one after the other.
    pub open spec fn run(self, src: Seq<char>) -> Lexer
        decreases src.len(),
    {
        if src.len() == 0 {
            self
        } else {
            self.step(src[0]).run(src.drop_first())
        }
    }

    /// The state after each of the pieces has been fed in turn.
    pub open spec fn run_pieces(self, pieces: Seq<Seq<char>>) -> Lexer
        decreases pieces.len(),
    {
        if pieces.len() == 0 {
            self
        } else {
            self.run(pieces[0]).run_pieces(pieces.drop_first())
        }
    }
}

/// The pieces joined into one text.
pub open spec fn joined(pieces: Seq<Seq<char>>) -> Seq<char>
    decreases pieces.len(),
{
    if pieces.len() == 0 {
        Seq::empty()
    } else {
        pieces[0] + joined(pieces.drop_first())
    }
}

/// Feeding a text in two pieces leaves the tokenizer where feeding it whole
/// does.
pub proof fn lemma_run_split(s: Lexer, a: Seq<char>, b: Seq<char>)
    ensures
        s.run(a).run(b) == s.run(a + b),
    decreases a.len(),
{
    if a.len() == 0 {
        assert(a + b =~= b);
    } else {
        assert((a + b)[0] == a[0]);
        assert((a + b).drop_first() =~= a.drop_first() + b);
        lemma_run_split(s.step(a[0]), a.drop_first(), b);
    }
}

/// However a source text is cut into pieces, feeding the pieces in order
/// leaves the tokenizer in the state that feeding the whole text at once leaves
/// it in: the same tokens completed, the same token in progress. What is read
/// from the tokens afterwards is therefore the same too.
pub proof fn lemma_tokenize_in_pieces(s: Lexer, pieces: Seq<Seq<char>>)
    ensures
        s.run_pieces(pieces) == s.run(joined(pieces)),
    decreases pieces.len(),
{
    if pieces.len() > 0 {
        lemma_tokenize_in_pieces(s.run(pieces[0]), pieces.drop_first());
        lemma_run_split(s, pieces[0], joined(pieces.drop_first()));
    }
}

/// What the reader works on when it builds trees: the tokens not yet
/// consumed, the forms that are open, and the names that the environment
/// knows.
pub struct ReadModel {
    pub tokens: Seq<TokenModel>,
    pub stack: Seq<ParentModel>,
    pub names: Seq<Seq<char>>,
}

/// Where one step of reading leaves the reader: at the end of this call, with
/// a result, or ready for the next token.
pub enum ReadStep {
    Done(ReadModel, Result<Option<ValueModel>, Seq<char>>),
    More(ReadModel),
}

/// The symbol of `text` among `names`, and the names that are known
/// afterwards; `None` where the name is new and no identifier is left for it.
pub open spec fn intern(names: Seq<Seq<char>>, text: Seq<char>) -> Option<(Seq<Seq<char>>, Symbol)> {
    if names.contains(text) {
        Some((names, id_of(names, text) as Symbol))
    } else if names.len() < symbol_limit() {
        Some((names.push(text), names.len() as Symbol))
    } else {
        None
    }
}

/// The value that an atom stands for, and the names known afterwards. `number`
/// is what the host makes of the atom's text as a number literal.
pub open spec fn atom_value(text: Seq<char>, number: Option<u64>, names: Seq<Seq<char>>) -> Option<
    (ValueModel, Seq<Seq<char>>),
> {
    if text == "nil"@ {
        Some((ValueModel::Nil, names))
    } else if text == "true"@ {
        Some((ValueModel::Bool(true), names))
    } else if text == "false"@ {
        Some((ValueModel::Bool(false), names))
    } else if text.len() > 0 && text[0] == '"' {
        Some((ValueModel::Str(text.skip(1)), names))
    } else {
        match number {
            Some(bits) => Some((ValueModel::Number(bits), names)),
            None => match intern(names, text) {
                Some((known, id)) => Some((ValueModel::Symbol(id), known)),
                None => None,
            },
        }
    }
}

/// The name of the form that a reader macro stands for.
pub open spec fn macro_name(p: ParentModel) -> Seq<char> {
    match p {
        ParentModel::Quote => "quote"@,
        ParentModel::Quasiquote => "quasiquote"@,
        ParentModel::Unquote => "unquote"@,
        ParentModel::SpliceUnquote => "splice-unquote"@,
        ParentModel::Deref => "deref"@,
        ParentModel::List(_) => Seq::empty(),
    }
}

/// The message for a `)` that follows a reader macro directly.
pub open spec fn close_error(p: ParentModel) -> Seq<char> {
    "Cannot "@ + macro_name(p) + " a ')'"@
}

impl ReadModel {
    /// The reader after an error: the open forms are given up, the tokens
    /// stay.
    pub open spec fn fail(self, msg: Seq<char>) -> ReadStep {
        ReadStep::Done(ReadModel { stack: Seq::empty(), ..self }, Err(msg))
    }

    /// Hands a finished value to the innermost open form. A list takes it in;
    /// a reader macro becomes the list of its name and the value, to be closed
    /// by a `)` that is put in front of the tokens; with no form open the value
    /// is the result.
    pub open spec fn attach(self, v: ValueModel) -> ReadStep {
        if self.stack.len() == 0 {
            ReadStep::Done(self, Ok(Some(v)))
        } else {
            match self.stack.last() {
                ParentModel::List(items) => ReadStep::More(
                    ReadModel {
                        stack: self.stack.drop_last().push(ParentModel::List(items.push(v))),
                        ..self
                    },
                ),
                p => match intern(self.names, macro_name(p)) {
                    Some((names, id)) => ReadStep::More(
                        ReadModel {
                            tokens: seq![TokenModel::ListEnd] + self.tokens,
                            stack: self.stack.drop_last().push(
                                ParentModel::List(seq![ValueModel::Symbol(id), v]),
                            ),
                            names,
                        },
                    ),
                    None => self.fail("Too many symbols."@),
                },
            }
        }
    }

    /// Opens a form.
    pub open spec fn open(self, p: ParentModel) -> ReadStep {
        ReadStep::More(ReadModel { stack: self.stack.push(p), ..self })
    }

    /// One step: consumes the next token.
    pub open spec fn step(self, parse: spec_fn(Seq<char>) -> Option<u64>) -> ReadStep {
        if self.tokens.len() == 0 {
            ReadStep::Done(self, Ok(None))
        } else {
            let rest = ReadModel { tokens: self.tokens.drop_first(), ..self };
            match self.tokens[0] {
                TokenModel::Atom(text) => match atom_value(text, parse(text), self.names) {
                    Some((v, names)) => ReadModel { names, ..rest }.attach(v),
                    None => rest.fail("Too many symbols."@),
                },
                TokenModel::Quote => rest.open(ParentModel::Quote),
                TokenModel::Quasiquote => rest.open(ParentModel::Quasiquote),
                TokenModel::Unquote => rest.open(ParentModel::Unquote),
                TokenModel::SpliceUnquote => rest.open(ParentModel::SpliceUnquote),
                TokenModel::Deref => rest.open(ParentModel::Deref),
                TokenModel::ListStart => rest.open(ParentModel::List(Seq::empty())),
                TokenModel::ListEnd => if self.stack.len() == 0 {
                    rest.fail("A form cannot begin with ')'"@)
                } else {
                    match self.stack.last() {
                        ParentModel::List(items) => ReadModel {
                            stack: self.stack.drop_last(),
                            ..rest
                        }.attach(ValueModel::List(items)),
                        p => rest.fail(close_error(p)),
                    }
                },
            }
        }
    }

    /// A bound on the steps left: every step consumes a token, or turns a
    /// reader macro into a list and a token.
    pub open spec fn work(self) -> nat {
        2 * self.tokens.len() + macro_count(self.stack)
    }

    /// Reads until a top-level value is complete, an error is found, or the
    /// tokens run out: the reader afterwards, and the result.
    pub open spec fn read(self, parse: spec_fn(Seq<char>) -> Option<u64>) -> (
        ReadModel,
        Result<Option<ValueModel>, Seq<char>>,
    )
        decreases self.work(),
    {
        match self.step(parse) {
            ReadStep::Done(m, r) => (m, r),
            ReadStep::More(m) => {
                proof {
                    lemma_step_works(self, parse);
                }
                m.read(parse)
            },
        }
    }
}

/// The number of reader macros among the open forms.
pub open spec fn macro_count(stack: Seq<ParentModel>) -> nat
    decreases stack.len(),
{
    if stack.len() == 0 {
        0
    } else {
        macro_count(stack.drop_last()) + if stack.last() is List {
            0nat
        } else {
            1nat
        }
    }
}

proof fn lemma_macro_count_push(stack: Seq<ParentModel>, p: ParentModel)
    ensures
        macro_count(stack.push(p)) == macro_count(stack) + if p is List {
            0nat
        } else {
            1nat
        },
{
    assert(stack.push(p).drop_last() =~= stack);
}

/// A step that does not end the call leaves less work.
pub proof fn lemma_step_works(m: ReadModel, parse: spec_fn(Seq<char>) -> Option<u64>)
    ensures
        m.step(parse) matches ReadStep::More(next) ==> next.work() < m.work(),
{
    if m.tokens.len() > 0 {
        let rest = ReadModel { tokens: m.tokens.drop_first(), ..m };
        match m.tokens[0] {
            TokenModel::Atom(text) => {
                match atom_value(text, parse(text), m.names) {
                    Some((v, names)) => {
                        lemma_attach_works(ReadModel { names, ..rest }, v);
                    },
                    None => {},
                }
            },
            TokenModel::Quote => {
                lemma_macro_count_push(m.stack, ParentModel::Quote);
            },
            TokenModel::Quasiquote => {
                lemma_macro_count_push(m.stack, ParentModel::Quasiquote);
            },
            TokenModel::Unquote => {
                lemma_macro_count_push(m.stack, ParentModel::Unquote);
            },
            TokenModel::SpliceUnquote => {
                lemma_macro_count_push(m.stack, ParentModel::SpliceUnquote);
            },
            TokenModel::Deref => {
                lemma_macro_count_push(m.stack, ParentModel::Deref);
            },
            TokenModel::ListStart => {
                lemma_macro_count_push(m.stack, ParentModel::List(Seq::empty()));
            },
            TokenModel::ListEnd => {
                if m.stack.len() > 0 {
                    match m.stack.last() {
                        ParentModel::List(items) => {
                            lemma_attach_works(
                                ReadModel { stack: m.stack.drop_last(), ..rest },
                                ValueModel::List(items),
                            );
                        },
                        _ => {},
                    }
                }
            },
        }
    }
}

proof fn lemma_attach_works(m: ReadModel, v: ValueModel)
    ensures
        m.attach(v) matches ReadStep::More(next) ==> next.work() < m.work() + 2,
{
    if m.stack.len() > 0 {
        match m.stack.last() {
            ParentModel::List(items) => {
                lemma_macro_count_push(m.stack.drop_last(), ParentModel::List(items.push(v)));
            },
            p => {
                match intern(m.names, macro_name(p)) {
                    Some((names, id)) => {
                        lemma_macro_count_push(
                            m.stack.drop_last(),
                            ParentModel::List(seq![ValueModel::Symbol(id), v]),
                        );
                    },
                    None => {},
                }
            },
        }
    }
}

/// Growing an environment twice is growing it once.
proof fn lemma_grown_twice<E: Env>(a: E, b: E, c: E)
    requires
        env_grown(a, b, b.names()),
        env_grown(b, c, c.names()),
    ensures
        env_grown(a, c, c.names()),
{
    assert(c.globals() =~= a.globals() + no_values::<Value>(c.names().len() - a.names().len()));
}

proof fn lemma_close_errors()
    ensures
        close_error(ParentModel::Quote) == "Cannot quote a ')'"@,
        close_error(ParentModel::Quasiquote) == "Cannot quasiquote a ')'"@,
        close_error(ParentModel::Unquote) == "Cannot unquote a ')'"@,
        close_error(ParentModel::SpliceUnquote) == "Cannot splice-unquote a ')'"@,
        close_error(ParentModel::Deref) == "Cannot deref a ')'"@,
{
    reveal_strlit("Cannot ");
    reveal_strlit(" a ')'");
    reveal_strlit("quote");
    reveal_strlit("quasiquote");
    reveal_strlit("unquote");
    reveal_strlit("splice-unquote");
    reveal_strlit("deref");
    reveal_strlit("Cannot quote a ')'");
    reveal_strlit("Cannot quasiquote a ')'");
    reveal_strlit("Cannot unquote a ')'");
    reveal_strlit("Cannot splice-unquote a ')'");
    reveal_strlit("Cannot deref a ')'");
    assert(close_error(ParentModel::Quote) =~= "Cannot quote a ')'"@);
    assert(close_error(ParentModel::Quasiquote) =~= "Cannot quasiquote a ')'"@);
    assert(close_error(ParentModel::Unquote) =~= "Cannot unquote a ')'"@);
    assert(close_error(ParentModel::SpliceUnquote) =~= "Cannot splice-unquote a ')'"@);
    assert(close_error(ParentModel::Deref) =~= "Cannot deref a ')'"@);
}

/// A reader as pure data.
pub struct ReaderModel {
    /// The tokenizer.
    pub lexer: Lexer,
    /// The forms that are open, the innermost last.
    pub stack: Seq<ParentModel>,
}

impl ReaderModel {
    /// What the tree builder works on: this reader's tokens and open forms,
    /// and the names that the environment knows.
    pub open spec fn reading(self, names: Seq<Seq<char>>) -> ReadModel {
        ReadModel { tokens: self.lexer.tokens, stack: self.stack, names }
    }

    /// This reader after reading has left the tokens and open forms of `m`.
    pub open spec fn after(self, m: ReadModel) -> ReaderModel {
        ReaderModel { lexer: Lexer { tokens: m.tokens, ..self.lexer }, stack: m.stack }
    }
}

/// The environment `after` is `before` with its names grown to `names`, each
/// new name with an empty slot.
pub open spec fn env_grown<E: Env>(before: E, after: E, names: Seq<Seq<char>>) -> bool {
    &&& after.inv()
    &&& after.names() == names
    &&& before.names().len() <= names.len()
    &&& after.globals() == before.globals() + no_values::<Value>(names.len() - before.names().len())
}

/// Whether a result of reading is as expected.
pub open spec fn read_result_is(
    r: Result<Option<Value>, ZapErr>,
    expected: Result<Option<ValueModel>, Seq<char>>,
) -> bool {
    match (r, expected) {
        (Ok(Some(v)), Ok(Some(m))) => v@ == m,
        (Ok(None), Ok(None)) => true,
        (Err(e), Err(msg)) => e@ == msg,
        _ => false,
    }
}

enum Progress {
    Done(Result<Option<Value>, ZapErr>),
    More,
}

/// Whether a step of the reader went as it should.
spec fn progress_is<E: Env>(
    p: Progress,
    expected: ReadStep,
    reader_before: ReaderModel,
    reader_after: ReaderModel,
    env_before: E,
    env_after: E,
) -> bool {
    match (p, expected) {
        (Progress::Done(r), ReadStep::Done(m, out)) => {
            &&& read_result_is(r, out)
            &&& reader_after == reader_before.after(m)
            &&& env_grown(env_before, env_after, m.names)
        },
        (Progress::More, ReadStep::More(m)) => {
            &&& reader_after == reader_before.after(m)
            &&& env_grown(env_before, env_after, m.names)
        },
        _ => false,
    }
}

fn chars_are(v: &Vec<char>, s: &str) -> (r: bool)
    ensures
        r == (v@ == s@),
{
    let w = chars_of(s);
    chars_eq(v, &w)
}

/// The reader.
pub struct Reader {
    tokens: VecDeque<Token>,
    token_buf: Vec<char>,
    escaped: bool,
    line: u64,
    stack: Vec<ParentForm>,
}

impl View for Reader {
    type V = ReaderModel;

    closed spec fn view(&self) -> ReaderModel {
        ReaderModel {
            lexer: Lexer {
                tokens: tokens_model(self.tokens@),
                buf: self.token_buf@,
                escaped: self.escaped,
                line: self.line,
            },
            stack: parents_model(self.stack@),
        }
    }
}

impl Default for Reader {
    fn default() -> (r: Self)
        ensures
            r@ == Reader::fresh(),
    {
        Reader::new()
    }
}

impl Reader {
    /// A reader that has read nothing.
    pub open spec fn fresh() -> ReaderModel {
        ReaderModel {
            lexer: Lexer { tokens: Seq::empty(), buf: Seq::empty(), escaped: false, line: 0 },
            stack: Seq::empty(),
        }
    }

    /// A reader that has read nothing.
    pub fn new() -> (r: Reader)
        ensures
            r@ == Reader::fresh(),
    {
        let r = Reader {
            tokens: VecDeque::new(),
            token_buf: Vec::new(),
            escaped: false,
            line: 0,
            stack: Vec::new(),
        };
        proof {
            assert(r@.lexer.tokens =~= Seq::empty());
            assert(r@.stack =~= Seq::empty());
        }
        r
    }

    /// The number of line ends read so far.
    pub fn line(&self) -> (n: u64)
        ensures
            n == self@.lexer.line,
    {
        self.line
    }

    fn emit(&mut self, t: Token)
        ensures
            final(self)@.lexer == old(self)@.lexer.emit(t@),
            final(self)@.stack == old(self)@.stack,
    {
        self.tokens.push_back(t);
        proof {
            assert(final(self)@.lexer.tokens =~= old(self)@.lexer.tokens.push(t@));
        }
    }

    /// End of input: completes the token in progress, if there is one, as an
    /// atom.
    pub fn flush_token(&mut self)
        ensures
            final(self)@.lexer == old(self)@.lexer.flush(),
            final(self)@.stack == old(self)@.stack,
    {
        self.escaped = false;
        if self.token_buf.len() > 0 {
            let mut text: Vec<char> = Vec::new();
            std::mem::swap(&mut self.token_buf, &mut text);
            self.emit(Token::Atom(text));
        }
    }

    fn step_string(&mut self, c: char)
        ensures
            final(self)@.lexer == old(self)@.lexer.step_string(c),
            final(self)@.stack == old(self)@.stack,
    {
        if self.escaped {
            let u = if c == 'n' {
                '\n'
            } else if c == 'r' {
                '\r'
            } else if c == '0' {
                '\0'
            } else if c == 't' {
                '\t'
            } else {
                c
            };
            self.token_buf.push(u);
            self.escaped = false;
        } else if c == '"' {
            self.flush_token();
        } else if c == '\\' {
            self.escaped = true;
        } else {
            self.token_buf.push(c);
        }
    }

    fn step_plain(&mut self, c: char)
        ensures
            final(self)@.lexer == old(self)@.lexer.step_plain(c),
            final(self)@.stack == old(self)@.stack,
    {
        if c == ' ' || c == '\n' || c == '\t' || c == ',' {
            self.flush_token();
        } else if c == '(' {
            self.flush_token();
            self.emit(Token::ListStart);
        } else if c == ')' {
            self.flush_token();
            self.emit(Token::ListEnd);
        } else if c == '\'' {
            self.flush_token();
            self.emit(Token::Quote);
        } else if c == '@' {
            self.emit(Token::Deref);
        } else if c == '`' {
            if self.token_buf.len() == 0 {
                self.emit(Token::Quasiquote);
            } else {
                self.token_buf.push(c);
            }
        } else if c == '^' {
            if self.token_buf.len() == 0 {
                let mut text: Vec<char> = Vec::new();
                text.push(c);
                proof {
                    assert(text@ =~= seq![c]);
                }
                self.emit(Token::Atom(text));
            } else {
                self.token_buf.push(c);
            }
        } else if c == '~' {
            self.token_buf.push(c);
        } else if c == ';' {
            self.flush_token();
            self.token_buf.push(';');
            proof {
                assert(self.token_buf@ =~= seq![';']);
            }
        } else if c == '"' {
            self.flush_token();
            self.token_buf.push('"');
            proof {
                assert(self.token_buf@ =~= seq!['"']);
            }
        } else {
            self.token_buf.push(c);
        }
    }

    fn step(&mut self, c: char)
        ensures
            final(self)@.lexer == old(self)@.lexer.step(c),
            final(self)@.stack == old(self)@.stack,
    {
        if c == '\n' && self.line < u64::MAX {
            self.line = self.line + 1;
        }
        if self.token_buf.len() > 0 && self.token_buf[0] == '"' {
            self.step_string(c);
        } else if self.token_buf.len() > 0 && self.token_buf[0] == ';' {
            if c == '\n' {
                self.token_buf.clear();
            }
        } else if self.token_buf.len() > 0 && self.token_buf[0] == '~' {
            self.token_buf.clear();
            if c == '@' {
                self.emit(Token::SpliceUnquote);
            } else {
                self.emit(Token::Unquote);
                self.step_plain(c);
            }
        } else {
            self.step_plain(c);
        }
    }

    /// The value that an atom stands for. A symbol is interned in `env`.
    pub fn read_atom<E: Env, P: Fn(&str) -> Option<u64>, S: Fn(u64) -> String, A: Fn(
        crate::numbers::Arith,
        u64,
        u64,
    ) -> u64>(atom: Vec<char>, env: &mut E, nums: &Numbers<P, S, A>) -> (r: Result<Value, ZapErr>)
        requires
            old(env).inv(),
            nums.wf(),
        ensures
            match atom_value(atom@, nums.parsed(atom@), old(env).names()) {
                Some((v, names)) => {
                    &&& r matches Ok(x) && x@ == v
                    &&& env_grown(*old(env), *final(env), names)
                },
                None => {
                    &&& r matches Err(e) && e@ == "Too many symbols."@
                    &&& env_grown(*old(env), *final(env), old(env).names())
                },
            },
    {
        proof {
            assert(old(env).globals() + no_values::<Value>(0) =~= old(env).globals());
            assert(old(env).globals() + no_values::<Value>(1) =~= old(env).globals().push(None));
        }
        if chars_are(&atom, "nil") {
            return Ok(Value::Nil);
        }
        if chars_are(&atom, "true") {
            return Ok(Value::Bool(true));
        }
        if chars_are(&atom, "false") {
            return Ok(Value::Bool(false));
        }
        if atom.len() > 0 && atom[0] == '"' {
            let mut rest = atom;
            rest.remove(0);
            proof {
                assert(rest@ =~= atom@.skip(1));
            }
            let text = string_from_chars(&rest);
            return Ok(Value::Str(ZapString::new(text.as_str())));
        }
        let text = string_from_chars(&atom);
        match nums.parse_number(text.as_str()) {
            Some(bits) => Ok(Value::Number(bits)),
            None => env.reg_symbol(ZapString::new(text.as_str())),
        }
    }

    /// Gives up the forms that are open and returns the error.
    fn read_error(&mut self, msg: &str) -> (e: ZapErr)
        ensures
            e@ == msg@,
            final(self)@.lexer == old(self)@.lexer,
            final(self)@.stack == Seq::<ParentModel>::empty(),
    {
        self.stack.clear();
        proof {
            assert(final(self)@.stack =~= Seq::<ParentModel>::empty());
        }
        error_msg(msg)
    }

    /// Turns a reader macro into the list of its name and its argument. The
    /// list is closed by a `)` put in front of the tokens.
    fn expand_reader_macro<E: Env>(&mut self, expanded: &str, exp: Value, env: &mut E) -> (p:
        Progress)
        requires
            old(env).inv(),
        ensures
            match intern(old(env).names(), expanded@) {
                Some((names, id)) => {
                    &&& p is More
                    &&& final(self)@.lexer == Lexer {
                        tokens: seq![TokenModel::ListEnd] + old(self)@.lexer.tokens,
                        ..old(self)@.lexer
                    }
                    &&& final(self)@.stack == old(self)@.stack.push(
                        ParentModel::List(seq![ValueModel::Symbol(id), exp@]),
                    )
                    &&& env_grown(*old(env), *final(env), names)
                },
                None => {
                    &&& p matches Progress::Done(Err(e)) && e@ == "Too many symbols."@
                    &&& final(self)@.lexer == old(self)@.lexer
                    &&& final(self)@.stack == Seq::<ParentModel>::empty()
                    &&& env_grown(*old(env), *final(env), old(env).names())
                },
            },
    {
        proof {
            assert(old(env).globals() + no_values::<Value>(0) =~= old(env).globals());
            assert(old(env).globals() + no_values::<Value>(1) =~= old(env).globals().push(None));
        }
        match env.reg_symbol(ZapString::new(expanded)) {
            Ok(symbol) => {
                self.tokens.push_front(Token::ListEnd);
                let mut items: Vec<Value> = Vec::new();
                items.push(symbol);
                items.push(exp);
                let form = ParentForm::List(items);
                proof {
                    assert(form@ == ParentModel::List(seq![symbol@, exp@])) by {
                        assert(values_model(items@) =~= seq![symbol@, exp@]);
                    }
                }
                self.stack.push(form);
                proof {
                    assert(final(self)@.lexer.tokens =~= seq![TokenModel::ListEnd] + old(
                        self,
                    )@.lexer.tokens);
                    assert(final(self)@.stack =~= old(self)@.stack.push(form@));
                }
                Progress::More
            },
            Err(e) => {
                let _ = self.read_error("");
                Progress::Done(Err(e))
            },
        }
    }

    /// Hands a finished value to the innermost open form.
    fn attach<E: Env>(&mut self, exp: Value, env: &mut E) -> (p: Progress)
        requires
            old(env).inv(),
        ensures
            progress_is(
                p,
                old(self)@.reading(old(env).names()).attach(exp@),
                old(self)@,
                final(self)@,
                *old(env),
                *final(env),
            ),
    {
        proof {
            assert(old(env).globals() + no_values::<Value>(0) =~= old(env).globals());
        }
        let ghost stack0 = self@.stack;
        match self.stack.pop() {
            Some(ParentForm::List(mut parent)) => {
                let ghost items = values_model(parent@);
                parent.push(exp);
                let form = ParentForm::List(parent);
                proof {
                    assert(form@ == ParentModel::List(items.push(exp@))) by {
                        assert(values_model(parent@) =~= items.push(exp@));
                    }
                    assert(self@.stack =~= stack0.drop_last());
                    assert(stack0.last() == ParentModel::List(items));
                }
                self.stack.push(form);
                proof {
                    assert(final(self)@.stack =~= stack0.drop_last().push(form@));
                }
                Progress::More
            },
            Some(form) => {
                proof {
                    assert(self@.stack =~= stack0.drop_last());
                    assert(stack0.last() == form@);
                }
                match form {
                    ParentForm::Quote => self.expand_reader_macro("quote", exp, env),
                    ParentForm::Quasiquote => self.expand_reader_macro("quasiquote", exp, env),
                    ParentForm::Unquote => self.expand_reader_macro("unquote", exp, env),
                    ParentForm::SpliceUnquote => self.expand_reader_macro(
                        "splice-unquote",
                        exp,
                        env,
                    ),
                    _ => self.expand_reader_macro("deref", exp, env),
                }
            },
            None => {
                proof {
                    assert(stack0.len() == 0);
                    assert(final(self)@.stack =~= stack0);
                }
                Progress::Done(Ok(Some(exp)))
            },
        }
    }

    /// Opens a form.
    fn open(&mut self, form: ParentForm)
        ensures
            final(self)@.lexer == old(self)@.lexer,
            final(self)@.stack == old(self)@.stack.push(form@),
    {
        self.stack.push(form);
        proof {
            assert(final(self)@.stack =~= old(self)@.stack.push(form@));
        }
    }

    /// Consumes the next token.
    fn read_step<E: Env, P: Fn(&str) -> Option<u64>, S: Fn(u64) -> String, A: Fn(
        crate::numbers::Arith,
        u64,
        u64,
    ) -> u64>(&mut self, env: &mut E, nums: &Numbers<P, S, A>) -> (p: Progress)
        requires
            old(env).inv(),
            nums.wf(),
        ensures
            progress_is(
                p,
                old(self)@.reading(old(env).names()).step(nums.parser()),
                old(self)@,
                final(self)@,
                *old(env),
                *final(env),
            ),
    {
        proof {
            assert(old(env).globals() + no_values::<Value>(0) =~= old(env).globals());
        }
        let ghost tokens0 = self@.lexer.tokens;
        let ghost stack0 = self@.stack;
        let token = match self.tokens.pop_front() {
            Some(token) => token,
            None => {
                proof {
                    assert(tokens0.len() == 0);
                    assert(final(self)@.lexer.tokens =~= tokens0);
                }
                return Progress::Done(Ok(None));
            },
        };
        proof {
            assert(self@.lexer.tokens =~= tokens0.drop_first());
            assert(tokens0[0] == token@);
        }
        match token {
            Token::Atom(text) => {
                let ghost before = *env;
                match Reader::read_atom(text, env, nums) {
                    Ok(exp) => {
                        let ghost mid = *env;
                        let p = self.attach(exp, env);
                        proof {
                            lemma_grown_twice(before, mid, *env);
                        }
                        p
                    },
                    Err(e) => {
                        let _ = self.read_error("");
                        Progress::Done(Err(e))
                    },
                }
            },
            Token::Quote => {
                self.open(ParentForm::Quote);
                Progress::More
            },
            Token::Quasiquote => {
                self.open(ParentForm::Quasiquote);
                Progress::More
            },
            Token::Unquote => {
                self.open(ParentForm::Unquote);
                Progress::More
            },
            Token::SpliceUnquote => {
                self.open(ParentForm::SpliceUnquote);
                Progress::More
            },
            Token::Deref => {
                self.open(ParentForm::Deref);
                Progress::More
            },
            Token::ListStart => {
                let form = ParentForm::List(Vec::new());
                proof {
                    assert(form@ == ParentModel::List(Seq::empty())) by {
                        assert(values_model(Seq::<Value>::empty()) =~= Seq::<ValueModel>::empty());
                    }
                }
                self.open(form);
                Progress::More
            },
            Token::ListEnd => {
                match self.stack.pop() {
                    Some(ParentForm::List(seq)) => {
                        proof {
                            assert(self@.stack =~= stack0.drop_last());
                            assert(stack0.last() == ParentModel::List(values_model(seq@)));
                        }
                        let exp = Value::List(Value::new_list(seq));
                        self.attach(exp, env)
                    },
                    Some(form) => {
                        proof {
                            assert(stack0.last() == form@);
                        }
                        let e = match form {
                            ParentForm::Quote => self.read_error("Cannot quote a ')'"),
                            ParentForm::Quasiquote => self.read_error("Cannot quasiquote a ')'"),
                            ParentForm::Unquote => self.read_error("Cannot unquote a ')'"),
                            ParentForm::SpliceUnquote => self.read_error(
                                "Cannot splice-unquote a ')'",
                            ),
                            _ => self.read_error("Cannot deref a ')'"),
                        };
                        proof {
                            lemma_close_errors();
                        }
                        Progress::Done(Err(e))
                    },
                    None => {
                        proof {
                            assert(stack0.len() == 0);
                        }
                        let e = self.read_error("A form cannot begin with ')'");
                        Progress::Done(Err(e))
                    },
                }
            },
        }
    }

    /// Reads the next complete top-level value from the tokens: `Some` of it,
    /// or `None` where the tokens run out first. What has been read of a form
    /// that is still open is kept for the next call. On an error the forms that
    /// are open are given up.
    pub fn read_ast<E: Env, P: Fn(&str) -> Option<u64>, S: Fn(u64) -> String, A: Fn(
        crate::numbers::Arith,
        u64,
        u64,
    ) -> u64>(&mut self, env: &mut E, nums: &Numbers<P, S, A>) -> (r: Result<
        Option<Value>,
        ZapErr,
    >)
        requires
            old(env).inv(),
            nums.wf(),
        ensures
            ({
                let (m, out) = old(self)@.reading(old(env).names()).read(nums.parser());
                &&& read_result_is(r, out)
                &&& final(self)@ == old(self)@.after(m)
                &&& env_grown(*old(env), *final(env), m.names)
            }),
    {
        proof {
            assert(old(env).globals() + no_values::<Value>(0) =~= old(env).globals());
        }
        loop
            invariant
                env.inv(),
                nums.wf(),
                self@.lexer == (Lexer { tokens: self@.lexer.tokens, ..old(self)@.lexer }),
                env_grown(*old(env), *env, env.names()),
                self@.reading(env.names()).read(nums.parser()) == old(self)@.reading(
                    old(env).names(),
                ).read(nums.parser()),
            decreases self@.reading(env.names()).work(),
        {
            let ghost before = *env;
            let ghost reader_before = self@;
            proof {
                lemma_step_works(self@.reading(env.names()), nums.parser());
            }
            match self.read_step(env, nums) {
                Progress::Done(r) => {
                    proof {
                        lemma_grown_twice(*old(env), before, *env);
                    }
                    return r;
                },
                Progress::More => {
                    proof {
                        lemma_grown_twice(*old(env), before, *env);
                    }
                },
            }
        }
    }

    /// Reads the next complete top-level value: another name of
    /// [`Reader::read_ast`].
    pub fn read_form<E: Env, P: Fn(&str) -> Option<u64>, S: Fn(u64) -> String, A: Fn(
        crate::numbers::Arith,
        u64,
        u64,
    ) -> u64>(&mut self, env: &mut E, nums: &Numbers<P, S, A>) -> (r: Result<
        Option<Value>,
        ZapErr,
    >)
        requires
            old(env).inv(),
            nums.wf(),
        ensures
            ({
                let (m, out) = old(self)@.reading(old(env).names()).read(nums.parser());
                &&& read_result_is(r, out)
                &&& final(self)@ == old(self)@.after(m)
                &&& env_grown(*old(env), *final(env), m.names)
            }),
    {
        self.read_ast(env, nums)
    }

    /// Reads on through the characters of `src`. Tokens that `src` completes
    /// are queued; a token that it leaves open waits for the next call.
    pub fn tokenize(&mut self, src: &str)
        ensures
            final(self)@.lexer == old(self)@.lexer.run(src@),
            final(self)@.stack == old(self)@.stack,
    {
        let ghost start = self@.lexer;
        proof {
            assert(src@.skip(0) =~= src@);
        }
        for c in it: src.chars()
            invariant
                it.seq() == src@,
                self@.lexer.run(src@.skip(it.index())) == start.run(src@),
                self@.stack == old(self)@.stack,
        {
            proof {
                let rest = src@.skip(it.index());
                assert(rest[0] == c);
                assert(rest.drop_first() =~= src@.skip(it.index() + 1));
            }
            self.step(c);
        }
        proof {
            assert(src@.skip(src@.len() as int) =~= Seq::<char>::empty());
        }
    }
}

} // verus!
