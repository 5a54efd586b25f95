//! Reads a single Odoo `__manifest__.py` (or the legacy `__openerp__.py`).
//!
//! These files are a Python dict *literal*, not arbitrary Python: dicts, lists and tuples,
//! strings (single, double and triple quoted, adjacent ones concatenated), numbers,
//! `True`/`False`/`None` and `#` comments. That literal subset is what is read here.

use crate::text;
use vstd::prelude::*;
use vstd::string::*;

verus! {

// --- values ---------------------------------------------------------------

/// A parsed Python literal. A float is kept as the text that writes it.
#[derive(Debug)]
pub enum PyValue {
    /// `None`.
    Nil,
    Bool(bool),
    Int(i64),
    Float(String),
    Str(String),
    List(Vec<PyValue>),
    Dict(Vec<(String, PyValue)>),
}

/// What a literal means.
pub enum Literal {
    /// `None`.
    Nil,
    Bool(bool),
    Int(int),
    Float(Seq<char>),
    Str(Seq<char>),
    List(Seq<Literal>),
    Dict(Seq<(Seq<char>, Literal)>),
}

impl View for PyValue {
    type V = Literal;

    open spec fn view(&self) -> Literal {
        literal_of(*self)
    }
}

/// The meaning of a parsed value.
pub open spec fn literal_of(v: PyValue) -> Literal
    decreases v,
{
    match v {
        PyValue::Nil => Literal::Nil,
        PyValue::Bool(b) => Literal::Bool(b),
        PyValue::Int(n) => Literal::Int(n as int),
        PyValue::Float(s) => Literal::Float(s@),
        PyValue::Str(s) => Literal::Str(s@),
        PyValue::List(items) => Literal::List(
            Seq::new(
                items@.len(),
                |i: int|
                    if 0 <= i < items@.len() {
                        literal_of(items@[i])
                    } else {
                        Literal::Nil
                    },
            ),
        ),
        PyValue::Dict(entries) => Literal::Dict(
            Seq::new(
                entries@.len(),
                |i: int|
                    (
                        entries@[i].0@,
                        if 0 <= i < entries@.len() {
                            literal_of(entries@[i].1)
                        } else {
                            Literal::Nil
                        },
                    ),
            ),
        ),
    }
}

/// The meanings of the items of a list.
pub open spec fn literals_of(items: Seq<PyValue>) -> Seq<Literal> {
    items.map_values(|v: PyValue| v@)
}

/// The meanings of the entries of a dict.
pub open spec fn entries_of(entries: Seq<(String, PyValue)>) -> Seq<(Seq<char>, Literal)> {
    entries.map_values(|e: (String, PyValue)| (e.0@, e.1@))
}

/// A list means the list of what its items mean.
pub proof fn lemma_list_view(items: Vec<PyValue>)
    ensures
        PyValue::List(items)@ == Literal::List(literals_of(items@)),
{
    assert(PyValue::List(items)@->List_0 =~= literals_of(items@));
}

/// A dict means the entries that its entries mean.
pub proof fn lemma_dict_view(entries: Vec<(String, PyValue)>)
    ensures
        PyValue::Dict(entries)@ == Literal::Dict(entries_of(entries@)),
{
    assert(PyValue::Dict(entries)@->Dict_0 =~= entries_of(entries@));
}

// --- positions ------------------------------------------------------------

/// How many line feeds `s` holds.
pub open spec fn line_feeds(s: Seq<char>) -> nat
    decreases s.len(),
{
    if s.len() == 0 {
        0
    } else {
        line_feeds(s.drop_last()) + if s.last() == '\n' {
            1nat
        } else {
            0
        }
    }
}

/// How many characters of `s` stand behind its last line feed.
pub open spec fn on_last_line(s: Seq<char>) -> nat
    decreases s.len(),
{
    if s.len() == 0 || s.last() == '\n' {
        0
    } else {
        on_last_line(s.drop_last()) + 1
    }
}

/// `n`, or the largest `usize` where `n` is larger.
pub open spec fn capped(n: nat) -> usize {
    if n > usize::MAX {
        usize::MAX
    } else {
        n as usize
    }
}

/// The line of position `p`, counted from one.
pub open spec fn line_at(s: Seq<char>, p: int) -> usize {
    capped(1 + line_feeds(s.take(p)))
}

/// The column of position `p`, counted from one.
pub open spec fn col_at(s: Seq<char>, p: int) -> usize {
    capped(1 + on_last_line(s.take(p)))
}

// --- tokens ---------------------------------------------------------------

/// A token of the literal language.
#[derive(Debug)]
pub enum Tok {
    LBrace,
    RBrace,
    LBracket,
    RBracket,
    LParen,
    RParen,
    Colon,
    Comma,
    Str(String),
    Int(i64),
    Float(String),
    True,
    False,
    NoneKw,
    Eof,
}

/// What a token means.
pub enum Token {
    LBrace,
    RBrace,
    LBracket,
    RBracket,
    LParen,
    RParen,
    Colon,
    Comma,
    Str(Seq<char>),
    Int(int),
    Float(Seq<char>),
    True,
    False,
    NoneKw,
    Eof,
}

impl View for Tok {
    type V = Token;

    open spec fn view(&self) -> Token {
        match *self {
            Tok::LBrace => Token::LBrace,
            Tok::RBrace => Token::RBrace,
            Tok::LBracket => Token::LBracket,
            Tok::RBracket => Token::RBracket,
            Tok::LParen => Token::LParen,
            Tok::RParen => Token::RParen,
            Tok::Colon => Token::Colon,
            Tok::Comma => Token::Comma,
            Tok::Str(s) => Token::Str(s@),
            Tok::Int(n) => Token::Int(n as int),
            Tok::Float(s) => Token::Float(s@),
            Tok::True => Token::True,
            Tok::False => Token::False,
            Tok::NoneKw => Token::NoneKw,
            Tok::Eof => Token::Eof,
        }
    }
}

/// A token and where it begins.
#[derive(Debug)]
pub struct Spanned {
    pub tok: Tok,
    pub line: usize,
    pub col: usize,
}

/// What was wrong with a text, and where.
#[derive(Debug)]
pub struct PyParseError {
    pub message: String,
    pub line: usize,
    pub col: usize,
}

/// An error: its message, its line and its column.
pub struct Fault {
    pub message: Seq<char>,
    pub line: usize,
    pub col: usize,
}

impl View for PyParseError {
    type V = Fault;

    open spec fn view(&self) -> Fault {
        Fault { message: self.message@, line: self.line, col: self.col }
    }
}

/// An error at position `p` of `s`.
pub open spec fn fault_at(s: Seq<char>, p: int, message: Seq<char>) -> Fault {
    Fault { message, line: line_at(s, p), col: col_at(s, p) }
}

impl PyParseError {
    /// The error as it is shown.
    pub fn message(&self) -> (r: String)
        ensures
            r@ == "line "@ + text::decimal_of(self.line as nat) + ", col "@ + text::decimal_of(
                self.col as nat,
            ) + ": "@ + self.message@,
    {
        let mut out = "line ".to_owned();
        out.append(text::decimal(self.line as u64).as_str());
        out.append(", col ");
        out.append(text::decimal(self.col as u64).as_str());
        out.append(": ");
        out.append(self.message.as_str());
        out
    }
}

// --- what the tokenizer reads ---------------------------------------------

/// A piece read from the text: what it is and where it ends, or what is wrong and where.
pub enum Read<T> {
    Got(T, int),
    Bad(Seq<char>, int),
}

/// Where the line that holds `p` ends: at a line feed, or at the end of the text.
pub open spec fn line_end(s: Seq<char>, p: int) -> int
    decreases s.len() - p,
{
    if 0 <= p < s.len() && s[p] != '\n' {
        line_end(s, p + 1)
    } else {
        p
    }
}

/// The end of a line is not before the position it was looked for from.
pub proof fn lemma_line_end(s: Seq<char>, p: int)
    requires
        0 <= p <= s.len(),
    ensures
        p <= line_end(s, p) <= s.len(),
    decreases s.len() - p,
{
    if p < s.len() && s[p] != '\n' {
        lemma_line_end(s, p + 1);
    }
}

/// The first position at or behind `p` that is neither white space nor in a comment.
pub open spec fn trivia_end(s: Seq<char>, p: int) -> int
    decreases s.len() - p,
{
    if !(0 <= p < s.len()) {
        p
    } else if text::is_white(s[p]) {
        trivia_end(s, p + 1)
    } else if s[p] == '#' {
        let e = line_end(s, p);
        if p < e <= s.len() {
            trivia_end(s, e)
        } else {
            p
        }
    } else {
        p
    }
}

/// Whether `quote` stands three times at `p`.
pub open spec fn triple_at(s: Seq<char>, p: int, quote: char) -> bool {
    p + 2 < s.len() && s[p] == quote && s[p + 1] == quote && s[p + 2] == quote
}

/// The body of a triple-quoted string: everything up to the closing quotes, as it stands.
pub open spec fn long_string(s: Seq<char>, p: int, quote: char, acc: Seq<char>) -> Read<Seq<char>>
    decreases s.len() - p,
{
    if triple_at(s, p, quote) {
        Read::Got(acc, p + 3)
    } else if p >= s.len() {
        Read::Bad("unterminated triple-quoted string"@, s.len() as int)
    } else {
        long_string(s, p + 1, quote, acc.push(s[p]))
    }
}

/// What the character behind a backslash stands for: an unknown escape is kept as it is written,
/// and a line feed continues the line.
pub open spec fn escaped(c: char) -> Seq<char> {
    if c == 'n' {
        seq!['\n']
    } else if c == 't' {
        seq!['\t']
    } else if c == 'r' {
        seq!['\r']
    } else if c == '\\' || c == '\'' || c == '"' {
        seq![c]
    } else if c == '\n' {
        Seq::empty()
    } else {
        seq!['\\', c]
    }
}

/// The body of a string in single quotes of either sort, its escapes resolved.
pub open spec fn short_string(s: Seq<char>, p: int, quote: char, acc: Seq<char>) -> Read<Seq<char>>
    decreases s.len() - p,
{
    if p >= s.len() {
        Read::Bad("unterminated string literal"@, s.len() as int)
    } else if s[p] == quote {
        Read::Got(acc, p + 1)
    } else if s[p] == '\\' {
        if p + 1 >= s.len() {
            Read::Bad("unterminated escape sequence"@, s.len() as int)
        } else {
            short_string(s, p + 2, quote, acc + escaped(s[p + 1]))
        }
    } else {
        short_string(s, p + 1, quote, acc.push(s[p]))
    }
}

/// The string literal whose opening quote stands at `p`.
pub open spec fn string_at(s: Seq<char>, p: int) -> Read<Seq<char>> {
    let quote = s[p];
    if p + 2 < s.len() && s[p + 1] == quote && s[p + 2] == quote {
        long_string(s, p + 3, quote, Seq::empty())
    } else {
        short_string(s, p + 1, quote, Seq::empty())
    }
}

/// Where the digits at `p` end; the first dot among them is part of the number, unless one was
/// seen already.
pub open spec fn digits_end(s: Seq<char>, p: int, dot_seen: bool) -> int
    decreases s.len() - p,
{
    if 0 <= p < s.len() && text::is_digit(s[p]) {
        digits_end(s, p + 1, dot_seen)
    } else if 0 <= p < s.len() && s[p] == '.' && !dot_seen {
        digits_end(s, p + 1, true)
    } else {
        p
    }
}

/// Where the number that begins at `p` ends.
pub open spec fn number_end(s: Seq<char>, p: int) -> int {
    digits_end(
        s,
        if s[p] == '-' {
            p + 1
        } else {
            p
        },
        false,
    )
}

/// The number that begins at `p`: a float where it holds a dot, else an integer, which has to fit
/// in 64 bits.
pub open spec fn number_at(s: Seq<char>, p: int) -> Read<Token> {
    let e = number_end(s, p);
    let word = s.subrange(p, e);
    if word.contains('.') {
        Read::Got(Token::Float(word), e)
    } else if text::signed_of(word) is Some {
        Read::Got(Token::Int(text::signed_of(word)->0), e)
    } else {
        Read::Bad("invalid int literal '"@ + word + "'"@, p)
    }
}

/// Where the identifier that begins at `p` ends.
pub open spec fn ident_end(s: Seq<char>, p: int) -> int
    decreases s.len() - p,
{
    if 0 <= p < s.len() && (text::is_alphanumeric(s[p]) || s[p] == '_') {
        ident_end(s, p + 1)
    } else {
        p
    }
}

/// The keyword that begins at `p`; any other identifier is refused behind its end.
pub open spec fn keyword_at(s: Seq<char>, p: int) -> Read<Token> {
    let e = ident_end(s, p);
    let word = s.subrange(p, e);
    if word == "True"@ {
        Read::Got(Token::True, e)
    } else if word == "False"@ {
        Read::Got(Token::False, e)
    } else if word == "None"@ {
        Read::Got(Token::NoneKw, e)
    } else {
        Read::Bad(
            "unexpected identifier '"@ + word + "' (only True/False/None are valid here)"@,
            e,
        )
    }
}

/// The token of a bracket, a colon or a comma.
pub open spec fn punctuation(c: char) -> Option<Token> {
    if c == '{' {
        Some(Token::LBrace)
    } else if c == '}' {
        Some(Token::RBrace)
    } else if c == '[' {
        Some(Token::LBracket)
    } else if c == ']' {
        Some(Token::RBracket)
    } else if c == '(' {
        Some(Token::LParen)
    } else if c == ')' {
        Some(Token::RParen)
    } else if c == ':' {
        Some(Token::Colon)
    } else if c == ',' {
        Some(Token::Comma)
    } else {
        None
    }
}

/// The token that begins at `p`, where no white space or comment stands.
pub open spec fn token_at(s: Seq<char>, p: int) -> Read<Token> {
    if p >= s.len() {
        Read::Got(Token::Eof, p)
    } else if punctuation(s[p]) is Some {
        Read::Got(punctuation(s[p])->0, p + 1)
    } else if s[p] == '\'' || s[p] == '"' {
        match string_at(s, p) {
            Read::Got(body, e) => Read::Got(Token::Str(body), e),
            Read::Bad(message, at) => Read::Bad(message, at),
        }
    } else if text::is_digit(s[p]) || (s[p] == '-' && p + 1 < s.len() && text::is_digit(s[p + 1])) {
        number_at(s, p)
    } else if text::is_alphabetic(s[p]) || s[p] == '_' {
        keyword_at(s, p)
    } else {
        Read::Bad("unexpected character '"@ + seq![s[p]] + "'"@, p)
    }
}

/// A token with its place.
pub struct Placed {
    pub tok: Token,
    pub line: usize,
    pub col: usize,
}

impl View for Spanned {
    type V = Placed;

    open spec fn view(&self) -> Placed {
        Placed { tok: self.tok@, line: self.line, col: self.col }
    }
}

/// The tokens of `s` from `p` on, up to and with the end of the text; or the first error.
pub open spec fn tokens_from(s: Seq<char>, p: int, acc: Seq<Placed>) -> Result<Seq<Placed>, Fault>
    decreases s.len() - p,
{
    let q = trivia_end(s, p);
    match token_at(s, q) {
        Read::Bad(message, at) => Err(fault_at(s, at, message)),
        Read::Got(tok, e) => {
            let out = acc.push(Placed { tok, line: line_at(s, q), col: col_at(s, q) });
            if tok is Eof || !(p < e <= s.len()) {
                Ok(out)
            } else {
                tokens_from(s, e, out)
            }
        },
    }
}

/// The tokens of a text.
pub open spec fn tokens_of(s: Seq<char>) -> Result<Seq<Placed>, Fault> {
    tokens_from(s, 0, Seq::empty())
}

// --- how far each reader gets ---------------------------------------------

/// Skipping white space and comments goes forward and stays in the text.
pub proof fn lemma_trivia_end(s: Seq<char>, p: int)
    requires
        0 <= p <= s.len(),
    ensures
        p <= trivia_end(s, p) <= s.len(),
    decreases s.len() - p,
{
    if p < s.len() {
        if text::is_white(s[p]) {
            lemma_trivia_end(s, p + 1);
        } else if s[p] == '#' {
            lemma_line_end(s, p);
            lemma_line_end(s, p + 1);
            lemma_trivia_end(s, line_end(s, p));
        }
    }
}

/// A triple-quoted string ends behind where its body begins.
pub proof fn lemma_long_string(s: Seq<char>, p: int, quote: char, acc: Seq<char>)
    requires
        0 <= p <= s.len(),
    ensures
        long_string(s, p, quote, acc) matches Read::Got(_, e) ==> p < e <= s.len(),
        long_string(s, p, quote, acc) matches Read::Bad(_, at) ==> at == s.len(),
    decreases s.len() - p,
{
    if !triple_at(s, p, quote) && p < s.len() {
        lemma_long_string(s, p + 1, quote, acc.push(s[p]));
    }
}

/// A string ends behind where its body begins.
pub proof fn lemma_short_string(s: Seq<char>, p: int, quote: char, acc: Seq<char>)
    requires
        0 <= p <= s.len(),
    ensures
        short_string(s, p, quote, acc) matches Read::Got(_, e) ==> p < e <= s.len(),
        short_string(s, p, quote, acc) matches Read::Bad(_, at) ==> at == s.len(),
    decreases s.len() - p,
{
    if p < s.len() && s[p] != quote {
        if s[p] == '\\' {
            if p + 1 < s.len() {
                lemma_short_string(s, p + 2, quote, acc + escaped(s[p + 1]));
            }
        } else {
            lemma_short_string(s, p + 1, quote, acc.push(s[p]));
        }
    }
}

/// The digits of a number stay in the text, and nothing but digits and dots is among them.
pub proof fn lemma_digits_end(s: Seq<char>, p: int, dot_seen: bool)
    requires
        0 <= p <= s.len(),
    ensures
        p <= digits_end(s, p, dot_seen) <= s.len(),
        forall|i: int|
            p <= i < digits_end(s, p, dot_seen) ==> text::is_digit(#[trigger] s[i]) || s[i] == '.',
    decreases s.len() - p,
{
    if p < s.len() && text::is_digit(s[p]) {
        lemma_digits_end(s, p + 1, dot_seen);
    } else if p < s.len() && s[p] == '.' && !dot_seen {
        lemma_digits_end(s, p + 1, true);
    }
}

/// An identifier stays in the text.
pub proof fn lemma_ident_end(s: Seq<char>, p: int)
    requires
        0 <= p <= s.len(),
    ensures
        p <= ident_end(s, p) <= s.len(),
    decreases s.len() - p,
{
    if p < s.len() && (text::is_alphanumeric(s[p]) || s[p] == '_') {
        lemma_ident_end(s, p + 1);
    }
}

// --- tokenizer ------------------------------------------------------------

/// Reads a text character by character and knows at which line and column it is.
pub struct Lexer {
    pub chars: Vec<char>,
    pub pos: usize,
    pub line: usize,
    pub col: usize,
}

impl Lexer {
    /// The position is in the text, and line and column are those of the position.
    pub open spec fn wf(self) -> bool {
        &&& self.pos <= self.chars@.len()
        &&& self.line == line_at(self.chars@, self.pos as int)
        &&& self.col == col_at(self.chars@, self.pos as int)
    }

    /// At the beginning of `src`.
    pub fn new(src: &str) -> (r: Self)
        ensures
            r.wf(),
            r.chars@ == src@,
            r.pos == 0,
    {
        let chars = text::chars_of(src);
        assert(chars@.take(0) =~= Seq::<char>::empty());
        Lexer { chars, pos: 0, line: 1, col: 1 }
    }

    /// The next character.
    pub fn peek(&self) -> (r: Option<char>)
        requires
            self.wf(),
        ensures
            r == (if self.pos < self.chars@.len() {
                Some(self.chars@[self.pos as int])
            } else {
                None
            }),
    {
        if self.pos < self.chars.len() {
            Some(self.chars[self.pos])
        } else {
            None
        }
    }

    /// The character `offset` behind the next one.
    pub fn peek_at(&self, offset: usize) -> (r: Option<char>)
        requires
            self.wf(),
        ensures
            r == (if self.pos + offset < self.chars@.len() {
                Some(self.chars@[self.pos + offset])
            } else {
                None
            }),
    {
        if offset < self.chars.len() - self.pos {
            Some(self.chars[self.pos + offset])
        } else {
            None
        }
    }

    /// Steps over the next character.
    pub fn advance(&mut self) -> (r: Option<char>)
        requires
            old(self).wf(),
        ensures
            final(self).wf(),
            final(self).chars == old(self).chars,
            old(self).pos < old(self).chars@.len() ==> {
                &&& r == Some(old(self).chars@[old(self).pos as int])
                &&& final(self).pos == old(self).pos + 1
            },
            old(self).pos >= old(self).chars@.len() ==> {
                &&& r is None
                &&& final(self).pos == old(self).pos
            },
    {
        if self.pos >= self.chars.len() {
            return None;
        }
        let c = self.chars[self.pos];
        proof {
            let p = self.pos as int;
            let s = self.chars@;
            assert(s.take(p + 1).drop_last() =~= s.take(p));
            assert(s.take(p + 1).last() == s[p]);
        }
        self.pos = self.pos + 1;
        if c == '\n' {
            self.line = self.line.saturating_add(1);
            self.col = 1;
        } else {
            self.col = self.col.saturating_add(1);
        }
        Some(c)
    }

    /// An error at the current position.
    pub fn err(&self, message: String) -> (r: PyParseError)
        requires
            self.wf(),
        ensures
            r@ == fault_at(self.chars@, self.pos as int, message@),
    {
        PyParseError { message, line: self.line, col: self.col }
    }

    /// Steps over white space and comments.
    pub fn skip_trivia(&mut self)
        requires
            old(self).wf(),
        ensures
            final(self).wf(),
            final(self).chars == old(self).chars,
            final(self).pos == trivia_end(old(self).chars@, old(self).pos as int),
    {
        let ghost s = self.chars@;
        let ghost start = self.pos as int;
        loop
            invariant
                self.wf(),
                self.chars == old(self).chars,
                self.chars@ == s,
                start == old(self).pos,
                trivia_end(s, start) == trivia_end(s, self.pos as int),
            ensures
                self.pos == trivia_end(s, start),
            decreases s.len() - self.pos,
        {
            let ghost here = self.pos as int;
            match self.peek() {
                Some(c) => {
                    if text::white(c) {
                        let _ = self.advance();
                    } else if c == '#' {
                        let _ = self.advance();
                        proof {
                            lemma_line_end(s, here + 1);
                            assert(line_end(s, here) == line_end(s, here + 1));
                        }
                        loop
                            invariant
                                self.wf(),
                                self.chars == old(self).chars,
                                self.chars@ == s,
                                here < self.pos,
                                line_end(s, here) == line_end(s, self.pos as int),
                            ensures
                                self.pos == line_end(s, here),
                            decreases s.len() - self.pos,
                        {
                            match self.peek() {
                                Some(d) => {
                                    if d == '\n' {
                                        break;
                                    }
                                    let _ = self.advance();
                                },
                                None => {
                                    break;
                                },
                            }
                        }
                    } else {
                        break;
                    }
                },
                None => {
                    break;
                },
            }
        }
    }

    /// Reads the string literal whose opening quote is the next character.
    pub fn read_string(&mut self) -> (r: Result<String, PyParseError>)
        requires
            old(self).wf(),
            old(self).pos < old(self).chars@.len(),
        ensures
            final(self).wf(),
            final(self).chars == old(self).chars,
            match string_at(old(self).chars@, old(self).pos as int) {
                Read::Got(body, e) => r matches Ok(t) && t@ == body && final(self).pos == e,
                Read::Bad(message, at) => r matches Err(f) && f@ == fault_at(
                    old(self).chars@,
                    at,
                    message,
                ),
            },
    {
        let ghost s = self.chars@;
        let ghost start = self.pos as int;
        let quote = self.chars[self.pos];
        let _ = self.advance();
        let mut out = String::new();
        if self.peek() == Some(quote) && self.peek_at(1) == Some(quote) {
            let _ = self.advance();
            let _ = self.advance();
            assert(out@ =~= Seq::<char>::empty());
            loop
                invariant
                    self.wf(),
                    self.chars == old(self).chars,
                    self.chars@ == s,
                    start == old(self).pos,
                    string_at(s, start) == long_string(s, self.pos as int, quote, out@),
                decreases s.len() - self.pos,
            {
                if self.peek() == Some(quote) && self.peek_at(1) == Some(quote) && self.peek_at(2)
                    == Some(quote) {
                    let _ = self.advance();
                    let _ = self.advance();
                    let _ = self.advance();
                    return Ok(out);
                }
                match self.advance() {
                    Some(c) => {
                        out.push(c);
                    },
                    None => {
                        return Err(self.err("unterminated triple-quoted string".to_owned()));
                    },
                }
            }
        }
        assert(out@ =~= Seq::<char>::empty());
        loop
            invariant
                self.wf(),
                self.chars == old(self).chars,
                self.chars@ == s,
                start == old(self).pos,
                string_at(s, start) == short_string(s, self.pos as int, quote, out@),
            decreases s.len() - self.pos,
        {
            let ghost before = out@;
            match self.advance() {
                None => {
                    return Err(self.err("unterminated string literal".to_owned()));
                },
                Some(c) => {
                    if c == quote {
                        return Ok(out);
                    }
                    if c == '\\' {
                        match self.advance() {
                            None => {
                                return Err(self.err("unterminated escape sequence".to_owned()));
                            },
                            Some(d) => {
                                if d == 'n' {
                                    out.push('\n');
                                } else if d == 't' {
                                    out.push('\t');
                                } else if d == 'r' {
                                    out.push('\r');
                                } else if d == '\\' || d == '\'' || d == '"' {
                                    out.push(d);
                                } else if d != '\n' {
                                    out.push('\\');
                                    out.push(d);
                                }
                                assert(out@ =~= before + escaped(d));
                            },
                        }
                    } else {
                        out.push(c);
                    }
                },
            }
        }
    }

    /// Reads the number that begins at the next character.
    pub fn read_number(&mut self) -> (r: Result<Tok, PyParseError>)
        requires
            old(self).wf(),
            old(self).pos < old(self).chars@.len(),
            text::is_digit(old(self).chars@[old(self).pos as int]) || {
                &&& old(self).chars@[old(self).pos as int] == '-'
                &&& old(self).pos + 1 < old(self).chars@.len()
                &&& text::is_digit(old(self).chars@[old(self).pos + 1])
            },
        ensures
            final(self).wf(),
            final(self).chars == old(self).chars,
            match number_at(old(self).chars@, old(self).pos as int) {
                Read::Got(tok, e) => r matches Ok(t) && t@ == tok && final(self).pos == e && e > old(
                    self,
                ).pos,
                Read::Bad(message, at) => r matches Err(f) && f@ == fault_at(
                    old(self).chars@,
                    at,
                    message,
                ),
            },
    {
        let ghost s = self.chars@;
        let start: usize = self.pos;
        let start_line: usize = self.line;
        let start_col: usize = self.col;
        if self.peek() == Some('-') {
            let _ = self.advance();
        }
        let from: usize = self.pos;
        let mut is_float = false;
        loop
            invariant
                self.wf(),
                self.chars == old(self).chars,
                self.chars@ == s,
                start == old(self).pos,
                start <= from <= self.pos,
                from <= start + 1,
                from == start + 1 ==> s[start as int] == '-',
                digits_end(s, from as int, false) == digits_end(s, self.pos as int, is_float),
                is_float == s.subrange(from as int, self.pos as int).contains('.'),
                forall|i: int|
                    from <= i < self.pos ==> text::is_digit(#[trigger] s[i]) || s[i] == '.',
            ensures
                self.pos == digits_end(s, from as int, false),
            decreases s.len() - self.pos,
        {
            let ghost here = self.pos as int;
            match self.peek() {
                Some(c) => {
                    let ghost next = s.subrange(from as int, here + 1);
                    proof {
                        assert(next =~= s.subrange(from as int, here).push(s[here]));
                        if s.subrange(from as int, here).contains('.') {
                            let j = choose|j: int|
                                0 <= j < here - from && s.subrange(from as int, here)[j] == '.';
                            assert(next[j] == '.');
                        }
                        if next.contains('.') && s[here] != '.' {
                            let j = choose|j: int| 0 <= j < next.len() && next[j] == '.';
                            assert(s.subrange(from as int, here)[j] == '.');
                        }
                        assert(next[here - from] == s[here]);
                    }
                    if c >= '0' && c <= '9' {
                        let _ = self.advance();
                    } else if c == '.' && !is_float {
                        is_float = true;
                        let _ = self.advance();
                    } else {
                        break;
                    }
                },
                None => {
                    break;
                },
            }
        }
        let word = text::text_of_range(&self.chars, start, self.pos);
        let ghost e = self.pos as int;
        proof {
            lemma_digits_end(s, from as int, false);
            lemma_digits_end(s, from + 1, false);
            assert(from < s.len() && text::is_digit(s[from as int]));
            assert(e > from);
            assert(number_end(s, start as int) == e);
            assert(word@ == s.subrange(start as int, e));
            if word@.contains('.') {
                let j = choose|j: int| 0 <= j < word@.len() && word@[j] == '.';
                assert(s.subrange(from as int, e)[j - (from - start)] == '.');
            }
            if s.subrange(from as int, e).contains('.') {
                let j = choose|j: int| 0 <= j < e - from && s.subrange(from as int, e)[j] == '.';
                assert(word@[j + (from - start)] == '.');
            }
            assert(word@[0] == s[start as int]);
            assert(word@[from - start] == s[from as int]);
        }
        if is_float {
            return Ok(Tok::Float(word));
        }
        match text::parse_signed(word.as_str()) {
            Some(n) => Ok(Tok::Int(n)),
            None => {
                let mut message = "invalid int literal '".to_owned();
                message.append(word.as_str());
                message.append("'");
                Err(PyParseError { message, line: start_line, col: start_col })
            },
        }
    }

    /// Reads the identifier that begins at the next character.
    pub fn read_ident(&mut self) -> (r: String)
        requires
            old(self).wf(),
        ensures
            final(self).wf(),
            final(self).chars == old(self).chars,
            final(self).pos == ident_end(old(self).chars@, old(self).pos as int),
            r@ == old(self).chars@.subrange(old(self).pos as int, final(self).pos as int),
    {
        let ghost s = self.chars@;
        let start: usize = self.pos;
        loop
            invariant
                self.wf(),
                self.chars == old(self).chars,
                self.chars@ == s,
                start == old(self).pos,
                start <= self.pos,
                ident_end(s, start as int) == ident_end(s, self.pos as int),
            ensures
                self.pos == ident_end(s, start as int),
            decreases s.len() - self.pos,
        {
            match self.peek() {
                Some(c) => {
                    if text::alphanumeric(c) || c == '_' {
                        let _ = self.advance();
                    } else {
                        break;
                    }
                },
                None => {
                    break;
                },
            }
        }
        text::text_of_range(&self.chars, start, self.pos)
    }

    /// The token of a bracket, a colon or a comma.
    fn punctuation_of(c: char) -> (r: Option<Tok>)
        ensures
            match r {
                Some(t) => punctuation(c) == Some(t@),
                None => punctuation(c) is None,
            },
    {
        if c == '{' {
            Some(Tok::LBrace)
        } else if c == '}' {
            Some(Tok::RBrace)
        } else if c == '[' {
            Some(Tok::LBracket)
        } else if c == ']' {
            Some(Tok::RBracket)
        } else if c == '(' {
            Some(Tok::LParen)
        } else if c == ')' {
            Some(Tok::RParen)
        } else if c == ':' {
            Some(Tok::Colon)
        } else if c == ',' {
            Some(Tok::Comma)
        } else {
            None
        }
    }

    /// Reads `True`, `False` or `None`.
    fn read_keyword(&mut self) -> (r: Result<Tok, PyParseError>)
        requires
            old(self).wf(),
        ensures
            final(self).wf(),
            final(self).chars == old(self).chars,
            match keyword_at(old(self).chars@, old(self).pos as int) {
                Read::Got(tok, e) => r matches Ok(t) && t@ == tok && final(self).pos == e,
                Read::Bad(message, at) => r matches Err(f) && f@ == fault_at(
                    old(self).chars@,
                    at,
                    message,
                ),
            },
    {
        let word = self.read_ident();
        if text::same_text(word.as_str(), "True") {
            Ok(Tok::True)
        } else if text::same_text(word.as_str(), "False") {
            Ok(Tok::False)
        } else if text::same_text(word.as_str(), "None") {
            Ok(Tok::NoneKw)
        } else {
            let mut message = "unexpected identifier '".to_owned();
            message.append(word.as_str());
            message.append("' (only True/False/None are valid here)");
            Err(self.err(message))
        }
    }

    /// Reads the next token, over white space and comments.
    pub fn next_spanned(&mut self) -> (r: Result<Spanned, PyParseError>)
        requires
            old(self).wf(),
        ensures
            final(self).wf(),
            final(self).chars == old(self).chars,
            ({
                let s = old(self).chars@;
                let q = trivia_end(s, old(self).pos as int);
                match token_at(s, q) {
                    Read::Got(tok, e) => {
                        &&& r matches Ok(t)
                        &&& t@ == (Placed { tok, line: line_at(s, q), col: col_at(s, q) })
                        &&& final(self).pos == e
                    },
                    Read::Bad(message, at) => r matches Err(f) && f@ == fault_at(s, at, message),
                }
            }),
    {
        self.skip_trivia();
        let line: usize = self.line;
        let col: usize = self.col;
        let ghost s = self.chars@;
        let ghost q = self.pos as int;
        let tok = match self.peek() {
            None => Tok::Eof,
            Some(c) => match Self::punctuation_of(c) {
                Some(t) => {
                    let _ = self.advance();
                    t
                },
                None => {
                    let negative = match self.peek_at(1) {
                        Some(d) => c == '-' && d >= '0' && d <= '9',
                        None => false,
                    };
                    if c == '\'' || c == '"' {
                        match self.read_string() {
                            Ok(body) => Tok::Str(body),
                            Err(e) => {
                                return Err(e);
                            },
                        }
                    } else if (c >= '0' && c <= '9') || negative {
                        match self.read_number() {
                            Ok(t) => t,
                            Err(e) => {
                                return Err(e);
                            },
                        }
                    } else if text::alphabetic(c) || c == '_' {
                        match self.read_keyword() {
                            Ok(t) => t,
                            Err(e) => {
                                return Err(e);
                            },
                        }
                    } else {
                        let mut message = "unexpected character '".to_owned();
                        message.push(c);
                        message.append("'");
                        assert(message@ =~= "unexpected character '"@ + seq![c] + "'"@);
                        return Err(self.err(message));
                    }
                },
            },
        };
        Ok(Spanned { tok, line, col })
    }
}

/// A text's tokens, up to and with the end of the text; or its first error.
pub fn lex(src: &str) -> (r: Result<Vec<Spanned>, PyParseError>)
    ensures
        match tokens_of(src@) {
            Ok(all) => r matches Ok(v) && placed(v@) == all && ends_once(all),
            Err(f) => r matches Err(e) && e@ == f,
        },
{
    let mut lexer = Lexer::new(src);
    let mut out: Vec<Spanned> = Vec::new();
    assert(placed(out@) =~= Seq::<Placed>::empty());
    loop
        invariant
            lexer.wf(),
            lexer.chars@ == src@,
            tokens_of(src@) == tokens_from(src@, lexer.pos as int, placed(out@)),
        decreases src@.len() - lexer.pos, 1int,
    {
        let ghost p = lexer.pos as int;
        let ghost before = placed(out@);
        let ghost q = trivia_end(src@, p);
        let spanned = match lexer.next_spanned() {
            Ok(t) => t,
            Err(e) => {
                return Err(e);
            },
        };
        proof {
            lemma_trivia_end(src@, p);
            lemma_token_at(src@, q);
        }
        let done = match spanned.tok {
            Tok::Eof => true,
            _ => false,
        };
        out.push(spanned);
        assert(placed(out@) =~= before.push(spanned@));
        if done {
            return Ok(out);
        }
    }
}

/// What the spanned tokens are.
pub open spec fn placed(v: Seq<Spanned>) -> Seq<Placed> {
    v.map_values(|t: Spanned| t@)
}

/// The last token is the end of the text.
pub open spec fn ends_once(t: Seq<Placed>) -> bool {
    t.len() > 0 && t.last().tok is Eof
}

/// A token that is not the end of the text ends behind its beginning, in the text.
pub proof fn lemma_token_at(s: Seq<char>, q: int)
    requires
        0 <= q <= s.len(),
    ensures
        token_at(s, q) matches Read::Got(tok, e) ==> {
            &&& tok is Eof <==> q == s.len()
            &&& tok !is Eof ==> q < e <= s.len()
        },
{
    if q < s.len() {
        if s[q] == '\'' || s[q] == '"' {
            if q + 3 <= s.len() {
                lemma_long_string(s, q + 3, s[q], Seq::empty());
            }
            lemma_short_string(s, q + 1, s[q], Seq::empty());
        } else if text::is_digit(s[q]) || (s[q] == '-' && q + 1 < s.len() && text::is_digit(s[q + 1])) {
            let from = if s[q] == '-' {
                q + 1
            } else {
                q
            };
            lemma_digits_end(s, from + 1, false);
        } else {
            lemma_ident_end(s, q);
            if ident_end(s, q) == q {
                reveal_strlit("True");
                reveal_strlit("False");
                reveal_strlit("None");
            }
        }
    }
}

// --- how tokens and values are shown --------------------------------------

/// A token as error messages show it.
pub open spec fn token_debug(t: Token) -> Seq<char> {
    match t {
        Token::LBrace => "LBrace"@,
        Token::RBrace => "RBrace"@,
        Token::LBracket => "LBracket"@,
        Token::RBracket => "RBracket"@,
        Token::LParen => "LParen"@,
        Token::RParen => "RParen"@,
        Token::Colon => "Colon"@,
        Token::Comma => "Comma"@,
        Token::Str(s) => "Str("@ + text::quoted_debug(s) + ")"@,
        Token::Int(n) => "Int("@ + text::signed_decimal_of(n) + ")"@,
        Token::Float(s) => "Float("@ + s + ")"@,
        Token::True => "True"@,
        Token::False => "False"@,
        Token::NoneKw => "NoneKw"@,
        Token::Eof => "Eof"@,
    }
}

/// A token as error messages show it.
fn debug_token(t: &Tok) -> (r: String)
    ensures
        r@ == token_debug(t@),
{
    match t {
        Tok::LBrace => "LBrace".to_owned(),
        Tok::RBrace => "RBrace".to_owned(),
        Tok::LBracket => "LBracket".to_owned(),
        Tok::RBracket => "RBracket".to_owned(),
        Tok::LParen => "LParen".to_owned(),
        Tok::RParen => "RParen".to_owned(),
        Tok::Colon => "Colon".to_owned(),
        Tok::Comma => "Comma".to_owned(),
        Tok::Str(s) => {
            let mut out = text::joined("Str(", text::debug_quoted(s.as_str()).as_str());
            out.append(")");
            out
        },
        Tok::Int(n) => {
            let mut out = text::joined("Int(", text::signed_decimal(*n).as_str());
            out.append(")");
            out
        },
        Tok::Float(s) => {
            let mut out = text::joined("Float(", s.as_str());
            out.append(")");
            out
        },
        Tok::True => "True".to_owned(),
        Tok::False => "False".to_owned(),
        Tok::NoneKw => "NoneKw".to_owned(),
        Tok::Eof => "Eof".to_owned(),
    }
}

/// A value as error messages show it.
pub open spec fn literal_debug(v: Literal) -> Seq<char>
    decreases v,
{
    match v {
        Literal::Nil => "None"@,
        Literal::Bool(b) => if b {
            "Bool(true)"@
        } else {
            "Bool(false)"@
        },
        Literal::Int(n) => "Int("@ + text::signed_decimal_of(n) + ")"@,
        Literal::Float(s) => "Float("@ + s + ")"@,
        Literal::Str(s) => "Str("@ + text::quoted_debug(s) + ")"@,
        Literal::List(items) => "List(["@ + items_debug(items) + "])"@,
        Literal::Dict(entries) => "Dict(["@ + entries_debug(entries) + "])"@,
    }
}

/// The items of a list as error messages show them.
pub open spec fn items_debug(items: Seq<Literal>) -> Seq<char>
    decreases items,
{
    if items.len() == 0 {
        Seq::empty()
    } else if items.len() == 1 {
        literal_debug(items[0])
    } else {
        items_debug(items.subrange(0, items.len() - 1)) + ", "@ + literal_debug(
            items[items.len() - 1],
        )
    }
}

/// The entries of a dict as error messages show them.
pub open spec fn entries_debug(entries: Seq<(Seq<char>, Literal)>) -> Seq<char>
    decreases entries,
{
    if entries.len() == 0 {
        Seq::empty()
    } else {
        let last = entries[entries.len() - 1];
        let shown = "("@ + text::quoted_debug(last.0) + ", "@ + literal_debug(last.1) + ")"@;
        if entries.len() == 1 {
            shown
        } else {
            entries_debug(entries.subrange(0, entries.len() - 1)) + ", "@ + shown
        }
    }
}

/// A value as error messages show it.
fn debug_value(v: &PyValue) -> (r: String)
    ensures
        r@ == literal_debug(v@),
    decreases v,
{
    match v {
        PyValue::Nil => "None".to_owned(),
        PyValue::Bool(b) => if *b {
            "Bool(true)".to_owned()
        } else {
            "Bool(false)".to_owned()
        },
        PyValue::Int(n) => {
            let mut out = text::joined("Int(", text::signed_decimal(*n).as_str());
            out.append(")");
            out
        },
        PyValue::Float(s) => {
            let mut out = text::joined("Float(", s.as_str());
            out.append(")");
            out
        },
        PyValue::Str(s) => {
            let mut out = text::joined("Str(", text::debug_quoted(s.as_str()).as_str());
            out.append(")");
            out
        },
        PyValue::List(items) => {
            let mut shown = String::new();
            let mut i: usize = 0;
            while i < items.len()
                invariant
                    i <= items@.len(),
                    *v == PyValue::List(*items),
                    shown@ == items_debug(literals_of(items@).take(i as int)),
                decreases items@.len() - i,
            {
                if i > 0 {
                    shown.append(", ");
                }
                assert(decreases_to!(v => v->List_0@[i as int]));
                let item = debug_value(&items[i]);
                shown.append(item.as_str());
                proof {
                    let now = literals_of(items@).take(i + 1);
                    assert(now.subrange(0, now.len() - 1) =~= literals_of(items@).take(i as int));
                    if i == 0 {
                        assert(shown@ =~= literal_debug(now[0]));
                    }
                }
                i = i + 1;
            }
            proof {
                lemma_list_view(*items);
                assert(literals_of(items@).take(i as int) =~= literals_of(items@));
            }
            let mut out = text::joined("List([", shown.as_str());
            out.append("])");
            out
        },
        PyValue::Dict(entries) => {
            let mut shown = String::new();
            let mut i: usize = 0;
            while i < entries.len()
                invariant
                    i <= entries@.len(),
                    *v == PyValue::Dict(*entries),
                    shown@ == entries_debug(entries_of(entries@).take(i as int)),
                decreases entries@.len() - i,
            {
                let mut entry = text::joined(
                    "(",
                    text::debug_quoted(entries[i].0.as_str()).as_str(),
                );
                entry.append(", ");
                assert(decreases_to!(v => v->Dict_0@[i as int].1));
                let value = debug_value(&entries[i].1);
                entry.append(value.as_str());
                entry.append(")");
                if i > 0 {
                    shown.append(", ");
                }
                let ghost before = shown@;
                shown.append(entry.as_str());
                proof {
                    let now = entries_of(entries@).take(i + 1);
                    assert(now.subrange(0, now.len() - 1) =~= entries_of(entries@).take(i as int));
                    if i == 0 {
                        assert(shown@ =~= entry@);
                    }
                }
                i = i + 1;
            }
            proof {
                lemma_dict_view(*entries);
                assert(entries_of(entries@).take(i as int) =~= entries_of(entries@));
            }
            let mut out = text::joined("Dict([", shown.as_str());
            out.append("])");
            out
        },
    }
}

// --- grammar --------------------------------------------------------------

/// Adjacent string literals are one string.
pub open spec fn strings_from(t: Seq<Placed>, i: int, acc: Seq<char>) -> (Seq<char>, int)
    decreases t.len() - i,
{
    if 0 <= i < t.len() && t[i].tok is Str {
        strings_from(t, i + 1, acc + t[i].tok->Str_0)
    } else {
        (acc, i)
    }
}

/// The value that begins at token `i`, and the token behind it; or what is wrong and at which
/// token.
pub open spec fn value_at(t: Seq<Placed>, i: int) -> Read<Literal>
    decreases t.len() - i, 0int,
{
    if !(0 <= i < t.len()) {
        Read::Bad(Seq::empty(), i)
    } else {
        match t[i].tok {
            Token::Str(_) => {
                let (joined, e) = strings_from(t, i, Seq::empty());
                Read::Got(Literal::Str(joined), e)
            },
            Token::Int(n) => Read::Got(Literal::Int(n), i + 1),
            Token::Float(s) => Read::Got(Literal::Float(s), i + 1),
            Token::True => Read::Got(Literal::Bool(true), i + 1),
            Token::False => Read::Got(Literal::Bool(false), i + 1),
            Token::NoneKw => Read::Got(Literal::Nil, i + 1),
            Token::LBracket => match items_at(t, i + 1, Token::RBracket, Seq::empty()) {
                Read::Got(items, e) => Read::Got(Literal::List(items), e),
                Read::Bad(message, at) => Read::Bad(message, at),
            },
            Token::LParen => match items_at(t, i + 1, Token::RParen, Seq::empty()) {
                Read::Got(items, e) => Read::Got(Literal::List(items), e),
                Read::Bad(message, at) => Read::Bad(message, at),
            },
            Token::LBrace => match entries_at(t, i + 1, Seq::empty()) {
                Read::Got(entries, e) => Read::Got(Literal::Dict(entries), e),
                Read::Bad(message, at) => Read::Bad(message, at),
            },
            other => Read::Bad(
                "unexpected token "@ + token_debug(other) + " where a value was expected"@,
                i,
            ),
        }
    }
}

/// The items of a list or tuple from token `i` on, up to and with `close`; a comma may stand
/// before it.
pub open spec fn items_at(t: Seq<Placed>, i: int, close: Token, acc: Seq<Literal>) -> Read<
    Seq<Literal>,
>
    decreases t.len() - i, 1int,
{
    if !(0 <= i < t.len()) {
        Read::Bad(Seq::empty(), i)
    } else if t[i].tok == close {
        Read::Got(acc, i + 1)
    } else {
        match value_at(t, i) {
            Read::Bad(message, at) => Read::Bad(message, at),
            Read::Got(v, n) => if !(i < n < t.len()) {
                Read::Bad(Seq::empty(), n)
            } else if t[n].tok is Comma {
                items_at(t, n + 1, close, acc.push(v))
            } else if t[n].tok == close {
                Read::Got(acc.push(v), n + 1)
            } else {
                Read::Bad("expected ',' or closing bracket, found "@ + token_debug(t[n].tok), n)
            },
        }
    }
}

/// The entries of a dict from token `i` on, up to and with the closing brace; a comma may stand
/// before it.
pub open spec fn entries_at(t: Seq<Placed>, i: int, acc: Seq<(Seq<char>, Literal)>) -> Read<
    Seq<(Seq<char>, Literal)>,
>
    decreases t.len() - i, 1int,
{
    if !(0 <= i < t.len()) {
        Read::Bad(Seq::empty(), i)
    } else if t[i].tok is RBrace {
        Read::Got(acc, i + 1)
    } else {
        match value_at(t, i) {
            Read::Bad(message, at) => Read::Bad(message, at),
            Read::Got(k, n) => if !(i < n < t.len()) {
                Read::Bad(Seq::empty(), n)
            } else if !(k is Str) {
                Read::Bad("dict keys must be string literals, found "@ + literal_debug(k), n)
            } else if !(t[n].tok is Colon) {
                Read::Bad("expected Colon, found "@ + token_debug(t[n].tok), n)
            } else {
                match value_at(t, n + 1) {
                    Read::Bad(message, at) => Read::Bad(message, at),
                    Read::Got(v, m) => if !(n < m < t.len()) {
                        Read::Bad(Seq::empty(), m)
                    } else if t[m].tok is Comma {
                        entries_at(t, m + 1, acc.push((k->Str_0, v)))
                    } else if t[m].tok is RBrace {
                        Read::Got(acc.push((k->Str_0, v)), m + 1)
                    } else {
                        Read::Bad("expected ',' or '}', found "@ + token_debug(t[m].tok), m)
                    },
                }
            },
        }
    }
}

/// An error at token `i`.
pub open spec fn fault_at_token(t: Seq<Placed>, i: int, message: Seq<char>) -> Fault {
    Fault { message, line: t[i].line, col: t[i].col }
}

/// What a text means as one Python literal; or what is wrong with it.
pub open spec fn literal_in(src: Seq<char>) -> Result<Literal, Fault> {
    match tokens_of(src) {
        Err(f) => Err(f),
        Ok(t) => match value_at(t, 0) {
            Read::Bad(message, at) => Err(fault_at_token(t, at, message)),
            Read::Got(v, n) => if t[n].tok is Eof {
                Ok(v)
            } else {
                Err(
                    fault_at_token(t, n, "unexpected trailing token "@ + token_debug(t[n].tok)),
                )
            },
        },
    }
}

// --- what may stand around a literal --------------------------------------

/// Whether `s` stands in `t` from `d` on, with a line feed behind it.
spec fn stands_in(s: Seq<char>, t: Seq<char>, d: int) -> bool {
    &&& 0 <= d
    &&& d + s.len() < t.len()
    &&& t[d + s.len()] == '\n'
    &&& forall|i: int| 0 <= i < s.len() ==> t[i + d] == #[trigger] s[i]
}

proof fn lemma_line_end_inside(s: Seq<char>, t: Seq<char>, d: int, p: int)
    requires
        stands_in(s, t, d),
        0 <= p <= s.len(),
    ensures
        line_end(t, p + d) == line_end(s, p) + d,
    decreases s.len() - p,
{
    if p < s.len() && s[p] != '\n' {
        lemma_line_end_inside(s, t, d, p + 1);
    }
}

proof fn lemma_trivia_inside(s: Seq<char>, t: Seq<char>, d: int, p: int)
    requires
        stands_in(s, t, d),
        0 <= p <= s.len(),
    ensures
        trivia_end(t, p + d) == trivia_end(t, trivia_end(s, p) + d),
        trivia_end(s, p) < s.len() ==> trivia_end(t, p + d) == trivia_end(s, p) + d,
    decreases s.len() - p,
{
    if p < s.len() {
        assert(t[p + d] == s[p]);
        if text::is_white(s[p]) {
            lemma_trivia_inside(s, t, d, p + 1);
        } else if s[p] == '#' {
            lemma_line_end(s, p + 1);
            lemma_line_end_inside(s, t, d, p);
            lemma_trivia_inside(s, t, d, line_end(s, p));
        }
    }
}

proof fn lemma_long_string_inside(
    s: Seq<char>,
    t: Seq<char>,
    d: int,
    p: int,
    quote: char,
    acc: Seq<char>,
)
    requires
        stands_in(s, t, d),
        0 <= p <= s.len(),
        quote != '\n',
    ensures
        long_string(s, p, quote, acc) matches Read::Got(v, e) ==> long_string(t, p + d, quote, acc)
            == Read::Got(v, e + d),
    decreases s.len() - p,
{
    if p < s.len() {
        assert(triple_at(s, p, quote) == triple_at(t, p + d, quote)) by {
            assert(t[p + d] == s[p]);
            if p + 1 < s.len() {
                assert(t[p + 1 + d] == s[p + 1]);
            }
            if p + 2 < s.len() {
                assert(t[p + 2 + d] == s[p + 2]);
            }
        }
        if !triple_at(s, p, quote) {
            lemma_long_string_inside(s, t, d, p + 1, quote, acc.push(s[p]));
        }
    }
}

proof fn lemma_short_string_inside(
    s: Seq<char>,
    t: Seq<char>,
    d: int,
    p: int,
    quote: char,
    acc: Seq<char>,
)
    requires
        stands_in(s, t, d),
        0 <= p <= s.len(),
    ensures
        short_string(s, p, quote, acc) matches Read::Got(v, e) ==> short_string(
            t,
            p + d,
            quote,
            acc,
        ) == Read::Got(v, e + d),
    decreases s.len() - p,
{
    if p < s.len() && s[p] != quote {
        if s[p] == '\\' {
            if p + 1 < s.len() {
                assert(t[p + 1 + d] == s[p + 1]);
                lemma_short_string_inside(s, t, d, p + 2, quote, acc + escaped(s[p + 1]));
            }
        } else {
            lemma_short_string_inside(s, t, d, p + 1, quote, acc.push(s[p]));
        }
    }
}

proof fn lemma_digits_inside(s: Seq<char>, t: Seq<char>, d: int, p: int, dot_seen: bool)
    requires
        stands_in(s, t, d),
        0 <= p <= s.len(),
    ensures
        digits_end(t, p + d, dot_seen) == digits_end(s, p, dot_seen) + d,
    decreases s.len() - p,
{
    if p < s.len() {
        assert(t[p + d] == s[p]);
        if text::is_digit(s[p]) {
            lemma_digits_inside(s, t, d, p + 1, dot_seen);
        } else if s[p] == '.' && !dot_seen {
            lemma_digits_inside(s, t, d, p + 1, true);
        }
    }
}

proof fn lemma_ident_inside(s: Seq<char>, t: Seq<char>, d: int, p: int)
    requires
        stands_in(s, t, d),
        0 <= p <= s.len(),
    ensures
        ident_end(t, p + d) == ident_end(s, p) + d,
    decreases s.len() - p,
{
    if p < s.len() {
        assert(t[p + d] == s[p]);
        if text::is_alphanumeric(s[p]) || s[p] == '_' {
            lemma_ident_inside(s, t, d, p + 1);
        }
    }
}

proof fn lemma_part_inside(s: Seq<char>, t: Seq<char>, d: int, p: int, e: int)
    requires
        stands_in(s, t, d),
        0 <= p <= e <= s.len(),
    ensures
        t.subrange(p + d, e + d) == s.subrange(p, e),
{
    let x = t.subrange(p + d, e + d);
    let y = s.subrange(p, e);
    assert forall|i: int| 0 <= i < y.len() implies x[i] == #[trigger] y[i] by {
        assert(t[p + i + d] == s[p + i]);
    }
    assert(x =~= y);
}

proof fn lemma_token_inside(s: Seq<char>, t: Seq<char>, d: int, q: int)
    requires
        stands_in(s, t, d),
        0 <= q < s.len(),
    ensures
        token_at(s, q) matches Read::Got(tok, e) ==> token_at(t, q + d) == Read::Got(tok, e + d),
{
    assert(t[q + d] == s[q]);
    if q + 1 < s.len() {
        assert(t[q + 1 + d] == s[q + 1]);
    }
    if q + 2 < s.len() {
        assert(t[q + 2 + d] == s[q + 2]);
    }
    if punctuation(s[q]) is Some {
    } else if s[q] == '\'' || s[q] == '"' {
        if q + 3 <= s.len() {
            lemma_long_string_inside(s, t, d, q + 3, s[q], Seq::empty());
        }
        lemma_short_string_inside(s, t, d, q + 1, s[q], Seq::empty());
    } else if text::is_digit(s[q]) || (s[q] == '-' && q + 1 < s.len() && text::is_digit(s[q + 1])) {
        let from = if s[q] == '-' {
            q + 1
        } else {
            q
        };
        lemma_digits_end(s, from, false);
        lemma_digits_inside(s, t, d, from, false);
        lemma_part_inside(s, t, d, q, number_end(s, q));
    } else if text::is_alphabetic(s[q]) || s[q] == '_' {
        lemma_ident_end(s, q);
        lemma_ident_inside(s, t, d, q);
        lemma_part_inside(s, t, d, q, ident_end(s, q));
    }
}

/// What is read does not depend on where in the white space before it reading begins.
proof fn lemma_tokens_behind_trivia(t: Seq<char>, p: int, from: int, acc: Seq<Placed>)
    requires
        0 <= p <= from <= t.len(),
        trivia_end(t, p) == trivia_end(t, from),
    ensures
        tokens_from(t, p, acc) == tokens_from(t, from, acc),
{
    lemma_trivia_end(t, from);
    lemma_token_at(t, trivia_end(t, from));
}

/// The tokens of a text are read where it stands in another, and reading goes on behind it.
proof fn lemma_tokens_inside(
    s: Seq<char>,
    t: Seq<char>,
    d: int,
    p: int,
    acc: Seq<Placed>,
    into: Seq<Placed>,
) -> (more: Seq<Placed>)
    requires
        stands_in(s, t, d),
        0 <= p <= s.len(),
        tokens_from(s, p, acc) is Ok,
    ensures
        ({
            let all = tokens_from(s, p, acc)->Ok_0;
            &&& all.len() == acc.len() + more.len() + 1
            &&& all.take(acc.len() as int) == acc
            &&& all.last().tok is Eof
            &&& forall|i: int|
                0 <= i < more.len() ==> (#[trigger] more[i]).tok == all[acc.len() + i].tok
                    && !(more[i].tok is Eof)
        }),
        tokens_from(t, p + d, into) == tokens_from(t, d + s.len(), into + more),
    decreases s.len() - p,
{
    let q = trivia_end(s, p);
    let all = tokens_from(s, p, acc)->Ok_0;
    lemma_trivia_end(s, p);
    lemma_trivia_inside(s, t, d, p);
    lemma_token_at(s, q);
    if q == s.len() {
        let none = Seq::<Placed>::empty();
        lemma_tokens_behind_trivia(t, p + d, d + s.len(), into);
        assert(into + none =~= into);
        assert(all.take(acc.len() as int) =~= acc);
        none
    } else {
        lemma_token_inside(s, t, d, q);
        let tok = token_at(s, q)->Got_0;
        let e = token_at(s, q)->Got_1;
        let here = Placed { tok, line: line_at(s, q), col: col_at(s, q) };
        let there = Placed { tok, line: line_at(t, q + d), col: col_at(t, q + d) };
        let rest = lemma_tokens_inside(s, t, d, e, acc.push(here), into.push(there));
        let more = seq![there] + rest;
        assert(into.push(there) + rest =~= into + more);
        assert(all.take((acc.len() + 1) as int) == acc.push(here));
        assert(all.take((acc.len() + 1) as int)[acc.len() as int] == here);
        assert(all.take(acc.len() as int) =~= acc.push(here).take(acc.len() as int));
        assert(all.take(acc.len() as int) =~= acc);
        assert forall|i: int| 0 <= i < more.len() implies (#[trigger] more[i]).tok
            == all[acc.len() + i].tok && !(more[i].tok is Eof) by {
            if i > 0 {
                assert(more[i] == rest[i - 1]);
            }
        }
        more
    }
}

/// Whether `b` begins with the tokens of `a` up to its end, and goes on with something that is
/// not a string.
spec fn goes_on(a: Seq<Placed>, b: Seq<Placed>) -> bool {
    &&& 0 < a.len() <= b.len()
    &&& a.last().tok is Eof
    &&& !(b[a.len() - 1].tok is Str)
    &&& forall|j: int| 0 <= j < a.len() - 1 ==> (#[trigger] a[j]).tok == b[j].tok
}

proof fn lemma_strings_go_on(a: Seq<Placed>, b: Seq<Placed>, i: int, acc: Seq<char>)
    requires
        goes_on(a, b),
        0 <= i < a.len(),
    ensures
        strings_from(b, i, acc) == strings_from(a, i, acc),
        i <= strings_from(a, i, acc).1 < a.len(),
    decreases a.len() - i,
{
    if i < a.len() - 1 {
        assert(a[i].tok == b[i].tok);
        if a[i].tok is Str {
            lemma_strings_go_on(a, b, i + 1, acc + a[i].tok->Str_0);
        }
    }
}

proof fn lemma_value_goes_on(a: Seq<Placed>, b: Seq<Placed>, i: int)
    requires
        goes_on(a, b),
        0 <= i < a.len(),
    ensures
        value_at(a, i) matches Read::Got(v, n) ==> value_at(b, i) == Read::Got(v, n) && i < n
            < a.len(),
    decreases a.len() - i, 0int,
{
    if i < a.len() - 1 {
        assert(a[i].tok == b[i].tok);
        match a[i].tok {
            Token::Str(s) => {
                lemma_strings_go_on(a, b, i, Seq::empty());
                lemma_strings_go_on(a, b, i + 1, Seq::empty() + s);
            },
            Token::LBracket => {
                lemma_items_go_on(a, b, i + 1, Token::RBracket, Seq::empty());
            },
            Token::LParen => {
                lemma_items_go_on(a, b, i + 1, Token::RParen, Seq::empty());
            },
            Token::LBrace => {
                lemma_entries_go_on(a, b, i + 1, Seq::empty());
            },
            _ => {},
        }
    }
}

proof fn lemma_items_go_on(
    a: Seq<Placed>,
    b: Seq<Placed>,
    i: int,
    close: Token,
    acc: Seq<Literal>,
)
    requires
        goes_on(a, b),
        0 <= i < a.len(),
        close == Token::RBracket || close == Token::RParen,
    ensures
        items_at(a, i, close, acc) matches Read::Got(v, n) ==> items_at(b, i, close, acc)
            == Read::Got(v, n) && i < n < a.len(),
    decreases a.len() - i, 1int,
{
    if i < a.len() - 1 {
        assert(a[i].tok == b[i].tok);
        lemma_value_goes_on(a, b, i);
        if a[i].tok != close {
            if let Read::Got(v, n) = value_at(a, i) {
                if n < a.len() - 1 {
                    assert(a[n].tok == b[n].tok);
                    if a[n].tok is Comma {
                        lemma_items_go_on(a, b, n + 1, close, acc.push(v));
                    }
                }
            }
        }
    }
}

proof fn lemma_entries_go_on(
    a: Seq<Placed>,
    b: Seq<Placed>,
    i: int,
    acc: Seq<(Seq<char>, Literal)>,
)
    requires
        goes_on(a, b),
        0 <= i < a.len(),
    ensures
        entries_at(a, i, acc) matches Read::Got(v, n) ==> entries_at(b, i, acc) == Read::Got(v, n)
            && i < n < a.len(),
    decreases a.len() - i, 1int,
{
    if i < a.len() - 1 {
        assert(a[i].tok == b[i].tok);
        lemma_value_goes_on(a, b, i);
        if !(a[i].tok is RBrace) {
            if let Read::Got(k, n) = value_at(a, i) {
                if n < a.len() - 1 && k is Str {
                    assert(a[n].tok == b[n].tok);
                    lemma_value_goes_on(a, b, n + 1);
                    if let Read::Got(v, m) = value_at(a, n + 1) {
                        if m < a.len() - 1 {
                            assert(a[m].tok == b[m].tok);
                            if a[m].tok is Comma {
                                lemma_entries_go_on(a, b, m + 1, acc.push((k->Str_0, v)));
                            }
                        }
                    }
                }
            }
        }
    }
}

/// Where a literal stands in a text that begins with white space, its value is read, and the token
/// behind it decides.
proof fn lemma_literal_inside(s: Seq<char>, t: Seq<char>, more: Seq<Placed>)
    requires
        literal_in(s) is Ok,
        tokens_of(t) is Ok,
        tokens_of(s)->Ok_0.len() == more.len() + 1,
        tokens_of(s)->Ok_0.last().tok is Eof,
        forall|i: int|
            0 <= i < more.len() ==> (#[trigger] more[i]).tok == tokens_of(s)->Ok_0[i].tok && !(
            more[i].tok is Eof),
        more.len() < tokens_of(t)->Ok_0.len(),
        tokens_of(t)->Ok_0.take(more.len() as int) == more,
        !(tokens_of(t)->Ok_0[more.len() as int].tok is Str),
    ensures
        tokens_of(t)->Ok_0[more.len() as int].tok is Eof ==> literal_in(t) == literal_in(s),
        !(tokens_of(t)->Ok_0[more.len() as int].tok is Eof) ==> literal_in(t) is Err,
{
    let a = tokens_of(s)->Ok_0;
    let b = tokens_of(t)->Ok_0;
    assert forall|j: int| 0 <= j < a.len() - 1 implies (#[trigger] a[j]).tok == b[j].tok by {
        assert(more[j].tok == a[j].tok);
        assert(b.take(more.len() as int)[j] == b[j]);
    }
    lemma_value_goes_on(a, b, 0);
    let n = value_at(a, 0)->Got_1;
    if n < a.len() - 1 {
        assert(more[n].tok == a[n].tok);
    }
}

/// Line feeds and comments around a literal do not change what it means: a text that means
/// something means the same with a line feed before it and a comment on a line behind it.
pub proof fn law_comments_do_not_count(src: Seq<char>, comment: Seq<char>)
    requires
        literal_in(src) is Ok,
        forall|i: int| 0 <= i < comment.len() ==> #[trigger] comment[i] != '\n',
    ensures
        literal_in(seq!['\n'] + src + seq!['\n', '#'] + comment) == literal_in(src),
{
    let t = seq!['\n'] + src + seq!['\n', '#'] + comment;
    let none = Seq::<Placed>::empty();
    let n = src.len() as int;
    assert forall|i: int| 0 <= i < src.len() implies t[i + 1] == #[trigger] src[i] by {}
    assert(t[n + 1] == '\n' && t[n + 2] == '#');
    let more = lemma_tokens_inside(src, t, 1, 0, none, none);
    assert(none + more =~= more);
    assert(trivia_end(t, 0) == trivia_end(t, 1));
    lemma_tokens_behind_trivia(t, 0, 1, none);
    assert forall|p: int| n + 2 <= p < t.len() implies #[trigger] t[p] != '\n' by {
        if p > n + 2 {
            assert(t[p] == comment[p - n - 3]);
        }
    }
    lemma_line_goes_to_the_end(t, n + 2);
    assert(trivia_end(t, n + 2) == t.len()) by {
        assert(trivia_end(t, t.len() as int) == t.len());
    }
    assert(trivia_end(t, n + 1) == t.len());
    let b = tokens_of(t)->Ok_0;
    assert(b.take(more.len() as int) =~= more);
    assert forall|i: int| 0 <= i < more.len() implies (#[trigger] more[i]).tok == tokens_of(
        src,
    )->Ok_0[i].tok && !(more[i].tok is Eof) by {
        assert(tokens_of(src)->Ok_0[none.len() + i].tok == more[i].tok);
    }
    lemma_literal_inside(src, t, more);
}

proof fn lemma_line_goes_to_the_end(t: Seq<char>, p: int)
    requires
        0 <= p <= t.len(),
        forall|k: int| p <= k < t.len() ==> #[trigger] t[k] != '\n',
    ensures
        line_end(t, p) == t.len(),
    decreases t.len() - p,
{
    if p < t.len() {
        lemma_line_goes_to_the_end(t, p + 1);
    }
}

/// One text is one literal: where another value follows on the next line, the text is refused.
pub proof fn law_a_second_value_is_refused(src: Seq<char>)
    requires
        literal_in(src) is Ok,
    ensures
        literal_in(src + seq!['\n', '1']) is Err,
{
    let t = src + seq!['\n', '1'];
    let none = Seq::<Placed>::empty();
    let n = src.len() as int;
    assert forall|i: int| 0 <= i < src.len() implies t[i + 0] == #[trigger] src[i] by {}
    assert(t[n] == '\n' && t[n + 1] == '1');
    let more = lemma_tokens_inside(src, t, 0, 0, none, none);
    assert(none + more =~= more);
    assert(trivia_end(t, n + 1) == n + 1);
    assert(trivia_end(t, n) == n + 1);
    let word = t.subrange(n + 1, n + 2);
    assert(digits_end(t, n + 2, false) == n + 2);
    assert(number_end(t, n + 1) == n + 2);
    assert(!word.contains('.')) by {
        assert(word =~= seq!['1']);
    }
    if text::signed_of(word) is Some {
        assert(token_at(t, n + 1) == Read::Got(Token::Int(text::signed_of(word)->0), n + 2));
        assert(trivia_end(t, n + 2) == n + 2);
        assert(token_at(t, n + 2) == Read::<Token>::Got(Token::Eof, n + 2));
        let one = Placed {
            tok: Token::Int(text::signed_of(word)->0),
            line: line_at(t, n + 1),
            col: col_at(t, n + 1),
        };
        assert(tokens_from(t, n, more) == tokens_from(t, n + 2, more.push(one)));
        let b = tokens_of(t)->Ok_0;
        assert(b.take(more.len() as int) =~= more);
        assert forall|i: int| 0 <= i < more.len() implies (#[trigger] more[i]).tok == tokens_of(
            src,
        )->Ok_0[i].tok && !(more[i].tok is Eof) by {
            assert(tokens_of(src)->Ok_0[none.len() + i].tok == more[i].tok);
        }
        lemma_literal_inside(src, t, more);
    } else {
        assert(token_at(t, n + 1) is Bad);
    }
}

// --- recursive-descent parser ---------------------------------------------

/// Whether two tokens without content are the same; `close` is a closing bracket.
fn closes(t: &Tok, close: &Tok) -> (r: bool)
    requires
        close@ is RBracket || close@ is RParen,
    ensures
        r == (t@ == close@),
{
    match (t, close) {
        (Tok::RBracket, Tok::RBracket) => true,
        (Tok::RParen, Tok::RParen) => true,
        _ => false,
    }
}

/// An error at token `i`.
fn err_at(toks: &Vec<Spanned>, i: usize, message: String) -> (r: PyParseError)
    requires
        i < toks@.len(),
    ensures
        r@ == fault_at_token(placed(toks@), i as int, message@),
{
    PyParseError { message, line: toks[i].line, col: toks[i].col }
}

/// What a parser says of where it stopped, over what the grammar says.
pub open spec fn agrees<T, U>(
    r: Result<(T, usize), PyParseError>,
    t: Seq<Placed>,
    read: Read<U>,
    view: spec_fn(T) -> U,
) -> bool {
    match read {
        Read::Got(v, n) => {
            &&& r matches Ok(got)
            &&& view(got.0) == v
            &&& got.1 == n
            &&& n < t.len()
        },
        Read::Bad(message, at) => {
            &&& r matches Err(e)
            &&& e@ == fault_at_token(t, at, message)
        },
    }
}

/// Reads the value that begins at token `i`.
fn parse_value(toks: &Vec<Spanned>, i: usize) -> (r: Result<(PyValue, usize), PyParseError>)
    requires
        ends_once(placed(toks@)),
        i < toks@.len(),
    ensures
        agrees(r, placed(toks@), value_at(placed(toks@), i as int), |v: PyValue| v@),
        r matches Ok(got) ==> i < got.1,
    decreases toks@.len() - i, 0int,
{
    let count: usize = toks.len();
    let ghost t = placed(toks@);
    assert(t[i as int] == toks@[i as int]@);
    match &toks[i].tok {
        Tok::Str(_) => {
            let mut joined = String::new();
            let mut j: usize = i;
            assert(joined@ =~= Seq::<char>::empty());
            loop
                invariant
                    t == placed(toks@),
                    count == toks@.len(),
                    ends_once(t),
                    i <= j < toks@.len(),
                    t[i as int].tok is Str,
                    strings_from(t, i as int, Seq::empty()) == strings_from(t, j as int, joined@),
                ensures
                    i < j < toks@.len(),
                    strings_from(t, i as int, Seq::empty()) == (joined@, j as int),
                decreases toks@.len() - j,
            {
                assert(t[j as int] == toks@[j as int]@);
                match &toks[j].tok {
                    Tok::Str(part) => {
                        joined.append(part.as_str());
                        j = j + 1;
                    },
                    _ => {
                        break;
                    },
                }
            }
            Ok((PyValue::Str(joined), j))
        },
        Tok::Int(n) => Ok((PyValue::Int(*n), i + 1)),
        Tok::Float(s) => Ok((PyValue::Float(s.clone()), i + 1)),
        Tok::True => Ok((PyValue::Bool(true), i + 1)),
        Tok::False => Ok((PyValue::Bool(false), i + 1)),
        Tok::NoneKw => Ok((PyValue::Nil, i + 1)),
        Tok::LBracket => match parse_seq(toks, i + 1, Tok::RBracket) {
            Ok((items, n)) => {
                proof {
                    lemma_list_view(items);
                }
                Ok((PyValue::List(items), n))
            },
            Err(e) => Err(e),
        },
        Tok::LParen => match parse_seq(toks, i + 1, Tok::RParen) {
            Ok((items, n)) => {
                proof {
                    lemma_list_view(items);
                }
                Ok((PyValue::List(items), n))
            },
            Err(e) => Err(e),
        },
        Tok::LBrace => match parse_dict(toks, i + 1) {
            Ok((entries, n)) => {
                proof {
                    lemma_dict_view(entries);
                }
                Ok((PyValue::Dict(entries), n))
            },
            Err(e) => Err(e),
        },
        other => {
            let mut message = text::joined("unexpected token ", debug_token(other).as_str());
            message.append(" where a value was expected");
            Err(err_at(toks, i, message))
        },
    }
}

/// Reads the items of a list or tuple from token `first` on, up to and with `close`.
fn parse_seq(toks: &Vec<Spanned>, first: usize, close: Tok) -> (r: Result<
    (Vec<PyValue>, usize),
    PyParseError,
>)
    requires
        ends_once(placed(toks@)),
        first < toks@.len(),
        close@ is RBracket || close@ is RParen,
    ensures
        agrees(
            r,
            placed(toks@),
            items_at(placed(toks@), first as int, close@, Seq::empty()),
            |v: Vec<PyValue>| literals_of(v@),
        ),
        r matches Ok(got) ==> first < got.1,
    decreases toks@.len() - first, 1int,
{
    let count: usize = toks.len();
    let ghost t = placed(toks@);
    let mut items: Vec<PyValue> = Vec::new();
    let mut i: usize = first;
    assert(literals_of(items@) =~= Seq::<Literal>::empty());
    loop
        invariant
            t == placed(toks@),
            count == toks@.len(),
            ends_once(t),
            first <= i < toks@.len(),
            close@ is RBracket || close@ is RParen,
            items_at(t, first as int, close@, Seq::empty()) == items_at(
                t,
                i as int,
                close@,
                literals_of(items@),
            ),
        decreases toks@.len() - i,
    {
        assert(t[i as int] == toks@[i as int]@);
        if closes(&toks[i].tok, &close) {
            return Ok((items, i + 1));
        }
        let (value, n) = match parse_value(toks, i) {
            Ok(got) => got,
            Err(e) => {
                return Err(e);
            },
        };
        let ghost before = literals_of(items@);
        assert(t[n as int] == toks@[n as int]@);
        items.push(value);
        assert(literals_of(items@) =~= before.push(value@));
        match &toks[n].tok {
            Tok::Comma => {
                i = n + 1;
            },
            other => {
                if closes(other, &close) {
                    return Ok((items, n + 1));
                }
                let message = text::joined(
                    "expected ',' or closing bracket, found ",
                    debug_token(other).as_str(),
                );
                return Err(err_at(toks, n, message));
            },
        }
    }
}

/// Reads the entries of a dict from token `first` on, up to and with the closing brace.
fn parse_dict(toks: &Vec<Spanned>, first: usize) -> (r: Result<
    (Vec<(String, PyValue)>, usize),
    PyParseError,
>)
    requires
        ends_once(placed(toks@)),
        first < toks@.len(),
    ensures
        agrees(
            r,
            placed(toks@),
            entries_at(placed(toks@), first as int, Seq::empty()),
            |v: Vec<(String, PyValue)>| entries_of(v@),
        ),
        r matches Ok(got) ==> first < got.1,
    decreases toks@.len() - first, 1int,
{
    let count: usize = toks.len();
    let ghost t = placed(toks@);
    let mut entries: Vec<(String, PyValue)> = Vec::new();
    let mut i: usize = first;
    assert(entries_of(entries@) =~= Seq::<(Seq<char>, Literal)>::empty());
    loop
        invariant
            t == placed(toks@),
            count == toks@.len(),
            ends_once(t),
            first <= i < toks@.len(),
            entries_at(t, first as int, Seq::empty()) == entries_at(
                t,
                i as int,
                entries_of(entries@),
            ),
        decreases toks@.len() - i,
    {
        assert(t[i as int] == toks@[i as int]@);
        match &toks[i].tok {
            Tok::RBrace => {
                return Ok((entries, i + 1));
            },
            _ => {},
        }
        let (name, n) = match parse_value(toks, i) {
            Ok(got) => got,
            Err(e) => {
                return Err(e);
            },
        };
        assert(t[n as int] == toks@[n as int]@);
        let key = match name {
            PyValue::Str(s) => s,
            other => {
                let message = text::joined(
                    "dict keys must be string literals, found ",
                    debug_value(&other).as_str(),
                );
                return Err(err_at(toks, n, message));
            },
        };
        match &toks[n].tok {
            Tok::Colon => {},
            other => {
                let message = text::joined(
                    "expected Colon, found ",
                    debug_token(other).as_str(),
                );
                return Err(err_at(toks, n, message));
            },
        }
        let (value, m) = match parse_value(toks, n + 1) {
            Ok(got) => got,
            Err(e) => {
                return Err(e);
            },
        };
        let ghost before = entries_of(entries@);
        assert(t[m as int] == toks@[m as int]@);
        entries.push((key, value));
        assert(entries_of(entries@) =~= before.push((key@, value@)));
        match &toks[m].tok {
            Tok::Comma => {
                i = m + 1;
            },
            Tok::RBrace => {
                return Ok((entries, m + 1));
            },
            other => {
                let message = text::joined(
                    "expected ',' or '}', found ",
                    debug_token(other).as_str(),
                );
                return Err(err_at(toks, m, message));
            },
        }
    }
}

/// Reads a text as one Python literal.
pub fn parse_py_literal(src: &str) -> (r: Result<PyValue, PyParseError>)
    ensures
        match literal_in(src@) {
            Ok(v) => r matches Ok(got) && got@ == v,
            Err(f) => r matches Err(e) && e@ == f,
        },
{
    let toks = match lex(src) {
        Ok(v) => v,
        Err(e) => {
            return Err(e);
        },
    };
    let (value, n) = match parse_value(&toks, 0) {
        Ok(got) => got,
        Err(e) => {
            return Err(e);
        },
    };
    assert(placed(toks@)[n as int] == toks@[n as int]@);
    match &toks[n].tok {
        Tok::Eof => Ok(value),
        other => {
            let message = text::joined(
                "unexpected trailing token ",
                debug_token(other).as_str(),
            );
            Err(err_at(&toks, n, message))
        },
    }
}

// --- manifests ------------------------------------------------------------

/// The value of the first entry under `key`.
pub open spec fn entry_under(entries: Seq<(Seq<char>, Literal)>, key: Seq<char>) -> Option<Literal>
    decreases entries.len(),
{
    if entries.len() == 0 {
        None
    } else if entries[0].0 == key {
        Some(entries[0].1)
    } else {
        entry_under(entries.drop_first(), key)
    }
}

/// The text under `key`, where that is a string.
pub open spec fn text_under(entries: Seq<(Seq<char>, Literal)>, key: Seq<char>) -> Option<Seq<char>> {
    match entry_under(entries, key) {
        Some(Literal::Str(s)) => Some(s),
        _ => None,
    }
}

/// The truth value under `key`, where there is one; else `default`.
pub open spec fn bool_under(
    entries: Seq<(Seq<char>, Literal)>,
    key: Seq<char>,
    default: bool,
) -> bool {
    match entry_under(entries, key) {
        Some(Literal::Bool(b)) => b,
        _ => default,
    }
}

/// Whether every item is a string.
pub open spec fn all_strings(items: Seq<Literal>) -> bool {
    forall|i: int| 0 <= i < items.len() ==> (#[trigger] items[i]) is Str
}

/// The strings of a list of nothing but strings; no strings of any other.
pub open spec fn strings_of(v: Option<Literal>) -> Seq<Seq<char>> {
    match v {
        Some(Literal::List(items)) => if all_strings(items) {
            items.map_values(|l: Literal| l->Str_0)
        } else {
            Seq::empty()
        },
        _ => Seq::empty(),
    }
}

/// Whether `auto_install` is a plain truth value or (from Odoo 17 on) a list of module names that
/// means "once all of these are installed".
#[derive(Debug)]
pub enum AutoInstall {
    Bool(bool),
    IfInstalled(Vec<String>),
}

impl AutoInstall {
    /// Whether it is switched on: an empty list does not switch it on.
    pub fn is_enabled(&self) -> (r: bool)
        ensures
            r == match *self {
                AutoInstall::Bool(b) => b,
                AutoInstall::IfInstalled(mods) => mods@.len() > 0,
            },
    {
        match self {
            AutoInstall::Bool(b) => *b,
            AutoInstall::IfInstalled(mods) => mods.len() > 0,
        }
    }
}

/// The manifest fields that are acted on.
#[derive(Debug)]
pub struct ModuleManifest {
    pub name: String,
    pub version: Option<String>,
    pub category: Option<String>,
    pub depends: Vec<String>,
    pub installable: bool,
    pub auto_install_enabled: bool,
    pub application: bool,
}

/// What a manifest says.
pub struct Described {
    pub name: Seq<char>,
    pub version: Option<Seq<char>>,
    pub category: Option<Seq<char>>,
    pub depends: Seq<Seq<char>>,
    pub installable: bool,
    pub auto_install_enabled: bool,
    pub application: bool,
}

impl View for ModuleManifest {
    type V = Described;

    open spec fn view(&self) -> Described {
        Described {
            name: self.name@,
            version: text::opt_view(self.version),
            category: text::opt_view(self.category),
            depends: text::views(self.depends@),
            installable: self.installable,
            auto_install_enabled: self.auto_install_enabled,
            application: self.application,
        }
    }
}

/// What the entries of a manifest say: where a key is absent, or holds a value of another sort,
/// the module is installable, not an application, not installed by itself and depends on nothing,
/// and its name is `fallback`.
pub open spec fn manifest_of(entries: Seq<(Seq<char>, Literal)>, fallback: Seq<char>) -> Described {
    Described {
        name: match text_under(entries, "name"@) {
            Some(s) => s,
            None => fallback,
        },
        version: text_under(entries, "version"@),
        category: text_under(entries, "category"@),
        depends: strings_of(entry_under(entries, "depends"@)),
        installable: bool_under(entries, "installable"@, true),
        auto_install_enabled: match entry_under(entries, "auto_install"@) {
            Some(Literal::Bool(b)) => b,
            Some(Literal::List(_)) => strings_of(entry_under(entries, "auto_install"@)).len() > 0,
            _ => false,
        },
        application: bool_under(entries, "application"@, false),
    }
}

/// Whether the first entry under a key holds a value.
pub open spec fn first_under(
    entries: Seq<(Seq<char>, Literal)>,
    key: Seq<char>,
    value: Literal,
) -> bool {
    exists|i: int|
        {
            &&& 0 <= i < entries.len()
            &&& #[trigger] entries[i] == (key, value)
            &&& forall|j: int| 0 <= j < i ==> (#[trigger] entries[j]).0 != key
        }
}

proof fn lemma_entry_under(entries: Seq<(Seq<char>, Literal)>, key: Seq<char>)
    ensures
        entry_under(entries, key) matches Some(v) ==> first_under(entries, key, v),
        entry_under(entries, key) is None ==> forall|i: int|
            0 <= i < entries.len() ==> (#[trigger] entries[i]).0 != key,
        forall|v: Literal| #[trigger]
            first_under(entries, key, v) ==> entry_under(entries, key) == Some(v),
    decreases entries.len(),
{
    if entries.len() > 0 {
        let rest = entries.drop_first();
        if entries[0].0 == key {
            assert(entries[0] == (key, entries[0].1));
            assert forall|v: Literal| #[trigger] first_under(entries, key, v) implies entry_under(
                entries,
                key,
            ) == Some(v) by {
                let i = choose|i: int|
                    {
                        &&& 0 <= i < entries.len()
                        &&& #[trigger] entries[i] == (key, v)
                        &&& forall|j: int| 0 <= j < i ==> (#[trigger] entries[j]).0 != key
                    };
                if i > 0 {
                    assert(entries[0].0 != key);
                }
            }
        } else {
            lemma_entry_under(rest, key);
            assert forall|v: Literal| #[trigger] first_under(rest, key, v) implies first_under(
                entries,
                key,
                v,
            ) by {
                let i = choose|i: int|
                    {
                        &&& 0 <= i < rest.len()
                        &&& #[trigger] rest[i] == (key, v)
                        &&& forall|j: int| 0 <= j < i ==> (#[trigger] rest[j]).0 != key
                    };
                assert(entries[i + 1] == (key, v));
                assert forall|j: int| 0 <= j < i + 1 implies (#[trigger] entries[j]).0 != key by {
                    if j > 0 {
                        assert(rest[j - 1] == entries[j]);
                    }
                }
            }
            assert forall|v: Literal| #[trigger] first_under(entries, key, v) implies entry_under(
                entries,
                key,
            ) == Some(v) by {
                let i = choose|i: int|
                    {
                        &&& 0 <= i < entries.len()
                        &&& #[trigger] entries[i] == (key, v)
                        &&& forall|j: int| 0 <= j < i ==> (#[trigger] entries[j]).0 != key
                    };
                assert(rest[i - 1] == (key, v));
                assert forall|j: int| 0 <= j < i - 1 implies (#[trigger] rest[j]).0 != key by {
                    assert(rest[j] == entries[j + 1]);
                }
                assert(first_under(rest, key, v));
            }
            if entry_under(rest, key) is None {
                assert forall|i: int| 0 <= i < entries.len() implies (#[trigger] entries[i]).0
                    != key by {
                    if i > 0 {
                        assert(rest[i - 1] == entries[i]);
                    }
                }
            }
        }
    }
}

/// A module is installable unless its manifest says `False`, an application only where it says
/// `True`.
pub proof fn law_a_manifest_switches_a_module_off(
    m: ModuleManifest,
    entries: Seq<(Seq<char>, Literal)>,
    fallback: Seq<char>,
)
    requires
        m@ == manifest_of(entries, fallback),
    ensures
        !m.installable <==> first_under(entries, "installable"@, Literal::Bool(false)),
        m.application <==> first_under(entries, "application"@, Literal::Bool(true)),
{
    lemma_entry_under(entries, "installable"@);
    lemma_entry_under(entries, "application"@);
}

/// A module is called what its manifest says, and has the version and the category that the
/// manifest gives as text; where it gives no name, the module is called by the fallback.
pub proof fn law_a_manifest_names_its_module(
    m: ModuleManifest,
    entries: Seq<(Seq<char>, Literal)>,
    fallback: Seq<char>,
    s: Seq<char>,
)
    requires
        m@ == manifest_of(entries, fallback),
    ensures
        first_under(entries, "name"@, Literal::Str(s)) ==> m.name@ == s,
        (forall|other: Seq<char>| !#[trigger]
            first_under(entries, "name"@, Literal::Str(other))) ==> m.name@ == fallback,
        first_under(entries, "version"@, Literal::Str(s)) <==> (m.version matches Some(v) && v@
            == s),
        first_under(entries, "category"@, Literal::Str(s)) <==> (m.category matches Some(v) && v@
            == s),
{
    lemma_entry_under(entries, "name"@);
    lemma_entry_under(entries, "version"@);
    lemma_entry_under(entries, "category"@);
    if let Some(Literal::Str(other)) = entry_under(entries, "name"@) {
        assert(first_under(entries, "name"@, Literal::Str(other)));
    }
}

/// A module depends on what its manifest lists, in that order, where the list holds nothing but
/// texts; any other value names no dependency.
pub proof fn law_a_manifest_lists_what_its_module_needs(
    m: ModuleManifest,
    entries: Seq<(Seq<char>, Literal)>,
    fallback: Seq<char>,
    items: Seq<Literal>,
)
    requires
        m@ == manifest_of(entries, fallback),
    ensures
        first_under(entries, "depends"@, Literal::List(items)) && (forall|i: int|
            0 <= i < items.len() ==> (#[trigger] items[i]) is Str) ==> {
            &&& m.depends@.len() == items.len()
            &&& forall|i: int|
                0 <= i < items.len() ==> items[i] == Literal::Str((#[trigger] m.depends@[i])@)
        },
        m.depends@.len() > 0 ==> exists|all: Seq<Literal>|
            {
                &&& #[trigger] first_under(entries, "depends"@, Literal::List(all))
                &&& all.len() == m.depends@.len()
                &&& forall|i: int|
                    0 <= i < all.len() ==> all[i] == Literal::Str((#[trigger] m.depends@[i])@)
            },
{
    lemma_entry_under(entries, "depends"@);
    assert(text::views(m.depends@).len() == m.depends@.len());
    if first_under(entries, "depends"@, Literal::List(items)) && (forall|i: int|
        0 <= i < items.len() ==> (#[trigger] items[i]) is Str) {
        assert(all_strings(items));
        assert forall|i: int| 0 <= i < items.len() implies items[i] == Literal::Str(
            (#[trigger] m.depends@[i])@,
        ) by {
            assert(text::views(m.depends@)[i] == m.depends@[i]@);
        }
    }
    if m.depends@.len() > 0 {
        let all = entry_under(entries, "depends"@)->0->List_0;
        assert(first_under(entries, "depends"@, Literal::List(all)));
        assert(all_strings(all));
        assert forall|i: int| 0 <= i < all.len() implies all[i] == Literal::Str(
            (#[trigger] m.depends@[i])@,
        ) by {
            assert(text::views(m.depends@)[i] == m.depends@[i]@);
        }
    }
}

/// A module installs by itself where its manifest says `True`, or lists, in texts, what has to be
/// there first; never where it says `False`, lists nothing, or says nothing of it.
pub proof fn law_a_manifest_says_what_installs_by_itself(
    m: ModuleManifest,
    entries: Seq<(Seq<char>, Literal)>,
    fallback: Seq<char>,
)
    requires
        m@ == manifest_of(entries, fallback),
    ensures
        m.auto_install_enabled <==> {
            ||| first_under(entries, "auto_install"@, Literal::Bool(true))
            ||| exists|items: Seq<Literal>|
                {
                    &&& #[trigger] first_under(entries, "auto_install"@, Literal::List(items))
                    &&& items.len() > 0
                    &&& forall|i: int| 0 <= i < items.len() ==> (#[trigger] items[i]) is Str
                }
        },
{
    lemma_entry_under(entries, "auto_install"@);
    let v = entry_under(entries, "auto_install"@);
    if let Some(Literal::List(items)) = v {
        assert(first_under(entries, "auto_install"@, Literal::List(items)));
    }
}

/// A file that is a dict gives a manifest and any other gives none: one that could not be read,
/// one that is no literal, and one that is another literal.
pub proof fn law_only_a_dict_is_a_manifest(
    path: Seq<char>,
    contents: Result<String, String>,
    fallback: Seq<char>,
)
    ensures
        manifest_in(path, contents, fallback) is Ok <==> (contents matches Ok(src) && (literal_in(
            src@,
        ) matches Ok(Literal::Dict(_)))),
        manifest_in(path, contents, fallback) matches Ok(m) ==> m == manifest_of(
            literal_in(contents->Ok_0@)->Ok_0->Dict_0,
            fallback,
        ),
{
}

/// The value of the first entry under `key`.
fn find_entry<'a>(entries: &'a Vec<(String, PyValue)>, key: &str) -> (r: Option<&'a PyValue>)
    ensures
        match r {
            Some(v) => entry_under(entries_of(entries@), key@) == Some(v@),
            None => entry_under(entries_of(entries@), key@) is None,
        },
{
    let ghost all = entries_of(entries@);
    let mut i: usize = 0;
    assert(all.skip(0) =~= all);
    while i < entries.len()
        invariant
            i <= entries@.len(),
            all == entries_of(entries@),
            entry_under(all, key@) == entry_under(all.skip(i as int), key@),
        decreases entries@.len() - i,
    {
        assert(all.skip(i as int)[0] == (entries@[i as int].0@, entries@[i as int].1@));
        if text::same_text(entries[i].0.as_str(), key) {
            return Some(&entries[i].1);
        }
        assert(all.skip(i as int).drop_first() =~= all.skip(i + 1));
        i = i + 1;
    }
    None
}

impl PyValue {
    /// The text of a string.
    fn as_str(&self) -> (r: Option<String>)
        ensures
            text::opt_view(r) == (match self@ {
                Literal::Str(s) => Some(s),
                _ => None,
            }),
    {
        match self {
            PyValue::Str(s) => Some(s.clone()),
            _ => None,
        }
    }

    /// The truth value of a bool.
    fn as_bool(&self) -> (r: Option<bool>)
        ensures
            r == (match self@ {
                Literal::Bool(b) => Some(b),
                _ => None,
            }),
    {
        match self {
            PyValue::Bool(b) => Some(*b),
            _ => None,
        }
    }

    /// The strings of a list of strings.
    fn as_str_list(&self) -> (r: Option<Vec<String>>)
        ensures
            match r {
                Some(v) => self@ is List && all_strings(self@->List_0) && text::views(v@)
                    == strings_of(Some(self@)),
                None => !(self@ is List && all_strings(self@->List_0)),
            },
    {
        match self {
            PyValue::List(items) => {
                proof {
                    lemma_list_view(*items);
                }
                let ghost all = literals_of(items@);
                let mut out: Vec<String> = Vec::new();
                let mut i: usize = 0;
                while i < items.len()
                    invariant
                        i <= items@.len(),
                        all == literals_of(items@),
                        self@ == Literal::List(all),
                        forall|j: int| 0 <= j < i ==> (#[trigger] all[j]) is Str,
                        text::views(out@) == all.take(i as int).map_values(
                            |l: Literal| l->Str_0,
                        ),
                    decreases items@.len() - i,
                {
                    assert(all[i as int] == items@[i as int]@);
                    match items[i].as_str() {
                        Some(s) => {
                            let ghost before = text::views(out@);
                            out.push(s);
                            proof {
                                assert(text::views(out@) =~= before.push(s@));
                                assert(text::views(out@) =~= all.take(i + 1).map_values(
                                    |l: Literal| l->Str_0,
                                ));
                            }
                        },
                        None => {
                            return None;
                        },
                    }
                    i = i + 1;
                }
                assert(all.take(i as int) =~= all);
                Some(out)
            },
            _ => None,
        }
    }
}

/// The text under `key`.
fn find_text(entries: &Vec<(String, PyValue)>, key: &str) -> (r: Option<String>)
    ensures
        text::opt_view(r) == text_under(entries_of(entries@), key@),
{
    match find_entry(entries, key) {
        Some(v) => v.as_str(),
        None => None,
    }
}

/// The truth value under `key`.
fn find_bool(entries: &Vec<(String, PyValue)>, key: &str, default: bool) -> (r: bool)
    ensures
        r == bool_under(entries_of(entries@), key@, default),
{
    match find_entry(entries, key) {
        Some(v) => match v.as_bool() {
            Some(b) => b,
            None => default,
        },
        None => default,
    }
}

/// The strings of the list under `key`.
fn find_strings(entries: &Vec<(String, PyValue)>, key: &str) -> (r: Vec<String>)
    ensures
        text::views(r@) == strings_of(entry_under(entries_of(entries@), key@)),
{
    let found = match find_entry(entries, key) {
        Some(v) => v.as_str_list(),
        None => None,
    };
    match found {
        Some(v) => v,
        None => {
            let none: Vec<String> = Vec::new();
            assert(text::views(none@) =~= Seq::<Seq<char>>::empty());
            none
        },
    }
}

impl ModuleManifest {
    /// The manifest that a dict's entries describe.
    pub fn from_dict(entries: &Vec<(String, PyValue)>, fallback_name: &str) -> (r: Self)
        ensures
            r@ == manifest_of(entries_of(entries@), fallback_name@),
    {
        let name = match find_text(entries, "name") {
            Some(s) => s,
            None => fallback_name.to_owned(),
        };
        let auto_install = match find_entry(entries, "auto_install") {
            Some(PyValue::Bool(b)) => AutoInstall::Bool(*b),
            Some(PyValue::List(items)) => {
                proof {
                    lemma_list_view(*items);
                }
                AutoInstall::IfInstalled(find_strings(entries, "auto_install"))
            },
            _ => AutoInstall::Bool(false),
        };
        let auto_install_enabled = auto_install.is_enabled();
        proof {
            if let AutoInstall::IfInstalled(mods) = auto_install {
                assert(text::views(mods@).len() == mods@.len());
            }
        }
        ModuleManifest {
            name,
            version: find_text(entries, "version"),
            category: find_text(entries, "category"),
            depends: find_strings(entries, "depends"),
            installable: find_bool(entries, "installable", true),
            auto_install_enabled,
            application: find_bool(entries, "application", false),
        }
    }
}

/// Why a manifest file gave no manifest.
#[derive(Debug)]
pub enum ManifestError {
    /// The file could not be read; `source` says why.
    Io { path: String, source: String },
    /// The text is no Python literal.
    Parse { path: String, message: String },
    /// The text is a literal, but not a dict.
    NotADict { path: String },
}

/// What is shown of a manifest error.
pub open spec fn manifest_error_text(e: ManifestError) -> Seq<char> {
    match e {
        ManifestError::Io { path, source } => "couldn't read "@ + path@ + ": "@ + source@,
        ManifestError::Parse { path, message } => path@ + ": "@ + message@,
        ManifestError::NotADict { path } => path@
            + ": manifest must be a single {...} dict literal"@,
    }
}

impl ManifestError {
    /// What is shown of the error.
    pub fn message(&self) -> (r: String)
        ensures
            r@ == manifest_error_text(*self),
    {
        match self {
            ManifestError::Io { path, source } => {
                let mut out = text::joined("couldn't read ", path.as_str());
                out.append(": ");
                out.append(source.as_str());
                out
            },
            ManifestError::Parse { path, message } => {
                let mut out = text::joined(path.as_str(), ": ");
                out.append(message.as_str());
                out
            },
            ManifestError::NotADict { path } => text::joined(
                path.as_str(),
                ": manifest must be a single {...} dict literal",
            ),
        }
    }
}

/// The error text of a fault: its place and its message.
pub open spec fn fault_text(f: Fault) -> Seq<char> {
    "line "@ + text::decimal_of(f.line as nat) + ", col "@ + text::decimal_of(f.col as nat) + ": "@
        + f.message
}

/// What a manifest file's contents come to: `contents` is the file's text, or why it could not be
/// read; an error is what is shown of it.
pub open spec fn manifest_in(
    path: Seq<char>,
    contents: Result<String, String>,
    fallback: Seq<char>,
) -> Result<Described, Seq<char>> {
    match contents {
        Err(why) => Err("couldn't read "@ + path + ": "@ + why@),
        Ok(src) => match literal_in(src@) {
            Err(f) => Err(path + ": "@ + fault_text(f)),
            Ok(Literal::Dict(entries)) => Ok(manifest_of(entries, fallback)),
            Ok(_) => Err(path + ": manifest must be a single {...} dict literal"@),
        },
    }
}

/// Reads a manifest from its file's contents. `fallback_name` is the name of a module whose
/// manifest sets none.
pub fn parse_manifest_file(path: &str, contents: &Result<String, String>, fallback_name: &str) -> (r:
    Result<ModuleManifest, ManifestError>)
    ensures
        match manifest_in(path@, *contents, fallback_name@) {
            Ok(m) => r matches Ok(got) && got@ == m,
            Err(shown) => r matches Err(e) && manifest_error_text(e) == shown,
        },
        r matches Err(e) ==> match e {
            ManifestError::Io { path: p, source } => {
                &&& p@ == path@
                &&& contents matches Err(why)
                &&& source@ == why@
            },
            ManifestError::Parse { path: p, message } => {
                &&& p@ == path@
                &&& contents matches Ok(src)
                &&& literal_in(src@) matches Err(f)
                &&& message@ == fault_text(f)
            },
            ManifestError::NotADict { path: p } => {
                &&& p@ == path@
                &&& contents matches Ok(src)
                &&& literal_in(src@) matches Ok(v)
                &&& !(v is Dict)
            },
        },
{
    match contents {
        Err(why) => Err(ManifestError::Io { path: path.to_owned(), source: why.clone() }),
        Ok(src) => match parse_py_literal(src.as_str()) {
            Err(e) => Err(ManifestError::Parse { path: path.to_owned(), message: e.message() }),
            Ok(PyValue::Dict(entries)) => {
                proof {
                    lemma_dict_view(entries);
                }
                Ok(ModuleManifest::from_dict(&entries, fallback_name))
            },
            Ok(_) => Err(ManifestError::NotADict { path: path.to_owned() }),
        },
    }
}

// --- what is written is read ----------------------------------------------
/// A value as tokens: each item of a list and each entry of a dict with a comma behind it.
pub open spec fn written(v: Literal) -> Seq<Token>
    decreases v,
{
    match v {
        Literal::Nil => seq![Token::NoneKw],
        Literal::Bool(b) => if b {
            seq![Token::True]
        } else {
            seq![Token::False]
        },
        Literal::Int(n) => seq![Token::Int(n)],
        Literal::Float(s) => seq![Token::Float(s)],
        Literal::Str(s) => seq![Token::Str(s)],
        Literal::List(items) => seq![Token::LBracket] + written_items(items) + seq![Token::RBracket],
        Literal::Dict(entries) => seq![Token::LBrace] + written_entries(entries) + seq![
            Token::RBrace,
        ],
    }
}

/// Items as tokens.
pub open spec fn written_items(items: Seq<Literal>) -> Seq<Token>
    decreases items,
{
    if items.len() == 0 {
        Seq::empty()
    } else {
        written(items[0]) + seq![Token::Comma] + written_items(
            items.subrange(1, items.len() as int),
        )
    }
}

/// Entries as tokens.
pub open spec fn written_entries(entries: Seq<(Seq<char>, Literal)>) -> Seq<Token>
    decreases entries,
{
    if entries.len() == 0 {
        Seq::empty()
    } else {
        seq![Token::Str(entries[0].0), Token::Colon] + written(entries[0].1) + seq![Token::Comma]
            + written_entries(entries.subrange(1, entries.len() as int))
    }
}

/// Whether tokens stand at a place, with something behind them.
spec fn stands_at(t: Seq<Placed>, i: int, w: Seq<Token>) -> bool {
    &&& 0 <= i
    &&& i + w.len() < t.len()
    &&& forall|k: int| 0 <= k < w.len() ==> (#[trigger] t[i + k]).tok == w[k]
}

proof fn lemma_stands_part(t: Seq<Placed>, i: int, a: Seq<Token>, b: Seq<Token>)
    requires
        stands_at(t, i, a + b),
    ensures
        b.len() > 0 ==> stands_at(t, i, a) && t[i + a.len()].tok == b[0],
        stands_at(t, i + a.len(), b),
{
    let w = a + b;
    assert forall|k: int| 0 <= k < a.len() implies (#[trigger] t[i + k]).tok == a[k] by {
        assert(w[k] == a[k]);
    }
    assert forall|k: int| 0 <= k < b.len() implies (#[trigger] t[i + a.len() + k]).tok == b[k] by {
        assert(t[i + (a.len() + k)].tok == w[a.len() + k]);
    }
    if b.len() > 0 {
        assert(t[i + a.len() + 0].tok == b[0]);
    }
}

proof fn lemma_value_is_read(t: Seq<Placed>, i: int, v: Literal)
    requires
        stands_at(t, i, written(v)),
        !(t[i + written(v).len()].tok is Str),
    ensures
        written(v).len() > 0,
        value_at(t, i) == Read::Got(v, i + written(v).len()),
    decreases v,
{
    let w = written(v);
    match v {
        Literal::List(items) => {
            let rest = written_items(items) + seq![Token::RBracket];
            assert(w =~= seq![Token::LBracket] + rest);
            lemma_stands_part(t, i, seq![Token::LBracket], rest);
            assert(t[i + 0].tok == Token::LBracket);
            lemma_items_are_read(t, i + 1, items, Token::RBracket, Seq::empty());
            assert(Seq::<Literal>::empty() + items =~= items);
        },
        Literal::Dict(entries) => {
            let rest = written_entries(entries) + seq![Token::RBrace];
            assert(w =~= seq![Token::LBrace] + rest);
            lemma_stands_part(t, i, seq![Token::LBrace], rest);
            assert(t[i + 0].tok == Token::LBrace);
            lemma_entries_are_read(t, i + 1, entries, Seq::empty());
            assert(Seq::<(Seq<char>, Literal)>::empty() + entries =~= entries);
        },
        Literal::Str(s) => {
            assert(t[i + 0].tok == w[0]);
            assert(strings_from(t, i + 1, Seq::empty() + s) == (Seq::<char>::empty() + s, i + 1));
            assert(Seq::<char>::empty() + s =~= s);
        },
        _ => {
            assert(t[i + 0].tok == w[0]);
        },
    }
}

proof fn lemma_first_token(v: Literal)
    ensures
        written(v).len() > 0,
        !(written(v)[0] is RBracket) && !(written(v)[0] is RParen) && !(written(v)[0] is RBrace),
{
}

proof fn lemma_items_are_read(
    t: Seq<Placed>,
    i: int,
    items: Seq<Literal>,
    close: Token,
    acc: Seq<Literal>,
)
    requires
        close is RBracket || close is RParen,
        stands_at(t, i, written_items(items) + seq![close]),
    ensures
        items_at(t, i, close, acc) == Read::Got(acc + items, i + written_items(items).len() + 1),
    decreases items,
{
    let w = written_items(items) + seq![close];
    if items.len() == 0 {
        assert(t[i + 0].tok == w[0]);
        assert(acc + items =~= acc);
    } else {
        let v = items[0];
        let others = items.subrange(1, items.len() as int);
        let own = written(v);
        let rest = written_items(others) + seq![close];
        let behind = seq![Token::Comma] + rest;
        assert(w =~= own + behind);
        lemma_first_token(v);
        lemma_stands_part(t, i, own, behind);
        assert(t[i + 0].tok == own[0]);
        lemma_value_is_read(t, i, v);
        let n = i + own.len();
        lemma_stands_part(t, n, seq![Token::Comma], rest);
        lemma_items_are_read(t, n + 1, others, close, acc.push(v));
        assert(acc.push(v) + others =~= acc + items);
    }
}

proof fn lemma_entries_are_read(
    t: Seq<Placed>,
    i: int,
    entries: Seq<(Seq<char>, Literal)>,
    acc: Seq<(Seq<char>, Literal)>,
)
    requires
        stands_at(t, i, written_entries(entries) + seq![Token::RBrace]),
    ensures
        entries_at(t, i, acc) == Read::Got(acc + entries, i + written_entries(entries).len() + 1),
    decreases entries,
{
    let w = written_entries(entries) + seq![Token::RBrace];
    if entries.len() == 0 {
        assert(t[i + 0].tok == w[0]);
        assert(acc + entries =~= acc);
    } else {
        let (key, v) = entries[0];
        let others = entries.subrange(1, entries.len() as int);
        let own = written(v);
        let rest = written_entries(others) + seq![Token::RBrace];
        let behind = seq![Token::Comma] + rest;
        let head = seq![Token::Str(key), Token::Colon];
        assert(w =~= head + (own + behind));
        lemma_stands_part(t, i, head, own + behind);
        lemma_stands_part(t, i + 2, own, behind);
        assert(t[i + 0].tok == head[0]);
        assert(t[i + 1].tok == head[1]);
        assert(strings_from(t, i + 1, Seq::empty() + key) == (Seq::<char>::empty() + key, i + 1));
        assert(Seq::<char>::empty() + key =~= key);
        assert(value_at(t, i) == Read::Got(Literal::Str(key), i + 1));
        lemma_first_token(v);
        lemma_value_is_read(t, i + 2, v);
        let m = i + 2 + own.len();
        lemma_stands_part(t, m, seq![Token::Comma], rest);
        lemma_entries_are_read(t, m + 1, others, acc.push((key, v)));
        assert(acc.push((key, v)) + others =~= acc + entries);
    }
}

/// A tuple is read as a list is, and strings side by side are one string.
pub proof fn law_tuples_and_neighbours(
    t: Seq<Placed>,
    i: int,
    items: Seq<Literal>,
    a: Seq<char>,
    b: Seq<char>,
    e: int,
)
    requires
        0 <= i,
    ensures
        i + written_items(items).len() + 2 < t.len() && t[i].tok is LParen && (forall|k: int|
            0 <= k < written_items(items).len() ==> (#[trigger] t[i + 1 + k]).tok == written_items(
                items,
            )[k]) && t[i + 1 + written_items(items).len()].tok is RParen ==> value_at(t, i)
            == Read::Got(Literal::List(items), i + written_items(items).len() + 2),
        i + 1 < t.len() && t[i].tok == Token::Str(a) && t[i + 1].tok is Str && value_at(t, i + 1)
            == Read::Got(Literal::Str(b), e) ==> value_at(t, i) == Read::Got(
            Literal::Str(a + b),
            e,
        ),
{
    let w = written_items(items);
    let close = Token::RParen;
    if i + w.len() + 2 < t.len() && t[i].tok is LParen && (forall|k: int|
        0 <= k < w.len() ==> (#[trigger] t[i + 1 + k]).tok == w[k]) && t[i + 1 + w.len()].tok
        is RParen {
        let all = w + seq![close];
        assert forall|k: int| 0 <= k < all.len() implies (#[trigger] t[i + 1 + k]).tok == all[k] by {
            if k < w.len() {
                assert(all[k] == w[k]);
            }
        }
        lemma_items_are_read(t, i + 1, items, close, Seq::empty());
        assert(Seq::<Literal>::empty() + items =~= items);
    }
    if i + 1 < t.len() && t[i].tok == Token::Str(a) && t[i + 1].tok is Str {
        lemma_strings_add_up(t, i + 1, Seq::empty() + a);
        assert(Seq::<char>::empty() + a =~= a);
    }
}

proof fn lemma_strings_add_up(t: Seq<Placed>, i: int, acc: Seq<char>)
    ensures
        strings_from(t, i, acc).0 == acc + strings_from(t, i, Seq::empty()).0,
        strings_from(t, i, acc).1 == strings_from(t, i, Seq::empty()).1,
    decreases t.len() - i,
{
    let none = Seq::<char>::empty();
    if 0 <= i < t.len() && t[i].tok is Str {
        let s = t[i].tok->Str_0;
        lemma_strings_add_up(t, i + 1, acc + s);
        lemma_strings_add_up(t, i + 1, none + s);
        assert(none + s =~= s);
        assert(acc + s + strings_from(t, i + 1, none).0 =~= acc + (s + strings_from(
            t,
            i + 1,
            none,
        ).0));
    } else {
        assert(acc + none =~= acc);
    }
}

/// A text inside double quotes: quotes and backslashes with a backslash before them.
pub open spec fn quoted(s: Seq<char>) -> Seq<char>
    decreases s.len(),
{
    if s.len() == 0 {
        Seq::empty()
    } else {
        (if s[0] == '"' || s[0] == '\\' {
            seq!['\\', s[0]]
        } else {
            seq![s[0]]
        }) + quoted(s.drop_first())
    }
}

/// How a token is written.
pub open spec fn token_text(t: Token) -> Seq<char> {
    match t {
        Token::LBrace => seq!['{'],
        Token::RBrace => seq!['}'],
        Token::LBracket => seq!['['],
        Token::RBracket => seq![']'],
        Token::LParen => seq!['('],
        Token::RParen => seq![')'],
        Token::Colon => seq![':'],
        Token::Comma => seq![','],
        Token::Str(s) => seq!['"'] + quoted(s) + seq!['"'],
        Token::Int(n) => text::signed_decimal_of(n),
        Token::Float(s) => s,
        Token::True => "True"@,
        Token::False => "False"@,
        Token::NoneKw => "None"@,
        Token::Eof => Seq::empty(),
    }
}

/// Whether a token can be written: no fraction, and a number that fits.
pub open spec fn can_write(t: Token) -> bool {
    match t {
        Token::Int(n) => i64::MIN <= n <= i64::MAX,
        Token::Float(_) => false,
        Token::Eof => false,
        _ => true,
    }
}

/// Tokens as text, each with a blank behind it.
pub open spec fn text_of(tokens: Seq<Token>) -> Seq<char>
    decreases tokens.len(),
{
    if tokens.len() == 0 {
        Seq::empty()
    } else {
        token_text(tokens[0]) + seq![' '] + text_of(tokens.drop_first())
    }
}

proof fn lemma_quoted_is_read(s: Seq<char>, p: int, body: Seq<char>, acc: Seq<char>)
    requires
        0 <= p,
        p + quoted(body).len() < s.len(),
        s.subrange(p, p + quoted(body).len()) == quoted(body),
        s[p + quoted(body).len()] == '"',
    ensures
        short_string(s, p, '"', acc) == Read::Got(acc + body, p + quoted(body).len() + 1),
    decreases body.len(),
{
    let w = quoted(body);
    if body.len() == 0 {
        assert(acc + body =~= acc);
    } else {
        let rest = body.drop_first();
        let more = quoted(rest);
        let n = w.len() - more.len();
        assert forall|k: int| 0 <= k < w.len() implies s[p + k] == #[trigger] w[k] by {
            assert(s.subrange(p, p + w.len())[k] == s[p + k]);
        }
        assert(s.subrange(p + n, p + n + more.len()) =~= more) by {
            assert forall|k: int| 0 <= k < more.len() implies s.subrange(p + n, p + n + more.len())[k]
                == more[k] by {
                assert(w[n + k] == more[k]);
                assert(s[p + (n + k)] == w[n + k]);
            }
        }
        assert(s[p + 0] == w[0]);
        if n == 2 {
            assert(s[p + 1] == w[1]);
            assert(escaped(body[0]) == seq![body[0]]);
            lemma_quoted_is_read(s, p + 2, rest, acc + escaped(body[0]));
            assert(acc + seq![body[0]] + rest =~= acc + body);
        } else {
            lemma_quoted_is_read(s, p + 1, rest, acc.push(body[0]));
            assert(acc.push(body[0]) + rest =~= acc + body);
        }
    }
}

proof fn lemma_digits_are_read(s: Seq<char>, p: int, e: int)
    requires
        0 <= p <= e < s.len(),
        forall|k: int| p <= k < e ==> text::is_digit(#[trigger] s[k]),
        s[e] == ' ',
    ensures
        digits_end(s, p, false) == e,
    decreases e - p,
{
    if p < e {
        assert(text::is_digit(s[p]));
        lemma_digits_are_read(s, p + 1, e);
    }
}

proof fn lemma_letters_are_read(s: Seq<char>, p: int, e: int)
    requires
        0 <= p <= e < s.len(),
        forall|k: int| p <= k < e ==> text::is_ascii_letter(#[trigger] s[k]),
        s[e] == ' ',
    ensures
        ident_end(s, p) == e,
    decreases e - p,
{
    if p < e {
        assert(text::is_ascii_letter(s[p]));
        lemma_letters_are_read(s, p + 1, e);
    }
}

proof fn lemma_number_is_read(s: Seq<char>, q: int, n: int)
    requires
        i64::MIN <= n <= i64::MAX,
        0 <= q,
        q + text::signed_decimal_of(n).len() < s.len(),
        s.subrange(q, q + text::signed_decimal_of(n).len()) == text::signed_decimal_of(n),
        s[q + text::signed_decimal_of(n).len()] == ' ',
    ensures
        text::signed_decimal_of(n).len() > 0,
        token_at(s, q) == Read::Got(Token::Int(n), q + text::signed_decimal_of(n).len()),
        !text::is_white(s[q]),
        s[q] != '#',
{
    let w = text::signed_decimal_of(n);
    let m = (if n < 0 {
        -n
    } else {
        n
    }) as nat;
    let digits = text::decimal_of(m);
    text::law_a_written_number_is_read_again(m, 0x8000_0000_0000_0000);
    reveal_strlit("-");
    let e = q + w.len();
    let first = if n < 0 {
        q + 1
    } else {
        q
    };
    assert forall|k: int| 0 <= k < w.len() implies s[q + k] == #[trigger] w[k] by {
        assert(s.subrange(q, e)[k] == s[q + k]);
    }
    assert forall|k: int| first <= k < e implies text::is_digit(#[trigger] s[k]) by {
        assert(s[q + (k - q)] == w[k - q]);
        assert(w[k - q] == digits[k - first]);
        assert(text::is_digit(digits[k - first]));
    }
    assert(first < e);
    assert(text::is_digit(s[first]));
    if n < 0 {
        assert(s[q + 0] == w[0]);
        assert(s[q] == '-');
    }
    lemma_digits_are_read(s, first, e);
    assert(!w.contains('.')) by {
        if w.contains('.') {
            let k = choose|k: int| 0 <= k < w.len() && w[k] == '.';
            assert(s[q + k] == w[k]);
            if q + k >= first {
                assert(text::is_digit(s[q + k]));
            }
        }
    }
}

proof fn lemma_word_is_read(s: Seq<char>, q: int, word: Seq<char>)
    requires
        0 <= q,
        q + word.len() < s.len(),
        word.len() > 0,
        s.subrange(q, q + word.len()) == word,
        s[q + word.len()] == ' ',
        forall|k: int| 0 <= k < word.len() ==> text::is_ascii_letter(#[trigger] word[k]),
    ensures
        ident_end(s, q) == q + word.len(),
        s[q] == word[0],
        !text::is_white(s[q]),
        s[q] != '#',
        punctuation(s[q]) is None,
        token_at(s, q) == keyword_at(s, q),
{
    assert forall|k: int| q <= k < q + word.len() implies text::is_ascii_letter(#[trigger] s[k]) by {
        assert(s.subrange(q, q + word.len())[k - q] == s[k]);
        assert(text::is_ascii_letter(word[k - q]));
    }
    lemma_letters_are_read(s, q, q + word.len());
    assert(s.subrange(q, q + word.len())[0] == s[q]);
    assert(text::is_ascii_letter(s[q]));
}

proof fn lemma_token_is_read(s: Seq<char>, q: int, t: Token)
    requires
        can_write(t),
        0 <= q,
        q + token_text(t).len() < s.len(),
        s.subrange(q, q + token_text(t).len()) == token_text(t),
        s[q + token_text(t).len()] == ' ',
    ensures
        token_text(t).len() > 0,
        token_at(s, q) == Read::Got(t, q + token_text(t).len()),
        !text::is_white(s[q]),
        s[q] != '#',
{
    let w = token_text(t);
    reveal_strlit("True");
    reveal_strlit("False");
    reveal_strlit("None");
    match t {
        Token::Str(body) => {
            let inner = quoted(body);
            assert forall|k: int| 0 <= k < w.len() implies s[q + k] == #[trigger] w[k] by {
                assert(s.subrange(q, q + w.len())[k] == s[q + k]);
            }
            assert(s[q + 0] == w[0]);
            assert(s.subrange(q + 1, q + 1 + inner.len()) =~= inner) by {
                assert forall|k: int| 0 <= k < inner.len() implies s.subrange(
                    q + 1,
                    q + 1 + inner.len(),
                )[k] == inner[k] by {
                    assert(s[q + (1 + k)] == w[1 + k]);
                }
            }
            assert(s[q + (1 + inner.len())] == w[1 + inner.len() as int]);
            lemma_quoted_is_read(s, q + 1, body, Seq::empty());
            assert(Seq::<char>::empty() + body =~= body);
            if body.len() > 0 {
                assert(inner[0] != '"');
                assert(s[q + 1] == w[1]);
                assert(w[1] == inner[0]);
            }
        },
        Token::Int(n) => {
            lemma_number_is_read(s, q, n);
        },
        Token::True => {
            lemma_word_is_read(s, q, w);
        },
        Token::False => {
            lemma_word_is_read(s, q, w);
            assert("False"@.len() != "True"@.len());
        },
        Token::NoneKw => {
            lemma_word_is_read(s, q, w);
            assert("None"@[0] != "True"@[0]);
            assert("None"@.len() != "False"@.len());
        },
        _ => {
            assert(s.subrange(q, q + w.len())[0] == s[q]);
        },
    }
}

proof fn lemma_text_is_read(s: Seq<char>, p: int, tokens: Seq<Token>, acc: Seq<Placed>)
    requires
        0 <= p <= s.len(),
        s.skip(p) == text_of(tokens),
        forall|k: int| 0 <= k < tokens.len() ==> can_write(#[trigger] tokens[k]),
    ensures
        tokens_from(s, p, acc) is Ok,
        ({
            let all = tokens_from(s, p, acc)->Ok_0;
            &&& all.len() == acc.len() + tokens.len() + 1
            &&& all.take(acc.len() as int) == acc
            &&& all.last().tok is Eof
            &&& forall|k: int|
                0 <= k < tokens.len() ==> (#[trigger] all[acc.len() + k]).tok == tokens[k]
        }),
    decreases tokens.len(),
{
    if tokens.len() == 0 {
        assert(p == s.len());
        let all = tokens_from(s, p, acc)->Ok_0;
        assert(all.take(acc.len() as int) =~= acc);
    } else {
        let w = token_text(tokens[0]);
        let rest = tokens.drop_first();
        let e = p + w.len();
        let tail = s.skip(p);
        assert(tail.len() == w.len() + 1 + text_of(rest).len());
        assert(s.subrange(p, e) =~= w) by {
            assert forall|k: int| 0 <= k < w.len() implies s.subrange(p, e)[k] == w[k] by {
                assert(tail[k] == s[p + k]);
            }
        }
        assert(s[e] == ' ') by {
            assert(tail[w.len() as int] == s[e]);
        }
        lemma_token_is_read(s, p, tokens[0]);
        assert(trivia_end(s, p) == p);
        let placed = Placed { tok: tokens[0], line: line_at(s, p), col: col_at(s, p) };
        let out = acc.push(placed);
        assert(tokens_from(s, p, acc) == tokens_from(s, e, out));
        lemma_tokens_behind_trivia(s, e, e + 1, out);
        assert(s.skip(e + 1) =~= text_of(rest)) by {
            assert forall|k: int| 0 <= k < text_of(rest).len() implies s.skip(e + 1)[k] == text_of(
                rest,
            )[k] by {
                assert(tail[w.len() + 1 + k] == s[e + 1 + k]);
            }
        }
        assert forall|k: int| 0 <= k < rest.len() implies can_write(#[trigger] rest[k]) by {
            assert(rest[k] == tokens[k + 1]);
        }
        lemma_text_is_read(s, e + 1, rest, out);
        let all = tokens_from(s, p, acc)->Ok_0;
        assert(all.take(out.len() as int)[acc.len() as int] == placed);
        assert(all.take(acc.len() as int) =~= out.take(acc.len() as int)) by {
            assert forall|k: int| 0 <= k < acc.len() implies all[k] == out[k] by {
                assert(all.take(out.len() as int)[k] == out[k]);
            }
        }
        assert(out.take(acc.len() as int) =~= acc);
        assert forall|k: int| 0 <= k < tokens.len() implies (#[trigger] all[acc.len() + k]).tok
            == tokens[k] by {
            if k > 0 {
                assert(all[out.len() + (k - 1)].tok == rest[k - 1]);
            }
        }
    }
}

/// A value that is written, of any depth, is read back as it was: every entry of every dict and
/// every item of every list, with all its text.
pub proof fn law_what_is_written_is_read(v: Literal)
    requires
        forall|k: int| 0 <= k < written(v).len() ==> can_write(#[trigger] written(v)[k]),
    ensures
        literal_in(text_of(written(v))) == Ok::<Literal, Fault>(v),
{
    let w = written(v);
    let s = text_of(w);
    let none = Seq::<Placed>::empty();
    assert(s.skip(0) =~= s);
    lemma_text_is_read(s, 0, w, none);
    let t = tokens_of(s)->Ok_0;
    assert forall|k: int| 0 <= k < w.len() implies (#[trigger] t[0 + k]).tok == w[k] by {
        assert(t[none.len() + k].tok == w[k]);
    }
    assert(t[w.len() as int].tok is Eof);
    lemma_value_is_read(t, 0, v);
}

/// An escape stands for one thing: `\n`, `\t` and `\r` for what they say, a quote or a backslash
/// for itself, a line feed for nothing, and anything else for itself with its backslash.
pub proof fn law_an_escape_is_read(s: Seq<char>, p: int, quote: char, acc: Seq<char>)
    requires
        0 <= p,
        p + 1 < s.len(),
        s[p] == '\\',
        quote == '\'' || quote == '"',
    ensures
        ({
            let c = s[p + 1];
            let stands_for = if c == 'n' {
                seq!['\n']
            } else if c == 't' {
                seq!['\t']
            } else if c == 'r' {
                seq!['\r']
            } else if c == '\'' {
                seq!['\'']
            } else if c == '"' {
                seq!['"']
            } else if c == '\\' {
                seq!['\\']
            } else if c == '\n' {
                seq![]
            } else {
                seq!['\\', c]
            };
            short_string(s, p, quote, acc) == short_string(s, p + 2, quote, acc + stands_for)
        }),
{
}

/// Between three quotes everything is read as it stands, line feeds and backslashes too.
pub proof fn law_a_long_string_is_read_as_it_stands(
    s: Seq<char>,
    p: int,
    quote: char,
    body: Seq<char>,
)
    requires
        quote == '\'' || quote == '"',
        0 <= p,
        p + body.len() + 6 <= s.len(),
        s.subrange(p, p + body.len() + 6) == seq![quote, quote, quote] + body + seq![
            quote,
            quote,
            quote,
        ],
        !body.contains(quote),
    ensures
        token_at(s, p) == Read::Got(Token::Str(body), p + body.len() + 6),
{
    let whole = s.subrange(p, p + body.len() + 6);
    let marks = seq![quote, quote, quote];
    let n = body.len() as int;
    assert(whole == marks + body + marks);
    assert(whole[0] == s[p] && whole[1] == s[p + 1] && whole[2] == s[p + 2]);
    assert forall|k: int| 0 <= k < n implies s[p + 3 + k] == #[trigger] body[k] by {
        assert(whole[3 + k] == s[p + 3 + k]);
    }
    assert(whole[n + 3] == s[p + 3 + n] && whole[n + 4] == s[p + 4 + n] && whole[n + 5] == s[p + 5
        + n]);
    lemma_long_body(s, p + 3, quote, body, Seq::empty());
    assert(Seq::<char>::empty() + body =~= body);
}

proof fn lemma_long_body(s: Seq<char>, p: int, quote: char, body: Seq<char>, acc: Seq<char>)
    requires
        0 <= p,
        p + body.len() + 3 <= s.len(),
        forall|k: int| 0 <= k < body.len() ==> s[p + k] == #[trigger] body[k],
        triple_at(s, p + body.len(), quote),
        !body.contains(quote),
    ensures
        long_string(s, p, quote, acc) == Read::Got(acc + body, p + body.len() + 3),
    decreases body.len(),
{
    if body.len() == 0 {
        assert(acc + body =~= acc);
    } else {
        let rest = body.drop_first();
        assert(s[p + 0] == body[0]);
        assert(body.contains(body[0]));
        assert forall|k: int| 0 <= k < rest.len() implies s[p + 1 + k] == #[trigger] rest[k] by {
            assert(s[p + (k + 1)] == body[k + 1]);
        }
        assert(!rest.contains(quote)) by {
            if rest.contains(quote) {
                let k = choose|k: int| 0 <= k < rest.len() && rest[k] == quote;
                assert(body[k + 1] == quote);
            }
        }
        lemma_long_body(s, p + 1, quote, rest, acc.push(body[0]));
        assert(acc.push(body[0]) + rest =~= acc + body);
    }
}

/// A plain text between single quotes or double quotes is read as it stands.
pub proof fn law_a_plain_string_is_read_as_it_stands(
    s: Seq<char>,
    p: int,
    quote: char,
    body: Seq<char>,
)
    requires
        quote == '\'' || quote == '"',
        0 <= p,
        p + body.len() + 2 <= s.len(),
        s.subrange(p, p + body.len() + 2) == seq![quote] + body + seq![quote],
        !body.contains(quote),
        !body.contains('\\'),
        body.len() > 0,
    ensures
        token_at(s, p) == Read::Got(Token::Str(body), p + body.len() + 2),
{
    let whole = s.subrange(p, p + body.len() + 2);
    let n = body.len() as int;
    assert(whole == seq![quote] + body + seq![quote]);
    assert(whole[0] == s[p]);
    assert forall|k: int| 0 <= k < n implies s[p + 1 + k] == #[trigger] body[k] by {
        assert(whole[1 + k] == s[p + 1 + k]);
    }
    assert(whole[n + 1] == s[p + 1 + n]);
    assert(s[p + 1 + 0] == body[0]);
    assert(body.contains(body[0]));
    lemma_plain_body(s, p + 1, quote, body, Seq::empty());
    assert(Seq::<char>::empty() + body =~= body);
}

proof fn lemma_plain_body(s: Seq<char>, p: int, quote: char, body: Seq<char>, acc: Seq<char>)
    requires
        0 <= p,
        p + body.len() < s.len(),
        forall|k: int| 0 <= k < body.len() ==> s[p + k] == #[trigger] body[k],
        s[p + body.len()] == quote,
        !body.contains(quote),
        !body.contains('\\'),
    ensures
        short_string(s, p, quote, acc) == Read::Got(acc + body, p + body.len() + 1),
    decreases body.len(),
{
    if body.len() == 0 {
        assert(acc + body =~= acc);
    } else {
        let rest = body.drop_first();
        assert(s[p + 0] == body[0]);
        assert(body.contains(body[0]));
        assert forall|k: int| 0 <= k < rest.len() implies s[p + 1 + k] == #[trigger] rest[k] by {
            assert(s[p + (k + 1)] == body[k + 1]);
        }
        assert forall|c: char| rest.contains(c) implies #[trigger] body.contains(c) by {
            let k = choose|k: int| 0 <= k < rest.len() && rest[k] == c;
            assert(body[k + 1] == c);
        }
        lemma_plain_body(s, p + 1, quote, rest, acc.push(body[0]));
        assert(acc.push(body[0]) + rest =~= acc + body);
    }
}

/// A fault is placed by the line feeds before it and by what stands before it on its own line.
pub proof fn law_a_fault_is_placed_by_line_and_column(
    before: Seq<char>,
    line: Seq<char>,
    rest: Seq<char>,
)
    requires
        !line.contains('\n'),
        before.len() + line.len() + 1 < usize::MAX,
    ensures
        line_at(before.push('\n') + line + rest, (before.len() + 1 + line.len()) as int)
            == before.filter(|c: char| c == '\n').len() + 2,
        col_at(before.push('\n') + line + rest, (before.len() + 1 + line.len()) as int)
            == line.len() + 1,
        line_at(line + rest, line.len() as int) == 1,
        col_at(line + rest, line.len() as int) == line.len() + 1,
{
    let first = before.push('\n');
    let p = (before.len() + 1 + line.len()) as int;
    assert((first + line + rest).take(p) =~= first + line);
    assert((line + rest).take(line.len() as int) =~= line);
    assert(first.drop_last() =~= before);
    lemma_line_feeds(first, line);
    lemma_line_feeds(Seq::empty(), line);
    assert(Seq::<char>::empty() + line =~= line);
    lemma_count_feeds(before);
}

proof fn lemma_count_feeds(s: Seq<char>)
    ensures
        line_feeds(s) == s.filter(|c: char| c == '\n').len(),
        line_feeds(s) <= s.len(),
    decreases s.len(),
{
    reveal(Seq::filter);
    if s.len() > 0 {
        lemma_count_feeds(s.drop_last());
    }
}

proof fn lemma_line_feeds(first: Seq<char>, line: Seq<char>)
    requires
        !line.contains('\n'),
        first.len() == 0 || first.last() == '\n',
    ensures
        line_feeds(first + line) == line_feeds(first),
        on_last_line(first + line) == line.len(),
    decreases line.len(),
{
    if line.len() > 0 {
        let rest = line.drop_last();
        assert((first + line).drop_last() =~= first + rest);
        assert(line.contains(line.last()));
        assert(!rest.contains('\n')) by {
            if rest.contains('\n') {
                let i = choose|i: int| 0 <= i < rest.len() && rest[i] == '\n';
                assert(line[i] == '\n');
            }
        }
        lemma_line_feeds(first, rest);
    } else {
        assert(first + line =~= first);
    }
}

/// A string that is not closed is refused, and so is a text that holds nothing.
pub proof fn law_an_open_string_is_refused(quote: char, body: Seq<char>)
    requires
        quote == '\'' || quote == '"',
        !body.contains(quote),
        !body.contains('\\'),
    ensures
        literal_in(seq![quote] + body) is Err,
        literal_in(Seq::empty()) is Err,
{
    let s = seq![quote] + body;
    assert(forall|k: int| 0 <= k < body.len() ==> body.contains(#[trigger] body[k]));
    assert forall|k: int| 1 <= k < s.len() implies s[k] != quote && s[k] != '\\' by {
        assert(s[k] == body[k - 1]);
        assert(body.contains(body[k - 1]));
    }
    lemma_open_body(s, 1, quote, Seq::empty());
    assert(s[0] == quote);
    assert(trivia_end(s, 0) == 0);
    let none = Seq::<char>::empty();
    assert(trivia_end(none, 0) == 0);
    let t = tokens_of(none)->Ok_0;
    assert(t[0].tok is Eof);
}

proof fn lemma_open_body(s: Seq<char>, p: int, quote: char, acc: Seq<char>)
    requires
        0 <= p <= s.len(),
        forall|k: int| p <= k < s.len() ==> #[trigger] s[k] != quote && s[k] != '\\',
    ensures
        short_string(s, p, quote, acc) is Bad,
    decreases s.len() - p,
{
    if p < s.len() {
        lemma_open_body(s, p + 1, quote, acc.push(s[p]));
    }
}

} // verus!
