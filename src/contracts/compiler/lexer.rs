//! The lexer: whitespace-separated words, each read as one token.

use super::{CompileError, ErrorView};
use vstd::prelude::*;
use vstd::string::StringExecFns;

verus! {

#[derive(Clone, Copy, PartialEq, Eq, Debug, Structural)]
pub enum Base {
    Dec,
    Hex,
}

impl Base {
    pub open spec fn radix(self) -> nat {
        match self {
            Base::Dec => 10,
            Base::Hex => 16,
        }
    }

    /// The base of a radix: 10 or 16, any other is an error.
    pub fn from_radix(value: u32) -> (r: Result<Base, CompileError>)
        ensures
            value == 10 ==> r == Ok::<Base, CompileError>(Base::Dec),
            value == 16 ==> r == Ok::<Base, CompileError>(Base::Hex),
            value != 10 && value != 16 ==> (r matches Err(e) && e@ == ErrorView::BaseParse(value)),
    {
        match value {
            16 => Ok(Base::Hex),
            10 => Ok(Base::Dec),
            _ => Err(CompileError::BaseParse(value)),
        }
    }

    pub fn radix_value(&self) -> (r: u32)
        ensures
            r == self.radix(),
    {
        match self {
            Base::Dec => 10,
            Base::Hex => 16,
        }
    }
}

#[derive(Clone, Copy, PartialEq, Eq, Debug, Structural)]
pub enum Bin {
    Sub,
    Add,
    Mul,
    Div,
    Lt,
    Gt,
    Leq,
    Geq,
    EqSign,
}

#[derive(Clone, Copy, PartialEq, Eq, Debug, Structural)]
pub enum Keyword {
    Mapping,
    Let,
    Peek,
    End,
    If,
    Else,
    Fnk,
    Get,
    Store,
    Dup,
    Require,
    In,
    Iszero,
}

#[derive(Clone, Copy, PartialEq, Eq, Debug, Structural)]
pub enum Type {
    U256,
    U64,
    U32,
    U16,
    U8,
}

impl Type {
    pub open spec fn bytes(self) -> nat {
        match self {
            Type::U256 => 32,
            Type::U64 => 8,
            Type::U32 => 4,
            Type::U16 => 2,
            Type::U8 => 1,
        }
    }

    pub fn byte_count(&self) -> (r: u8)
        ensures
            r == self.bytes(),
    {
        match self {
            Type::U256 => 32,
            Type::U64 => 8,
            Type::U32 => 4,
            Type::U16 => 2,
            Type::U8 => 1,
        }
    }
}

#[derive(Clone, Copy, PartialEq, Eq, Debug, Structural)]
pub enum TokenKind {
    Keyword(Keyword),
    Type(Type),
    Num(Base, Type),
    Op(Bin),
    Ident,
}

#[derive(Debug, Clone)]
pub struct Token {
    pub kind: TokenKind,
    pub value: String,
}

/// A token as the contracts see it: its kind and its text.
pub struct TokenView {
    pub kind: TokenKind,
    pub value: Seq<char>,
}

impl View for Token {
    type V = TokenView;

    open spec fn view(&self) -> TokenView {
        TokenView { kind: self.kind, value: self.value@ }
    }
}

impl Token {
    pub fn new(kind: TokenKind, value: String) -> (r: Token)
        ensures
            r.kind == kind,
            r.value@ == value@,
    {
        Token { kind, value }
    }
}

/// The characters `char::is_whitespace` accepts: Unicode's White_Space property.
pub open spec fn is_white(c: char) -> bool {
    ('\u{9}' <= c <= '\u{d}') || c == ' ' || c == '\u{85}' || c == '\u{a0}' || c == '\u{1680}'
        || ('\u{2000}' <= c <= '\u{200a}') || c == '\u{2028}' || c == '\u{2029}' || c
        == '\u{202f}' || c == '\u{205f}' || c == '\u{3000}'
}

fn white(c: char) -> (r: bool)
    ensures
        r == is_white(c),
{
    ('\u{9}' <= c && c <= '\u{d}') || c == ' ' || c == '\u{85}' || c == '\u{a0}' || c == '\u{1680}'
        || ('\u{2000}' <= c && c <= '\u{200a}') || c == '\u{2028}' || c == '\u{2029}' || c
        == '\u{202f}' || c == '\u{205f}' || c == '\u{3000}'
}

/// The words of `s` from position `i` on, given the word `cur` read so far
/// and the words `done` before it.
pub open spec fn words_from(s: Seq<char>, i: nat, cur: Seq<char>, done: Seq<Seq<char>>) -> Seq<
    Seq<char>,
>
    decreases s.len() - i,
{
    if i >= s.len() {
        if cur.len() > 0 {
            done.push(cur)
        } else {
            done
        }
    } else if is_white(s[i as int]) {
        words_from(s, i + 1, Seq::empty(), if cur.len() > 0 { done.push(cur) } else { done })
    } else {
        words_from(s, i + 1, cur.push(s[i as int]), done)
    }
}

/// The maximal runs of non-whitespace characters of `s`, in order.
pub open spec fn words(s: Seq<char>) -> Seq<Seq<char>> {
    words_from(s, 0, Seq::empty(), Seq::empty())
}

pub open spec fn is_ascii_letter(c: char) -> bool {
    ('a' <= c <= 'z') || ('A' <= c <= 'Z')
}

pub open spec fn is_dec_digit(c: char) -> bool {
    '0' <= c <= '9'
}

/// What `char::is_digit` accepts in base 10 or 16.
pub open spec fn is_digit_in(c: char, radix: nat) -> bool {
    if radix == 16 {
        is_dec_digit(c) || ('a' <= c <= 'f') || ('A' <= c <= 'F')
    } else {
        is_dec_digit(c)
    }
}

/// Whether the character is alphabetic or numeric in Unicode's sense.
pub uninterp spec fn alphanumeric(c: char) -> bool;

/// Relies on `char::is_alphanumeric`; for ASCII it accepts exactly letters and digits.
#[verifier::external_body]
fn is_alphanumeric(c: char) -> (r: bool)
    ensures
        r == alphanumeric(c),
        (c as u32) < 128 ==> (r <==> (is_ascii_letter(c) || is_dec_digit(c))),
{
    c.is_alphanumeric()
}

pub open spec fn keyword_of(w: Seq<char>) -> Option<Keyword> {
    if w == "mapping"@ {
        Some(Keyword::Mapping)
    } else if w == "let"@ {
        Some(Keyword::Let)
    } else if w == "peek"@ {
        Some(Keyword::Peek)
    } else if w == "end"@ {
        Some(Keyword::End)
    } else if w == "if"@ {
        Some(Keyword::If)
    } else if w == "else"@ {
        Some(Keyword::Else)
    } else if w == "fn"@ {
        Some(Keyword::Fnk)
    } else if w == "get"@ {
        Some(Keyword::Get)
    } else if w == "store"@ {
        Some(Keyword::Store)
    } else if w == "dup"@ {
        Some(Keyword::Dup)
    } else if w == "require"@ {
        Some(Keyword::Require)
    } else if w == "in"@ {
        Some(Keyword::In)
    } else if w == "iszero"@ {
        Some(Keyword::Iszero)
    } else {
        None
    }
}

pub open spec fn type_of(w: Seq<char>) -> Option<Type> {
    if w == "u256"@ {
        Some(Type::U256)
    } else if w == "u64"@ {
        Some(Type::U64)
    } else if w == "u32"@ {
        Some(Type::U32)
    } else if w == "u16"@ {
        Some(Type::U16)
    } else if w == "u8"@ {
        Some(Type::U8)
    } else {
        None
    }
}

/// How many characters at the start of `w` are digits in the radix.
pub open spec fn leading_digits(w: Seq<char>, radix: nat) -> nat
    decreases w.len(),
{
    if w.len() == 0 || !is_digit_in(w[0], radix) {
        0
    } else {
        1 + leading_digits(w.drop_first(), radix)
    }
}

/// The kind of a word that starts with a digit: an optional `0x` sets base
/// 16, then at least one digit; the digits run to the end of the word (a
/// u256) or to a `_` followed by a type name. Anything else is an error.
pub open spec fn number_kind(w: Seq<char>) -> Result<TokenKind, ErrorView> {
    let hex = w.len() >= 2 && w[0] == '0' && w[1] == 'x';
    if w.len() >= 2 && w[0] == '0' && w[1] != 'x' && w[1] != '_' {
        Err(ErrorView::CantInterpret(w, "num"@))
    } else {
        let base = if hex { Base::Hex } else { Base::Dec };
        let digits = if hex { w.skip(2) } else { w };
        let e = leading_digits(digits, base.radix());
        if e == 0 {
            Err(ErrorView::CantInterpret(w, "num"@))
        } else if e == digits.len() {
            Ok(TokenKind::Num(base, Type::U256))
        } else if digits[e as int] == '_' {
            let suffix = digits.skip((e + 1) as int);
            match type_of(suffix) {
                Some(t) => Ok(TokenKind::Num(base, t)),
                None => Err(ErrorView::CantInterpret(suffix, "type"@)),
            }
        } else {
            Err(ErrorView::CantInterpret(w, "num"@))
        }
    }
}

/// A character that may stand in an identifier: below 128 an ASCII letter,
/// digit or `_`; above, any alphabetic or numeric character.
pub open spec fn ident_char(c: char) -> bool {
    if (c as u32) < 128 {
        is_ascii_letter(c) || is_dec_digit(c) || c == '_'
    } else {
        alphanumeric(c)
    }
}

/// The kind of a word that starts with a letter or `_`.
pub open spec fn word_kind(w: Seq<char>) -> Result<TokenKind, ErrorView> {
    match keyword_of(w) {
        Some(k) => Ok(TokenKind::Keyword(k)),
        None => match type_of(w) {
            Some(t) => Ok(TokenKind::Type(t)),
            None => if forall|i: int| 0 <= i < w.len() ==> ident_char(w[i]) {
                Ok(TokenKind::Ident)
            } else {
                Err(ErrorView::CantInterpret(w, "identifier"@))
            },
        },
    }
}

/// `<` or `>` alone, or followed by `=` and nothing else.
pub open spec fn comparison_kind(w: Seq<char>, alone: Bin, with_eq: Bin) -> Result<
    TokenKind,
    ErrorView,
> {
    if w.len() == 1 {
        Ok(TokenKind::Op(alone))
    } else if w.len() == 2 && w[1] == '=' {
        Ok(TokenKind::Op(with_eq))
    } else {
        Err(ErrorView::CantInterpret(w, "any"@))
    }
}

/// A one-character operator word; anything longer is an error.
pub open spec fn single_op(w: Seq<char>, op: Bin) -> Result<TokenKind, ErrorView> {
    if w.len() == 1 {
        Ok(TokenKind::Op(op))
    } else {
        Err(ErrorView::CantInterpret(w, "any"@))
    }
}

/// The kind of token a non-empty word is, decided by its first character.
pub open spec fn token_kind(w: Seq<char>) -> Result<TokenKind, ErrorView> {
    let c = w[0];
    if is_ascii_letter(c) || c == '_' {
        word_kind(w)
    } else if is_dec_digit(c) {
        number_kind(w)
    } else if c == '=' {
        if w.len() < 2 {
            Err(ErrorView::UnexpectedEow)
        } else if w.len() == 2 && w[1] == '=' {
            Ok(TokenKind::Op(Bin::EqSign))
        } else {
            Err(ErrorView::CantInterpret(w, "any"@))
        }
    } else if c == '-' {
        single_op(w, Bin::Sub)
    } else if c == '+' {
        single_op(w, Bin::Add)
    } else if c == '*' {
        single_op(w, Bin::Mul)
    } else if c == '/' {
        single_op(w, Bin::Div)
    } else if c == '<' {
        comparison_kind(w, Bin::Lt, Bin::Leq)
    } else if c == '>' {
        comparison_kind(w, Bin::Gt, Bin::Geq)
    } else {
        Err(ErrorView::CantInterpret(w, "any"@))
    }
}

/// The digits of a number: after the `0x` of a hex word, up to the type suffix.
pub open spec fn number_digits(w: Seq<char>, base: Base) -> Seq<char> {
    let digits = if base == Base::Hex {
        w.skip(2)
    } else {
        w
    };
    digits.take(leading_digits(digits, base.radix()) as int)
}

/// The text a token keeps: the digits of a number, otherwise the whole word.
pub open spec fn token_value(w: Seq<char>, kind: TokenKind) -> Seq<char> {
    match kind {
        TokenKind::Num(base, _) => number_digits(w, base),
        _ => w,
    }
}

/// The token a non-empty word is read as.
pub open spec fn lex_word(w: Seq<char>) -> Result<TokenView, ErrorView> {
    match token_kind(w) {
        Ok(kind) => Ok(TokenView { kind, value: token_value(w, kind) }),
        Err(e) => Err(e),
    }
}

/// The tokens of a source text, or the first word that is no token.
pub open spec fn lex_words(ws: Seq<Seq<char>>) -> Result<Seq<TokenView>, ErrorView>
    decreases ws.len(),
{
    if ws.len() == 0 {
        Ok(Seq::empty())
    } else {
        match lex_words(ws.drop_last()) {
            Err(e) => Err(e),
            Ok(ts) => match lex_word(ws.last()) {
                Err(e) => Err(e),
                Ok(t) => Ok(ts.push(t)),
            },
        }
    }
}

/// Whether two strings hold the same characters.
pub fn str_eq(a: &str, b: &str) -> (r: bool)
    ensures
        r == (a@ == b@),
{
    let n = a.unicode_len();
    if n != b.unicode_len() {
        return false;
    }
    let mut i: usize = 0;
    while i < n
        invariant
            n == a@.len() == b@.len(),
            i <= n,
            a@.subrange(0, i as int) == b@.subrange(0, i as int),
        decreases n - i,
    {
        if a.get_char(i) != b.get_char(i) {
            assert(a@.subrange(0, n as int)[i as int] == a@[i as int]);
            return false;
        }
        assert(a@.subrange(0, i + 1) == a@.subrange(0, i as int).push(a@[i as int]));
        assert(b@.subrange(0, i + 1) == b@.subrange(0, i as int).push(b@[i as int]));
        i = i + 1;
    }
    assert(a@ == a@.subrange(0, n as int));
    assert(b@ == b@.subrange(0, n as int));
    true
}

/// Every word the splitting yields holds at least one character.
proof fn lemma_words_nonempty(s: Seq<char>, i: nat, cur: Seq<char>, done: Seq<Seq<char>>)
    requires
        forall|j: int| 0 <= j < done.len() ==> #[trigger] done[j].len() > 0,
    ensures
        forall|j: int|
            0 <= j < words_from(s, i, cur, done).len() ==> #[trigger] words_from(
                s,
                i,
                cur,
                done,
            )[j].len() > 0,
    decreases s.len() - i,
{
    let d = if cur.len() > 0 {
        done.push(cur)
    } else {
        done
    };
    assert forall|j: int| 0 <= j < d.len() implies #[trigger] d[j].len() > 0 by {
        if j < done.len() {
            assert(d[j] == done[j]);
        }
    };
    if i < s.len() {
        if is_white(s[i as int]) {
            assert(words_from(s, i, cur, done) == words_from(s, i + 1, Seq::empty(), d));
            lemma_words_nonempty(s, i + 1, Seq::empty(), d);
        } else {
            assert(words_from(s, i, cur, done) == words_from(s, i + 1, cur.push(s[i as int]), done));
            lemma_words_nonempty(s, i + 1, cur.push(s[i as int]), done);
        }
    } else {
        assert(words_from(s, i, cur, done) == d);
    }
}

/// `leading_digits` counts up to the first character that is no digit.
proof fn lemma_leading_digits(w: Seq<char>, radix: nat, k: nat)
    requires
        k <= w.len(),
        forall|m: int| 0 <= m < k ==> is_digit_in(#[trigger] w[m], radix),
        k == w.len() || !is_digit_in(w[k as int], radix),
    ensures
        leading_digits(w, radix) == k,
    decreases k,
{
    if k > 0 {
        assert forall|m: int| 0 <= m < k - 1 implies is_digit_in(#[trigger] w.drop_first()[m], radix) by {
            assert(w.drop_first()[m] == w[m + 1]);
        };
        if k - 1 < w.drop_first().len() {
            assert(w.drop_first()[k - 1] == w[k as int]);
        }
        lemma_leading_digits(w.drop_first(), radix, (k - 1) as nat);
    }
}

/// An error in the first `k` words is the error of the whole text.
proof fn lemma_lex_words_error(ws: Seq<Seq<char>>, k: nat)
    requires
        k <= ws.len(),
        lex_words(ws.take(k as int)) is Err,
    ensures
        lex_words(ws) == lex_words(ws.take(k as int)),
    decreases ws.len() - k,
{
    if k < ws.len() {
        assert(ws.take(k as int + 1).drop_last() == ws.take(k as int));
        lemma_lex_words_error(ws, k + 1);
    } else {
        assert(ws.take(k as int) == ws);
    }
}

fn keyword(w: &str) -> (r: Option<Keyword>)
    ensures
        r == keyword_of(w@),
{
    if str_eq(w, "mapping") {
        Some(Keyword::Mapping)
    } else if str_eq(w, "let") {
        Some(Keyword::Let)
    } else if str_eq(w, "peek") {
        Some(Keyword::Peek)
    } else if str_eq(w, "end") {
        Some(Keyword::End)
    } else if str_eq(w, "if") {
        Some(Keyword::If)
    } else if str_eq(w, "else") {
        Some(Keyword::Else)
    } else if str_eq(w, "fn") {
        Some(Keyword::Fnk)
    } else if str_eq(w, "get") {
        Some(Keyword::Get)
    } else if str_eq(w, "store") {
        Some(Keyword::Store)
    } else if str_eq(w, "dup") {
        Some(Keyword::Dup)
    } else if str_eq(w, "require") {
        Some(Keyword::Require)
    } else if str_eq(w, "in") {
        Some(Keyword::In)
    } else if str_eq(w, "iszero") {
        Some(Keyword::Iszero)
    } else {
        None
    }
}

fn numeric_type(w: &str) -> (r: Option<Type>)
    ensures
        r == type_of(w@),
{
    if str_eq(w, "u256") {
        Some(Type::U256)
    } else if str_eq(w, "u64") {
        Some(Type::U64)
    } else if str_eq(w, "u32") {
        Some(Type::U32)
    } else if str_eq(w, "u16") {
        Some(Type::U16)
    } else if str_eq(w, "u8") {
        Some(Type::U8)
    } else {
        None
    }
}

pub fn is_digit_char(c: char, radix: u32) -> (r: bool)
    ensures
        r == is_digit_in(c, radix as nat),
{
    if radix == 16 {
        ('0' <= c && c <= '9') || ('a' <= c && c <= 'f') || ('A' <= c && c <= 'F')
    } else {
        '0' <= c && c <= '9'
    }
}

fn interpret_error(w: &str, what: &str) -> (r: CompileError)
    ensures
        r@ == ErrorView::CantInterpret(w@, what@),
{
    CompileError::CantInterpret(String::from_str(w), String::from_str(what))
}

pub struct Lexer {
    input: Vec<String>,
    index: usize,
}

impl Lexer {
    /// The words still to be read and those already read.
    pub closed spec fn words(&self) -> Seq<Seq<char>> {
        self.input@.map_values(|w: String| w@)
    }

    pub closed spec fn position(&self) -> nat {
        self.index as nat
    }

    pub closed spec fn wf(&self) -> bool {
        &&& self.index <= self.input@.len()
        &&& forall|j: int| 0 <= j < self.input@.len() ==> #[trigger] self.input@[j]@.len() > 0
    }

    pub fn new(input: String) -> (r: Lexer)
        ensures
            r.wf(),
            r.words() == words(input@),
            r.position() == 0,
    {
        let s = input.as_str();
        let n = s.unicode_len();
        let mut found: Vec<String> = Vec::new();
        let mut start: usize = 0;
        let mut in_word = false;
        let mut i: usize = 0;
        assert(found@.map_values(|w: String| w@) =~= Seq::<Seq<char>>::empty());
        while i < n
            invariant
                n == s@.len(),
                s@ == input@,
                i <= n,
                in_word ==> start < i,
                words_from(
                    s@,
                    i as nat,
                    if in_word {
                        s@.subrange(start as int, i as int)
                    } else {
                        Seq::empty()
                    },
                    found@.map_values(|w: String| w@),
                ) == words(s@),
                forall|j: int| 0 <= j < found@.len() ==> #[trigger] found@[j]@.len() > 0,
            decreases n - i,
        {
            let c = s.get_char(i);
            let ghost done = found@.map_values(|w: String| w@);
            let ghost cur = if in_word {
                s@.subrange(start as int, i as int)
            } else {
                Seq::empty()
            };
            if white(c) {
                if in_word {
                    let w = String::from_str(s.substring_char(start, i));
                    found.push(w);
                    assert(found@.map_values(|w: String| w@) =~= done.push(
                        s@.subrange(start as int, i as int),
                    ));
                    in_word = false;
                }
            } else {
                if !in_word {
                    start = i;
                    in_word = true;
                }
                assert(s@.subrange(start as int, i + 1) =~= s@.subrange(start as int, i as int).push(
                    c,
                ));
            }
            proof {
                let next_cur = if in_word {
                    s@.subrange(start as int, i + 1)
                } else {
                    Seq::empty()
                };
                if is_white(c) {
                    assert(next_cur == Seq::<char>::empty());
                    assert(found@.map_values(|w: String| w@) == if cur.len() > 0 {
                        done.push(cur)
                    } else {
                        done
                    });
                } else {
                    assert(next_cur =~= cur.push(c));
                    assert(found@.map_values(|w: String| w@) == done);
                }
                assert(words_from(s@, i as nat, cur, done) == words_from(
                    s@,
                    i as nat + 1,
                    next_cur,
                    found@.map_values(|w: String| w@),
                ));
            }
            i = i + 1;
        }
        let ghost done0 = found@.map_values(|w: String| w@);
        assert(words_from(s@, n as nat, if in_word {
            s@.subrange(start as int, n as int)
        } else {
            Seq::empty()
        }, done0) == if in_word { done0.push(s@.subrange(start as int, n as int)) } else { done0 });
        proof {
            lemma_words_nonempty(s@, 0, Seq::empty(), Seq::empty());
        }
        if in_word {
            let ghost done = found@.map_values(|w: String| w@);
            let w = String::from_str(s.substring_char(start, n));
            found.push(w);
            assert(found@.map_values(|w: String| w@) =~= done.push(
                s@.subrange(start as int, n as int),
            ));
        } else {
        }
        let r = Lexer { input: found, index: 0 };
        assert(r.words() =~= found@.map_values(|w: String| w@));
        assert forall|j: int| 0 <= j < r.input@.len() implies #[trigger] r.input@[j]@.len() > 0 by {
            assert(r.words()[j] == r.input@[j]@);
        };
        r
    }

    pub fn should_stop(&self) -> (r: bool)
        ensures
            r == (self.position() >= self.words().len()),
    {
        self.index >= self.input.len()
    }

    fn number(w: &str) -> (r: Result<TokenKind, CompileError>)
        requires
            w@.len() > 0,
        ensures
            match number_kind(w@) {
                Ok(k) => r == Ok::<TokenKind, CompileError>(k),
                Err(e) => r matches Err(x) && x@ == e,
            },
    {
        let n = w.unicode_len();
        let c0 = w.get_char(0);
        let c1 = if n >= 2 {
            w.get_char(1)
        } else {
            ' '
        };
        if n >= 2 && c0 == '0' && c1 != 'x' && c1 != '_' {
            return Err(interpret_error(w, "num"));
        }
        let hex = n >= 2 && c0 == '0' && c1 == 'x';
        let (base, radix, d0): (Base, u32, usize) = if hex {
            (Base::Hex, 16, 2)
        } else {
            (Base::Dec, 10, 0)
        };
        let ghost digits = w@.skip(d0 as int);
        assert(!hex ==> digits =~= w@);
        let mut j: usize = d0;
        while j < n && is_digit_char(w.get_char(j), radix)
            invariant
                n == w@.len(),
                d0 <= j <= n,
                digits == w@.skip(d0 as int),
                hex == (w@.len() >= 2 && w@[0] == '0' && w@[1] == 'x'),
                !(w@.len() >= 2 && w@[0] == '0' && w@[1] != 'x' && w@[1] != '_'),
                base == (if hex { Base::Hex } else { Base::Dec }),
                radix as nat == base.radix(),
                d0 == (if hex { 2usize } else { 0usize }),
                forall|m: int| 0 <= m < j - d0 ==> is_digit_in(#[trigger] digits[m], radix as nat),
            decreases n - j,
        {
            assert(digits[j - d0] == w@[j as int]);
            j = j + 1;
        }
        let e = j - d0;
        proof {
            if j < n {
                assert(digits[e as int] == w@[j as int]);
            }
            lemma_leading_digits(digits, base.radix(), e as nat);
        }
        assert(radix as nat == base.radix());
        assert(digits.len() == n - d0);
        assert(digits == (if hex { w@.skip(2) } else { w@ }));
        if e == 0 {
            return Err(interpret_error(w, "num"));
        }
        if j == n {
            return Ok(TokenKind::Num(base, Type::U256));
        }
        if w.get_char(j) == '_' {
            assert(digits[e as int] == w@[j as int]);
            let suffix = w.substring_char(j + 1, n);
            assert(suffix@ =~= digits.skip(e + 1));
            assert(e < digits.len() && digits[e as int] == '_');
            assert(!(w@.len() >= 2 && w@[0] == '0' && w@[1] != 'x' && w@[1] != '_'));
            assert(hex == (w@.len() >= 2 && w@[0] == '0' && w@[1] == 'x'));
            assert(leading_digits(digits, base.radix()) == e);
            match numeric_type(suffix) {
                Some(t) => Ok(TokenKind::Num(base, t)),
                None => Err(interpret_error(suffix, "type")),
            }
        } else {
            assert(digits[e as int] == w@[j as int]);
            Err(interpret_error(w, "num"))
        }
    }

    fn identifier(w: &str) -> (r: Result<TokenKind, CompileError>)
        ensures
            match word_kind(w@) {
                Ok(k) => r == Ok::<TokenKind, CompileError>(k),
                Err(e) => r matches Err(x) && x@ == e,
            },
    {
        if let Some(k) = keyword(w) {
            return Ok(TokenKind::Keyword(k));
        }
        if let Some(t) = numeric_type(w) {
            return Ok(TokenKind::Type(t));
        }
        let n = w.unicode_len();
        let mut i: usize = 0;
        while i < n
            invariant
                n == w@.len(),
                i <= n,
                keyword_of(w@) is None,
                type_of(w@) is None,
                forall|m: int| 0 <= m < i ==> ident_char(#[trigger] w@[m]),
            decreases n - i,
        {
            let c = w.get_char(i);
            if !(is_alphanumeric(c) || c == '_') {
                assert(!ident_char(w@[i as int]));
                assert(!(forall|m: int| 0 <= m < w@.len() ==> ident_char(w@[m])));
                assert(keyword_of(w@) is None);
                assert(type_of(w@) is None);
                return Err(interpret_error(w, "identifier"));
            }
            i = i + 1;
        }
        Ok(TokenKind::Ident)
    }

    fn comparison(w: &str, alone: Bin, with_eq: Bin) -> (r: Result<TokenKind, CompileError>)
        requires
            w@.len() > 0,
        ensures
            match comparison_kind(w@, alone, with_eq) {
                Ok(k) => r == Ok::<TokenKind, CompileError>(k),
                Err(e) => r matches Err(x) && x@ == e,
            },
    {
        let n = w.unicode_len();
        if n == 1 {
            Ok(TokenKind::Op(alone))
        } else if n == 2 && w.get_char(1) == '=' {
            Ok(TokenKind::Op(with_eq))
        } else {
            Err(interpret_error(w, "any"))
        }
    }

    fn single(w: &str, op: Bin) -> (r: Result<TokenKind, CompileError>)
        ensures
            match single_op(w@, op) {
                Ok(k) => r == Ok::<TokenKind, CompileError>(k),
                Err(e) => r matches Err(x) && x@ == e,
            },
    {
        if w.unicode_len() == 1 {
            Ok(TokenKind::Op(op))
        } else {
            Err(interpret_error(w, "any"))
        }
    }

    fn kind(w: &str) -> (r: Result<TokenKind, CompileError>)
        requires
            w@.len() > 0,
        ensures
            match token_kind(w@) {
                Ok(k) => r == Ok::<TokenKind, CompileError>(k),
                Err(e) => r matches Err(x) && x@ == e,
            },
    {
        let c = w.get_char(0);
        if ('a' <= c && c <= 'z') || ('A' <= c && c <= 'Z') || c == '_' {
            Lexer::identifier(w)
        } else if '0' <= c && c <= '9' {
            Lexer::number(w)
        } else if c == '=' {
            if w.unicode_len() < 2 {
                Err(CompileError::UnexpectedEow)
            } else if w.unicode_len() == 2 && w.get_char(1) == '=' {
                Ok(TokenKind::Op(Bin::EqSign))
            } else {
                Err(interpret_error(w, "any"))
            }
        } else if c == '-' {
            Lexer::single(w, Bin::Sub)
        } else if c == '+' {
            Lexer::single(w, Bin::Add)
        } else if c == '*' {
            Lexer::single(w, Bin::Mul)
        } else if c == '/' {
            Lexer::single(w, Bin::Div)
        } else if c == '<' {
            Lexer::comparison(w, Bin::Lt, Bin::Leq)
        } else if c == '>' {
            Lexer::comparison(w, Bin::Gt, Bin::Geq)
        } else {
            Err(interpret_error(w, "any"))
        }
    }

    fn value(w: &str, kind: TokenKind) -> (r: String)
        requires
            w@.len() > 0,
            token_kind(w@) == Ok::<TokenKind, ErrorView>(kind),
        ensures
            r@ == token_value(w@, kind),
    {
        match kind {
            TokenKind::Num(base, _) => {
                let n = w.unicode_len();
                let (d0, radix): (usize, u32) = match base {
                    Base::Hex => (2, 16),
                    Base::Dec => (0, 10),
                };
                proof {
                    if base == Base::Hex {
                        assert(w@.len() >= 2 && w@[0] == '0' && w@[1] == 'x');
                    }
                }
                let ghost digits = if base == Base::Hex {
                    w@.skip(2)
                } else {
                    w@
                };
                assert(digits =~= w@.skip(d0 as int));
                let mut j: usize = d0;
                while j < n && is_digit_char(w.get_char(j), radix)
                    invariant
                        n == w@.len(),
                        d0 <= j <= n,
                        digits == w@.skip(d0 as int),
                        radix as nat == base.radix(),
                        forall|m: int| 0 <= m < j - d0 ==> is_digit_in(#[trigger] digits[m], radix as nat),
                    decreases n - j,
                {
                    assert(digits[j - d0] == w@[j as int]);
                    j = j + 1;
                }
                proof {
                    if j < n {
                        assert(digits[j - d0] == w@[j as int]);
                    }
                    lemma_leading_digits(digits, base.radix(), (j - d0) as nat);
                }
                let piece = w.substring_char(d0, j);
                assert(piece@ =~= digits.take((j - d0) as int));
                String::from_str(piece)
            },
            _ => String::from_str(w),
        }
    }

    /// Reads the current word as a token and moves past it; on an error the
    /// position stays.
    pub fn advance(&mut self) -> (r: Result<Token, CompileError>)
        requires
            old(self).wf(),
            old(self).position() < old(self).words().len(),
        ensures
            final(self).wf(),
            final(self).words() == old(self).words(),
            match lex_word(old(self).words()[old(self).position() as int]) {
                Ok(t) => r matches Ok(tok) && tok@ == t && final(self).position() == old(
                    self,
                ).position() + 1,
                Err(e) => r matches Err(x) && x@ == e && final(self).position() == old(
                    self,
                ).position(),
            },
    {
        assert(self.words().len() == self.input@.len());
        let len = self.input.len();
        let w = self.input[self.index].as_str();
        assert(w@ == self.words()[self.index as int]);
        let kind = Lexer::kind(w)?;
        let value = Lexer::value(w, kind);
        self.index = self.index + 1;
        Ok(Token::new(kind, value))
    }
}

/// The tokens of a source text: its whitespace-separated words read in order.
pub fn lex(input: String) -> (r: Result<Vec<Token>, CompileError>)
    ensures
        match lex_words(words(input@)) {
            Ok(ts) => r matches Ok(v) && v@.map_values(|t: Token| t@) == ts,
            Err(e) => r matches Err(x) && x@ == e,
        },
{
    let mut lexer = Lexer::new(input);
    let ghost ws = lexer.words();
    let mut tokens: Vec<Token> = Vec::new();
    assert(ws.take(0) =~= Seq::<Seq<char>>::empty());
    assert(tokens@.map_values(|t: Token| t@) =~= Seq::<TokenView>::empty());
    while !lexer.should_stop()
        invariant
            lexer.wf(),
            lexer.words() == ws,
            ws == words(input@),
            lexer.position() <= ws.len(),
            lex_words(ws.take(lexer.position() as int)) == Ok::<Seq<TokenView>, ErrorView>(
                tokens@.map_values(|t: Token| t@),
            ),
        decreases ws.len() - lexer.position(),
    {
        let ghost k = lexer.position();
        assert(ws.take(k as int + 1).drop_last() == ws.take(k as int));
        assert(ws.take(k as int + 1).last() == ws[k as int]);
        match lexer.advance() {
            Ok(t) => {
                let ghost before = tokens@.map_values(|t: Token| t@);
                tokens.push(t);
                assert(tokens@.map_values(|t: Token| t@) =~= before.push(t@));
            },
            Err(e) => {
                proof {
                    lemma_lex_words_error(ws, k + 1);
                }
                return Err(e);
            },
        }
    }
    assert(ws.take(ws.len() as int) == ws);
    Ok(tokens)
}

} // verus!
