//! The token grammar: keywords, symbols, identifiers and decimal integers,
//! separated by blanks. Characters that start no token are skipped.

use vstd::prelude::*;
use vstd::string::*;

verus! {

broadcast use vstd::string::group_string_axioms;

/// A token of the source language.
#[derive(Debug, PartialEq, Eq)]
pub enum Token {
    Let,
    Owned,
    Raw,
    Unsafe,
    U8,
    U32,
    Assign,
    Colon,
    Semi,
    LBrace,
    RBrace,
    Star,
    Ident(String),
    Int(u64),
}

/// The mathematical value of a token. An integer literal is a mathematical
/// integer here, so that the grammar can speak of literals too large for `u64`.
pub enum TokenV {
    Let,
    Owned,
    Raw,
    Unsafe,
    U8,
    U32,
    Assign,
    Colon,
    Semi,
    LBrace,
    RBrace,
    Star,
    Ident(Seq<char>),
    Int(int),
}

impl View for Token {
    type V = TokenV;

    open spec fn view(&self) -> TokenV {
        match self {
            Token::Let => TokenV::Let,
            Token::Owned => TokenV::Owned,
            Token::Raw => TokenV::Raw,
            Token::Unsafe => TokenV::Unsafe,
            Token::U8 => TokenV::U8,
            Token::U32 => TokenV::U32,
            Token::Assign => TokenV::Assign,
            Token::Colon => TokenV::Colon,
            Token::Semi => TokenV::Semi,
            Token::LBrace => TokenV::LBrace,
            Token::RBrace => TokenV::RBrace,
            Token::Star => TokenV::Star,
            Token::Ident(n) => TokenV::Ident(n@),
            Token::Int(v) => TokenV::Int(*v as int),
        }
    }
}

impl Token {
    /// A copy of the token with the same view.
    pub fn copy_token(&self) -> (r: Token)
        ensures
            r@ == self@,
    {
        match self {
            Token::Let => Token::Let,
            Token::Owned => Token::Owned,
            Token::Raw => Token::Raw,
            Token::Unsafe => Token::Unsafe,
            Token::U8 => Token::U8,
            Token::U32 => Token::U32,
            Token::Assign => Token::Assign,
            Token::Colon => Token::Colon,
            Token::Semi => Token::Semi,
            Token::LBrace => Token::LBrace,
            Token::RBrace => Token::RBrace,
            Token::Star => Token::Star,
            Token::Ident(n) => Token::Ident(n.clone()),
            Token::Int(v) => Token::Int(*v),
        }
    }
}

impl Clone for Token {
    fn clone(&self) -> (r: Token)
        ensures
            r@ == self@,
    {
        self.copy_token()
    }
}

/// The views of a sequence of tokens.
pub open spec fn tokens_view(t: Seq<Token>) -> Seq<TokenV> {
    t.map_values(|x: Token| x@)
}

pub open spec fn is_digit(c: char) -> bool {
    '0' <= c && c <= '9'
}

pub open spec fn is_ident_start(c: char) -> bool {
    ('a' <= c && c <= 'z') || ('A' <= c && c <= 'Z') || c == '_'
}

pub open spec fn is_ident_char(c: char) -> bool {
    is_ident_start(c) || is_digit(c)
}

/// The end of the run of identifier characters that starts at `i`.
pub open spec fn ident_end(s: Seq<char>, i: int) -> int
    decreases s.len() - i,
{
    if i < 0 || i >= s.len() || !is_ident_char(s[i]) {
        i
    } else {
        ident_end(s, i + 1)
    }
}

/// The end of the run of decimal digits that starts at `i`.
pub open spec fn digits_end(s: Seq<char>, i: int) -> int
    decreases s.len() - i,
{
    if i < 0 || i >= s.len() || !is_digit(s[i]) {
        i
    } else {
        digits_end(s, i + 1)
    }
}

pub open spec fn digit_value(c: char) -> int {
    c as int - '0' as int
}

/// The value of a string of decimal digits.
pub open spec fn decimal_value(w: Seq<char>) -> int
    decreases w.len(),
{
    if w.len() == 0 {
        0
    } else {
        decimal_value(w.drop_last()) * 10 + digit_value(w.last())
    }
}

/// The token that a word of identifier characters forms: a keyword if it is
/// one, else an identifier.
pub open spec fn word_token(w: Seq<char>) -> TokenV {
    if w == seq!['l', 'e', 't'] {
        TokenV::Let
    } else if w == seq!['o', 'w', 'n', 'e', 'd'] {
        TokenV::Owned
    } else if w == seq!['r', 'a', 'w'] {
        TokenV::Raw
    } else if w == seq!['u', 'n', 's', 'a', 'f', 'e'] {
        TokenV::Unsafe
    } else if w == seq!['u', '8'] {
        TokenV::U8
    } else if w == seq!['u', '3', '2'] {
        TokenV::U32
    } else {
        TokenV::Ident(w)
    }
}

/// The token of a one-character symbol.
pub open spec fn symbol_token(c: char) -> Option<TokenV> {
    if c == '=' {
        Some(TokenV::Assign)
    } else if c == ':' {
        Some(TokenV::Colon)
    } else if c == ';' {
        Some(TokenV::Semi)
    } else if c == '{' {
        Some(TokenV::LBrace)
    } else if c == '}' {
        Some(TokenV::RBrace)
    } else if c == '*' {
        Some(TokenV::Star)
    } else {
        None
    }
}

pub proof fn lemma_ident_end_bounds(s: Seq<char>, i: int)
    requires
        0 <= i <= s.len(),
    ensures
        i <= ident_end(s, i) <= s.len(),
        i < s.len() && is_ident_char(s[i]) ==> i < ident_end(s, i),
        forall|k: int| i <= k < ident_end(s, i) ==> is_ident_char(#[trigger] s[k]),
        ident_end(s, i) < s.len() ==> !is_ident_char(s[ident_end(s, i)]),
    decreases s.len() - i,
{
    if i < s.len() && is_ident_char(s[i]) {
        lemma_ident_end_bounds(s, i + 1);
    }
}

pub proof fn lemma_digits_end_bounds(s: Seq<char>, i: int)
    requires
        0 <= i <= s.len(),
    ensures
        i <= digits_end(s, i) <= s.len(),
        i < s.len() && is_digit(s[i]) ==> i < digits_end(s, i),
        forall|k: int| i <= k < digits_end(s, i) ==> is_digit(#[trigger] s[k]),
        digits_end(s, i) < s.len() ==> !is_digit(s[digits_end(s, i)]),
    decreases s.len() - i,
{
    if i < s.len() && is_digit(s[i]) {
        lemma_digits_end_bounds(s, i + 1);
    }
}

/// The tokens of `s` from position `i` on, by longest match: a run of
/// identifier characters is a keyword or an identifier, a run of digits is an
/// integer, a symbol is its token, and every other character (blanks among
/// them) yields nothing.
pub open spec fn lex_from(s: Seq<char>, i: int) -> Seq<TokenV>
    decreases s.len() - i,
{
    if i < 0 || i >= s.len() {
        seq![]
    } else {
        let c = s[i];
        if is_ident_start(c) {
            let j = ident_end(s, i);
            proof {
                lemma_ident_end_bounds(s, i);
            }
            seq![word_token(s.subrange(i, j))] + lex_from(s, j)
        } else if is_digit(c) {
            let j = digits_end(s, i);
            proof {
                lemma_digits_end_bounds(s, i);
            }
            seq![TokenV::Int(decimal_value(s.subrange(i, j)))] + lex_from(s, j)
        } else {
            match symbol_token(c) {
                Some(t) => seq![t] + lex_from(s, i + 1),
                None => lex_from(s, i + 1),
            }
        }
    }
}

/// The tokens of a whole source text.
pub open spec fn lex(s: Seq<char>) -> Seq<TokenV> {
    lex_from(s, 0)
}

/// Every integer literal of the text fits in a `u64`.
pub open spec fn lex_ints_fit(s: Seq<char>) -> bool {
    forall|k: int| 0 <= k < lex(s).len() ==> (#[trigger] lex(s)[k] matches TokenV::Int(v) ==> v <= u64::MAX)
}


fn is_digit_char(c: char) -> (r: bool)
    ensures
        r == is_digit(c),
{
    '0' <= c && c <= '9'
}

fn is_ident_start_char(c: char) -> (r: bool)
    ensures
        r == is_ident_start(c),
{
    ('a' <= c && c <= 'z') || ('A' <= c && c <= 'Z') || c == '_'
}

fn is_ident_char_char(c: char) -> (r: bool)
    ensures
        r == is_ident_char(c),
{
    is_ident_start_char(c) || is_digit_char(c)
}

fn symbol_token_of(c: char) -> (r: Option<Token>)
    ensures
        match r {
            Some(t) => symbol_token(c) == Some(t@),
            None => symbol_token(c) is None,
        },
{
    if c == '=' {
        Some(Token::Assign)
    } else if c == ':' {
        Some(Token::Colon)
    } else if c == ';' {
        Some(Token::Semi)
    } else if c == '{' {
        Some(Token::LBrace)
    } else if c == '}' {
        Some(Token::RBrace)
    } else if c == '*' {
        Some(Token::Star)
    } else {
        None
    }
}

/// The characters of a text, in order.
fn source_chars(source: &str) -> (r: Vec<char>)
    ensures
        r@ == source@,
{
    let mut it = source.chars();
    let mut out: Vec<char> = Vec::new();
    loop
        invariant
            out@ + vstd::std_specs::iter::IteratorSpec::remaining(&it) == source@,
            vstd::std_specs::iter::IteratorSpec::decrease(&it) is Some,
        ensures
            out@ == source@,
        decreases vstd::std_specs::iter::IteratorSpec::decrease(&it)->0,
    {
        match it.next() {
            Some(c) => {
                out.push(c);
            },
            None => {
                break ;
            },
        }
    }
    out
}

/// Whether the characters `chars[i..j]` spell `w`.
fn span_is(chars: &Vec<char>, i: usize, j: usize, w: &[char]) -> (r: bool)
    requires
        i <= j <= chars@.len(),
    ensures
        r == (chars@.subrange(i as int, j as int) == w@),
{
    if j - i != w.len() {
        return false;
    }
    let mut k: usize = 0;
    while k < w.len()
        invariant
            i <= j <= chars@.len(),
            j - i == w@.len(),
            k <= w@.len(),
            forall|m: int| 0 <= m < k ==> chars@[i + m] == w@[m],
        decreases w@.len() - k,
    {
        if chars[i + k] != w[k] {
            assert(chars@.subrange(i as int, j as int)[k as int] != w@[k as int]);
            return false;
        }
        k += 1;
    }
    assert(chars@.subrange(i as int, j as int) =~= w@);
    true
}

/// The token that the word `chars[i..j]` forms.
fn word_token_of(chars: &Vec<char>, source: &str, i: usize, j: usize) -> (t: Token)
    requires
        i <= j <= chars@.len(),
        chars@ == source@,
    ensures
        t@ == word_token(chars@.subrange(i as int, j as int)),
{
    let ghost w = chars@.subrange(i as int, j as int);
    if span_is(chars, i, j, &['l', 'e', 't']) {
        assert(w == seq!['l', 'e', 't']);
        Token::Let
    } else if span_is(chars, i, j, &['o', 'w', 'n', 'e', 'd']) {
        Token::Owned
    } else if span_is(chars, i, j, &['r', 'a', 'w']) {
        Token::Raw
    } else if span_is(chars, i, j, &['u', 'n', 's', 'a', 'f', 'e']) {
        Token::Unsafe
    } else if span_is(chars, i, j, &['u', '8']) {
        Token::U8
    } else if span_is(chars, i, j, &['u', '3', '2']) {
        Token::U32
    } else {
        let sub = source.substring_char(i, j);
        Token::Ident(String::from_str(sub))
    }
}


/// A prefix of a run of digits has a value no larger than the whole run.
proof fn lemma_decimal_prefix(s: Seq<char>, i: int, k: int, e: int)
    requires
        0 <= i <= k <= e <= s.len(),
        forall|m: int| i <= m < e ==> is_digit(#[trigger] s[m]),
    ensures
        decimal_value(s.subrange(i, k)) <= decimal_value(s.subrange(i, e)),
        0 <= decimal_value(s.subrange(i, k)),
    decreases e - i,
{
    if k < e {
        lemma_decimal_prefix(s, i, k, e - 1);
        assert(s.subrange(i, e).drop_last() =~= s.subrange(i, e - 1));
    } else if k > i {
        lemma_decimal_prefix(s, i, k - 1, k - 1);
        assert(s.subrange(i, k).drop_last() =~= s.subrange(i, k - 1));
    }
}

proof fn lemma_tokens_view_push(t: Seq<Token>, x: Token)
    ensures
        tokens_view(t.push(x)) == tokens_view(t).push(x@),
{
    assert(tokens_view(t.push(x)) =~= tokens_view(t).push(x@));
}

/// Splits a text into tokens; `None` when an integer literal does not fit in
/// a `u64`.
pub fn try_tokenize(source: &str) -> (r: Option<Vec<Token>>)
    ensures
        r is Some <==> lex_ints_fit(source@),
        r matches Some(t) ==> tokens_view(t@) == lex(source@),
{
    let chars = source_chars(source);
    let ghost s = source@;
    let n = chars.len();
    let mut out: Vec<Token> = Vec::new();
    let mut i: usize = 0;
    while i < n
        invariant
            chars@ == s,
            s == source@,
            n == s.len(),
            i <= n,
            tokens_view(out@) + lex_from(s, i as int) == lex(s),
        decreases n - i,
    {
        let c = chars[i];
        if is_ident_start_char(c) {
            let mut j: usize = i + 1;
            while j < n && is_ident_char_char(chars[j])
                invariant
                    chars@ == s,
                    n == s.len(),
                    i < j <= n,
                    is_ident_start(s[i as int]),
                    ident_end(s, i as int) == ident_end(s, j as int),
                decreases n - j,
            {
                j += 1;
            }
            assert(ident_end(s, j as int) == j);
            let tok = word_token_of(&chars, source, i, j);
            proof {
                lemma_tokens_view_push(out@, tok);
                assert(lex_from(s, i as int) == seq![tok@] + lex_from(s, j as int));
                assert(tokens_view(out@.push(tok)) + lex_from(s, j as int) =~= tokens_view(out@) + lex_from(s, i as int));
            }
            out.push(tok);
            i = j;
        } else if is_digit_char(c) {
            let mut j: usize = i;
            let mut v: u64 = 0;
            while j < n && is_digit_char(chars[j])
                invariant
                    chars@ == s,
                    s == source@,
                    n == s.len(),
                    i <= j <= n,
                    is_digit(s[i as int]),
                    digits_end(s, i as int) == digits_end(s, j as int),
                    v as int == decimal_value(s.subrange(i as int, j as int)),
                    tokens_view(out@) + lex_from(s, i as int) == lex(s),
                decreases n - j,
            {
                let d = (chars[j] as u32 - 48u32) as u128;
                let w: u128 = v as u128 * 10 + d;
                assert(s.subrange(i as int, j + 1).drop_last() =~= s.subrange(i as int, j as int));
                if w > u64::MAX as u128 {
                    proof {
                        let e = digits_end(s, i as int);
                        lemma_digits_end_bounds(s, i as int);
                        lemma_digits_end_bounds(s, j as int);
                        lemma_digits_end_bounds(s, (j + 1) as int);
                        lemma_decimal_prefix(s, i as int, j + 1, e);
                        assert(lex_from(s, i as int) == seq![TokenV::Int(decimal_value(s.subrange(i as int, e)))] + lex_from(s, e));
                        let k = out@.len() as int;
                        assert(lex(s)[k] == TokenV::Int(decimal_value(s.subrange(i as int, e))));
                    }
                    return None;
                }
                v = w as u64;
                j += 1;
            }
            assert(digits_end(s, j as int) == j);
            let tok = Token::Int(v);
            proof {
                lemma_tokens_view_push(out@, tok);
                assert(tokens_view(out@.push(tok)) + lex_from(s, j as int) =~= tokens_view(out@) + lex_from(s, i as int));
            }
            out.push(tok);
            i = j;
        } else {
            match symbol_token_of(c) {
                Some(tok) => {
                    proof {
                        lemma_tokens_view_push(out@, tok);
                        assert(tokens_view(out@.push(tok)) + lex_from(s, i + 1) =~= tokens_view(out@) + lex_from(s, i as int));
                    }
                    out.push(tok);
                },
                None => {},
            }
            i += 1;
        }
    }
    proof {
        assert(tokens_view(out@) =~= lex(s));
        assert forall|k: int| 0 <= k < lex(s).len() implies (#[trigger] lex(s)[k] matches TokenV::Int(v) ==> v <= u64::MAX) by {
            assert(lex(s)[k] == out@[k]@);
        }
    }
    Some(out)
}

/// Splits a text into tokens. Each integer literal must fit in a `u64`.
pub fn tokenize(source: &str) -> (r: Vec<Token>)
    requires
        lex_ints_fit(source@),
    ensures
        tokens_view(r@) == lex(source@),
{
    match try_tokenize(source) {
        Some(t) => t,
        None => Vec::new(),
    }
}

/// An ASCII letter or an underscore.
pub open spec fn ascii_word_start(c: char) -> bool {
    ('a' <= c && c <= 'z') || ('A' <= c && c <= 'Z') || c == '_'
}

/// An ASCII letter, digit or underscore.
pub open spec fn ascii_word_char(c: char) -> bool {
    ascii_word_start(c) || ('0' <= c && c <= '9')
}

/// One of the keywords of the language.
pub open spec fn is_keyword(w: Seq<char>) -> bool {
    w == "let"@ || w == "owned"@ || w == "raw"@ || w == "unsafe"@ || w == "u8"@ || w == "u32"@
}

proof fn lemma_ident_end_at(s: Seq<char>, i: int, j: int)
    requires
        0 <= i <= j <= s.len(),
        forall|k: int| i <= k < j ==> ascii_word_char(#[trigger] s[k]),
        j == s.len() || !ascii_word_char(s[j]),
    ensures
        ident_end(s, i) == j,
    decreases j - i,
{
    if i < j {
        lemma_ident_end_at(s, i + 1, j);
    }
}

/// A whole word, a letter or underscore followed by letters, digits and
/// underscores up to a character that is none of those (or the end), lexes
/// as one token: an identifier carrying the whole word, unless the word is a
/// keyword. No letter of it is skipped or split off.
pub proof fn lemma_word_lexes_whole(s: Seq<char>, i: int, j: int)
    requires
        0 <= i < j <= s.len(),
        ascii_word_start(s[i]),
        forall|k: int| i <= k < j ==> ascii_word_char(#[trigger] s[k]),
        j == s.len() || !ascii_word_char(s[j]),
        !is_keyword(s.subrange(i, j)),
    ensures
        lex_from(s, i) == seq![TokenV::Ident(s.subrange(i, j))] + lex_from(s, j),
{
    reveal_strlit("let");
    reveal_strlit("owned");
    reveal_strlit("raw");
    reveal_strlit("unsafe");
    reveal_strlit("u8");
    reveal_strlit("u32");
    lemma_ident_end_at(s, i, j);
    let w = s.subrange(i, j);
    assert(w != seq!['l', 'e', 't']) by {
        assert("let"@ =~= seq!['l', 'e', 't']);
    }
    assert(w != seq!['o', 'w', 'n', 'e', 'd']) by {
        assert("owned"@ =~= seq!['o', 'w', 'n', 'e', 'd']);
    }
    assert(w != seq!['r', 'a', 'w']) by {
        assert("raw"@ =~= seq!['r', 'a', 'w']);
    }
    assert(w != seq!['u', 'n', 's', 'a', 'f', 'e']) by {
        assert("unsafe"@ =~= seq!['u', 'n', 's', 'a', 'f', 'e']);
    }
    assert(w != seq!['u', '8']) by {
        assert("u8"@ =~= seq!['u', '8']);
    }
    assert(w != seq!['u', '3', '2']) by {
        assert("u32"@ =~= seq!['u', '3', '2']);
    }
}

/// A text that is one whole word, not a keyword, lexes to exactly one
/// identifier carrying the whole text.
pub proof fn lemma_lone_word_lexes_whole(s: Seq<char>)
    requires
        s.len() > 0,
        ascii_word_start(s[0]),
        forall|k: int| 0 <= k < s.len() ==> ascii_word_char(#[trigger] s[k]),
        !is_keyword(s),
    ensures
        lex(s) == seq![TokenV::Ident(s)],
{
    assert(s.subrange(0, s.len() as int) =~= s);
    lemma_word_lexes_whole(s, 0, s.len() as int);
    assert(lex_from(s, s.len() as int) =~= seq![]);
    assert(seq![TokenV::Ident(s)] + seq![] =~= seq![TokenV::Ident(s)]);
}

} // verus!
