//! Recursive-descent parser from tokens to statements.

use vstd::prelude::*;
use crate::ast::{Expr, ExprV, Stmt, StmtV, Type, stmts_view};
use crate::lexer::{Token, TokenV, tokens_view};

verus! {

broadcast use vstd::string::group_string_axioms;

/// Why a parse fails.
pub enum ParseErr {
    ExpectedBlockOpen,
    ExpectedIdent,
    ExpectedColon,
    ExpectedAssign,
    ExpectedSemi,
    InvalidStmt,
    InvalidType,
    InvalidExpr,
    ExpectedUnsafeBlock,
}

/// The message that the parser reports for each failure.
pub open spec fn parse_err_message(e: ParseErr) -> Seq<char> {
    match e {
        ParseErr::ExpectedBlockOpen => "Se esperaba '{' para abrir el bloque léxico"@,
        ParseErr::ExpectedIdent => "Se esperaba un identificador tras 'let'"@,
        ParseErr::ExpectedColon => "Se esperaba ':'"@,
        ParseErr::ExpectedAssign => "Se esperaba '='"@,
        ParseErr::ExpectedSemi => "Se esperaba ';'"@,
        ParseErr::InvalidStmt => "Sentencia no válida o no soportada"@,
        ParseErr::InvalidType => "Tipo de dato no válido"@,
        ParseErr::InvalidExpr => "Expresión no válida"@,
        ParseErr::ExpectedUnsafeBlock => "Fallo topológico: se esperaba un bloque léxico tras 'unsafe'"@,
    }
}

/// The position after reading one token at `p` (reading at the end reads nothing).
pub open spec fn next_pos(t: Seq<TokenV>, p: int) -> int {
    if 0 <= p < t.len() {
        p + 1
    } else {
        p
    }
}

/// The token read at `p`, if any.
pub open spec fn token_at(t: Seq<TokenV>, p: int) -> Option<TokenV> {
    if 0 <= p < t.len() {
        Some(t[p])
    } else {
        None
    }
}

/// type := 'u8' | 'u32' | 'owned' type | 'raw' type
pub open spec fn spec_parse_type(t: Seq<TokenV>, p: int) -> (Result<Type, ParseErr>, int)
    decreases t.len() - p,
{
    if 0 <= p < t.len() {
        match t[p] {
            TokenV::U8 => (Ok(Type::U8), p + 1),
            TokenV::U32 => (Ok(Type::U32), p + 1),
            TokenV::Owned => {
                let (r, q) = spec_parse_type(t, p + 1);
                match r {
                    Ok(inner) => (Ok(Type::Owned(Box::new(inner))), q),
                    Err(e) => (Err(e), q),
                }
            },
            TokenV::Raw => {
                let (r, q) = spec_parse_type(t, p + 1);
                match r {
                    Ok(inner) => (Ok(Type::RawPtr(Box::new(inner))), q),
                    Err(e) => (Err(e), q),
                }
            },
            _ => (Err(ParseErr::InvalidType), p + 1),
        }
    } else {
        (Err(ParseErr::InvalidType), p)
    }
}

/// expr := integer | identifier
pub open spec fn spec_parse_expr(t: Seq<TokenV>, p: int) -> (Result<ExprV, ParseErr>, int) {
    match token_at(t, p) {
        Some(TokenV::Int(v)) => (Ok(ExprV::LiteralInt(v as u64)), p + 1),
        Some(TokenV::Ident(n)) => (Ok(ExprV::Variable(n)), p + 1),
        _ => (Err(ParseErr::InvalidExpr), next_pos(t, p)),
    }
}

/// The tail of `let name : type = expr ;` after the keyword, from `p`.
pub open spec fn spec_parse_let_tail(t: Seq<TokenV>, p: int) -> (Result<StmtV, ParseErr>, int) {
    match token_at(t, p) {
        Some(TokenV::Ident(name)) => {
            if token_at(t, p + 1) != Some(TokenV::Colon) {
                (Err(ParseErr::ExpectedColon), next_pos(t, p + 1))
            } else {
                let (ty, q) = spec_parse_type(t, p + 2);
                match ty {
                    Err(e) => (Err(e), q),
                    Ok(ty) => {
                        if token_at(t, q) != Some(TokenV::Assign) {
                            (Err(ParseErr::ExpectedAssign), next_pos(t, q))
                        } else {
                            let (ex, r) = spec_parse_expr(t, q + 1);
                            match ex {
                                Err(e) => (Err(e), r),
                                Ok(ex) => {
                                    if token_at(t, r) != Some(TokenV::Semi) {
                                        (Err(ParseErr::ExpectedSemi), next_pos(t, r))
                                    } else {
                                        (Ok(StmtV::Let(name, ty, ex)), r + 1)
                                    }
                                },
                            }
                        }
                    },
                }
            }
        },
        _ => (Err(ParseErr::ExpectedIdent), next_pos(t, p)),
    }
}

/// The tail of `* target = expr ;` after the star, from `p`.
pub open spec fn spec_parse_store_tail(t: Seq<TokenV>, p: int) -> (Result<StmtV, ParseErr>, int) {
    let (target, q) = spec_parse_expr(t, p);
    match target {
        Err(e) => (Err(e), q),
        Ok(target) => {
            if token_at(t, q) != Some(TokenV::Assign) {
                (Err(ParseErr::ExpectedAssign), next_pos(t, q))
            } else {
                let (ex, r) = spec_parse_expr(t, q + 1);
                match ex {
                    Err(e) => (Err(e), r),
                    Ok(ex) => {
                        if token_at(t, r) != Some(TokenV::Semi) {
                            (Err(ParseErr::ExpectedSemi), next_pos(t, r))
                        } else {
                            (Ok(StmtV::Assign(ExprV::Deref(Box::new(target)), ex)), r + 1)
                        }
                    },
                }
            }
        },
    }
}

/// block := '{' stmt* '}'  (a missing '}' at the end of the tokens is accepted)
pub open spec fn spec_parse_block(t: Seq<TokenV>, p: int) -> (Result<StmtV, ParseErr>, int)
    decreases t.len() - p, 2int,
{
    if 0 <= p < t.len() {
        if t[p] is LBrace {
            spec_parse_items(t, p + 1, seq![])
        } else {
            (Err(ParseErr::ExpectedBlockOpen), p + 1)
        }
    } else {
        (Err(ParseErr::ExpectedBlockOpen), p)
    }
}

/// The statements of a block from `p`, after those already read (`acc`).
pub open spec fn spec_parse_items(t: Seq<TokenV>, p: int, acc: Seq<StmtV>) -> (Result<StmtV, ParseErr>, int)
    decreases t.len() - p, 1int,
{
    if 0 <= p < t.len() {
        if t[p] is RBrace {
            (Ok(StmtV::Block(acc)), p + 1)
        } else {
            let (s, q) = spec_parse_stmt(t, p);
            match s {
                Err(e) => (Err(e), q),
                Ok(s) => {
                    if p < q <= t.len() {
                        spec_parse_items(t, q, acc.push(s))
                    } else {
                        (Err(ParseErr::InvalidStmt), q)
                    }
                },
            }
        }
    } else {
        (Ok(StmtV::Block(acc)), p)
    }
}

/// stmt := 'unsafe' block | 'let' name ':' type '=' expr ';' | '*' expr '=' expr ';'
pub open spec fn spec_parse_stmt(t: Seq<TokenV>, p: int) -> (Result<StmtV, ParseErr>, int)
    decreases t.len() - p, 0int,
{
    if 0 <= p < t.len() {
        match t[p] {
            TokenV::Unsafe => {
                let (b, q) = spec_parse_block(t, p + 1);
                match b {
                    Ok(StmtV::Block(stmts)) => (Ok(StmtV::UnsafeBlock(stmts)), q),
                    Ok(_) => (Err(ParseErr::ExpectedUnsafeBlock), q),
                    Err(e) => (Err(e), q),
                }
            },
            TokenV::Let => spec_parse_let_tail(t, p + 1),
            TokenV::Star => spec_parse_store_tail(t, p + 1),
            _ => (Err(ParseErr::InvalidStmt), p + 1),
        }
    } else {
        (Err(ParseErr::InvalidStmt), p)
    }
}


proof fn lemma_type_pos(t: Seq<TokenV>, p: int)
    requires
        0 <= p <= t.len(),
    ensures
        p <= spec_parse_type(t, p).1 <= t.len(),
        p < t.len() ==> p < spec_parse_type(t, p).1,
    decreases t.len() - p,
{
    if p < t.len() {
        match t[p] {
            TokenV::Owned => lemma_type_pos(t, p + 1),
            TokenV::Raw => lemma_type_pos(t, p + 1),
            _ => {},
        }
    }
}

proof fn lemma_let_tail_pos(t: Seq<TokenV>, p: int)
    requires
        0 <= p <= t.len(),
    ensures
        p <= spec_parse_let_tail(t, p).1 <= t.len(),
{
    if p + 2 <= t.len() {
        lemma_type_pos(t, p + 2);
    }
}

proof fn lemma_block_pos(t: Seq<TokenV>, p: int)
    requires
        0 <= p <= t.len(),
    ensures
        p <= spec_parse_block(t, p).1 <= t.len(),
        spec_parse_block(t, p).0 matches Ok(b) ==> b is Block,
    decreases t.len() - p, 2int,
{
    if p < t.len() && t[p] is LBrace {
        lemma_items_pos(t, p + 1, seq![]);
    }
}

proof fn lemma_items_pos(t: Seq<TokenV>, p: int, acc: Seq<StmtV>)
    requires
        0 <= p <= t.len(),
    ensures
        p <= spec_parse_items(t, p, acc).1 <= t.len(),
        spec_parse_items(t, p, acc).0 matches Ok(b) ==> b is Block,
    decreases t.len() - p, 1int,
{
    if p < t.len() && !(t[p] is RBrace) {
        lemma_stmt_pos(t, p);
        let (s, q) = spec_parse_stmt(t, p);
        if s is Ok {
            lemma_items_pos(t, q, acc.push(s->Ok_0));
        }
    }
}

proof fn lemma_stmt_pos(t: Seq<TokenV>, p: int)
    requires
        0 <= p <= t.len(),
    ensures
        p <= spec_parse_stmt(t, p).1 <= t.len(),
        p < t.len() ==> p < spec_parse_stmt(t, p).1,
    decreases t.len() - p, 0int,
{
    if p < t.len() {
        match t[p] {
            TokenV::Unsafe => lemma_block_pos(t, p + 1),
            TokenV::Let => lemma_let_tail_pos(t, p + 1),
            _ => {},
        }
    }
}

/// What parsing a block gives, when it succeeds, is a block; and parsing
/// never reads past the end of the tokens.
pub proof fn lemma_parse_block_gives_block(t: Seq<TokenV>, p: int)
    requires
        0 <= p <= t.len(),
    ensures
        spec_parse_block(t, p).0 matches Ok(b) ==> b is Block,
        p <= spec_parse_block(t, p).1 <= t.len(),
{
    lemma_block_pos(t, p);
}

/// The exec result agrees with the spec result: the same value, or the
/// message of the same failure.
pub open spec fn type_result_is(r: Result<Type, String>, s: Result<Type, ParseErr>) -> bool {
    match (r, s) {
        (Ok(x), Ok(y)) => x == y,
        (Err(m), Err(e)) => m@ == parse_err_message(e),
        _ => false,
    }
}

pub open spec fn expr_result_is(r: Result<Expr, String>, s: Result<ExprV, ParseErr>) -> bool {
    match (r, s) {
        (Ok(x), Ok(y)) => x@ == y,
        (Err(m), Err(e)) => m@ == parse_err_message(e),
        _ => false,
    }
}

pub open spec fn stmt_result_is(r: Result<Stmt, String>, s: Result<StmtV, ParseErr>) -> bool {
    match (r, s) {
        (Ok(x), Ok(y)) => x@ == y,
        (Err(m), Err(e)) => m@ == parse_err_message(e),
        _ => false,
    }
}

fn err_message(e: ParseErr) -> (m: String)
    ensures
        m@ == parse_err_message(e),
{
    match e {
        ParseErr::ExpectedBlockOpen => "Se esperaba '{' para abrir el bloque léxico".to_string(),
        ParseErr::ExpectedIdent => "Se esperaba un identificador tras 'let'".to_string(),
        ParseErr::ExpectedColon => "Se esperaba ':'".to_string(),
        ParseErr::ExpectedAssign => "Se esperaba '='".to_string(),
        ParseErr::ExpectedSemi => "Se esperaba ';'".to_string(),
        ParseErr::InvalidStmt => "Sentencia no válida o no soportada".to_string(),
        ParseErr::InvalidType => "Tipo de dato no válido".to_string(),
        ParseErr::InvalidExpr => "Expresión no válida".to_string(),
        ParseErr::ExpectedUnsafeBlock => "Fallo topológico: se esperaba un bloque léxico tras 'unsafe'".to_string(),
    }
}

/// A parser over a sequence of tokens, reading from a position.
pub struct Parser {
    tokens: Vec<Token>,
    pos: usize,
}

impl View for Parser {
    type V = (Seq<TokenV>, int);

    /// The tokens and the position of the next token to read.
    closed spec fn view(&self) -> (Seq<TokenV>, int) {
        (tokens_view(self.tokens@), self.pos as int)
    }
}

impl Parser {
    #[verifier::type_invariant]
    spec fn inv(self) -> bool {
        self.pos <= self.tokens@.len()
    }

    /// A parser positioned on the first token.
    pub fn new(tokens: Vec<Token>) -> (p: Self)
        ensures
            p@ == (tokens_view(tokens@), 0int),
    {
        Self { tokens, pos: 0 }
    }

    fn next_token(&mut self) -> (r: Option<Token>)
        ensures
            final(self)@.0 == old(self)@.0,
            final(self)@.1 == next_pos(old(self)@.0, old(self)@.1),
            match r {
                Some(tok) => token_at(old(self)@.0, old(self)@.1) == Some(tok@),
                None => token_at(old(self)@.0, old(self)@.1) is None,
            },
    {
        proof {
            use_type_invariant(&*self);
        }
        if self.pos < self.tokens.len() {
            let tok = self.tokens[self.pos].copy_token();
            self.pos = self.pos + 1;
            Some(tok)
        } else {
            None
        }
    }

    fn parse_type(&mut self) -> (r: Result<Type, String>)
        ensures
            final(self)@.0 == old(self)@.0,
            type_result_is(r, spec_parse_type(old(self)@.0, old(self)@.1).0),
            final(self)@.1 == spec_parse_type(old(self)@.0, old(self)@.1).1,
        decreases old(self)@.0.len() - old(self)@.1,
    {
        proof {
            use_type_invariant(&*self);
        }
        match self.next_token() {
            Some(Token::U8) => Ok(Type::U8),
            Some(Token::U32) => Ok(Type::U32),
            Some(Token::Owned) => {
                match self.parse_type() {
                    Ok(inner) => Ok(Type::Owned(Box::new(inner))),
                    Err(m) => Err(m),
                }
            },
            Some(Token::Raw) => {
                match self.parse_type() {
                    Ok(inner) => Ok(Type::RawPtr(Box::new(inner))),
                    Err(m) => Err(m),
                }
            },
            _ => Err(err_message(ParseErr::InvalidType)),
        }
    }

    /// Parses a block `{ stmt* }` from the current position. A block whose
    /// closing brace is missing at the end of the tokens is accepted.
    pub fn parse_block(&mut self) -> (r: Result<Stmt, String>)
        ensures
            final(self)@.0 == old(self)@.0,
            stmt_result_is(r, spec_parse_block(old(self)@.0, old(self)@.1).0),
            final(self)@.1 == spec_parse_block(old(self)@.0, old(self)@.1).1,
        decreases old(self)@.0.len() - old(self)@.1, 2int,
    {
        proof {
            use_type_invariant(&*self);
        }
        let ghost t = self@.0;
        let ghost p0 = self@.1;
        match self.next_token() {
            Some(Token::LBrace) => {},
            _ => {
                return Err(err_message(ParseErr::ExpectedBlockOpen));
            },
        }
        let mut stmts: Vec<Stmt> = Vec::new();
        assert(stmts_view(stmts@) =~= seq![]);
        loop
            invariant
                self@.0 == t,
                t == old(self)@.0,
                p0 == old(self)@.1,
                p0 < self@.1 <= t.len(),
                spec_parse_items(t, self@.1, stmts_view(stmts@)) == spec_parse_block(t, p0),
            decreases t.len() - self@.1,
        {
            proof {
                use_type_invariant(&*self);
            }
            if self.pos >= self.tokens.len() {
                return Ok(Stmt::Block(stmts));
            }
            if let Token::RBrace = &self.tokens[self.pos] {
                self.pos = self.pos + 1;
                return Ok(Stmt::Block(stmts));
            }
            let ghost q = self@.1;
            proof {
                lemma_stmt_pos(t, q);
            }
            match self.parse_stmt() {
                Ok(st) => {
                    proof {
                        assert(stmts_view(stmts@.push(st)) =~= stmts_view(stmts@).push(st@));
                    }
                    stmts.push(st);
                },
                Err(m) => {
                    return Err(m);
                },
            }
        }
    }

    fn parse_stmt(&mut self) -> (r: Result<Stmt, String>)
        ensures
            final(self)@.0 == old(self)@.0,
            stmt_result_is(r, spec_parse_stmt(old(self)@.0, old(self)@.1).0),
            final(self)@.1 == spec_parse_stmt(old(self)@.0, old(self)@.1).1,
        decreases old(self)@.0.len() - old(self)@.1, 0int,
    {
        proof {
            use_type_invariant(&*self);
        }
        let ghost t = self@.0;
        let ghost p0 = self@.1;
        match self.next_token() {
            Some(Token::Unsafe) => {
                match self.parse_block() {
                    Ok(Stmt::Block(stmts)) => {
                        Ok(Stmt::UnsafeBlock(stmts))
                    },
                    Ok(_) => Err(err_message(ParseErr::ExpectedUnsafeBlock)),
                    Err(m) => Err(m),
                }
            },
            Some(Token::Let) => {
                let name = match self.next_token() {
                    Some(Token::Ident(n)) => n,
                    _ => {
                        return Err(err_message(ParseErr::ExpectedIdent));
                    },
                };
                match self.next_token() {
                    Some(Token::Colon) => {},
                    _ => {
                        return Err(err_message(ParseErr::ExpectedColon));
                    },
                }
                let ty = match self.parse_type() {
                    Ok(ty) => ty,
                    Err(m) => {
                        return Err(m);
                    },
                };
                match self.next_token() {
                    Some(Token::Assign) => {},
                    _ => {
                        return Err(err_message(ParseErr::ExpectedAssign));
                    },
                }
                let ex = match self.parse_expr() {
                    Ok(ex) => ex,
                    Err(m) => {
                        return Err(m);
                    },
                };
                match self.next_token() {
                    Some(Token::Semi) => {},
                    _ => {
                        return Err(err_message(ParseErr::ExpectedSemi));
                    },
                }
                Ok(Stmt::Let(name, ty, ex))
            },
            Some(Token::Star) => {
                let target = match self.parse_expr() {
                    Ok(ex) => ex,
                    Err(m) => {
                        return Err(m);
                    },
                };
                match self.next_token() {
                    Some(Token::Assign) => {},
                    _ => {
                        return Err(err_message(ParseErr::ExpectedAssign));
                    },
                }
                let ex = match self.parse_expr() {
                    Ok(ex) => ex,
                    Err(m) => {
                        return Err(m);
                    },
                };
                match self.next_token() {
                    Some(Token::Semi) => {},
                    _ => {
                        return Err(err_message(ParseErr::ExpectedSemi));
                    },
                }
                Ok(Stmt::Assign(Expr::Deref(Box::new(target)), ex))
            },
            _ => Err(err_message(ParseErr::InvalidStmt)),
        }
    }

    fn parse_expr(&mut self) -> (r: Result<Expr, String>)
        ensures
            final(self)@.0 == old(self)@.0,
            expr_result_is(r, spec_parse_expr(old(self)@.0, old(self)@.1).0),
            final(self)@.1 == spec_parse_expr(old(self)@.0, old(self)@.1).1,
    {
        match self.next_token() {
            Some(Token::Int(v)) => Ok(Expr::LiteralInt(v)),
            Some(Token::Ident(n)) => Ok(Expr::Variable(n)),
            _ => Err(err_message(ParseErr::InvalidExpr)),
        }
    }
}

/// The tokens that spell a type, where one spells it: `u8`, `u32`, and
/// `owned` or `raw` before the tokens of the type they hold.
pub open spec fn type_tokens(ty: Type) -> Seq<TokenV>
    decreases ty,
{
    match ty {
        Type::U8 => seq![TokenV::U8],
        Type::U32 => seq![TokenV::U32],
        Type::Owned(inner) => seq![TokenV::Owned] + type_tokens(*inner),
        Type::RawPtr(inner) => seq![TokenV::Raw] + type_tokens(*inner),
        _ => seq![],
    }
}

/// Whether the type can be written in source: built from `u8` and `u32`
/// with `owned` and `raw`.
pub open spec fn type_writable(ty: Type) -> bool
    decreases ty,
{
    match ty {
        Type::U8 => true,
        Type::U32 => true,
        Type::Owned(inner) => type_writable(*inner),
        Type::RawPtr(inner) => type_writable(*inner),
        _ => false,
    }
}

/// Parsing a written type gives back that type, whatever follows it: the
/// tokens of `ty` at `p` parse to `ty`, and parsing stops right after them.
pub proof fn lemma_type_round_trip(ty: Type, t: Seq<TokenV>, p: int)
    requires
        type_writable(ty),
        0 <= p,
        p + type_tokens(ty).len() <= t.len(),
        t.subrange(p, p + type_tokens(ty).len()) == type_tokens(ty),
    ensures
        spec_parse_type(t, p) == (Ok::<Type, ParseErr>(ty), p + type_tokens(ty).len()),
    decreases ty,
{
    let n = type_tokens(ty).len();
    assert(t[p] == type_tokens(ty)[0]) by {
        assert(t.subrange(p, p + n)[0] == t[p]);
    }
    match ty {
        Type::Owned(inner) => {
            let m = type_tokens(*inner).len();
            assert(t.subrange(p + 1, p + 1 + m) =~= t.subrange(p, p + n).subrange(1, n as int));
            assert(type_tokens(ty).subrange(1, n as int) =~= type_tokens(*inner));
            lemma_type_round_trip(*inner, t, p + 1);
        },
        Type::RawPtr(inner) => {
            let m = type_tokens(*inner).len();
            assert(t.subrange(p + 1, p + 1 + m) =~= t.subrange(p, p + n).subrange(1, n as int));
            assert(type_tokens(ty).subrange(1, n as int) =~= type_tokens(*inner));
            lemma_type_round_trip(*inner, t, p + 1);
        },
        _ => {},
    }
}

/// The tokens of `{ let name: ty = v; }`.
pub open spec fn let_block_tokens(name: Seq<char>, ty: Type, v: u64) -> Seq<TokenV> {
    seq![TokenV::LBrace, TokenV::Let, TokenV::Ident(name), TokenV::Colon] + type_tokens(ty) + seq![
        TokenV::Assign,
        TokenV::Int(v as int),
        TokenV::Semi,
        TokenV::RBrace,
    ]
}

/// A block of one `let` of a written type parses to that `let`, with its
/// name, its type and its value, and reads all its tokens.
pub proof fn lemma_let_block_round_trip(name: Seq<char>, ty: Type, v: u64)
    requires
        type_writable(ty),
    ensures
        spec_parse_block(let_block_tokens(name, ty, v), 0) == (
            Ok::<StmtV, ParseErr>(StmtV::Block(seq![StmtV::Let(name, ty, ExprV::LiteralInt(v))])),
            let_block_tokens(name, ty, v).len() as int,
        ),
{
    let t = let_block_tokens(name, ty, v);
    let n = type_tokens(ty).len() as int;
    assert(t.subrange(4, 4 + n) =~= type_tokens(ty));
    lemma_type_round_trip(ty, t, 4);
    assert(t[4 + n] == TokenV::Assign);
    assert(t[5 + n] == TokenV::Int(v as int));
    assert(t[6 + n] == TokenV::Semi);
    assert(t[7 + n] == TokenV::RBrace);
    assert(t.len() == 8 + n);
    let (r1, q1) = spec_parse_stmt(t, 1);
    assert(q1 == 7 + n);
    assert(seq![StmtV::Let(name, ty, ExprV::LiteralInt(v))] =~= Seq::<StmtV>::empty().push(
        StmtV::Let(name, ty, ExprV::LiteralInt(v)),
    ));
}

} // verus!
