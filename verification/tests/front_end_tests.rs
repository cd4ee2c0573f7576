use sovereign_c::ast::{Expr, Stmt, Type};
use sovereign_c::borrowck::{check_expression, check_statement, BorrowContext, ResourceState};
use sovereign_c::lexer::{tokenize, try_tokenize, Token};
use sovereign_c::parser::Parser;

fn parse(code: &str) -> Result<Stmt, String> {
    let mut parser = Parser::new(tokenize(code));
    parser.parse_block()
}

fn check(code: &str) -> Result<Vec<Stmt>, String> {
    let ast = parse(code).expect("parse failed");
    let mut ctx = BorrowContext::new();
    check_statement(&ast, &mut ctx)
}

#[test]
fn lexer_keywords_and_identifiers() {
    let tokens = tokenize("let owned raw unsafe u8 u32 lets x_1");
    assert_eq!(
        tokens,
        vec![
            Token::Let,
            Token::Owned,
            Token::Raw,
            Token::Unsafe,
            Token::U8,
            Token::U32,
            Token::Ident("lets".to_string()),
            Token::Ident("x_1".to_string()),
        ]
    );
}

#[test]
fn lexer_symbols_and_integers() {
    let tokens = tokenize("= : ; { } * 42");
    assert_eq!(
        tokens,
        vec![Token::Assign, Token::Colon, Token::Semi, Token::LBrace, Token::RBrace, Token::Star, Token::Int(42)]
    );
}

#[test]
fn lexer_digits_then_letters_are_two_tokens() {
    assert_eq!(tokenize("12ab"), vec![Token::Int(12), Token::Ident("ab".to_string())]);
    assert_eq!(tokenize("ab12"), vec![Token::Ident("ab12".to_string())]);
}

#[test]
fn lexer_skips_characters_that_start_no_token() {
    assert_eq!(
        tokenize("a + b # 3\t\n"),
        vec![Token::Ident("a".to_string()), Token::Ident("b".to_string()), Token::Int(3)]
    );
}

#[test]
fn lexer_integer_limits() {
    assert_eq!(try_tokenize("18446744073709551615"), Some(vec![Token::Int(u64::MAX)]));
    assert_eq!(try_tokenize("18446744073709551616"), None);
    assert_eq!(try_tokenize(""), Some(vec![]));
}

#[test]
fn parser_accepts_let_and_store() {
    let ast = parse("{ let x: u32 = 5; *x = y; }").unwrap();
    match ast {
        Stmt::Block(stmts) => {
            assert_eq!(stmts.len(), 2);
            match &stmts[0] {
                Stmt::Let(name, ty, Expr::LiteralInt(5)) => {
                    assert_eq!(name, "x");
                    assert_eq!(*ty, Type::U32);
                }
                other => panic!("unexpected {:?}", other),
            }
            match &stmts[1] {
                Stmt::Assign(Expr::Deref(target), Expr::Variable(v)) => {
                    assert!(matches!(&**target, Expr::Variable(n) if n == "x"));
                    assert_eq!(v, "y");
                }
                other => panic!("unexpected {:?}", other),
            }
        }
        other => panic!("unexpected {:?}", other),
    }
}

#[test]
fn parser_nested_types_and_unsafe() {
    let ast = parse("{ unsafe { let p: raw owned u8 = 7; } }").unwrap();
    match ast {
        Stmt::Block(stmts) => match &stmts[0] {
            Stmt::UnsafeBlock(inner) => match &inner[0] {
                Stmt::Let(_, ty, _) => {
                    assert_eq!(*ty, Type::RawPtr(Box::new(Type::Owned(Box::new(Type::U8)))));
                }
                other => panic!("unexpected {:?}", other),
            },
            other => panic!("unexpected {:?}", other),
        },
        other => panic!("unexpected {:?}", other),
    }
}

#[test]
fn parser_accepts_missing_closing_brace_at_end() {
    assert!(matches!(parse("{ let x: u8 = 1;"), Ok(Stmt::Block(v)) if v.len() == 1));
}

#[test]
fn parser_error_messages() {
    assert_eq!(parse("let").unwrap_err(), "Se esperaba '{' para abrir el bloque léxico");
    assert_eq!(parse("").unwrap_err(), "Se esperaba '{' para abrir el bloque léxico");
    assert_eq!(parse("{ let 5").unwrap_err(), "Se esperaba un identificador tras 'let'");
    assert_eq!(parse("{ let x = 5; }").unwrap_err(), "Se esperaba ':'");
    assert_eq!(parse("{ let x: u32 5; }").unwrap_err(), "Se esperaba '='");
    assert_eq!(parse("{ let x: u32 = 5 }").unwrap_err(), "Se esperaba ';'");
    assert_eq!(parse("{ x }").unwrap_err(), "Sentencia no válida o no soportada");
    assert_eq!(parse("{ let x: bool = 5; }").unwrap_err(), "Tipo de dato no válido");
    assert_eq!(parse("{ let x: u32 = ; }").unwrap_err(), "Expresión no válida");
}

#[test]
fn borrowck_use_after_move_is_refused() {
    let res = check("{ let a: owned u8 = 1; let b: owned u8 = a; let c: owned u8 = a; }");
    assert_eq!(res.unwrap_err(), "Falsación de invariante: Uso después de Move en variable 'a'");
}

#[test]
fn borrowck_undeclared_variable_is_refused() {
    assert_eq!(check("{ let b: u32 = z; }").unwrap_err(), "Variable no declarada 'z'");
}

#[test]
fn borrowck_raw_pointer_binding_outside_unsafe_message() {
    assert_eq!(
        check("{ let port: raw u32 = 65536; }").unwrap_err(),
        "Anergía detectada: Imposible vincular puntero físico 'port' fuera de una escotilla 'unsafe'"
    );
    assert!(check("{ unsafe { let port: raw u32 = 65536; } }").is_ok());
}

#[test]
fn borrowck_raw_pointer_write_outside_unsafe_is_refused() {
    let mut ctx = BorrowContext::new();
    ctx.declare_var("p".to_string(), Type::RawPtr(Box::new(Type::U32)));
    let store = Stmt::Assign(Expr::Deref(Box::new(Expr::Variable("p".to_string()))), Expr::LiteralInt(1));
    assert_eq!(
        check_statement(&store, &mut ctx).unwrap_err(),
        "Anergía detectada: Imposible desreferenciar puntero físico 'p' fuera de 'unsafe'"
    );
    ctx.is_unsafe = true;
    assert!(check_statement(&store, &mut ctx).is_ok());
}

#[test]
fn borrowck_affine_value_is_used_once() {
    let mut ctx = BorrowContext::new();
    ctx.declare_var("a".to_string(), Type::Owned(Box::new(Type::U8)));
    assert_eq!(ctx.consume_var("a"), Ok(Type::Owned(Box::new(Type::U8))));
    assert_eq!(ctx.consume_var("a").unwrap_err(), "Falsación de invariante: Uso después de Move en variable 'a'");
}

#[test]
fn borrowck_copy_value_is_used_freely() {
    let mut ctx = BorrowContext::new();
    ctx.declare_var("n".to_string(), Type::U32);
    assert_eq!(ctx.consume_var("n"), Ok(Type::U32));
    assert_eq!(ctx.consume_var("n"), Ok(Type::U32));
    assert!(check("{ let a: u32 = 1; let b: u32 = a; let c: u32 = a; }").is_ok());
}

#[test]
fn borrowck_drop_happens_once() {
    let mut ctx = BorrowContext::new();
    ctx.declare_var("a".to_string(), Type::Owned(Box::new(Type::U8)));
    assert!(matches!(ctx.try_early_drop("a"), Some(Stmt::SyntheticDrop(n)) if n == "a"));
    assert!(ctx.try_early_drop("a").is_none());
    assert_eq!(ctx.consume_var("a").unwrap_err(), "Falsación de invariante: Uso después de Drop en variable 'a'");
    ctx.declare_var("n".to_string(), Type::U8);
    assert!(ctx.try_early_drop("n").is_none());
    assert!(ctx.try_early_drop("missing").is_none());
}

#[test]
fn borrowck_uninitialized_variable_is_refused() {
    let mut ctx = BorrowContext::new();
    ctx.scopes[0].push(("u".to_string(), ResourceState::Uninitialized));
    assert_eq!(ctx.consume_var("u").unwrap_err(), "Uso de variable no inicializada 'u'");
}

#[test]
fn borrowck_unsupported_expression() {
    let mut ctx = BorrowContext::new();
    assert_eq!(
        check_expression(&Expr::Borrow("x".to_string()), &mut ctx).unwrap_err(),
        "Expresión no soportada aún"
    );
    assert_eq!(check_expression(&Expr::LiteralBool(true), &mut ctx), Ok(Type::Bool));
    assert_eq!(check_expression(&Expr::LiteralInt(3), &mut ctx), Ok(Type::U64));
}

fn shape(stmts: &[Stmt]) -> Vec<String> {
    let mut out = Vec::new();
    for s in stmts {
        match s {
            Stmt::Let(n, _, _) => out.push(format!("let {}", n)),
            Stmt::SyntheticDrop(n) => out.push(format!("drop {}", n)),
            Stmt::Assign(_, _) => out.push("assign".to_string()),
            Stmt::Block(_) => out.push("block".to_string()),
            Stmt::UnsafeBlock(_) => out.push("unsafe".to_string()),
            Stmt::Return(_) => out.push("return".to_string()),
        }
    }
    out
}

#[test]
fn borrowck_drops_right_after_last_use() {
    let out = check("{ let a: owned u8 = 1; let n: u32 = 2; }").unwrap();
    assert_eq!(out.len(), 1);
    match &out[0] {
        Stmt::Block(inner) => assert_eq!(shape(inner), vec!["let a", "drop a", "let n"]),
        other => panic!("unexpected {:?}", other),
    }
    let out = check("{ let a: owned u8 = 1; let b: owned u8 = a; let n: u32 = 2; }").unwrap();
    match &out[0] {
        Stmt::Block(inner) => assert_eq!(shape(inner), vec!["let a", "let b", "drop b", "let n"]),
        other => panic!("unexpected {:?}", other),
    }
}

#[test]
fn borrowck_drops_what_remains_at_scope_end() {
    let out = check("{ let a: owned u8 = 1; let a: owned u8 = 2; }").unwrap();
    match &out[0] {
        Stmt::Block(inner) => assert_eq!(shape(inner), vec!["let a", "drop a", "let a", "drop a"]),
        other => panic!("unexpected {:?}", other),
    }
}

#[test]
fn borrowck_restores_context_after_blocks() {
    let ast = parse("{ unsafe { let p: raw u32 = 1; } let x: owned u8 = 3; }").unwrap();
    let mut ctx = BorrowContext::new();
    assert!(check_statement(&ast, &mut ctx).is_ok());
    assert_eq!(ctx.scopes.len(), 1);
    assert!(!ctx.is_unsafe);
    let popped = {
        ctx.push_scope();
        ctx.pop_scope()
    };
    assert!(popped.is_empty());
}

#[test]
fn borrowck_scope_round_trip() {
    let mut ctx = BorrowContext::new();
    ctx.push_scope();
    ctx.declare_var("a".to_string(), Type::Owned(Box::new(Type::U8)));
    ctx.declare_var("b".to_string(), Type::U32);
    ctx.declare_var("a".to_string(), Type::U8);
    let scope = ctx.pop_scope();
    assert_eq!(
        scope,
        vec![
            ("a".to_string(), ResourceState::Active(Type::U8)),
            ("b".to_string(), ResourceState::Active(Type::U32)),
        ]
    );
    assert_eq!(ctx.scopes.len(), 1);
    assert!(ctx.scopes[0].is_empty());
    assert!(!ctx.is_unsafe);
}
