use ayurox::chunk::{OP_CALL, OP_CLOSURE};
use ayurox::value::{ObjType, Value};
use ayurox::compiler::{Compiler, Diagnostic, ErrorLocation, Parser};
use ayurox::scanner::{Scanner, TokenType};

fn number_bits(text: &str) -> u64 {
    text.parse::<f64>().unwrap().to_bits()
}

fn errors(source: &str) -> Vec<(usize, String, String)> {
    let (runtime, diagnostics) = Compiler::new(source, number_bits).compile();
    let mut out = Vec::new();
    for d in diagnostics {
        if let Diagnostic::Error { line, location, message } = d {
            let at = match location {
                ErrorLocation::AtEnd => "end".to_string(),
                ErrorLocation::At(t) => t,
                ErrorLocation::Unplaced => String::new(),
            };
            out.push((line, at, message));
        }
    }
    assert_eq!(runtime.is_some(), out.is_empty());
    out
}

#[test]
fn match_token_consumes_only_a_matching_token() {
    let mut parser = Parser::new(Scanner::new("var x;"));
    parser.advance();
    assert!(parser.check(TokenType::Var));
    assert!(!parser.match_token(TokenType::Fun));
    assert!(parser.current.token_type == TokenType::Var);
    assert!(parser.match_token(TokenType::Var));
    assert!(parser.previous.token_type == TokenType::Var);
    assert!(parser.current.token_type == TokenType::Identifier);
}

#[test]
fn synchronize_stops_at_a_statement_boundary() {
    let mut parser = Parser::new(Scanner::new("a b c ; d print e"));
    parser.advance();
    parser.synchronize();
    assert!(parser.previous.token_type == TokenType::Semicolon);
    assert!(parser.current.token_type == TokenType::Identifier);
    parser.advance();
    parser.synchronize();
    assert!(parser.current.token_type == TokenType::Print);
    parser.synchronize();
    assert!(parser.current.token_type == TokenType::Print);
}

#[test]
fn a_valid_program_compiles() {
    assert!(errors("var a = 1; fun f(x) { return x + a; } print f(2);").is_empty());
}

#[test]
fn errors_recover_at_the_next_statement() {
    assert_eq!(errors("print ;\nprint ;\nprint 1;"), vec![
        (1, ";".to_string(), "Expect expression.".to_string()),
        (2, ";".to_string(), "Expect expression.".to_string()),
    ]);
}

#[test]
fn scope_errors() {
    assert_eq!(errors("{ var a = a; }"), vec![(1, "a".to_string(), "Cannot read local variable in its own initializer.".to_string())]);
    assert_eq!(errors("{ var a = 1; var a = 2; }"), vec![(1, "a".to_string(), "Already a variable with this name in this scope.".to_string())]);
    assert_eq!(errors("return 1;"), vec![(1, "return".to_string(), "Cannot return from top-level code.".to_string())]);
    assert_eq!(errors("1 = 2;"), vec![(1, "=".to_string(), "Invalid assignment target.".to_string())]);
}

#[test]
fn scanner_errors_are_unplaced() {
    assert_eq!(errors("print \"open"), vec![(1, String::new(), "Unterminated string.".to_string())]);
}

#[test]
fn too_many_constants_is_an_error() {
    let mut source = String::new();
    for i in 0..257 {
        source.push_str(&format!("print {};\n", i));
    }
    let errs = errors(&source);
    assert_eq!(errs.len(), 1);
    assert_eq!(errs[0].0, 257);
    assert_eq!(errs[0].2, "Too many constants in one chunk.");
}

#[test]
fn synchronize_leaves_error_recovery() {
    let mut parser = Parser::new(Scanner::new("1 2 ; var x;"));
    parser.advance();
    parser.error_at_current("bad".to_string());
    assert!(parser.panic_mode);
    parser.synchronize();
    assert!(!parser.panic_mode);
    assert!(parser.had_error);
    assert!(parser.current.token_type == TokenType::Var);
}

#[test]
fn calls_carry_their_argument_count_and_functions_their_arity() {
    let (runtime, diagnostics) = Compiler::new("fun f(a, b, c) { print a; } f(1, (2), g(3, 4));", number_bits).compile();
    assert!(diagnostics.is_empty());
    let rt = runtime.unwrap();
    let code = &rt.function.chunk.code;
    let closure_at = code.iter().position(|&b| b == OP_CLOSURE).unwrap();
    let k = code[closure_at + 1] as usize;
    match rt.function.chunk.constants.values[k] {
        Value::Obj(g) => match &rt.heap.get(g).obj_type {
            ObjType::Function(f) => assert_eq!(f.arity, 3),
            _ => panic!("not a function"),
        },
        _ => panic!("not an object"),
    }
    let calls: Vec<u8> = code.windows(2).filter(|w| w[0] == OP_CALL).map(|w| w[1]).collect();
    assert_eq!(calls, vec![2, 3]);
}
