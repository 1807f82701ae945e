use powder_bootstrap::ast::BinaryOperator;
use powder_bootstrap::ast::Definition;
use powder_bootstrap::ast::Expression;
use powder_bootstrap::ast::File;
use powder_bootstrap::ast::Statement;
use powder_bootstrap::ast::Type;
use powder_bootstrap::ast::UnaryOperator;
use powder_bootstrap::ast::VariableKind;
use powder_bootstrap::error::ParseError;
use powder_bootstrap::lexer::lex;
use powder_bootstrap::lexer::Token;
use powder_bootstrap::lexer::TokenType;
use powder_bootstrap::parser::parse;
use powder_bootstrap::parser::parse_block;
use powder_bootstrap::parser::parse_definition;
use powder_bootstrap::parser::parse_expression;
use powder_bootstrap::parser::parse_factor;
use powder_bootstrap::parser::parse_statement;
use powder_bootstrap::parser::parse_term;
use powder_bootstrap::parser::TokenStream;

fn parse_source(code: &str) -> Result<File, ParseError> {
    parse(lex(code).unwrap())
}

fn failure(code: &str) -> (String, Option<TokenType>) {
    let error = parse_source(code).unwrap_err();
    (error.message, error.found)
}

fn told(message: &str, found: Option<TokenType>) -> (String, Option<TokenType>) {
    (message.to_string(), found)
}

/// The expression of `code` and the number of tokens that were read for it.
fn expression_of(code: &str) -> (Result<Expression, ParseError>, usize) {
    let tokens = lex(code).unwrap();
    let mut stream = TokenStream::new(&tokens);
    let result = parse_expression(&mut stream);
    let mut read = tokens.len();
    while stream.next("").is_ok() {
        read -= 1;
    }
    (result, read)
}

fn shape(code: &str) -> String {
    format!("{:?}", expression_of(code).0.unwrap())
}

fn evaluate(expression: &Expression) -> i128 {
    match expression {
        Expression::NaturalLiteral(value) => *value,
        Expression::UnaryOperation(UnaryOperator::Plus, value) => evaluate(value),
        Expression::UnaryOperation(UnaryOperator::Minus, value) => -evaluate(value),
        Expression::BinaryOperation { lhs, operator: BinaryOperator::Add, rhs } => {
            evaluate(lhs) + evaluate(rhs)
        }
        Expression::BinaryOperation { lhs, operator: BinaryOperator::Subtract, rhs } => {
            evaluate(lhs) - evaluate(rhs)
        }
        Expression::BinaryOperation { lhs, operator: BinaryOperator::Multiply, rhs } => {
            evaluate(lhs) * evaluate(rhs)
        }
        Expression::BinaryOperation { lhs, operator: BinaryOperator::Divide, rhs } => {
            evaluate(lhs) / evaluate(rhs)
        }
        _ => panic!("Unsupported expression {:?} for evaluation", expression),
    }
}

fn value(code: &str) -> i128 {
    evaluate(&expression_of(code).0.unwrap())
}

#[test]
fn a_declaration_without_initializer_has_no_initial_value() {
    let file = parse_source("const x: n64;").unwrap();
    assert_eq!(file.definitions.len(), 1);
    match &file.definitions[0] {
        Definition::Statement(Statement::VariableDeclaration { kind, name, type_, initial_value }) => {
            assert_eq!(*kind, VariableKind::Immutable);
            assert_eq!(name, "x");
            assert_eq!(*type_, Type::N64);
            assert!(initial_value.is_none());
        }
        other => panic!("{:?}", other),
    }
}

#[test]
fn a_declaration_with_initializer_has_its_expression() {
    let file = parse_source("var x: n64 = 1 + 2;").unwrap();
    assert_eq!(file.definitions.len(), 1);
    match &file.definitions[0] {
        Definition::Statement(Statement::VariableDeclaration { kind, name, type_, initial_value }) => {
            assert_eq!(*kind, VariableKind::Mutable);
            assert_eq!(name, "x");
            assert_eq!(*type_, Type::N64);
            match initial_value {
                Some(Expression::BinaryOperation { operator, lhs, rhs }) => {
                    assert_eq!(*operator, BinaryOperator::Add);
                    assert!(matches!(**lhs, Expression::NaturalLiteral(1)));
                    assert!(matches!(**rhs, Expression::NaturalLiteral(2)));
                }
                other => panic!("{:?}", other),
            }
        }
        other => panic!("{:?}", other),
    }
}

#[test]
fn a_missing_colon_is_named() {
    assert_eq!(failure("var x n64;"), told("Expected 'Colon' token", Some(TokenType::N64)));
}

#[test]
fn an_empty_function_body_is_a_block_without_statements() {
    let file = parse_source("function f() {}").unwrap();
    assert_eq!(file.definitions.len(), 1);
    match &file.definitions[0] {
        Definition::Function(function) => {
            assert_eq!(function.name, "f");
            assert_eq!(function.body.statements.len(), 0);
            assert!(function.body.value.is_none());
        }
        other => panic!("{:?}", other),
    }
}

#[test]
fn a_function_holds_its_statements_in_order() {
    let file =
        parse_source("function main() { var a: n64 = 1; const b: n64; var c: n64 = -2; }").unwrap();
    assert_eq!(
        format!("{:?}", file),
        "File { definitions: [Function(Function { name: \"main\", body: Block { statements: [\
         VariableDeclaration { kind: Mutable, name: \"a\", type_: N64, initial_value: Some(NaturalLiteral(1)) }, \
         VariableDeclaration { kind: Immutable, name: \"b\", type_: N64, initial_value: None }, \
         VariableDeclaration { kind: Mutable, name: \"c\", type_: N64, initial_value: Some(UnaryOperation(Minus, NaturalLiteral(2))) }\
         ], value: None } })] }"
    );
}

#[test]
fn a_file_holds_its_definitions_in_order() {
    let file = parse_source("const a: n64 = 1;\nfunction f() {}\nvar b: n64;\nfunction g() { var c: n64; }").unwrap();
    assert_eq!(file.definitions.len(), 4);
    assert!(matches!(file.definitions[0], Definition::Statement(_)));
    assert!(matches!(file.definitions[1], Definition::Function(_)));
    assert!(matches!(file.definitions[2], Definition::Statement(_)));
    match &file.definitions[3] {
        Definition::Function(function) => {
            assert_eq!(function.name, "g");
            assert_eq!(function.body.statements.len(), 1);
        }
        other => panic!("{:?}", other),
    }
}

#[test]
fn no_tokens_make_an_empty_file() {
    assert_eq!(parse_source("").unwrap().definitions.len(), 0);
    assert_eq!(parse_source("  \n ").unwrap().definitions.len(), 0);
    assert_eq!(parse(Vec::new()).unwrap().definitions.len(), 0);
}

#[test]
fn comments_are_not_seen_by_the_grammar() {
    let plain = parse_source("function f() { var x: n64 = 1 + 2; }").unwrap();
    let commented = parse_source(
        "// head\nfunction // a\n f // b\n ( // c\n ) // d\n { // e\n var // f\n x // g\n : // h\n n64 // i\n = // j\n 1 // k\n + // l\n 2 // m\n ; // n\n } // tail",
    )
    .unwrap();
    assert_eq!(format!("{:?}", commented), format!("{:?}", plain));
    assert_eq!(parse_source("// nothing else").unwrap().definitions.len(), 0);
}

#[test]
fn the_initializer_ends_at_the_first_semicolon() {
    let file = parse_source("var x: n64 = 1; var y: n64 = 2 * 3;").unwrap();
    assert_eq!(
        format!("{:?}", file.definitions),
        "[Statement(VariableDeclaration { kind: Mutable, name: \"x\", type_: N64, initial_value: Some(NaturalLiteral(1)) }), \
         Statement(VariableDeclaration { kind: Mutable, name: \"y\", type_: N64, initial_value: Some(BinaryOperation { \
         operator: Multiply, lhs: NaturalLiteral(2), rhs: NaturalLiteral(3) }) })]"
    );
}

#[test]
fn equal_tokens_in_an_initializer_do_no_harm() {
    let file = parse_source("var x: n64 = 1 + 1 + 1;").unwrap();
    assert_eq!(file.definitions.len(), 1);
    let one = Token { type_: TokenType::IntegerLiteral, start: 0, end: 1, code: "1" };
    let code = "var x: n64 = + ;";
    let mut tokens = lex(code).unwrap();
    tokens.insert(5, one);
    tokens.insert(7, one);
    let file = parse(tokens).unwrap();
    assert_eq!(
        format!("{:?}", file.definitions),
        "[Statement(VariableDeclaration { kind: Mutable, name: \"x\", type_: N64, initial_value: Some(BinaryOperation { \
         operator: Add, lhs: NaturalLiteral(1), rhs: NaturalLiteral(1) }) })]"
    );
}

#[test]
fn each_missing_token_is_told() {
    assert_eq!(failure("function"), told("Expected function name", None));
    assert_eq!(failure("function 1"), told("Expected 'Identifer' token", Some(TokenType::IntegerLiteral)));
    assert_eq!(failure("function f"), told("Expected '('", None));
    assert_eq!(failure("function f {"), told("Expected 'OpenParenthesis' token", Some(TokenType::OpenBrace)));
    assert_eq!(failure("function f("), told("Expected ')'", None));
    assert_eq!(failure("function f(x"), told("Expected 'CloseParenthesis' token", Some(TokenType::Identifer)));
    assert_eq!(failure("function f()"), told("Expected '{'", None));
    assert_eq!(failure("function f();"), told("Expected 'OpenBrace' token", Some(TokenType::Semicolon)));
    assert_eq!(failure("function f() {"), told("Expected '}'", None));
    assert_eq!(failure("function f() { var x: n64;"), told("Expected '}'", None));
    assert_eq!(failure("var"), told("Expected identifier", None));
    assert_eq!(failure("var var"), told("Expected 'Identifer' token", Some(TokenType::Var)));
    assert_eq!(failure("var x"), told("Expected ':'", None));
    assert_eq!(failure("var x:"), told("Expected type", None));
    assert_eq!(failure("var x: y"), told("Expected 'N64' token", Some(TokenType::Identifer)));
    assert_eq!(failure("var x: n64"), told("Expected '=' or ';'", None));
    assert_eq!(failure("var x: n64 +"), told("Expected 'Semicolon' token", Some(TokenType::Plus)));
    assert_eq!(failure("var x: n64 ="), told("Expected expression", None));
    assert_eq!(failure("var x: n64 = ;"), told("Expected expression", None));
    assert_eq!(failure("var x: n64 = 1"), told("Expected ';'", None));
    assert_eq!(failure("var x: n64 = 1 +;"), told("Expected expression", None));
    assert_eq!(failure("var x: n64 = 1 2;"), told("Expected 'Semicolon' token", Some(TokenType::IntegerLiteral)));
    assert_eq!(failure("var x: n64 = 1 );"), told("Expected 'Semicolon' token", Some(TokenType::CloseParenthesis)));
    assert_eq!(failure("var x: n64 = *;"), told("Unknown start of expression 'Star'", Some(TokenType::Star)));
    assert_eq!(failure("var x: n64 = 1 + x;"), told("Unknown start of expression 'Identifer'", Some(TokenType::Identifer)));
    assert_eq!(failure("1"), told("Expected any of '[Var, Const]' token", Some(TokenType::IntegerLiteral)));
    assert_eq!(failure("}"), told("Expected any of '[Var, Const]' token", Some(TokenType::CloseBrace)));
    assert_eq!(failure("function f() { 5 }"), told("Expected any of '[Var, Const]' token", Some(TokenType::IntegerLiteral)));
    assert_eq!(failure("function f() {} }"), told("Expected any of '[Var, Const]' token", Some(TokenType::CloseBrace)));
}

#[test]
fn only_the_first_failure_is_told() {
    assert_eq!(failure("var x n64 = ; function"), told("Expected 'Colon' token", Some(TokenType::N64)));
    assert_eq!(failure("var x: n64; var"), told("Expected identifier", None));
}

#[test]
fn a_literal_that_is_too_large_is_a_failure() {
    assert_eq!(
        failure("var x: n64 = 170141183460469231731687303715884105728;"),
        told(
            "Invalid number literal '170141183460469231731687303715884105728'",
            Some(TokenType::IntegerLiteral)
        )
    );
    assert_eq!(value("170141183460469231731687303715884105727"), i128::MAX);
}

#[test]
fn the_rules_fail_at_the_end_of_the_tokens() {
    let mut stream = TokenStream::new(&[]);
    assert_eq!(parse_statement(&mut stream).unwrap_err(), ParseError { message: "Expected statement".to_string(), found: None });
    assert_eq!(parse_definition(&mut stream).unwrap_err(), ParseError { message: "Expected definition".to_string(), found: None });
    assert_eq!(parse_block(&mut stream).unwrap_err(), ParseError { message: "Expected '{'".to_string(), found: None });
    assert_eq!(parse_expression(&mut stream).unwrap_err(), ParseError { message: "Expected expression".to_string(), found: None });
    assert_eq!(parse_term(&mut stream).unwrap_err(), ParseError { message: "Expected expression".to_string(), found: None });
    assert_eq!(parse_factor(&mut stream).unwrap_err(), ParseError { message: "Expected expression".to_string(), found: None });
}

#[test]
fn a_block_takes_both_braces() {
    let tokens = lex("{ var x: n64; } var").unwrap();
    let mut stream = TokenStream::new(&tokens);
    let block = parse_block(&mut stream).unwrap();
    assert_eq!(block.statements.len(), 1);
    assert!(block.value.is_none());
    assert_eq!(stream.next("").unwrap().type_, TokenType::Var);
    assert!(stream.is_end());
}

#[test]
fn a_statement_takes_its_semicolon_and_no_more() {
    let tokens = lex("var x: n64 = 1; const").unwrap();
    let mut stream = TokenStream::new(&tokens);
    assert!(parse_statement(&mut stream).is_ok());
    assert_eq!(stream.next("").unwrap().type_, TokenType::Const);
    assert!(stream.is_end());
}

#[test]
fn a_definition_is_a_function_or_a_statement() {
    let tokens = lex("function f() {} var x: n64;").unwrap();
    let mut stream = TokenStream::new(&tokens);
    assert!(matches!(parse_definition(&mut stream), Ok(Definition::Function(_))));
    assert!(matches!(parse_definition(&mut stream), Ok(Definition::Statement(_))));
    assert!(stream.is_end());
}

#[test]
fn a_lone_negative_literal_is_a_negated_literal() {
    assert_eq!(shape("-15"), "UnaryOperation(Minus, NaturalLiteral(15))");
    assert_eq!(shape("+15"), "UnaryOperation(Plus, NaturalLiteral(15))");
    assert_eq!(shape("15"), "NaturalLiteral(15)");
}

#[test]
fn signs_stack() {
    assert_eq!(shape("--5"), "UnaryOperation(Minus, UnaryOperation(Minus, NaturalLiteral(5)))");
    assert_eq!(value("--5"), 5);
    assert_eq!(value("-+-+-5"), -5);
    assert_eq!(value("2 - -3"), 5);
    assert_eq!(value("2 * -3"), -6);
    assert_eq!(value("- 2 * 3"), -6);
    assert_eq!(shape("-2 * 3"), "BinaryOperation { operator: Multiply, lhs: UnaryOperation(Minus, NaturalLiteral(2)), rhs: NaturalLiteral(3) }");
}

#[test]
fn binary_operators_group_to_the_left() {
    assert_eq!(
        shape("2 - 2 - 1"),
        "BinaryOperation { operator: Subtract, lhs: BinaryOperation { operator: Subtract, \
         lhs: NaturalLiteral(2), rhs: NaturalLiteral(2) }, rhs: NaturalLiteral(1) }"
    );
    assert_eq!(
        shape("8 / 2 * 3"),
        "BinaryOperation { operator: Multiply, lhs: BinaryOperation { operator: Divide, \
         lhs: NaturalLiteral(8), rhs: NaturalLiteral(2) }, rhs: NaturalLiteral(3) }"
    );
    assert_eq!(value("2 - 2 - 1"), -1);
    assert_eq!(value("100 - 10 - 1 + 5 - 4"), 90);
    assert_eq!(value("64 / 4 / 2"), 8);
}

#[test]
fn products_bind_tighter_than_sums() {
    assert_eq!(
        shape("1 + 2 * 3"),
        "BinaryOperation { operator: Add, lhs: NaturalLiteral(1), rhs: BinaryOperation { \
         operator: Multiply, lhs: NaturalLiteral(2), rhs: NaturalLiteral(3) } }"
    );
    assert_eq!(
        shape("1 * 2 + 3"),
        "BinaryOperation { operator: Add, lhs: BinaryOperation { operator: Multiply, \
         lhs: NaturalLiteral(1), rhs: NaturalLiteral(2) }, rhs: NaturalLiteral(3) }"
    );
    assert_eq!(value("0 + 7 * 3 + 5"), 26);
    assert_eq!(value("1 - 5"), -4);
    assert_eq!(value("8 * 0 + 4"), 4);
    assert_eq!(value("22 - 6 * 2 + 1"), 11);
    assert_eq!(value("-15"), -15);
    assert_eq!(value("2 + 12 / 3 / 2 - 1"), 3);
}

#[test]
fn a_slash_divides() {
    assert_eq!(
        shape("6 / 2"),
        "BinaryOperation { operator: Divide, lhs: NaturalLiteral(6), rhs: NaturalLiteral(2) }"
    );
    assert_eq!(value("6 / 2"), 3);
}

#[test]
fn an_expression_ends_before_what_cannot_go_on() {
    assert_eq!(expression_of("1 2").1, 1);
    assert_eq!(expression_of("1 + 2 ; 3").1, 3);
    assert_eq!(expression_of("1 * 2 )").1, 3);
    assert_eq!(expression_of("1 + 2 * 3").1, 5);
    assert_eq!(expression_of("- - 1 var").1, 3);
}

#[test]
fn a_term_leaves_the_sums() {
    let tokens = lex("2 * 3 + 4").unwrap();
    let mut stream = TokenStream::new(&tokens);
    assert_eq!(evaluate(&parse_term(&mut stream).unwrap()), 6);
    assert_eq!(stream.next("").unwrap().type_, TokenType::Plus);
}

#[test]
fn a_factor_leaves_the_products() {
    let tokens = lex("- 2 * 3").unwrap();
    let mut stream = TokenStream::new(&tokens);
    assert_eq!(evaluate(&parse_factor(&mut stream).unwrap()), -2);
    assert_eq!(stream.next("").unwrap().type_, TokenType::Star);
}

#[test]
fn a_failed_expression_tells_where_it_stopped() {
    let (result, read) = expression_of("1 + * 2");
    assert_eq!(result.unwrap_err(), ParseError { message: "Unknown start of expression 'Star'".to_string(), found: Some(TokenType::Star) });
    assert_eq!(read, 2);
    let (result, read) = expression_of("1 * - ");
    assert_eq!(result.unwrap_err(), ParseError { message: "Expected expression".to_string(), found: None });
    assert_eq!(read, 3);
}

#[test]
fn operators_are_made_from_their_tokens() {
    assert_eq!(UnaryOperator::from_token_type(TokenType::Plus), Some(UnaryOperator::Plus));
    assert_eq!(UnaryOperator::from_token_type(TokenType::Minus), Some(UnaryOperator::Minus));
    assert_eq!(UnaryOperator::from_token_type(TokenType::Star), None);
    assert_eq!(UnaryOperator::from_token_type(TokenType::Slash), None);
    assert_eq!(UnaryOperator::from_token_type(TokenType::Identifer), None);
    assert_eq!(BinaryOperator::from_token_type(TokenType::Plus), Some(BinaryOperator::Add));
    assert_eq!(BinaryOperator::from_token_type(TokenType::Minus), Some(BinaryOperator::Subtract));
    assert_eq!(BinaryOperator::from_token_type(TokenType::Star), Some(BinaryOperator::Multiply));
    assert_eq!(BinaryOperator::from_token_type(TokenType::Slash), Some(BinaryOperator::Divide));
    assert_eq!(BinaryOperator::from_token_type(TokenType::Equals), None);
    assert_eq!(BinaryOperator::from_token_type(TokenType::IntegerLiteral), None);
}

#[test]
fn errors_are_made_of_message_and_kind() {
    assert_eq!(ParseError::at_end("Expected x"), ParseError { message: "Expected x".to_string(), found: None });
    assert_eq!(
        ParseError::at_token("Expected y".to_string(), TokenType::Colon),
        ParseError { message: "Expected y".to_string(), found: Some(TokenType::Colon) }
    );
}

fn write_expression(expression: &Expression, words: &mut Vec<String>) {
    match expression {
        Expression::NaturalLiteral(value) => words.push(value.to_string()),
        Expression::UnaryOperation(operator, operand) => {
            words.push(
                match operator {
                    UnaryOperator::Minus => "-",
                    _ => "+",
                }
                .to_string(),
            );
            write_expression(operand, words);
        }
        Expression::BinaryOperation { operator, lhs, rhs } => {
            write_expression(lhs, words);
            words.push(
                match operator {
                    BinaryOperator::Add => "+",
                    BinaryOperator::Subtract => "-",
                    BinaryOperator::Multiply => "*",
                    BinaryOperator::Divide => "/",
                }
                .to_string(),
            );
            write_expression(rhs, words);
        }
    }
}

fn write_statement(statement: &Statement, words: &mut Vec<String>) {
    match statement {
        Statement::Expression(expression) => write_expression(expression, words),
        Statement::VariableDeclaration { kind, name, initial_value, .. } => {
            words.push(
                match kind {
                    VariableKind::Immutable => "const",
                    VariableKind::Mutable => "var",
                }
                .to_string(),
            );
            words.push(name.clone());
            words.push(":".to_string());
            words.push("n64".to_string());
            if let Some(value) = initial_value {
                words.push("=".to_string());
                write_expression(value, words);
            }
            words.push(";".to_string());
        }
    }
}

fn write_file(file: &File) -> Vec<String> {
    let mut words = Vec::new();
    for definition in &file.definitions {
        match definition {
            Definition::Statement(statement) => write_statement(statement, &mut words),
            Definition::Function(function) => {
                words.push("function".to_string());
                words.push(function.name.clone());
                words.push("(".to_string());
                words.push(")".to_string());
                words.push("{".to_string());
                for statement in &function.body.statements {
                    write_statement(statement, &mut words);
                }
                assert!(function.body.value.is_none());
                words.push("}".to_string());
            }
        }
    }
    words
}

#[test]
fn a_file_that_is_read_writes_its_tokens() {
    let sources = [
        "",
        "const x: n64;",
        "var x: n64 = 1 + 2 * -3 / 4 - +5 - 6;",
        "// head\nfunction main() { // a\n var a: n64 = --1; const b_2: n64; }\nvar c: n64 = 7*8;",
        "function f() {} function g() {} const last: n64 = 1 - 2 - 3 * 4 * 5;",
    ];
    for source in sources {
        let tokens = lex(source).unwrap();
        let lexemes: Vec<String> = tokens
            .iter()
            .filter(|token| token.type_ != TokenType::Comment)
            .map(|token| token.text().to_string())
            .collect();
        assert_eq!(write_file(&parse(tokens).unwrap()), lexemes, "{:?}", source);
    }
}

#[test]
fn a_long_file_is_read() {
    let mut source = String::new();
    for index in 0..300 {
        source.push_str(&format!("var name_{index}: n64 = {index} + 2 * {index}; // line {index}\n"));
    }
    let tokens = lex(&source).unwrap();
    assert_eq!(tokens.len(), 300 * 12);
    let file = parse(tokens).unwrap();
    assert_eq!(file.definitions.len(), 300);
    assert_eq!(
        format!("{:?}", file.definitions[299]),
        "Statement(VariableDeclaration { kind: Mutable, name: \"name_299\", type_: N64, \
         initial_value: Some(BinaryOperation { operator: Add, lhs: NaturalLiteral(299), \
         rhs: BinaryOperation { operator: Multiply, lhs: NaturalLiteral(2), rhs: NaturalLiteral(299) } }) })"
    );
}
