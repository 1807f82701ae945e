use powder_bootstrap::error::LexError;
use powder_bootstrap::lexer::lex;
use powder_bootstrap::lexer::LexerState;
use powder_bootstrap::lexer::Token;
use powder_bootstrap::lexer::TokenType;

fn kinds(code: &str) -> Vec<TokenType> {
    lex(code).unwrap().iter().map(|token| token.type_).collect()
}

fn spans(code: &str) -> Vec<(TokenType, usize, usize)> {
    lex(code).unwrap().iter().map(|token| (token.type_, token.start, token.end)).collect()
}

fn lexemes(code: &str) -> Vec<String> {
    lex(code).unwrap().iter().map(|token| token.text().to_string()).collect()
}

#[test]
fn keywords_are_told_from_identifiers() {
    assert_eq!(
        kinds("function const var n64 foo _x"),
        vec![
            TokenType::Function,
            TokenType::Const,
            TokenType::Var,
            TokenType::N64,
            TokenType::Identifer,
            TokenType::Identifer,
        ]
    );
}

#[test]
fn a_keyword_with_more_letters_is_an_identifier() {
    assert_eq!(
        kinds("variable vars constant n640 functions Var"),
        vec![TokenType::Identifer; 6]
    );
    assert_eq!(kinds("va"), vec![TokenType::Identifer]);
}

#[test]
fn every_symbol_has_its_kind() {
    assert_eq!(
        kinds("(){}:=;+-*/"),
        vec![
            TokenType::OpenParenthesis,
            TokenType::CloseParenthesis,
            TokenType::OpenBrace,
            TokenType::CloseBrace,
            TokenType::Colon,
            TokenType::Equals,
            TokenType::Semicolon,
            TokenType::Plus,
            TokenType::Minus,
            TokenType::Star,
            TokenType::Slash,
        ]
    );
}

#[test]
fn spans_are_exact() {
    assert_eq!(
        spans("var x: n64 = 12;"),
        vec![
            (TokenType::Var, 0, 3),
            (TokenType::Identifer, 4, 5),
            (TokenType::Colon, 5, 6),
            (TokenType::N64, 7, 10),
            (TokenType::Equals, 11, 12),
            (TokenType::IntegerLiteral, 13, 15),
            (TokenType::Semicolon, 15, 16),
        ]
    );
}

#[test]
fn every_token_refers_to_the_source() {
    let code = "var x: n64;";
    for token in lex(code).unwrap() {
        assert_eq!(token.code, code);
        assert!(token.is_valid());
    }
}

#[test]
fn a_comment_runs_to_the_end_of_the_line() {
    assert_eq!(
        spans("// hi\nvar"),
        vec![(TokenType::Comment, 0, 5), (TokenType::Var, 6, 9)]
    );
    assert_eq!(lexemes("// hi\nvar"), vec!["// hi", "var"]);
}

#[test]
fn a_comment_may_end_the_text() {
    assert_eq!(spans("x //"), vec![(TokenType::Identifer, 0, 1), (TokenType::Comment, 2, 4)]);
    assert_eq!(spans("//"), vec![(TokenType::Comment, 0, 2)]);
    assert_eq!(spans("// a // b"), vec![(TokenType::Comment, 0, 9)]);
}

#[test]
fn a_lone_slash_is_a_symbol() {
    assert_eq!(
        spans("6 / 2"),
        vec![
            (TokenType::IntegerLiteral, 0, 1),
            (TokenType::Slash, 2, 3),
            (TokenType::IntegerLiteral, 4, 5),
        ]
    );
    assert_eq!(spans("/"), vec![(TokenType::Slash, 0, 1)]);
    assert_eq!(spans("/ /"), vec![(TokenType::Slash, 0, 1), (TokenType::Slash, 2, 3)]);
    assert_eq!(spans("/\n/"), vec![(TokenType::Slash, 0, 1), (TokenType::Slash, 2, 3)]);
}

#[test]
fn three_slashes_are_one_comment() {
    assert_eq!(spans("///"), vec![(TokenType::Comment, 0, 3)]);
}

#[test]
fn digits_make_one_literal() {
    assert_eq!(spans("0042"), vec![(TokenType::IntegerLiteral, 0, 4)]);
    assert_eq!(
        spans("12ab"),
        vec![(TokenType::IntegerLiteral, 0, 2), (TokenType::Identifer, 2, 4)]
    );
    assert_eq!(
        spans("0x1F"),
        vec![(TokenType::IntegerLiteral, 0, 1), (TokenType::Identifer, 1, 4)]
    );
}

#[test]
fn a_word_holds_digits_and_underscores() {
    assert_eq!(spans("a_1b2"), vec![(TokenType::Identifer, 0, 5)]);
    assert_eq!(spans("_"), vec![(TokenType::Identifer, 0, 1)]);
    assert_eq!(spans("__9"), vec![(TokenType::Identifer, 0, 3)]);
    assert_eq!(
        spans("a-b"),
        vec![(TokenType::Identifer, 0, 1), (TokenType::Minus, 1, 2), (TokenType::Identifer, 2, 3)]
    );
}

#[test]
fn a_word_goes_on_over_letters_of_any_script() {
    assert_eq!(spans("x\u{e9}1 y"), vec![(TokenType::Identifer, 0, 3), (TokenType::Identifer, 4, 5)]);
    assert_eq!(lexemes("x\u{e9}1 y"), vec!["x\u{e9}1", "y"]);
    assert_eq!(spans("a\u{664}"), vec![(TokenType::Identifer, 0, 2)]);
}

#[test]
fn a_word_begins_with_an_ascii_letter_only() {
    assert_eq!(lex("\u{e9}").unwrap_err(), LexError { character: '\u{e9}', position: 0 });
    assert_eq!(lex("x \u{e9}x").unwrap_err(), LexError { character: '\u{e9}', position: 2 });
}

#[test]
fn whitespace_of_any_kind_is_skipped() {
    assert_eq!(
        spans(" \t\r\n\u{a0}x\u{2003}\u{3000}y\u{85}"),
        vec![(TokenType::Identifer, 5, 6), (TokenType::Identifer, 8, 9)]
    );
}

#[test]
fn no_text_gives_no_tokens() {
    assert_eq!(lex("").unwrap().len(), 0);
    assert_eq!(lex(" \n\t ").unwrap().len(), 0);
}

#[test]
fn an_unknown_character_fails_with_its_offset() {
    assert_eq!(lex("#").unwrap_err(), LexError { character: '#', position: 0 });
    assert_eq!(lex("var #").unwrap_err(), LexError { character: '#', position: 4 });
    assert_eq!(lex("var x;\n  @ 1").unwrap_err(), LexError { character: '@', position: 9 });
    assert_eq!(lex("1 $ #").unwrap_err(), LexError { character: '$', position: 2 });
}

#[test]
fn offsets_count_characters() {
    assert_eq!(lex("\u{2003}\u{2003}#").unwrap_err(), LexError { character: '#', position: 2 });
    let code = "x\u{e9}\u{e9} = 1";
    let tokens = lex(code).unwrap();
    assert_eq!((tokens[1].type_, tokens[1].start, tokens[1].end), (TokenType::Equals, 4, 5));
    assert_eq!(tokens[0].text(), "x\u{e9}\u{e9}");
    assert_eq!(tokens[2].text(), "1");
}

fn is_whitespace_only(text: &[char]) -> bool {
    text.iter().all(|character| character.is_whitespace())
}

#[test]
fn nothing_of_the_text_is_lost() {
    let code = "  // first\nfunction main() {\n\tvar x: n64 = 1 + 2 * 3; // c\n}\n\n const y:n64;/";
    let text: Vec<char> = code.chars().collect();
    let tokens = lex(code).unwrap();
    let mut rebuilt = String::new();
    let mut position = 0;
    for token in &tokens {
        assert!(position <= token.start);
        assert!(token.start < token.end);
        assert!(token.end <= text.len());
        assert!(is_whitespace_only(&text[position..token.start]));
        rebuilt.extend(&text[position..token.start]);
        rebuilt.push_str(token.text());
        position = token.end;
    }
    assert!(is_whitespace_only(&text[position..]));
    rebuilt.extend(&text[position..]);
    assert_eq!(rebuilt, code);
    assert_eq!(tokens.len(), 25);
}

#[test]
fn lexemes_one_to_a_line_read_as_the_same_tokens() {
    let code = "// first\nfunction main(){var x1:n64=1+2*3/4-5;}// last";
    let first = lex(code).unwrap();
    let mut lines = String::new();
    for token in &first {
        lines.push_str(token.text());
        lines.push('\n');
    }
    let second = lex(&lines).unwrap();
    assert_eq!(second.len(), first.len());
    for (one, other) in first.iter().zip(second.iter()) {
        assert_eq!(one.type_, other.type_);
        assert_eq!(one.text(), other.text());
    }
    assert_eq!(first.len(), 23);
}

#[test]
fn from_keyword_knows_the_keywords() {
    assert_eq!(TokenType::from_keyword("function"), Some(TokenType::Function));
    assert_eq!(TokenType::from_keyword("const"), Some(TokenType::Const));
    assert_eq!(TokenType::from_keyword("var"), Some(TokenType::Var));
    assert_eq!(TokenType::from_keyword("n64"), Some(TokenType::N64));
    assert_eq!(TokenType::from_keyword("vax"), None);
    assert_eq!(TokenType::from_keyword(""), None);
    assert_eq!(TokenType::from_keyword("VAR"), None);
    assert_eq!(TokenType::from_keyword("var "), None);
}

#[test]
fn from_symbol_knows_the_symbols() {
    assert_eq!(TokenType::from_symbol('('), Some(TokenType::OpenParenthesis));
    assert_eq!(TokenType::from_symbol(')'), Some(TokenType::CloseParenthesis));
    assert_eq!(TokenType::from_symbol('{'), Some(TokenType::OpenBrace));
    assert_eq!(TokenType::from_symbol('}'), Some(TokenType::CloseBrace));
    assert_eq!(TokenType::from_symbol(':'), Some(TokenType::Colon));
    assert_eq!(TokenType::from_symbol('='), Some(TokenType::Equals));
    assert_eq!(TokenType::from_symbol(';'), Some(TokenType::Semicolon));
    assert_eq!(TokenType::from_symbol('+'), Some(TokenType::Plus));
    assert_eq!(TokenType::from_symbol('-'), Some(TokenType::Minus));
    assert_eq!(TokenType::from_symbol('*'), Some(TokenType::Star));
    assert_eq!(TokenType::from_symbol('/'), Some(TokenType::Slash));
    assert_eq!(TokenType::from_symbol('#'), None);
    assert_eq!(TokenType::from_symbol('a'), None);
    assert_eq!(TokenType::from_symbol(' '), None);
}

#[test]
fn a_kind_is_named_as_it_is_written() {
    let all = [
        TokenType::Comment,
        TokenType::Function,
        TokenType::Const,
        TokenType::Var,
        TokenType::N64,
        TokenType::Identifer,
        TokenType::IntegerLiteral,
        TokenType::OpenParenthesis,
        TokenType::CloseParenthesis,
        TokenType::OpenBrace,
        TokenType::CloseBrace,
        TokenType::Colon,
        TokenType::Equals,
        TokenType::Semicolon,
        TokenType::Plus,
        TokenType::Minus,
        TokenType::Star,
        TokenType::Slash,
    ];
    for kind in all {
        assert_eq!(kind.name(), format!("{:?}", kind));
    }
}

fn token(type_: TokenType, start: usize, end: usize, code: &str) -> Token<'_> {
    Token { type_, start, end, code }
}

#[test]
fn text_is_the_span_of_the_source() {
    assert_eq!(token(TokenType::Identifer, 4, 7, "var abc;").text(), "abc");
    assert_eq!(token(TokenType::Identifer, 0, 0, "var").text(), "");
    assert_eq!(token(TokenType::Identifer, 3, 3, "var").text(), "");
    assert_eq!(token(TokenType::Identifer, 1, 3, "\u{e9}\u{e8}\u{ea}").text(), "\u{e8}\u{ea}");
}

#[test]
fn is_valid_tells_spans_inside_the_source() {
    assert!(token(TokenType::Var, 0, 3, "var").is_valid());
    assert!(token(TokenType::Var, 3, 3, "var").is_valid());
    assert!(!token(TokenType::Var, 0, 4, "var").is_valid());
    assert!(!token(TokenType::Var, 2, 1, "var").is_valid());
    assert!(token(TokenType::Var, 0, 2, "\u{e9}\u{e9}").is_valid());
    assert!(!token(TokenType::Var, 0, 3, "\u{e9}\u{e9}").is_valid());
}

#[test]
fn a_token_is_written_as_kind_and_lexeme() {
    assert_eq!(token(TokenType::Var, 0, 3, "var x").to_string(), "Var(var)");
    assert_eq!(token(TokenType::IntegerLiteral, 2, 4, "a 12").to_string(), "IntegerLiteral(12)");
}

#[test]
fn expect_passes_the_token_of_the_kind() {
    let colon = token(TokenType::Colon, 1, 2, "x:");
    assert_eq!(colon.expect(TokenType::Colon), Ok(colon));
}

#[test]
fn expect_names_the_kind_that_is_missing() {
    let error = token(TokenType::N64, 2, 5, "x n64").expect(TokenType::Colon).unwrap_err();
    assert_eq!(error.message, "Expected 'Colon' token");
    assert_eq!(error.found, Some(TokenType::N64));
}

#[test]
fn expect_any_passes_a_token_of_one_of_the_kinds() {
    let var = token(TokenType::Var, 0, 3, "var");
    assert_eq!(var.expect_any(&[TokenType::Var, TokenType::Const]), Ok(var));
    assert_eq!(var.expect_any(&[TokenType::Const, TokenType::Var]), Ok(var));
    assert_eq!(var.expect_any(&[TokenType::Var]), Ok(var));
}

#[test]
fn expect_any_names_the_kinds_that_are_missing() {
    let plus = token(TokenType::Plus, 0, 1, "+");
    let error = plus.expect_any(&[TokenType::Var, TokenType::Const]).unwrap_err();
    assert_eq!(error.message, "Expected any of '[Var, Const]' token");
    assert_eq!(error.found, Some(TokenType::Plus));
    let error = plus.expect_any(&[TokenType::Star]).unwrap_err();
    assert_eq!(error.message, "Expected any of '[Star]' token");
    let error = plus.expect_any(&[]).unwrap_err();
    assert_eq!(error.message, "Expected any of '[]' token");
    let error = plus.expect_any(&[TokenType::N64, TokenType::Colon, TokenType::Slash]).unwrap_err();
    assert_eq!(error.message, format!("Expected any of '{:?}' token", [TokenType::N64, TokenType::Colon, TokenType::Slash]));
}

#[test]
fn tokens_are_equal_when_all_they_hold_is() {
    let one = token(TokenType::Plus, 1, 2, "1+1");
    let owned = String::from("1+1");
    assert!(one == token(TokenType::Plus, 1, 2, &owned));
    assert!(one != token(TokenType::Minus, 1, 2, "1+1"));
    assert!(one != token(TokenType::Plus, 0, 2, "1+1"));
    assert!(one != token(TokenType::Plus, 1, 3, "1+1"));
    assert!(one != token(TokenType::Plus, 1, 2, "2+2"));
    assert!(one != token(TokenType::Plus, 1, 2, "1+11"));
}

#[test]
fn the_cursor_knows_its_end() {
    assert!(LexerState { code: "", current_position: 0 }.is_end());
    assert!(!LexerState { code: "ab", current_position: 1 }.is_end());
    assert!(LexerState { code: "ab", current_position: 2 }.is_end());
    assert!(LexerState { code: "ab", current_position: 3 }.is_end());
    assert!(!LexerState { code: "\u{e9}\u{e9}", current_position: 1 }.is_end());
    assert!(LexerState { code: "\u{e9}\u{e9}", current_position: 2 }.is_end());
}

#[test]
fn the_cursor_shows_characters() {
    let state = LexerState { code: "a\u{e9}c", current_position: 1 };
    assert_eq!(state.current_char(), '\u{e9}');
    assert_eq!(state.next_char(0), Some('\u{e9}'));
    assert_eq!(state.next_char(1), Some('c'));
    assert_eq!(state.next_char(2), None);
    assert_eq!(state.next_char(usize::MAX), None);
    assert_eq!(LexerState { code: "abc", current_position: 7 }.next_char(0), None);
}

#[test]
fn the_cursor_skips_whitespace() {
    let mut state = LexerState { code: " \t\nx y", current_position: 0 };
    assert_eq!(state.skip_whitespace().current_position, 3);
    assert_eq!(state.skip_whitespace().current_position, 3);
    state.current_position = 4;
    assert_eq!(state.skip_whitespace().current_position, 5);
    let mut state = LexerState { code: "  ", current_position: 0 };
    assert_eq!(state.skip_whitespace().current_position, 2);
    let mut state = LexerState { code: "  ", current_position: 9 };
    assert_eq!(state.skip_whitespace().current_position, 9);
}

#[test]
fn the_cursor_reads_runs() {
    let mut state = LexerState { code: "aaab", current_position: 1 };
    assert_eq!(state.next_of_kind(|character| *character == 'a'), "aa");
    assert_eq!(state.current_position, 3);
    assert_eq!(state.next_of_kind(|character| *character == 'a'), "");
    assert_eq!(state.current_position, 3);
    assert_eq!(state.next_of_kind(|_| true), "b");
    assert_eq!(state.current_position, 4);
    assert_eq!(state.next_of_kind(|_| true), "");
}

#[test]
fn the_cursor_reads_words_and_numbers() {
    let mut state = LexerState { code: "ab_1\u{e9} 123x", current_position: 0 };
    assert_eq!(state.next_word(), "ab_1\u{e9}");
    assert_eq!(state.current_position, 5);
    assert_eq!(state.next_word(), "");
    assert_eq!(state.next_number_sequence(), "");
    state.current_position = 6;
    assert_eq!(state.next_number_sequence(), "123");
    assert_eq!(state.current_position, 9);
    assert_eq!(state.next_word(), "x");
    assert_eq!(state.current_position, 10);
}

#[test]
fn the_cursor_advances_by_one() {
    let mut state = LexerState { code: "ab", current_position: 0 };
    assert_eq!(state.advance().map(|same| same.current_position), Some(1));
    assert!(state.advance().is_none());
    assert_eq!(state.current_position, 2);
    assert!(state.advance().is_none());
    assert_eq!(state.current_position, 3);
}
