//! What a syntax tree writes, and that a file which is read writes the very
//! tokens that it was read from: nothing is passed over, nothing is made up.

use vstd::prelude::*;

use crate::ast::BlockView;
use crate::ast::DefinitionView;
use crate::ast::Expression;
use crate::ast::FileView;
use crate::ast::FunctionView;
use crate::ast::StatementView;
use crate::ast::VariableKind;
use crate::grammar::block;
use crate::grammar::definition;
use crate::grammar::definitions;
use crate::grammar::expected_any_token;
use crate::grammar::expected_token;
use crate::grammar::expression;
use crate::grammar::file;
use crate::grammar::first_of_kind;
use crate::grammar::function_after_keyword;
use crate::grammar::initializer;
use crate::grammar::lemma_definition_advances;
use crate::grammar::lemma_expression_advances;
use crate::grammar::lemma_first_match_is_first;
use crate::grammar::lemma_statement_advances;
use crate::grammar::lemma_statements_advance;
use crate::grammar::statement;
use crate::grammar::statements;
use crate::lexer::Token;
use crate::lexer::TokenType;
use crate::shape::is_sum;
use crate::shape::lemma_expression_shape;
use crate::shape::lemma_words_join;
use crate::shape::Word;
use crate::shape::word_of;
use crate::shape::words;
use crate::shape::written;

verus! {

/// The keyword that declares a variable of the kind.
pub open spec fn variable_keyword(kind: VariableKind) -> TokenType {
    match kind {
        VariableKind::Immutable => TokenType::Const,
        VariableKind::Mutable => TokenType::Var,
    }
}

/// The words of an expression that may be absent.
pub open spec fn written_or_nothing(expression: Option<Expression>) -> Seq<Word> {
    match expression {
        Some(value) => written(value),
        None => Seq::empty(),
    }
}

/// The words of an initial value: `=` and the expression, or nothing.
pub open spec fn written_initial_value(initial_value: Option<Expression>) -> Seq<Word> {
    match initial_value {
        Some(value) => seq![Word::Symbol(TokenType::Equals)] + written(value),
        None => Seq::empty(),
    }
}

/// The words that write `statement`.
pub open spec fn written_statement(statement: StatementView) -> Seq<Word> {
    match statement {
        StatementView::Expression(expression) => written(expression),
        StatementView::VariableDeclaration { kind, name, type_, initial_value } => seq![
            Word::Symbol(variable_keyword(kind)),
            Word::Name(name),
            Word::Symbol(TokenType::Colon),
            Word::Symbol(TokenType::N64),
        ] + written_initial_value(initial_value) + seq![Word::Symbol(TokenType::Semicolon)],
    }
}

/// The words that write the statements of `list`, one after the other.
pub open spec fn written_statements(list: Seq<StatementView>) -> Seq<Word>
    decreases list.len(),
{
    if list.len() == 0 {
        Seq::empty()
    } else {
        written_statement(list[0]) + written_statements(list.drop_first())
    }
}

/// The words that write `block`, braces and all.
pub open spec fn written_block(block: BlockView) -> Seq<Word> {
    seq![Word::Symbol(TokenType::OpenBrace)] + written_statements(block.statements)
        + written_or_nothing(block.value) + seq![Word::Symbol(TokenType::CloseBrace)]
}

/// The words that write `function`.
pub open spec fn written_function(function: FunctionView) -> Seq<Word> {
    seq![
        Word::Symbol(TokenType::Function),
        Word::Name(function.name),
        Word::Symbol(TokenType::OpenParenthesis),
        Word::Symbol(TokenType::CloseParenthesis),
    ] + written_block(function.body)
}

/// The words that write `definition`.
pub open spec fn written_definition(definition: DefinitionView) -> Seq<Word> {
    match definition {
        DefinitionView::Function(function) => written_function(function),
        DefinitionView::Statement(statement) => written_statement(statement),
    }
}

/// The words that write the definitions of `list`, one after the other.
pub open spec fn written_definitions(list: Seq<DefinitionView>) -> Seq<Word>
    decreases list.len(),
{
    if list.len() == 0 {
        Seq::empty()
    } else {
        written_definition(list[0]) + written_definitions(list.drop_first())
    }
}

/// The words that write `file`.
pub open spec fn written_file(file: FileView) -> Seq<Word> {
    written_definitions(file.definitions)
}

/// What the grammar gives as a statement: a declaration whose initial value,
/// if it has one, has the shape of an expression.
pub open spec fn is_declaration(statement: StatementView) -> bool {
    match statement {
        StatementView::Expression(_) => false,
        StatementView::VariableDeclaration { initial_value, .. } => match initial_value {
            Some(value) => is_sum(value),
            None => true,
        },
    }
}

/// Each of `list` is a declaration.
pub open spec fn are_declarations(list: Seq<StatementView>) -> bool {
    forall|i: int| 0 <= i < list.len() ==> is_declaration(#[trigger] list[i])
}

/// What the grammar gives as a block: declarations, and no trailing value.
pub open spec fn is_block(block: BlockView) -> bool {
    block.value is None && are_declarations(block.statements)
}

/// What the grammar gives as a definition.
pub open spec fn is_definition(definition: DefinitionView) -> bool {
    match definition {
        DefinitionView::Function(function) => is_block(function.body),
        DefinitionView::Statement(statement) => is_declaration(statement),
    }
}

/// Each of `list` is what the grammar gives as a definition.
pub open spec fn are_definitions(list: Seq<DefinitionView>) -> bool {
    forall|i: int| 0 <= i < list.len() ==> is_definition(#[trigger] list[i])
}

/// What the grammar gives as a file.
pub open spec fn is_file(file: FileView) -> bool {
    are_definitions(file.definitions)
}

/// A token that was expected and found is the one token read, and says its
/// kind; an identifier says its lexeme.
proof fn lemma_expected_word<'a>(
    tokens: Seq<Token<'a>>,
    index: int,
    kind: TokenType,
    message: Seq<char>,
)
    requires
        0 <= index,
        kind != TokenType::IntegerLiteral,
        expected_token(tokens, index, kind, message).result is Ok,
    ensures
        index < tokens.len(),
        expected_token(tokens, index, kind, message).index == index + 1,
        expected_token(tokens, index, kind, message).result->Ok_0 == tokens[index],
        tokens[index].type_ == kind,
        words(tokens, index, index + 1) == seq![
            if kind == TokenType::Identifer {
                Word::Name(tokens[index].lexeme())
            } else {
                Word::Symbol(kind)
            },
        ],
{
    assert(words(tokens, index, index + 1) =~= seq![word_of(tokens[index])]);
}

/// An initial value that is read has the shape of an expression and writes
/// the tokens that it was read from.
proof fn lemma_initializer_written<'a>(tokens: Seq<Token<'a>>, index: int)
    requires
        0 <= index <= tokens.len(),
    ensures
        initializer(tokens, index).result matches Ok(initial_value) ==> {
            &&& initial_value matches Some(value) ==> is_sum(value)
            &&& words(tokens, index, initializer(tokens, index).index) == written_initial_value(
                initial_value,
            ) + seq![Word::Symbol(TokenType::Semicolon)]
        },
{
    if index < tokens.len() {
        if tokens[index].type_ == TokenType::Equals {
            let wanted = |token: Token<'a>| token.type_ == TokenType::Semicolon;
            lemma_first_match_is_first(tokens, index + 1, wanted);
            let stop = first_of_kind(tokens, index + 1, TokenType::Semicolon);
            let inner = tokens.subrange(index + 1, stop);
            let value = expression(inner, 0);
            lemma_expression_advances(inner, 0);
            lemma_expression_shape(inner, 0);
            if let Ok(read) = value.result {
                let after = index + 1 + value.index;
                if expected_token(tokens, after, TokenType::Semicolon, "Expected ';'"@).result is Ok {
                    lemma_expected_word(tokens, after, TokenType::Semicolon, "Expected ';'"@);
                    assert(words(inner, 0, value.index) =~= words(tokens, index + 1, after));
                    assert(words(tokens, index, index + 1) =~= seq![
                        Word::Symbol(TokenType::Equals),
                    ]);
                    lemma_words_join(tokens, index, index + 1, after + 1);
                    lemma_words_join(tokens, index + 1, after, after + 1);
                }
            }
        } else if tokens[index].type_ == TokenType::Semicolon {
            assert(words(tokens, index, index + 1) =~= seq![Word::Symbol(TokenType::Semicolon)]);
            assert(written_initial_value(None) + seq![Word::Symbol(TokenType::Semicolon)] =~= seq![
                Word::Symbol(TokenType::Semicolon),
            ]);
        }
    }
}

/// A statement that is read is a declaration and writes the tokens that it
/// was read from.
pub proof fn lemma_statement_written<'a>(tokens: Seq<Token<'a>>, index: int)
    requires
        0 <= index <= tokens.len(),
    ensures
        statement(tokens, index).result matches Ok(read) ==> {
            &&& is_declaration(read)
            &&& written_statement(read) == words(tokens, index, statement(tokens, index).index)
        },
{
    let keyword = expected_any_token(
        tokens,
        index,
        seq![TokenType::Var, TokenType::Const],
        "Expected statement"@,
    );
    if let Ok(read) = statement(tokens, index).result {
        let name = expected_token(
            tokens,
            keyword.index,
            TokenType::Identifer,
            "Expected identifier"@,
        );
        let colon = expected_token(tokens, name.index, TokenType::Colon, "Expected ':'"@);
        let type_ = expected_token(tokens, colon.index, TokenType::N64, "Expected type"@);
        let value = initializer(tokens, type_.index);
        lemma_expected_word(tokens, index + 1, TokenType::Identifer, "Expected identifier"@);
        lemma_expected_word(tokens, index + 2, TokenType::Colon, "Expected ':'"@);
        lemma_expected_word(tokens, index + 3, TokenType::N64, "Expected type"@);
        lemma_initializer_written(tokens, index + 4);
        lemma_statement_advances(tokens, index);
        let kind = tokens[index].type_;
        assert(kind == TokenType::Var || kind == TokenType::Const) by {
            let kinds = seq![TokenType::Var, TokenType::Const];
            assert(kinds.contains(kind));
            let at = choose|i: int| 0 <= i < kinds.len() && kinds[i] == kind;
            assert(kinds[at] == kind);
        }
        assert(words(tokens, index, index + 1) =~= seq![Word::Symbol(kind)]);
        lemma_words_join(tokens, index, index + 1, value.index);
        lemma_words_join(tokens, index + 1, index + 2, value.index);
        lemma_words_join(tokens, index + 2, index + 3, value.index);
        lemma_words_join(tokens, index + 3, index + 4, value.index);
        assert(written_statement(read) =~= words(tokens, index, value.index));
    }
}

/// Statements that are read are declarations and write the tokens that they
/// were read from.
proof fn lemma_statements_written<'a>(tokens: Seq<Token<'a>>, index: int)
    requires
        0 <= index <= tokens.len(),
    ensures
        statements(tokens, index).result matches Ok(read) ==> {
            &&& are_declarations(read)
            &&& written_statements(read) == words(tokens, index, statements(tokens, index).index)
        },
    decreases tokens.len() - index,
{
    if index < tokens.len() && tokens[index].type_ != TokenType::CloseBrace {
        let first = statement(tokens, index);
        lemma_statement_advances(tokens, index);
        lemma_statement_written(tokens, index);
        if let Ok(one) = first.result {
            lemma_statements_written(tokens, first.index);
            lemma_statements_advance(tokens, first.index);
            let rest = statements(tokens, first.index);
            if let Ok(more) = rest.result {
                let read = seq![one] + more;
                assert(read.drop_first() =~= more);
                lemma_words_join(tokens, index, first.index, rest.index);
                assert forall|i: int| 0 <= i < read.len() implies is_declaration(
                    #[trigger] read[i],
                ) by {
                    if i > 0 {
                        assert(read[i] == more[i - 1]);
                    }
                }
            }
        }
    } else {
        assert(words(tokens, index, index) =~= Seq::<Word>::empty());
    }
}

/// A block that is read holds declarations and no trailing value, and
/// writes the tokens that it was read from.
pub proof fn lemma_block_written<'a>(tokens: Seq<Token<'a>>, index: int)
    requires
        0 <= index <= tokens.len(),
    ensures
        block(tokens, index).result matches Ok(read) ==> {
            &&& index < block(tokens, index).index <= tokens.len()
            &&& is_block(read)
            &&& written_block(read) == words(tokens, index, block(tokens, index).index)
        },
{
    if let Ok(read) = block(tokens, index).result {
        lemma_expected_word(tokens, index, TokenType::OpenBrace, "Expected '{'"@);
        let list = statements(tokens, index + 1);
        lemma_statements_advance(tokens, index + 1);
        lemma_statements_written(tokens, index + 1);
        lemma_expected_word(tokens, list.index, TokenType::CloseBrace, "Expected '}'"@);
        lemma_words_join(tokens, index, index + 1, list.index + 1);
        lemma_words_join(tokens, index + 1, list.index, list.index + 1);
        assert(written_block(read) =~= words(tokens, index, list.index + 1));
    }
}

/// A definition that is read has the shape that the grammar gives, and
/// writes the tokens that it was read from.
pub proof fn lemma_definition_written<'a>(tokens: Seq<Token<'a>>, index: int)
    requires
        0 <= index <= tokens.len(),
    ensures
        definition(tokens, index).result matches Ok(read) ==> {
            &&& is_definition(read)
            &&& written_definition(read) == words(tokens, index, definition(tokens, index).index)
        },
{
    if index < tokens.len() {
        if tokens[index].type_ == TokenType::Function {
            if let Ok(read) = function_after_keyword(tokens, index + 1).result {
                lemma_expected_word(
                    tokens,
                    index + 1,
                    TokenType::Identifer,
                    "Expected function name"@,
                );
                lemma_expected_word(tokens, index + 2, TokenType::OpenParenthesis, "Expected '('"@);
                lemma_expected_word(tokens, index + 3, TokenType::CloseParenthesis, "Expected ')'"@);
                lemma_block_written(tokens, index + 4);
                let end = block(tokens, index + 4).index;
                assert(words(tokens, index, index + 1) =~= seq![Word::Symbol(TokenType::Function)]);
                lemma_words_join(tokens, index, index + 1, end);
                lemma_words_join(tokens, index + 1, index + 2, end);
                lemma_words_join(tokens, index + 2, index + 3, end);
                lemma_words_join(tokens, index + 3, index + 4, end);
                assert(written_function(read) =~= words(tokens, index, end));
            }
        } else {
            lemma_statement_written(tokens, index);
        }
    }
}

/// Definitions that are read to the end write the tokens from where the
/// reading began to the end.
proof fn lemma_definitions_written<'a>(tokens: Seq<Token<'a>>, index: int)
    requires
        0 <= index <= tokens.len(),
    ensures
        definitions(tokens, index) matches Ok(read) ==> {
            &&& are_definitions(read)
            &&& written_definitions(read) == words(tokens, index, tokens.len() as int)
        },
    decreases tokens.len() - index,
{
    if index < tokens.len() {
        let first = definition(tokens, index);
        lemma_definition_advances(tokens, index);
        lemma_definition_written(tokens, index);
        if let Ok(one) = first.result {
            lemma_definitions_written(tokens, first.index);
            if let Ok(more) = definitions(tokens, first.index) {
                let read = seq![one] + more;
                assert(read.drop_first() =~= more);
                lemma_words_join(tokens, index, first.index, tokens.len() as int);
                assert forall|i: int| 0 <= i < read.len() implies is_definition(
                    #[trigger] read[i],
                ) by {
                    if i > 0 {
                        assert(read[i] == more[i - 1]);
                    }
                }
            }
        }
    } else {
        assert(words(tokens, index, tokens.len() as int) =~= Seq::<Word>::empty());
    }
}

/// A file that is read has the shape that the grammar gives, and writes the
/// very tokens that it was read from, all of them and in their order: each
/// keyword and symbol by its kind, each identifier by its lexeme, each
/// literal by its number.
pub proof fn lemma_file_written<'a>(tokens: Seq<Token<'a>>)
    ensures
        file(tokens) matches Ok(read) ==> {
            &&& is_file(read)
            &&& written_file(read) == words(tokens, 0, tokens.len() as int)
        },
{
    lemma_definitions_written(tokens, 0);
}

} // verus!
