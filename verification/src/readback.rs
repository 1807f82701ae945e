//! Reading is the inverse of writing: tokens that write a tree of the shape
//! that the grammar gives are read as that tree, and as no other.

use vstd::prelude::*;

use crate::ast::BinaryOperator;
use crate::ast::BlockView;
use crate::ast::DefinitionView;
use crate::ast::Expression;
use crate::ast::FileView;
use crate::ast::StatementView;
use crate::ast::Type;
use crate::error::ParseErrorView;
use crate::grammar::block;
use crate::grammar::definition;
use crate::grammar::definitions;
use crate::grammar::expression;
use crate::grammar::expression_rest;
use crate::grammar::factor;
use crate::grammar::file;
use crate::grammar::initializer;
use crate::grammar::is_sum_operator;
use crate::grammar::is_term_operator;
use crate::grammar::lemma_is_first_match_unique;
use crate::grammar::Parsed;
use crate::grammar::statement;
use crate::grammar::statements;
use crate::grammar::term;
use crate::grammar::term_rest;
use crate::lexer::Token;
use crate::lexer::TokenType;
use crate::shape::binary_symbol;
use crate::shape::ends_at;
use crate::shape::is_factor;
use crate::shape::is_sum;
use crate::shape::is_term;
use crate::shape::unary_symbol;
use crate::shape::Word;
use crate::shape::word_of;
use crate::shape::words;
use crate::shape::written;
use crate::written::are_declarations;
use crate::written::are_definitions;
use crate::written::is_block;
use crate::written::is_declaration;
use crate::written::is_definition;
use crate::written::is_file;
use crate::written::lemma_file_written;
use crate::written::variable_keyword;
use crate::written::written_block;
use crate::written::written_definition;
use crate::written::written_definitions;
use crate::written::written_file;
use crate::written::written_initial_value;
use crate::written::written_statement;
use crate::written::written_statements;

verus! {

/// `read` was read, and the reading stopped at `index`.
pub open spec fn read_as<T>(read: T, index: int) -> Parsed<T> {
    Parsed { result: Ok::<T, ParseErrorView>(read), index }
}

/// A token that says no more than a kind is of that kind.
proof fn lemma_symbol_is_kind<'a>(token: Token<'a>, kind: TokenType)
    requires
        word_of(token) == Word::Symbol(kind),
    ensures
        token.type_ == kind,
{
}

/// Where the tokens from `from` up to `to` say `first`, then `middle`, then
/// `last`, the first of them say `first`, the next one says `middle`, and
/// the others say `last`.
proof fn lemma_words_in_three<'a>(
    tokens: Seq<Token<'a>>,
    from: int,
    to: int,
    first: Seq<Word>,
    middle: Word,
    last: Seq<Word>,
)
    requires
        0 <= from <= to <= tokens.len(),
        words(tokens, from, to) == first + seq![middle] + last,
    ensures
        from + first.len() < to,
        words(tokens, from, from + first.len()) == first,
        word_of(tokens[from + first.len()]) == middle,
        words(tokens, from + first.len() + 1, to) == last,
{
    let all = words(tokens, from, to);
    let at = from + first.len();
    assert(all.len() == first.len() + 1 + last.len());
    assert(all.len() == to - from);
    assert(all[first.len() as int] == middle);
    assert(all[first.len() as int] == word_of(tokens[at]));
    assert(words(tokens, from, at) =~= first) by {
        assert forall|i: int| 0 <= i < first.len() implies words(tokens, from, at)[i] == first[i] by {
            assert(all[i] == first[i]);
        }
    }
    assert(words(tokens, at + 1, to) =~= last) by {
        assert forall|i: int| 0 <= i < last.len() implies words(tokens, at + 1, to)[i] == last[i] by {
            assert(all[first.len() + 1 + i] == last[i]);
        }
    }
}

/// Tokens that write a factor are read as that factor, whatever follows.
pub proof fn lemma_factor_reads_back<'a>(
    tokens: Seq<Token<'a>>,
    from: int,
    to: int,
    written_as: Expression,
)
    requires
        0 <= from <= to <= tokens.len(),
        is_factor(written_as),
        words(tokens, from, to) == written(written_as),
    ensures
        factor(tokens, from) == read_as(written_as, to),
    decreases written_as,
{
    match written_as {
        Expression::NaturalLiteral(value) => {
            assert(words(tokens, from, to).len() == 1);
            assert(words(tokens, from, to)[0] == word_of(tokens[from]));
        },
        Expression::UnaryOperation(operator, operand) => {
            let sign = Word::Symbol(unary_symbol(operator));
            assert(written(written_as) =~= Seq::<Word>::empty() + seq![sign] + written(*operand));
            lemma_words_in_three(tokens, from, to, Seq::empty(), sign, written(*operand));
            lemma_symbol_is_kind(tokens[from], unary_symbol(operator));
            lemma_factor_reads_back(tokens, from + 1, to, *operand);
        },
        Expression::BinaryOperation { .. } => {},
    }
}

/// Tokens that write a term are read up to their end with that term in hand.
proof fn lemma_term_reads_on<'a>(tokens: Seq<Token<'a>>, from: int, to: int, written_as: Expression)
    requires
        0 <= from <= to <= tokens.len(),
        is_term(written_as),
        words(tokens, from, to) == written(written_as),
    ensures
        term(tokens, from) == term_rest(tokens, written_as, to),
    decreases written_as,
{
    match written_as {
        Expression::BinaryOperation { operator, lhs, rhs } => {
            let symbol = Word::Symbol(binary_symbol(operator));
            lemma_words_in_three(tokens, from, to, written(*lhs), symbol, written(*rhs));
            let at = from + written(*lhs).len();
            lemma_symbol_is_kind(tokens[at], binary_symbol(operator));
            lemma_term_reads_on(tokens, from, at, *lhs);
            lemma_factor_reads_back(tokens, at + 1, to, *rhs);
            assert(BinaryOperator::of_token_type(tokens[at].type_) == Some(operator));
        },
        _ => {
            lemma_factor_reads_back(tokens, from, to, written_as);
        },
    }
}

/// Tokens that write a term, with no `*` or `/` after them, are read as that
/// term.
pub proof fn lemma_term_reads_back<'a>(
    tokens: Seq<Token<'a>>,
    from: int,
    to: int,
    written_as: Expression,
)
    requires
        0 <= from <= to <= tokens.len(),
        is_term(written_as),
        words(tokens, from, to) == written(written_as),
        ends_at(tokens, to, |kind: TokenType| is_term_operator(kind)),
    ensures
        term(tokens, from) == read_as(written_as, to),
{
    lemma_term_reads_on(tokens, from, to, written_as);
}

/// Tokens that write a sum, with no `*` or `/` after them, are read up to
/// their end with that sum in hand.
proof fn lemma_expression_reads_on<'a>(
    tokens: Seq<Token<'a>>,
    from: int,
    to: int,
    written_as: Expression,
)
    requires
        0 <= from <= to <= tokens.len(),
        is_sum(written_as),
        words(tokens, from, to) == written(written_as),
        ends_at(tokens, to, |kind: TokenType| is_term_operator(kind)),
    ensures
        expression(tokens, from) == expression_rest(tokens, written_as, to),
    decreases written_as,
{
    match written_as {
        Expression::BinaryOperation { operator, lhs, rhs } => {
            if operator == BinaryOperator::Add || operator == BinaryOperator::Subtract {
                let symbol = Word::Symbol(binary_symbol(operator));
                lemma_words_in_three(tokens, from, to, written(*lhs), symbol, written(*rhs));
                let at = from + written(*lhs).len();
                lemma_symbol_is_kind(tokens[at], binary_symbol(operator));
                lemma_expression_reads_on(tokens, from, at, *lhs);
                lemma_term_reads_back(tokens, at + 1, to, *rhs);
                assert(BinaryOperator::of_token_type(tokens[at].type_) == Some(operator));
            } else {
                lemma_term_reads_back(tokens, from, to, written_as);
            }
        },
        _ => {
            lemma_term_reads_back(tokens, from, to, written_as);
        },
    }
}

/// Tokens that write an expression of the shape that binding strength and
/// grouping to the left give, with no binary operator after them, are read
/// as that expression.
pub proof fn lemma_expression_reads_back<'a>(
    tokens: Seq<Token<'a>>,
    from: int,
    to: int,
    written_as: Expression,
)
    requires
        0 <= from <= to <= tokens.len(),
        is_sum(written_as),
        words(tokens, from, to) == written(written_as),
        ends_at(tokens, to, |kind: TokenType| is_sum_operator(kind) || is_term_operator(kind)),
    ensures
        expression(tokens, from) == read_as(written_as, to),
{
    lemma_expression_reads_on(tokens, from, to, written_as);
}

/// Where the tokens from `from` up to `to` say `first` and then `last`, the
/// first of them say `first` and the others say `last`.
proof fn lemma_words_in_two<'a>(
    tokens: Seq<Token<'a>>,
    from: int,
    to: int,
    first: Seq<Word>,
    last: Seq<Word>,
)
    requires
        0 <= from <= to <= tokens.len(),
        words(tokens, from, to) == first + last,
    ensures
        from + first.len() <= to,
        to - from == first.len() + last.len(),
        words(tokens, from, from + first.len()) == first,
        words(tokens, from + first.len(), to) == last,
{
    let all = words(tokens, from, to);
    let at = from + first.len();
    assert(all.len() == first.len() + last.len());
    assert(all.len() == to - from);
    assert(words(tokens, from, at) =~= first) by {
        assert forall|i: int| 0 <= i < first.len() implies words(tokens, from, at)[i] == first[i] by {
            assert(all[i] == first[i]);
        }
    }
    assert(words(tokens, at, to) =~= last) by {
        assert forall|i: int| 0 <= i < last.len() implies words(tokens, at, to)[i] == last[i] by {
            assert(all[first.len() + i] == last[i]);
        }
    }
}

/// No expression is written with a semicolon.
proof fn lemma_written_has_no_semicolon(expression: Expression)
    ensures
        forall|i: int|
            0 <= i < written(expression).len() ==> #[trigger] written(expression)[i]
                != Word::Symbol(TokenType::Semicolon),
    decreases expression,
{
    match expression {
        Expression::NaturalLiteral(_) => {},
        Expression::UnaryOperation(_, operand) => {
            lemma_written_has_no_semicolon(*operand);
        },
        Expression::BinaryOperation { lhs, rhs, .. } => {
            lemma_written_has_no_semicolon(*lhs);
            lemma_written_has_no_semicolon(*rhs);
        },
    }
}

/// Tokens that write an initial value and the semicolon after it are read as
/// that initial value.
proof fn lemma_initializer_reads_back<'a>(
    tokens: Seq<Token<'a>>,
    from: int,
    to: int,
    written_as: Option<Expression>,
)
    requires
        0 <= from <= to <= tokens.len(),
        written_as matches Some(value) ==> is_sum(value),
        words(tokens, from, to) == written_initial_value(written_as) + seq![
            Word::Symbol(TokenType::Semicolon),
        ],
    ensures
        initializer(tokens, from) == read_as(written_as, to),
{
    let semicolon = Word::Symbol(TokenType::Semicolon);
    match written_as {
        Some(value) => {
            let equals = Word::Symbol(TokenType::Equals);
            let before = seq![equals] + written(value);
            assert(words(tokens, from, to) =~= before + seq![semicolon] + Seq::<Word>::empty());
            lemma_words_in_three(tokens, from, to, before, semicolon, Seq::empty());
            let at = from + before.len();
            assert(words(tokens, at + 1, to).len() == 0);
            assert(to == at + 1);
            lemma_symbol_is_kind(tokens[at], TokenType::Semicolon);
            assert(before =~= Seq::<Word>::empty() + seq![equals] + written(value));
            lemma_words_in_three(tokens, from, at, Seq::empty(), equals, written(value));
            lemma_symbol_is_kind(tokens[from], TokenType::Equals);
            lemma_written_has_no_semicolon(value);
            let wanted = |token: Token<'a>| token.type_ == TokenType::Semicolon;
            assert forall|i: int| from + 1 <= i < at implies !wanted(#[trigger] tokens[i]) by {
                assert(words(tokens, from + 1, at)[i - from - 1] == word_of(tokens[i]));
                assert(written(value)[i - from - 1] != semicolon);
            }
            lemma_is_first_match_unique(tokens, from + 1, at, wanted);
            let inner = tokens.subrange(from + 1, at);
            assert(words(inner, 0, inner.len() as int) =~= words(tokens, from + 1, at));
            lemma_expression_reads_back(inner, 0, inner.len() as int, value);
        },
        None => {
            assert(words(tokens, from, to) =~= Seq::<Word>::empty() + seq![semicolon]
                + Seq::<Word>::empty());
            lemma_words_in_three(tokens, from, to, Seq::empty(), semicolon, Seq::empty());
            assert(words(tokens, from + 1, to).len() == 0);
            lemma_symbol_is_kind(tokens[from], TokenType::Semicolon);
        },
    }
}

/// Tokens that write a declaration are read as that declaration.
pub proof fn lemma_statement_reads_back<'a>(
    tokens: Seq<Token<'a>>,
    from: int,
    to: int,
    written_as: StatementView,
)
    requires
        0 <= from <= to <= tokens.len(),
        is_declaration(written_as),
        words(tokens, from, to) == written_statement(written_as),
    ensures
        from < to,
        statement(tokens, from) == read_as(written_as, to),
        tokens[from].type_ == TokenType::Var || tokens[from].type_ == TokenType::Const,
{
    match written_as {
        StatementView::VariableDeclaration { kind, name, type_, initial_value } => {
            let head = seq![
                Word::Symbol(variable_keyword(kind)),
                Word::Name(name),
                Word::Symbol(TokenType::Colon),
                Word::Symbol(TokenType::N64),
            ];
            let tail = written_initial_value(initial_value) + seq![
                Word::Symbol(TokenType::Semicolon),
            ];
            assert(written_statement(written_as) =~= head + tail);
            lemma_words_in_two(tokens, from, to, head, tail);
            let said = words(tokens, from, from + 4);
            assert(said[0] == word_of(tokens[from]));
            assert(said[1] == word_of(tokens[from + 1]));
            assert(said[2] == word_of(tokens[from + 2]));
            assert(said[3] == word_of(tokens[from + 3]));
            lemma_symbol_is_kind(tokens[from], variable_keyword(kind));
            lemma_symbol_is_kind(tokens[from + 2], TokenType::Colon);
            lemma_symbol_is_kind(tokens[from + 3], TokenType::N64);
            let keywords = seq![TokenType::Var, TokenType::Const];
            assert(keywords[0] == TokenType::Var && keywords[1] == TokenType::Const);
            assert(keywords.contains(tokens[from].type_));
            lemma_initializer_reads_back(tokens, from + 4, to, initial_value);
            assert(type_ == Type::N64);
        },
        StatementView::Expression(_) => {},
    }
}

/// Tokens that write declarations, with a closing brace or nothing after
/// them, are read as those declarations.
proof fn lemma_statements_read_back<'a>(
    tokens: Seq<Token<'a>>,
    from: int,
    to: int,
    written_as: Seq<StatementView>,
)
    requires
        0 <= from <= to <= tokens.len(),
        are_declarations(written_as),
        words(tokens, from, to) == written_statements(written_as),
        to < tokens.len() ==> tokens[to].type_ == TokenType::CloseBrace,
    ensures
        statements(tokens, from) == read_as(written_as, to),
    decreases written_as.len(),
{
    if written_as.len() == 0 {
        assert(words(tokens, from, to).len() == 0);
        assert(written_as =~= Seq::<StatementView>::empty());
    } else {
        let first = written_as[0];
        let others = written_as.drop_first();
        lemma_words_in_two(
            tokens,
            from,
            to,
            written_statement(first),
            written_statements(others),
        );
        let at = from + written_statement(first).len();
        lemma_statement_reads_back(tokens, from, at, first);
        assert forall|i: int| 0 <= i < others.len() implies is_declaration(#[trigger] others[i]) by {
            assert(others[i] == written_as[i + 1]);
        }
        lemma_statements_read_back(tokens, at, to, others);
        assert(seq![first] + others =~= written_as);
    }
}

/// Tokens that write a block are read as that block.
pub proof fn lemma_block_reads_back<'a>(
    tokens: Seq<Token<'a>>,
    from: int,
    to: int,
    written_as: BlockView,
)
    requires
        0 <= from <= to <= tokens.len(),
        is_block(written_as),
        words(tokens, from, to) == written_block(written_as),
    ensures
        block(tokens, from) == read_as(written_as, to),
{
    let open = Word::Symbol(TokenType::OpenBrace);
    let close = Word::Symbol(TokenType::CloseBrace);
    let inside = written_statements(written_as.statements);
    let before = seq![open] + inside;
    assert(written_block(written_as) =~= before + seq![close] + Seq::<Word>::empty());
    lemma_words_in_three(tokens, from, to, before, close, Seq::empty());
    let at = from + before.len();
    assert(words(tokens, at + 1, to).len() == 0);
    lemma_symbol_is_kind(tokens[at], TokenType::CloseBrace);
    assert(before =~= Seq::<Word>::empty() + seq![open] + inside);
    lemma_words_in_three(tokens, from, at, Seq::empty(), open, inside);
    lemma_symbol_is_kind(tokens[from], TokenType::OpenBrace);
    lemma_statements_read_back(tokens, from + 1, at, written_as.statements);
}

/// Tokens that write a definition are read as that definition.
pub proof fn lemma_definition_reads_back<'a>(
    tokens: Seq<Token<'a>>,
    from: int,
    to: int,
    written_as: DefinitionView,
)
    requires
        0 <= from <= to <= tokens.len(),
        is_definition(written_as),
        words(tokens, from, to) == written_definition(written_as),
    ensures
        from < to,
        definition(tokens, from) == read_as(written_as, to),
{
    match written_as {
        DefinitionView::Function(function) => {
            let head = seq![
                Word::Symbol(TokenType::Function),
                Word::Name(function.name),
                Word::Symbol(TokenType::OpenParenthesis),
                Word::Symbol(TokenType::CloseParenthesis),
            ];
            lemma_words_in_two(tokens, from, to, head, written_block(function.body));
            let said = words(tokens, from, from + 4);
            assert(said[0] == word_of(tokens[from]));
            assert(said[1] == word_of(tokens[from + 1]));
            assert(said[2] == word_of(tokens[from + 2]));
            assert(said[3] == word_of(tokens[from + 3]));
            lemma_symbol_is_kind(tokens[from], TokenType::Function);
            lemma_symbol_is_kind(tokens[from + 2], TokenType::OpenParenthesis);
            lemma_symbol_is_kind(tokens[from + 3], TokenType::CloseParenthesis);
            lemma_block_reads_back(tokens, from + 4, to, function.body);
        },
        DefinitionView::Statement(statement) => {
            lemma_statement_reads_back(tokens, from, to, statement);
        },
    }
}

/// Tokens that write definitions, and go on to the end, are read as those
/// definitions.
proof fn lemma_definitions_read_back<'a>(
    tokens: Seq<Token<'a>>,
    from: int,
    written_as: Seq<DefinitionView>,
)
    requires
        0 <= from <= tokens.len(),
        are_definitions(written_as),
        words(tokens, from, tokens.len() as int) == written_definitions(written_as),
    ensures
        definitions(tokens, from) == Ok::<Seq<DefinitionView>, ParseErrorView>(written_as),
    decreases written_as.len(),
{
    let to = tokens.len() as int;
    if written_as.len() == 0 {
        assert(words(tokens, from, to).len() == 0);
        assert(written_as =~= Seq::<DefinitionView>::empty());
    } else {
        let first = written_as[0];
        let others = written_as.drop_first();
        lemma_words_in_two(
            tokens,
            from,
            to,
            written_definition(first),
            written_definitions(others),
        );
        let at = from + written_definition(first).len();
        lemma_definition_reads_back(tokens, from, at, first);
        assert forall|i: int| 0 <= i < others.len() implies is_definition(#[trigger] others[i]) by {
            assert(others[i] == written_as[i + 1]);
        }
        lemma_definitions_read_back(tokens, at, others);
        assert(seq![first] + others =~= written_as);
    }
}

/// Tokens that write a file of the shape that the grammar gives are read as
/// that file.
pub proof fn lemma_file_reads_back<'a>(tokens: Seq<Token<'a>>, written_as: FileView)
    requires
        is_file(written_as),
        words(tokens, 0, tokens.len() as int) == written_file(written_as),
    ensures
        file(tokens) == Ok::<FileView, ParseErrorView>(written_as),
{
    lemma_definitions_read_back(tokens, 0, written_as.definitions);
}

/// Reading is the inverse of writing. Tokens are read as a file exactly
/// where the file has the shape that the grammar gives and writes those
/// tokens, all of them and in their order.
pub proof fn lemma_read_is_what_writes<'a>(tokens: Seq<Token<'a>>, read: FileView)
    ensures
        file(tokens) == Ok::<FileView, ParseErrorView>(read) <==> is_file(read) && written_file(read)
            == words(tokens, 0, tokens.len() as int),
{
    lemma_file_written(tokens);
    if is_file(read) && written_file(read) == words(tokens, 0, tokens.len() as int) {
        lemma_file_reads_back(tokens, read);
    }
}

} // verus!
