//! What the grammar's functions give back, said without them: a tree that is
//! read from tokens writes those very tokens, and an expression has the
//! shape that binding strength and grouping to the left give it.

use vstd::prelude::*;

use crate::ast::BinaryOperator;
use crate::ast::Expression;
use crate::ast::UnaryOperator;
use crate::grammar::binary_operation;
use crate::grammar::expression;
use crate::grammar::expression_rest;
use crate::grammar::factor;
use crate::grammar::is_sum_operator;
use crate::grammar::is_term_operator;
use crate::grammar::lemma_factor_advances;
use crate::grammar::lemma_term_advances;
use crate::grammar::term;
use crate::grammar::term_rest;
use crate::lexer::Token;
use crate::lexer::TokenType;
use crate::text::integer_literal;

verus! {

/// What a token says to the grammar.
pub enum Word {
    /// A keyword, a symbol, or whatever else says no more than its kind.
    Symbol(TokenType),
    /// An identifier, with its lexeme.
    Name(Seq<char>),
    /// An integer literal, with the number that it writes.
    Number(i128),
}

/// What `token` says to the grammar. An integer literal that writes no
/// `i128` says no more than its kind.
pub open spec fn word_of<'a>(token: Token<'a>) -> Word {
    match token.type_ {
        TokenType::Identifer => Word::Name(token.lexeme()),
        TokenType::IntegerLiteral => match integer_literal(token.lexeme()) {
            Some(value) => Word::Number(value),
            None => Word::Symbol(token.type_),
        },
        kind => Word::Symbol(kind),
    }
}

/// What the tokens from `from` up to `to` say, in order.
pub open spec fn words<'a>(tokens: Seq<Token<'a>>, from: int, to: int) -> Seq<Word> {
    tokens.subrange(from, to).map_values(|token: Token<'a>| word_of(token))
}

/// The token kind that writes the unary operator; only the signs are written.
pub open spec fn unary_symbol(operator: UnaryOperator) -> TokenType {
    match operator {
        UnaryOperator::Minus => TokenType::Minus,
        _ => TokenType::Plus,
    }
}

/// The token kind that writes the binary operator.
pub open spec fn binary_symbol(operator: BinaryOperator) -> TokenType {
    match operator {
        BinaryOperator::Add => TokenType::Plus,
        BinaryOperator::Subtract => TokenType::Minus,
        BinaryOperator::Multiply => TokenType::Star,
        BinaryOperator::Divide => TokenType::Slash,
    }
}

/// The words that write `expression`: an operand, the operator, the other
/// operand; a sign before what it signs.
pub open spec fn written(expression: Expression) -> Seq<Word>
    decreases expression,
{
    match expression {
        Expression::NaturalLiteral(value) => seq![Word::Number(value)],
        Expression::UnaryOperation(operator, operand) => seq![
            Word::Symbol(unary_symbol(operator)),
        ] + written(*operand),
        Expression::BinaryOperation { operator, lhs, rhs } => written(*lhs) + seq![
            Word::Symbol(binary_symbol(operator)),
        ] + written(*rhs),
    }
}

/// A literal with any number of signs before it.
pub open spec fn is_factor(expression: Expression) -> bool
    decreases expression,
{
    match expression {
        Expression::NaturalLiteral(_) => true,
        Expression::UnaryOperation(operator, operand) => {
            &&& operator == UnaryOperator::Plus || operator == UnaryOperator::Minus
            &&& is_factor(*operand)
        },
        Expression::BinaryOperation { .. } => false,
    }
}

/// A factor, or a term times or by a factor: products group to the left, and
/// no sum stands inside a product.
pub open spec fn is_term(expression: Expression) -> bool
    decreases expression,
{
    match expression {
        Expression::BinaryOperation { operator, lhs, rhs } => {
            &&& operator == BinaryOperator::Multiply || operator == BinaryOperator::Divide
            &&& is_term(*lhs)
            &&& is_factor(*rhs)
        },
        _ => is_factor(expression),
    }
}

/// A term, or a sum plus or minus a term: sums group to the left.
pub open spec fn is_sum(expression: Expression) -> bool
    decreases expression,
{
    match expression {
        Expression::BinaryOperation { operator, lhs, rhs } => {
            if operator == BinaryOperator::Add || operator == BinaryOperator::Subtract {
                is_sum(*lhs) && is_term(*rhs)
            } else {
                is_term(expression)
            }
        },
        _ => is_factor(expression),
    }
}

/// No token stands at `index`, or one on which `goes_on` fails.
pub open spec fn ends_at<'a>(
    tokens: Seq<Token<'a>>,
    index: int,
    goes_on: spec_fn(TokenType) -> bool,
) -> bool {
    index >= tokens.len() || !goes_on(tokens[index].type_)
}

/// What is read first and what is read next say together what the tokens
/// over both say.
pub proof fn lemma_words_join<'a>(tokens: Seq<Token<'a>>, from: int, middle: int, to: int)
    requires
        0 <= from <= middle <= to <= tokens.len(),
    ensures
        words(tokens, from, middle) + words(tokens, middle, to) == words(tokens, from, to),
{
    assert(words(tokens, from, middle) + words(tokens, middle, to) =~= words(tokens, from, to));
}

/// A factor that is read is a literal under signs, and writes the tokens
/// that it was read from.
pub proof fn lemma_factor_shape<'a>(tokens: Seq<Token<'a>>, index: int)
    requires
        0 <= index <= tokens.len(),
    ensures
        factor(tokens, index).result matches Ok(read) ==> {
            &&& is_factor(read)
            &&& written(read) == words(tokens, index, factor(tokens, index).index)
        },
    decreases tokens.len() - index,
{
    if index < tokens.len() {
        let token = tokens[index];
        lemma_factor_advances(tokens, index);
        match UnaryOperator::of_token_type(token.type_) {
            Some(operator) => {
                lemma_factor_shape(tokens, index + 1);
                lemma_factor_advances(tokens, index + 1);
                let operand = factor(tokens, index + 1);
                if operand.result is Ok {
                    assert(words(tokens, index, index + 1) =~= seq![
                        Word::Symbol(unary_symbol(operator)),
                    ]);
                    lemma_words_join(tokens, index, index + 1, operand.index);
                }
            },
            None => {
                if let Ok(read) = factor(tokens, index).result {
                    assert(words(tokens, index, index + 1) =~= written(read));
                }
            },
        }
    }
}

/// What `term_rest` gives for a term that writes the tokens from `begin` up
/// to `index` is a term that writes the tokens from `begin` up to where the
/// reading stops, and no `*` or `/` stands there.
proof fn lemma_term_rest_shape<'a>(tokens: Seq<Token<'a>>, begin: int, lhs: Expression, index: int)
    requires
        0 <= begin <= index <= tokens.len(),
        is_term(lhs),
        written(lhs) == words(tokens, begin, index),
    ensures
        term_rest(tokens, lhs, index).result matches Ok(read) ==> {
            &&& is_term(read)
            &&& written(read) == words(tokens, begin, term_rest(tokens, lhs, index).index)
            &&& ends_at(
                tokens,
                term_rest(tokens, lhs, index).index,
                |kind: TokenType| is_term_operator(kind),
            )
        },
    decreases tokens.len() - index,
{
    if index < tokens.len() && is_term_operator(tokens[index].type_) {
        let rhs = factor(tokens, index + 1);
        lemma_factor_advances(tokens, index + 1);
        lemma_factor_shape(tokens, index + 1);
        if let Ok(operand) = rhs.result {
            let both = binary_operation(tokens[index].type_, lhs, operand);
            assert(words(tokens, index, index + 1) =~= seq![
                Word::Symbol(binary_symbol(BinaryOperator::of_token_type(tokens[index].type_)->Some_0)),
            ]);
            lemma_words_join(tokens, begin, index, index + 1);
            lemma_words_join(tokens, begin, index + 1, rhs.index);
            lemma_term_rest_shape(tokens, begin, both, rhs.index);
        }
    }
}

/// A term that is read has the shape of a term, writes the tokens that it
/// was read from, and ends where no `*` or `/` follows.
pub proof fn lemma_term_shape<'a>(tokens: Seq<Token<'a>>, index: int)
    requires
        0 <= index <= tokens.len(),
    ensures
        term(tokens, index).result matches Ok(read) ==> {
            &&& is_term(read)
            &&& written(read) == words(tokens, index, term(tokens, index).index)
            &&& ends_at(tokens, term(tokens, index).index, |kind: TokenType| is_term_operator(kind))
        },
{
    let first = factor(tokens, index);
    lemma_factor_advances(tokens, index);
    lemma_factor_shape(tokens, index);
    if let Ok(lhs) = first.result {
        lemma_term_rest_shape(tokens, index, lhs, first.index);
    }
}

/// What `expression_rest` gives for a sum that writes the tokens from
/// `begin` up to `index`, where no `*` or `/` stands, is a sum that writes
/// the tokens from `begin` up to where the reading stops, and no binary
/// operator stands there.
proof fn lemma_expression_rest_shape<'a>(
    tokens: Seq<Token<'a>>,
    begin: int,
    lhs: Expression,
    index: int,
)
    requires
        0 <= begin <= index <= tokens.len(),
        is_sum(lhs),
        written(lhs) == words(tokens, begin, index),
        ends_at(tokens, index, |kind: TokenType| is_term_operator(kind)),
    ensures
        expression_rest(tokens, lhs, index).result matches Ok(read) ==> {
            &&& is_sum(read)
            &&& written(read) == words(tokens, begin, expression_rest(tokens, lhs, index).index)
            &&& ends_at(
                tokens,
                expression_rest(tokens, lhs, index).index,
                |kind: TokenType| is_sum_operator(kind) || is_term_operator(kind),
            )
        },
    decreases tokens.len() - index,
{
    if index < tokens.len() && is_sum_operator(tokens[index].type_) {
        let rhs = term(tokens, index + 1);
        lemma_term_advances(tokens, index + 1);
        lemma_term_shape(tokens, index + 1);
        if let Ok(operand) = rhs.result {
            let both = binary_operation(tokens[index].type_, lhs, operand);
            assert(words(tokens, index, index + 1) =~= seq![
                Word::Symbol(binary_symbol(BinaryOperator::of_token_type(tokens[index].type_)->Some_0)),
            ]);
            lemma_words_join(tokens, begin, index, index + 1);
            lemma_words_join(tokens, begin, index + 1, rhs.index);
            lemma_expression_rest_shape(tokens, begin, both, rhs.index);
        }
    }
}

/// Binding strength and grouping: an expression that is read is a sum of
/// terms grouped to the left, each term a product of factors grouped to the
/// left, each factor a literal under signs. It writes, in order, the very
/// tokens that it was read from, and it ends where no binary operator follows.
pub proof fn lemma_expression_shape<'a>(tokens: Seq<Token<'a>>, index: int)
    requires
        0 <= index <= tokens.len(),
    ensures
        expression(tokens, index).result matches Ok(read) ==> {
            &&& is_sum(read)
            &&& written(read) == words(tokens, index, expression(tokens, index).index)
            &&& ends_at(
                tokens,
                expression(tokens, index).index,
                |kind: TokenType| is_sum_operator(kind) || is_term_operator(kind),
            )
        },
{
    let first = term(tokens, index);
    lemma_term_advances(tokens, index);
    lemma_term_shape(tokens, index);
    if let Ok(lhs) = first.result {
        lemma_term_is_sum(lhs);
        lemma_expression_rest_shape(tokens, index, lhs, first.index);
    }
}

/// A term is a sum of one term.
proof fn lemma_term_is_sum(expression: Expression)
    requires
        is_term(expression),
    ensures
        is_sum(expression),
{
}

} // verus!
