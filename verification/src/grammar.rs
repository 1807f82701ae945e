//! The grammar, as functions from a sequence of tokens and a position in it
//! to a syntax tree and the position after it, or to the first error and the
//! position at which the reading stopped.
//!
//! ```text
//! File        := Definition*
//! Definition  := Function | Statement
//! Function    := 'function' Identifier '(' ')' Block
//! Block       := '{' Statement* '}'
//! Statement   := ('const' | 'var') Identifier ':' 'n64' ('=' Expression)? ';'
//! Expression  := Term (('+' | '-') Term)*
//! Term        := Factor (('*' | '/') Factor)*
//! Factor      := ('+' | '-') Factor | IntegerLiteral
//! ```
//!
//! The binary operators group to the left. The expression of a statement is
//! read from the tokens before the first semicolon that follows the `=`.
//!
//! `chain_of` is the one rule behind terms and expressions: operands of any
//! rule with operators of any set between them. A term is the chain of
//! factors over `*` and `/`, an expression the chain of terms over `+` and
//! `-`.
//!
//! What these functions give is said once more without them, by the shape of
//! the tree and by the tokens that it writes, in `shape`, `written` and
//! `readback`.

use vstd::prelude::*;

use crate::ast::BinaryOperator;
use crate::ast::BlockView;
use crate::ast::DefinitionView;
use crate::ast::Expression;
use crate::ast::FileView;
use crate::ast::FunctionView;
use crate::ast::StatementView;
use crate::ast::Type;
use crate::ast::UnaryOperator;
use crate::ast::VariableKind;
use crate::error::ParseErrorView;
use crate::lexer::Token;
use crate::lexer::TokenType;
use crate::text::integer_literal;

verus! {

/// What reading by a rule gave, and where the reading stopped.
pub struct Parsed<T> {
    pub result: Result<T, ParseErrorView>,
    pub index: int,
}

impl<T> Parsed<T> {
    /// The same failure at the same place, for a rule that gives another type.
    pub open spec fn fail<U>(self) -> Parsed<U> {
        Parsed { result: Err(self.result->Err_0), index: self.index }
    }
}

/// What an integer literal that writes no `i128` is answered with.
pub open spec fn invalid_literal_message(lexeme: Seq<char>) -> Seq<char> {
    "Invalid number literal '"@ + lexeme + "'"@
}

/// What a token that begins no expression is answered with.
pub open spec fn unknown_start_message(kind: TokenType) -> Seq<char> {
    "Unknown start of expression '"@ + kind.spec_name() + "'"@
}

/// The first position at or after `from` that holds a token on which `wanted`
/// holds; the number of tokens if there is none.
pub open spec fn first_match<'a>(
    tokens: Seq<Token<'a>>,
    from: int,
    wanted: spec_fn(Token<'a>) -> bool,
) -> int
    decreases tokens.len() - from,
{
    if 0 <= from < tokens.len() && !wanted(tokens[from]) {
        first_match(tokens, from + 1, wanted)
    } else {
        from
    }
}

/// `at` is the first position at or after `from` with a token on which
/// `wanted` holds, or the number of tokens if there is none.
pub open spec fn is_first_match<'a>(
    tokens: Seq<Token<'a>>,
    from: int,
    at: int,
    wanted: spec_fn(Token<'a>) -> bool,
) -> bool {
    &&& from <= at <= tokens.len()
    &&& forall|i: int| from <= i < at ==> !wanted(#[trigger] tokens[i])
    &&& at < tokens.len() ==> wanted(tokens[at])
}

pub proof fn lemma_first_match_is_first<'a>(
    tokens: Seq<Token<'a>>,
    from: int,
    wanted: spec_fn(Token<'a>) -> bool,
)
    requires
        0 <= from <= tokens.len(),
    ensures
        is_first_match(tokens, from, first_match(tokens, from, wanted), wanted),
    decreases tokens.len() - from,
{
    if from < tokens.len() && !wanted(tokens[from]) {
        lemma_first_match_is_first(tokens, from + 1, wanted);
    }
}

pub proof fn lemma_is_first_match_unique<'a>(
    tokens: Seq<Token<'a>>,
    from: int,
    at: int,
    wanted: spec_fn(Token<'a>) -> bool,
)
    requires
        0 <= from,
        is_first_match(tokens, from, at, wanted),
    ensures
        first_match(tokens, from, wanted) == at,
    decreases at - from,
{
    if from < at {
        assert(!wanted(tokens[from]));
        lemma_is_first_match_unique(tokens, from + 1, at, wanted);
    }
}

/// The position of the first token of kind `kind` at or after `from`; the
/// number of tokens if there is none.
pub open spec fn first_of_kind<'a>(tokens: Seq<Token<'a>>, from: int, kind: TokenType) -> int {
    first_match(tokens, from, |token: Token<'a>| token.type_ == kind)
}

/// The token at `index`, or the failure with `message` at the end of the tokens.
pub open spec fn next_token<'a>(tokens: Seq<Token<'a>>, index: int, message: Seq<char>) -> Parsed<
    Token<'a>,
> {
    if 0 <= index < tokens.len() {
        Parsed { result: Ok(tokens[index]), index: index + 1 }
    } else {
        Parsed { result: Err(ParseErrorView::at_end(message)), index }
    }
}

/// The token at `index` if it is of kind `kind`. At the end of the tokens the
/// failure carries `message`; a token of another kind is passed over and the
/// failure names `kind`.
pub open spec fn expected_token<'a>(
    tokens: Seq<Token<'a>>,
    index: int,
    kind: TokenType,
    message: Seq<char>,
) -> Parsed<Token<'a>> {
    let next = next_token(tokens, index, message);
    match next.result {
        Ok(token) => Parsed { result: token.spec_expect(kind), index: next.index },
        Err(_) => next,
    }
}

/// As `expected_token`, for a token of one of `kinds`.
pub open spec fn expected_any_token<'a>(
    tokens: Seq<Token<'a>>,
    index: int,
    kinds: Seq<TokenType>,
    message: Seq<char>,
) -> Parsed<Token<'a>> {
    let next = next_token(tokens, index, message);
    match next.result {
        Ok(token) => Parsed { result: token.spec_expect_any(kinds), index: next.index },
        Err(_) => next,
    }
}

/// `Factor := ('+' | '-') Factor | IntegerLiteral`
pub open spec fn factor<'a>(tokens: Seq<Token<'a>>, index: int) -> Parsed<Expression>
    decreases tokens.len() - index,
{
    if 0 <= index < tokens.len() {
        let token = tokens[index];
        match UnaryOperator::of_token_type(token.type_) {
            Some(operator) => {
                let operand = factor(tokens, index + 1);
                match operand.result {
                    Ok(expression) => Parsed {
                        result: Ok(Expression::UnaryOperation(operator, Box::new(expression))),
                        index: operand.index,
                    },
                    Err(_) => operand,
                }
            },
            None => if token.type_ == TokenType::IntegerLiteral {
                match integer_literal(token.lexeme()) {
                    Some(value) => Parsed {
                        result: Ok(Expression::NaturalLiteral(value)),
                        index: index + 1,
                    },
                    None => Parsed {
                        result: Err(
                            ParseErrorView::at_token(
                                invalid_literal_message(token.lexeme()),
                                token.type_,
                            ),
                        ),
                        index: index + 1,
                    },
                }
            } else {
                Parsed {
                    result: Err(
                        ParseErrorView::at_token(unknown_start_message(token.type_), token.type_),
                    ),
                    index,
                }
            },
        }
    } else {
        Parsed { result: Err(ParseErrorView::at_end("Expected expression"@)), index }
    }
}

/// A factor that is read takes at least one token and ends inside the tokens;
/// one that fails does not stop before where it began.
pub proof fn lemma_factor_advances<'a>(tokens: Seq<Token<'a>>, index: int)
    requires
        0 <= index <= tokens.len(),
    ensures
        index <= factor(tokens, index).index <= tokens.len(),
        factor(tokens, index).result is Ok ==> index < factor(tokens, index).index,
    decreases tokens.len() - index,
{
    if index < tokens.len() {
        if UnaryOperator::of_token_type(tokens[index].type_) is Some {
            lemma_factor_advances(tokens, index + 1);
        }
    }
}

/// The expression for `lhs operator rhs`, where `operator` is the kind of the
/// token between the two.
pub open spec fn binary_operation(
    operator: TokenType,
    lhs: Expression,
    rhs: Expression,
) -> Expression {
    Expression::BinaryOperation {
        operator: BinaryOperator::of_token_type(operator)->Some_0,
        lhs: Box::new(lhs),
        rhs: Box::new(rhs),
    }
}

pub open spec fn is_term_operator(kind: TokenType) -> bool {
    kind == TokenType::Star || kind == TokenType::Slash
}

pub open spec fn is_sum_operator(kind: TokenType) -> bool {
    kind == TokenType::Plus || kind == TokenType::Minus
}

/// `(('*' | '/') Factor)*` after the term `lhs`, grouped to the left.
pub open spec fn term_rest<'a>(tokens: Seq<Token<'a>>, lhs: Expression, index: int) -> Parsed<
    Expression,
>
    decreases tokens.len() - index,
{
    if 0 <= index < tokens.len() && is_term_operator(tokens[index].type_) {
        let rhs = factor(tokens, index + 1);
        match rhs.result {
            Ok(expression) => {
                proof {
                    lemma_factor_advances(tokens, index + 1);
                }
                term_rest(tokens, binary_operation(tokens[index].type_, lhs, expression), rhs.index)
            },
            Err(_) => rhs,
        }
    } else {
        Parsed { result: Ok(lhs), index }
    }
}

/// `Term := Factor (('*' | '/') Factor)*`
pub open spec fn term<'a>(tokens: Seq<Token<'a>>, index: int) -> Parsed<Expression> {
    let first = factor(tokens, index);
    match first.result {
        Ok(lhs) => term_rest(tokens, lhs, first.index),
        Err(_) => first,
    }
}

pub proof fn lemma_term_rest_advances<'a>(tokens: Seq<Token<'a>>, lhs: Expression, index: int)
    requires
        0 <= index <= tokens.len(),
    ensures
        index <= term_rest(tokens, lhs, index).index <= tokens.len(),
    decreases tokens.len() - index,
{
    if index < tokens.len() && is_term_operator(tokens[index].type_) {
        lemma_factor_advances(tokens, index + 1);
        let rhs = factor(tokens, index + 1);
        if let Ok(expression) = rhs.result {
            lemma_term_rest_advances(
                tokens,
                binary_operation(tokens[index].type_, lhs, expression),
                rhs.index,
            );
        }
    }
}

/// A term that is read takes at least one token and ends inside the tokens;
/// one that fails does not stop before where it began.
pub proof fn lemma_term_advances<'a>(tokens: Seq<Token<'a>>, index: int)
    requires
        0 <= index <= tokens.len(),
    ensures
        index <= term(tokens, index).index <= tokens.len(),
        term(tokens, index).result is Ok ==> index < term(tokens, index).index,
{
    lemma_factor_advances(tokens, index);
    let first = factor(tokens, index);
    if let Ok(lhs) = first.result {
        lemma_term_rest_advances(tokens, lhs, first.index);
    }
}

/// `(('+' | '-') Term)*` after the expression `lhs`, grouped to the left.
pub open spec fn expression_rest<'a>(tokens: Seq<Token<'a>>, lhs: Expression, index: int) -> Parsed<
    Expression,
>
    decreases tokens.len() - index,
{
    if 0 <= index < tokens.len() && is_sum_operator(tokens[index].type_) {
        let rhs = term(tokens, index + 1);
        match rhs.result {
            Ok(expression) => {
                proof {
                    lemma_term_advances(tokens, index + 1);
                }
                expression_rest(
                    tokens,
                    binary_operation(tokens[index].type_, lhs, expression),
                    rhs.index,
                )
            },
            Err(_) => rhs,
        }
    } else {
        Parsed { result: Ok(lhs), index }
    }
}

/// `Expression := Term (('+' | '-') Term)*`
pub open spec fn expression<'a>(tokens: Seq<Token<'a>>, index: int) -> Parsed<Expression> {
    let first = term(tokens, index);
    match first.result {
        Ok(lhs) => expression_rest(tokens, lhs, first.index),
        Err(_) => first,
    }
}

pub proof fn lemma_expression_rest_advances<'a>(tokens: Seq<Token<'a>>, lhs: Expression, index: int)
    requires
        0 <= index <= tokens.len(),
    ensures
        index <= expression_rest(tokens, lhs, index).index <= tokens.len(),
    decreases tokens.len() - index,
{
    if index < tokens.len() && is_sum_operator(tokens[index].type_) {
        lemma_term_advances(tokens, index + 1);
        let rhs = term(tokens, index + 1);
        if let Ok(expression) = rhs.result {
            lemma_expression_rest_advances(
                tokens,
                binary_operation(tokens[index].type_, lhs, expression),
                rhs.index,
            );
        }
    }
}

/// An expression that is read takes at least one token and ends inside the
/// tokens; one that fails does not stop before where it began.
pub proof fn lemma_expression_advances<'a>(tokens: Seq<Token<'a>>, index: int)
    requires
        0 <= index <= tokens.len(),
    ensures
        index <= expression(tokens, index).index <= tokens.len(),
        expression(tokens, index).result is Ok ==> index < expression(tokens, index).index,
{
    lemma_term_advances(tokens, index);
    let first = term(tokens, index);
    if let Ok(lhs) = first.result {
        lemma_expression_rest_advances(tokens, lhs, first.index);
    }
}

/// A rule of the grammar that reads an expression: from the tokens and a
/// position to what was read and where the reading stopped.
pub type Rule<'a> = spec_fn(Seq<Token<'a>>, int) -> Parsed<Expression>;

/// A rule that succeeds takes at least one token and stops inside the tokens.
pub open spec fn advances<'a>(operand: Rule<'a>) -> bool {
    forall|tokens: Seq<Token<'a>>, index: int|
        0 <= index <= tokens.len() && (#[trigger] operand(tokens, index)).result is Ok ==> index
            < operand(tokens, index).index <= tokens.len()
}

/// Each of `operators` is the kind of a token that stands for a binary
/// operator.
pub open spec fn are_binary_operators(operators: Seq<TokenType>) -> bool {
    forall|i: int|
        0 <= i < operators.len() ==> BinaryOperator::of_token_type(#[trigger] operators[i])
            is Some
}

/// Operators and operands after the operand `lhs`, grouped to the left: as
/// long as a token of one of `operators` stands at `index`, `operand` reads
/// what follows it, and the two operands become one. A token of another kind
/// ends the chain and is left where it stands. A failure of `operand` is the
/// failure of the chain. An operand that took no token, or ran past the
/// tokens, ends the chain too.
pub open spec fn chain_rest<'a>(
    operand: Rule<'a>,
    operators: Seq<TokenType>,
    tokens: Seq<Token<'a>>,
    lhs: Expression,
    index: int,
) -> Parsed<Expression>
    decreases tokens.len() - index,
{
    if 0 <= index < tokens.len() && operators.contains(tokens[index].type_) {
        let rhs = operand(tokens, index + 1);
        match rhs.result {
            Ok(expression) => {
                let both = binary_operation(tokens[index].type_, lhs, expression);
                if index < rhs.index <= tokens.len() {
                    chain_rest(operand, operators, tokens, both, rhs.index)
                } else {
                    Parsed { result: Ok(both), index: rhs.index }
                }
            },
            Err(_) => rhs,
        }
    } else {
        Parsed { result: Ok(lhs), index }
    }
}

/// Operands that `operand` reads, with tokens of `operators` between them,
/// grouped to the left.
pub open spec fn chain_of<'a>(
    operand: Rule<'a>,
    operators: Seq<TokenType>,
    tokens: Seq<Token<'a>>,
    index: int,
) -> Parsed<Expression> {
    let first = operand(tokens, index);
    match first.result {
        Ok(lhs) => chain_rest(operand, operators, tokens, lhs, first.index),
        Err(_) => first,
    }
}

/// The rule for a factor.
pub open spec fn factor_rule<'a>() -> Rule<'a> {
    |tokens: Seq<Token<'a>>, index: int| factor(tokens, index)
}

/// The rule for a term.
pub open spec fn term_rule<'a>() -> Rule<'a> {
    |tokens: Seq<Token<'a>>, index: int| term(tokens, index)
}

/// The kinds of the operators between factors.
pub open spec fn term_operators() -> Seq<TokenType> {
    seq![TokenType::Star, TokenType::Slash]
}

/// The kinds of the operators between terms.
pub open spec fn sum_operators() -> Seq<TokenType> {
    seq![TokenType::Plus, TokenType::Minus]
}

/// The rules for a factor and for a term advance.
pub proof fn lemma_rules_advance<'a>()
    ensures
        advances(factor_rule::<'a>()),
        advances(term_rule::<'a>()),
{
    assert forall|tokens: Seq<Token<'a>>, index: int|
        0 <= index <= tokens.len() && (#[trigger] factor_rule::<'a>()(tokens, index)).result
            is Ok implies index < factor_rule::<'a>()(tokens, index).index <= tokens.len() by {
        lemma_factor_advances(tokens, index);
    }
    assert forall|tokens: Seq<Token<'a>>, index: int|
        0 <= index <= tokens.len() && (#[trigger] term_rule::<'a>()(tokens, index)).result
            is Ok implies index < term_rule::<'a>()(tokens, index).index <= tokens.len() by {
        lemma_term_advances(tokens, index);
    }
}

/// What follows the first factor of a term is what follows the first operand
/// of the chain of factors.
proof fn lemma_term_rest_is_chain<'a>(tokens: Seq<Token<'a>>, lhs: Expression, index: int)
    requires
        0 <= index <= tokens.len(),
    ensures
        term_rest(tokens, lhs, index) == chain_rest(
            factor_rule(),
            term_operators(),
            tokens,
            lhs,
            index,
        ),
    decreases tokens.len() - index,
{
    if index < tokens.len() {
        let kind = tokens[index].type_;
        assert(term_operators()[0] == TokenType::Star && term_operators()[1] == TokenType::Slash);
        assert(is_term_operator(kind) <==> term_operators().contains(kind));
        if is_term_operator(kind) {
            lemma_factor_advances(tokens, index + 1);
            let rhs = factor(tokens, index + 1);
            if let Ok(expression) = rhs.result {
                lemma_term_rest_is_chain(tokens, binary_operation(kind, lhs, expression), rhs.index);
            }
        }
    }
}

/// A term is a chain of factors with `*` and `/` between them.
pub proof fn lemma_term_is_chain<'a>(tokens: Seq<Token<'a>>, index: int)
    requires
        0 <= index <= tokens.len(),
    ensures
        term(tokens, index) == chain_of(factor_rule(), term_operators(), tokens, index),
{
    lemma_factor_advances(tokens, index);
    let first = factor(tokens, index);
    if let Ok(lhs) = first.result {
        lemma_term_rest_is_chain(tokens, lhs, first.index);
    }
}

/// What follows the first term of an expression is what follows the first
/// operand of the chain of terms.
proof fn lemma_expression_rest_is_chain<'a>(tokens: Seq<Token<'a>>, lhs: Expression, index: int)
    requires
        0 <= index <= tokens.len(),
    ensures
        expression_rest(tokens, lhs, index) == chain_rest(
            term_rule(),
            sum_operators(),
            tokens,
            lhs,
            index,
        ),
    decreases tokens.len() - index,
{
    if index < tokens.len() {
        let kind = tokens[index].type_;
        assert(sum_operators()[0] == TokenType::Plus && sum_operators()[1] == TokenType::Minus);
        assert(is_sum_operator(kind) <==> sum_operators().contains(kind));
        if is_sum_operator(kind) {
            lemma_term_advances(tokens, index + 1);
            let rhs = term(tokens, index + 1);
            if let Ok(expression) = rhs.result {
                lemma_expression_rest_is_chain(
                    tokens,
                    binary_operation(kind, lhs, expression),
                    rhs.index,
                );
            }
        }
    }
}

/// An expression is a chain of terms with `+` and `-` between them.
pub proof fn lemma_expression_is_chain<'a>(tokens: Seq<Token<'a>>, index: int)
    requires
        0 <= index <= tokens.len(),
    ensures
        expression(tokens, index) == chain_of(term_rule(), sum_operators(), tokens, index),
{
    lemma_term_advances(tokens, index);
    let first = term(tokens, index);
    if let Ok(lhs) = first.result {
        lemma_expression_rest_is_chain(tokens, lhs, first.index);
    }
}

/// `('=' Expression)? ';'`: the initial value of a declaration, if it has one.
/// The expression is read from the tokens between the `=` and the first
/// semicolon after it, and the semicolon has to follow what was read.
pub open spec fn initializer<'a>(tokens: Seq<Token<'a>>, index: int) -> Parsed<Option<Expression>> {
    if 0 <= index < tokens.len() {
        if tokens[index].type_ == TokenType::Equals {
            let stop = first_of_kind(tokens, index + 1, TokenType::Semicolon);
            let value = expression(tokens.subrange(index + 1, stop), 0);
            match value.result {
                Ok(expression) => {
                    let semicolon = expected_token(
                        tokens,
                        index + 1 + value.index,
                        TokenType::Semicolon,
                        "Expected ';'"@,
                    );
                    match semicolon.result {
                        Ok(_) => Parsed { result: Ok(Some(expression)), index: semicolon.index },
                        Err(_) => semicolon.fail(),
                    }
                },
                Err(error) => Parsed { result: Err(error), index: index + 1 },
            }
        } else {
            match tokens[index].spec_expect(TokenType::Semicolon) {
                Ok(_) => Parsed { result: Ok(None), index: index + 1 },
                Err(error) => Parsed { result: Err(error), index: index + 1 },
            }
        }
    } else {
        Parsed { result: Err(ParseErrorView::at_end("Expected '=' or ';'"@)), index }
    }
}

/// `const` declares what cannot change, `var` what can.
pub open spec fn variable_kind(keyword: TokenType) -> VariableKind {
    if keyword == TokenType::Const {
        VariableKind::Immutable
    } else {
        VariableKind::Mutable
    }
}

/// `Statement := ('const' | 'var') Identifier ':' 'n64' ('=' Expression)? ';'`
pub open spec fn statement<'a>(tokens: Seq<Token<'a>>, index: int) -> Parsed<StatementView> {
    let keyword = expected_any_token(
        tokens,
        index,
        seq![TokenType::Var, TokenType::Const],
        "Expected statement"@,
    );
    if keyword.result is Err {
        keyword.fail()
    } else {
        let name = expected_token(
            tokens,
            keyword.index,
            TokenType::Identifer,
            "Expected identifier"@,
        );
        if name.result is Err {
            name.fail()
        } else {
            let colon = expected_token(tokens, name.index, TokenType::Colon, "Expected ':'"@);
            if colon.result is Err {
                colon.fail()
            } else {
                let type_ = expected_token(tokens, colon.index, TokenType::N64, "Expected type"@);
                if type_.result is Err {
                    type_.fail()
                } else {
                    let value = initializer(tokens, type_.index);
                    match value.result {
                        Ok(initial_value) => Parsed {
                            result: Ok(
                                StatementView::VariableDeclaration {
                                    kind: variable_kind(keyword.result->Ok_0.type_),
                                    name: name.result->Ok_0.lexeme(),
                                    type_: Type::N64,
                                    initial_value,
                                },
                            ),
                            index: value.index,
                        },
                        Err(_) => value.fail(),
                    }
                }
            }
        }
    }
}

pub proof fn lemma_initializer_advances<'a>(tokens: Seq<Token<'a>>, index: int)
    requires
        0 <= index <= tokens.len(),
    ensures
        index <= initializer(tokens, index).index <= tokens.len(),
        initializer(tokens, index).result is Ok ==> index < initializer(tokens, index).index,
{
    if index < tokens.len() && tokens[index].type_ == TokenType::Equals {
        let wanted = |token: Token<'a>| token.type_ == TokenType::Semicolon;
        lemma_first_match_is_first(tokens, index + 1, wanted);
        let stop = first_of_kind(tokens, index + 1, TokenType::Semicolon);
        lemma_expression_advances(tokens.subrange(index + 1, stop), 0);
    }
}

/// A statement that is read takes at least one token and ends inside the
/// tokens; one that fails does not stop before where it began.
pub proof fn lemma_statement_advances<'a>(tokens: Seq<Token<'a>>, index: int)
    requires
        0 <= index <= tokens.len(),
    ensures
        index <= statement(tokens, index).index <= tokens.len(),
        statement(tokens, index).result is Ok ==> index < statement(tokens, index).index,
{
    let keyword = expected_any_token(
        tokens,
        index,
        seq![TokenType::Var, TokenType::Const],
        "Expected statement"@,
    );
    let name = expected_token(tokens, keyword.index, TokenType::Identifer, "Expected identifier"@);
    let colon = expected_token(tokens, name.index, TokenType::Colon, "Expected ':'"@);
    let type_ = expected_token(tokens, colon.index, TokenType::N64, "Expected type"@);
    if keyword.result is Ok && name.result is Ok && colon.result is Ok && type_.result is Ok {
        lemma_initializer_advances(tokens, type_.index);
    }
}

/// `Statement*`, up to a closing brace or the end of the tokens.
pub open spec fn statements<'a>(tokens: Seq<Token<'a>>, index: int) -> Parsed<Seq<StatementView>>
    decreases tokens.len() - index,
{
    if 0 <= index < tokens.len() && tokens[index].type_ != TokenType::CloseBrace {
        let first = statement(tokens, index);
        match first.result {
            Ok(one) => {
                proof {
                    lemma_statement_advances(tokens, index);
                }
                let rest = statements(tokens, first.index);
                match rest.result {
                    Ok(more) => Parsed { result: Ok(seq![one] + more), index: rest.index },
                    Err(_) => rest,
                }
            },
            Err(_) => first.fail(),
        }
    } else {
        Parsed { result: Ok(Seq::empty()), index }
    }
}

pub proof fn lemma_statements_advance<'a>(tokens: Seq<Token<'a>>, index: int)
    requires
        0 <= index <= tokens.len(),
    ensures
        index <= statements(tokens, index).index <= tokens.len(),
    decreases tokens.len() - index,
{
    if index < tokens.len() && tokens[index].type_ != TokenType::CloseBrace {
        lemma_statement_advances(tokens, index);
        let first = statement(tokens, index);
        if first.result is Ok {
            lemma_statements_advance(tokens, first.index);
        }
    }
}

/// What was read before, then what `rest` holds; `rest` itself if it failed.
pub open spec fn continued<T>(before: Seq<T>, rest: Parsed<Seq<T>>) -> Parsed<Seq<T>> {
    match rest.result {
        Ok(more) => Parsed { result: Ok(before + more), index: rest.index },
        Err(_) => rest,
    }
}

/// The first token of a kind at or after `from` is found in the tokens from
/// `from` on as well, `from` places earlier.
pub proof fn lemma_first_of_kind_in_rest<'a>(tokens: Seq<Token<'a>>, from: int, kind: TokenType)
    requires
        0 <= from <= tokens.len(),
    ensures
        first_of_kind(tokens.subrange(from, tokens.len() as int), 0, kind) + from == first_of_kind(
            tokens,
            from,
            kind,
        ),
{
    let wanted = |token: Token<'a>| token.type_ == kind;
    let rest = tokens.subrange(from, tokens.len() as int);
    lemma_first_match_is_first(tokens, from, wanted);
    let at = first_match(tokens, from, wanted);
    assert forall|i: int| 0 <= i < at - from implies !wanted(#[trigger] rest[i]) by {
        assert(rest[i] == tokens[from + i]);
    }
    if at < tokens.len() {
        assert(rest[at - from] == tokens[at]);
    }
    lemma_is_first_match_unique(rest, 0, at - from, wanted);
}

/// `Block := '{' Statement* '}'`. A block has no trailing value.
pub open spec fn block<'a>(tokens: Seq<Token<'a>>, index: int) -> Parsed<BlockView> {
    let open = expected_token(tokens, index, TokenType::OpenBrace, "Expected '{'"@);
    if open.result is Err {
        open.fail()
    } else {
        let list = statements(tokens, open.index);
        match list.result {
            Ok(statements) => {
                let close = expected_token(
                    tokens,
                    list.index,
                    TokenType::CloseBrace,
                    "Expected '}'"@,
                );
                if close.result is Err {
                    close.fail()
                } else {
                    Parsed {
                        result: Ok(BlockView { statements, value: None }),
                        index: close.index,
                    }
                }
            },
            Err(_) => list.fail(),
        }
    }
}

/// `Function := 'function' Identifier '(' ')' Block`, after the keyword.
pub open spec fn function_after_keyword<'a>(tokens: Seq<Token<'a>>, index: int) -> Parsed<
    FunctionView,
> {
    let name = expected_token(tokens, index, TokenType::Identifer, "Expected function name"@);
    if name.result is Err {
        name.fail()
    } else {
        let open = expected_token(tokens, name.index, TokenType::OpenParenthesis, "Expected '('"@);
        if open.result is Err {
            open.fail()
        } else {
            let close = expected_token(
                tokens,
                open.index,
                TokenType::CloseParenthesis,
                "Expected ')'"@,
            );
            if close.result is Err {
                close.fail()
            } else {
                let body = block(tokens, close.index);
                match body.result {
                    Ok(body_view) => Parsed {
                        result: Ok(
                            FunctionView { name: name.result->Ok_0.lexeme(), body: body_view },
                        ),
                        index: body.index,
                    },
                    Err(_) => body.fail(),
                }
            }
        }
    }
}

/// `Definition := Function | Statement`: a function where the keyword
/// `function` stands, else a statement.
pub open spec fn definition<'a>(tokens: Seq<Token<'a>>, index: int) -> Parsed<DefinitionView> {
    if 0 <= index < tokens.len() {
        if tokens[index].type_ == TokenType::Function {
            let function = function_after_keyword(tokens, index + 1);
            match function.result {
                Ok(view) => Parsed {
                    result: Ok(DefinitionView::Function(view)),
                    index: function.index,
                },
                Err(_) => function.fail(),
            }
        } else {
            let one = statement(tokens, index);
            match one.result {
                Ok(view) => Parsed { result: Ok(DefinitionView::Statement(view)), index: one.index },
                Err(_) => one.fail(),
            }
        }
    } else {
        Parsed { result: Err(ParseErrorView::at_end("Expected definition"@)), index }
    }
}

/// A definition that is read takes at least one token and ends inside the
/// tokens; one that fails does not stop before where it began.
pub proof fn lemma_definition_advances<'a>(tokens: Seq<Token<'a>>, index: int)
    requires
        0 <= index <= tokens.len(),
    ensures
        index <= definition(tokens, index).index <= tokens.len(),
        definition(tokens, index).result is Ok ==> index < definition(tokens, index).index,
{
    if index < tokens.len() {
        if tokens[index].type_ == TokenType::Function {
            let name = expected_token(
                tokens,
                index + 1,
                TokenType::Identifer,
                "Expected function name"@,
            );
            let open = expected_token(
                tokens,
                name.index,
                TokenType::OpenParenthesis,
                "Expected '('"@,
            );
            let close = expected_token(
                tokens,
                open.index,
                TokenType::CloseParenthesis,
                "Expected ')'"@,
            );
            if name.result is Ok && open.result is Ok && close.result is Ok {
                let brace = expected_token(
                    tokens,
                    close.index,
                    TokenType::OpenBrace,
                    "Expected '{'"@,
                );
                if brace.result is Ok {
                    lemma_statements_advance(tokens, brace.index);
                }
            }
        } else {
            lemma_statement_advances(tokens, index);
        }
    }
}

/// `Definition*`, to the end of the tokens.
pub open spec fn definitions<'a>(tokens: Seq<Token<'a>>, index: int) -> Result<
    Seq<DefinitionView>,
    ParseErrorView,
>
    decreases tokens.len() - index,
{
    if 0 <= index < tokens.len() {
        let first = definition(tokens, index);
        match first.result {
            Ok(one) => {
                proof {
                    lemma_definition_advances(tokens, index);
                }
                match definitions(tokens, first.index) {
                    Ok(more) => Ok(seq![one] + more),
                    Err(error) => Err(error),
                }
            },
            Err(error) => Err(error),
        }
    } else {
        Ok(Seq::empty())
    }
}

/// `File := Definition*`
pub open spec fn file<'a>(tokens: Seq<Token<'a>>) -> Result<FileView, ParseErrorView> {
    match definitions(tokens, 0) {
        Ok(list) => Ok(FileView { definitions: list }),
        Err(error) => Err(error),
    }
}

/// The tokens that are no comments, in their order.
pub open spec fn without_comments<'a>(tokens: Seq<Token<'a>>) -> Seq<Token<'a>> {
    tokens.filter(|token: Token<'a>| token.type_ != TokenType::Comment)
}

/// What is left when the comments are taken out holds no comment, and holds
/// tokens of the given ones only.
pub proof fn lemma_without_comments<'a>(tokens: Seq<Token<'a>>)
    ensures
        forall|i: int|
            0 <= i < without_comments(tokens).len() ==> {
                &&& (#[trigger] without_comments(tokens)[i]).type_ != TokenType::Comment
                &&& tokens.contains(without_comments(tokens)[i])
            },
    decreases tokens.len(),
{
    reveal(Seq::filter);
    if tokens.len() > 0 {
        let shorter = tokens.drop_last();
        lemma_without_comments(shorter);
        let left = without_comments(tokens);
        assert forall|i: int| 0 <= i < left.len() implies {
            &&& (#[trigger] left[i]).type_ != TokenType::Comment
            &&& tokens.contains(left[i])
        } by {
            if i < without_comments(shorter).len() {
                assert(left[i] == without_comments(shorter)[i]);
                let at = choose|at: int| 0 <= at < shorter.len() && shorter[at] == left[i];
                assert(tokens[at] == left[i]);
            } else {
                assert(left[i] == tokens.last());
                assert(tokens[tokens.len() - 1] == left[i]);
            }
        }
    }
}

} // verus!
