//! The token stream and the recursive-descent parser over it.

use vstd::prelude::*;
use vstd::slice::slice_subrange;
use vstd::string::StringExecFns;

use crate::ast::BinaryOperator;
use crate::ast::Block;
use crate::ast::Definition;
use crate::ast::DefinitionView;
use crate::ast::Expression;
use crate::ast::File;
use crate::ast::Function;
use crate::ast::Statement;
use crate::ast::StatementView;
use crate::ast::Type;
use crate::ast::UnaryOperator;
use crate::ast::VariableKind;
use crate::error::agrees;
use crate::error::agrees_in_view;
use crate::error::ParseError;
use crate::error::ParseErrorView;
use crate::grammar::advances;
use crate::grammar::are_binary_operators;
use crate::grammar::block;
use crate::grammar::chain_of;
use crate::grammar::chain_rest;
use crate::grammar::continued;
use crate::grammar::definition;
use crate::grammar::expected_token;
use crate::grammar::expression;
use crate::grammar::factor;
use crate::grammar::factor_rule;
use crate::grammar::file;
use crate::grammar::first_match;
use crate::grammar::first_of_kind;
use crate::grammar::is_first_match;
use crate::grammar::lemma_definition_advances;
use crate::grammar::lemma_expression_is_chain;
use crate::grammar::lemma_first_match_is_first;
use crate::grammar::lemma_first_of_kind_in_rest;
use crate::grammar::lemma_is_first_match_unique;
use crate::grammar::lemma_rules_advance;
use crate::grammar::lemma_statement_advances;
use crate::grammar::lemma_term_is_chain;
use crate::grammar::next_token;
use crate::grammar::Parsed;
use crate::grammar::Rule;
use crate::grammar::statement;
use crate::grammar::term;
use crate::grammar::term_rule;
use crate::grammar::without_comments;
use crate::grammar;
use crate::lexer::all_valid;
use crate::lexer::Token;
use crate::lexer::TokenType;
use crate::shape::words;
use crate::text::parse_integer;
use crate::written::is_file;
use crate::written::lemma_file_written;
use crate::written::written_file;

verus! {

/// A cursor over a sequence of tokens.
#[derive(Debug, Clone, Copy)]
pub struct TokenStream<'a> {
    tokens: &'a [Token<'a>],
    index: usize,
}

/// A token stream as mathematical values: the tokens that it can see and the
/// position of its cursor among them.
pub struct TokenStreamView<'a> {
    pub tokens: Seq<Token<'a>>,
    pub index: int,
}

impl<'a> View for TokenStream<'a> {
    type V = TokenStreamView<'a>;

    closed spec fn view(&self) -> TokenStreamView<'a> {
        TokenStreamView { tokens: self.tokens@, index: self.index as int }
    }
}

impl<'a> TokenStreamView<'a> {
    /// The cursor stands among the tokens or right after them, and each token
    /// is a span of its source.
    pub open spec fn well_formed(self) -> bool {
        &&& 0 <= self.index <= self.tokens.len()
        &&& forall|i: int| 0 <= i < self.tokens.len() ==> (#[trigger] self.tokens[i]).valid()
    }

    /// The stream with its cursor at `index`.
    pub open spec fn at(self, index: int) -> TokenStreamView<'a> {
        TokenStreamView { tokens: self.tokens, index }
    }
}

impl<'a> TokenStream<'a> {
    /// What holds of every stream: its view is well formed.
    #[verifier::type_invariant]
    pub open spec fn well_formed(self) -> bool {
        self@.well_formed()
    }

    /// A stream over `tokens` with its cursor at the first of them.
    pub fn new(tokens: &'a [Token<'a>]) -> (stream: Self)
        requires
            all_valid(tokens@),
        ensures
            stream@ == (TokenStreamView { tokens: tokens@, index: 0 }),
    {
        Self { tokens, index: 0 }
    }

    /// Takes the comments out of `tokens` and keeps the others in their order.
    pub fn strip_comments(tokens: Vec<Token<'a>>) -> (stripped: Vec<Token<'a>>)
        ensures
            stripped@ == without_comments(tokens@),
            forall|i: int|
                0 <= i < stripped@.len() ==> (#[trigger] stripped@[i]).type_ != TokenType::Comment,
            all_valid(tokens@) ==> all_valid(stripped@),
    {
        let mut stripped: Vec<Token<'a>> = Vec::new();
        let ghost keep = |token: Token<'a>| token.type_ != TokenType::Comment;
        proof {
            reveal(Seq::filter);
            assert(tokens@.take(0).filter(keep) =~= Seq::<Token<'a>>::empty());
        }
        let mut index: usize = 0;
        while index < tokens.len()
            invariant
                index <= tokens@.len(),
                keep == |token: Token<'a>| token.type_ != TokenType::Comment,
                stripped@ == tokens@.take(index as int).filter(keep),
                forall|i: int|
                    0 <= i < stripped@.len() ==> (#[trigger] stripped@[i]).type_
                        != TokenType::Comment,
                all_valid(tokens@) ==> all_valid(stripped@),
            decreases tokens@.len() - index,
        {
            let token = tokens[index];
            proof {
                assert(tokens@.take(index + 1) =~= tokens@.take(index as int).push(token));
                Seq::lemma_filter_push(tokens@.take(index as int), token, keep);
            }
            if token.type_ != TokenType::Comment {
                stripped.push(token);
            }
            index += 1;
        }
        proof {
            assert(tokens@.take(index as int) =~= tokens@);
        }
        stripped
    }

    /// The number of tokens that the stream can see.
    pub fn len(&self) -> (length: usize)
        ensures
            length == self@.tokens.len(),
    {
        self.tokens.len()
    }

    /// Whether the cursor stands after the last token.
    pub fn is_end(&self) -> (end: bool)
        ensures
            end == (self@.index >= self@.tokens.len()),
            self@.tokens.len() <= usize::MAX,
    {
        self.index >= self.len()
    }

    /// Hands out the token at the cursor and moves the cursor past it. Fails
    /// with `error_message` at the end of the tokens, and then moves nothing.
    pub fn next(&mut self, error_message: &str) -> (result: Result<Token<'a>, ParseError>)
        ensures
            agrees(result, next_token(old(self)@.tokens, old(self)@.index, error_message@).result),
            final(self)@ == old(self)@.at(
                next_token(old(self)@.tokens, old(self)@.index, error_message@).index,
            ),
    {
        proof {
            use_type_invariant(&*self);
        }
        if self.is_end() {
            Err(ParseError::at_end(error_message))
        } else {
            self.index += 1;
            Ok(self.tokens[self.index - 1])
        }
    }

    /// Shows the next `amount` tokens and moves nothing. Fails with
    /// `error_message` where fewer are left.
    pub fn lookahead(&self, amount: usize, error_message: &str) -> (result: Result<
        &[Token<'a>],
        ParseError,
    >)
        ensures
            match result {
                Ok(shown) => self@.index + amount <= self@.tokens.len() && shown@
                    == self@.tokens.subrange(self@.index, self@.index + amount),
                Err(error) => self@.index + amount > self@.tokens.len() && error@
                    == ParseErrorView::at_end(error_message@),
            },
    {
        proof {
            use_type_invariant(self);
        }
        if amount <= self.tokens.len() - self.index {
            Ok(slice_subrange(self.tokens, self.index, self.index + amount))
        } else {
            Err(ParseError::at_end(error_message))
        }
    }

    /// Moves the cursor back by `amount`. Fails with `error_message` where it
    /// has not come that far, and then moves nothing.
    pub fn backtrack(&mut self, amount: usize, error_message: &str) -> (result: Result<
        (),
        ParseError,
    >)
        ensures
            match result {
                Ok(_) => amount <= old(self)@.index && final(self)@ == old(self)@.at(
                    old(self)@.index - amount,
                ),
                Err(error) => amount > old(self)@.index && final(self)@ == old(self)@ && error@
                    == ParseErrorView::at_end(error_message@),
            },
    {
        proof {
            use_type_invariant(&*self);
        }
        if amount > self.index {
            Err(ParseError::at_end(error_message))
        } else {
            self.index -= amount;
            Ok(())
        }
    }

    /// Moves the cursor `amount` tokens on.
    fn skip(&mut self, amount: usize)
        requires
            old(self)@.index + amount <= old(self)@.tokens.len(),
        ensures
            final(self)@ == old(self)@.at(old(self)@.index + amount),
    {
        proof {
            use_type_invariant(&*self);
            vstd::slice::axiom_spec_len(self.tokens);
        }
        self.index += amount;
    }

    /// A stream of its own over what lies from the cursor on, with its cursor
    /// at the first of those tokens.
    pub fn make_substream(&self) -> (substream: Self)
        ensures
            substream@ == (TokenStreamView {
                tokens: self@.tokens.subrange(self@.index, self@.tokens.len() as int),
                index: 0,
            }),
    {
        proof {
            use_type_invariant(self);
        }
        Self { tokens: slice_subrange(self.tokens, self.index, self.tokens.len()), index: 0 }
    }

    /// Cuts off what the stream can see before the first token of kind `type_`
    /// at or after the cursor. Where there is none, nothing is cut off.
    pub fn limit_to_first(&mut self, type_: TokenType) -> (limited: &Self)
        ensures
            final(self)@ == (TokenStreamView {
                tokens: old(self)@.tokens.take(
                    first_of_kind(old(self)@.tokens, old(self)@.index, type_),
                ),
                index: old(self)@.index,
            }),
            *limited == *final(self),
    {
        proof {
            use_type_invariant(&*self);
        }
        let mut current_index = self.index;
        while current_index < self.tokens.len() && self.tokens[current_index].type_ != type_
            invariant
                *self == *old(self),
                self.index <= current_index <= self.tokens@.len(),
                forall|i: int|
                    self.index <= i < current_index ==> (#[trigger] self.tokens@[i]).type_ != type_,
            decreases self.tokens@.len() - current_index,
        {
            current_index += 1;
        }
        proof {
            lemma_is_first_match_unique(
                self.tokens@,
                self.index as int,
                current_index as int,
                |token: Token<'a>| token.type_ == type_,
            );
        }
        self.tokens = slice_subrange(self.tokens, 0, current_index);
        self
    }

    /// Where the cursor stands after it has gone past the first token at or
    /// after `index` that equals `token`: right after that token, or at the
    /// end where there is none.
    pub open spec fn past_first_equal(tokens: Seq<Token<'a>>, index: int, token: Token<'a>) -> int {
        let at = first_match(tokens, index, |other: Token<'a>| other.same_as(token));
        if at < tokens.len() {
            at + 1
        } else {
            at
        }
    }

    /// Moves the cursor past the first token, at or after it, that equals the
    /// token at the cursor of `other_stream`; to the end where none does.
    /// Fails, and moves nothing, where `other_stream` is at its end.
    pub fn advance_past_other(&mut self, other_stream: &Self) -> (result: Result<&Self, ParseError>)
        ensures
            match result {
                Ok(same) => {
                    &&& other_stream@.index < other_stream@.tokens.len()
                    &&& final(self)@ == old(self)@.at(
                        Self::past_first_equal(
                            old(self)@.tokens,
                            old(self)@.index,
                            other_stream@.tokens[other_stream@.index],
                        ),
                    )
                    &&& *same == *final(self)
                },
                Err(error) => {
                    &&& other_stream@.index >= other_stream@.tokens.len()
                    &&& final(self)@ == old(self)@
                    &&& error@ == ParseErrorView::at_end("Expected any token"@)
                },
            },
    {
        proof {
            use_type_invariant(&*self);
            use_type_invariant(other_stream);
        }
        let other_token = other_stream.lookahead(1, "Expected any token")?[0];
        let ghost start = self.index as int;
        let mut found = false;
        while !found && self.index < self.tokens.len()
            invariant
                self.tokens == old(self).tokens,
                all_valid(self.tokens@),
                start == old(self).index,
                start <= self.index <= self.tokens@.len(),
                !found ==> forall|i: int|
                    start <= i < self.index ==> !(#[trigger] self.tokens@[i]).same_as(other_token),
                found ==> self.index > start && is_first_match(
                    self.tokens@,
                    start,
                    self.index - 1,
                    |other: Token<'a>| other.same_as(other_token),
                ),
            decreases self.tokens@.len() - self.index,
        {
            if self.tokens[self.index] == other_token {
                found = true;
            }
            self.index += 1;
        }
        proof {
            lemma_is_first_match_unique(
                self.tokens@,
                start,
                if found {
                    self.index - 1
                } else {
                    self.index as int
                },
                |other: Token<'a>| other.same_as(other_token),
            );
        }
        Ok(self)
    }
}

/// The call left the tokens of the stream as they were, put its cursor
/// where `model` has it, and returned what `model` holds.
pub open spec fn reads<'a, T>(
    before: TokenStreamView<'a>,
    after: TokenStreamView<'a>,
    result: Result<T, ParseError>,
    model: Parsed<T>,
) -> bool {
    after == before.at(model.index) && agrees(result, model.result)
}

/// As `reads`, for a value that is set against its view.
pub open spec fn reads_in_view<'a, T: View>(
    before: TokenStreamView<'a>,
    after: TokenStreamView<'a>,
    result: Result<T, ParseError>,
    model: Parsed<T::V>,
) -> bool {
    after == before.at(model.index) && agrees_in_view(result, model.result)
}

/// Reads a factor: an integer literal with any number of signs before it.
pub fn parse_factor<'a>(token_iterator: &mut TokenStream<'a>) -> (result: Result<
    Expression,
    ParseError,
>)
    ensures
        reads(
            old(token_iterator)@,
            final(token_iterator)@,
            result,
            factor(old(token_iterator)@.tokens, old(token_iterator)@.index),
        ),
    decreases old(token_iterator)@.tokens.len() - old(token_iterator)@.index,
{
    proof {
        use_type_invariant(&*token_iterator);
    }
    let token = token_iterator.lookahead(1, "Expected expression")?[0];
    match token.type_ {
        TokenType::Plus | TokenType::Minus => {
            token_iterator.next("")?;
            let unary_operand = parse_factor(token_iterator)?;
            Ok(
                Expression::UnaryOperation(
                    UnaryOperator::from_token_type(token.type_).unwrap(),
                    Box::new(unary_operand),
                ),
            )
        },
        TokenType::IntegerLiteral => {
            let number_literal = token_iterator.next("")?.expect(TokenType::IntegerLiteral)?;
            match parse_integer(number_literal.text()) {
                Some(value) => Ok(Expression::NaturalLiteral(value)),
                None => {
                    let mut message = String::from_str("Invalid number literal '");
                    message.append(number_literal.text());
                    message.append("'");
                    Err(ParseError::at_token(message, token.type_))
                },
            }
        },
        _ => {
            let mut message = String::from_str("Unknown start of expression '");
            message.append(token.type_.name());
            message.append("'");
            Err(ParseError::at_token(message, token.type_))
        },
    }
}

/// Reads operands with operators between them, and groups them to the left.
/// `sub_operation_parser` reads one operand, `operators` are the kinds of
/// the operator tokens, and `operand` is the rule that `sub_operation_parser`
/// reads by. A token of a kind that is not among `operators` ends the
/// reading and is left where it stands.
pub fn parse_binary_operation<'a, F>(
    token_iterator: &mut TokenStream<'a>,
    sub_operation_parser: F,
    operators: &[TokenType],
    Ghost(operand): Ghost<Rule<'a>>,
) -> (result: Result<Expression, ParseError>) where
    F: Fn(&mut TokenStream<'a>) -> Result<Expression, ParseError>,

    requires
        are_binary_operators(operators@),
        advances(operand),
        forall|stream: &mut TokenStream<'a>| call_requires(sub_operation_parser, (stream,)),
        forall|stream: &mut TokenStream<'a>, outcome: Result<Expression, ParseError>|
            #[trigger] call_ensures(sub_operation_parser, (stream,), outcome) ==> reads(
                stream@,
                final(stream)@,
                outcome,
                operand(stream@.tokens, stream@.index),
            ),
    ensures
        reads(
            old(token_iterator)@,
            final(token_iterator)@,
            result,
            chain_of(
                operand,
                operators@,
                old(token_iterator)@.tokens,
                old(token_iterator)@.index,
            ),
        ),
{
    let mut lhs = sub_operation_parser(token_iterator)?;
    loop
        invariant
            token_iterator@.tokens == old(token_iterator)@.tokens,
            are_binary_operators(operators@),
            advances(operand),
            forall|stream: &mut TokenStream<'a>| call_requires(sub_operation_parser, (stream,)),
            forall|stream: &mut TokenStream<'a>, outcome: Result<Expression, ParseError>|
                #[trigger] call_ensures(sub_operation_parser, (stream,), outcome) ==> reads(
                    stream@,
                    final(stream)@,
                    outcome,
                    operand(stream@.tokens, stream@.index),
                ),
            chain_of(operand, operators@, old(token_iterator)@.tokens, old(token_iterator)@.index)
                == chain_rest(
                operand,
                operators@,
                token_iterator@.tokens,
                lhs,
                token_iterator@.index,
            ),
        decreases token_iterator@.tokens.len() - token_iterator@.index,
    {
        proof {
            use_type_invariant(&*token_iterator);
        }
        let operator = match token_iterator.lookahead(1, "Expected operator") {
            Ok(shown) => shown[0],
            Err(_) => {
                return Ok(lhs);
            },
        };
        if !operator.type_.is_one_of(operators) {
            return Ok(lhs);
        }
        token_iterator.next("")?;
        proof {
            use_type_invariant(&*token_iterator);
        }
        let rhs = sub_operation_parser(token_iterator)?;
        lhs =
        Expression::BinaryOperation {
            operator: BinaryOperator::from_token_type(operator.type_).unwrap(),
            lhs: Box::new(lhs),
            rhs: Box::new(rhs),
        };
    }
}

/// Reads a term: factors with `*` and `/` between them.
pub fn parse_term<'a>(token_iterator: &mut TokenStream<'a>) -> (result: Result<
    Expression,
    ParseError,
>)
    ensures
        reads(
            old(token_iterator)@,
            final(token_iterator)@,
            result,
            term(old(token_iterator)@.tokens, old(token_iterator)@.index),
        ),
{
    proof {
        use_type_invariant(&*token_iterator);
        lemma_rules_advance();
        lemma_term_is_chain(token_iterator@.tokens, token_iterator@.index);
    }
    parse_binary_operation(
        token_iterator,
        parse_factor,
        &[TokenType::Star, TokenType::Slash],
        Ghost(factor_rule()),
    )
}

/// Reads an expression: terms with `+` and `-` between them.
pub fn parse_expression<'a>(token_iterator: &mut TokenStream<'a>) -> (result: Result<
    Expression,
    ParseError,
>)
    ensures
        reads(
            old(token_iterator)@,
            final(token_iterator)@,
            result,
            expression(old(token_iterator)@.tokens, old(token_iterator)@.index),
        ),
{
    proof {
        use_type_invariant(&*token_iterator);
        lemma_rules_advance();
        lemma_expression_is_chain(token_iterator@.tokens, token_iterator@.index);
    }
    parse_binary_operation(
        token_iterator,
        parse_term,
        &[TokenType::Plus, TokenType::Minus],
        Ghost(term_rule()),
    )
}

/// Reads a declaration of a constant or a variable, with its initial value
/// if it has one, through the semicolon that ends it.
pub fn parse_statement<'a>(token_iterator: &mut TokenStream<'a>) -> (result: Result<
    Statement,
    ParseError,
>)
    ensures
        reads_in_view(
            old(token_iterator)@,
            final(token_iterator)@,
            result,
            statement(old(token_iterator)@.tokens, old(token_iterator)@.index),
        ),
{
    let kind = token_iterator.next("Expected statement")?.expect_any(
        &[TokenType::Var, TokenType::Const],
    )?;
    let identifier = token_iterator.next("Expected identifier")?.expect(TokenType::Identifer)?;
    token_iterator.next("Expected ':'")?.expect(TokenType::Colon)?;
    token_iterator.next("Expected type")?.expect(TokenType::N64)?;

    let next = token_iterator.lookahead(1, "Expected '=' or ';'")?[0];
    let initializer = if next.type_ == TokenType::Equals {
        token_iterator.next("")?;
        proof {
            use_type_invariant(&*token_iterator);
            lemma_first_of_kind_in_rest(
                token_iterator@.tokens,
                token_iterator@.index,
                TokenType::Semicolon,
            );
            lemma_first_match_is_first(
                token_iterator@.tokens,
                token_iterator@.index,
                |token: Token<'a>| token.type_ == TokenType::Semicolon,
            );
        }
        let mut expression_stream = token_iterator.make_substream();
        expression_stream.limit_to_first(TokenType::Semicolon);
        assert(expression_stream@.tokens =~= token_iterator@.tokens.subrange(
            token_iterator@.index,
            first_of_kind(token_iterator@.tokens, token_iterator@.index, TokenType::Semicolon),
        ));
        let expression = parse_expression(&mut expression_stream)?;
        proof {
            use_type_invariant(&expression_stream);
        }
        token_iterator.skip(expression_stream.index);
        token_iterator.next("Expected ';'")?.expect(TokenType::Semicolon)?;
        Some(expression)
    } else {
        token_iterator.next("Expected ';'")?.expect(TokenType::Semicolon)?;
        None
    };
    proof {
        use_type_invariant(&*token_iterator);
    }
    Ok(
        Statement::VariableDeclaration {
            kind: if kind.type_ == TokenType::Const {
                VariableKind::Immutable
            } else {
                VariableKind::Mutable
            },
            name: String::from_str(identifier.text()),
            type_: Type::N64,
            initial_value: initializer,
        },
    )
}

/// Reads a block: statements between braces.
pub fn parse_block<'a>(token_iterator: &mut TokenStream<'a>) -> (result: Result<Block, ParseError>)
    ensures
        reads_in_view(
            old(token_iterator)@,
            final(token_iterator)@,
            result,
            block(old(token_iterator)@.tokens, old(token_iterator)@.index),
        ),
{
    token_iterator.next("Expected '{'")?.expect(TokenType::OpenBrace)?;

    let ghost tokens = token_iterator@.tokens;
    let ghost start = token_iterator@.index;
    let mut statements: Vec<Statement> = Vec::new();
    proof {
        assert(Seq::<StatementView>::empty() + grammar::statements(tokens, start).result->Ok_0
            =~= grammar::statements(tokens, start).result->Ok_0);
    }
    loop
        invariant
            token_iterator@.tokens == tokens,
            tokens == old(token_iterator)@.tokens,
            expected_token(
                tokens,
                old(token_iterator)@.index,
                TokenType::OpenBrace,
                "Expected '{'"@,
            ).result is Ok,
            start == old(token_iterator)@.index + 1,
            grammar::statements(tokens, start) == continued(
                statements@.map_values(|one: Statement| one@),
                grammar::statements(tokens, token_iterator@.index),
            ),
        ensures
            token_iterator@.tokens == tokens,
            grammar::statements(tokens, start) == (Parsed {
                result: Ok(statements@.map_values(|one: Statement| one@)),
                index: token_iterator@.index,
            }),
        decreases tokens.len() - token_iterator@.index,
    {
        proof {
            use_type_invariant(&*token_iterator);
            lemma_statement_advances(tokens, token_iterator@.index);
        }
        let ghost read = statements@.map_values(|one: Statement| one@);
        let more = match token_iterator.lookahead(1, "Expected statement") {
            Ok(shown) => shown[0].type_ != TokenType::CloseBrace,
            Err(_) => false,
        };
        if !more {
            assert(read + Seq::<StatementView>::empty() =~= read);
            break;
        }
        let one = parse_statement(token_iterator)?;
        statements.push(one);
        proof {
            let rest = grammar::statements(tokens, token_iterator@.index);
            assert(statements@.map_values(|one: Statement| one@) =~= read.push(one@));
            if rest.result is Ok {
                assert(read + (seq![one@] + rest.result->Ok_0) =~= read.push(one@)
                    + rest.result->Ok_0);
            }
        }
    }

    token_iterator.next("Expected '}'")?.expect(TokenType::CloseBrace)?;
    Ok(Block { statements, value: None })
}

/// Reads a definition: a function where the keyword `function` stands, else
/// a statement.
pub fn parse_definition<'a>(token_iterator: &mut TokenStream<'a>) -> (result: Result<
    Definition,
    ParseError,
>)
    ensures
        reads_in_view(
            old(token_iterator)@,
            final(token_iterator)@,
            result,
            definition(old(token_iterator)@.tokens, old(token_iterator)@.index),
        ),
{
    let first_token = token_iterator.lookahead(1, "Expected definition")?[0];
    if first_token.type_ == TokenType::Function {
        token_iterator.next("")?;
        let function_name = token_iterator.next("Expected function name")?.expect(
            TokenType::Identifer,
        )?;
        token_iterator.next("Expected '('")?.expect(TokenType::OpenParenthesis)?;
        token_iterator.next("Expected ')'")?.expect(TokenType::CloseParenthesis)?;

        let function_body = parse_block(token_iterator)?;
        proof {
            use_type_invariant(&*token_iterator);
        }
        Ok(
            Definition::Function(
                Function { name: String::from_str(function_name.text()), body: function_body },
            ),
        )
    } else {
        Ok(Definition::Statement(parse_statement(token_iterator)?))
    }
}

/// Reads a file: takes the comments out of `tokens` and reads definitions to
/// the end of what is left.
///
/// A file that is read has the shape that the grammar gives and writes all
/// the tokens that are no comments, in their order; and where some file of
/// that shape writes them, it is read.
pub fn parse<'a>(tokens: Vec<Token<'a>>) -> (result: Result<File, ParseError>)
    requires
        all_valid(tokens@),
    ensures
        agrees_in_view(result, file(without_comments(tokens@))),
        result matches Ok(read) ==> is_file(read@) && written_file(read@) == words(
            without_comments(tokens@),
            0,
            without_comments(tokens@).len() as int,
        ),
{
    proof {
        lemma_file_written(without_comments(tokens@));
    }
    let mut definitions: Vec<Definition> = Vec::new();

    let stripped_tokens = TokenStream::strip_comments(tokens);
    let mut token_stream = TokenStream::new(stripped_tokens.as_slice());

    let ghost seen = stripped_tokens@;
    proof {
        assert(Seq::<DefinitionView>::empty() + grammar::definitions(seen, 0)->Ok_0
            =~= grammar::definitions(seen, 0)->Ok_0);
    }
    while !token_stream.is_end()
        invariant
            token_stream@.tokens == seen,
            seen == without_comments(tokens@),
            token_stream@.index >= 0,
            grammar::definitions(seen, 0) == match grammar::definitions(
                seen,
                token_stream@.index,
            ) {
                Ok(more) => Ok(definitions@.map_values(|one: Definition| one@) + more),
                Err(error) => Err(error),
            },
        decreases seen.len() - token_stream@.index,
    {
        proof {
            use_type_invariant(&token_stream);
            lemma_definition_advances(seen, token_stream@.index);
        }
        let ghost read = definitions@.map_values(|one: Definition| one@);
        let one = parse_definition(&mut token_stream)?;
        definitions.push(one);
        proof {
            let rest = grammar::definitions(seen, token_stream@.index);
            assert(definitions@.map_values(|one: Definition| one@) =~= read.push(one@));
            if rest is Ok {
                assert(read + (seq![one@] + rest->Ok_0) =~= read.push(one@) + rest->Ok_0);
            }
        }
    }
    proof {
        let read = definitions@.map_values(|one: Definition| one@);
        assert(read + Seq::<DefinitionView>::empty() =~= read);
    }
    Ok(File { definitions })
}

} // verus!
