//! The tokenizer: from source text to a sequence of tokens with exact spans.

use vstd::prelude::*;
use vstd::std_specs::cmp::PartialEqSpecImpl;
use vstd::string::StringExecFns;
use vstd::string::StrSliceExecFns;

use crate::error::agrees;
use crate::error::LexError;
use crate::error::ParseError;
use crate::error::ParseErrorView;
use crate::spans::lemma_spans_tile;
use crate::spans::lemma_tokens_keep_spans;
use crate::spans::tiled;
use crate::text::after_blanks;
use crate::text::char_continues_word;
use crate::text::char_is_ascii_digit;
use crate::text::char_is_blank;
use crate::text::char_starts_word;
use crate::text::continues_word;
use crate::text::digits_end;
use crate::text::is_ascii_digit;
use crate::text::is_blank;
use crate::text::lemma_run_end_is_scan;
use crate::text::lemma_scan_is_run_end;
use crate::text::line_end;
use crate::text::starts_word;
use crate::text::str_equal;
use crate::text::word_end;

verus! {

/// The kind of a token.
#[derive(Debug, Clone, Copy, PartialEq, Eq, Structural)]
pub enum TokenType {
    // Comments
    Comment,
    // Keywords
    Function,
    Const,
    Var,
    // Type keywords
    N64,
    // Identifiers
    Identifer,
    // Literals
    IntegerLiteral,
    // Symbols
    OpenParenthesis,
    CloseParenthesis,
    OpenBrace,
    CloseBrace,
    Colon,
    Equals,
    Semicolon,
    Plus,
    Minus,
    Star,
    Slash,
}

impl TokenType {
    /// The keyword table.
    pub open spec fn keyword_kind(word: Seq<char>) -> Option<TokenType> {
        if word == "function"@ {
            Some(TokenType::Function)
        } else if word == "const"@ {
            Some(TokenType::Const)
        } else if word == "var"@ {
            Some(TokenType::Var)
        } else if word == "n64"@ {
            Some(TokenType::N64)
        } else {
            None
        }
    }

    /// The kind of a word: that of the keyword it spells, else an identifier.
    pub open spec fn word_kind(word: Seq<char>) -> TokenType {
        match Self::keyword_kind(word) {
            Some(kind) => kind,
            None => TokenType::Identifer,
        }
    }

    /// The symbol table.
    pub open spec fn symbol_kind(symbol: char) -> Option<TokenType> {
        if symbol == '(' {
            Some(TokenType::OpenParenthesis)
        } else if symbol == ')' {
            Some(TokenType::CloseParenthesis)
        } else if symbol == '{' {
            Some(TokenType::OpenBrace)
        } else if symbol == '}' {
            Some(TokenType::CloseBrace)
        } else if symbol == ':' {
            Some(TokenType::Colon)
        } else if symbol == '=' {
            Some(TokenType::Equals)
        } else if symbol == ';' {
            Some(TokenType::Semicolon)
        } else if symbol == '+' {
            Some(TokenType::Plus)
        } else if symbol == '-' {
            Some(TokenType::Minus)
        } else if symbol == '*' {
            Some(TokenType::Star)
        } else if symbol == '/' {
            Some(TokenType::Slash)
        } else {
            None
        }
    }

    /// The name of the kind, as it is written in this enumeration.
    pub open spec fn spec_name(self) -> Seq<char> {
        match self {
            TokenType::Comment => "Comment"@,
            TokenType::Function => "Function"@,
            TokenType::Const => "Const"@,
            TokenType::Var => "Var"@,
            TokenType::N64 => "N64"@,
            TokenType::Identifer => "Identifer"@,
            TokenType::IntegerLiteral => "IntegerLiteral"@,
            TokenType::OpenParenthesis => "OpenParenthesis"@,
            TokenType::CloseParenthesis => "CloseParenthesis"@,
            TokenType::OpenBrace => "OpenBrace"@,
            TokenType::CloseBrace => "CloseBrace"@,
            TokenType::Colon => "Colon"@,
            TokenType::Equals => "Equals"@,
            TokenType::Semicolon => "Semicolon"@,
            TokenType::Plus => "Plus"@,
            TokenType::Minus => "Minus"@,
            TokenType::Star => "Star"@,
            TokenType::Slash => "Slash"@,
        }
    }

    /// The kind of the keyword that `string` spells, if it spells one.
    pub fn from_keyword(string: &str) -> (kind: Option<TokenType>)
        ensures
            kind == Self::keyword_kind(string@),
    {
        if str_equal(string, "function") {
            Some(TokenType::Function)
        } else if str_equal(string, "const") {
            Some(TokenType::Const)
        } else if str_equal(string, "var") {
            Some(TokenType::Var)
        } else if str_equal(string, "n64") {
            Some(TokenType::N64)
        } else {
            None
        }
    }

    /// The kind of the one-character token that `symbol` is, if it is one.
    pub fn from_symbol(symbol: char) -> (kind: Option<TokenType>)
        ensures
            kind == Self::symbol_kind(symbol),
    {
        match symbol {
            '(' => Some(TokenType::OpenParenthesis),
            ')' => Some(TokenType::CloseParenthesis),
            '{' => Some(TokenType::OpenBrace),
            '}' => Some(TokenType::CloseBrace),
            ':' => Some(TokenType::Colon),
            '=' => Some(TokenType::Equals),
            ';' => Some(TokenType::Semicolon),
            '+' => Some(TokenType::Plus),
            '-' => Some(TokenType::Minus),
            '*' => Some(TokenType::Star),
            '/' => Some(TokenType::Slash),
            _ => None,
        }
    }

    /// Whether the kind is one of `kinds`.
    pub fn is_one_of(self, kinds: &[TokenType]) -> (found: bool)
        ensures
            found == kinds@.contains(self),
    {
        let mut index: usize = 0;
        while index < kinds.len()
            invariant
                index <= kinds@.len(),
                forall|i: int| 0 <= i < index ==> kinds@[i] != self,
            decreases kinds@.len() - index,
        {
            if kinds[index] == self {
                return true;
            }
            index += 1;
        }
        false
    }

    /// The names of `kinds`, with a comma and a space between each two.
    pub fn names(kinds: &[TokenType]) -> (names: String)
        ensures
            names@ == joined_names(kinds@),
    {
        let mut names = String::new();
        let mut index: usize = 0;
        while index < kinds.len()
            invariant
                index <= kinds@.len(),
                names@ == joined_names(kinds@.take(index as int)),
            decreases kinds@.len() - index,
        {
            if index > 0 {
                names.append(", ");
            }
            names.append(kinds[index].name());
            proof {
                let after = kinds@.take(index + 1);
                assert(after.drop_last() =~= kinds@.take(index as int));
                assert(names@ =~= joined_names(after));
            }
            index += 1;
        }
        assert(kinds@.take(index as int) =~= kinds@);
        names
    }

    /// The name of the kind.
    pub fn name(self) -> (name: &'static str)
        ensures
            name@ == self.spec_name(),
    {
        match self {
            TokenType::Comment => "Comment",
            TokenType::Function => "Function",
            TokenType::Const => "Const",
            TokenType::Var => "Var",
            TokenType::N64 => "N64",
            TokenType::Identifer => "Identifer",
            TokenType::IntegerLiteral => "IntegerLiteral",
            TokenType::OpenParenthesis => "OpenParenthesis",
            TokenType::CloseParenthesis => "CloseParenthesis",
            TokenType::OpenBrace => "OpenBrace",
            TokenType::CloseBrace => "CloseBrace",
            TokenType::Colon => "Colon",
            TokenType::Equals => "Equals",
            TokenType::Semicolon => "Semicolon",
            TokenType::Plus => "Plus",
            TokenType::Minus => "Minus",
            TokenType::Star => "Star",
            TokenType::Slash => "Slash",
        }
    }
}

/// The names of `kinds`, with a comma and a space between each two.
pub open spec fn joined_names(kinds: Seq<TokenType>) -> Seq<char>
    decreases kinds.len(),
{
    if kinds.len() == 0 {
        Seq::empty()
    } else if kinds.len() == 1 {
        kinds[0].spec_name()
    } else {
        joined_names(kinds.drop_last()) + ", "@ + kinds.last().spec_name()
    }
}

/// What a token of another kind than `kind` is answered with.
pub open spec fn expected_message(kind: TokenType) -> Seq<char> {
    "Expected '"@ + kind.spec_name() + "' token"@
}

/// What a token of none of `kinds` is answered with.
pub open spec fn expected_any_message(kinds: Seq<TokenType>) -> Seq<char> {
    "Expected any of '["@ + joined_names(kinds) + "]' token"@
}

/// A token: its kind and the span of the source that it was read from.
#[derive(Debug, Clone, Copy)]
pub struct Token<'a> {
    pub type_: TokenType,
    pub start: usize,
    pub end: usize,
    pub code: &'a str,
}

impl<'a> PartialEq for Token<'a> {
    fn eq(&self, other: &Self) -> (equal: bool) {
        self.type_ == other.type_ && self.start == other.start && self.end == other.end
            && str_equal(self.code, other.code)
    }
}

impl<'a> Eq for Token<'a> {}

impl<'a> PartialEqSpecImpl for Token<'a> {
    open spec fn obeys_eq_spec() -> bool {
        true
    }

    open spec fn eq_spec(&self, other: &Self) -> bool {
        self.same_as(*other)
    }
}

impl<'a> Token<'a> {
    /// What `==` on tokens decides: the same kind, the same span, and sources
    /// that hold the same text.
    pub open spec fn same_as(self, other: Token<'a>) -> bool {
        self.type_ == other.type_ && self.start == other.start && self.end == other.end
            && self.code@ == other.code@
    }

    /// The kind and the positions of the token.
    pub open spec fn span(self) -> Span {
        Span { kind: self.type_, start: self.start as int, end: self.end as int }
    }

    /// The span lies inside the source.
    pub open spec fn valid(&self) -> bool {
        self.start <= self.end <= self.code@.len()
    }

    /// The lexeme: the characters of the source that the span holds.
    pub open spec fn lexeme(&self) -> Seq<char> {
        self.code@.subrange(self.start as int, self.end as int)
    }

    /// Whether the span lies inside the source.
    pub fn is_valid(&self) -> (valid: bool)
        ensures
            valid == self.valid(),
    {
        self.start <= self.end && self.end <= self.code.unicode_len()
    }

    /// The lexeme of the token.
    pub fn text(&self) -> (text: &'a str)
        requires
            self.valid(),
        ensures
            text@ == self.lexeme(),
    {
        self.code.substring_char(self.start, self.end)
    }

    /// This token if it is of kind `type_`, else the error that names `type_`.
    pub open spec fn spec_expect(self, type_: TokenType) -> Result<Token<'a>, ParseErrorView> {
        if self.type_ == type_ {
            Ok(self)
        } else {
            Err(ParseErrorView::at_token(expected_message(type_), self.type_))
        }
    }

    /// This token if its kind is among `types`, else the error that names them.
    pub open spec fn spec_expect_any(self, types: Seq<TokenType>) -> Result<
        Token<'a>,
        ParseErrorView,
    > {
        if types.contains(self.type_) {
            Ok(self)
        } else {
            Err(ParseErrorView::at_token(expected_any_message(types), self.type_))
        }
    }

    /// The kind's name, then the lexeme in parentheses.
    pub open spec fn spec_to_string(&self) -> Seq<char> {
        self.type_.spec_name() + "("@ + self.lexeme() + ")"@
    }

    /// Passes the token on if it is of kind `type_`; else fails with a message
    /// that names `type_`, and with the kind that was found.
    pub fn expect(self, type_: TokenType) -> (result: Result<Self, ParseError>)
        ensures
            agrees(result, self.spec_expect(type_)),
    {
        if self.type_ == type_ {
            Ok(self)
        } else {
            let mut message = String::from_str("Expected '");
            message.append(type_.name());
            message.append("' token");
            Err(ParseError::at_token(message, self.type_))
        }
    }

    /// Passes the token on if its kind is one of `types`; else fails with a
    /// message that names them, and with the kind that was found.
    pub fn expect_any(self, types: &[TokenType]) -> (result: Result<Self, ParseError>)
        ensures
            agrees(result, self.spec_expect_any(types@)),
    {
        if self.type_.is_one_of(types) {
            Ok(self)
        } else {
            let mut message = String::from_str("Expected any of '[");
            message.append(TokenType::names(types).as_str());
            message.append("]' token");
            assert(message@ =~= expected_any_message(types@));
            Err(ParseError::at_token(message, self.type_))
        }
    }

    /// Writes the token for a reader: the name of its kind, then its lexeme
    /// in parentheses.
    pub fn to_string(&self) -> (string: String)
        requires
            self.valid(),
        ensures
            string@ == self.spec_to_string(),
    {
        let mut string = String::from_str(self.type_.name());
        string.append("(");
        string.append(self.text());
        string.append(")");
        assert(string@ =~= self.spec_to_string());
        string
    }
}

/// A cursor into source text. Positions count characters.
#[derive(Debug)]
pub struct LexerState<'a> {
    pub code: &'a str,
    pub current_position: usize,
}

impl<'a> LexerState<'a> {
    /// The character `lookahead` places after the cursor, if the text goes that far.
    pub open spec fn spec_next_char(&self, lookahead: usize) -> Option<char> {
        if self.current_position + lookahead < self.code@.len() {
            Some(self.code@[self.current_position + lookahead])
        } else {
            None
        }
    }

    /// Whether the cursor stands at or after the end of the text.
    pub fn is_end(&self) -> (end: bool)
        ensures
            end == (self.current_position >= self.code@.len()),
            self.code@.len() <= usize::MAX,
    {
        self.current_position >= self.code.unicode_len()
    }

    /// The character at the cursor.
    pub fn current_char(&self) -> (character: char)
        requires
            self.current_position < self.code@.len(),
        ensures
            character == self.code@[self.current_position as int],
    {
        self.code.get_char(self.current_position)
    }

    /// The character `lookahead` places after the cursor, if the text goes
    /// that far.
    pub fn next_char(&self, lookahead: usize) -> (character: Option<char>)
        ensures
            character == self.spec_next_char(lookahead),
    {
        let length = self.code.unicode_len();
        if self.current_position < length && lookahead < length - self.current_position {
            Some(self.code.get_char(self.current_position + lookahead))
        } else {
            None
        }
    }

    /// Moves the cursor to the first character at or after it that is no
    /// whitespace, or to the end of the text.
    pub fn skip_whitespace(&mut self) -> (state: &Self)
        ensures
            final(self).code == old(self).code,
            final(self).current_position == after_blanks(
                old(self).code@,
                old(self).current_position as int,
            ),
            *state == *final(self),
    {
        let length = self.code.unicode_len();
        let ghost start = self.current_position as int;
        while self.current_position < length && char_is_blank(self.current_char())
            invariant
                self.code == old(self).code,
                length == self.code@.len(),
                start == old(self).current_position,
                start <= self.current_position,
                start <= length ==> self.current_position <= length,
                start > length ==> self.current_position == start,
                forall|i: int|
                    start <= i < self.current_position ==> is_blank(
                        #[trigger] self.code@[i],
                    ),
            decreases length - self.current_position,
        {
            self.current_position += 1;
        }
        proof {
            if start <= length {
                lemma_run_end_is_scan(
                    self.code@,
                    start,
                    self.current_position as int,
                    |c: char| is_blank(c),
                );
            }
        }
        self
    }

    /// Reads the longest run of characters from the cursor on which
    /// `predicate` holds, and leaves the cursor behind it.
    pub fn next_of_kind(&mut self, predicate: impl Fn(&char) -> bool) -> (run: &'a str)
        requires
            old(self).current_position <= old(self).code@.len(),
            forall|c: char| call_requires(predicate, (&c,)),
        ensures
            final(self).code == old(self).code,
            old(self).current_position <= final(self).current_position <= old(self).code@.len(),
            forall|i: int|
                old(self).current_position <= i < final(self).current_position ==> call_ensures(
                    predicate,
                    (&#[trigger] old(self).code@[i],),
                    true,
                ),
            final(self).current_position < old(self).code@.len() ==> call_ensures(
                predicate,
                (&old(self).code@[final(self).current_position as int],),
                false,
            ),
            run@ == old(self).code@.subrange(
                old(self).current_position as int,
                final(self).current_position as int,
            ),
    {
        let start = self.current_position;
        let length = self.code.unicode_len();
        while self.current_position < length
            invariant
                self.code == old(self).code,
                length == self.code@.len(),
                start == old(self).current_position,
                start <= self.current_position <= length,
                forall|c: char| call_requires(predicate, (&c,)),
                forall|i: int|
                    start <= i < self.current_position ==> call_ensures(
                        predicate,
                        (&#[trigger] self.code@[i],),
                        true,
                    ),
            ensures
                self.current_position < length ==> call_ensures(
                    predicate,
                    (&self.code@[self.current_position as int],),
                    false,
                ),
            decreases length - self.current_position,
        {
            let character = self.current_char();
            if !predicate(&character) {
                break;
            }
            self.current_position += 1;
        }
        self.code.substring_char(start, self.current_position)
    }

    /// Reads the word at the cursor.
    pub fn next_word(&mut self) -> (word: &'a str)
        requires
            old(self).current_position <= old(self).code@.len(),
        ensures
            final(self).code == old(self).code,
            final(self).current_position == word_end(
                old(self).code@,
                old(self).current_position as int,
            ),
            word@ == old(self).code@.subrange(
                old(self).current_position as int,
                final(self).current_position as int,
            ),
    {
        let ghost keep = |c: char| continues_word(c);
        let predicate = |character: &char| -> (b: bool)
            ensures
                b == continues_word(*character),
            {
                char_continues_word(*character)
            };
        let word = self.next_of_kind(predicate);
        proof {
            lemma_run_end_is_scan(
                self.code@,
                old(self).current_position as int,
                self.current_position as int,
                keep,
            );
        }
        word
    }

    /// Reads the run of ASCII digits at the cursor.
    pub fn next_number_sequence(&mut self) -> (digits: &'a str)
        requires
            old(self).current_position <= old(self).code@.len(),
        ensures
            final(self).code == old(self).code,
            final(self).current_position == digits_end(
                old(self).code@,
                old(self).current_position as int,
            ),
            digits@ == old(self).code@.subrange(
                old(self).current_position as int,
                final(self).current_position as int,
            ),
    {
        let ghost keep = |c: char| is_ascii_digit(c);
        let predicate = |character: &char| -> (b: bool)
            ensures
                b == is_ascii_digit(*character),
            {
                char_is_ascii_digit(*character)
            };
        let digits = self.next_of_kind(predicate);
        proof {
            lemma_run_end_is_scan(
                self.code@,
                old(self).current_position as int,
                self.current_position as int,
                keep,
            );
        }
        digits
    }

    /// Moves the cursor one character on; `None` says that it then stands at
    /// the end of the text.
    pub fn advance(&mut self) -> (state: Option<&Self>)
        requires
            old(self).current_position < usize::MAX,
        ensures
            final(self).code == old(self).code,
            final(self).current_position == old(self).current_position + 1,
            state is None <==> final(self).current_position >= final(self).code@.len(),
            state matches Some(same) ==> *same == *final(self),
    {
        self.current_position += 1;
        if self.is_end() {
            None
        } else {
            Some(self)
        }
    }
}

/// The token that begins at `start`, a position inside `text` that holds no
/// whitespace: its kind and where it ends, or the error for a character that
/// begins no token.
pub open spec fn token_at(text: Seq<char>, start: int) -> Result<(TokenType, int), LexError> {
    let first = text[start];
    if first == '/' {
        if start + 1 < text.len() && text[start + 1] == '/' {
            Ok((TokenType::Comment, line_end(text, start)))
        } else {
            Ok((TokenType::Slash, start + 1))
        }
    } else if starts_word(first) {
        let end = word_end(text, start);
        Ok((TokenType::word_kind(text.subrange(start, end)), end))
    } else if is_ascii_digit(first) {
        Ok((TokenType::IntegerLiteral, digits_end(text, start)))
    } else {
        match TokenType::symbol_kind(first) {
            Some(kind) => Ok((kind, start + 1)),
            None => Err(LexError { character: first, position: start as usize }),
        }
    }
}

/// A token is not empty and ends inside the text.
pub proof fn lemma_token_advances(text: Seq<char>, start: int)
    requires
        0 <= start < text.len(),
    ensures
        token_at(text, start) matches Ok((_, end)) ==> start < end <= text.len(),
{
    let first = text[start];
    if first == '/' {
        if start + 1 < text.len() && text[start + 1] == '/' {
            lemma_scan_is_run_end(text, start + 1, |c: char| c != '\n');
        }
    } else if starts_word(first) {
        lemma_scan_is_run_end(text, start + 1, |c: char| continues_word(c));
    } else if is_ascii_digit(first) {
        lemma_scan_is_run_end(text, start + 1, |c: char| is_ascii_digit(c));
    }
}

/// A token as mathematical values: its kind, and the positions in the text at
/// which it begins and before which it ends.
pub struct Span {
    pub kind: TokenType,
    pub start: int,
    pub end: int,
}

impl Span {
    /// The characters of `text` that the span holds.
    pub open spec fn lexeme(self, text: Seq<char>) -> Seq<char> {
        text.subrange(self.start, self.end)
    }
}

/// The tokens of `text` from position `from` on, or the first error.
pub open spec fn spans_from(text: Seq<char>, from: nat) -> Result<Seq<Span>, LexError>
    decreases text.len() - from,
{
    let start = after_blanks(text, from as int);
    if start < text.len() {
        match token_at(text, start) {
            Ok((kind, end)) => {
                proof {
                    lemma_scan_is_run_end(text, from as int, |c: char| is_blank(c));
                    lemma_token_advances(text, start);
                }
                match spans_from(text, end as nat) {
                    Ok(rest) => Ok(seq![Span { kind, start, end }] + rest),
                    Err(error) => Err(error),
                }
            },
            Err(error) => Err(error),
        }
    } else {
        Ok(Seq::empty())
    }
}

/// The tokens of `text`, or the error for the first character that begins none.
pub open spec fn spans(text: Seq<char>) -> Result<Seq<Span>, LexError> {
    spans_from(text, 0)
}

/// The token of `code` that has the kind and the positions of `span`.
pub open spec fn token_of<'a>(code: &'a str, span: Span) -> Token<'a> {
    Token { type_: span.kind, start: span.start as usize, end: span.end as usize, code }
}

/// The tokens of `code`, each with `code` as its source, or the error for the
/// first character that begins none.
pub open spec fn tokenize<'a>(code: &'a str) -> Result<Seq<Token<'a>>, LexError> {
    match spans(code@) {
        Ok(list) => Ok(list.map_values(|span: Span| token_of(code, span))),
        Err(error) => Err(error),
    }
}

/// Each of `tokens` is a span of its source.
pub open spec fn all_valid<'a>(tokens: Seq<Token<'a>>) -> bool {
    forall|i: int| 0 <= i < tokens.len() ==> (#[trigger] tokens[i]).valid()
}

/// `before`, then what `rest` holds; the error of `rest` if it is one.
pub open spec fn followed_by(before: Seq<Span>, rest: Result<Seq<Span>, LexError>) -> Result<
    Seq<Span>,
    LexError,
> {
    match rest {
        Ok(more) => Ok(before + more),
        Err(error) => Err(error),
    }
}

/// Reads `code` into tokens. Comments are tokens too. Fails at the first
/// character that begins no token.
///
/// The tokens are in the order of the text, none is empty, and whitespace
/// alone lies between them, before the first and after the last.
pub fn lex<'a>(code: &'a str) -> (result: Result<Vec<Token<'a>>, LexError>)
    ensures
        result matches Ok(tokens) ==> tokenize(code) == Ok::<Seq<Token<'a>>, LexError>(tokens@),
        result matches Err(error) ==> tokenize(code) == Err::<Seq<Token<'a>>, LexError>(error),
        result matches Ok(tokens) ==> all_valid(tokens@) && tiled(
            code@,
            tokens@.map_values(|token: Token<'a>| token.span()),
            0,
        ),
{
    let mut state = LexerState { code, current_position: 0 };
    let mut tokens: Vec<Token<'a>> = Vec::new();
    let ghost mut read: Seq<Span> = Seq::empty();
    proof {
        assert(read + spans_from(code@, 0)->Ok_0 =~= spans_from(code@, 0)->Ok_0);
        assert(tokens@ =~= read.map_values(|span: Span| token_of(code, span)));
    }

    while !state.is_end()
        invariant
            state.code == code,
            state.current_position <= code@.len(),
            spans(code@) == followed_by(read, spans_from(code@, state.current_position as nat)),
            tokens@ == read.map_values(|span: Span| token_of(code, span)),
        ensures
            code@.len() <= usize::MAX,
            spans(code@) == Ok::<Seq<Span>, LexError>(read),
            tokens@ == read.map_values(|span: Span| token_of(code, span)),
        decreases code@.len() - state.current_position,
    {
        let ghost from = state.current_position as nat;
        proof {
            lemma_scan_is_run_end(code@, from as int, |c: char| is_blank(c));
        }
        state.skip_whitespace();
        if state.is_end() {
            assert(read + Seq::<Span>::empty() =~= read);
            break;
        }
        let start = state.current_position;
        proof {
            lemma_token_advances(code@, start as int);
        }
        let first = state.current_char();
        let kind = if first == '/' {
            let second = state.next_char(1);
            if second == Some('/') {
                let not_line_feed = |character: &char| -> (b: bool)
                    ensures
                        b == (*character != '\n'),
                    {
                        *character != '\n'
                    };
                state.next_of_kind(not_line_feed);
                proof {
                    lemma_run_end_is_scan(
                        code@,
                        start as int,
                        state.current_position as int,
                        |c: char| c != '\n',
                    );
                }
                TokenType::Comment
            } else {
                state.advance();
                TokenType::Slash
            }
        } else if char_starts_word(first) {
            let word = state.next_word();
            match TokenType::from_keyword(word) {
                Some(keyword_type) => keyword_type,
                None => TokenType::Identifer,
            }
        } else if char_is_ascii_digit(first) {
            state.next_number_sequence();
            TokenType::IntegerLiteral
        } else {
            state.advance();
            match TokenType::from_symbol(first) {
                Some(symbol_type) => symbol_type,
                None => {
                    return Err(LexError { character: first, position: start });
                },
            }
        };
        let token = Token { type_: kind, start, end: state.current_position, code };
        tokens.push(token);
        proof {
            let span = Span { kind, start: start as int, end: state.current_position as int };
            let rest = spans_from(code@, state.current_position as nat);
            assert(token_at(code@, start as int) == Ok::<(TokenType, int), LexError>(
                (kind, state.current_position as int),
            ));
            if rest is Ok {
                assert(read + (seq![span] + rest->Ok_0) =~= read.push(span) + rest->Ok_0);
            }
            assert(token == token_of(code, span));
            assert(tokens@ =~= read.push(span).map_values(|span: Span| token_of(code, span)));
            read = read.push(span);
        }
    }
    proof {
        lemma_spans_tile(code@);
        lemma_tokens_keep_spans(code, read);
    }
    Ok(tokens)
}

} // verus!
