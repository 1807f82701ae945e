//! The spans of the tokens of a text: they lie in order, none is empty, and
//! what lies between them is whitespace. Nothing of the text is lost.

use vstd::prelude::*;

use crate::error::LexError;
use crate::lexer::all_valid;
use crate::lexer::lemma_token_advances;
use crate::lexer::Span;
use crate::lexer::spans;
use crate::lexer::spans_from;
use crate::lexer::Token;
use crate::lexer::token_at;
use crate::lexer::token_of;
use crate::lexer::TokenType;
use crate::text::after_blanks;
use crate::text::continues_word;
use crate::text::is_ascii_digit;
use crate::text::is_blank;
use crate::text::lemma_run_end_is_scan;
use crate::text::lemma_scan_is_run_end;
use crate::text::scan_while;
use crate::text::starts_word;

verus! {

/// From `from` to its end, `text` is whitespace, then the first of `list`,
/// then whitespace, then the second, and so on, and whitespace after the
/// last. Each span lies in the text and holds at least one character.
pub open spec fn tiled(text: Seq<char>, list: Seq<Span>, from: int) -> bool
    decreases list.len(),
{
    if list.len() == 0 {
        forall|p: int| from <= p < text.len() ==> is_blank(#[trigger] text[p])
    } else {
        let first = list[0];
        &&& from <= first.start < first.end <= text.len()
        &&& forall|p: int| from <= p < first.start ==> is_blank(#[trigger] text[p])
        &&& tiled(text, list.drop_first(), first.end)
    }
}

/// What the text between `from` and the first span, the lexeme of each span
/// and the text after each span up to the next make when they are put
/// together in order.
pub open spec fn rebuilt(text: Seq<char>, list: Seq<Span>, from: int) -> Seq<char>
    decreases list.len(),
{
    if list.len() == 0 {
        text.subrange(from, text.len() as int)
    } else {
        let first = list[0];
        text.subrange(from, first.start) + first.lexeme(text) + rebuilt(
            text,
            list.drop_first(),
            first.end,
        )
    }
}

/// The tokens read from `from` on tile the text from `from` on, and putting
/// the pieces together gives that text back.
pub proof fn lemma_spans_tile_from(text: Seq<char>, from: nat)
    requires
        from <= text.len(),
    ensures
        spans_from(text, from) matches Ok(list) ==> {
            &&& tiled(text, list, from as int)
            &&& rebuilt(text, list, from as int) == text.subrange(from as int, text.len() as int)
        },
    decreases text.len() - from,
{
    let start = after_blanks(text, from as int);
    lemma_scan_is_run_end(text, from as int, |c: char| is_blank(c));
    if start < text.len() {
        lemma_token_advances(text, start);
        if let Ok((kind, end)) = token_at(text, start) {
            lemma_spans_tile_from(text, end as nat);
            if let Ok(rest) = spans_from(text, end as nat) {
                let list = seq![Span { kind, start, end }] + rest;
                assert(spans_from(text, from) == Ok::<Seq<Span>, LexError>(list));
                assert(list.drop_first() =~= rest);
                assert(text.subrange(from as int, start) + text.subrange(start, end) + text.subrange(
                    end,
                    text.len() as int,
                ) =~= text.subrange(from as int, text.len() as int));
            }
        }
    }
}

/// Reading a text loses nothing of it: the tokens are spans of the text in
/// order, whitespace alone lies outside them, and the lexemes put together
/// with that whitespace are the text.
pub proof fn lemma_spans_tile(text: Seq<char>)
    ensures
        spans(text) matches Ok(list) ==> tiled(text, list, 0) && rebuilt(text, list, 0) == text,
{
    lemma_spans_tile_from(text, 0);
    assert(text.subrange(0, text.len() as int) =~= text);
}

/// Spans that tile a text from `from` on lie at or after `from` and inside
/// the text.
pub proof fn lemma_tiled_spans_in_text(text: Seq<char>, list: Seq<Span>, from: int)
    requires
        tiled(text, list, from),
    ensures
        forall|i: int|
            0 <= i < list.len() ==> from <= (#[trigger] list[i]).start < list[i].end <= text.len(),
    decreases list.len(),
{
    if list.len() > 0 {
        lemma_tiled_spans_in_text(text, list.drop_first(), list[0].end);
        assert forall|i: int| 0 <= i < list.len() implies from <= (#[trigger] list[i]).start
            < list[i].end <= text.len() by {
            if i > 0 {
                assert(list[i] == list.drop_first()[i - 1]);
            }
        }
    }
}

/// The tokens read from `from` on lie at or after `from` and inside the text.
pub proof fn lemma_spans_in_text(text: Seq<char>, from: nat)
    requires
        from <= text.len(),
    ensures
        spans_from(text, from) matches Ok(list) ==> forall|i: int|
            0 <= i < list.len() ==> from <= (#[trigger] list[i]).start < list[i].end <= text.len(),
{
    lemma_spans_tile_from(text, from);
    if let Ok(list) = spans_from(text, from) {
        lemma_tiled_spans_in_text(text, list, from as int);
    }
}

/// No token begins with `c`: it is no whitespace either.
pub open spec fn begins_no_token(c: char) -> bool {
    &&& !is_blank(c)
    &&& !starts_word(c)
    &&& !is_ascii_digit(c)
    &&& TokenType::symbol_kind(c) is None
}

/// A failure from `from` on names a character of the text at or after
/// `from` and its position, and no token begins with that character.
pub proof fn lemma_error_names_character_from(text: Seq<char>, from: nat)
    requires
        from <= text.len() <= usize::MAX,
    ensures
        spans_from(text, from) matches Err(error) ==> {
            &&& from <= error.position < text.len()
            &&& text[error.position as int] == error.character
            &&& begins_no_token(error.character)
        },
    decreases text.len() - from,
{
    let start = after_blanks(text, from as int);
    lemma_scan_is_run_end(text, from as int, |c: char| is_blank(c));
    if start < text.len() {
        lemma_token_advances(text, start);
        if let Ok((_, end)) = token_at(text, start) {
            lemma_error_names_character_from(text, end as nat);
        }
    }
}

/// Where reading a text fails, the failure names a character of the text
/// and its position, and no token begins with that character.
pub proof fn lemma_error_names_character(text: Seq<char>)
    requires
        text.len() <= usize::MAX,
    ensures
        spans(text) matches Err(error) ==> {
            &&& error.position < text.len()
            &&& text[error.position as int] == error.character
            &&& begins_no_token(error.character)
        },
{
    lemma_error_names_character_from(text, 0);
}

/// A run in the first `cut` characters of a text ends where it ends in the
/// text, or at the cut if it goes beyond.
pub proof fn lemma_scan_before_cut(
    text: Seq<char>,
    cut: int,
    from: int,
    keep: spec_fn(char) -> bool,
)
    requires
        0 <= from <= cut <= text.len(),
    ensures
        scan_while(text.take(cut), from, keep) == if scan_while(text, from, keep) <= cut {
            scan_while(text, from, keep)
        } else {
            cut
        },
{
    lemma_scan_is_run_end(text, from, keep);
    let end = scan_while(text, from, keep);
    let stop = if end <= cut {
        end
    } else {
        cut
    };
    let before = text.take(cut);
    assert forall|i: int| from <= i < stop implies keep(#[trigger] before[i]) by {
        assert(before[i] == text[i]);
    }
    if stop < before.len() {
        assert(before[stop] == text[stop]);
    }
    lemma_run_end_is_scan(before, from, stop, keep);
}

/// A token that ends at or before the cut is the same token in the first
/// `cut` characters of the text.
proof fn lemma_token_before_cut(text: Seq<char>, cut: int, start: int)
    requires
        0 <= start < cut <= text.len(),
    ensures
        token_at(text, start) matches Ok((kind, end)) ==> end <= cut ==> token_at(
            text.take(cut),
            start,
        ) == Ok::<(TokenType, int), LexError>((kind, end)),
{
    let before = text.take(cut);
    assert(before[start] == text[start]);
    if start + 1 < cut {
        assert(before[start + 1] == text[start + 1]);
    }
    lemma_token_advances(text, start);
    lemma_scan_before_cut(text, cut, start, |c: char| c != '\n');
    lemma_scan_before_cut(text, cut, start, |c: char| continues_word(c));
    lemma_scan_before_cut(text, cut, start, |c: char| is_ascii_digit(c));
    if let Ok((kind, end)) = token_at(text, start) {
        if end <= cut {
            assert(before.subrange(start, end) =~= text.subrange(start, end));
            if text[start] == '/' && start + 1 < text.len() && text[start + 1] == '/' {
                lemma_scan_is_run_end(text, start, |c: char| c != '\n');
                assert((|c: char| c != '\n')(text[start]));
                assert((|c: char| c != '\n')(text[start + 1]));
                assert(start + 2 <= end);
            }
        }
    }
}

/// What is read before a failure is read all the same where the text ends
/// at the character that the failure names.
proof fn lemma_reads_up_to_error_from(text: Seq<char>, from: nat)
    requires
        from <= text.len() <= usize::MAX,
    ensures
        spans_from(text, from) matches Err(error) ==> spans_from(
            text.take(error.position as int),
            from,
        ) is Ok,
    decreases text.len() - from,
{
    if let Err(error) = spans_from(text, from) {
        lemma_error_names_character_from(text, from);
        let cut = error.position as int;
        let before = text.take(cut);
        let start = after_blanks(text, from as int);
        lemma_scan_is_run_end(text, from as int, |c: char| is_blank(c));
        lemma_scan_before_cut(text, cut, from as int, |c: char| is_blank(c));
        lemma_token_advances(text, start);
        if let Ok((kind, end)) = token_at(text, start) {
            lemma_error_names_character_from(text, end as nat);
            lemma_token_before_cut(text, cut, start);
            lemma_reads_up_to_error_from(text, end as nat);
        }
    }
}

/// The failure is the leftmost: all of the text before the character that
/// it names reads as tokens.
pub proof fn lemma_reads_up_to_error(text: Seq<char>)
    requires
        text.len() <= usize::MAX,
    ensures
        spans(text) matches Err(error) ==> spans(text.take(error.position as int)) is Ok,
{
    lemma_reads_up_to_error_from(text, 0);
}

/// In a source that a machine can hold, the tokens made of spans that tile
/// its text are spans of their source, and have the kinds and the positions
/// that they were made of.
pub proof fn lemma_tokens_keep_spans<'a>(code: &'a str, list: Seq<Span>)
    requires
        code@.len() <= usize::MAX,
        tiled(code@, list, 0),
    ensures
        all_valid(list.map_values(|span: Span| token_of(code, span))),
        list.map_values(|span: Span| token_of(code, span)).map_values(
            |token: Token<'a>| token.span(),
        ) == list,
{
    lemma_tiled_spans_in_text(code@, list, 0);
    let tokens = list.map_values(|span: Span| token_of(code, span));
    assert forall|i: int| 0 <= i < tokens.len() implies (#[trigger] tokens[i]).valid() by {
        assert(tokens[i] == token_of(code, list[i]));
    }
    assert(tokens.map_values(|token: Token<'a>| token.span()) =~= list) by {
        assert forall|i: int| 0 <= i < list.len() implies tokens[i].span() == list[i] by {
            assert(tokens[i] == token_of(code, list[i]));
        }
    }
}

} // verus!
