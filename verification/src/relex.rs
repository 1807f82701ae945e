//! Reading a text, writing the lexemes of its tokens one to a line, and
//! reading that again gives tokens of the same kinds with the same lexemes.

use vstd::prelude::*;

use crate::error::LexError;
use crate::lexer::lemma_token_advances;
use crate::lexer::Span;
use crate::lexer::spans;
use crate::lexer::spans_from;
use crate::lexer::token_at;
use crate::lexer::TokenType;
use crate::spans::lemma_spans_in_text;
use crate::text::after_blanks;
use crate::text::continues_word;
use crate::text::is_ascii_digit;
use crate::text::is_blank;
use crate::text::lemma_run_end_is_scan;
use crate::text::lemma_scan_is_run_end;
use crate::text::scan_while;
use crate::text::starts_word;

verus! {

/// The lexemes of `list` in `text`, each with a line feed after it.
pub open spec fn one_per_line(text: Seq<char>, list: Seq<Span>) -> Seq<char>
    decreases list.len(),
{
    if list.len() == 0 {
        Seq::empty()
    } else {
        list[0].lexeme(text) + seq!['\n'] + one_per_line(text, list.drop_first())
    }
}

/// The kinds of `list`, in order.
pub open spec fn kinds(list: Seq<Span>) -> Seq<TokenType> {
    list.map_values(|span: Span| span.kind)
}

/// The lexemes of `list` in `text`, in order.
pub open spec fn lexemes(text: Seq<char>, list: Seq<Span>) -> Seq<Seq<char>> {
    list.map_values(|span: Span| span.lexeme(text))
}

/// `list`, each span moved `by` positions on.
pub open spec fn moved(list: Seq<Span>, by: int) -> Seq<Span> {
    list.map_values(|span: Span| Span { kind: span.kind, start: span.start + by, end: span.end + by })
}

/// A run in a text that stands after `before` ends where it ends in the text
/// alone, `before.len()` positions on.
pub proof fn lemma_scan_after(
    before: Seq<char>,
    text: Seq<char>,
    from: int,
    keep: spec_fn(char) -> bool,
)
    requires
        0 <= from <= text.len(),
    ensures
        scan_while(before + text, before.len() + from, keep) == before.len() + scan_while(
            text,
            from,
            keep,
        ),
{
    lemma_scan_is_run_end(text, from, keep);
    let end = scan_while(text, from, keep);
    let whole = before + text;
    assert forall|i: int| before.len() + from <= i < before.len() + end implies keep(
        #[trigger] whole[i],
    ) by {
        assert(whole[i] == text[i - before.len()]);
    }
    if end < text.len() {
        assert(whole[before.len() + end] == text[end]);
    }
    lemma_run_end_is_scan(whole, before.len() + from, before.len() + end, keep);
}

/// A token of a text that stands after `before` is the token of the text
/// alone, `before.len()` positions on.
pub proof fn lemma_token_after(before: Seq<char>, text: Seq<char>, start: int)
    requires
        0 <= start < text.len(),
    ensures
        token_at(text, start) matches Ok((kind, end)) ==> token_at(
            before + text,
            before.len() + start,
        ) == Ok::<(TokenType, int), LexError>((kind, before.len() + end)),
{
    let whole = before + text;
    let by = before.len() as int;
    assert(whole[by + start] == text[start]);
    if start + 1 < text.len() {
        assert(whole[by + start + 1] == text[start + 1]);
    }
    lemma_scan_after(before, text, start, |c: char| c != '\n');
    lemma_scan_after(before, text, start, |c: char| continues_word(c));
    lemma_scan_after(before, text, start, |c: char| is_ascii_digit(c));
    lemma_token_advances(text, start);
    if let Ok((kind, end)) = token_at(text, start) {
        assert(whole.subrange(by + start, by + end) =~= text.subrange(start, end));
    }
}

/// The tokens of a text that stands after `before` are the tokens of the
/// text alone, `before.len()` positions on.
pub proof fn lemma_spans_after(before: Seq<char>, text: Seq<char>, from: nat)
    requires
        from <= text.len(),
    ensures
        spans_from(text, from) matches Ok(list) ==> spans_from(before + text, before.len() + from)
            == Ok::<Seq<Span>, LexError>(moved(list, before.len() as int)),
    decreases text.len() - from,
{
    let whole = before + text;
    let by = before.len() as int;
    let start = after_blanks(text, from as int);
    lemma_scan_is_run_end(text, from as int, |c: char| is_blank(c));
    lemma_scan_after(before, text, from as int, |c: char| is_blank(c));
    if start < text.len() {
        lemma_token_advances(text, start);
        lemma_token_after(before, text, start);
        if let Ok((kind, end)) = token_at(text, start) {
            lemma_spans_after(before, text, end as nat);
            if let Ok(rest) = spans_from(text, end as nat) {
                let list = seq![Span { kind, start, end }] + rest;
                assert(moved(list, by) =~= seq![Span { kind, start: by + start, end: by + end }]
                    + moved(rest, by));
            }
        }
    } else {
        assert(moved(Seq::<Span>::empty(), by) =~= Seq::<Span>::empty());
    }
}

/// The first line of a text that begins with the lexeme of a token and a
/// line feed reads as a token of the same kind that ends before the line feed.
proof fn lemma_first_line(text: Seq<char>, start: int, after: Seq<char>)
    requires
        0 <= start < text.len(),
        !is_blank(text[start]),
        token_at(text, start) is Ok,
    ensures
        ({
            let (kind, end) = token_at(text, start)->Ok_0;
            let line = text.subrange(start, end) + seq!['\n'] + after;
            &&& after_blanks(line, 0) == 0
            &&& token_at(line, 0) == Ok::<(TokenType, int), LexError>((kind, end - start))
            &&& after_blanks(line, end - start) == after_blanks(line, end - start + 1)
        }),
{
    let (kind, end) = token_at(text, start)->Ok_0;
    lemma_token_advances(text, start);
    let count = end - start;
    let line = text.subrange(start, end) + seq!['\n'] + after;
    assert(forall|i: int| 0 <= i < count ==> line[i] == text[start + i]);
    assert(line[count] == '\n');
    assert(line[0] == text[start]);
    assert(line.subrange(0, count) =~= text.subrange(start, end));
    let first = text[start];
    if first == '/' {
        if start + 1 < text.len() && text[start + 1] == '/' {
            let keep = |c: char| c != '\n';
            lemma_scan_is_run_end(text, start, keep);
            assert(keep(text[start]));
            assert(keep(text[start + 1]));
            assert(count >= 2);
            assert(line[1] == text[start + 1]);
            assert forall|i: int| 0 <= i < count implies keep(#[trigger] line[i]) by {
                assert(keep(text[start + i]));
            }
            lemma_run_end_is_scan(line, 0, count, keep);
        } else {
            assert(line[1] == '\n');
        }
    } else if starts_word(first) {
        let keep = |c: char| continues_word(c);
        lemma_scan_is_run_end(text, start, keep);
        assert forall|i: int| 0 <= i < count implies keep(#[trigger] line[i]) by {
            assert(keep(text[start + i]));
        }
        lemma_run_end_is_scan(line, 0, count, keep);
    } else if is_ascii_digit(first) {
        let keep = |c: char| is_ascii_digit(c);
        lemma_scan_is_run_end(text, start, keep);
        assert forall|i: int| 0 <= i < count implies keep(#[trigger] line[i]) by {
            assert(keep(text[start + i]));
        }
        lemma_run_end_is_scan(line, 0, count, keep);
    }
}

/// What `lemma_lines_read_alike` says, of the tokens read from `from` on.
proof fn lemma_lines_read_alike_from(text: Seq<char>, from: nat)
    requires
        from <= text.len(),
    ensures
        spans_from(text, from) matches Ok(list) ==> {
            let lines = one_per_line(text, list);
            &&& spans(lines) is Ok
            &&& kinds(spans(lines)->Ok_0) == kinds(list)
            &&& lexemes(lines, spans(lines)->Ok_0) == lexemes(text, list)
        },
    decreases text.len() - from,
{
    let start = after_blanks(text, from as int);
    lemma_scan_is_run_end(text, from as int, |c: char| is_blank(c));
    if start < text.len() {
        lemma_token_advances(text, start);
        if let Ok((kind, end)) = token_at(text, start) {
            lemma_lines_read_alike_from(text, end as nat);
            if let Ok(rest) = spans_from(text, end as nat) {
                let span = Span { kind, start, end };
                let list = seq![span] + rest;
                assert(list.drop_first() =~= rest);
                let count = end - start;
                let rest_lines = one_per_line(text, rest);
                let head = span.lexeme(text) + seq!['\n'];
                let lines = one_per_line(text, list);
                assert(lines =~= head + rest_lines);
                assert(lines =~= text.subrange(start, end) + seq!['\n'] + rest_lines);
                lemma_first_line(text, start, rest_lines);
                let again_rest = spans(rest_lines)->Ok_0;
                lemma_spans_after(head, rest_lines, 0);
                assert(spans_from(lines, (count + 1) as nat) == Ok::<Seq<Span>, LexError>(
                    moved(again_rest, count + 1),
                ));
                assert(spans_from(lines, count as nat) == spans_from(lines, (count + 1) as nat));
                let again = seq![Span { kind, start: 0, end: count }] + moved(again_rest, count + 1);
                assert(spans(lines) == Ok::<Seq<Span>, LexError>(again));
                assert(kinds(again) =~= seq![kind] + kinds(again_rest));
                assert(kinds(list) =~= seq![kind] + kinds(rest));
                assert(lexemes(text, list) =~= seq![span.lexeme(text)] + lexemes(text, rest));
                assert(lexemes(lines, again) =~= seq![span.lexeme(text)] + lexemes(
                    rest_lines,
                    again_rest,
                )) by {
                    assert(lines.subrange(0, count) =~= span.lexeme(text));
                    assert forall|i: int| 0 <= i < again_rest.len() implies lines.subrange(
                        again_rest[i].start + count + 1,
                        again_rest[i].end + count + 1,
                    ) == rest_lines.subrange(again_rest[i].start, again_rest[i].end) by {
                        lemma_spans_in_text(rest_lines, 0);
                        assert(lines.subrange(
                            again_rest[i].start + count + 1,
                            again_rest[i].end + count + 1,
                        ) =~= rest_lines.subrange(again_rest[i].start, again_rest[i].end));
                    }
                }
            }
        }
    } else {
        let lines = Seq::<char>::empty();
        assert(one_per_line(text, Seq::<Span>::empty()) =~= lines);
        assert(spans(lines) == Ok::<Seq<Span>, LexError>(Seq::empty()));
        assert(kinds(Seq::<Span>::empty()) =~= Seq::<TokenType>::empty());
        assert(lexemes(lines, Seq::<Span>::empty()) =~= lexemes(text, Seq::<Span>::empty()));
    }
}

/// Reading again what was read: a text that reads as tokens, written as the
/// lexemes of those tokens one to a line, reads as tokens of the same kinds
/// with the same lexemes, in the same order.
pub proof fn lemma_lines_read_alike(text: Seq<char>)
    ensures
        spans(text) matches Ok(list) ==> {
            let lines = one_per_line(text, list);
            &&& spans(lines) is Ok
            &&& kinds(spans(lines)->Ok_0) == kinds(list)
            &&& lexemes(lines, spans(lines)->Ok_0) == lexemes(text, list)
        },
{
    lemma_lines_read_alike_from(text, 0);
}

} // verus!
