//! What holds of reading and writing scale files, whatever the file.

use crate::cents::lemma_cents_literal_chars;
use crate::decimal::{decimal_of, lemma_decimal_of, lemma_unsigned_of_decimal};
use crate::note::{law_note_round_trip, lemma_ratio_token, token_of_note, NoteView};
use crate::scale::{
    content_lines, count_of_line, counts, first_line, is_comment, lines_of, note_of_line,
    notes_of_lines, notes_text, scale_of_text, strip_cr, text_of_scale, ScaleError, ScaleView,
};
use crate::text::{
    all_in, first_token, is_space, lemma_run_back_is, lemma_run_bounds, lemma_run_concat,
    lemma_run_is, run, trimmed, CharClass,
};
use vstd::prelude::*;

verus! {

/// A character that neither ends a line nor parts two tokens nor starts a
/// comment.
pub open spec fn is_plain(c: char) -> bool {
    !is_space(c) && c != '!'
}

/// A line without a line feed in it, closed by one: the first of the lines,
/// and the rest of the text holds the others.
pub proof fn lemma_lines_of_line(line: Seq<char>, rest: Seq<char>)
    requires
        all_in(line, CharClass::InLine),
    ensures
        lines_of(line + seq!['\n'] + rest) == seq![strip_cr(line)] + lines_of(rest),
{
    let text = line + seq!['\n'] + rest;
    lemma_run_is(text, CharClass::InLine, line.len() as int);
    assert(text.take(line.len() as int) == line);
    assert(text.skip(line.len() as int + 1) == rest);
}

/// A text without a line feed in it is one line, unless it is empty.
pub proof fn lemma_lines_of_last_line(line: Seq<char>)
    requires
        all_in(line, CharClass::InLine),
        line.len() > 0,
    ensures
        lines_of(line) == seq![line],
{
    lemma_run_is(line, CharClass::InLine, line.len() as int);
    assert(line.skip(line.len() as int).len() == 0);
    assert(lines_of(line.skip(line.len() as int)) == Seq::<Seq<char>>::empty());
}

/// Where the first text ends with a line, the lines of two texts put together
/// are the lines of the first and then those of the second.
pub proof fn lemma_lines_concat(a: Seq<char>, b: Seq<char>)
    requires
        a.len() == 0 || a.last() == '\n',
    ensures
        lines_of(a + b) == lines_of(a) + lines_of(b),
    decreases a.len(),
{
    if a.len() == 0 {
        assert(a + b == b);
        assert(lines_of(a) + lines_of(b) == lines_of(b));
    } else {
        let end = run(a, CharClass::InLine) as int;
        lemma_run_bounds(a, CharClass::InLine);
        if end == a.len() {
            assert(a.take(end)[end - 1] == a.last());
        }
        lemma_run_concat(a, b, CharClass::InLine);
        let rest = a.skip(end + 1);
        assert((a + b).take(end) == a.take(end));
        assert((a + b).skip(end + 1) == rest + b);
        if rest.len() > 0 {
            assert(rest.last() == a.last());
        }
        lemma_lines_concat(rest, b);
        assert(seq![first_line(a)] + (lines_of(rest) + lines_of(b)) == (seq![first_line(a)]
            + lines_of(rest)) + lines_of(b));
    }
}

/// Leaving out the comments of lines that hold none leaves them all.
pub proof fn lemma_no_comments(lines: Seq<Seq<char>>)
    requires
        forall|i: int| 0 <= i < lines.len() ==> !is_comment(#[trigger] lines[i]),
    ensures
        lines.filter(counts()) == lines,
    decreases lines.len(),
{
    reveal(Seq::filter);
    if lines.len() > 0 {
        lemma_no_comments(lines.drop_last());
        assert(lines.drop_last().push(lines.last()) == lines);
    }
}

/// Leaving out the comments of a single comment leaves nothing.
pub proof fn lemma_one_comment(line: Seq<char>)
    requires
        is_comment(line),
    ensures
        seq![line].filter(counts()) == Seq::<Seq<char>>::empty(),
{
    reveal_with_fuel(Seq::filter, 2);
    assert(seq![line].drop_last() == Seq::<Seq<char>>::empty());
}

/// Where the first text ends with a line, the lines that count in two texts
/// put together are those of the first and then those of the second.
pub proof fn lemma_content_lines_concat(a: Seq<char>, b: Seq<char>)
    requires
        a.len() == 0 || a.last() == '\n',
    ensures
        content_lines(a + b) == content_lines(a) + content_lines(b),
{
    lemma_lines_concat(a, b);
    Seq::filter_distributes_over_add(lines_of(a), lines_of(b), counts());
}

/// A comment line at the start of a text counts for nothing.
pub proof fn lemma_content_lines_of_comment(comment: Seq<char>, after: Seq<char>)
    requires
        is_comment(comment),
        all_in(comment, CharClass::InLine),
    ensures
        content_lines(comment + seq!['\n'] + after) == content_lines(after),
        content_lines(comment) == Seq::<Seq<char>>::empty(),
{
    let none = Seq::<Seq<char>>::empty();
    assert(content_lines(comment + seq!['\n'] + after) == content_lines(after)) by {
        lemma_lines_of_line(comment, after);
        assert(is_comment(strip_cr(comment)));
        lemma_one_comment(strip_cr(comment));
        Seq::filter_distributes_over_add(seq![strip_cr(comment)], lines_of(after), counts());
        assert(none + content_lines(after) == content_lines(after));
    }
    assert(content_lines(comment) == none) by {
        lemma_lines_of_last_line(comment);
        lemma_one_comment(comment);
    }
}

/// A comment line put in where a line starts, or added as the last line,
/// changes nothing of what the text describes.
pub proof fn law_comments_are_transparent(before: Seq<char>, comment: Seq<char>, after: Seq<char>)
    requires
        before.len() == 0 || before.last() == '\n',
        is_comment(comment),
        all_in(comment, CharClass::InLine),
    ensures
        scale_of_text(before + comment + seq!['\n'] + after) == scale_of_text(before + after),
        scale_of_text(before + comment) == scale_of_text(before),
{
    let line = comment + seq!['\n'] + after;
    assert(before + comment + seq!['\n'] + after == before + line);
    lemma_content_lines_concat(before, line);
    lemma_content_lines_concat(before, after);
    lemma_content_lines_concat(before, comment);
    lemma_content_lines_of_comment(comment, after);
    assert(content_lines(before) + Seq::<Seq<char>>::empty() == content_lines(before));
}

/// The number of notes of a scale that was read is the number that its file
/// declares.
pub proof fn law_count_is_number_of_notes(text: Seq<char>)
    ensures
        scale_of_text(text) matches Ok(scale) ==> {
            &&& content_lines(text).len() == 2 + scale.notes.len()
            &&& count_of_line(content_lines(text)[1]) == Some(scale.notes.len())
        },
{
    let lines = content_lines(text);
    if scale_of_text(text) is Ok {
        lemma_notes_len(lines.skip(2));
    }
}

/// There are as many notes as lines that hold them.
pub proof fn lemma_notes_len(lines: Seq<Seq<char>>)
    ensures
        notes_of_lines(lines) matches Ok(notes) ==> notes.len() == lines.len(),
    decreases lines.len(),
{
    if lines.len() > 0 {
        lemma_notes_len(lines.drop_last());
    }
}

/// What follows the first token of a line, after white space, is ignored.
pub proof fn law_trailing_text_is_ignored(
    line: Seq<char>,
    space: char,
    extra: Seq<char>,
    index: nat,
)
    requires
        first_token(line).len() > 0,
        is_space(space),
    ensures
        first_token(line + seq![space] + extra) == first_token(line),
        note_of_line(line + seq![space] + extra, index) == note_of_line(line, index),
{
    let tail = seq![space] + extra;
    assert(line + seq![space] + extra == line + tail);
    let k = run(line, CharClass::Space) as int;
    lemma_run_bounds(line, CharClass::Space);
    lemma_run_concat(line, tail, CharClass::Space);
    let rest = line.skip(k);
    assert((line + tail).skip(k) == rest + tail);
    lemma_run_bounds(rest, CharClass::Token);
    lemma_run_concat(rest, tail, CharClass::Token);
    assert(tail[0] == space);
    let t = run(rest, CharClass::Token) as int;
    assert((rest + tail).take(t) == rest.take(t));
}

/// The token of a well-formed note is a line of its own: made of plain
/// characters, at least one, so that it is its own first token.
pub proof fn lemma_token_is_plain(note: NoteView)
    requires
        note.wf(),
    ensures
        token_of_note(note).len() > 0,
        forall|i: int|
            0 <= i < token_of_note(note).len() ==> is_plain(#[trigger] token_of_note(note)[i]),
{
    let token = token_of_note(note);
    match note {
        NoteView::Cents(literal) => {
            lemma_cents_literal_chars(literal);
        },
        NoteView::Ratio(numer, denom) => {
            lemma_ratio_token(numer, denom);
            lemma_decimal_of(numer);
        },
    }
}

/// A line made of plain characters, at least one: no comment, no line feed or
/// carriage return in it, and its own first token without white space around.
pub proof fn lemma_plain_line(line: Seq<char>)
    requires
        line.len() > 0,
        forall|i: int| 0 <= i < line.len() ==> is_plain(#[trigger] line[i]),
    ensures
        all_in(line, CharClass::InLine),
        strip_cr(line) == line,
        !is_comment(line),
        first_token(line) == line,
        trimmed(line) == line,
{
    assert(is_plain(line[0]));
    assert(is_plain(line.last()));
    assert forall|i: int| 0 <= i < line.len() implies CharClass::InLine.has(#[trigger] line[i]) by {
        assert(is_plain(line[i]));
    }
    lemma_run_is(line, CharClass::Space, 0);
    assert(line.skip(0) == line);
    assert forall|i: int| 0 <= i < line.len() implies CharClass::Token.has(#[trigger] line[i]) by {
        assert(is_plain(line[i]));
    }
    lemma_run_is(line, CharClass::Token, line.len() as int);
    assert(line.take(line.len() as int) == line);
    lemma_run_back_is(line, CharClass::Space, 0);
}

/// The tokens of the given notes, one for each.
pub open spec fn tokens_of(notes: Seq<NoteView>) -> Seq<Seq<char>> {
    notes.map_values(|note: NoteView| token_of_note(note))
}

/// The lines of the text of well-formed notes are their tokens.
pub proof fn lemma_lines_of_notes_text(notes: Seq<NoteView>)
    requires
        forall|i: int| 0 <= i < notes.len() ==> (#[trigger] notes[i]).wf(),
    ensures
        lines_of(notes_text(notes)) == tokens_of(notes),
        notes_text(notes).len() == 0 || notes_text(notes).last() == '\n',
    decreases notes.len(),
{
    if notes.len() == 0 {
        assert(tokens_of(notes) == Seq::<Seq<char>>::empty());
    } else {
        let front = notes.drop_last();
        let token = token_of_note(notes.last());
        lemma_lines_of_notes_text(front);
        assert(notes.last().wf());
        lemma_token_is_plain(notes.last());
        lemma_plain_line(token);
        let none = Seq::<char>::empty();
        assert(notes_text(notes) == notes_text(front) + (token + seq!['\n'] + none));
        lemma_lines_concat(notes_text(front), token + seq!['\n'] + none);
        lemma_lines_of_line(token, none);
        assert(tokens_of(front) + (seq![token] + Seq::<Seq<char>>::empty()) == tokens_of(notes));
    }
}

/// Reading the tokens of well-formed notes, one on each line, gives the
/// notes.
pub proof fn lemma_notes_of_tokens(notes: Seq<NoteView>)
    requires
        forall|i: int| 0 <= i < notes.len() ==> (#[trigger] notes[i]).wf(),
    ensures
        notes_of_lines(tokens_of(notes)) == Ok::<Seq<NoteView>, ScaleError>(notes),
    decreases notes.len(),
{
    let lines = tokens_of(notes);
    if notes.len() == 0 {
        assert(notes == Seq::<NoteView>::empty());
    } else {
        let front = notes.drop_last();
        lemma_notes_of_tokens(front);
        assert(lines.drop_last() == tokens_of(front));
        assert(notes.last().wf());
        lemma_token_is_plain(notes.last());
        lemma_plain_line(lines.last());
        law_note_round_trip(notes.last());
        assert(front.push(notes.last()) == notes);
    }
}

/// The lines of the text of a well-formed scale: the description, the number
/// of notes and the tokens of the notes, none of them a comment.
pub proof fn lemma_lines_of_scale_text(scale: ScaleView)
    requires
        scale.wf(),
    ensures
        content_lines(text_of_scale(scale)) == seq![
            scale.description,
            decimal_of(scale.notes.len()),
        ] + tokens_of(scale.notes),
        trimmed(decimal_of(scale.notes.len())) == decimal_of(scale.notes.len()),
{
    let count = decimal_of(scale.notes.len());
    let body = notes_text(scale.notes);
    let tail = count + seq!['\n'] + body;
    let tokens = tokens_of(scale.notes);
    let lines = seq![scale.description, count] + tokens;
    assert forall|i: int| 0 <= i < count.len() implies is_plain(#[trigger] count[i]) by {
        lemma_decimal_of(scale.notes.len());
        assert(CharClass::Digit.has(count[i]));
    }
    assert(count.len() > 0) by {
        lemma_decimal_of(scale.notes.len());
    }
    lemma_plain_line(count);
    assert(lines_of(text_of_scale(scale)) == lines) by {
        assert(text_of_scale(scale) == scale.description + seq!['\n'] + tail);
        lemma_lines_of_line(scale.description, tail);
        lemma_lines_of_line(count, body);
        lemma_lines_of_notes_text(scale.notes);
        assert(seq![scale.description] + (seq![count] + tokens) == lines);
    }
    assert forall|i: int| 0 <= i < lines.len() implies !is_comment(#[trigger] lines[i]) by {
        if i >= 2 {
            assert(lines[i] == token_of_note(scale.notes[i - 2]));
            assert(scale.notes[i - 2].wf());
            lemma_token_is_plain(scale.notes[i - 2]);
            lemma_plain_line(lines[i]);
        }
    }
    lemma_no_comments(lines);
}

/// Writing a well-formed scale and reading the text gives the scale back.
pub proof fn law_scale_round_trip(scale: ScaleView)
    requires
        scale.wf(),
    ensures
        scale_of_text(text_of_scale(scale)) == Ok::<ScaleView, ScaleError>(scale),
{
    let count = decimal_of(scale.notes.len());
    let lines = content_lines(text_of_scale(scale));
    lemma_lines_of_scale_text(scale);
    assert(lines.skip(2) == tokens_of(scale.notes));
    assert(lines[0] == scale.description && lines[1] == count);
    lemma_unsigned_of_decimal(scale.notes.len(), usize::MAX as nat);
    lemma_notes_of_tokens(scale.notes);
}

} // verus!
