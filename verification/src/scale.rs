//! A scale: a description and the notes of the scale, as a scale file holds
//! them.
//!
//! A file is read line by line. Lines that start with `!` are comments and
//! count for nothing. The first line that is left is the description, the
//! second the number of notes, and each line after that holds one note,
//! possibly followed by text that is ignored.

use crate::decimal::{decimal_of, parse_unsigned, push_decimal, unsigned_of};
use crate::note::{note_of_token, token_of_note, Note, NoteError, NoteView};
use crate::text::{
    all_in, chars_of, first_token, has_char, lemma_run_bounds, run, scan, string_of, token, trim,
    trimmed, CharClass,
};
use vstd::prelude::*;
use vstd::slice::slice_subrange;
use vstd::std_specs::cmp::PartialEqSpecImpl;
use vstd::string::StringExecFns;

verus! {

/// A scale as a scale file describes it. Two scales are equal when their
/// descriptions are, and their notes, one by one.
#[derive(Debug, Eq)]
pub struct Scale {
    /// One line of free text.
    pub description: String,
    /// The notes, in the order of the file.
    pub notes: Vec<Note>,
}

/// What a scale is: the characters of its description and what its notes are.
pub struct ScaleView {
    pub description: Seq<char>,
    pub notes: Seq<NoteView>,
}

/// Why a text is not a scale file. Notes are counted from zero.
#[derive(Clone, Copy, Debug, PartialEq, Eq)]
pub enum ScaleError {
    /// There is no line but comments.
    MissingDescription,
    /// Nothing follows the description but comments.
    MissingCount,
    /// The line after the description is not a number of notes.
    InvalidCount,
    /// The line of the note `index` holds nothing but white space.
    MissingNoteToken { index: usize },
    /// The token on the line of the note `index` is not a note.
    Note { index: usize, error: NoteError },
    /// The file does not hold as many notes as it says.
    CountMismatch,
}

impl View for Scale {
    type V = ScaleView;

    open spec fn view(&self) -> ScaleView {
        ScaleView {
            description: self.description@,
            notes: self.notes@.map_values(|note: Note| note@),
        }
    }
}

impl PartialEq for Scale {
    fn eq(&self, other: &Scale) -> (r: bool) {
        if !(self.description == other.description) || self.notes.len() != other.notes.len() {
            assert(self@.notes.len() != other@.notes.len() || self@.description
                != other@.description);
            return false;
        }
        let mut i: usize = 0;
        while i < self.notes.len()
            invariant
                i <= self.notes@.len(),
                self.notes@.len() == other.notes@.len(),
                self.description@ == other.description@,
                forall|j: int| 0 <= j < i ==> (#[trigger] self.notes@[j])@ == other.notes@[j]@,
            decreases self.notes@.len() - i,
        {
            if !(self.notes[i] == other.notes[i]) {
                assert(self@.notes[i as int] != other@.notes[i as int]);
                return false;
            }
            i += 1;
        }
        assert(self@.notes == other@.notes);
        true
    }
}

impl PartialEqSpecImpl for Scale {
    open spec fn obeys_eq_spec() -> bool {
        true
    }

    open spec fn eq_spec(&self, other: &Scale) -> bool {
        self@ == other@
    }
}

impl Clone for Scale {
    fn clone(&self) -> (r: Scale)
        ensures
            r@ == self@,
    {
        let mut notes: Vec<Note> = Vec::new();
        let mut i: usize = 0;
        while i < self.notes.len()
            invariant
                i <= self.notes@.len(),
                notes@.len() == i,
                forall|j: int| 0 <= j < i ==> (#[trigger] notes@[j])@ == self.notes@[j]@,
            decreases self.notes@.len() - i,
        {
            notes.push(self.notes[i].clone());
            i += 1;
        }
        let r = Scale { description: self.description.clone(), notes };
        assert(r@.notes == self@.notes);
        r
    }
}

/// `line` without the carriage return at its end, if it has one.
pub open spec fn strip_cr(line: Seq<char>) -> Seq<char> {
    if line.len() > 0 && line.last() == '\r' {
        line.drop_last()
    } else {
        line
    }
}

/// The first line of a text that is not empty. A line ends before a line
/// feed, or before a carriage return and a line feed; the last line may end
/// with the text.
pub open spec fn first_line(text: Seq<char>) -> Seq<char> {
    let end = run(text, CharClass::InLine) as int;
    if end < text.len() {
        strip_cr(text.take(end))
    } else {
        text
    }
}

/// How many characters the first line takes up, its line feed included.
pub open spec fn first_line_step(text: Seq<char>) -> int {
    let end = run(text, CharClass::InLine) as int;
    if end < text.len() {
        end + 1
    } else {
        end
    }
}

/// The lines of a text, in order. The last line need not be closed by a line
/// feed, and a line feed at the end of the text starts no further line.
pub open spec fn lines_of(text: Seq<char>) -> Seq<Seq<char>>
    decreases text.len(),
    via lines_of_decreases
{
    if text.len() == 0 {
        Seq::empty()
    } else {
        seq![first_line(text)] + lines_of(text.skip(first_line_step(text)))
    }
}

#[via_fn]
proof fn lines_of_decreases(text: Seq<char>) {
    lemma_run_bounds(text, CharClass::InLine);
}

/// A comment: a line that starts with `!`.
pub open spec fn is_comment(line: Seq<char>) -> bool {
    line.len() > 0 && line[0] == '!'
}

/// The test that tells the lines that count from the comments.
pub open spec fn counts() -> spec_fn(Seq<char>) -> bool {
    |line: Seq<char>| !is_comment(line)
}

/// The lines of a text that are not comments.
pub open spec fn content_lines(text: Seq<char>) -> Seq<Seq<char>> {
    lines_of(text).filter(counts())
}

/// The number of notes that a line declares: the line without the white space
/// around it is an unsigned decimal number that fits in a `usize`.
pub open spec fn count_of_line(line: Seq<char>) -> Option<nat> {
    unsigned_of(trimmed(line), usize::MAX as nat)
}

/// The note on the line of the note `index`: what its first token denotes.
pub open spec fn note_of_line(line: Seq<char>, index: nat) -> Result<NoteView, ScaleError> {
    let token = first_token(line);
    if token.len() == 0 {
        Err(ScaleError::MissingNoteToken { index: index as usize })
    } else {
        match note_of_token(token) {
            Ok(note) => Ok(note),
            Err(error) => Err(ScaleError::Note { index: index as usize, error }),
        }
    }
}

/// The notes on the given lines, one for each, or what is wrong with the
/// first line that holds none.
pub open spec fn notes_of_lines(lines: Seq<Seq<char>>) -> Result<Seq<NoteView>, ScaleError>
    decreases lines.len(),
{
    if lines.len() == 0 {
        Ok(Seq::empty())
    } else {
        match notes_of_lines(lines.drop_last()) {
            Err(e) => Err(e),
            Ok(notes) => match note_of_line(lines.last(), (lines.len() - 1) as nat) {
                Ok(note) => Ok(notes.push(note)),
                Err(e) => Err(e),
            },
        }
    }
}

/// The scale that the given lines describe, comments left out already.
pub open spec fn scale_of_lines(lines: Seq<Seq<char>>) -> Result<ScaleView, ScaleError> {
    if lines.len() == 0 {
        Err(ScaleError::MissingDescription)
    } else if lines.len() == 1 {
        Err(ScaleError::MissingCount)
    } else {
        match count_of_line(lines[1]) {
            None => Err(ScaleError::InvalidCount),
            Some(count) => match notes_of_lines(lines.skip(2)) {
                Err(e) => Err(e),
                Ok(notes) => if notes.len() == count {
                    Ok(ScaleView { description: lines[0], notes })
                } else {
                    Err(ScaleError::CountMismatch)
                },
            },
        }
    }
}

/// The scale that a text describes.
pub open spec fn scale_of_text(text: Seq<char>) -> Result<ScaleView, ScaleError> {
    scale_of_lines(content_lines(text))
}

/// The lines of the notes, one after the other, each closed by a line feed.
pub open spec fn notes_text(notes: Seq<NoteView>) -> Seq<char>
    decreases notes.len(),
{
    if notes.len() == 0 {
        Seq::empty()
    } else {
        notes_text(notes.drop_last()) + token_of_note(notes.last()) + seq!['\n']
    }
}

/// The text of a scale file: the description, the number of notes, and the
/// notes in their order, one line each, every line closed by a line feed.
pub open spec fn text_of_scale(scale: ScaleView) -> Seq<char> {
    scale.description + seq!['\n'] + decimal_of(scale.notes.len()) + seq!['\n'] + notes_text(
        scale.notes,
    )
}

impl ScaleView {
    /// The scale is one that a scale file can hold and give back: the
    /// description is a single line that is no comment and does not end with
    /// a carriage return, and every note is well formed.
    pub open spec fn wf(self) -> bool {
        &&& all_in(self.description, CharClass::InLine)
        &&& !is_comment(self.description)
        &&& strip_cr(self.description) == self.description
        &&& self.notes.len() <= usize::MAX
        &&& forall|i: int| 0 <= i < self.notes.len() ==> (#[trigger] self.notes[i]).wf()
    }
}

/// What each of the given lines holds.
pub open spec fn views(lines: Seq<&[char]>) -> Seq<Seq<char>> {
    lines.map_values(|line: &[char]| line@)
}

/// Once a line holds no note, the lines after it change nothing.
proof fn lemma_first_error_stays(lines: Seq<Seq<char>>, k: int)
    requires
        0 <= k <= lines.len(),
        notes_of_lines(lines.take(k)) is Err,
    ensures
        notes_of_lines(lines) == notes_of_lines(lines.take(k)),
    decreases lines.len() - k,
{
    if k < lines.len() {
        assert(lines.drop_last().take(k) == lines.take(k));
        lemma_first_error_stays(lines.drop_last(), k);
    } else {
        assert(lines.take(k) == lines);
    }
}

/// The lines of a text that are not comments: the first line, if it is none,
/// and then those of the rest.
proof fn lemma_content_lines_step(text: Seq<char>)
    requires
        text.len() > 0,
    ensures
        0 < first_line_step(text) <= text.len(),
        content_lines(text) == if is_comment(first_line(text)) {
            content_lines(text.skip(first_line_step(text)))
        } else {
            seq![first_line(text)] + content_lines(text.skip(first_line_step(text)))
        },
{
    lemma_run_bounds(text, CharClass::InLine);
    let first = seq![first_line(text)];
    let rest = lines_of(text.skip(first_line_step(text)));
    Seq::filter_distributes_over_add(first, rest, counts());
    reveal_with_fuel(Seq::filter, 2);
    assert(first.drop_last() == Seq::<Seq<char>>::empty());
    if is_comment(first_line(text)) {
        assert(first.filter(counts()) == Seq::<Seq<char>>::empty());
        assert(Seq::<Seq<char>>::empty() + rest.filter(counts()) == rest.filter(counts()));
    } else {
        assert(first.filter(counts()) == first);
    }
}

/// The first line of `text` from `from` on, and where the next line starts.
fn next_line<'a>(text: &'a [char], from: usize) -> (r: (&'a [char], usize))
    requires
        from < text@.len(),
    ensures
        r.0@ == first_line(text@.skip(from as int)),
        r.1 == from + first_line_step(text@.skip(from as int)),
        from < r.1 <= text@.len(),
{
    let end = scan(text, from, CharClass::InLine);
    proof {
        let rest = text@.skip(from as int);
        assert(rest.take(end - from) == text@.subrange(from as int, end as int));
        if from < end {
            assert(rest.take(end - from).last() == text@[end - 1]);
            assert(rest.take(end - from).drop_last() == text@.subrange(from as int, end - 1));
        }
    }
    if end == text.len() {
        (slice_subrange(text, from, end), end)
    } else if from < end && text[end - 1] == '\r' {
        (slice_subrange(text, from, end - 1), end + 1)
    } else {
        (slice_subrange(text, from, end), end + 1)
    }
}

/// The lines of `text` that are not comments.
pub fn content_lines_of<'a>(text: &'a [char]) -> (lines: Vec<&'a [char]>)
    ensures
        views(lines@) == content_lines(text@),
{
    let mut lines: Vec<&'a [char]> = Vec::new();
    let mut from: usize = 0;
    assert(text@.skip(0) == text@);
    assert(views(lines@) + content_lines(text@) == content_lines(text@));
    while from < text.len()
        invariant
            from <= text@.len(),
            views(lines@) + content_lines(text@.skip(from as int)) == content_lines(text@),
        decreases text@.len() - from,
    {
        let (line, next) = next_line(text, from);
        proof {
            lemma_content_lines_step(text@.skip(from as int));
            assert(text@.skip(from as int).skip(next - from) == text@.skip(next as int));
        }
        if line.len() == 0 || line[0] != '!' {
            assert(views(lines@.push(line)) == views(lines@).push(line@));
            assert(views(lines@).push(line@) + content_lines(text@.skip(next as int)) == views(
                lines@,
            ) + (seq![line@] + content_lines(text@.skip(next as int))));
            lines.push(line);
        }
        from = next;
    }
    proof {
        reveal_with_fuel(Seq::filter, 1);
        assert(content_lines(text@.skip(from as int)) == Seq::<Seq<char>>::empty());
        assert(views(lines@) + Seq::<Seq<char>>::empty() == views(lines@));
    }
    lines
}

impl Scale {
    /// Reads a scale file.
    pub fn from_str(text: &str) -> (r: Result<Scale, ScaleError>)
        ensures
            match r {
                Ok(scale) => scale_of_text(text@) == Ok::<ScaleView, ScaleError>(scale@),
                Err(e) => scale_of_text(text@) == Err::<ScaleView, ScaleError>(e),
            },
            r matches Ok(scale) ==> {
                &&& count_of_line(content_lines(text@)[1]) == Some(scale@.notes.len())
                &&& forall|i: int| 0 <= i < scale@.notes.len() ==> (#[trigger] scale@.notes[i]).wf()
            },
    {
        let chars = chars_of(text);
        let lines = content_lines_of(chars.as_slice());
        let ghost all = views(lines@);
        if lines.len() == 0 {
            return Err(ScaleError::MissingDescription);
        }
        if lines.len() == 1 {
            return Err(ScaleError::MissingCount);
        }
        let count = match parse_unsigned(trim(lines[1]), usize::MAX as u64) {
            Some(count) => count as usize,
            None => {
                return Err(ScaleError::InvalidCount);
            },
        };
        let mut notes: Vec<Note> = Vec::new();
        let mut i: usize = 2;
        assert(all.skip(2).take(0) == Seq::<Seq<char>>::empty());
        assert(notes@.map_values(|note: Note| note@) == Seq::<NoteView>::empty());
        while i < lines.len()
            invariant
                2 <= i <= lines@.len(),
                all == views(lines@),
                all == content_lines(text@),
                count_of_line(all[1]) == Some(count as nat),
                notes_of_lines(all.skip(2).take(i - 2)) == Ok::<Seq<NoteView>, ScaleError>(
                    notes@.map_values(|note: Note| note@),
                ),
                notes@.len() == i - 2,
                forall|j: int| 0 <= j < notes@.len() ==> (#[trigger] notes@[j])@.wf(),
            decreases lines@.len() - i,
        {
            let ghost upto = all.skip(2).take(i - 1);
            proof {
                assert(upto.drop_last() == all.skip(2).take(i - 2));
                assert(upto.last() == lines@[i as int]@);
            }
            let word = token(lines[i]);
            if word.len() == 0 {
                proof {
                    lemma_first_error_stays(all.skip(2), i - 1);
                }
                return Err(ScaleError::MissingNoteToken { index: i - 2 });
            }
            match Note::from_chars(word) {
                Ok(note) => {
                    assert(notes@.push(note).map_values(|note: Note| note@) == notes@.map_values(
                        |note: Note| note@,
                    ).push(note@));
                    notes.push(note);
                },
                Err(error) => {
                    proof {
                        lemma_first_error_stays(all.skip(2), i - 1);
                    }
                    return Err(ScaleError::Note { index: i - 2, error });
                },
            }
            i += 1;
        }
        assert(all.skip(2).take(i - 2) == all.skip(2));
        if notes.len() != count {
            return Err(ScaleError::CountMismatch);
        }
        let scale = Scale { description: string_of(lines[0]), notes };
        assert(scale@.notes == notes@.map_values(|note: Note| note@));
        Ok(scale)
    }

    /// Writes the scale as a scale file.
    pub fn to_string(&self) -> (s: String)
        ensures
            s@ == text_of_scale(self@),
    {
        let mut s = String::new();
        s.append(self.description.as_str());
        s.push('\n');
        push_decimal(&mut s, self.notes.len() as u64);
        s.push('\n');
        let ghost head = s@;
        let mut i: usize = 0;
        assert(self@.notes.take(0) == Seq::<NoteView>::empty());
        assert(head + notes_text(self@.notes.take(0)) == head);
        while i < self.notes.len()
            invariant
                i <= self.notes@.len(),
                s@ == head + notes_text(self@.notes.take(i as int)),
            decreases self.notes@.len() - i,
        {
            proof {
                let longer = self@.notes.take(i + 1);
                assert(longer.drop_last() == self@.notes.take(i as int));
                assert(longer.last() == self.notes@[i as int]@);
                assert(head + notes_text(longer) == head + notes_text(longer.drop_last())
                    + token_of_note(longer.last()) + seq!['\n']);
            }
            self.notes[i].write_to(&mut s);
            s.push('\n');
            i += 1;
        }
        assert(self@.notes.take(i as int) == self@.notes);
        s
    }

    /// Whether the scale is one that a scale file can hold and give back.
    pub fn is_valid(&self) -> (r: bool)
        ensures
            r == self@.wf(),
    {
        let description = chars_of(self.description.as_str());
        let n = description.len();
        if has_char(description.as_slice(), '\n') {
            assert(!CharClass::InLine.has('\n'));
            return false;
        }
        if n > 0 && (description[0] == '!' || description[n - 1] == '\r') {
            return false;
        }
        let mut i: usize = 0;
        while i < self.notes.len()
            invariant
                i <= self.notes@.len(),
                forall|j: int| 0 <= j < i ==> (#[trigger] self@.notes[j]).wf(),
            decreases self.notes@.len() - i,
        {
            if !self.notes[i].is_valid() {
                assert(!self@.notes[i as int].wf());
                return false;
            }
            i += 1;
        }
        true
    }
}

} // verus!
