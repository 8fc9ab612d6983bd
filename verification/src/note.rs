//! One pitch of a scale: a cents value or a frequency ratio.

use crate::cents::{has_point, is_cents, is_cents_literal, lemma_cents_literal_chars};
use crate::decimal::{
    decimal_of, lemma_decimal_of, lemma_unsigned_of_decimal, push_decimal, unsigned_of,
};
use crate::ratio::{
    gcd, lemma_gcd_positive, lemma_lowest_terms, lowest_terms_of, parse_ratio, ratio_of, reduce,
};
use crate::text::{chars_of, has_char, lemma_run_is, run, string_of, CharClass};
use vstd::arithmetic::div_mod::lemma_div_decreases;
use vstd::prelude::*;
use vstd::std_specs::cmp::PartialEqSpecImpl;
use vstd::string::StringExecFns;

verus! {

/// A pitch, relative to the base note of the scale. Two notes are equal when
/// they are the same literal, or the same two parts of a ratio.
#[derive(Debug, Eq)]
pub enum Note {
    /// A pitch in cents, held as the decimal literal that denotes it.
    Cents(String),
    /// A frequency ratio: numerator, then denominator.
    Ratio(u32, u32),
}

/// What a note is: the characters of a cents literal, or the two parts of a
/// ratio.
pub enum NoteView {
    Cents(Seq<char>),
    Ratio(nat, nat),
}

/// Why a token is not a note.
#[derive(Clone, Copy, Debug, PartialEq, Eq)]
pub enum NoteError {
    /// The token has a point, but it is not a cents literal.
    InvalidCents,
    /// The token has no point, and it is not a ratio: a part of it is not a
    /// number of 32 bits, or the ratio is not greater than zero.
    InvalidRatio,
}

impl View for Note {
    type V = NoteView;

    open spec fn view(&self) -> NoteView {
        match self {
            Note::Cents(literal) => NoteView::Cents(literal@),
            Note::Ratio(numer, denom) => NoteView::Ratio(*numer as nat, *denom as nat),
        }
    }
}

impl PartialEq for Note {
    fn eq(&self, other: &Note) -> (r: bool) {
        match (self, other) {
            (Note::Cents(a), Note::Cents(b)) => *a == *b,
            (Note::Ratio(a, b), Note::Ratio(c, d)) => *a == *c && *b == *d,
            _ => false,
        }
    }
}

impl PartialEqSpecImpl for Note {
    open spec fn obeys_eq_spec() -> bool {
        true
    }

    open spec fn eq_spec(&self, other: &Note) -> bool {
        self@ == other@
    }
}

impl Clone for Note {
    fn clone(&self) -> (r: Note)
        ensures
            r@ == self@,
    {
        match self {
            Note::Cents(literal) => Note::Cents(literal.clone()),
            Note::Ratio(numer, denom) => Note::Ratio(*numer, *denom),
        }
    }
}

impl NoteView {
    /// The note is one that a scale file can hold: a cents literal, or a ratio
    /// above zero, in lowest terms, with parts of 32 bits.
    pub open spec fn wf(self) -> bool {
        match self {
            NoteView::Cents(literal) => is_cents_literal(literal),
            NoteView::Ratio(numer, denom) => {
                &&& 0 < numer <= u32::MAX
                &&& 0 < denom <= u32::MAX
                &&& gcd(numer, denom) == 1
            },
        }
    }
}

/// The note that a token denotes. A token with a point is a cents value, any
/// other token is a ratio, which is put into lowest terms.
pub open spec fn note_of_token(token: Seq<char>) -> Result<NoteView, NoteError> {
    if has_point(token) {
        if is_cents_literal(token) {
            Ok(NoteView::Cents(token))
        } else {
            Err(NoteError::InvalidCents)
        }
    } else {
        match ratio_of(token) {
            Some((numer, denom)) => Ok(NoteView::Ratio(numer, denom)),
            None => Err(NoteError::InvalidRatio),
        }
    }
}

/// The token that stands for a note: the literal of a cents value, and
/// `numerator/denominator` for a ratio, also where the denominator is one.
pub open spec fn token_of_note(note: NoteView) -> Seq<char> {
    match note {
        NoteView::Cents(literal) => literal,
        NoteView::Ratio(numer, denom) => decimal_of(numer) + seq!['/'] + decimal_of(denom),
    }
}

/// A token that denotes a note denotes one that a scale file can hold.
pub proof fn law_parsed_note_is_well_formed(token: Seq<char>)
    ensures
        note_of_token(token) matches Ok(note) ==> note.wf(),
{
    if !has_point(token) {
        let slash = run(token, CharClass::BeforeSlash) as int;
        let numer = unsigned_of(token.take(slash), u32::MAX as nat);
        if ratio_of(token) is Some {
            let denom: nat = if slash < token.len() {
                unsigned_of(token.skip(slash + 1), u32::MAX as nat)->0
            } else {
                1
            };
            lemma_lowest_terms(numer->0, denom);
        }
    }
}

/// Writing a well-formed note and reading the token gives the note back.
pub proof fn law_note_round_trip(note: NoteView)
    requires
        note.wf(),
    ensures
        note_of_token(token_of_note(note)) == Ok::<NoteView, NoteError>(note),
{
    let token = token_of_note(note);
    match note {
        NoteView::Cents(literal) => {
            lemma_cents_literal_chars(literal);
            assert(note_of_token(token) == Ok::<NoteView, NoteError>(note));
        },
        NoteView::Ratio(numer, denom) => {
            lemma_ratio_token(numer, denom);
            lemma_unsigned_of_decimal(numer, u32::MAX as nat);
            lemma_unsigned_of_decimal(denom, u32::MAX as nat);
            assert(!has_point(token));
            assert(ratio_of(token) == Some((numer, denom)));
        },
    }
}

/// The token of a ratio: digits, one slash, digits.
pub proof fn lemma_ratio_token(numer: nat, denom: nat)
    ensures
        ({
            let token = token_of_note(NoteView::Ratio(numer, denom));
            let slash = decimal_of(numer).len() as int;
            &&& run(token, CharClass::BeforeSlash) == slash
            &&& token.take(slash) == decimal_of(numer)
            &&& token.skip(slash + 1) == decimal_of(denom)
            &&& !has_point(token)
            &&& forall|i: int|
                0 <= i < token.len() ==> CharClass::Digit.has(#[trigger] token[i]) || token[i]
                    == '/'
        }),
{
    let token = token_of_note(NoteView::Ratio(numer, denom));
    let slash = decimal_of(numer).len() as int;
    lemma_decimal_of(numer);
    lemma_decimal_of(denom);
    assert(token[slash] == '/');
    assert forall|i: int| 0 <= i < token.len() implies CharClass::Digit.has(#[trigger] token[i])
        || token[i] == '/' by {
        if i < slash {
            assert(token[i] == decimal_of(numer)[i]);
        } else if i > slash {
            assert(token[i] == decimal_of(denom)[i - slash - 1]);
        }
    }
    assert forall|i: int| 0 <= i < slash implies CharClass::BeforeSlash.has(#[trigger] token[i]) by {
        assert(token[i] == decimal_of(numer)[i]);
    }
    lemma_run_is(token, CharClass::BeforeSlash, slash);
    assert(token.take(slash) == decimal_of(numer));
    assert(token.skip(slash + 1) == decimal_of(denom));
}

impl Note {
    /// Reads one token as a note. The token is taken as it is: white space in
    /// it is not skipped, and makes it invalid.
    pub fn from_str(token: &str) -> (r: Result<Note, NoteError>)
        ensures
            match r {
                Ok(note) => note_of_token(token@) == Ok::<NoteView, NoteError>(note@),
                Err(e) => note_of_token(token@) == Err::<NoteView, NoteError>(e),
            },
            r matches Ok(note) ==> note@.wf(),
    {
        let chars = chars_of(token);
        Note::from_chars(chars.as_slice())
    }

    /// Reads one token, given by its characters, as a note.
    pub fn from_chars(token: &[char]) -> (r: Result<Note, NoteError>)
        ensures
            match r {
                Ok(note) => note_of_token(token@) == Ok::<NoteView, NoteError>(note@),
                Err(e) => note_of_token(token@) == Err::<NoteView, NoteError>(e),
            },
            r matches Ok(note) ==> note@.wf(),
    {
        proof {
            law_parsed_note_is_well_formed(token@);
        }
        if has_char(token, '.') {
            if is_cents(token) {
                Ok(Note::Cents(string_of(token)))
            } else {
                Err(NoteError::InvalidCents)
            }
        } else {
            match parse_ratio(token) {
                Some((numer, denom)) => Ok(Note::Ratio(numer, denom)),
                None => Err(NoteError::InvalidRatio),
            }
        }
    }

    /// The note for the cents value that `literal` denotes.
    pub fn cents(literal: &str) -> (r: Result<Note, NoteError>)
        ensures
            match r {
                Ok(note) => is_cents_literal(literal@) && note@ == NoteView::Cents(literal@),
                Err(e) => !is_cents_literal(literal@) && e == NoteError::InvalidCents,
            },
    {
        let chars = chars_of(literal);
        if is_cents(chars.as_slice()) {
            Ok(Note::Cents(string_of(chars.as_slice())))
        } else {
            Err(NoteError::InvalidCents)
        }
    }

    /// The note for the ratio `numer / denom`, put into lowest terms.
    pub fn ratio(numer: u32, denom: u32) -> (r: Result<Note, NoteError>)
        ensures
            match r {
                Ok(note) => {
                    &&& numer > 0 && denom > 0
                    &&& note@ == NoteView::Ratio(
                        lowest_terms_of(numer as nat, denom as nat).0,
                        lowest_terms_of(numer as nat, denom as nat).1,
                    )
                    &&& note@.wf()
                },
                Err(e) => (numer == 0 || denom == 0) && e == NoteError::InvalidRatio,
            },
    {
        proof {
            if denom > 0 {
                lemma_lowest_terms(numer as nat, denom as nat);
            }
        }
        match reduce(numer, denom) {
            Some((n, d)) => Ok(Note::Ratio(n, d)),
            None => Err(NoteError::InvalidRatio),
        }
    }

    /// Whether the note is one that a scale file can hold.
    pub fn is_valid(&self) -> (r: bool)
        ensures
            r == self@.wf(),
    {
        match self {
            Note::Cents(literal) => {
                let chars = chars_of(literal.as_str());
                is_cents(chars.as_slice())
            },
            Note::Ratio(numer, denom) => {
                proof {
                    let (n, d) = (*numer as nat, *denom as nat);
                    if n > 0 && d > 0 && gcd(n, d) != 1 {
                        lemma_gcd_positive(n, d);
                        lemma_div_decreases(d as int, gcd(n, d) as int);
                    }
                }
                match reduce(*numer, *denom) {
                    Some((n, d)) => n == *numer && d == *denom,
                    None => false,
                }
            },
        }
    }

    /// Appends the token that stands for the note to `out`.
    pub fn write_to(&self, out: &mut String)
        ensures
            final(out)@ == old(out)@ + token_of_note(self@),
    {
        match self {
            Note::Cents(literal) => {
                out.append(literal.as_str());
            },
            Note::Ratio(numer, denom) => {
                push_decimal(out, *numer as u64);
                out.push('/');
                push_decimal(out, *denom as u64);
            },
        }
    }

    /// The token that stands for the note.
    pub fn to_string(&self) -> (s: String)
        ensures
            s@ == token_of_note(self@),
    {
        let mut s = String::new();
        self.write_to(&mut s);
        s
    }
}

} // verus!
