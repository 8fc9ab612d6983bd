//! Characters, runs and tokens: the lexical layer under the scale file format.
//!
//! Text is modelled as `Seq<char>`. Executable code works on `&[char]`, so
//! that every position is one character and a part of a line is a subslice.

use vstd::prelude::*;
use vstd::slice::slice_subrange;
use vstd::std_specs::iter::IteratorSpec;

verus! {

/// `String::push` appends one character to the end of the string.
pub assume_specification[ String::push ](s: &mut String, c: char)
    ensures
        final(s)@ == old(s)@.push(c),
;

/// White space: the characters that separate a token from what surrounds it.
/// These are the code points with the Unicode property `White_Space`.
pub open spec fn is_space(c: char) -> bool {
    ||| '\u{9}' <= c <= '\u{D}'
    ||| c == ' '
    ||| c == '\u{85}'
    ||| c == '\u{A0}'
    ||| c == '\u{1680}'
    ||| '\u{2000}' <= c <= '\u{200A}'
    ||| c == '\u{2028}'
    ||| c == '\u{2029}'
    ||| c == '\u{202F}'
    ||| c == '\u{205F}'
    ||| c == '\u{3000}'
}

/// An ASCII decimal digit.
pub open spec fn is_digit(c: char) -> bool {
    '0' <= c <= '9'
}

/// The sets of characters that the format tells apart when it scans a line.
#[derive(Clone, Copy, Debug, PartialEq, Eq)]
pub enum CharClass {
    /// White space.
    Space,
    /// Anything but white space.
    Token,
    /// An ASCII decimal digit.
    Digit,
    /// Anything but a line feed.
    InLine,
    /// Anything but a slash.
    BeforeSlash,
}

impl CharClass {
    /// Whether `c` belongs to the class.
    pub open spec fn has(self, c: char) -> bool {
        match self {
            CharClass::Space => is_space(c),
            CharClass::Token => !is_space(c),
            CharClass::Digit => is_digit(c),
            CharClass::InLine => c != '\n',
            CharClass::BeforeSlash => c != '/',
        }
    }

    /// Whether `c` belongs to the class.
    pub fn contains(self, c: char) -> (r: bool)
        ensures
            r == self.has(c),
    {
        match self {
            CharClass::Space => space(c),
            CharClass::Token => !space(c),
            CharClass::Digit => '0' <= c && c <= '9',
            CharClass::InLine => c != '\n',
            CharClass::BeforeSlash => c != '/',
        }
    }
}

/// Whether `c` is white space.
pub fn space(c: char) -> (r: bool)
    ensures
        r == is_space(c),
{
    ('\u{9}' <= c && c <= '\u{D}') || c == ' ' || c == '\u{85}' || c == '\u{A0}' || c == '\u{1680}'
        || ('\u{2000}' <= c && c <= '\u{200A}') || c == '\u{2028}' || c == '\u{2029}' || c
        == '\u{202F}' || c == '\u{205F}' || c == '\u{3000}'
}

/// How many characters at the front of `s` belong to `class`, up to the first
/// one that does not.
pub open spec fn run(s: Seq<char>, class: CharClass) -> nat
    decreases s.len(),
{
    if s.len() > 0 && class.has(s[0]) {
        1 + run(s.skip(1), class)
    } else {
        0
    }
}

/// How many characters at the back of `s` belong to `class`, down to the last
/// one that does not.
pub open spec fn run_back(s: Seq<char>, class: CharClass) -> nat
    decreases s.len(),
{
    if s.len() > 0 && class.has(s.last()) {
        1 + run_back(s.drop_last(), class)
    } else {
        0
    }
}

/// `s` without the white space at its front.
pub open spec fn trim_start(s: Seq<char>) -> Seq<char> {
    s.skip(run(s, CharClass::Space) as int)
}

/// `s` without the white space at its back.
pub open spec fn trim_end(s: Seq<char>) -> Seq<char> {
    s.take(s.len() - run_back(s, CharClass::Space))
}

/// `s` without the white space at either end.
pub open spec fn trimmed(s: Seq<char>) -> Seq<char> {
    trim_end(trim_start(s))
}

/// The first token of `s`: what stands between the white space at its front
/// and the next white space. It is empty exactly when `s` is all white space.
pub open spec fn first_token(s: Seq<char>) -> Seq<char> {
    let rest = trim_start(s);
    rest.take(run(rest, CharClass::Token) as int)
}

/// Every character of `s` belongs to `class`.
pub open spec fn all_in(s: Seq<char>, class: CharClass) -> bool {
    forall|i: int| 0 <= i < s.len() ==> class.has(#[trigger] s[i])
}

/// A run is no longer than the sequence, everything in it belongs to the
/// class, and what follows it, if anything, does not.
pub proof fn lemma_run_bounds(s: Seq<char>, class: CharClass)
    ensures
        run(s, class) <= s.len(),
        all_in(s.take(run(s, class) as int), class),
        run(s, class) < s.len() ==> !class.has(s[run(s, class) as int]),
    decreases s.len(),
{
    if s.len() > 0 && class.has(s[0]) {
        let rest = s.skip(1);
        lemma_run_bounds(rest, class);
        let k = run(s, class) as int;
        assert forall|i: int| 0 <= i < k implies class.has(#[trigger] s.take(k)[i]) by {
            if i > 0 {
                assert(rest.take(k - 1)[i - 1] == s[i]);
            }
        }
        if k < s.len() {
            assert(rest[k - 1] == s[k]);
        }
    }
}

/// A position `k` is the end of the run as soon as everything before it
/// belongs to the class and the character at it, if any, does not.
pub proof fn lemma_run_is(s: Seq<char>, class: CharClass, k: int)
    requires
        0 <= k <= s.len(),
        forall|i: int| 0 <= i < k ==> class.has(#[trigger] s[i]),
        k < s.len() ==> !class.has(s[k]),
    ensures
        run(s, class) == k,
    decreases k,
{
    if k > 0 {
        let rest = s.skip(1);
        assert forall|i: int| 0 <= i < k - 1 implies class.has(#[trigger] rest[i]) by {
            assert(rest[i] == s[i + 1]);
        }
        lemma_run_is(rest, class, k - 1);
    }
}

/// The run of two sequences put together: that of the first where it stops
/// short of its end, else the whole first and the run of the second.
pub proof fn lemma_run_concat(a: Seq<char>, b: Seq<char>, class: CharClass)
    ensures
        run(a + b, class) == if run(a, class) < a.len() {
            run(a, class)
        } else {
            a.len() + run(b, class)
        },
    decreases a.len(),
{
    if a.len() == 0 {
        assert(a + b == b);
    } else if class.has(a[0]) {
        assert((a + b).skip(1) == a.skip(1) + b);
        lemma_run_concat(a.skip(1), b, class);
    }
}

/// A position counts as the start of the run at the back as soon as
/// everything from it on belongs to the class and the character before it, if
/// any, does not.
pub proof fn lemma_run_back_is(s: Seq<char>, class: CharClass, k: int)
    requires
        0 <= k <= s.len(),
        forall|i: int| s.len() - k <= i < s.len() ==> class.has(#[trigger] s[i]),
        k < s.len() ==> !class.has(s[s.len() - k - 1]),
    ensures
        run_back(s, class) == k,
    decreases k,
{
    if k > 0 {
        lemma_run_back_is(s.drop_last(), class, k - 1);
    }
}

/// The end of the run of `class` that starts at `from`.
pub fn scan(s: &[char], from: usize, class: CharClass) -> (end: usize)
    requires
        from <= s@.len(),
    ensures
        from <= end <= s@.len(),
        end == from + run(s@.skip(from as int), class),
{
    let mut end = from;
    while end < s.len() && class.contains(s[end])
        invariant
            from <= end <= s@.len(),
            forall|i: int| from <= i < end ==> class.has(#[trigger] s@[i]),
        decreases s@.len() - end,
    {
        end += 1;
    }
    proof {
        lemma_run_is(s@.skip(from as int), class, end - from);
    }
    end
}

/// The start of the run of `class` that ends where `s` ends.
pub fn scan_back(s: &[char], class: CharClass) -> (start: usize)
    ensures
        start <= s@.len(),
        start == s@.len() - run_back(s@, class),
{
    let mut start = s.len();
    while start > 0 && class.contains(s[start - 1])
        invariant
            start <= s@.len(),
            forall|i: int| start <= i < s@.len() ==> class.has(#[trigger] s@[i]),
        decreases start,
    {
        start -= 1;
    }
    proof {
        lemma_run_back_is(s@, class, s@.len() - start);
    }
    start
}

/// `s` without the white space at either end.
pub fn trim(s: &[char]) -> (r: &[char])
    ensures
        r@ == trimmed(s@),
{
    let from = scan(s, 0, CharClass::Space);
    let rest = slice_subrange(s, from, s.len());
    let to = scan_back(rest, CharClass::Space);
    proof {
        assert(s@.skip(0) == s@);
        assert(rest@ == trim_start(s@));
    }
    slice_subrange(rest, 0, to)
}

/// The first token of `s`; empty when `s` is all white space.
pub fn token(s: &[char]) -> (r: &[char])
    ensures
        r@ == first_token(s@),
{
    let from = scan(s, 0, CharClass::Space);
    let to = scan(s, from, CharClass::Token);
    proof {
        assert(s@.skip(0) == s@);
        assert(s@.subrange(from as int, to as int) == s@.skip(from as int).take(to - from));
    }
    slice_subrange(s, from, to)
}

/// Whether `c` occurs in `s`.
pub fn has_char(s: &[char], c: char) -> (r: bool)
    ensures
        r == s@.contains(c),
{
    let mut i: usize = 0;
    while i < s.len()
        invariant
            i <= s@.len(),
            forall|j: int| 0 <= j < i ==> s@[j] != c,
        decreases s@.len() - i,
    {
        if s[i] == c {
            return true;
        }
        i += 1;
    }
    false
}

/// The characters of `text`, in order.
pub fn chars_of(text: &str) -> (chars: Vec<char>)
    ensures
        chars@ == text@,
{
    let mut chars: Vec<char> = Vec::new();
    for c in it: text.chars()
        invariant
            it.seq() == text@,
            chars@ == text@.take(it.index() as int),
    {
        chars.push(c);
    }
    chars
}

/// Appends the characters of `chars` to `out`.
pub fn push_chars(out: &mut String, chars: &[char])
    ensures
        final(out)@ == old(out)@ + chars@,
{
    let mut i: usize = 0;
    while i < chars.len()
        invariant
            i <= chars@.len(),
            out@ == old(out)@ + chars@.take(i as int),
        decreases chars@.len() - i,
    {
        out.push(chars[i]);
        i += 1;
    }
}

/// The string made of the characters of `chars`, in order.
pub fn string_of(chars: &[char]) -> (s: String)
    ensures
        s@ == chars@,
{
    let mut s = String::new();
    push_chars(&mut s, chars);
    s
}

} // verus!
