//! Notes and scales, read and written, with cents taken as `f64` the way a
//! caller of the library takes them.

use num::rational::Ratio;
use scl::{Note, NoteError, Scale, ScaleError};

/// A note by its value: cents as a number, a ratio by its two parts.
#[derive(Debug, PartialEq, Clone)]
enum Pitch {
    Cents(f64),
    Ratio(u32, u32),
}

fn ratio(numer: u32, denom: u32) -> Pitch {
    let r = Ratio::new(numer, denom);
    Pitch::Ratio(*r.numer(), *r.denom())
}

fn pitch(note: &Note) -> Pitch {
    match note {
        Note::Cents(literal) => Pitch::Cents(literal.parse::<f64>().unwrap()),
        Note::Ratio(numer, denom) => Pitch::Ratio(*numer, *denom),
    }
}

fn pitches(scale: &Scale) -> Vec<Pitch> {
    scale.notes.iter().map(pitch).collect()
}

fn note(pitch: &Pitch) -> Note {
    match pitch {
        Pitch::Cents(cents) => Note::Cents(format!("{}", cents)),
        Pitch::Ratio(numer, denom) => Note::Ratio(*numer, *denom),
    }
}

fn read_pitch(token: &str) -> Result<Pitch, NoteError> {
    Note::from_str(token).map(|n| pitch(&n))
}

fn meantone() -> Vec<Pitch> {
    vec![
        Pitch::Cents(76.04900),
        Pitch::Cents(193.15686),
        Pitch::Cents(310.26471),
        ratio(5, 4),
        Pitch::Cents(503.42157),
        Pitch::Cents(579.47057),
        Pitch::Cents(696.57843),
        ratio(25, 16),
        Pitch::Cents(889.73529),
        Pitch::Cents(1006.84314),
        Pitch::Cents(1082.89214),
        ratio(2, 1),
    ]
}

#[test]
fn parse_note_valid_input() {
    assert_eq!(read_pitch("0.0").unwrap(), Pitch::Cents(0.0f64));
    assert_eq!(read_pitch("0.").unwrap(), Pitch::Cents(0.0f64));
    assert_eq!(read_pitch(".0").unwrap(), Pitch::Cents(0.0f64));
    assert_eq!(read_pitch("0.5").unwrap(), Pitch::Cents(0.5f64));
    assert_eq!(read_pitch("1200.").unwrap(), Pitch::Cents(1200.0f64));

    assert_eq!(read_pitch("1").unwrap(), ratio(1, 1));
    assert_eq!(read_pitch("2").unwrap(), ratio(2, 1));
    assert_eq!(read_pitch("1/3").unwrap(), ratio(1, 3));
    assert_eq!(read_pitch("2/3").unwrap(), ratio(2, 3));

    assert_eq!(read_pitch("2147483647/3").unwrap(), ratio(2147483647, 3));
}

#[test]
fn parse_note_not_valid_input() {
    Note::from_str("").unwrap_err();
    Note::from_str("a").unwrap_err();
    Note::from_str("a1.32").unwrap_err();
    Note::from_str("gourd").unwrap_err();

    Note::from_str("-1/2").unwrap_err();
}

#[test]
fn read_scale_valid() {
    let scale = Scale::from_str(
"! meanquar.scl
!
1/4-comma meantone scale. Pietro Aaron's temperament (1523)
 12
!
 76.04900
 193.15686
 310.26471
 5/4 writing stuff here should do nothing
 503.42157
 579.47057
 696.57843
 25/16
 889.73529
 1006.84314
 1082.89214
 2  "
    ).unwrap();
    assert_eq!(
        scale.description,
        "1/4-comma meantone scale. Pietro Aaron's temperament (1523)".to_string()
    );
    assert_eq!(pitches(&scale), meantone());

    assert_eq!(Scale::from_str(
            "test zero notes
 0
!"
        ).unwrap(),
        Scale {
            description: "test zero notes".to_string(),
            notes: vec![],
        }
    );
}

#[test]
fn read_scale_not_valid() {
    Scale::from_str("").unwrap_err();
    Scale::from_str("!").unwrap_err();
    Scale::from_str("asdfasdf").unwrap_err();

    Scale::from_str("! 
! ffdf").unwrap_err();

    Scale::from_str("ffdf
asd").unwrap_err();

    Scale::from_str("ffdf
-2").unwrap_err();

    Scale::from_str("ffdt
1
-1/2").unwrap_err();

    Scale::from_str("ffdt 
0
1/2").unwrap_err();
}

#[test]
fn write_scale() {
    let written = &(Scale {
        description: "1/4-comma meantone scale. Pietro Aaron's temperament (1523)".to_string(),
        notes: meantone().iter().map(note).collect(),
    }
    .to_string());

    // Every line is closed by a line feed, the last one too.
    let supposed =
"1/4-comma meantone scale. Pietro Aaron's temperament (1523)
12
76.049
193.15686
310.26471
5/4
503.42157
579.47057
696.57843
25/16
889.73529
1006.84314
1082.89214
2/1
";
    println!("{}", written);
    println!("{}", supposed);

    assert_eq!(written, supposed);
}

/// The note for what a generator made: a cents value, or the ratio of the
/// two numbers in lowest terms, with one for a denominator of zero.
fn made_note(as_cents: bool, cents: f64, numer: u32, denom: u32) -> Note {
    if as_cents {
        note(&Pitch::Cents(cents))
    } else {
        note(&ratio(numer, if denom == 0 { 1 } else { denom }))
    }
}

fn write_then_read_note(as_cents: bool, cents: f64, numer: u32, denom: u32) -> quickcheck::TestResult {
    let note = made_note(as_cents, cents, numer, denom);
    // A number whose digits hold no point is no cents value in a scale file,
    // and neither is a ratio of zero.
    if !note.is_valid() {
        return quickcheck::TestResult::discard();
    }
    let read = Note::from_str(&note.to_string()).unwrap();
    quickcheck::TestResult::from_bool(read == note && pitch(&read) == pitch(&note))
}

#[test]
fn quickcheck_write_then_read_notes() {
    quickcheck::quickcheck(write_then_read_note as fn(bool, f64, u32, u32) -> quickcheck::TestResult)
}

fn write_then_read_scale(description: String, notes: Vec<Note>) -> bool {
    let scale = Scale {
        description: {
            // Description should be only one line and not start with !
            description
                .chars()
                .filter(|c| *c != '!' && *c != '\r' && *c != '\n')
                .collect()
        },
        notes: notes,
    };

    let string = scale.to_string();
    let wrapped_parsed_scale = Scale::from_str(&string);

    if let Ok(ref parsed_scale) = wrapped_parsed_scale {
        if scale == *parsed_scale {
            return true;
        } else {
            println!("{:?}", parsed_scale);
        }
    }

    println!("{}", string);
    println!("{:?}", scale);

    wrapped_parsed_scale.unwrap();

    false
}

fn write_then_read_made_scale(description: String, made: Vec<(bool, f64, u32, u32)>) -> bool {
    let notes = made
        .iter()
        .map(|m| made_note(m.0, m.1, m.2, m.3))
        .filter(|n| n.is_valid())
        .collect();
    write_then_read_scale(description, notes)
}

#[test]
fn quickcheck_write_then_read_scales() {
    for _ in 0..10 {
        quickcheck::quickcheck(
            write_then_read_made_scale as fn(String, Vec<(bool, f64, u32, u32)>) -> bool,
        )
    }
}

#[test]
/// Problems found by quickcheck. It is related to both \n and \r\n being treated as a newline
fn problematic_write_then_read_scales() {
    assert!(write_then_read_scale("!".to_string(), vec![]));
    assert!(write_then_read_scale("\r".to_string(), vec![]));
    assert!(write_then_read_scale("\r!".to_string(), vec![]));
    assert!(write_then_read_scale("\r\r".to_string(), vec![]));
}

#[test]
fn meantone_scenario() {
    let text = "! comment\nMeantone (1523)\n 3\n 76.049\n 5/4\n 2/1\n";
    let scale = Scale::from_str(text).unwrap();
    assert_eq!(scale.description, "Meantone (1523)");
    assert_eq!(pitches(&scale), vec![Pitch::Cents(76.049), ratio(5, 4), ratio(2, 1)]);
    assert_eq!(scale.to_string(), "Meantone (1523)\n3\n76.049\n5/4\n2/1\n");
    let lines: Vec<String> = scale.to_string().lines().map(|l| l.to_string()).collect();
    assert_eq!(lines, vec!["Meantone (1523)", "3", "76.049", "5/4", "2/1"]);
}

#[test]
fn empty_scale_scenario() {
    let scale = Scale::from_str("x\n0\n").unwrap();
    assert_eq!(scale.description, "x");
    assert!(scale.notes.is_empty());
    assert_eq!(scale.to_string(), "x\n0\n");
}

#[test]
fn missing_note_line_scenario() {
    assert_eq!(Scale::from_str("x\n1\n"), Err(ScaleError::CountMismatch));
    assert_eq!(Scale::from_str("x\n1"), Err(ScaleError::CountMismatch));
    assert_eq!(
        Scale::from_str("x\n1\n \n"),
        Err(ScaleError::MissingNoteToken { index: 0 })
    );
}

#[test]
fn ratios_are_above_zero() {
    assert_eq!(Note::from_str("-1/2"), Err(NoteError::InvalidRatio));
    assert_eq!(Note::from_str("1/0"), Err(NoteError::InvalidRatio));
    assert_eq!(Note::from_str("0/0"), Err(NoteError::InvalidRatio));
    assert_eq!(Note::from_str("0"), Err(NoteError::InvalidRatio));
    assert_eq!(Note::from_str("0/7"), Err(NoteError::InvalidRatio));
    assert_eq!(Note::from_str("1/-2"), Err(NoteError::InvalidRatio));
    assert_eq!(Note::ratio(0, 3), Err(NoteError::InvalidRatio));
    assert_eq!(Note::ratio(3, 0), Err(NoteError::InvalidRatio));
}

#[test]
fn ratios_are_put_into_lowest_terms() {
    assert_eq!(Note::from_str("2/4"), Ok(Note::Ratio(1, 2)));
    assert_eq!(Note::from_str("6/4"), Ok(Note::Ratio(3, 2)));
    assert_eq!(Note::from_str("4/2"), Ok(Note::Ratio(2, 1)));
    assert_eq!(Note::from_str("7"), Ok(Note::Ratio(7, 1)));
    assert_eq!(Note::from_str("4294967295/4294967295"), Ok(Note::Ratio(1, 1)));
    assert_eq!(Note::from_str("4294967295/3"), Ok(Note::Ratio(1431655765, 1)));
    assert_eq!(Note::from_str("1071/462"), Ok(Note::Ratio(51, 22)));
    assert_eq!(Note::ratio(1071, 462), Ok(Note::Ratio(51, 22)));
    assert_eq!(Note::ratio(5, 4), Ok(Note::Ratio(5, 4)));
    for (numer, denom) in [(2u32, 4u32), (12, 18), (81, 64), (1000, 10), (17, 17)] {
        assert_eq!(pitch(&Note::ratio(numer, denom).unwrap()), ratio(numer, denom));
    }
}

#[test]
fn ratio_parts_are_numbers_of_32_bits() {
    assert_eq!(Note::from_str("4294967295"), Ok(Note::Ratio(4294967295, 1)));
    assert_eq!(Note::from_str("4294967296"), Err(NoteError::InvalidRatio));
    assert_eq!(Note::from_str("1/4294967296"), Err(NoteError::InvalidRatio));
    assert_eq!(Note::from_str("99999999999999999999999999/3"), Err(NoteError::InvalidRatio));
    assert_eq!(Note::from_str("0000000000000000000000000005/04"), Ok(Note::Ratio(5, 4)));
    assert_eq!(Note::from_str("+5/+4"), Ok(Note::Ratio(5, 4)));
    assert_eq!(Note::from_str("++5"), Err(NoteError::InvalidRatio));
    assert_eq!(Note::from_str("+"), Err(NoteError::InvalidRatio));
    assert_eq!(Note::from_str("/"), Err(NoteError::InvalidRatio));
    assert_eq!(Note::from_str("5/"), Err(NoteError::InvalidRatio));
    assert_eq!(Note::from_str("/5"), Err(NoteError::InvalidRatio));
    assert_eq!(Note::from_str("1/2/3"), Err(NoteError::InvalidRatio));
    assert_eq!(Note::from_str("5 /4"), Err(NoteError::InvalidRatio));
    assert_eq!(Note::from_str(" 5/4"), Err(NoteError::InvalidRatio));
    assert_eq!(Note::from_str("5/4 "), Err(NoteError::InvalidRatio));
    assert_eq!(Note::from_str("5e3"), Err(NoteError::InvalidRatio));
    assert_eq!(Note::from_str("inf"), Err(NoteError::InvalidRatio));
    assert_eq!(Note::from_str("NaN"), Err(NoteError::InvalidRatio));
}

#[test]
fn ratios_are_read_as_the_rational_type_reads_them() {
    let tokens = [
        "1", "2/4", "3/9", "+6/8", "10/+5", "0", "0/3", "3/0", "", "/", "1/", "/1", "1/2/3", "-1/2",
        "1/-2", "4294967295/2", "4294967296/2", "007/0014", "a/b", "1 /2", "12/18",
    ];
    for token in tokens {
        let expected = match token.parse::<Ratio<u32>>() {
            Ok(r) if *r.numer() > 0 => Ok(Note::Ratio(*r.numer(), *r.denom())),
            _ => Err(NoteError::InvalidRatio),
        };
        assert_eq!(Note::from_str(token), expected, "{:?}", token);
    }
}

#[test]
fn a_point_makes_a_cents_value() {
    for token in [
        "0.0", "0.", ".0", "1200.", "-.5", "+.5", "-0.5", "+1.5e10", "1.5E-3", "1.e5", ".5e+2",
        "76.04900", "0000.0000", "1.0e0000000000000000000000001", "1.7976931348623157e308",
        "123456789012345678901234567890.123456789012345678901234567890",
    ] {
        assert_eq!(Note::from_str(token), Ok(Note::Cents(token.to_string())), "{:?}", token);
        assert_eq!(Note::cents(token), Ok(Note::Cents(token.to_string())), "{:?}", token);
        assert!(token.parse::<f64>().is_ok(), "{:?}", token);
    }
    for token in [
        ".", "+.", "-.", "1.2.3", "1..2", "1.5e", "1.5e+", "1.5e-", ".e5", "1.5x", "x1.5", "a1.32",
        "1.5 ", " 1.5", "1 .5", "1.5e1.5", "1.5ee5", "--1.5", "+-1.5", "1.5e++5", "1.5f", "0x1.8",
        "1_0.0", "1,5.0", "١.٥", "1.5\n", "e.5", "1.e", ".5E", "1./2", "1.0/2",
    ] {
        assert_eq!(Note::from_str(token), Err(NoteError::InvalidCents), "{:?}", token);
        assert_eq!(Note::cents(token), Err(NoteError::InvalidCents), "{:?}", token);
        assert!(token.parse::<f64>().is_err(), "{:?}", token);
    }
    // Numbers that are no cents values for want of a point.
    for token in ["1200", "1e3", "inf", "nan", "-5", ""] {
        assert_eq!(Note::cents(token), Err(NoteError::InvalidCents), "{:?}", token);
    }
}

/// Every string of up to `len` of the given characters.
fn strings(alphabet: &[char], len: usize) -> Vec<String> {
    let mut all = vec![String::new()];
    let mut last = vec![String::new()];
    for _ in 0..len {
        let mut next = Vec::new();
        for s in &last {
            for c in alphabet {
                let mut t = s.clone();
                t.push(*c);
                next.push(t);
            }
        }
        all.extend(next.iter().cloned());
        last = next;
    }
    all
}

#[test]
fn cents_literals_are_the_numbers_with_a_point() {
    let mut good = 0;
    for token in strings(&['7', '0', '+', '-', '.', 'e', 'E', 'x'], 6) {
        if !token.contains('.') {
            continue;
        }
        let expected = match token.parse::<f64>() {
            Ok(_) => Ok(Note::Cents(token.clone())),
            Err(_) => Err(NoteError::InvalidCents),
        };
        if expected.is_ok() {
            good += 1;
        }
        assert_eq!(Note::from_str(&token), expected, "{:?}", token);
    }
    assert!(good > 1000);
}

#[test]
fn tokens_without_a_point_are_ratios() {
    for token in strings(&['6', '0', '+', '-', '/', '4', ' '], 5) {
        let expected = match token.parse::<Ratio<u32>>() {
            Ok(r) if *r.numer() > 0 => Ok(Note::Ratio(*r.numer(), *r.denom())),
            _ => Err(NoteError::InvalidRatio),
        };
        assert_eq!(Note::from_str(&token), expected, "{:?}", token);
    }
}

#[test]
fn notes_are_written_as_tokens() {
    assert_eq!(Note::Ratio(2, 1).to_string(), "2/1");
    assert_eq!(Note::Ratio(5, 4).to_string(), "5/4");
    assert_eq!(Note::Ratio(4294967295, 1000000007).to_string(), "4294967295/1000000007");
    assert_eq!(Note::Ratio(10, 100).to_string(), "10/100");
    assert_eq!(Note::Ratio(0, 0).to_string(), "0/0");
    assert_eq!(Note::Cents("76.049".to_string()).to_string(), "76.049");
    assert_eq!(note(&Pitch::Cents(76.04900)).to_string(), "76.049");
    assert_eq!(note(&Pitch::Cents(-0.5)).to_string(), "-0.5");
    let mut out = String::from("note: ");
    Note::Ratio(3, 2).write_to(&mut out);
    assert_eq!(out, "note: 3/2");
    for n in [0u32, 1, 9, 10, 11, 99, 100, 101, 65535, 65536, 999999999, 1000000000, 4294967295] {
        assert_eq!(Note::Ratio(n, 1).to_string(), format!("{}/1", n));
        assert_eq!(Note::Ratio(1, n).to_string(), format!("1/{}", n));
    }
}

#[test]
fn notes_are_told_from_what_is_none() {
    assert!(Note::Ratio(5, 4).is_valid());
    assert!(Note::Ratio(1, 1).is_valid());
    assert!(Note::Ratio(4294967295, 4294967294).is_valid());
    assert!(!Note::Ratio(2, 4).is_valid());
    assert!(!Note::Ratio(0, 1).is_valid());
    assert!(!Note::Ratio(1, 0).is_valid());
    assert!(!Note::Ratio(0, 0).is_valid());
    assert!(!Note::Ratio(17, 17).is_valid());
    assert!(Note::Cents("76.049".to_string()).is_valid());
    assert!(Note::Cents("-.5e-3".to_string()).is_valid());
    assert!(!Note::Cents("1200".to_string()).is_valid());
    assert!(!Note::Cents("".to_string()).is_valid());
    assert!(!Note::Cents("5/4".to_string()).is_valid());
    assert!(!note(&Pitch::Cents(1200.0)).is_valid());
    assert!(!note(&Pitch::Cents(f64::NAN)).is_valid());
    assert!(!note(&Pitch::Cents(f64::INFINITY)).is_valid());
    assert!(note(&Pitch::Cents(1200.5)).is_valid());
}

#[test]
fn a_valid_note_comes_back_from_its_token() {
    let notes = [
        Note::Ratio(5, 4),
        Note::Ratio(1, 1),
        Note::Ratio(4294967295, 1),
        Note::Ratio(1, 4294967295),
        Note::Ratio(2147483647, 3),
        Note::Cents("76.04900".to_string()),
        Note::Cents("-.5".to_string()),
        Note::Cents("1.e-7".to_string()),
        note(&Pitch::Cents(0.1 + 0.2)),
        note(&Pitch::Cents(-1e-7)),
        note(&Pitch::Cents(5e-324)),
        note(&Pitch::Cents(1082.89214)),
    ];
    for n in notes {
        assert!(n.is_valid(), "{:?}", n);
        let read = Note::from_str(&n.to_string()).unwrap();
        assert_eq!(read, n);
        assert!(read.is_valid());
        assert_eq!(pitch(&read), pitch(&n));
    }
}

#[test]
fn what_follows_a_note_is_ignored() {
    let plain = Scale::from_str("x\n3\n5/4\n76.049\n2\n").unwrap();
    for text in [
        "x\n3\n5/4 extra text\n76.049\n2\n",
        "x\n3\n5/4\textra text\n76.049 ! cents\n2 octave\n",
        "x\n3\n   5/4   \n\t76.049\t\n 2 / 1\n",
        "x\n3\n5/4\u{3000}extra\n76.049\u{a0}5/4\n2 2 2\n",
        "x\n3\n5/4 1/0\n76.049 1.2.3\n2 -1\n",
    ] {
        assert_eq!(Scale::from_str(text).unwrap(), plain, "{:?}", text);
    }
    assert_eq!(
        Scale::from_str("x\n1\n5/4extra text\n"),
        Err(ScaleError::Note { index: 0, error: NoteError::InvalidRatio })
    );
}

#[test]
fn comments_count_for_nothing() {
    let text = "Meantone (1523)\n 3\n 76.049\n 5/4\n 2/1\n";
    let scale = Scale::from_str(text).unwrap();
    let lines: Vec<&str> = text.lines().collect();
    for at in 0..=lines.len() {
        for comment in ["!", "! comment", "!5/4", "!\r", "! 3", "!!"] {
            let mut with: Vec<&str> = lines.clone();
            with.insert(at, comment);
            let mut joined = with.join("\n");
            assert_eq!(Scale::from_str(&joined).unwrap(), scale, "{:?}", joined);
            joined.push('\n');
            assert_eq!(Scale::from_str(&joined).unwrap(), scale, "{:?}", joined);
            let twice = joined.replace(comment, &format!("{}\n{}", comment, comment));
            assert_eq!(Scale::from_str(&twice).unwrap(), scale, "{:?}", twice);
        }
    }
    // Only a `!` in the first place makes a comment.
    assert_eq!(Scale::from_str(" !\n0\n").unwrap().description, " !");
    assert_eq!(Scale::from_str("x\n0\n !\n"), Err(ScaleError::Note {
        index: 0,
        error: NoteError::InvalidRatio
    }));
    // A failure stays the same failure.
    assert_eq!(Scale::from_str("!a\nx\n!b\n2\n!c\n5/4\n!d\n"), Err(ScaleError::CountMismatch));
    assert_eq!(Scale::from_str("!a\n!b\n"), Err(ScaleError::MissingDescription));
}

#[test]
fn each_way_to_fail() {
    assert_eq!(Scale::from_str(""), Err(ScaleError::MissingDescription));
    assert_eq!(Scale::from_str("!"), Err(ScaleError::MissingDescription));
    assert_eq!(Scale::from_str("! a\n! b\n"), Err(ScaleError::MissingDescription));
    assert_eq!(Scale::from_str("asdfasdf"), Err(ScaleError::MissingCount));
    assert_eq!(Scale::from_str("asdfasdf\n"), Err(ScaleError::MissingCount));
    assert_eq!(Scale::from_str("\n"), Err(ScaleError::MissingCount));
    assert_eq!(Scale::from_str("x\n! 3\n"), Err(ScaleError::MissingCount));
    assert_eq!(Scale::from_str("ffdf\nasd"), Err(ScaleError::InvalidCount));
    assert_eq!(Scale::from_str("ffdf\n-2"), Err(ScaleError::InvalidCount));
    assert_eq!(Scale::from_str("ffdf\n\n"), Err(ScaleError::InvalidCount));
    assert_eq!(Scale::from_str("ffdf\n1 2\n"), Err(ScaleError::InvalidCount));
    assert_eq!(Scale::from_str("ffdf\n1.0\n"), Err(ScaleError::InvalidCount));
    assert_eq!(
        Scale::from_str("ffdf\n99999999999999999999999999\n"),
        Err(ScaleError::InvalidCount)
    );
    assert_eq!(
        Scale::from_str("x\n2\n5/4\n\n"),
        Err(ScaleError::MissingNoteToken { index: 1 })
    );
    assert_eq!(
        Scale::from_str("x\n2\n5/4\n \t \r\n3/2\n"),
        Err(ScaleError::MissingNoteToken { index: 1 })
    );
    assert_eq!(
        Scale::from_str("ffdt\n1\n-1/2"),
        Err(ScaleError::Note { index: 0, error: NoteError::InvalidRatio })
    );
    assert_eq!(
        Scale::from_str("x\n3\n5/4\n3/2\n1.2.3\n"),
        Err(ScaleError::Note { index: 2, error: NoteError::InvalidCents })
    );
    assert_eq!(Scale::from_str("ffdt \n0\n1/2"), Err(ScaleError::CountMismatch));
    assert_eq!(Scale::from_str("x\n3\n5/4\n2\n"), Err(ScaleError::CountMismatch));
    assert_eq!(Scale::from_str("x\n1\n5/4\n2\n"), Err(ScaleError::CountMismatch));
}

#[test]
fn the_first_failure_is_reported() {
    // A bad note before an empty line, and the other way round.
    assert_eq!(
        Scale::from_str("x\n9\n5/4\nbad\n\n1.2.3\n"),
        Err(ScaleError::Note { index: 1, error: NoteError::InvalidRatio })
    );
    assert_eq!(
        Scale::from_str("x\n9\n5/4\n\nbad\n1.2.3\n"),
        Err(ScaleError::MissingNoteToken { index: 1 })
    );
    assert_eq!(
        Scale::from_str("x\n9\n1.2.3\nbad\n"),
        Err(ScaleError::Note { index: 0, error: NoteError::InvalidCents })
    );
    // A bad count before a bad note; a bad note before a wrong count.
    assert_eq!(Scale::from_str("x\nmany\nbad\n"), Err(ScaleError::InvalidCount));
    assert_eq!(
        Scale::from_str("x\n0\nbad\n"),
        Err(ScaleError::Note { index: 0, error: NoteError::InvalidRatio })
    );
}

#[test]
fn the_count_is_the_number_of_notes() {
    for n in 0..30usize {
        let mut text = format!("scale of {}\n{}\n", n, n);
        for i in 0..n {
            text.push_str(&format!("{}/{}\n", i + 2, i + 1));
        }
        let scale = Scale::from_str(&text).unwrap();
        assert_eq!(scale.notes.len(), n);
        assert_eq!(scale.to_string(), text);
        assert_eq!(Scale::from_str(&format!("{}3/2\n", text)), Err(ScaleError::CountMismatch));
    }
    assert_eq!(Scale::from_str("x\n +2 \n5/4\n2\n").unwrap().notes.len(), 2);
    assert_eq!(Scale::from_str("x\n\u{2003}002\u{a0}\r\n5/4\n2\n").unwrap().notes.len(), 2);
    assert_eq!(Scale::from_str("x\n+0").unwrap().notes.len(), 0);
}

#[test]
fn lines_end_with_a_line_feed_or_with_both() {
    let unix = Scale::from_str("x\n2\n5/4\n76.049\n").unwrap();
    assert_eq!(Scale::from_str("x\r\n2\r\n5/4\r\n76.049\r\n").unwrap(), unix);
    assert_eq!(Scale::from_str("x\r\n2\n5/4\r\n76.049").unwrap(), unix);
    assert_eq!(Scale::from_str("!\r\nx\n!\r\n2\n5/4\r76.049\n76.049\r").unwrap(), unix);
    // One carriage return goes with the line feed, and no more.
    assert_eq!(Scale::from_str("x\r\r\n0\n").unwrap().description, "x\r");
    assert_eq!(Scale::from_str("a\rb\n0\n").unwrap().description, "a\rb");
    assert_eq!(Scale::from_str("\r\n0\n").unwrap().description, "");
    // An empty line counts: here as the description.
    assert_eq!(Scale::from_str("\nx\n0\n"), Err(ScaleError::InvalidCount));
}

#[test]
fn the_description_is_kept_as_it_is() {
    assert_eq!(Scale::from_str("  two  spaces \t\n0\n").unwrap().description, "  two  spaces \t");
    assert_eq!(Scale::from_str("5/4\n0\n").unwrap().description, "5/4");
    assert_eq!(Scale::from_str("\n0\n").unwrap().description, "");
    assert_eq!(Scale::from_str("d\u{e9}j\u{e0} \u{266d}\n0\n").unwrap().description, "d\u{e9}j\u{e0} \u{266d}");
}

#[test]
fn scales_are_told_from_what_does_not_come_back() {
    let scale = |description: &str, notes: Vec<Note>| Scale {
        description: description.to_string(),
        notes,
    };
    assert!(scale("x", vec![]).is_valid());
    assert!(scale("", vec![]).is_valid());
    assert!(scale(" !", vec![Note::Ratio(5, 4)]).is_valid());
    assert!(scale("a\rb", vec![Note::Cents("1.5".to_string())]).is_valid());
    assert!(!scale("!", vec![]).is_valid());
    assert!(!scale("! x", vec![]).is_valid());
    assert!(!scale("a\nb", vec![]).is_valid());
    assert!(!scale("a\n", vec![]).is_valid());
    assert!(!scale("a\r", vec![]).is_valid());
    assert!(!scale("\r", vec![]).is_valid());
    assert!(!scale("x", vec![Note::Ratio(5, 4), Note::Ratio(2, 4)]).is_valid());
    assert!(!scale("x", vec![Note::Cents("12".to_string())]).is_valid());
    for s in [
        scale("x", vec![]),
        scale("", vec![Note::Ratio(5, 4), Note::Cents("-.5e1".to_string())]),
        scale("a\rb \u{2028} c", vec![Note::Ratio(4294967295, 1)]),
    ] {
        assert!(s.is_valid());
        assert_eq!(Scale::from_str(&s.to_string()), Ok(s.clone()));
    }
    // What is not valid is written all the same, and comes back as something else.
    assert_eq!(scale("a\r", vec![]).to_string(), "a\r\n0\n");
    assert_eq!(Scale::from_str("a\r\n0\n").unwrap().description, "a");
    assert_eq!(scale("x", vec![Note::Ratio(2, 4)]).to_string(), "x\n1\n2/4\n");
    assert_eq!(Scale::from_str("x\n1\n2/4\n").unwrap().notes, vec![Note::Ratio(1, 2)]);
}

#[test]
fn white_space_is_what_the_character_type_says() {
    for code in 0..=0x10FFFFu32 {
        if let Some(c) = char::from_u32(code) {
            assert_eq!(scl::text::space(c), c.is_whitespace(), "{:?}", c);
            assert_eq!(scl::text::CharClass::Space.contains(c), c.is_whitespace());
            assert_eq!(scl::text::CharClass::Token.contains(c), !c.is_whitespace());
            assert_eq!(scl::text::CharClass::Digit.contains(c), c.is_ascii_digit());
        }
    }
}

#[test]
fn lines_are_those_of_the_string_type() {
    for text in strings(&['a', '!', '\n', '\r', ' '], 7) {
        let chars: Vec<char> = text.chars().collect();
        let lines: Vec<String> = scl::scale::content_lines_of(&chars)
            .iter()
            .map(|l| l.iter().collect())
            .collect();
        let expected: Vec<String> = text
            .lines()
            .filter(|l| !l.starts_with('!'))
            .map(|l| l.to_string())
            .collect();
        assert_eq!(lines, expected, "{:?}", text);
    }
}

#[test]
fn tokens_and_trimmed_lines_are_those_of_the_string_type() {
    for text in strings(&['a', 'b', ' ', '\t', '\u{a0}', '\r'], 6) {
        let chars: Vec<char> = text.chars().collect();
        let token: String = scl::text::token(&chars).iter().collect();
        assert_eq!(token, text.split_whitespace().next().unwrap_or(""), "{:?}", text);
        let trimmed: String = scl::text::trim(&chars).iter().collect();
        assert_eq!(trimmed, text.trim(), "{:?}", text);
    }
}

#[test]
fn numbers_are_read_as_the_integer_types_read_them() {
    for text in strings(&['0', '1', '9', '+', '-', ' '], 5) {
        let chars: Vec<char> = text.chars().collect();
        assert_eq!(
            scl::decimal::parse_unsigned(&chars, u64::from(u32::MAX)),
            text.parse::<u32>().ok().map(u64::from),
            "{:?}",
            text
        );
        assert_eq!(
            scl::decimal::parse_unsigned(&chars, 255),
            text.parse::<u8>().ok().map(u64::from),
            "{:?}",
            text
        );
    }
    for text in [
        "18446744073709551615", "18446744073709551616", "18446744073709551614",
        "184467440737095516150", "+18446744073709551615", "000018446744073709551615",
        "4294967295", "4294967296", "99999999999999999999",
    ] {
        let chars: Vec<char> = text.chars().collect();
        assert_eq!(
            scl::decimal::parse_unsigned(&chars, u64::MAX),
            text.parse::<u64>().ok(),
            "{:?}",
            text
        );
        assert_eq!(
            scl::decimal::parse_unsigned(&chars, u64::from(u32::MAX)),
            text.parse::<u32>().ok().map(u64::from),
            "{:?}",
            text
        );
    }
    for n in [0u64, 7, 10, 12345, 4294967295, 4294967296, 18446744073709551615] {
        let mut out = String::new();
        scl::decimal::push_decimal(&mut out, n);
        assert_eq!(out, n.to_string());
    }
}

#[test]
fn notes_and_scales_are_equal_when_they_hold_the_same() {
    let cents = |literal: &str| Note::Cents(literal.to_string());
    assert_eq!(Note::Ratio(5, 4), Note::Ratio(5, 4));
    assert_ne!(Note::Ratio(5, 4), Note::Ratio(4, 5));
    assert_ne!(Note::Ratio(5, 4), Note::Ratio(5, 3));
    assert_ne!(Note::Ratio(1, 2), Note::Ratio(2, 4));
    assert_eq!(cents("76.049"), cents("76.049"));
    assert_ne!(cents("76.049"), cents("76.0490"));
    assert_ne!(cents("1.0"), Note::Ratio(1, 1));
    assert_ne!(Note::Ratio(1, 1), cents("1.0"));
    for n in [Note::Ratio(5, 4), cents("-.5e3")] {
        assert_eq!(n.clone(), n);
    }
    let scale = |description: &str, notes: Vec<Note>| Scale {
        description: description.to_string(),
        notes,
    };
    let a = scale("x", vec![Note::Ratio(5, 4), cents("1.5"), Note::Ratio(2, 1)]);
    assert_eq!(a, a.clone());
    assert_eq!(a.clone().notes.len(), 3);
    assert_ne!(a, scale("y", vec![Note::Ratio(5, 4), cents("1.5"), Note::Ratio(2, 1)]));
    assert_ne!(a, scale("x", vec![Note::Ratio(5, 4), cents("1.5")]));
    assert_ne!(a, scale("x", vec![Note::Ratio(5, 4), cents("1.5"), Note::Ratio(3, 1)]));
    assert_ne!(a, scale("x", vec![Note::Ratio(5, 4), cents("1.50"), Note::Ratio(2, 1)]));
    assert_ne!(a, scale("x", vec![cents("1.5"), Note::Ratio(5, 4), Note::Ratio(2, 1)]));
    assert_eq!(scale("", vec![]), scale("", vec![]));
}

/// Reading a scale file with the string, number and rational types alone.
fn read_line_by_line(text: &str) -> Result<(String, Vec<Pitch>), ScaleError> {
    let mut lines = text.lines().filter(|line| !line.starts_with("!"));
    let description = match lines.next() {
        Some(line) => line.to_string(),
        None => return Err(ScaleError::MissingDescription),
    };
    let count: usize = match lines.next() {
        Some(line) => match line.trim().parse() {
            Ok(count) => count,
            Err(_) => return Err(ScaleError::InvalidCount),
        },
        None => return Err(ScaleError::MissingCount),
    };
    let mut notes = Vec::new();
    for (index, line) in lines.enumerate() {
        let token = match line.trim().split_whitespace().next() {
            Some(token) => token,
            None => return Err(ScaleError::MissingNoteToken { index }),
        };
        if token.contains(".") {
            match token.parse::<f64>() {
                Ok(cents) => notes.push(Pitch::Cents(cents)),
                Err(_) => return Err(ScaleError::Note { index, error: NoteError::InvalidCents }),
            }
        } else {
            match token.parse::<Ratio<u32>>() {
                Ok(r) if *r.numer() > 0 => notes.push(Pitch::Ratio(*r.numer(), *r.denom())),
                _ => return Err(ScaleError::Note { index, error: NoteError::InvalidRatio }),
            }
        }
    }
    if notes.len() == count {
        Ok((description, notes))
    } else {
        Err(ScaleError::CountMismatch)
    }
}

fn read(text: &str) -> Result<(String, Vec<Pitch>), ScaleError> {
    Scale::from_str(text).map(|scale| (scale.description.clone(), pitches(&scale)))
}

#[test]
fn scales_are_read_as_reading_line_by_line_reads_them() {
    let mut good = 0;
    for text in strings(&['x', '!', '\n', '\r', ' ', '1', '2', '/', '.'], 6) {
        let expected = read_line_by_line(&text);
        if expected.is_ok() {
            good += 1;
        }
        assert_eq!(read(&text), expected, "{:?}", text);
    }
    assert!(good > 100);
    for body in strings(&['\n', ' ', '4', '6', '/', '.', '!'], 6) {
        let text = format!("x\n2\n{}", body);
        assert_eq!(read(&text), read_line_by_line(&text), "{:?}", text);
    }
}

#[test]
fn scales_are_written_line_by_line() {
    for n in 0..12usize {
        let notes: Vec<Note> = (0..n)
            .map(|i| {
                if i % 2 == 0 {
                    Note::Ratio(i as u32 + 3, i as u32 + 2)
                } else {
                    note(&Pitch::Cents(i as f64 * 100.5))
                }
            })
            .collect();
        let mut expected = format!("a scale of {}\n{}\n", n, n);
        for note in &notes {
            expected.push_str(&format!("{}\n", note.to_string()));
        }
        let scale = Scale { description: format!("a scale of {}", n), notes };
        assert_eq!(scale.to_string(), expected);
        assert_eq!(scale.to_string().lines().count(), n + 2);
    }
}
