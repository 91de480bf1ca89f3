use converter::canny::{to_serializable_points, SPixelIndex, SerializebleComputation};
use converter::cnc::{
    encode, join_lines, parse_script, split_lines, to_cnc, to_cnc_lines, validate_script, write_lines,
};
use converter::command::{tokenize, Command, CommandError};
use converter::coordinate::{decimal_string, Coordinate};
use converter::decimal::is_decimal_text;
use converter::raster::Raster;
use std::io::BufRead;

fn number(text: &str) -> Coordinate {
    Coordinate::parse(text).unwrap()
}

fn move_to(x: &str, y: &str) -> Command {
    Command::MoveTo(number(x), number(y))
}

fn record(edges: Vec<Vec<(usize, usize)>>) -> SerializebleComputation {
    SerializebleComputation {
        edges: edges
            .into_iter()
            .map(|edge| edge.into_iter().map(|(x, y)| SPixelIndex { x, y }).collect())
            .collect(),
        width: 100,
        height: 100,
        dx_skip: 1,
        dy_skip: 1,
        px_skip: 2,
    }
}

#[test]
fn words_are_the_runs_between_spaces() {
    assert_eq!(tokenize("MOVE 1 2"), vec!["MOVE", "1", "2"]);
    assert_eq!(tokenize("  PEN \t UP\r"), vec!["PEN", "UP"]);
    assert_eq!(tokenize(""), Vec::<String>::new());
    assert_eq!(tokenize(" \t "), Vec::<String>::new());
    assert_eq!(tokenize("END"), vec!["END"]);
    assert_eq!(tokenize("a\u{b}b\u{c}c\nd"), vec!["a", "b", "c", "d"]);
    assert_eq!(tokenize("é ü"), vec!["é", "ü"]);
}

#[test]
fn every_kind_of_white_space_parts_words() {
    let spaces = [
        '\u{9}', '\u{a}', '\u{b}', '\u{c}', '\u{d}', ' ', '\u{85}', '\u{a0}', '\u{1680}', '\u{2000}',
        '\u{2001}', '\u{2005}', '\u{200a}', '\u{2028}', '\u{2029}', '\u{202f}', '\u{205f}', '\u{3000}',
    ];
    for space in spaces {
        assert!(space.is_whitespace());
        let line = format!("MOVE{}1{}2", space, space);
        assert_eq!(tokenize(&line), vec!["MOVE", "1", "2"], "{:?}", space);
        assert_eq!(Command::parse(&line), move_to("1", "2"), "{:?}", space);
    }
    for other in ['\u{8}', '\u{e}', '\u{1f}', '\u{200b}', '\u{1fff}', '\u{2060}', '\u{feff}', '\u{2027}', '\u{202a}'] {
        assert!(!other.is_whitespace());
        let line = format!("MOVE{}1 2", other);
        assert_eq!(tokenize(&line).len(), 2, "{:?}", other);
    }
    for text in ["a b", " a\u{a0}\u{a0}b\u{3000}", "\u{2003}x\ty\u{85}z", "", "\u{2028}"] {
        let expected: Vec<&str> = text.split_whitespace().collect();
        assert_eq!(tokenize(text), expected, "{:?}", text);
    }
}

#[test]
fn decimal_numbers_are_recognized() {
    for text in [
        "0", "7", "42", "+3", "-3", "1.5", "1.", ".5", "-.5", "+1.25", "1e5", "1E5", "1e+5", "1.5e-3",
        ".5E2", "007", "1.e2",
    ] {
        assert!(is_decimal_text(text), "{}", text);
    }
}

#[test]
fn other_texts_are_no_decimal_numbers() {
    for text in [
        "", "abc", "+", "-", ".", "+.", "e5", "1e", "1e+", "1.5.2", "1 2", "1,5", "--1", "1-", "0x10",
        "inf", "nan", "١", "1e5.5", "1ee5", " 1", "1 ",
    ] {
        assert!(!is_decimal_text(text), "{}", text);
    }
}

#[test]
fn decimal_numerals_of_indices() {
    assert_eq!(decimal_string(0), "0");
    assert_eq!(decimal_string(9), "9");
    assert_eq!(decimal_string(10), "10");
    assert_eq!(decimal_string(1203), "1203");
    assert_eq!(decimal_string(usize::MAX), usize::MAX.to_string());
}

#[test]
fn coordinates_keep_their_numeral() {
    assert_eq!(number("1.50").as_str(), "1.50");
    assert_eq!(Coordinate::from_index(17).as_str(), "17");
    assert_eq!(Coordinate::zero().as_str(), "0");
    assert!(Coordinate::parse("abc").is_none());
    assert!(Coordinate::parse("").is_none());
    assert_eq!(number("12").clone(), number("12"));
}

#[test]
fn coordinates_of_indices_give_the_index_back() {
    for n in [0usize, 1, 9, 10, 99, 100, 65535, usize::MAX] {
        assert_eq!(Coordinate::from_index(n).to_index(), Some(n));
    }
    assert_eq!(number("007").to_index(), Some(7));
    assert_eq!(number("1.5").to_index(), None);
    assert_eq!(number("-1").to_index(), None);
    assert_eq!(number("1e3").to_index(), None);
    assert_eq!(number("99999999999999999999999999").to_index(), None);
    let above = format!("{}0", usize::MAX);
    assert_eq!(number(&above).to_index(), None);
}

#[test]
fn lines_that_spell_commands() {
    assert_eq!(Command::parse("PEN UP"), Command::PenUp);
    assert_eq!(Command::parse("PEN DOWN"), Command::PenDown);
    assert_eq!(Command::parse("RESET"), Command::Reset);
    assert_eq!(Command::parse("END"), Command::End);
    assert_eq!(Command::parse("MOVE 1 2"), move_to("1", "2"));
    assert_eq!(Command::parse("MOVE 1.5 -2e3"), move_to("1.5", "-2e3"));
    assert_eq!(Command::parse("  MOVE   10\t20  "), move_to("10", "20"));
    assert_eq!(Command::parse("PEN   UP\r"), Command::PenUp);
}

#[test]
fn other_lines_are_unknown_and_keep_their_text() {
    for line in [
        "", "   ", "PEN", "UP", "PEN UP NOW", "pen up", "PENUP", "MOVE", "MOVE 1", "MOVE 1 2 3",
        "MOVE abc 2", "MOVE 1 abc", "MOVE inf 1", "RESET NOW", "END END", "HELLO", "move 1 2",
    ] {
        assert_eq!(Command::parse(line), Command::Unknown(line.to_string()), "{:?}", line);
    }
}

#[test]
fn strict_reading_tells_malformed_moves_from_unknown_lines() {
    assert_eq!(Command::validate("MOVE abc 2"), Err(CommandError::MalformedCommand));
    assert_eq!(Command::validate("MOVE 1"), Err(CommandError::MalformedCommand));
    assert_eq!(Command::validate("MOVE"), Err(CommandError::MalformedCommand));
    assert_eq!(Command::validate("MOVE 1 2 3"), Err(CommandError::MalformedCommand));
    assert_eq!(Command::validate("MOVE 1 nan"), Err(CommandError::MalformedCommand));
    assert_eq!(Command::validate("HELLO"), Err(CommandError::UnknownCommand));
    assert_eq!(Command::validate(""), Err(CommandError::UnknownCommand));
    assert_eq!(Command::validate("PEN"), Err(CommandError::UnknownCommand));
    assert_eq!(Command::validate("move 1 2"), Err(CommandError::UnknownCommand));
    assert_eq!(Command::validate("MOVE 3 4"), Ok(move_to("3", "4")));
    assert_eq!(Command::validate("PEN DOWN"), Ok(Command::PenDown));
    assert_eq!(Command::validate("END"), Ok(Command::End));
}

#[test]
fn commands_spell_their_lines() {
    assert_eq!(Command::PenUp.to_line(), "PEN UP");
    assert_eq!(Command::PenDown.to_line(), "PEN DOWN");
    assert_eq!(Command::Reset.to_line(), "RESET");
    assert_eq!(Command::End.to_line(), "END");
    assert_eq!(move_to("1", "22").to_line(), "MOVE 1 22");
    assert_eq!(move_to("-1.5", "2e3").to_line(), "MOVE -1.5 2e3");
    assert_eq!(Command::Unknown("MOVE abc 2".to_string()).to_line(), "MOVE abc 2");
}

#[test]
fn spelled_commands_read_back() {
    for command in [
        Command::PenUp,
        Command::PenDown,
        Command::Reset,
        Command::End,
        move_to("0", "0"),
        move_to("12", "345"),
        move_to("+1.5e-3", "-.25"),
    ] {
        let line = command.to_line();
        assert_eq!(Command::parse(&line), command);
        assert_eq!(Command::validate(&line), Ok(command.clone()));
    }
}

#[test]
fn one_edge_gives_one_block_and_an_end() {
    let script = encode(&record(vec![vec![(1, 1), (2, 2)]]), false);
    assert_eq!(
        script,
        vec![
            Command::PenUp,
            move_to("1", "1"),
            Command::PenDown,
            move_to("2", "2"),
            Command::PenUp,
            Command::End,
        ]
    );
    assert_eq!(
        to_cnc_lines(&record(vec![vec![(1, 1), (2, 2)]])),
        vec!["PEN UP", "MOVE 1 1", "PEN DOWN", "MOVE 2 2", "PEN UP", "END"]
    );
    assert_eq!(
        to_cnc(&record(vec![vec![(1, 1), (2, 2)]])),
        "PEN UP\nMOVE 1 1\nPEN DOWN\nMOVE 2 2\nPEN UP\nEND\n"
    );
}

#[test]
fn every_edge_gets_its_own_block() {
    let strokes = record(vec![vec![(3, 4)], vec![(10, 0), (12, 0), (14, 2)], vec![]]);
    assert_eq!(
        write_lines(&encode(&strokes, true)),
        vec![
            "PEN UP", "MOVE 3 4", "PEN DOWN", "PEN UP", "PEN UP", "MOVE 10 0", "PEN DOWN", "MOVE 12 0",
            "MOVE 14 2", "PEN UP", "RESET", "END",
        ]
    );
}

#[test]
fn no_edges_give_only_the_closing() {
    assert_eq!(encode(&record(Vec::new()), false), vec![Command::End]);
    assert_eq!(encode(&record(Vec::new()), true), vec![Command::Reset, Command::End]);
    assert_eq!(to_cnc(&record(Vec::new())), "END\n");
}

#[test]
fn text_is_cut_at_line_feeds() {
    assert_eq!(split_lines("a\nb\n"), vec!["a", "b"]);
    assert_eq!(split_lines("a\nb"), vec!["a", "b"]);
    assert_eq!(split_lines("a\n\nb\n"), vec!["a", "", "b"]);
    assert_eq!(split_lines(""), Vec::<String>::new());
    assert_eq!(split_lines("\n"), vec![""]);
    assert_eq!(split_lines("\n\n"), vec!["", ""]);
}

#[test]
fn a_carriage_return_before_a_line_feed_belongs_to_the_line_ending() {
    assert_eq!(split_lines("PEN UP\r\nEND\r\n"), vec!["PEN UP", "END"]);
    assert_eq!(split_lines("A\r\nB"), vec!["A", "B"]);
    assert_eq!(split_lines("\r\n"), vec![""]);
    assert_eq!(split_lines("\r\n\r\n"), vec!["", ""]);
    // Only one carriage return goes, and only directly before a line feed.
    assert_eq!(split_lines("A\r\r\nB"), vec!["A\r", "B"]);
    assert_eq!(split_lines("a\rb\nc"), vec!["a\rb", "c"]);
    // A last line without line feed is kept as it is.
    assert_eq!(split_lines("A\r"), vec!["A\r"]);
    assert_eq!(split_lines("A\nB\r"), vec!["A", "B\r"]);
    assert_eq!(split_lines("\r"), vec!["\r"]);
}

#[test]
fn lines_are_cut_as_the_standard_reader_cuts_them() {
    for text in ["", "a", "a\n", "a\r\n", "a\r\nb", "a\r", "\r\n\n\r", "x\r\r\n", "\n\r\n\ny\r\n z \n"] {
        let expected: Vec<String> = text.as_bytes().lines().map(|line| line.unwrap()).collect();
        assert_eq!(split_lines(text), expected, "{:?}", text);
    }
}

#[test]
fn joined_lines_are_cut_into_the_same_lines() {
    let lines: Vec<String> = vec!["PEN UP", "", "MOVE 1 2", "what?"].into_iter().map(String::from).collect();
    assert_eq!(join_lines(&lines), "PEN UP\n\nMOVE 1 2\nwhat?\n");
    assert_eq!(split_lines(&join_lines(&lines)), lines);
    let script = to_cnc(&record(vec![vec![(5, 6), (7, 8)], vec![(1, 0)]]));
    assert_eq!(split_lines(&script), to_cnc_lines(&record(vec![vec![(5, 6), (7, 8)], vec![(1, 0)]])));
}

#[test]
fn strict_reading_of_a_script_stops_at_the_first_bad_line() {
    let good: Vec<String> = vec!["PEN UP", "MOVE 1 1", "END"].into_iter().map(String::from).collect();
    assert_eq!(validate_script(&good), Ok(vec![Command::PenUp, move_to("1", "1"), Command::End]));
    let unknown: Vec<String> =
        vec!["PEN UP", "JUMP", "MOVE abc 2"].into_iter().map(String::from).collect();
    assert_eq!(validate_script(&unknown), Err(CommandError::UnknownCommand));
    let malformed: Vec<String> =
        vec!["PEN UP", "MOVE abc 2", "JUMP"].into_iter().map(String::from).collect();
    assert_eq!(validate_script(&malformed), Err(CommandError::MalformedCommand));
    assert_eq!(validate_script(&Vec::new()), Ok(Vec::new()));
}

#[test]
fn lenient_reading_of_a_script_keeps_going() {
    let lines: Vec<String> = vec!["PEN UP", "MOVE abc 2", "END"].into_iter().map(String::from).collect();
    assert_eq!(
        parse_script(&lines),
        vec![Command::PenUp, Command::Unknown("MOVE abc 2".to_string()), Command::End]
    );
}

#[test]
fn the_script_of_a_vectorization_passes_the_strict_reading() {
    let raster = Raster::new(5, 4, vec![255; 20]).unwrap();
    let computed = to_serializable_points(&raster, 5, 4).unwrap();
    let lines = to_cnc_lines(&computed);
    assert_eq!(validate_script(&lines), Ok(encode(&computed, false)));
    assert_eq!(parse_script(&lines), encode(&computed, false));
}

#[test]
fn the_script_writer_and_the_pen_are_in_reach_of_the_vectorizer_module() {
    let strokes = record(vec![vec![(0, 0), (1, 1)]]);
    assert_eq!(converter::canny::to_cnc(&strokes), to_cnc(&strokes));
    assert_eq!(converter::canny::PenDirection::UP, converter::tracer::PenDirection::UP);
}
