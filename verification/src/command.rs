//! The movement commands and their text form, one command per line:
//! `PEN UP`, `PEN DOWN`, `MOVE <x> <y>`, `RESET` and `END`.

use crate::coordinate::Coordinate;
use crate::decimal::{exponent_at, is_decimal, is_digit, is_sign, lemma_digits_end};
use crate::text::{chars_of, reads_as};
use vstd::prelude::*;
use vstd::string::StrSliceExecFns;
use vstd::string::StringExecFns;

verus! {

/// Whether `c` separates the words of a line: the characters that Unicode
/// counts as white space.
pub open spec fn is_space(c: char) -> bool {
    ||| ('\t' <= c && c <= '\r')
    ||| c == ' '
    ||| c == '\u{85}'
    ||| c == '\u{a0}'
    ||| c == '\u{1680}'
    ||| ('\u{2000}' <= c && c <= '\u{200a}')
    ||| c == '\u{2028}'
    ||| c == '\u{2029}'
    ||| c == '\u{202f}'
    ||| c == '\u{205f}'
    ||| c == '\u{3000}'
}

/// Whether `c` separates the words of a line.
pub fn space(c: char) -> (yes: bool)
    ensures
        yes == is_space(c),
{
    ('\t' <= c && c <= '\r') || c == ' ' || c == '\u{85}' || c == '\u{a0}' || c == '\u{1680}' || (
    '\u{2000}' <= c && c <= '\u{200a}') || c == '\u{2028}' || c == '\u{2029}' || c == '\u{202f}' || c
        == '\u{205f}' || c == '\u{3000}'
}

/// The words that were closed by a space so far, and the word that the end
/// of `s` is in (empty after a space).
pub open spec fn split(s: Seq<char>) -> (Seq<Seq<char>>, Seq<char>)
    decreases s.len(),
{
    if s.len() == 0 {
        (Seq::empty(), Seq::empty())
    } else {
        let (closed, open) = split(s.drop_last());
        if !is_space(s.last()) {
            (closed, open.push(s.last()))
        } else if open.len() > 0 {
            (closed.push(open), Seq::empty())
        } else {
            (closed, Seq::empty())
        }
    }
}

/// The words of a line: its maximal runs of characters that are not spaces,
/// from left to right.
pub open spec fn words(line: Seq<char>) -> Seq<Seq<char>> {
    let (closed, open) = split(line);
    if open.len() > 0 {
        closed.push(open)
    } else {
        closed
    }
}

/// The texts of a vector of strings.
pub open spec fn texts(strings: Seq<String>) -> Seq<Seq<char>> {
    Seq::new(strings.len(), |i: int| strings[i]@)
}

/// The words of `line`.
pub fn tokenize(line: &str) -> (tokens: Vec<String>)
    ensures
        texts(tokens@) == words(line@),
{
    let chars = chars_of(line);
    let mut tokens: Vec<String> = Vec::new();
    let mut start: usize = 0;
    let mut i: usize = 0;
    proof {
        assert(line@.take(0) =~= Seq::<char>::empty());
        assert(texts(tokens@) =~= Seq::<Seq<char>>::empty());
        assert(line@.subrange(0, 0) =~= Seq::<char>::empty());
    }
    while i < chars.len()
        invariant
            chars@ == line@,
            start <= i <= chars.len(),
            texts(tokens@) == split(line@.take(i as int)).0,
            split(line@.take(i as int)).1 == line@.subrange(start as int, i as int),
        decreases chars.len() - i,
    {
        proof {
            assert(line@.take(i + 1).drop_last() =~= line@.take(i as int));
            assert(line@.take(i + 1).last() == line@[i as int]);
        }
        if space(chars[i]) {
            if start < i {
                let word = String::from_str(line.substring_char(start, i));
                proof {
                    assert(texts(tokens@.push(word)) =~= texts(tokens@).push(word@));
                }
                tokens.push(word);
            }
            start = i + 1;
            proof {
                assert(line@.subrange(i + 1, i + 1) =~= Seq::<char>::empty());
            }
        } else {
            proof {
                assert(line@.subrange(start as int, i + 1) =~= line@.subrange(start as int, i as int).push(
                    line@[i as int],
                ));
            }
        }
        i = i + 1;
    }
    proof {
        assert(line@.take(chars.len() as int) =~= line@);
    }
    if start < chars.len() {
        let word = String::from_str(line.substring_char(start, chars.len()));
        proof {
            assert(texts(tokens@.push(word)) =~= texts(tokens@).push(word@));
        }
        tokens.push(word);
    }
    tokens
}

/// One command of a movement script.
#[derive(Debug, PartialEq, Eq)]
pub enum Command {
    /// Lift the pen.
    PenUp,
    /// Lower the pen.
    PenDown,
    /// Move the head to the given position.
    MoveTo(Coordinate, Coordinate),
    /// Lift the pen and bring the head back to the origin.
    Reset,
    /// The script ends here.
    End,
    /// A line that is no command, with its text.
    Unknown(String),
}

/// A command as the contracts speak of it: coordinates and text by their
/// characters.
pub enum CommandView {
    PenUp,
    PenDown,
    MoveTo(Seq<char>, Seq<char>),
    Reset,
    End,
    Unknown(Seq<char>),
}

impl View for Command {
    type V = CommandView;

    open spec fn view(&self) -> CommandView {
        match self {
            Command::PenUp => CommandView::PenUp,
            Command::PenDown => CommandView::PenDown,
            Command::MoveTo(x, y) => CommandView::MoveTo(x@, y@),
            Command::Reset => CommandView::Reset,
            Command::End => CommandView::End,
            Command::Unknown(text) => CommandView::Unknown(text@),
        }
    }
}

impl Clone for Command {
    fn clone(&self) -> (copy: Self)
        ensures
            copy@ == self@,
    {
        match self {
            Command::PenUp => Command::PenUp,
            Command::PenDown => Command::PenDown,
            Command::MoveTo(x, y) => Command::MoveTo(x.clone(), y.clone()),
            Command::Reset => Command::Reset,
            Command::End => Command::End,
            Command::Unknown(text) => Command::Unknown(text.clone()),
        }
    }
}

/// Why a line is no command.
#[derive(Clone, Copy, Debug, PartialEq, Eq)]
pub enum CommandError {
    /// The line starts as a `MOVE` but does not give exactly two decimal
    /// numbers.
    MalformedCommand,
    /// The line is none of the commands.
    UnknownCommand,
}

/// The command that a line spells, if it spells one.
pub open spec fn recognized(line: Seq<char>) -> Option<CommandView> {
    let w = words(line);
    if w.len() == 2 && w[0] == "PEN"@ && w[1] == "UP"@ {
        Some(CommandView::PenUp)
    } else if w.len() == 2 && w[0] == "PEN"@ && w[1] == "DOWN"@ {
        Some(CommandView::PenDown)
    } else if w.len() == 1 && w[0] == "RESET"@ {
        Some(CommandView::Reset)
    } else if w.len() == 1 && w[0] == "END"@ {
        Some(CommandView::End)
    } else if w.len() == 3 && w[0] == "MOVE"@ && is_decimal(w[1]) && is_decimal(w[2]) {
        Some(CommandView::MoveTo(w[1], w[2]))
    } else {
        None
    }
}

/// Whether a line starts as a `MOVE` and yet spells no command.
pub open spec fn malformed(line: Seq<char>) -> bool {
    recognized(line) is None && words(line).len() > 0 && words(line)[0] == "MOVE"@
}

/// What a line of a script is taken for when the script is played: the
/// command that it spells, and `Unknown` with the line's text otherwise.
pub open spec fn parse_line(line: Seq<char>) -> CommandView {
    match recognized(line) {
        Some(command) => command,
        None => CommandView::Unknown(line),
    }
}

/// The line that spells a command.
pub open spec fn line_of(command: CommandView) -> Seq<char> {
    match command {
        CommandView::PenUp => "PEN UP"@,
        CommandView::PenDown => "PEN DOWN"@,
        CommandView::MoveTo(x, y) => "MOVE "@ + x + " "@ + y,
        CommandView::Reset => "RESET"@,
        CommandView::End => "END"@,
        CommandView::Unknown(text) => text,
    }
}

/// Whether `token` reads as `word`.
fn is_word(token: &String, word: &str) -> (same: bool)
    ensures
        same == (token@ == word@),
{
    let chars = chars_of(token.as_str());
    reads_as(&chars, word)
}

impl Command {
    /// Reads a line strictly: the command that it spells, or the reason why
    /// it spells none.
    pub fn validate(line: &str) -> (result: Result<Command, CommandError>)
        ensures
            match result {
                Ok(command) => recognized(line@) == Some(command@),
                Err(CommandError::MalformedCommand) => malformed(line@),
                Err(CommandError::UnknownCommand) => recognized(line@) is None && !malformed(line@),
            },
    {
        let tokens = tokenize(line);
        let count = tokens.len();
        proof {
            assert forall|i: int| 0 <= i < tokens@.len() implies (#[trigger] tokens@[i])@ == words(
                line@,
            )[i] by {
                assert(texts(tokens@)[i] == tokens@[i]@);
            }
        }
        if count == 2 && is_word(&tokens[0], "PEN") && is_word(&tokens[1], "UP") {
            return Ok(Command::PenUp);
        }
        if count == 2 && is_word(&tokens[0], "PEN") && is_word(&tokens[1], "DOWN") {
            return Ok(Command::PenDown);
        }
        if count == 1 && is_word(&tokens[0], "RESET") {
            return Ok(Command::Reset);
        }
        if count == 1 && is_word(&tokens[0], "END") {
            return Ok(Command::End);
        }
        if count == 3 && is_word(&tokens[0], "MOVE") {
            let x = Coordinate::parse(tokens[1].as_str());
            let y = Coordinate::parse(tokens[2].as_str());
            match (x, y) {
                (Some(x), Some(y)) => {
                    return Ok(Command::MoveTo(x, y));
                },
                _ => {},
            }
        }
        if count > 0 && is_word(&tokens[0], "MOVE") {
            Err(CommandError::MalformedCommand)
        } else {
            Err(CommandError::UnknownCommand)
        }
    }

    /// Reads a line leniently, as a player does: a line that spells no
    /// command becomes `Unknown` and keeps its text.
    pub fn parse(line: &str) -> (command: Command)
        ensures
            command@ == parse_line(line@),
    {
        match Command::validate(line) {
            Ok(command) => command,
            Err(_) => Command::Unknown(String::from_str(line)),
        }
    }

    /// The line that spells the command. An `Unknown` gives back its text.
    pub fn to_line(&self) -> (line: String)
        ensures
            line@ == line_of(self@),
    {
        match self {
            Command::PenUp => String::from_str("PEN UP"),
            Command::PenDown => String::from_str("PEN DOWN"),
            Command::MoveTo(x, y) => {
                let mut line = String::from_str("MOVE ");
                line.append(x.as_str());
                line.append(" ");
                line.append(y.as_str());
                line
            },
            Command::Reset => String::from_str("RESET"),
            Command::End => String::from_str("END"),
            Command::Unknown(text) => text.clone(),
        }
    }
}

/// Whether `w` holds no space.
pub open spec fn no_space(w: Seq<char>) -> bool {
    forall|i: int| 0 <= i < w.len() ==> !is_space(#[trigger] w[i])
}

/// A text without spaces that follows `s` continues the word that `s` ends in.
pub proof fn lemma_split_word(s: Seq<char>, w: Seq<char>)
    requires
        no_space(w),
    ensures
        split(s + w) == (split(s).0, split(s).1 + w),
    decreases w.len(),
{
    if w.len() == 0 {
        assert(s + w =~= s);
        assert(split(s).1 + w =~= split(s).1);
    } else {
        let front = w.drop_last();
        assert forall|i: int| 0 <= i < front.len() implies !is_space(#[trigger] front[i]) by {
            assert(front[i] == w[i]);
        }
        lemma_split_word(s, front);
        assert((s + w).drop_last() =~= s + front);
        assert((s + w).last() == w[w.len() - 1]);
        assert(split(s).1 + w =~= (split(s).1 + front).push(w.last()));
    }
}

/// A space that follows `s` closes the word that `s` ends in.
pub proof fn lemma_split_space(s: Seq<char>)
    ensures
        split(s + seq![' ']) == (words(s), Seq::<char>::empty()),
{
    let t = s + seq![' '];
    assert(t.drop_last() =~= s);
    assert(t.last() == ' ');
}

/// A text without spaces is one word.
pub proof fn lemma_one_word(a: Seq<char>)
    requires
        a.len() > 0,
        no_space(a),
    ensures
        words(a) == seq![a],
{
    let nothing = Seq::<char>::empty();
    lemma_split_word(nothing, a);
    assert(nothing + a =~= a);
    assert(split(nothing).1 + a =~= a);
    assert(split(nothing).0.push(a) =~= seq![a]);
}

/// Two texts without spaces with a space between them are two words.
pub proof fn lemma_two_words(a: Seq<char>, b: Seq<char>)
    requires
        a.len() > 0,
        no_space(a),
        b.len() > 0,
        no_space(b),
    ensures
        words(a + seq![' '] + b) == seq![a, b],
{
    lemma_one_word(a);
    lemma_split_space(a);
    lemma_split_word(a + seq![' '], b);
    assert(Seq::<char>::empty() + b =~= b);
    assert(seq![a].push(b) =~= seq![a, b]);
}

/// Three texts without spaces with single spaces between them are three
/// words.
pub proof fn lemma_three_words(a: Seq<char>, b: Seq<char>, c: Seq<char>)
    requires
        a.len() > 0,
        no_space(a),
        b.len() > 0,
        no_space(b),
        c.len() > 0,
        no_space(c),
    ensures
        words(a + seq![' '] + b + seq![' '] + c) == seq![a, b, c],
{
    lemma_two_words(a, b);
    lemma_split_space(a + seq![' '] + b);
    lemma_split_word(a + seq![' '] + b + seq![' '], c);
    assert(Seq::<char>::empty() + c =~= c);
    assert(seq![a, b].push(c) =~= seq![a, b, c]);
}

/// A decimal number is not empty and holds no space.
pub proof fn lemma_decimal_is_a_word(s: Seq<char>)
    requires
        is_decimal(s),
    ensures
        s.len() > 0,
        no_space(s),
{
    let start = if s.len() > 0 && is_sign(s[0]) {
        1int
    } else {
        0int
    };
    if start <= s.len() {
        lemma_digits_end(s, start);
    }
    let whole_end = crate::decimal::digits_end(s, start);
    let has_point = whole_end < s.len() && s[whole_end] == '.';
    if has_point {
        lemma_digits_end(s, whole_end + 1);
    }
    let fraction_end = if has_point {
        crate::decimal::digits_end(s, whole_end + 1)
    } else {
        whole_end
    };
    if fraction_end < s.len() {
        assert(exponent_at(s, fraction_end));
        let digits = if fraction_end + 1 < s.len() && is_sign(s[fraction_end + 1]) {
            fraction_end + 2
        } else {
            fraction_end + 1
        };
        if digits <= s.len() {
            lemma_digits_end(s, digits);
        }
    }
    assert forall|i: int| 0 <= i < s.len() implies !is_space(#[trigger] s[i]) by {
        if i < start {
        } else if i < whole_end {
            assert(is_digit(s[i]));
        } else if has_point && i == whole_end {
        } else if i < fraction_end {
            assert(is_digit(s[i]));
        } else if i == fraction_end {
        } else {
            let digits = if fraction_end + 1 < s.len() && is_sign(s[fraction_end + 1]) {
                fraction_end + 2
            } else {
                fraction_end + 1
            };
            if i >= digits {
                assert(is_digit(s[i]));
            }
        }
    }
}

/// Whether a command is one that a script can spell: any but `Unknown`, a
/// `MoveTo` with two decimal numbers.
pub open spec fn spellable(command: CommandView) -> bool {
    match command {
        CommandView::MoveTo(x, y) => is_decimal(x) && is_decimal(y),
        CommandView::Unknown(_) => false,
        _ => true,
    }
}

/// Reading the line that spells a command gives the command back, strictly
/// and leniently.
pub proof fn lemma_spelled_command_reads_back(command: CommandView)
    requires
        spellable(command),
    ensures
        recognized(line_of(command)) == Some(command),
        parse_line(line_of(command)) == command,
        !malformed(line_of(command)),
{
    reveal_strlit("PEN UP");
    reveal_strlit("PEN DOWN");
    reveal_strlit("MOVE ");
    reveal_strlit("RESET");
    reveal_strlit("END");
    reveal_strlit("PEN");
    reveal_strlit("UP");
    reveal_strlit("DOWN");
    reveal_strlit("MOVE");
    reveal_strlit(" ");
    match command {
        CommandView::PenUp => {
            assert("PEN UP"@ =~= "PEN"@ + seq![' '] + "UP"@);
            lemma_two_words("PEN"@, "UP"@);
        },
        CommandView::PenDown => {
            assert("PEN DOWN"@ =~= "PEN"@ + seq![' '] + "DOWN"@);
            lemma_two_words("PEN"@, "DOWN"@);
        },
        CommandView::Reset => {
            lemma_one_word("RESET"@);
        },
        CommandView::End => {
            lemma_one_word("END"@);
        },
        CommandView::MoveTo(x, y) => {
            lemma_decimal_is_a_word(x);
            lemma_decimal_is_a_word(y);
            assert("MOVE "@ + x + " "@ + y =~= "MOVE"@ + seq![' '] + x + seq![' '] + y);
            lemma_three_words("MOVE"@, x, y);
        },
        CommandView::Unknown(_) => {},
    }
}

/// No word is empty and no word holds a space.
pub proof fn lemma_words_are_words(line: Seq<char>)
    ensures
        forall|i: int|
            0 <= i < words(line).len() ==> (#[trigger] words(line)[i]).len() > 0 && no_space(
                words(line)[i],
            ),
{
    lemma_split_gives_words(line);
    let (closed, open) = split(line);
    assert forall|i: int| 0 <= i < words(line).len() implies (#[trigger] words(line)[i]).len() > 0
        && no_space(words(line)[i]) by {
        if i < closed.len() {
            assert(words(line)[i] == closed[i]);
        }
    }
}

/// The words that a space has closed are not empty and hold no space, and
/// the word that the text ends in holds no space.
proof fn lemma_split_gives_words(s: Seq<char>)
    ensures
        forall|i: int|
            0 <= i < split(s).0.len() ==> (#[trigger] split(s).0[i]).len() > 0 && no_space(split(s).0[i]),
        no_space(split(s).1),
    decreases s.len(),
{
    if s.len() > 0 {
        lemma_split_gives_words(s.drop_last());
        let (closed, open) = split(s.drop_last());
        let (done, rest) = split(s);
        if !is_space(s.last()) {
            assert forall|i: int| 0 <= i < rest.len() implies !is_space(#[trigger] rest[i]) by {
                if i < open.len() {
                    assert(rest[i] == open[i]);
                }
            }
        } else if open.len() > 0 {
            assert forall|i: int| 0 <= i < done.len() implies (#[trigger] done[i]).len() > 0 && no_space(
                done[i],
            ) by {
                if i < closed.len() {
                    assert(done[i] == closed[i]);
                }
            }
        }
    }
}

} // verus!
