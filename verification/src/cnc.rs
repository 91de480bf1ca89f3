//! From strokes to a movement script and its text, and from text back to
//! lines.
//!
//! Every stroke becomes one block: the pen is lifted, the head moves to the
//! stroke's first point, the pen is lowered, the head moves through the
//! remaining points, and the pen is lifted again. The script closes with an
//! `END`, after an optional `RESET` that brings the head home.

use crate::canny::{PixelIndex, SerializebleComputation};
use crate::command::{
    line_of, malformed, parse_line, recognized, texts, Command, CommandError, CommandView,
};
use crate::coordinate::Coordinate;
use crate::decimal::decimal;
use crate::text::chars_of;
use vstd::prelude::*;
use vstd::string::StrSliceExecFns;
use vstd::string::StringExecFns;

verus! {

/// The command that moves the head to pixel `p`.
pub open spec fn move_to(p: PixelIndex) -> CommandView {
    CommandView::MoveTo(decimal(p.x as nat), decimal(p.y as nat))
}

/// The moves through the points of `edge` from the `from`-th on.
pub open spec fn moves_from(edge: Seq<PixelIndex>, from: int) -> Seq<CommandView> {
    Seq::new((edge.len() - from) as nat, |i: int| move_to(edge[from + i]))
}

/// The block of one stroke. A stroke without points has no block.
pub open spec fn block_of(edge: Seq<PixelIndex>) -> Seq<CommandView> {
    if edge.len() == 0 {
        Seq::empty()
    } else {
        seq![CommandView::PenUp, move_to(edge[0]), CommandView::PenDown] + moves_from(edge, 1)
            + seq![CommandView::PenUp]
    }
}

/// The blocks of all strokes, one after the other.
pub open spec fn blocks_of(strokes: Seq<Seq<PixelIndex>>) -> Seq<CommandView>
    decreases strokes.len(),
{
    if strokes.len() == 0 {
        Seq::empty()
    } else {
        blocks_of(strokes.drop_last()) + block_of(strokes.last())
    }
}

/// How a script closes: with `END`, after a `RESET` where one is asked for.
pub open spec fn closing(reset: bool) -> Seq<CommandView> {
    if reset {
        seq![CommandView::Reset, CommandView::End]
    } else {
        seq![CommandView::End]
    }
}

/// The script of a vectorization: the blocks of its strokes and the closing.
pub open spec fn script_of(strokes: Seq<Seq<PixelIndex>>, reset: bool) -> Seq<CommandView> {
    blocks_of(strokes) + closing(reset)
}

/// The views of a vector of commands.
pub open spec fn command_views(commands: Seq<Command>) -> Seq<CommandView> {
    Seq::new(commands.len(), |i: int| commands[i]@)
}

/// The lines that spell a script.
pub open spec fn script_text(script: Seq<CommandView>) -> Seq<Seq<char>> {
    Seq::new(script.len(), |i: int| line_of(script[i]))
}

/// The text of a sequence of lines: every line is followed by a line feed.
pub open spec fn joined(lines: Seq<Seq<char>>) -> Seq<char>
    decreases lines.len(),
{
    if lines.len() == 0 {
        Seq::empty()
    } else {
        joined(lines.drop_last()) + lines.last() + seq!['\n']
    }
}

/// A line as a line feed leaves it: without the carriage return that stands
/// directly before the line feed, if there is one.
pub open spec fn without_return(line: Seq<char>) -> Seq<char> {
    if line.len() > 0 && line.last() == '\r' {
        line.drop_last()
    } else {
        line
    }
}

/// The lines that a line feed has closed so far, and the line that the end
/// of `text` is in.
pub open spec fn cut(text: Seq<char>) -> (Seq<Seq<char>>, Seq<char>)
    decreases text.len(),
{
    if text.len() == 0 {
        (Seq::empty(), Seq::empty())
    } else {
        let (closed, open) = cut(text.drop_last());
        if text.last() == '\n' {
            (closed.push(without_return(open)), Seq::empty())
        } else {
            (closed, open.push(text.last()))
        }
    }
}

/// The lines of a text. Every line feed ends a line, and the line loses one
/// carriage return that stands directly before the line feed. What follows
/// the last line feed is a line too, unless it is empty, and is kept as it
/// is.
pub open spec fn lines_of(text: Seq<char>) -> Seq<Seq<char>> {
    let (closed, open) = cut(text);
    if open.len() > 0 {
        closed.push(open)
    } else {
        closed
    }
}

/// The command that moves the head to pixel `p`.
fn move_command(p: PixelIndex) -> (command: Command)
    ensures
        command@ == move_to(p),
{
    Command::MoveTo(Coordinate::from_index(p.x), Coordinate::from_index(p.y))
}

/// Appends the block of `edge` to `script`.
fn push_block(script: &mut Vec<Command>, edge: &Vec<PixelIndex>)
    ensures
        command_views(final(script)@) == command_views(old(script)@) + block_of(edge@),
{
    let ghost before = command_views(script@);
    if edge.len() == 0 {
        assert(before + block_of(edge@) =~= before);
        return ;
    }
    script.push(Command::PenUp);
    script.push(move_command(edge[0]));
    script.push(Command::PenDown);
    let ghost head = seq![CommandView::PenUp, move_to(edge@[0]), CommandView::PenDown];
    assert(command_views(script@) =~= before + head);
    let mut i: usize = 1;
    while i < edge.len()
        invariant
            1 <= i <= edge.len(),
            command_views(script@) == before + head + moves_from(edge@, 1).take(i - 1),
        decreases edge.len() - i,
    {
        let ghost so_far = command_views(script@);
        let command = move_command(edge[i]);
        script.push(command);
        proof {
            assert(command_views(script@) =~= so_far.push(move_to(edge@[i as int])));
            assert(moves_from(edge@, 1).take(i as int) =~= moves_from(edge@, 1).take(i - 1).push(
                move_to(edge@[i as int]),
            ));
        }
        i = i + 1;
    }
    let ghost so_far = command_views(script@);
    script.push(Command::PenUp);
    proof {
        assert(moves_from(edge@, 1).take(edge.len() - 1) =~= moves_from(edge@, 1));
        assert(command_views(script@) =~= so_far.push(CommandView::PenUp));
        assert(command_views(script@) =~= before + block_of(edge@));
    }
}

/// The script of a vectorization: one block per stroke, then a `RESET` if
/// `reset` asks for one, then `END`.
pub fn encode(computation: &SerializebleComputation, reset: bool) -> (script: Vec<Command>)
    ensures
        command_views(script@) == script_of(computation.strokes(), reset),
{
    let mut script: Vec<Command> = Vec::new();
    let mut a: usize = 0;
    proof {
        assert(computation.strokes().take(0) =~= Seq::<Seq<PixelIndex>>::empty());
        assert(command_views(script@) =~= Seq::<CommandView>::empty());
    }
    while a < computation.edges.len()
        invariant
            a <= computation.edges.len(),
            command_views(script@) == blocks_of(computation.strokes().take(a as int)),
        decreases computation.edges.len() - a,
    {
        proof {
            let upto = computation.strokes().take(a + 1);
            assert(upto.drop_last() =~= computation.strokes().take(a as int));
            assert(upto.last() == computation.edges@[a as int]@);
        }
        push_block(&mut script, &computation.edges[a]);
        a = a + 1;
    }
    proof {
        assert(computation.strokes().take(computation.edges.len() as int) =~= computation.strokes());
    }
    let ghost blocks = command_views(script@);
    if reset {
        script.push(Command::Reset);
    }
    script.push(Command::End);
    proof {
        assert(command_views(script@) =~= blocks + closing(reset));
    }
    script
}

/// The lines that spell a script, one per command.
pub fn write_lines(script: &Vec<Command>) -> (lines: Vec<String>)
    ensures
        texts(lines@) == script_text(command_views(script@)),
{
    let mut lines: Vec<String> = Vec::new();
    let mut i: usize = 0;
    while i < script.len()
        invariant
            i <= script.len(),
            texts(lines@) == script_text(command_views(script@)).take(i as int),
        decreases script.len() - i,
    {
        let line = script[i].to_line();
        proof {
            let all = script_text(command_views(script@));
            assert(all.take(i + 1) =~= all.take(i as int).push(line@));
            assert(texts(lines@.push(line)) =~= texts(lines@).push(line@));
        }
        lines.push(line);
        i = i + 1;
    }
    proof {
        let all = script_text(command_views(script@));
        assert(all.take(script.len() as int) =~= all);
    }
    lines
}

/// One text from a sequence of lines: every line is followed by a line feed.
pub fn join_lines(lines: &Vec<String>) -> (text: String)
    ensures
        text@ == joined(texts(lines@)),
{
    let mut text = String::new();
    let mut i: usize = 0;
    proof {
        reveal_strlit("\n");
        assert(texts(lines@).take(0) =~= Seq::<Seq<char>>::empty());
    }
    while i < lines.len()
        invariant
            i <= lines.len(),
            "\n"@ == seq!['\n'],
            text@ == joined(texts(lines@).take(i as int)),
        decreases lines.len() - i,
    {
        proof {
            let upto = texts(lines@).take(i + 1);
            assert(upto.drop_last() =~= texts(lines@).take(i as int));
            assert(upto.last() == lines@[i as int]@);
        }
        text.append(lines[i].as_str());
        text.append("\n");
        i = i + 1;
    }
    proof {
        assert(texts(lines@).take(lines.len() as int) =~= texts(lines@));
    }
    text
}

/// The lines that spell the script of a vectorization, closed by `END`.
/// Every line passes the strict reading.
pub fn to_cnc_lines(computation: &SerializebleComputation) -> (lines: Vec<String>)
    ensures
        texts(lines@) == script_text(script_of(computation.strokes(), false)),
        forall|i: int| 0 <= i < lines@.len() ==> recognized(#[trigger] lines@[i]@) is Some,
{
    let script = encode(computation, false);
    let lines = write_lines(&script);
    proof {
        crate::replay::lemma_script_is_strict(computation.strokes(), false);
        let script = script_of(computation.strokes(), false);
        assert(texts(lines@).len() == lines@.len());
        assert(script_text(script).len() == script.len());
        assert forall|i: int| 0 <= i < lines@.len() implies recognized(#[trigger] lines@[i]@) is Some by {
            assert(texts(lines@)[i] == lines@[i]@);
            assert(recognized(script_text(script)[i]) == Some(script[i]));
        }
    }
    lines
}

/// The text of the script of a vectorization: one command per line, every
/// line followed by a line feed, the last line being `END`.
pub fn to_cnc(computation: &SerializebleComputation) -> (text: String)
    ensures
        text@ == joined(script_text(script_of(computation.strokes(), false))),
{
    let lines = to_cnc_lines(computation);
    join_lines(&lines)
}

/// The lines of `text`, without their line endings: a line feed, or a
/// carriage return and a line feed.
pub fn split_lines(text: &str) -> (lines: Vec<String>)
    ensures
        texts(lines@) == lines_of(text@),
{
    let chars = chars_of(text);
    let mut lines: Vec<String> = Vec::new();
    let mut start: usize = 0;
    let mut i: usize = 0;
    proof {
        assert(text@.take(0) =~= Seq::<char>::empty());
        assert(texts(lines@) =~= Seq::<Seq<char>>::empty());
        assert(text@.subrange(0, 0) =~= Seq::<char>::empty());
    }
    while i < chars.len()
        invariant
            chars@ == text@,
            start <= i <= chars.len(),
            texts(lines@) == cut(text@.take(i as int)).0,
            cut(text@.take(i as int)).1 == text@.subrange(start as int, i as int),
        decreases chars.len() - i,
    {
        proof {
            assert(text@.take(i + 1).drop_last() =~= text@.take(i as int));
            assert(text@.take(i + 1).last() == text@[i as int]);
        }
        if chars[i] == '\n' {
            let end: usize = if start < i && chars[i - 1] == '\r' {
                i - 1
            } else {
                i
            };
            let line = String::from_str(text.substring_char(start, end));
            proof {
                let open = text@.subrange(start as int, i as int);
                if start < i {
                    assert(open.last() == text@[i - 1]);
                    assert(open.drop_last() =~= text@.subrange(start as int, i - 1));
                }
                assert(line@ == without_return(open));
                assert(texts(lines@.push(line)) =~= texts(lines@).push(line@));
                assert(text@.subrange(i + 1, i + 1) =~= Seq::<char>::empty());
            }
            lines.push(line);
            start = i + 1;
        } else {
            proof {
                assert(text@.subrange(start as int, i + 1) =~= text@.subrange(start as int, i as int).push(
                    text@[i as int],
                ));
            }
        }
        i = i + 1;
    }
    proof {
        assert(text@.take(chars.len() as int) =~= text@);
    }
    if start < chars.len() {
        let line = String::from_str(text.substring_char(start, chars.len()));
        proof {
            assert(texts(lines@.push(line)) =~= texts(lines@).push(line@));
        }
        lines.push(line);
    }
    lines
}

/// Why a line is refused when a script is read strictly.
pub open spec fn refusal(line: Seq<char>) -> CommandError {
    if malformed(line) {
        CommandError::MalformedCommand
    } else {
        CommandError::UnknownCommand
    }
}

/// What playing takes the lines of a script for.
pub open spec fn parsed(lines: Seq<Seq<char>>) -> Seq<CommandView> {
    Seq::new(lines.len(), |i: int| parse_line(lines[i]))
}

/// Reads a script strictly: every line has to spell a command. The first
/// line that spells none decides the error: `MalformedCommand` for a `MOVE`
/// without two decimal numbers, `UnknownCommand` for anything else.
pub fn validate_script(lines: &Vec<String>) -> (result: Result<Vec<Command>, CommandError>)
    ensures
        result is Ok <==> forall|i: int| 0 <= i < lines@.len() ==> recognized(#[trigger] lines@[i]@) is Some,
        result matches Ok(script) ==> command_views(script@) == parsed(texts(lines@)),
        result matches Err(e) ==> exists|i: int|
            0 <= i < lines@.len() && recognized(#[trigger] lines@[i]@) is None && e == refusal(lines@[i]@)
                && forall|j: int| 0 <= j < i ==> recognized(#[trigger] lines@[j]@) is Some,
{
    let mut script: Vec<Command> = Vec::new();
    let mut i: usize = 0;
    proof {
        assert(command_views(script@) =~= parsed(texts(lines@)).take(0));
    }
    while i < lines.len()
        invariant
            i <= lines.len(),
            forall|j: int| 0 <= j < i ==> recognized(#[trigger] lines@[j]@) is Some,
            command_views(script@) == parsed(texts(lines@)).take(i as int),
        decreases lines.len() - i,
    {
        match Command::validate(lines[i].as_str()) {
            Ok(command) => {
                proof {
                    let all = parsed(texts(lines@));
                    assert(all.take(i + 1) =~= all.take(i as int).push(command@));
                    assert(command_views(script@.push(command)) =~= command_views(script@).push(command@));
                }
                script.push(command);
            },
            Err(e) => {
                proof {
                    assert(recognized(lines@[i as int]@) is None);
                    assert(e == refusal(lines@[i as int]@));
                }
                return Err(e);
            },
        }
        i = i + 1;
    }
    proof {
        let all = parsed(texts(lines@));
        assert(all.take(lines.len() as int) =~= all);
    }
    Ok(script)
}

/// Reads a script leniently, as a player does: a line that spells no command
/// becomes `Unknown` and keeps its text.
pub fn parse_script(lines: &Vec<String>) -> (script: Vec<Command>)
    ensures
        command_views(script@) == parsed(texts(lines@)),
{
    let mut script: Vec<Command> = Vec::new();
    let mut i: usize = 0;
    proof {
        assert(command_views(script@) =~= parsed(texts(lines@)).take(0));
    }
    while i < lines.len()
        invariant
            i <= lines.len(),
            command_views(script@) == parsed(texts(lines@)).take(i as int),
        decreases lines.len() - i,
    {
        let command = Command::parse(lines[i].as_str());
        proof {
            let all = parsed(texts(lines@));
            assert(all.take(i + 1) =~= all.take(i as int).push(command@));
            assert(command_views(script@.push(command)) =~= command_views(script@).push(command@));
        }
        script.push(command);
        i = i + 1;
    }
    proof {
        let all = parsed(texts(lines@));
        assert(all.take(lines.len() as int) =~= all);
    }
    script
}

} // verus!
