//! What holds of playing a script: one step per authorisation, what `RESET`
//! and unknown lines do, and that playing the script of a vectorization draws
//! exactly its strokes.

use crate::canny::{PixelIndex, SerializebleComputation};
use crate::cnc::{
    block_of, blocks_of, cut, joined, lines_of, move_to, moves_from, script_of, script_text,
    to_cnc_lines, without_return,
};
use crate::command::{
    lemma_spelled_command_reads_back, line_of, parse_line, spellable, CommandView,
};
use crate::decimal::{decimal, lemma_decimal_is_decimal};
use crate::tracer::{
    advanced, applied, enabled, ends_after, home, initial, played, ready, segment_views, stepped,
    PenDirection, Segment, SegmentView, Tracer, TracerView,
};
use vstd::prelude::*;

verus! {

/// After one authorisation, however many steps are asked for, exactly one is
/// taken: the session is where the first step left it, and one line is
/// consumed unless the session was finished, when none is.
pub proof fn lemma_one_step_per_authorisation(s: TracerView, n: nat)
    requires
        n >= 1,
    ensures
        stepped(enabled(s), n) == advanced(enabled(s)),
        !s.finished && s.remaining.len() > 0 ==> stepped(enabled(s), n).remaining.len()
            == s.remaining.len() - 1,
        s.finished || s.remaining.len() == 0 ==> stepped(enabled(s), n).remaining == s.remaining,
    decreases n,
{
    reveal_with_fuel(stepped, 2);
    if n > 1 {
        lemma_one_step_per_authorisation(s, (n - 1) as nat);
    }
}

/// A step that was not authorised does nothing.
pub proof fn lemma_idle_step_is_nothing(s: TracerView)
    requires
        !s.armed,
    ensures
        advanced(s) == s,
{
}

/// A `RESET` brings the head home with the pen lifted, whatever the session
/// was, and draws nothing.
pub proof fn lemma_reset(s: TracerView)
    requires
        ready(s),
        parse_line(s.remaining[0]) == CommandView::Reset,
    ensures
        advanced(s).current == home(),
        advanced(s).segments == s.segments,
{
}

/// A line that spells no command is consumed and changes nothing else: the
/// head, its previous snapshot and the drawing stay, and the session goes on
/// unless that line was the last.
pub proof fn lemma_unknown_line(s: TracerView)
    requires
        ready(s),
        parse_line(s.remaining[0]) is Unknown,
    ensures
        advanced(s).current == s.current,
        advanced(s).previous == s.previous,
        advanced(s).segments == s.segments,
        advanced(s).remaining == s.remaining.drop_first(),
        advanced(s).finished == (s.remaining.len() == 1),
{
}

/// The session after the commands of `script` were applied one after the
/// other.
pub open spec fn executed(script: Seq<CommandView>, s: TracerView) -> TracerView
    decreases script.len(),
{
    if script.len() == 0 {
        s
    } else {
        applied(script.last(), executed(script.drop_last(), s))
    }
}

/// The segment between two pixels.
pub open spec fn segment_between(a: PixelIndex, b: PixelIndex) -> SegmentView {
    SegmentView {
        from: (decimal(a.x as nat), decimal(a.y as nat)),
        to: (decimal(b.x as nat), decimal(b.y as nat)),
    }
}

/// The segments of a stroke: from each point to the next.
pub open spec fn segments_of(edge: Seq<PixelIndex>) -> Seq<SegmentView> {
    Seq::new(
        if edge.len() > 0 {
            (edge.len() - 1) as nat
        } else {
            0nat
        },
        |i: int| segment_between(edge[i], edge[i + 1]),
    )
}

/// The segments of all strokes, stroke after stroke.
pub open spec fn all_segments(strokes: Seq<Seq<PixelIndex>>) -> Seq<SegmentView>
    decreases strokes.len(),
{
    if strokes.len() == 0 {
        Seq::empty()
    } else {
        all_segments(strokes.drop_last()) + segments_of(strokes.last())
    }
}

/// Whether no command of `script` is an `END`.
pub open spec fn endless(script: Seq<CommandView>) -> bool {
    forall|i: int| 0 <= i < script.len() ==> !((#[trigger] script[i]) is End)
}

/// Applying two scripts one after the other is applying them joined.
pub proof fn lemma_executed_joined(a: Seq<CommandView>, b: Seq<CommandView>, s: TracerView)
    ensures
        executed(a + b, s) == executed(b, executed(a, s)),
    decreases b.len(),
{
    if b.len() == 0 {
        assert(a + b =~= a);
    } else {
        lemma_executed_joined(a, b.drop_last(), s);
        assert((a + b).drop_last() =~= a + b.drop_last());
        assert((a + b).last() == b.last());
    }
}

/// With the pen down at the first point of a stroke, the moves through its
/// next points draw the stroke's segments up to there.
proof fn lemma_moves_draw(edge: Seq<PixelIndex>, s: TracerView, j: int)
    requires
        edge.len() > 0,
        0 <= j <= edge.len() - 1,
        s.current.pen == PenDirection::DOWN,
        s.current.x == decimal(edge[0].x as nat),
        s.current.y == decimal(edge[0].y as nat),
    ensures
        ({
            let t = executed(moves_from(edge, 1).take(j), s);
            &&& t.current.pen == PenDirection::DOWN
            &&& t.current.x == decimal(edge[j].x as nat)
            &&& t.current.y == decimal(edge[j].y as nat)
            &&& t.segments == s.segments + segments_of(edge).take(j)
        }),
    decreases j,
{
    let moves = moves_from(edge, 1);
    if j == 0 {
        assert(moves.take(0) =~= Seq::<CommandView>::empty());
        assert(s.segments + segments_of(edge).take(0) =~= s.segments);
    } else {
        lemma_moves_draw(edge, s, j - 1);
        assert(moves.take(j).drop_last() =~= moves.take(j - 1));
        assert(moves.take(j).last() == move_to(edge[j]));
        let before = executed(moves.take(j - 1), s);
        assert(segments_of(edge).take(j) =~= segments_of(edge).take(j - 1).push(
            segment_between(edge[j - 1], edge[j]),
        ));
        assert(s.segments + segments_of(edge).take(j) =~= (s.segments + segments_of(edge).take(
            j - 1,
        )).push(segment_between(edge[j - 1], edge[j])));
    }
}

/// With the pen lifted, the block of a stroke draws the stroke's segments
/// and leaves the pen lifted.
pub proof fn lemma_block_draws(edge: Seq<PixelIndex>, s: TracerView)
    requires
        s.current.pen == PenDirection::UP,
    ensures
        executed(block_of(edge), s).current.pen == PenDirection::UP,
        executed(block_of(edge), s).segments == s.segments + segments_of(edge),
{
    if edge.len() == 0 {
        assert(s.segments + segments_of(edge) =~= s.segments);
    } else {
        let head = seq![CommandView::PenUp, move_to(edge[0]), CommandView::PenDown];
        let moves = moves_from(edge, 1);
        let tail = seq![CommandView::PenUp];
        reveal_with_fuel(executed, 4);
        let lowered = executed(head, s);
        assert(head.drop_last() =~= seq![CommandView::PenUp, move_to(edge[0])]);
        assert(head.drop_last().drop_last() =~= seq![CommandView::PenUp]);
        assert(head.drop_last().drop_last().drop_last() =~= Seq::<CommandView>::empty());
        assert(lowered.current.pen == PenDirection::DOWN);
        assert(lowered.segments == s.segments);
        lemma_moves_draw(edge, lowered, edge.len() - 1);
        assert(moves.take(edge.len() - 1) =~= moves);
        assert(segments_of(edge).take(edge.len() - 1) =~= segments_of(edge));
        lemma_executed_joined(head, moves, s);
        lemma_executed_joined(head + moves, tail, s);
        assert(tail.drop_last() =~= Seq::<CommandView>::empty());
    }
}

/// With the pen lifted, the blocks of strokes draw the segments of all the
/// strokes and leave the pen lifted.
pub proof fn lemma_blocks_draw(strokes: Seq<Seq<PixelIndex>>, s: TracerView)
    requires
        s.current.pen == PenDirection::UP,
    ensures
        executed(blocks_of(strokes), s).current.pen == PenDirection::UP,
        executed(blocks_of(strokes), s).segments == s.segments + all_segments(strokes),
    decreases strokes.len(),
{
    if strokes.len() == 0 {
        assert(s.segments + all_segments(strokes) =~= s.segments);
    } else {
        let front = strokes.drop_last();
        lemma_blocks_draw(front, s);
        let middle = executed(blocks_of(front), s);
        lemma_block_draws(strokes.last(), middle);
        lemma_executed_joined(blocks_of(front), block_of(strokes.last()), s);
        assert(s.segments + all_segments(strokes) =~= s.segments + all_segments(front) + segments_of(
            strokes.last(),
        ));
    }
}

/// The blocks of strokes are made of commands that a script can spell, and
/// none of them is an `END`.
pub proof fn lemma_blocks_spellable(strokes: Seq<Seq<PixelIndex>>)
    ensures
        endless(blocks_of(strokes)),
        forall|i: int| 0 <= i < blocks_of(strokes).len() ==> spellable(#[trigger] blocks_of(strokes)[i]),
    decreases strokes.len(),
{
    if strokes.len() > 0 {
        let front = strokes.drop_last();
        let edge = strokes.last();
        lemma_blocks_spellable(front);
        let block = block_of(edge);
        assert forall|i: int| 0 <= i < block.len() implies spellable(#[trigger] block[i]) && !(
        block[i] is End) by {
            if edge.len() > 0 {
                if i == 1 {
                    lemma_decimal_is_decimal(edge[0].x as nat);
                    lemma_decimal_is_decimal(edge[0].y as nat);
                } else if 3 <= i < block.len() - 1 {
                    assert(block[i] == move_to(edge[i - 2]));
                    lemma_decimal_is_decimal(edge[i - 2].x as nat);
                    lemma_decimal_is_decimal(edge[i - 2].y as nat);
                }
            }
        }
        let all = blocks_of(strokes);
        assert forall|i: int| 0 <= i < all.len() implies spellable(#[trigger] all[i]) && !(all[i] is End) by {
            if i < blocks_of(front).len() {
                assert(all[i] == blocks_of(front)[i]);
            } else {
                assert(all[i] == block[i - blocks_of(front).len()]);
            }
        }
    }
}

/// While no `END` is met and lines are left, playing consumes the lines one
/// by one and does to the head and the drawing what applying their commands
/// does.
pub proof fn lemma_played_is_executed(script: Seq<CommandView>, k: nat)
    requires
        k <= script.len(),
        script.len() > 0,
        endless(script.take(k as int)),
        forall|i: int| 0 <= i < script.len() ==> spellable(#[trigger] script[i]),
    ensures
        ({
            let start = initial(script_text(script));
            let p = played(start, k);
            let e = executed(script.take(k as int), start);
            &&& p.current == e.current
            &&& p.previous == e.previous
            &&& p.segments == e.segments
            &&& p.remaining == script_text(script).skip(k as int)
            &&& p.finished == (k == script.len())
        }),
    decreases k,
{
    let lines = script_text(script);
    let start = initial(lines);
    if k == 0 {
        assert(script.take(0) =~= Seq::<CommandView>::empty());
        assert(lines.skip(0) =~= lines);
    } else {
        let j = (k - 1) as nat;
        assert forall|i: int| 0 <= i < script.take(j as int).len() implies !((#[trigger] script.take(
            j as int,
        )[i]) is End) by {
            assert(script.take(k as int)[i] == script[i]);
        }
        lemma_played_is_executed(script, j);
        let p = played(start, j);
        let e = executed(script.take(j as int), start);
        assert(script.take(k as int).drop_last() =~= script.take(j as int));
        assert(script.take(k as int).last() == script[j as int]);
        assert(script.take(k as int)[j as int] == script[j as int]);
        assert(lines.skip(j as int)[0] == line_of(script[j as int]));
        lemma_spelled_command_reads_back(script[j as int]);
        assert(lines.skip(j as int).drop_first() =~= lines.skip(k as int));
    }
}

/// Playing the script of a vectorization to its end draws exactly the
/// segments of its strokes, stroke after stroke and each from point to point
/// in the order of the stroke, and ends with the pen lifted and no line
/// left. The session is finished by the cycle that consumes the last line,
/// and not before.
pub proof fn lemma_script_replays(strokes: Seq<Seq<PixelIndex>>, reset: bool)
    ensures
        ({
            let lines = script_text(script_of(strokes, reset));
            let end = played(initial(lines), lines.len());
            &&& ends_after(initial(lines), lines.len())
            &&& end.finished
            &&& end.remaining.len() == 0
            &&& end.segments == all_segments(strokes)
            &&& end.current.pen == PenDirection::UP
        }),
{
    let blocks = blocks_of(strokes);
    let script = script_of(strokes, reset);
    let lines = script_text(script);
    let start = initial(lines);
    let n = script.len();
    let body = script.take(n - 1);
    lemma_blocks_spellable(strokes);
    assert(script[n - 1] == CommandView::End);
    assert forall|i: int| 0 <= i < script.len() implies spellable(#[trigger] script[i]) by {
        if i < blocks.len() {
            assert(script[i] == blocks[i]);
        }
    }
    assert forall|i: int| 0 <= i < body.len() implies !((#[trigger] body[i]) is End) by {
        if i < blocks.len() {
            assert(body[i] == blocks[i]);
        } else {
            assert(body[i] == CommandView::Reset);
        }
    }
    lemma_played_is_executed(script, (n - 1) as nat);
    let p = played(start, (n - 1) as nat);
    let e = executed(body, start);
    lemma_blocks_draw(strokes, start);
    assert(start.segments + all_segments(strokes) =~= all_segments(strokes));
    if reset {
        assert(body =~= blocks + seq![CommandView::Reset]);
        lemma_executed_joined(blocks, seq![CommandView::Reset], start);
        assert(seq![CommandView::Reset].drop_last() =~= Seq::<CommandView>::empty());
        reveal_with_fuel(executed, 2);
    } else {
        assert(body =~= blocks);
    }
    assert(e.segments == all_segments(strokes));
    assert(e.current.pen == PenDirection::UP);
    assert(lines.skip(n - 1)[0] == line_of(script[n - 1]));
    lemma_spelled_command_reads_back(script[n - 1]);
    assert(lines.len() == n);
    assert forall|m: nat| m < n implies !(#[trigger] played(start, m)).finished by {
        assert forall|i: int| 0 <= i < script.take(m as int).len() implies !((#[trigger] script.take(
            m as int,
        )[i]) is End) by {
            assert(script.take(m as int)[i] == body[i]);
        }
        lemma_played_is_executed(script, m);
    }
}

/// Whether no line holds a line feed and no line ends in a carriage return.
pub open spec fn plain_lines(lines: Seq<Seq<char>>) -> bool {
    &&& forall|i: int, j: int|
        0 <= i < lines.len() && 0 <= j < lines[i].len() ==> (#[trigger] lines[i][j]) != '\n'
    &&& forall|i: int| 0 <= i < lines.len() ==> without_return(#[trigger] lines[i]) == lines[i]
}

/// A line feed that follows `text` closes the line that `text` ends in.
proof fn lemma_cut_joined(lines: Seq<Seq<char>>)
    requires
        plain_lines(lines),
    ensures
        cut(joined(lines)) == (lines, Seq::<char>::empty()),
    decreases lines.len(),
{
    if lines.len() == 0 {
        assert(joined(lines) =~= Seq::<char>::empty());
    } else {
        let front = lines.drop_last();
        assert forall|i: int, j: int| 0 <= i < front.len() && 0 <= j < front[i].len() implies (
        #[trigger] front[i][j]) != '\n' by {
            assert(front[i] == lines[i]);
        }
        assert forall|i: int| 0 <= i < front.len() implies without_return(#[trigger] front[i])
            == front[i] by {
            assert(front[i] == lines[i]);
        }
        lemma_cut_joined(front);
        let last = lines.len() - 1;
        assert(lines.last() == lines[last]);
        assert forall|j: int| 0 <= j < lines.last().len() implies (#[trigger] lines.last()[j]) != '\n' by {
            assert(lines[last][j] != '\n');
        }
        lemma_cut_line(joined(front), lines.last());
        let body = joined(front) + lines.last();
        let text = joined(lines);
        assert(text.drop_last() =~= body);
        assert(text.last() == '\n');
        assert(Seq::<char>::empty() + lines.last() =~= lines.last());
        assert(front.push(lines.last()) =~= lines);
    }
}

/// A text without line feeds that follows `text` continues the line that
/// `text` ends in.
proof fn lemma_cut_line(text: Seq<char>, line: Seq<char>)
    requires
        forall|j: int| 0 <= j < line.len() ==> (#[trigger] line[j]) != '\n',
    ensures
        cut(text + line) == (cut(text).0, cut(text).1 + line),
    decreases line.len(),
{
    if line.len() == 0 {
        assert(text + line =~= text);
        assert(cut(text).1 + line =~= cut(text).1);
    } else {
        let front = line.drop_last();
        assert forall|j: int| 0 <= j < front.len() implies (#[trigger] front[j]) != '\n' by {
            assert(front[j] == line[j]);
        }
        lemma_cut_line(text, front);
        assert((text + line).drop_last() =~= text + front);
        assert((text + line).last() == line[line.len() - 1]);
        assert(cut(text).1 + line =~= (cut(text).1 + front).push(line.last()));
    }
}

/// Cutting the text of a sequence of lines gives the lines back, as long as
/// no line holds a line feed and no line ends in a carriage return.
pub proof fn lemma_lines_read_back(lines: Seq<Seq<char>>)
    requires
        plain_lines(lines),
    ensures
        lines_of(joined(lines)) == lines,
{
    lemma_cut_joined(lines);
}

/// Every line of the script of a vectorization spells its command, so the
/// script passes the strict reading.
pub proof fn lemma_script_is_strict(strokes: Seq<Seq<PixelIndex>>, reset: bool)
    ensures
        forall|i: int|
            0 <= i < script_of(strokes, reset).len() ==> crate::command::recognized(
                #[trigger] script_text(script_of(strokes, reset))[i],
            ) == Some(script_of(strokes, reset)[i]),
{
    let blocks = blocks_of(strokes);
    let script = script_of(strokes, reset);
    lemma_blocks_spellable(strokes);
    assert forall|i: int| 0 <= i < script.len() implies crate::command::recognized(
        #[trigger] script_text(script)[i],
    ) == Some(script[i]) by {
        if i < blocks.len() {
            assert(script[i] == blocks[i]);
        }
        lemma_spelled_command_reads_back(script[i]);
    }
}

/// Writes the script of a vectorization, plays it to its end, and returns
/// what the pen has drawn: exactly the segments of the strokes.
pub fn simulate(computation: &SerializebleComputation) -> (drawn: Vec<Segment>)
    ensures
        segment_views(drawn@) == all_segments(computation.strokes()),
{
    let lines = to_cnc_lines(computation);
    let mut tracer = Tracer::new(lines);
    tracer.run_to_end();
    proof {
        lemma_script_replays(computation.strokes(), false);
    }
    tracer.into_segments()
}

} // verus!
