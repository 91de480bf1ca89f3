//! The player of a movement script: a state machine that consumes one line
//! per authorised step, tracks the head and the pen, and records the segments
//! that the pen draws. The caller alone decides when a step is taken.

use crate::command::{parse_line, texts, Command, CommandView};
use crate::coordinate::Coordinate;
use crate::decimal::decimal;
use vstd::prelude::*;

verus! {

/// Whether the pen touches the surface.
#[derive(Clone, Copy, Debug, PartialEq, Eq, Structural)]
pub enum PenDirection {
    /// The pen is lifted.
    UP,
    /// The pen touches the surface.
    DOWN,
}

/// A snapshot of the plotting head as the contracts speak of it.
pub struct TipView {
    pub x: Seq<char>,
    pub y: Seq<char>,
    pub pen: PenDirection,
}

/// A drawn segment as the contracts speak of it: from where to where, each
/// position as its two coordinates.
pub struct SegmentView {
    pub from: (Seq<char>, Seq<char>),
    pub to: (Seq<char>, Seq<char>),
}

/// A session as the contracts speak of it.
pub struct TracerView {
    /// Whether one step is authorised.
    pub armed: bool,
    /// Whether the script has ended or run out.
    pub finished: bool,
    /// The lines that were not consumed yet.
    pub remaining: Seq<Seq<char>>,
    /// The head now.
    pub current: TipView,
    /// The head before the last command that was applied.
    pub previous: TipView,
    /// What the pen has drawn.
    pub segments: Seq<SegmentView>,
}

/// Where a session stands.
#[derive(Clone, Copy, Debug, PartialEq, Eq, Structural)]
pub enum Phase {
    /// Lines remain and no step is authorised.
    Idle,
    /// Exactly one step is authorised.
    Armed,
    /// The script has ended or run out.
    Finished,
}

/// Where the session `s` stands.
pub open spec fn phase_of(s: TracerView) -> Phase {
    if s.finished {
        Phase::Finished
    } else if s.armed {
        Phase::Armed
    } else {
        Phase::Idle
    }
}

/// The head at the origin with the pen lifted.
pub open spec fn home() -> TipView {
    TipView { x: decimal(0), y: decimal(0), pen: PenDirection::UP }
}

/// The session that starts on `lines`: idle at home, and finished at once
/// when there is no line.
pub open spec fn initial(lines: Seq<Seq<char>>) -> TracerView {
    TracerView {
        armed: false,
        finished: lines.len() == 0,
        remaining: lines,
        current: home(),
        previous: home(),
        segments: Seq::empty(),
    }
}

/// The session after a step was authorised: it is armed, whatever it was,
/// and nothing else has changed.
pub open spec fn enabled(s: TracerView) -> TracerView {
    TracerView { armed: true, ..s }
}

/// Whether a step would consume a line.
pub open spec fn ready(s: TracerView) -> bool {
    s.armed && !s.finished && s.remaining.len() > 0
}

/// The session after its next line was taken from the queue. The session is
/// finished when no line is left.
pub open spec fn dequeued(s: TracerView) -> TracerView {
    TracerView { finished: s.remaining.len() <= 1, remaining: s.remaining.drop_first(), ..s }
}

/// The head after a command, the pen and the position being what the command
/// leaves of them.
pub open spec fn moved(s: TracerView, tip: TipView) -> TracerView {
    TracerView { current: tip, previous: s.current, ..s }
}

/// What a command does to a session. An `Unknown` does nothing. Any other
/// command first makes the head's snapshot the previous one. A `MoveTo` with
/// the pen down draws a segment from the previous position to the new one.
pub open spec fn applied(command: CommandView, s: TracerView) -> TracerView {
    match command {
        CommandView::Unknown(_) => s,
        CommandView::PenUp => moved(s, TipView { pen: PenDirection::UP, ..s.current }),
        CommandView::PenDown => moved(s, TipView { pen: PenDirection::DOWN, ..s.current }),
        CommandView::Reset => moved(s, home()),
        CommandView::End => TracerView { finished: true, ..moved(s, s.current) },
        CommandView::MoveTo(x, y) => {
            let t = moved(s, TipView { x, y, pen: s.current.pen });
            if s.current.pen == PenDirection::DOWN {
                TracerView {
                    segments: s.segments.push(
                        SegmentView { from: (s.current.x, s.current.y), to: (x, y) },
                    ),
                    ..t
                }
            } else {
                t
            }
        },
    }
}

/// One step: nothing happens unless the session is armed and not finished;
/// otherwise the next line is consumed, the session is disarmed, and the
/// command that the line spells is applied.
pub open spec fn advanced(s: TracerView) -> TracerView {
    if ready(s) {
        applied(parse_line(s.remaining[0]), TracerView { armed: false, ..dequeued(s) })
    } else {
        s
    }
}

/// The session after `n` cycles, each of which authorises one step and takes
/// it.
pub open spec fn played(s: TracerView, n: nat) -> TracerView
    decreases n,
{
    if n == 0 {
        s
    } else {
        advanced(enabled(played(s, (n - 1) as nat)))
    }
}

/// The session after `n` steps were asked for and none was authorised in
/// between.
pub open spec fn stepped(s: TracerView, n: nat) -> TracerView
    decreases n,
{
    if n == 0 {
        s
    } else {
        advanced(stepped(s, (n - 1) as nat))
    }
}

/// Whether the session that starts as `s` is finished after `n` cycles and
/// not before.
pub open spec fn ends_after(s: TracerView, n: nat) -> bool {
    &&& played(s, n).finished
    &&& forall|m: nat| m < n ==> !(#[trigger] played(s, m)).finished
}

/// A finished session is at its end: the cycles that follow authorise steps
/// that are never taken, and change nothing else.
pub proof fn lemma_finished_is_final(s: TracerView, k: nat, n: nat)
    requires
        played(s, k).finished,
        k <= n,
    ensures
        played(s, n) == if k < n {
            enabled(played(s, k))
        } else {
            played(s, k)
        },
    decreases n,
{
    if k < n {
        lemma_finished_is_final(s, k, (n - 1) as nat);
    }
}

/// A snapshot of the plotting head: where it is and whether the pen is down.
#[derive(Debug, PartialEq, Eq)]
pub struct DrawingTip {
    x: Coordinate,
    y: Coordinate,
    pen: PenDirection,
}

impl View for DrawingTip {
    type V = TipView;

    closed spec fn view(&self) -> TipView {
        TipView { x: self.x@, y: self.y@, pen: self.pen }
    }
}

impl Clone for DrawingTip {
    fn clone(&self) -> (copy: Self)
        ensures
            copy@ == self@,
    {
        DrawingTip { x: self.x.clone(), y: self.y.clone(), pen: self.pen }
    }
}

impl DrawingTip {
    /// The head at the origin with the pen lifted.
    pub fn at_home() -> (tip: DrawingTip)
        ensures
            tip@ == home(),
    {
        DrawingTip { x: Coordinate::zero(), y: Coordinate::zero(), pen: PenDirection::UP }
    }

    /// The horizontal coordinate.
    pub fn x(&self) -> (x: &Coordinate)
        ensures
            x@ == self@.x,
    {
        &self.x
    }

    /// The vertical coordinate.
    pub fn y(&self) -> (y: &Coordinate)
        ensures
            y@ == self@.y,
    {
        &self.y
    }

    /// Whether the pen is down.
    pub fn pen(&self) -> (pen: PenDirection)
        ensures
            pen == self@.pen,
    {
        self.pen
    }
}

/// A segment that the pen has drawn.
#[derive(Debug, PartialEq, Eq)]
pub struct Segment {
    /// Where the segment starts.
    pub from: (Coordinate, Coordinate),
    /// Where the segment ends.
    pub to: (Coordinate, Coordinate),
}

impl View for Segment {
    type V = SegmentView;

    open spec fn view(&self) -> SegmentView {
        SegmentView { from: (self.from.0@, self.from.1@), to: (self.to.0@, self.to.1@) }
    }
}

impl Clone for Segment {
    fn clone(&self) -> (copy: Self)
        ensures
            copy@ == self@,
    {
        Segment {
            from: (self.from.0.clone(), self.from.1.clone()),
            to: (self.to.0.clone(), self.to.1.clone()),
        }
    }
}

/// The views of a vector of segments.
pub open spec fn segment_views(segments: Seq<Segment>) -> Seq<SegmentView> {
    Seq::new(segments.len(), |i: int| segments[i]@)
}

/// A playing session over a movement script.
pub struct Tracer {
    enable: bool,
    finished: bool,
    commands: Vec<String>,
    current: DrawingTip,
    previous: DrawingTip,
    lines: Vec<Segment>,
}

impl View for Tracer {
    type V = TracerView;

    closed spec fn view(&self) -> TracerView {
        TracerView {
            armed: self.enable,
            finished: self.finished || self.commands@.len() == 0,
            remaining: texts(self.commands@),
            current: self.current@,
            previous: self.previous@,
            segments: segment_views(self.lines@),
        }
    }
}

impl Tracer {
    /// Starts a session on the lines of a script: idle, at home, the pen
    /// lifted. A script without lines is finished at once.
    pub fn new(commands: Vec<String>) -> (tracer: Tracer)
        ensures
            tracer@ == initial(texts(commands@)),
    {
        let tracer = Tracer {
            enable: false,
            finished: commands.len() == 0,
            commands,
            current: DrawingTip::at_home(),
            previous: DrawingTip::at_home(),
            lines: Vec::new(),
        };
        assert(segment_views(tracer.lines@) =~= Seq::<SegmentView>::empty());
        tracer
    }

    /// Authorises one step. This is the only pacing control: it has to be
    /// called again before every step. A finished session is armed too, but
    /// takes no step.
    pub fn enable_execution(&mut self)
        ensures
            final(self)@ == enabled(old(self)@),
    {
        self.enable = true;
    }

    /// Whether the script has ended or run out.
    pub fn is_finished(&self) -> (finished: bool)
        ensures
            finished == self@.finished,
    {
        self.finished || self.commands.len() == 0
    }

    /// Whether a step is authorised. A finished session can be armed too; it
    /// takes no step all the same.
    pub fn is_armed(&self) -> (armed: bool)
        ensures
            armed == self@.armed,
    {
        self.enable
    }

    /// Where the session stands.
    pub fn phase(&self) -> (phase: Phase)
        ensures
            phase == phase_of(self@),
    {
        if self.is_finished() {
            Phase::Finished
        } else if self.enable {
            Phase::Armed
        } else {
            Phase::Idle
        }
    }

    /// The head now.
    pub fn current_tip(&self) -> (tip: &DrawingTip)
        ensures
            tip@ == self@.current,
    {
        &self.current
    }

    /// The head before the last command that was applied.
    pub fn previous_tip(&self) -> (tip: &DrawingTip)
        ensures
            tip@ == self@.previous,
    {
        &self.previous
    }

    /// What the pen has drawn so far.
    pub fn segments(&self) -> (segments: &Vec<Segment>)
        ensures
            segment_views(segments@) == self@.segments,
    {
        &self.lines
    }

    /// Ends the session and hands out what the pen has drawn.
    pub fn into_segments(self) -> (segments: Vec<Segment>)
        ensures
            segment_views(segments@) == self@.segments,
    {
        self.lines
    }

    /// How many lines were not consumed yet.
    pub fn remaining(&self) -> (count: usize)
        ensures
            count == self@.remaining.len(),
    {
        self.commands.len()
    }

    /// Takes the next line from the queue, if the session is armed and not
    /// finished. The line is not applied and the session stays armed.
    pub fn next_command(&mut self) -> (line: Option<String>)
        ensures
            line is Some <==> ready(old(self)@),
            line matches Some(text) ==> text@ == old(self)@.remaining[0],
            ready(old(self)@) ==> final(self)@ == dequeued(old(self)@),
            !ready(old(self)@) ==> final(self)@ == old(self)@,
    {
        if self.is_finished() || !self.enable {
            return None;
        }
        let ghost before = self.commands@;
        let command = self.commands.remove(0);
        if self.commands.len() == 0 {
            self.finished = true;
        }
        proof {
            assert(texts(self.commands@) =~= texts(before).drop_first());
            assert(texts(before)[0] == command@);
        }
        Some(command)
    }

    /// The next line of the queue, if the session is armed and not finished.
    pub fn get_next_command(&self) -> (line: Option<String>)
        ensures
            line is Some <==> ready(self@),
            line matches Some(text) ==> text@ == self@.remaining[0],
    {
        if self.is_finished() || !self.enable {
            return None;
        }
        proof {
            assert(texts(self.commands@)[0] == self.commands@[0]@);
        }
        Some(self.commands[0].clone())
    }

    /// Plays the script to its end, authorising and taking one step after
    /// the other until the session is finished: the session is where the
    /// first cycle that finished it has left it. A session that is finished
    /// already stays as it is.
    pub fn run_to_end(&mut self)
        ensures
            exists|n: nat|
                n <= old(self)@.remaining.len() && ends_after(old(self)@, n) && final(self)@
                    == #[trigger] played(old(self)@, n),
            final(self)@.finished,
    {
        let ghost start = self@;
        let ghost mut cycles: nat = 0;
        while !self.is_finished()
            invariant
                self@ == played(start, cycles),
                cycles + self@.remaining.len() <= start.remaining.len(),
                forall|m: nat| m < cycles ==> !(#[trigger] played(start, m)).finished,
            decreases self@.remaining.len(),
        {
            self.enable_execution();
            self.execute_next();
            proof {
                cycles = cycles + 1;
            }
        }
        proof {
            assert(ends_after(start, cycles));
        }
    }

    /// Takes one step. Nothing happens unless the session is armed and not
    /// finished. Otherwise the next line is consumed, the session is disarmed,
    /// and the command that the line spells is applied and returned; where
    /// the line spells none, the `Unknown` that is returned holds its text
    /// and the head stays as it is.
    pub fn execute_next(&mut self) -> (command: Option<Command>)
        ensures
            final(self)@ == advanced(old(self)@),
            command is Some <==> ready(old(self)@),
            command matches Some(c) ==> c@ == parse_line(old(self)@.remaining[0]),
    {
        let line = match self.next_command() {
            Some(line) => line,
            None => {
                return None;
            },
        };
        self.enable = false;
        let command = Command::parse(line.as_str());
        match &command {
            Command::Unknown(_) => {},
            Command::PenUp => {
                self.previous = self.current.clone();
                self.current.pen = PenDirection::UP;
            },
            Command::PenDown => {
                self.previous = self.current.clone();
                self.current.pen = PenDirection::DOWN;
            },
            Command::Reset => {
                self.previous = self.current.clone();
                self.current = DrawingTip::at_home();
            },
            Command::End => {
                self.previous = self.current.clone();
                self.finished = true;
            },
            Command::MoveTo(x, y) => {
                self.previous = self.current.clone();
                self.current.x = x.clone();
                self.current.y = y.clone();
                if self.current.pen == PenDirection::DOWN {
                    let segment = Segment {
                        from: (self.previous.x.clone(), self.previous.y.clone()),
                        to: (x.clone(), y.clone()),
                    };
                    proof {
                        assert(segment_views(self.lines@.push(segment)) =~= segment_views(
                            self.lines@,
                        ).push(segment@));
                    }
                    self.lines.push(segment);
                }
            },
        }
        Some(command)
    }
}

} // verus!
