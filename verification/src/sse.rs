//! Server-sent events: a stream of bytes is cut into frames without changing a byte.
//!
//! One bounded event is buffered, so that a caller can look at an event before any of its bytes
//! are passed on.
use crate::json::Json;
use crate::json::JsonView;
use vstd::prelude::*;

verus! {

/// An event that reaches this many bytes is passed on without being read.
pub const MAX_EVENT: usize = 4_194_304;

/// The byte that ends a line.
pub const NEWLINE: u8 = 10;

/// The byte that may stand before a newline.
pub const RETURN: u8 = 13;

/// The byte that may follow the name of a field.
pub const SPACE: u8 = 32;

/// Stands for the contents of a line that is not read.
pub const FILLER: u8 = 120;

/// The bytes of one event, and the JSON value of its data where it has one.
pub struct Frame {
    pub bytes: Vec<u8>,
    pub event: Option<Json>,
}

/// What a frame holds.
pub struct FrameView {
    pub bytes: Seq<u8>,
    pub event: Option<JsonView>,
}

impl View for Frame {
    type V = FrameView;

    open spec fn view(&self) -> FrameView {
        FrameView {
            bytes: self.bytes@,
            event: match self.event {
                Some(value) => Some(value@),
                None => None,
            },
        }
    }
}

/// What frames hold.
pub open spec fn frame_views(frames: Seq<Frame>) -> Seq<FrameView> {
    frames.map_values(|frame: Frame| frame@)
}

/// The bytes of frames, one frame after the other.
pub open spec fn frame_bytes(frames: Seq<FrameView>) -> Seq<u8>
    decreases frames.len(),
{
    if frames.len() == 0 {
        Seq::empty()
    } else {
        frame_bytes(frames.drop_last()) + frames.last().bytes
    }
}

/// Reads a stream of events piece by piece.
pub struct Parser {
    pending: Vec<u8>,
    line: Vec<u8>,
    data: Vec<u8>,
    discard: bool,
    pub overflowed: bool,
}

/// The state of a parser: the bytes of the event so far, the line so far, the data of the event
/// so far, whether the event is too long to be read, and whether any event was.
#[verifier::ext_equal]
pub struct ParserView {
    pub pending: Seq<u8>,
    pub line: Seq<u8>,
    pub data: Seq<u8>,
    pub discard: bool,
    pub overflowed: bool,
}

impl View for Parser {
    type V = ParserView;

    closed spec fn view(&self) -> ParserView {
        ParserView {
            pending: self.pending@,
            line: self.line@,
            data: self.data@,
            discard: self.discard,
            overflowed: self.overflowed,
        }
    }
}

/// The name that starts a line of data.
pub open spec fn data_prefix() -> Seq<u8> {
    seq![100u8, 97u8, 116u8, 97u8, 58u8]
}

/// A line without the carriage return at its end.
pub open spec fn without_return(line: Seq<u8>) -> Seq<u8> {
    if line.len() > 0 && line.last() == RETURN {
        line.drop_last()
    } else {
        line
    }
}

/// The value of a line of data: what follows `data:`, without one leading space.
pub open spec fn data_value(line: Seq<u8>) -> Option<Seq<u8>> {
    if data_prefix().is_prefix_of(line) {
        let value = line.skip(5);
        if value.len() > 0 && value[0] == SPACE {
            Some(value.drop_first())
        } else {
            Some(value)
        }
    } else {
        None
    }
}

/// The data of an event with one more line; lines of data are joined by newlines.
pub open spec fn with_value(data: Seq<u8>, value: Seq<u8>) -> Seq<u8> {
    if data.len() > 0 {
        data.push(NEWLINE) + value
    } else {
        data + value
    }
}

/// The state once a line has ended, and the frame that it ended where it was blank.
pub open spec fn after_line(state: ParserView) -> (ParserView, Seq<FrameView>) {
    let line = without_return(state.line);
    if line.len() == 0 {
        (
            ParserView {
                pending: Seq::empty(),
                line: Seq::empty(),
                data: Seq::empty(),
                discard: false,
                overflowed: state.overflowed,
            },
            seq![
                FrameView {
                    bytes: state.pending,
                    event: if state.discard {
                        None
                    } else {
                        crate::json::json_value(state.data)
                    },
                },
            ],
        )
    } else {
        (
            ParserView {
                line: Seq::empty(),
                data: match data_value(line) {
                    Some(value) if !state.discard => with_value(state.data, value),
                    _ => state.data,
                },
                ..state
            },
            Seq::empty(),
        )
    }
}

/// The state with one more byte of a line.
pub open spec fn in_line(state: ParserView, byte: u8) -> ParserView {
    if !state.discard {
        ParserView { line: state.line.push(byte), ..state }
    } else if state.line.len() == 0 && byte != RETURN {
        ParserView { line: seq![FILLER], ..state }
    } else {
        state
    }
}

/// The state once an event has grown too long: its bytes are passed on, the rest is not read.
pub open spec fn after_overflow(state: ParserView) -> (ParserView, Seq<FrameView>) {
    if state.pending.len() >= MAX_EVENT {
        (
            ParserView {
                pending: Seq::empty(),
                line: if state.line.len() > 0 {
                    seq![FILLER]
                } else {
                    Seq::empty()
                },
                data: Seq::empty(),
                discard: true,
                overflowed: true,
            },
            seq![FrameView { bytes: state.pending, event: None }],
        )
    } else {
        (state, Seq::empty())
    }
}

/// What one byte does: the next state, and the frames that it completes.
pub open spec fn step(state: ParserView, byte: u8) -> (ParserView, Seq<FrameView>) {
    let taken = ParserView { pending: state.pending.push(byte), ..state };
    let (read, ended) = if byte == NEWLINE {
        after_line(taken)
    } else {
        (in_line(taken, byte), Seq::empty())
    };
    let (next, passed) = after_overflow(read);
    (next, ended + passed)
}

/// What a piece of the stream does.
pub open spec fn run(state: ParserView, bytes: Seq<u8>) -> (ParserView, Seq<FrameView>)
    decreases bytes.len(),
{
    if bytes.len() == 0 {
        (state, Seq::empty())
    } else {
        let (before, frames) = run(state, bytes.drop_last());
        let (after, more) = step(before, bytes.last());
        (after, frames + more)
    }
}

/// The state between two events.
pub open spec fn at_rest(overflowed: bool) -> ParserView {
    ParserView {
        pending: Seq::empty(),
        line: Seq::empty(),
        data: Seq::empty(),
        discard: false,
        overflowed,
    }
}

impl ParserView {
    /// What is buffered is bounded: by the limit of an event, and by the bytes of the event. It
    /// holds of a new parser, and no byte of the stream breaks it.
    pub open spec fn wf(self) -> bool {
        &&& self.pending.len() < MAX_EVENT
        &&& self.line.len() + self.data.len() <= self.pending.len() + 1
    }
}

impl Default for Parser {
    fn default() -> (parser: Parser)
        ensures
            parser@ == at_rest(false),
            parser@.wf(),
    {
        Parser {
            pending: Vec::new(),
            line: Vec::new(),
            data: Vec::new(),
            discard: false,
            overflowed: false,
        }
    }
}

fn starts_data(line: &Vec<u8>) -> (yes: bool)
    ensures
        yes == data_prefix().is_prefix_of(line@),
{
    let yes = line.len() >= 5 && line[0] == 100 && line[1] == 97 && line[2] == 116 && line[3] == 97
        && line[4] == 58;
    proof {
        if yes {
            assert(line@.subrange(0, 5) =~= data_prefix());
        } else if data_prefix().is_prefix_of(line@) {
            let head = line@.subrange(0, 5);
            assert(head[0] == 100u8 && head[1] == 97u8 && head[2] == 116u8 && head[3] == 97u8
                && head[4] == 58u8);
        }
    }
    yes
}

impl Parser {
    /// Adds the value of the line, where it is a line of data, to the data of the event.
    fn add_data(&mut self)
        ensures
            final(self)@ == (ParserView {
                data: match data_value(old(self)@.line) {
                    Some(value) => with_value(old(self)@.data, value),
                    None => old(self)@.data,
                },
                ..old(self)@
            }),
    {
        if starts_data(&self.line) {
            if self.data.len() > 0 {
                self.data.push(NEWLINE);
            }
            let start: usize = if self.line.len() > 5 && self.line[5] == SPACE {
                6
            } else {
                5
            };
            let ghost before = self.data@;
            let mut i: usize = start;
            while i < self.line.len()
                invariant
                    start <= i <= self.line@.len(),
                    self.line@ == old(self)@.line,
                    self.pending@ == old(self)@.pending,
                    self.discard == old(self)@.discard,
                    self.overflowed == old(self)@.overflowed,
                    self.data@ == before + self.line@.subrange(start as int, i as int),
                decreases self.line@.len() - i,
            {
                let byte: u8 = self.line[i];
                self.data.push(byte);
                assert(self.line@.subrange(start as int, i + 1) =~= self.line@.subrange(
                    start as int,
                    i as int,
                ).push(byte));
                i = i + 1;
            }
            assert(data_value(self.line@) == Some(
                self.line@.subrange(start as int, self.line@.len() as int),
            )) by {
                let value = self.line@.skip(5);
                if start == 6 {
                    assert(value[0] == SPACE);
                    assert(value.drop_first() =~= self.line@.subrange(6, self.line@.len() as int));
                } else {
                    assert(value.len() > 0 ==> value[0] == self.line@[5]);
                    assert(value =~= self.line@.subrange(5, self.line@.len() as int));
                }
            }
        }
        assert(self@ =~= ParserView {
            data: match data_value(old(self)@.line) {
                Some(value) => with_value(old(self)@.data, value),
                None => old(self)@.data,
            },
            ..old(self)@
        });
    }

    /// Takes one byte of the stream.
    fn take(&mut self, byte: u8, frames: &mut Vec<Frame>)
        ensures
            final(self)@ == step(old(self)@, byte).0,
            frame_views(final(frames)@) == frame_views(old(frames)@) + step(old(self)@, byte).1,
    {
        let ghost start = self@;
        let ghost taken = ParserView { pending: start.pending.push(byte), ..start };
        let ghost ended: Seq<FrameView> = if byte == NEWLINE {
            after_line(taken).1
        } else {
            Seq::empty()
        };
        self.pending.push(byte);
        if byte == NEWLINE {
            if self.line.len() > 0 && self.line[self.line.len() - 1] == RETURN {
                self.line.pop();
            }
            assert(self.line@ =~= without_return(taken.line));
            if self.line.len() == 0 {
                let event = if self.discard {
                    None
                } else {
                    Json::parse(self.data.as_slice())
                };
                let bytes = self.finish();
                let frame = Frame { bytes, event };
                assert(seq![frame@] =~= after_line(taken).1);
                frames.push(frame);
                assert(frame_views(frames@) =~= frame_views(old(frames)@) + ended);
                self.data.clear();
                self.discard = false;
            } else if !self.discard {
                self.add_data();
            }
            self.line.clear();
            assert(self@ =~= after_line(taken).0);
        } else if !self.discard {
            self.line.push(byte);
        } else if self.line.len() == 0 && byte != RETURN {
            self.line.push(FILLER);
            assert(self.line@ =~= seq![FILLER]);
        }
        assert(frame_views(frames@) =~= frame_views(old(frames)@) + ended);
        let ghost read = self@;
        if self.pending.len() >= MAX_EVENT {
            self.discard = true;
            self.overflowed = true;
            if self.line.len() > 0 {
                self.line.clear();
                self.line.push(FILLER);
                assert(self.line@ =~= seq![FILLER]);
            }
            self.data.clear();
            let bytes = self.finish();
            let frame = Frame { bytes, event: None };
            assert(seq![frame@] =~= after_overflow(read).1);
            let ghost earlier = frame_views(frames@);
            frames.push(frame);
            assert(frame_views(frames@) =~= earlier + after_overflow(read).1);
            assert(self@ =~= after_overflow(read).0);
        }
        assert(frame_views(frames@) =~= frame_views(old(frames)@) + step(start, byte).1);
    }

    /// Takes the next piece of the stream and gives the frames that it completes.
    pub fn feed(&mut self, bytes: &[u8]) -> (frames: Vec<Frame>)
        ensures
            old(self)@.wf() ==> final(self)@.wf(),
            old(self)@.pending.len() < MAX_EVENT || bytes@.len() > 0 ==> final(self)@.pending.len()
                < MAX_EVENT,
            final(self)@ == run(old(self)@, bytes@).0,
            frame_views(frames@) == run(old(self)@, bytes@).1,
    {
        let mut frames: Vec<Frame> = Vec::new();
        let mut i: usize = 0;
        assert(frame_views(frames@) =~= Seq::<FrameView>::empty());
        while i < bytes.len()
            invariant
                i <= bytes@.len(),
                old(self)@.wf() ==> self@.wf(),
                old(self)@.pending.len() < MAX_EVENT || i > 0 ==> self@.pending.len() < MAX_EVENT,
                self@ == run(old(self)@, bytes@.take(i as int)).0,
                frame_views(frames@) == run(old(self)@, bytes@.take(i as int)).1,
            decreases bytes@.len() - i,
        {
            proof {
                if self@.wf() {
                    step_stays_bounded(self@, bytes@[i as int]);
                }
                pending_stays_bounded(self@, bytes@[i as int]);
                assert(bytes@.take(i + 1).drop_last() =~= bytes@.take(i as int));
            }
            self.take(bytes[i], &mut frames);
            i = i + 1;
        }
        assert(bytes@.take(bytes@.len() as int) =~= bytes@);
        frames
    }

    /// Takes out the bytes of an event that has not ended.
    pub fn finish(&mut self) -> (bytes: Vec<u8>)
        ensures
            bytes@ == old(self)@.pending,
            final(self)@ == (ParserView { pending: Seq::empty(), ..old(self)@ }),
            final(self)@.pending.len() < MAX_EVENT,
    {
        let mut bytes: Vec<u8> = Vec::new();
        std::mem::swap(&mut bytes, &mut self.pending);
        assert(self@ =~= ParserView { pending: Seq::empty(), ..old(self)@ });
        bytes
    }
}

/// No byte makes a parser buffer more than the limit.
pub proof fn step_stays_bounded(state: ParserView, byte: u8)
    requires
        state.wf(),
    ensures
        step(state, byte).0.wf(),
{
}

/// Whatever the state of a parser is, after one more byte it holds back less than the limit: also
/// where what it held was taken out in the middle of an event.
pub proof fn pending_stays_bounded(state: ParserView, byte: u8)
    ensures
        step(state, byte).0.pending.len() < MAX_EVENT,
{
}

/// However a stream is cut into pieces, the frames and the state are the same.
pub proof fn pieces_do_not_matter(state: ParserView, first: Seq<u8>, second: Seq<u8>)
    ensures
        run(state, first + second).0 == run(run(state, first).0, second).0,
        run(state, first + second).1 == run(state, first).1 + run(
            run(state, first).0,
            second,
        ).1,
    decreases second.len(),
{
    if second.len() == 0 {
        assert(first + second =~= first);
        assert(run(state, first).1 + Seq::<FrameView>::empty() =~= run(state, first).1);
    } else {
        pieces_do_not_matter(state, first, second.drop_last());
        assert((first + second).drop_last() =~= first + second.drop_last());
        let (middle, frames) = run(run(state, first).0, second.drop_last());
        let more = step(middle, second.last()).1;
        assert((run(state, first).1 + frames) + more =~= run(state, first).1 + (frames + more));
    }
}

proof fn lemma_frame_bytes_add(a: Seq<FrameView>, b: Seq<FrameView>)
    ensures
        frame_bytes(a + b) == frame_bytes(a) + frame_bytes(b),
    decreases b.len(),
{
    if b.len() == 0 {
        assert(a + b =~= a);
        assert(frame_bytes(a) + Seq::<u8>::empty() =~= frame_bytes(a));
    } else {
        lemma_frame_bytes_add(a, b.drop_last());
        assert((a + b).drop_last() =~= a + b.drop_last());
        assert((frame_bytes(a) + frame_bytes(b.drop_last())) + b.last().bytes =~= frame_bytes(a) + (
        frame_bytes(b.drop_last()) + b.last().bytes));
    }
}

proof fn lemma_step_keeps_bytes(state: ParserView, byte: u8)
    ensures
        frame_bytes(step(state, byte).1) + step(state, byte).0.pending == state.pending.push(byte),
{
    let taken = ParserView { pending: state.pending.push(byte), ..state };
    let (read, ended) = if byte == NEWLINE {
        after_line(taken)
    } else {
        (in_line(taken, byte), Seq::empty())
    };
    let passed = after_overflow(read).1;
    lemma_frame_bytes_add(ended, passed);
    reveal_with_fuel(frame_bytes, 2);
    assert(ended.len() > 0 ==> ended.drop_last() =~= Seq::<FrameView>::empty());
    assert(passed.len() > 0 ==> passed.drop_last() =~= Seq::<FrameView>::empty());
    assert(frame_bytes(step(state, byte).1) + step(state, byte).0.pending =~= state.pending.push(
        byte,
    ));
}

/// The bytes of the frames, followed by what is still pending, are the bytes of the stream: none
/// is changed, lost or added.
pub proof fn bytes_are_kept(state: ParserView, bytes: Seq<u8>)
    ensures
        frame_bytes(run(state, bytes).1) + run(state, bytes).0.pending == state.pending + bytes,
    decreases bytes.len(),
{
    if bytes.len() == 0 {
        assert(frame_bytes(run(state, bytes).1) + state.pending =~= state.pending + bytes);
    } else {
        let (before, frames) = run(state, bytes.drop_last());
        let (after, more) = step(before, bytes.last());
        bytes_are_kept(state, bytes.drop_last());
        lemma_step_keeps_bytes(before, bytes.last());
        lemma_frame_bytes_add(frames, more);
        assert(frame_bytes(frames + more) + after.pending =~= frame_bytes(frames) + (frame_bytes(
            more,
        ) + after.pending));
        assert(frame_bytes(frames) + before.pending.push(bytes.last()) =~= (frame_bytes(frames)
            + before.pending).push(bytes.last()));
        assert((state.pending + bytes.drop_last()).push(bytes.last()) =~= state.pending + bytes);
    }
}

/// A blank line ends an event, also one that was too long: the next event starts afresh.
pub proof fn blank_line_ends_event(state: ParserView)
    requires
        without_return(state.line).len() == 0,
    ensures
        step(state, NEWLINE).0 == at_rest(state.overflowed),
        step(state, NEWLINE).1.len() == 1,
        step(state, NEWLINE).1[0].bytes == state.pending.push(NEWLINE),
{
    assert(step(state, NEWLINE).0 =~= at_rest(state.overflowed));
}

proof fn lemma_line(state: ParserView, bytes: Seq<u8>)
    requires
        !state.discard,
        state.pending.len() + bytes.len() < MAX_EVENT,
        !bytes.contains(NEWLINE),
    ensures
        run(state, bytes).0 == (ParserView {
            pending: state.pending + bytes,
            line: state.line + bytes,
            ..state
        }),
        run(state, bytes).1 == Seq::<FrameView>::empty(),
    decreases bytes.len(),
{
    if bytes.len() == 0 {
        assert(state.pending + bytes =~= state.pending);
        assert(state.line + bytes =~= state.line);
    } else {
        let rest = bytes.drop_last();
        assert(!rest.contains(NEWLINE)) by {
            if rest.contains(NEWLINE) {
                let i = choose|i: int| 0 <= i < rest.len() && rest[i] == NEWLINE;
                assert(bytes[i] == NEWLINE);
            }
        }
        lemma_line(state, rest);
        assert(bytes.last() != NEWLINE) by {
            assert(bytes[bytes.len() - 1] == bytes.last());
        }
        assert((state.pending + rest).push(bytes.last()) =~= state.pending + bytes);
        assert((state.line + rest).push(bytes.last()) =~= state.line + bytes);
        assert(run(state, bytes).1 =~= Seq::<FrameView>::empty());
    }
}

/// The bytes of an event with one line of data.
pub open spec fn one_line_event(payload: Seq<u8>) -> Seq<u8> {
    data_prefix().push(SPACE) + payload + seq![NEWLINE, NEWLINE]
}

/// An event with one line of data is one frame: its bytes as they came, its event the JSON value
/// of the data.
pub proof fn event_is_read(payload: Seq<u8>, overflowed: bool)
    requires
        !payload.contains(NEWLINE),
        payload.len() == 0 || payload.last() != RETURN,
        one_line_event(payload).len() < MAX_EVENT,
    ensures
        run(at_rest(overflowed), one_line_event(payload)).0 == at_rest(overflowed),
        run(at_rest(overflowed), one_line_event(payload)).1 == seq![
            FrameView {
                bytes: one_line_event(payload),
                event: crate::json::json_value(payload),
            },
        ],
{
    let rest = at_rest(overflowed);
    let line = data_prefix().push(SPACE) + payload;
    let text = one_line_event(payload);
    assert(text.drop_last() =~= line.push(NEWLINE));
    assert(text.drop_last().drop_last() =~= line);
    assert(!line.contains(NEWLINE)) by {
        if line.contains(NEWLINE) {
            let i = choose|i: int| 0 <= i < line.len() && line[i] == NEWLINE;
            if i >= 6 {
                assert(payload[i - 6] == NEWLINE);
            }
        }
    }
    lemma_line(rest, line);
    let read = run(rest, line).0;
    assert(read.line =~= line);
    assert(read.pending =~= line);
    assert(without_return(line) == line) by {
        if payload.len() == 0 {
            assert(line.last() == SPACE);
        } else {
            assert(line.last() == payload.last());
        }
    }
    assert(line.subrange(0, 5) =~= data_prefix());
    let value = line.skip(5);
    assert(value[0] == SPACE);
    assert(value.drop_first() =~= payload);
    assert(read.data + payload =~= payload);
    let ended = step(read, NEWLINE).0;
    assert(run(rest, text.drop_last()).0 == ended);
    assert(run(rest, text.drop_last()).1 =~= Seq::<FrameView>::empty());
    assert(ended.line =~= Seq::<u8>::empty());
    blank_line_ends_event(ended);
    assert(ended.pending.push(NEWLINE) =~= text);
    assert(run(rest, text).1 =~= step(ended, NEWLINE).1);
    assert(run(rest, text).1 =~= seq![
        FrameView { bytes: text, event: crate::json::json_value(payload) },
    ]);
}

/// A line of data is `data:` and its value; one space between them does not count.
pub proof fn data_follows_its_name(line: Seq<u8>, value: Seq<u8>)
    ensures
        ({
            let name = seq!['d' as u8, 'a' as u8, 't' as u8, 'a' as u8, ':' as u8];
            &&& line == name + seq![' ' as u8] + value ==> data_value(line) == Some(value)
            &&& line == name + value && (value.len() == 0 || value[0] != ' ' as u8) ==> data_value(
                line,
            ) == Some(value)
            &&& data_value(line) is Some <==> name.is_prefix_of(line)
        }),
{
    let name = seq!['d' as u8, 'a' as u8, 't' as u8, 'a' as u8, ':' as u8];
    assert(name =~= data_prefix());
    if line == name + seq![' ' as u8] + value {
        assert(line.subrange(0, 5) =~= name);
        assert(line.skip(5) =~= seq![' ' as u8] + value);
        assert(line.skip(5).drop_first() =~= value);
    }
    if line == name + value {
        assert(line.subrange(0, 5) =~= name);
        assert(line.skip(5) =~= value);
    }
}

/// The data of an event is the values of its lines, with line feeds between them.
pub proof fn lines_of_data_are_joined(data: Seq<u8>, value: Seq<u8>)
    ensures
        data.len() == 0 ==> with_value(data, value) == value,
        data.len() > 0 ==> with_value(data, value) == data + seq![10u8] + value,
        MAX_EVENT == 4 * 1024 * 1024,
{
    assert(data.push(NEWLINE) =~= data + seq![10u8]);
}

/// An event of more than 4 MiB is handed on without being read, and the rest of it too; the parser
/// remembers that this happened.
pub proof fn large_events_are_handed_on(state: ParserView)
    requires
        state.pending.len() >= 4 * 1024 * 1024,
    ensures
        after_overflow(state).1.len() == 1,
        after_overflow(state).1[0].bytes == state.pending,
        after_overflow(state).1[0].event is None,
        after_overflow(state).0.overflowed,
        after_overflow(state).0.discard,
        after_overflow(state).0.pending.len() == 0,
        after_overflow(state).0.data.len() == 0,
{
}

/// An event that was not handed on in part is read from its data, and one that was is not read.
pub proof fn blank_lines_read_the_data(state: ParserView)
    requires
        state.line.len() == 0 || state.line == seq![13u8],
        state.pending.len() < 4 * 1024 * 1024,
    ensures
        step(state, 10).1.len() == 1,
        !state.discard ==> step(state, 10).1[0].event == crate::json::json_value(state.data),
        state.discard ==> step(state, 10).1[0].event is None,
        step(state, 10).0.pending.len() == 0 && step(state, 10).0.data.len() == 0,
        !step(state, 10).0.discard,
{
    if state.line == seq![13u8] {
        assert(without_return(state.line) =~= Seq::empty());
    }
}

/// While the rest of an event is handed on, only whether a line is blank is kept of it; else a line
/// is kept as it comes.
pub proof fn rest_of_a_large_event_is_looked_past(state: ParserView, byte: u8)
    requires
        byte != 10,
    ensures
        ({
            let next = in_line(state, byte);
            &&& !state.discard ==> next.line == state.line.push(byte)
            &&& state.discard && state.line.len() == 0 && byte == 13 ==> next.line.len() == 0
            &&& state.discard && state.line.len() == 0 && byte != 13 ==> next.line.len() > 0
                && without_return(next.line).len() > 0
            &&& state.discard && state.line.len() > 0 ==> next.line == state.line
            &&& next.data == state.data && next.discard == state.discard && next.overflowed
                == state.overflowed
        }),
{
}

/// Where an event is handed on in the middle of a line, the rest of the line is not taken for a blank
/// one; at the start of a line it may be.
pub proof fn large_events_end_with_a_blank_line(state: ParserView)
    requires
        state.pending.len() >= 4 * 1024 * 1024,
    ensures
        state.line.len() > 0 ==> without_return(after_overflow(state).0.line).len() > 0,
        state.line.len() == 0 ==> after_overflow(state).0.line.len() == 0,
{
}

/// The bytes that part the lines of a stream.
pub proof fn streams_are_parted_by_these_bytes()
    ensures
        NEWLINE == 10,
        RETURN == 13,
        SPACE == ' ' as u8,
{
}

} // verus!
