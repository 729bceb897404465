//! The line splitter: bytes in, lines out.
//!
//! A line ends with a carriage return, a line feed, or a carriage return
//! followed by a line feed. A carriage return that is the last byte at hand
//! ends nothing yet, because the next byte may still be a line feed.

use vstd::prelude::*;
use bytes::{Bytes, BytesMut};
use std::collections::VecDeque;
use crate::buffer::{buffered, buffered_slice, frozen, put_u8};
use crate::frame::{Frame, Polled};

verus! {

/// Carriage return.
pub const CR: u8 = 13;

/// Line feed.
pub const LF: u8 = 10;

/// The byte appended at the end of input. It ends no line; it only follows
/// a last carriage return so that the return can be told from half of a pair.
pub const SENTINEL: u8 = 0;

/// Whether a line ends at index `i` of `buf`, on the bytes at hand.
pub open spec fn breaks_at(buf: Seq<u8>, i: int) -> bool {
    0 <= i < buf.len() && (buf[i] == LF || (buf[i] == CR && i + 1 < buf.len()))
}

/// The first index from `from` on at which a line ends, or the length of
/// `buf` if there is none.
pub open spec fn scan(buf: Seq<u8>, from: int) -> int
    decreases buf.len() - from,
{
    if from < 0 || from >= buf.len() {
        buf.len() as int
    } else if breaks_at(buf, from) {
        from
    } else {
        scan(buf, from + 1)
    }
}

/// The number of bytes of the line ending at index `i`: two for a carriage
/// return and a line feed, else one.
pub open spec fn break_len(buf: Seq<u8>, i: int) -> int {
    if buf[i] == CR && i + 1 < buf.len() && buf[i + 1] == LF {
        2
    } else {
        1
    }
}

/// The first line of `buf`, without its ending, and what follows the
/// ending; `None` if no line ends in `buf`.
pub open spec fn cut(buf: Seq<u8>) -> Option<(Seq<u8>, Seq<u8>)> {
    let i = scan(buf, 0);
    if 0 <= i < buf.len() {
        Some((buf.subrange(0, i), buf.subrange(i + break_len(buf, i), buf.len() as int)))
    } else {
        None
    }
}

/// All the lines that end in `buf`, in order, and the bytes after the last
/// ending.
pub open spec fn split_all(buf: Seq<u8>) -> (Seq<Seq<u8>>, Seq<u8>)
    decreases buf.len(),
    via split_all_decreases
{
    match cut(buf) {
        Some((line, rest)) => {
            let (lines, tail) = split_all(rest);
            (seq![line] + lines, tail)
        },
        None => (Seq::empty(), buf),
    }
}

#[via_fn]
proof fn split_all_decreases(buf: Seq<u8>) {
    lemma_scan(buf, 0);
}

/// `scan` stays within the buffer, stops at a line ending, and passes none.
pub proof fn lemma_scan(buf: Seq<u8>, from: int)
    requires
        0 <= from <= buf.len(),
    ensures
        from <= scan(buf, from) <= buf.len(),
        scan(buf, from) < buf.len() ==> breaks_at(buf, scan(buf, from)),
        forall|j: int| from <= j < scan(buf, from) ==> !breaks_at(buf, j),
    decreases buf.len() - from,
{
    if from < buf.len() && !breaks_at(buf, from) {
        lemma_scan(buf, from + 1);
    }
}

/// An index that ends a line, with none ending before it, is where `scan`
/// stops.
pub proof fn lemma_scan_is(buf: Seq<u8>, from: int, i: int)
    requires
        0 <= from <= i <= buf.len(),
        i < buf.len() ==> breaks_at(buf, i),
        forall|j: int| from <= j < i ==> !breaks_at(buf, j),
    ensures
        scan(buf, from) == i,
    decreases i - from,
{
    if from < i {
        lemma_scan_is(buf, from + 1, i);
    }
}

/// What is cut from a buffer is cut from it the same way once more bytes
/// have come behind.
pub proof fn lemma_cut_append(a: Seq<u8>, b: Seq<u8>)
    requires
        cut(a) is Some,
    ensures
        cut(a + b) == Some((cut(a).unwrap().0, cut(a).unwrap().1 + b)),
{
    let i = scan(a, 0);
    let ab = a + b;
    lemma_scan(a, 0);
    assert forall|j: int| 0 <= j < i implies !breaks_at(ab, j) by {
        assert(!breaks_at(a, j));
        assert(ab[j] == a[j]);
    }
    assert(ab[i] == a[i]);
    if a[i] == CR {
        assert(ab[i + 1] == a[i + 1]);
    }
    lemma_scan_is(ab, 0, i);
    let k = break_len(a, i);
    assert(ab.subrange(0, i) =~= a.subrange(0, i));
    assert(ab.subrange(i + k, ab.len() as int) =~= a.subrange(i + k, a.len() as int) + b);
}

/// Splitting is incremental: the lines of `a + b` are the lines of `a`
/// followed by the lines of what `a` left over with `b` behind it.
pub proof fn lemma_split_all_append(a: Seq<u8>, b: Seq<u8>)
    ensures
        split_all(a + b).0 == split_all(a).0 + split_all(split_all(a).1 + b).0,
        split_all(a + b).1 == split_all(split_all(a).1 + b).1,
    decreases a.len(),
{
    match cut(a) {
        Some((line, rest)) => {
            lemma_scan(a, 0);
            lemma_cut_append(a, b);
            lemma_split_all_append(rest, b);
            assert(seq![line] + (split_all(rest).0 + split_all(split_all(rest).1 + b).0) =~= (seq![
                line,
            ] + split_all(rest).0) + split_all(split_all(rest).1 + b).0);
        },
        None => {
            assert(Seq::<Seq<u8>>::empty() + split_all(a + b).0 =~= split_all(a + b).0);
        },
    }
}

/// Whether `ending` is one of the three line endings.
pub open spec fn is_ending(ending: Seq<u8>) -> bool {
    ending == seq![CR] || ending == seq![LF] || ending == seq![CR, LF]
}

/// Whether `line` holds no byte of a line ending.
pub open spec fn is_plain(line: Seq<u8>) -> bool {
    forall|i: int| 0 <= i < line.len() ==> line[i] != CR && line[i] != LF
}

/// Cutting loses nothing: the buffer was the line, one line ending, and
/// the rest, in that order, and the line holds no byte of a line ending.
pub proof fn law_cut_loses_nothing(buf: Seq<u8>)
    requires
        cut(buf) is Some,
    ensures
        is_plain(cut(buf).unwrap().0),
        exists|ending: Seq<u8>|
            is_ending(ending) && buf == cut(buf).unwrap().0 + ending + cut(buf).unwrap().1,
{
    let at = scan(buf, 0);
    lemma_scan(buf, 0);
    let (line, rest) = cut(buf).unwrap();
    assert forall|i: int| 0 <= i < line.len() implies line[i] != CR && line[i] != LF by {
        assert(!breaks_at(buf, i));
        assert(line[i] == buf[i]);
    }
    let ending = buf.subrange(at, at + break_len(buf, at));
    assert(breaks_at(buf, at));
    if break_len(buf, at) == 2 {
        assert(ending =~= seq![CR, LF]);
    } else if buf[at] == CR {
        assert(ending =~= seq![CR]);
    } else {
        assert(ending =~= seq![LF]);
    }
    assert(is_ending(ending));
    assert(buf =~= line + ending + rest);
}

/// What `split_all` leaves over holds no complete line.
pub proof fn lemma_rest_uncut(buf: Seq<u8>)
    ensures
        cut(split_all(buf).1) is None,
    decreases buf.len(),
{
    match cut(buf) {
        Some((line, rest)) => {
            lemma_scan(buf, 0);
            lemma_rest_uncut(rest);
        },
        None => {},
    }
}

/// Cuts the first line off the front of `data`, if a line ends in it.
pub fn split(data: &mut BytesMut) -> (line: Option<Bytes>)
    ensures
        match cut(buffered(*old(data))) {
            Some((head, tail)) => line matches Some(bytes) && frozen(bytes) == head && buffered(
                *final(data),
            ) == tail,
            None => line is None && buffered(*final(data)) == buffered(*old(data)),
        },
{
    let bytes = buffered_slice(data);
    let len: usize = bytes.len();
    let mut left: usize = 0;
    while left < len && !(bytes[left] == LF || (bytes[left] == CR && left + 1 < len))
        invariant
            left <= len == bytes@.len(),
            forall|j: int| 0 <= j < left ==> !breaks_at(bytes@, j),
        decreases len - left,
    {
        left += 1;
    }
    proof {
        lemma_scan_is(bytes@, 0, left as int);
    }
    if left == len {
        return None;
    }
    let right: usize = if bytes[left] == CR && bytes[left + 1] == LF {
        left + 2
    } else {
        left + 1
    };
    let mut line = data.split_to(right).freeze();
    line.truncate(left);
    assert(frozen(line) =~= buffered(*old(data)).subrange(0, left as int));
    Some(line)
}

/// A line as the splitter hands it on: each data frame by the bytes it
/// holds.
pub open spec fn line_view<F>(frame: Frame<Bytes, F>) -> Frame<Seq<u8>, F> {
    match frame {
        Frame::Data(bytes) => Frame::Data(frozen(bytes)),
        Frame::Other(other) => Frame::Other(other),
    }
}

/// An answer of the splitter, each line by the bytes it holds.
pub open spec fn polled_view<F, E>(polled: Polled<Frame<Bytes, F>, E>) -> Polled<
    Frame<Seq<u8>, F>,
    E,
> {
    match polled {
        Polled::Item(frame) => Polled::Item(line_view(frame)),
        Polled::Failed(error) => Polled::Failed(error),
        Polled::End => Polled::End,
        Polled::Pull => Polled::Pull,
    }
}

/// Lines as data frames.
pub open spec fn data_frames<F>(lines: Seq<Seq<u8>>) -> Seq<Frame<Seq<u8>, F>> {
    lines.map_values(|line: Seq<u8>| Frame::<Seq<u8>, F>::Data(line))
}

/// The state of a line splitter.
pub struct LinesView<F, E> {
    /// The input that no line ending has resolved yet.
    pub buffer: Seq<u8>,
    /// The frames that wait to be pulled, oldest first.
    pub queue: Seq<Frame<Seq<u8>, F>>,
    /// Whether the source may still give more.
    pub open: bool,
    /// The error of the source, until it has been handed on.
    pub failure: Option<E>,
}

impl<F, E> LinesView<F, E> {
    /// A splitter that has seen nothing.
    pub open spec fn new() -> Self {
        LinesView { buffer: Seq::empty(), queue: Seq::empty(), open: true, failure: None }
    }

    /// The source gave a chunk of bytes: every line that now ends joins the
    /// queue.
    pub open spec fn feed(self, chunk: Seq<u8>) -> Self {
        if self.open {
            let (lines, rest) = split_all(self.buffer + chunk);
            LinesView { buffer: rest, queue: self.queue + data_frames(lines), ..self }
        } else {
            self
        }
    }

    /// The source gave a frame without data: it joins the queue as it is.
    pub open spec fn pass(self, other: F) -> Self {
        if self.open {
            LinesView { queue: self.queue.push(Frame::Other(other)), ..self }
        } else {
            self
        }
    }

    /// The source failed: what is buffered is dropped, and the error is
    /// all that is left to hand on.
    pub open spec fn fail(self, error: E) -> Self {
        if self.open {
            LinesView {
                buffer: Seq::empty(),
                queue: Seq::empty(),
                open: false,
                failure: Some(error),
            }
        } else {
            self
        }
    }

    /// The source is exhausted: with the sentinel behind it the buffer is
    /// cut once more, which resolves a last carriage return. Bytes that no
    /// line ending follows are dropped.
    pub open spec fn finish(self) -> Self {
        if self.open {
            LinesView {
                buffer: Seq::empty(),
                queue: match cut(self.buffer.push(SENTINEL)) {
                    Some((line, _)) => self.queue.push(Frame::Data(line)),
                    None => self.queue,
                },
                open: false,
                ..self
            }
        } else {
            self
        }
    }

    /// Whether the buffer holds no complete line.
    pub open spec fn tidy(self) -> bool {
        cut(self.buffer) is None
    }

    /// One pull: the oldest frame of the queue; with an empty queue a
    /// request for more input while the source is open, else the source's
    /// error once, else the end.
    pub open spec fn poll(self) -> (Self, Polled<Frame<Seq<u8>, F>, E>) {
        if self.queue.len() > 0 {
            (LinesView { queue: self.queue.drop_first(), ..self }, Polled::Item(self.queue[0]))
        } else if self.open {
            (self, Polled::Pull)
        } else {
            match self.failure {
                Some(error) => (LinesView { failure: None, ..self }, Polled::Failed(error)),
                None => (self, Polled::End),
            }
        }
    }
}

/// The buffer never holds a complete line: a new splitter's does not, and
/// whatever the source gives and however often the splitter is pulled, it
/// does not afterwards.
pub proof fn law_buffer_holds_no_line<F, E>(
    lines: LinesView<F, E>,
    chunk: Seq<u8>,
    other: F,
    error: E,
)
    ensures
        LinesView::<F, E>::new().tidy(),
        lines.open ==> lines.feed(chunk).tidy(),
        lines.tidy() ==> lines.feed(chunk).tidy() && lines.pass(other).tidy() && lines.fail(
            error,
        ).tidy() && lines.finish().tidy() && lines.poll().0.tidy(),
{
    lemma_rest_uncut(lines.buffer + chunk);
    lemma_scan(Seq::<u8>::empty(), 0);
}

/// The line splitter. `F` is what a frame without data carries, `E` the
/// error of the source; both pass through.
pub struct Lines<F, E> {
    data: BytesMut,
    lines: VecDeque<Frame<Bytes, F>>,
    open: bool,
    failure: Option<E>,
}

impl<F, E> View for Lines<F, E> {
    type V = LinesView<F, E>;

    closed spec fn view(&self) -> LinesView<F, E> {
        LinesView {
            buffer: buffered(self.data),
            queue: self.lines@.map_values(|frame: Frame<Bytes, F>| line_view(frame)),
            open: self.open,
            failure: self.failure,
        }
    }
}

impl<F, E> Lines<F, E> {
    /// A splitter that has seen nothing.
    pub fn new() -> (lines: Self)
        ensures
            lines@ == LinesView::<F, E>::new(),
    {
        let lines = Lines {
            data: BytesMut::new(),
            lines: VecDeque::new(),
            open: true,
            failure: None,
        };
        assert(lines@.queue =~= Seq::empty());
        lines
    }

    /// The number of bytes that wait for a line ending.
    pub fn buffered_len(&self) -> (len: usize)
        ensures
            len == self@.buffer.len(),
    {
        self.data.len()
    }

    /// Whether the source may still give more.
    pub fn is_open(&self) -> (open: bool)
        ensures
            open == self@.open,
    {
        self.open
    }

    /// Takes a chunk of bytes from the source.
    pub fn feed(&mut self, chunk: &[u8])
        requires
            old(self)@.open ==> old(self)@.buffer.len() + chunk@.len() <= isize::MAX,
        ensures
            final(self)@ == old(self)@.feed(chunk@),
    {
        if !self.open {
            return ;
        }
        self.data.extend_from_slice(chunk);
        let ghost all = buffered(self.data);
        let ghost mut done: Seq<Seq<u8>> = Seq::empty();
        loop
            invariant
                self.open == old(self).open,
                self.failure == old(self).failure,
                self@.queue == old(self)@.queue + data_frames::<F>(done),
                split_all(all).0 == done + split_all(buffered(self.data)).0,
                split_all(all).1 == split_all(buffered(self.data)).1,
            ensures
                cut(buffered(self.data)) is None,
            decreases buffered(self.data).len(),
        {
            let ghost before = buffered(self.data);
            let ghost queue = self@.queue;
            proof {
                lemma_scan(before, 0);
            }
            match split(&mut self.data) {
                Some(line) => {
                    self.lines.push_back(Frame::Data(line));
                    proof {
                        assert(self@.queue =~= queue.push(Frame::Data(frozen(line))));
                        assert(data_frames::<F>(done.push(frozen(line))) =~= data_frames::<F>(
                            done,
                        ).push(Frame::Data(frozen(line))));
                        assert(done.push(frozen(line)) + split_all(buffered(self.data)).0
                            =~= done + split_all(before).0);
                        done = done.push(frozen(line));
                    }
                },
                None => {
                    proof {
                        assert(done + Seq::<Seq<u8>>::empty() =~= done);
                    }
                    break ;
                },
            }
        }
    }

    /// Takes a frame without data from the source.
    pub fn pass(&mut self, other: F)
        ensures
            final(self)@ == old(self)@.pass(other),
    {
        if self.open {
            let ghost queue = self@.queue;
            self.lines.push_back(Frame::Other(other));
            assert(self@.queue =~= queue.push(Frame::Other(other)));
        }
    }

    /// Takes the error with which the source failed.
    pub fn fail(&mut self, error: E)
        ensures
            final(self)@ == old(self)@.fail(error),
    {
        if self.open {
            self.data = BytesMut::new();
            self.lines.clear();
            self.open = false;
            self.failure = Some(error);
            assert(self@.queue =~= Seq::empty());
        }
    }

    /// Takes note that the source is exhausted.
    pub fn finish(&mut self)
        requires
            old(self)@.open ==> old(self)@.buffer.len() < isize::MAX,
        ensures
            final(self)@ == old(self)@.finish(),
    {
        if self.open {
            let ghost queue = self@.queue;
            put_u8(&mut self.data, SENTINEL);
            if let Some(line) = split(&mut self.data) {
                self.lines.push_back(Frame::Data(line));
                assert(self@.queue =~= queue.push(Frame::Data(frozen(line))));
            }
            self.data = BytesMut::new();
            self.open = false;
        }
    }

    /// Answers one pull.
    pub fn poll_frame(&mut self) -> (polled: Polled<Frame<Bytes, F>, E>)
        ensures
            (final(self)@, polled_view(polled)) == old(self)@.poll(),
    {
        let ghost queue = self@.queue;
        if let Some(frame) = self.lines.pop_front() {
            assert(self@.queue =~= queue.drop_first());
            return Polled::Item(frame);
        }
        assert(self@.queue =~= queue);
        if self.open {
            return Polled::Pull;
        }
        match self.failure.take() {
            Some(error) => Polled::Failed(error),
            None => Polled::End,
        }
    }
}


} // verus!
