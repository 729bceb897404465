//! The event decoder: lines in, events out.
//!
//! A blank line emits the event that the lines before it filled. When the
//! lines end, an event that was filled but not yet emitted is emitted once.
//! A line that is not UTF-8, or a failure of the source, ends the sequence.

use vstd::prelude::*;
use vstd::utf8::*;
use core::str::Utf8Error;
use crate::buffer::frozen_slice;
use crate::event::{decode_block, Event, Fields};
use crate::frame::{Frame, Polled};
use crate::lines::{Lines, LinesView};

verus! {

/// Why a sequence of events failed.
#[derive(Debug, PartialEq, Eq)]
pub enum DecodeError<E> {
    /// The source failed with this error.
    Source(E),
    /// A line was not UTF-8.
    Encoding(Utf8Error),
}

/// Why a sequence of events failed, without the detail of where a line
/// stopped being UTF-8.
pub enum Failure<E> {
    Source(E),
    Encoding,
}

/// The failure that an error stands for.
pub open spec fn failure_view<E>(error: DecodeError<E>) -> Failure<E> {
    match error {
        DecodeError::Source(error) => Failure::Source(error),
        DecodeError::Encoding(_) => Failure::Encoding,
    }
}

/// An answer of the decoder, each event by its fields.
pub open spec fn decoded_view<F, E>(polled: Polled<Frame<Event, F>, DecodeError<E>>) -> Polled<
    Frame<Fields, F>,
    Failure<E>,
> {
    match polled {
        Polled::Item(Frame::Data(event)) => Polled::Item(Frame::Data(event@)),
        Polled::Item(Frame::Other(other)) => Polled::Item(Frame::Other(other)),
        Polled::Failed(error) => Polled::Failed(failure_view(error)),
        Polled::End => Polled::End,
        Polled::Pull => Polled::Pull,
    }
}

/// The state of an event decoder.
pub struct DecodeView<F, E> {
    /// The line splitter that the decoder pulls from.
    pub lines: LinesView<F, E>,
    /// The fields set since the last event was emitted.
    pub pending: Fields,
    /// Whether the sequence has ended or failed.
    pub done: bool,
}

impl<F, E> DecodeView<F, E> {
    /// A decoder that has seen nothing.
    pub open spec fn new() -> Self {
        DecodeView { lines: LinesView::new(), pending: Fields::empty(), done: false }
    }

    /// The source gave a chunk of bytes.
    pub open spec fn feed(self, chunk: Seq<u8>) -> Self {
        if self.done {
            self
        } else {
            DecodeView { lines: self.lines.feed(chunk), ..self }
        }
    }

    /// The source gave a frame without data.
    pub open spec fn pass(self, other: F) -> Self {
        if self.done {
            self
        } else {
            DecodeView { lines: self.lines.pass(other), ..self }
        }
    }

    /// The source failed.
    pub open spec fn fail(self, error: E) -> Self {
        if self.done {
            self
        } else {
            DecodeView { lines: self.lines.fail(error), ..self }
        }
    }

    /// The source is exhausted.
    pub open spec fn finish(self) -> Self {
        if self.done {
            self
        } else {
            DecodeView { lines: self.lines.finish(), ..self }
        }
    }

    /// The decoder after it has emitted the pending event.
    pub open spec fn emitted(self, lines: LinesView<F, E>) -> Self {
        DecodeView { lines, pending: Fields::empty(), done: false }
    }

    /// The decoder after the sequence has failed: nothing is kept.
    pub open spec fn failed() -> Self {
        DecodeView { lines: LinesView::new(), pending: Fields::empty(), done: true }
    }

    /// One pull. The decoder takes lines from the splitter for as long as
    /// they only fill the pending event or change nothing. It stops at the
    /// first of these:
    /// a blank line while a field is set, which emits the event;
    /// a frame without data, which passes through;
    /// a line that is not UTF-8, or the error of the source, either of
    /// which ends the sequence;
    /// the end of the lines, which emits the pending event if a field is
    /// set, and else ends the sequence;
    /// the splitter's request for more input.
    pub open spec fn poll(self) -> (Self, Polled<Frame<Fields, F>, Failure<E>>)
        decreases self.lines.queue.len(),
    {
        if self.done {
            (self, Polled::End)
        } else {
            let (lines, polled) = self.lines.poll();
            match polled {
                Polled::Pull => (self, Polled::Pull),
                Polled::Failed(error) => (Self::failed(), Polled::Failed(Failure::Source(error))),
                Polled::End => if self.pending.is_set() {
                    (self.emitted(lines), Polled::Item(Frame::Data(self.pending.finalize())))
                } else {
                    (DecodeView { lines, done: true, ..self }, Polled::End)
                },
                Polled::Item(Frame::Other(other)) => (
                    DecodeView { lines, ..self },
                    Polled::Item(Frame::Other(other)),
                ),
                Polled::Item(Frame::Data(line)) => if !valid_utf8(line) {
                    (Self::failed(), Polled::Failed(Failure::Encoding))
                } else if line.len() > 0 {
                    DecodeView { lines, pending: self.pending.apply(line), ..self }.poll()
                } else if self.pending.is_set() {
                    (self.emitted(lines), Polled::Item(Frame::Data(self.pending.finalize())))
                } else {
                    DecodeView { lines, ..self }.poll()
                },
            }
        }
    }
    /// Whether a pull answers with a frame without data.
    pub open spec fn polls_other(self) -> bool {
        match self.poll().1 {
            Polled::Item(Frame::Other(_)) => true,
            _ => false,
        }
    }

    /// A pull that answers with a frame without data has taken that frame
    /// off the queue.
    pub proof fn lemma_poll_other(self)
        requires
            self.polls_other(),
        ensures
            self.poll().0.lines.queue.len() < self.lines.queue.len(),
        decreases self.lines.queue.len(),
    {
        let (lines, polled) = self.lines.poll();
        match polled {
            Polled::Item(Frame::Data(line)) => {
                if valid_utf8(line) {
                    if line.len() > 0 {
                        let next = DecodeView { lines, pending: self.pending.apply(line), ..self };
                        next.lemma_poll_other();
                    } else if !self.pending.is_set() {
                        DecodeView { lines, ..self }.lemma_poll_other();
                    }
                }
            },
            _ => {},
        }
    }

    /// One pull of the events alone: as `poll`, but a frame without data
    /// is dropped and the pull goes on.
    pub open spec fn poll_event(self) -> (Self, Polled<Fields, Failure<E>>)
        decreases self.lines.queue.len(),
        via Self::poll_event_decreases
    {
        let (next, polled) = self.poll();
        match polled {
            Polled::Item(Frame::Data(event)) => (next, Polled::Item(event)),
            Polled::Item(Frame::Other(_)) => next.poll_event(),
            Polled::Failed(failure) => (next, Polled::Failed(failure)),
            Polled::End => (next, Polled::End),
            Polled::Pull => (next, Polled::Pull),
        }
    }

    #[via_fn]
    proof fn poll_event_decreases(self) {
        if self.polls_other() {
            self.lemma_poll_other();
        }
    }
}

/// The event decoder. `F` is what a frame without data carries, `E` the
/// error of the source; both pass through.
pub struct Decode<F, E> {
    lines: Lines<F, E>,
    event: Event,
    done: bool,
}

impl<F, E> View for Decode<F, E> {
    type V = DecodeView<F, E>;

    closed spec fn view(&self) -> DecodeView<F, E> {
        DecodeView { lines: self.lines@, pending: self.event@, done: self.done }
    }
}

/// A decoder that has seen nothing.
pub fn decode<F, E>() -> (decoder: Decode<F, E>)
    ensures
        decoder@ == DecodeView::<F, E>::new(),
{
    Decode { lines: Lines::new(), event: Event::default(), done: false }
}

/// Decodes a complete block of text into the one event that its lines make
/// up, if they set a field at all. Fails if the block is not UTF-8.
pub fn decode_data(data: &[u8]) -> (decoded: Result<Option<Event>, Utf8Error>)
    ensures
        decoded is Ok <==> valid_utf8(data@),
        match decoded {
            Ok(Some(event)) => decode_block(data@).is_set() && event@ == decode_block(data@),
            Ok(None) => !decode_block(data@).is_set(),
            Err(_) => true,
        },
{
    Event::decode(data)
}

impl<F, E> Decode<F, E> {
    /// Whether the sequence has ended or failed.
    pub fn is_done(&self) -> (done: bool)
        ensures
            done == self@.done,
    {
        self.done
    }

    /// The number of bytes that wait for a line ending.
    pub fn buffered_len(&self) -> (len: usize)
        ensures
            len == self@.lines.buffer.len(),
    {
        self.lines.buffered_len()
    }

    /// Takes a chunk of bytes from the source.
    pub fn feed(&mut self, chunk: &[u8])
        requires
            !old(self)@.done && old(self)@.lines.open ==> old(self)@.lines.buffer.len()
                + chunk@.len() <= isize::MAX,
        ensures
            final(self)@ == old(self)@.feed(chunk@),
    {
        if !self.done {
            self.lines.feed(chunk);
        }
    }

    /// Takes a frame without data from the source.
    pub fn pass(&mut self, other: F)
        ensures
            final(self)@ == old(self)@.pass(other),
    {
        if !self.done {
            self.lines.pass(other);
        }
    }

    /// Takes the error with which the source failed.
    pub fn fail(&mut self, error: E)
        ensures
            final(self)@ == old(self)@.fail(error),
    {
        if !self.done {
            self.lines.fail(error);
        }
    }

    /// Takes note that the source is exhausted.
    pub fn finish(&mut self)
        requires
            !old(self)@.done && old(self)@.lines.open ==> old(self)@.lines.buffer.len()
                < isize::MAX,
        ensures
            final(self)@ == old(self)@.finish(),
    {
        if !self.done {
            self.lines.finish();
        }
    }

    /// Answers one pull.
    pub fn poll_frame(&mut self) -> (polled: Polled<Frame<Event, F>, DecodeError<E>>)
        ensures
            (final(self)@, decoded_view(polled)) == old(self)@.poll(),
    {
        if self.done {
            return Polled::End;
        }
        loop
            invariant
                !self.done,
                self@.poll() == old(self)@.poll(),
            decreases self@.lines.queue.len(),
        {
            match self.lines.poll_frame() {
                Polled::Pull => {
                    return Polled::Pull;
                },
                Polled::Failed(error) => {
                    self.fail_now();
                    return Polled::Failed(DecodeError::Source(error));
                },
                Polled::End => {
                    return match self.event.dispatch() {
                        Some(event) => Polled::Item(Frame::Data(event)),
                        None => {
                            self.done = true;
                            Polled::End
                        },
                    };
                },
                Polled::Item(Frame::Other(other)) => {
                    return Polled::Item(Frame::Other(other));
                },
                Polled::Item(Frame::Data(line)) => {
                    let bytes = frozen_slice(&line);
                    match core::str::from_utf8(bytes) {
                        Err(error) => {
                            self.fail_now();
                            return Polled::Failed(DecodeError::Encoding(error));
                        },
                        Ok(text) => {
                            if bytes.len() > 0 {
                                self.event.process_field(text);
                            } else {
                                match self.event.dispatch() {
                                    Some(event) => {
                                        return Polled::Item(Frame::Data(event));
                                    },
                                    None => {},
                                }
                            }
                        },
                    }
                },
            }
        }
    }

    /// Ends the sequence and drops what is buffered.
    fn fail_now(&mut self)
        ensures
            final(self)@ == DecodeView::<F, E>::failed(),
    {
        self.lines = Lines::new();
        self.event = Event::default();
        self.done = true;
    }
}

/// An answer of the event stream, the event by its fields.
pub open spec fn event_view<E>(polled: Polled<Event, DecodeError<E>>) -> Polled<
    Fields,
    Failure<E>,
> {
    match polled {
        Polled::Item(event) => Polled::Item(event@),
        Polled::Failed(error) => Polled::Failed(failure_view(error)),
        Polled::End => Polled::End,
        Polled::Pull => Polled::Pull,
    }
}

/// The events of a decoder alone: frames without data are dropped.
pub struct EventStream<F, E> {
    decoder: Decode<F, E>,
}

impl<F, E> View for EventStream<F, E> {
    type V = DecodeView<F, E>;

    closed spec fn view(&self) -> DecodeView<F, E> {
        self.decoder@
    }
}

impl<F, E> Decode<F, E> {
    /// Turns the decoder into the sequence of its events alone.
    pub fn into_event_stream(self) -> (stream: EventStream<F, E>)
        ensures
            stream@ == self@,
    {
        EventStream { decoder: self }
    }
}

impl<F, E> EventStream<F, E> {
    /// Whether the sequence has ended or failed.
    pub fn is_done(&self) -> (done: bool)
        ensures
            done == self@.done,
    {
        self.decoder.is_done()
    }

    /// The number of bytes that wait for a line ending.
    pub fn buffered_len(&self) -> (len: usize)
        ensures
            len == self@.lines.buffer.len(),
    {
        self.decoder.buffered_len()
    }

    /// Takes a chunk of bytes from the source.
    pub fn feed(&mut self, chunk: &[u8])
        requires
            !old(self)@.done && old(self)@.lines.open ==> old(self)@.lines.buffer.len()
                + chunk@.len() <= isize::MAX,
        ensures
            final(self)@ == old(self)@.feed(chunk@),
    {
        self.decoder.feed(chunk);
    }

    /// Takes a frame without data from the source.
    pub fn pass(&mut self, other: F)
        ensures
            final(self)@ == old(self)@.pass(other),
    {
        self.decoder.pass(other);
    }

    /// Takes the error with which the source failed.
    pub fn fail(&mut self, error: E)
        ensures
            final(self)@ == old(self)@.fail(error),
    {
        self.decoder.fail(error);
    }

    /// Takes note that the source is exhausted.
    pub fn finish(&mut self)
        requires
            !old(self)@.done && old(self)@.lines.open ==> old(self)@.lines.buffer.len()
                < isize::MAX,
        ensures
            final(self)@ == old(self)@.finish(),
    {
        self.decoder.finish();
    }

    /// Answers one pull.
    pub fn poll_next(&mut self) -> (polled: Polled<Event, DecodeError<E>>)
        ensures
            (final(self)@, event_view(polled)) == old(self)@.poll_event(),
    {
        loop
            invariant
                self@.poll_event() == old(self)@.poll_event(),
            decreases self@.lines.queue.len(),
        {
            let ghost before = self@;
            match self.decoder.poll_frame() {
                Polled::Item(Frame::Data(event)) => {
                    return Polled::Item(event);
                },
                Polled::Item(Frame::Other(_)) => {
                    proof {
                        before.lemma_poll_other();
                    }
                },
                Polled::Failed(error) => {
                    return Polled::Failed(error);
                },
                Polled::End => {
                    return Polled::End;
                },
                Polled::Pull => {
                    return Polled::Pull;
                },
            }
        }
    }
}


} // verus!
