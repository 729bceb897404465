//! What holds of every stream: the events depend on the bytes alone, not
//! on how the bytes are cut into chunks nor on which line ending the
//! sender uses, and they come in the order of the source.

use vstd::prelude::*;
use vstd::utf8::*;
use crate::decode::{DecodeView, Failure};
use crate::event::{block_lines, decode_block, Fields};
use crate::frame::{Frame, Polled};
use crate::lines::{
    break_len, breaks_at, cut, data_frames, is_ending, is_plain, lemma_rest_uncut, lemma_scan,
    lemma_scan_is, lemma_split_all_append, scan, split_all, LinesView, CR, LF, SENTINEL,
};
use crate::text::lemma_ascii_boundary;

verus! {

impl<F, E> DecodeView<F, E> {
    /// A bound on the pulls that can still be answered from what is
    /// buffered.
    pub open spec fn backlog(self) -> nat {
        2 * self.lines.queue.len() + if self.pending.is_set() {
            1nat
        } else {
            0nat
        }
    }

    /// A pull that answers with an item leaves less to answer.
    pub proof fn lemma_poll_progress(self)
        requires
            self.poll().1 is Item,
        ensures
            self.poll().0.backlog() < self.backlog(),
        decreases self.lines.queue.len(),
    {
        let (lines, polled) = self.lines.poll();
        match polled {
            Polled::Item(Frame::Data(line)) => {
                if valid_utf8(line) {
                    if line.len() > 0 {
                        let next = DecodeView { lines, pending: self.pending.apply(line), ..self };
                        next.lemma_poll_progress();
                    } else if !self.pending.is_set() {
                        DecodeView { lines, ..self }.lemma_poll_progress();
                    }
                }
            },
            _ => {},
        }
    }

    /// All that pulls answer until the source has to be asked or the
    /// sequence is over: the items in order, with the failure behind them
    /// if there is one, and the decoder as the pulls leave it.
    pub open spec fn drain(self) -> (Self, Seq<Polled<Frame<Fields, F>, Failure<E>>>)
        decreases self.backlog(),
        via Self::drain_decreases
    {
        let (next, polled) = self.poll();
        match polled {
            Polled::Item(_) => {
                let (last, more) = next.drain();
                (last, seq![polled] + more)
            },
            Polled::Failed(_) => (next, seq![polled]),
            _ => (next, Seq::empty()),
        }
    }

    #[via_fn]
    proof fn drain_decreases(self) {
        if self.poll().1 is Item {
            self.lemma_poll_progress();
        }
    }

    /// Whether pulls have nothing to answer before the source is asked:
    /// the decoder goes on, and its queue is empty.
    pub open spec fn waiting(self) -> bool {
        !self.done && self.lines.open && self.lines.queue.len() == 0
    }

    /// Pulls leave a decoder that is done, or one that waits for the source
    /// with the buffer untouched. Either way more pulls answer nothing.
    pub proof fn lemma_drain_settles(self)
        ensures
            self.drain().0.drain() == (
                self.drain().0,
                Seq::<Polled<Frame<Fields, F>, Failure<E>>>::empty(),
            ),
            self.drain().0.done || (self.drain().0.waiting() && self.lines.open
                && self.drain().0.lines.buffer == self.lines.buffer
                && self.drain().0.lines.failure == self.lines.failure),
            self.drain().0.lines.buffer == self.lines.buffer || self.drain().0.lines.buffer
                == Seq::<u8>::empty(),
        decreases self.backlog(),
    {
        let (next, polled) = self.poll();
        self.lemma_poll_keeps();
        if polled is Item {
            self.lemma_poll_progress();
            next.lemma_drain_settles();
        }
    }

    /// A pull that does not end the sequence changes neither the buffer
    /// nor what is known of the source. One that answers with a request
    /// leaves the decoder waiting, one that answers with the end or a
    /// failure leaves it done, and one that answers with an item leaves it
    /// going.
    pub proof fn lemma_poll_keeps(self)
        ensures
            !self.poll().0.done ==> self.poll().0.lines.open == self.lines.open
                && self.poll().0.lines.buffer == self.lines.buffer && self.poll().0.lines.failure
                == self.lines.failure,
            self.poll().0.lines.buffer == self.lines.buffer || self.poll().0.lines.buffer
                == Seq::<u8>::empty(),
            self.poll().1 is Pull ==> self.poll().0.waiting() && self.poll().0.poll()
                == self.poll(),
            self.poll().1 is End || self.poll().1 is Failed ==> self.poll().0.done,
            self.poll().1 is Item ==> !self.poll().0.done,
        decreases self.lines.queue.len(),
    {
        if !self.done {
            let (lines, polled) = self.lines.poll();
            match polled {
                Polled::Item(Frame::Data(line)) => {
                    if valid_utf8(line) {
                        if line.len() > 0 {
                            let pending = self.pending.apply(line);
                            let next = DecodeView { lines, pending, ..self };
                            next.lemma_poll_keeps();
                        } else if !self.pending.is_set() {
                            DecodeView { lines, ..self }.lemma_poll_keeps();
                        }
                    }
                },
                _ => {},
            }
        }
    }

    /// The decoder with more frames behind its queue, and with the buffer
    /// and the knowledge of the source taken from `tail`.
    pub open spec fn extended(self, more: Seq<Frame<Seq<u8>, F>>, tail: LinesView<F, E>) -> Self {
        DecodeView {
            lines: LinesView { queue: self.lines.queue + more, ..tail },
            ..self
        }
    }

    /// The decoder as pulls find it after the frames of `more` have come
    /// behind the queue: unchanged if it is done, else extended.
    pub open spec fn resumed(self, more: Seq<Frame<Seq<u8>, F>>, tail: LinesView<F, E>) -> Self {
        if self.done {
            self
        } else {
            self.extended(more, tail)
        }
    }

    /// A pull does not look behind the frame that it stops at: with more
    /// behind the queue it answers the same, and where it ran out of
    /// frames it goes on into what came behind.
    pub proof fn lemma_poll_extended(self, more: Seq<Frame<Seq<u8>, F>>, tail: LinesView<F, E>)
        requires
            !self.done,
            self.lines.open,
        ensures
            self.poll().1 is Pull ==> self.extended(more, tail).poll() == self.poll().0.extended(
                more,
                tail,
            ).poll(),
            !(self.poll().1 is Pull) ==> self.extended(more, tail).poll() == (
                self.poll().0.resumed(more, tail),
                self.poll().1,
            ),
        decreases self.lines.queue.len(),
    {
        let wide = self.extended(more, tail);
        if self.lines.queue.len() == 0 {
            assert(self.poll().0 == self);
        } else {
            let (lines, polled) = self.lines.poll();
            let (wide_lines, wide_polled) = wide.lines.poll();
            assert(wide.lines.queue[0] == self.lines.queue[0]);
            assert(wide.lines.queue.drop_first() =~= self.lines.queue.drop_first() + more);
            assert(wide_polled == polled);
            assert(wide_lines == LinesView { queue: lines.queue + more, ..tail });
            match polled {
                Polled::Item(Frame::Data(line)) => {
                    if valid_utf8(line) {
                        if line.len() > 0 {
                            let next = DecodeView {
                                lines,
                                pending: self.pending.apply(line),
                                ..self
                            };
                            next.lemma_poll_extended(more, tail);
                            assert(next.extended(more, tail) == DecodeView {
                                lines: wide_lines,
                                pending: wide.pending.apply(line),
                                ..wide
                            });
                        } else if !self.pending.is_set() {
                            let next = DecodeView { lines, ..self };
                            next.lemma_poll_extended(more, tail);
                            assert(next.extended(more, tail) == DecodeView {
                                lines: wide_lines,
                                ..wide
                            });
                        } else {
                            assert(self.emitted(lines).extended(more, tail) == wide.emitted(
                                wide_lines,
                            ));
                        }
                    }
                },
                Polled::Item(Frame::Other(other)) => {
                    assert(DecodeView { lines, ..self }.extended(more, tail) == DecodeView {
                        lines: wide_lines,
                        ..wide
                    });
                },
                _ => {},
            }
        }
    }

    /// Pulls do not look ahead: what they answer with more behind the
    /// queue is what they answer without it, followed by what they answer
    /// once it has come.
    pub proof fn lemma_drain_extended(self, more: Seq<Frame<Seq<u8>, F>>, tail: LinesView<F, E>)
        requires
            !self.done,
            self.lines.open,
        ensures
            self.extended(more, tail).drain() == (
                self.drain().0.resumed(more, tail).drain().0,
                self.drain().1 + self.drain().0.resumed(more, tail).drain().1,
            ),
        decreases self.backlog(),
    {
        let wide = self.extended(more, tail);
        let (next, polled) = self.poll();
        self.lemma_poll_extended(more, tail);
        self.lemma_poll_keeps();
        match polled {
            Polled::Item(_) => {
                self.lemma_poll_progress();
                next.lemma_drain_extended(more, tail);
                let (last, out) = next.drain();
                let after = last.resumed(more, tail).drain();
                assert(seq![polled] + (out + after.1) =~= (seq![polled] + out) + after.1);
            },
            Polled::Failed(_) => {
                assert(next.resumed(more, tail) == next);
                assert(next.poll() == (next, Polled::<Frame<Fields, F>, Failure<E>>::End));
                assert(seq![polled] + Seq::<Polled<Frame<Fields, F>, Failure<E>>>::empty()
                    =~= seq![polled]);
            },
            Polled::Pull => {
                let after = next.extended(more, tail).drain();
                assert(wide.drain() == after);
                assert(Seq::<Polled<Frame<Fields, F>, Failure<E>>>::empty() + after.1
                    =~= after.1);
            },
            Polled::End => {},
        }
    }

    /// Whether the buffer holds no complete line.
    pub open spec fn tidy(self) -> bool {
        self.lines.tidy()
    }

    /// Pulls answer the same whether two pieces of input come as one
    /// chunk, or one after the other with pulls in between. What was
    /// answered to the first piece stays in front, in its order.
    pub proof fn law_feed_in_pieces(self, first: Seq<u8>, second: Seq<u8>)
        ensures
            self.feed(first + second).drain() == (
                self.feed(first).drain().0.feed(second).drain().0,
                self.feed(first).drain().1 + self.feed(first).drain().0.feed(second).drain().1,
            ),
    {
        let fed = self.feed(first);
        let (settled, out) = fed.drain();
        fed.lemma_drain_settles();
        if self.done || !self.lines.open {
            assert(settled.feed(second) == settled);
            assert(out + Seq::<Polled<Frame<Fields, F>, Failure<E>>>::empty() =~= out);
        } else {
            let buffer = self.lines.buffer;
            lemma_split_all_append(buffer + first, second);
            assert(buffer + (first + second) =~= (buffer + first) + second);
            let (lines, rest) = split_all(buffer + first);
            let (more, tail) = split_all(rest + second);
            assert(data_frames::<F>(lines + more) =~= data_frames::<F>(lines) + data_frames::<F>(
                more,
            ));
            let end = LinesView { buffer: tail, ..self.lines };
            assert(self.lines.queue + (data_frames::<F>(lines) + data_frames::<F>(more)) =~= (
                self.lines.queue + data_frames::<F>(lines)) + data_frames::<F>(more));
            assert(self.feed(first + second) == fed.extended(data_frames::<F>(more), end));
            fed.lemma_drain_extended(data_frames::<F>(more), end);
            if !settled.done {
                assert(settled.feed(second) == settled.extended(data_frames::<F>(more), end));
            }
        }
    }

    /// Pulls answer the same whether the end of the input is told before
    /// them or between them.
    pub proof fn law_finish_between_pulls(self)
        ensures
            self.finish().drain() == (
                self.drain().0.finish().drain().0,
                self.drain().1 + self.drain().0.finish().drain().1,
            ),
    {
        let (settled, out) = self.drain();
        self.lemma_drain_settles();
        if self.done || !self.lines.open {
            assert(settled.finish() == settled);
            assert(out + Seq::<Polled<Frame<Fields, F>, Failure<E>>>::empty() =~= out);
        } else {
            let more: Seq<Frame<Seq<u8>, F>> = match cut(self.lines.buffer.push(SENTINEL)) {
                Some((line, _)) => seq![Frame::Data(line)],
                None => Seq::empty(),
            };
            let end = LinesView { buffer: Seq::empty(), open: false, ..self.lines };
            assert(self.lines.queue + more =~= self.finish().lines.queue);
            assert(self.finish() == self.extended(more, end));
            self.lemma_drain_extended(more, end);
            if !settled.done {
                assert(settled.lines.queue + more =~= settled.finish().lines.queue);
                assert(settled.finish() == settled.extended(more, end));
            }
        }
    }

    /// The answers to a stream that comes in chunks: each chunk is handed
    /// over and followed by pulls until the source has to be asked again.
    pub open spec fn run(self, chunks: Seq<Seq<u8>>) -> (
        Self,
        Seq<Polled<Frame<Fields, F>, Failure<E>>>,
    )
        decreases chunks.len(),
    {
        if chunks.len() == 0 {
            self.drain()
        } else {
            let (next, out) = self.feed(chunks[0]).drain();
            let (last, more) = next.run(chunks.drop_first());
            (last, out + more)
        }
    }

    /// Handing over nothing changes nothing.
    pub proof fn lemma_feed_nothing(self)
        requires
            self.tidy(),
        ensures
            self.feed(Seq::empty()) == self,
    {
        if !self.done && self.lines.open {
            assert(self.lines.buffer + Seq::<u8>::empty() =~= self.lines.buffer);
            assert(data_frames::<F>(Seq::empty()) =~= Seq::empty());
            assert(self.lines.queue + Seq::<Frame<Seq<u8>, F>>::empty() =~= self.lines.queue);
        }
    }

    /// Handing over a chunk, and pulling, leaves no complete line in the
    /// buffer.
    pub proof fn lemma_feed_tidy(self, chunk: Seq<u8>)
        requires
            self.tidy(),
        ensures
            self.feed(chunk).tidy(),
            self.feed(chunk).drain().0.tidy(),
    {
        if !self.done && self.lines.open {
            lemma_rest_uncut(self.lines.buffer + chunk);
        }
        self.feed(chunk).lemma_drain_settles();
        assert(cut(Seq::<u8>::empty()) is None);
    }

    /// A stream in chunks is answered as the stream in one chunk is.
    pub proof fn lemma_run_is_feed(self, chunks: Seq<Seq<u8>>)
        requires
            self.tidy(),
        ensures
            self.run(chunks) == self.feed(chunks.flatten()).drain(),
        decreases chunks.len(),
    {
        if chunks.len() == 0 {
            assert(chunks.flatten() =~= Seq::<u8>::empty());
            self.lemma_feed_nothing();
        } else {
            let rest = chunks.drop_first();
            let next = self.feed(chunks[0]).drain().0;
            self.lemma_feed_tidy(chunks[0]);
            next.lemma_run_is_feed(rest);
            self.law_feed_in_pieces(chunks[0], rest.flatten());
            assert(chunks.flatten() =~= chunks[0] + rest.flatten());
        }
    }
}

/// Everything that a new decoder answers to a stream that comes in chunks
/// and then ends.
pub open spec fn decode_chunks<F, E>(chunks: Seq<Seq<u8>>) -> Seq<
    Polled<Frame<Fields, F>, Failure<E>>,
> {
    let (fed, out) = DecodeView::<F, E>::new().run(chunks);
    out + fed.finish().drain().1
}

/// Everything that a new decoder answers to a stream that comes as one
/// chunk and then ends.
pub open spec fn decode_bytes<F, E>(input: Seq<u8>) -> Seq<Polled<Frame<Fields, F>, Failure<E>>> {
    DecodeView::<F, E>::new().feed(input).finish().drain().1
}

/// What a stream decodes to depends on its bytes alone: however it is cut
/// into chunks, the answers are those to the whole stream in one chunk.
pub proof fn law_chunks_are_bytes<F, E>(chunks: Seq<Seq<u8>>)
    ensures
        decode_chunks::<F, E>(chunks) == decode_bytes::<F, E>(chunks.flatten()),
{
    let start = DecodeView::<F, E>::new();
    assert(cut(Seq::<u8>::empty()) is None);
    start.lemma_run_is_feed(chunks);
    start.feed(chunks.flatten()).law_finish_between_pulls();
}

/// Two ways of cutting the same bytes into chunks decode to the same
/// answers.
pub proof fn law_chunk_independence<F, E>(one: Seq<Seq<u8>>, other: Seq<Seq<u8>>)
    requires
        one.flatten() == other.flatten(),
    ensures
        decode_chunks::<F, E>(one) == decode_chunks::<F, E>(other),
{
    law_chunks_are_bytes::<F, E>(one);
    law_chunks_are_bytes::<F, E>(other);
}

/// With the sentinel behind it, a buffer that holds no complete line gives
/// at most one more line: the one that a last carriage return ends. Only
/// the sentinel is left behind it.
pub proof fn lemma_cut_sentinel(buffer: Seq<u8>)
    requires
        cut(buffer) is None,
    ensures
        match cut(buffer.push(SENTINEL)) {
            Some((line, rest)) => buffer.len() > 0 && buffer.last() == CR && line
                == buffer.drop_last() && rest == seq![SENTINEL],
            None => buffer.len() == 0 || buffer.last() != CR,
        },
        cut(seq![SENTINEL]) is None,
{
    let ended = buffer.push(SENTINEL);
    let at = scan(ended, 0);
    lemma_scan(buffer, 0);
    lemma_scan(ended, 0);
    assert(!breaks_at(ended, buffer.len() as int));
    assert(scan(buffer, 0) == buffer.len());
    if at < ended.len() {
        assert(breaks_at(ended, at));
        assert(at < buffer.len());
        assert(ended[at] == buffer[at]);
        assert(!breaks_at(buffer, at));
        assert(buffer[at] == CR && at + 1 == buffer.len());
        assert(ended[at + 1] == SENTINEL);
        assert(break_len(ended, at) == 1);
        assert(ended.subrange(0, at) =~= buffer.drop_last());
        assert(ended.subrange(at + 1, ended.len() as int) =~= seq![SENTINEL]);
    } else {
        if buffer.len() > 0 && buffer.last() == CR {
            assert(breaks_at(ended, buffer.len() - 1));
        }
    }
    let alone = seq![SENTINEL];
    lemma_scan(alone, 0);
    assert(!breaks_at(alone, 0));
}

/// The lines of a stream that has ended are the lines that end in its
/// bytes with the sentinel behind them.
pub proof fn lemma_ended_lines<F, E>(input: Seq<u8>)
    ensures
        LinesView::<F, E>::new().feed(input).finish() == (LinesView::<F, E> {
            buffer: Seq::empty(),
            queue: data_frames(split_all(input.push(SENTINEL)).0),
            open: false,
            failure: None,
        }),
{
    let (lines, rest) = split_all(input);
    let start = LinesView::<F, E>::new();
    assert(start.buffer + input =~= input);
    assert(start.queue + data_frames::<F>(lines) =~= data_frames::<F>(lines));
    lemma_rest_uncut(input);
    lemma_cut_sentinel(rest);
    lemma_split_all_append(input, seq![SENTINEL]);
    assert(input + seq![SENTINEL] =~= input.push(SENTINEL));
    assert(rest + seq![SENTINEL] =~= rest.push(SENTINEL));
    match cut(rest.push(SENTINEL)) {
        Some((line, behind)) => {
            assert(split_all(behind).0 =~= Seq::<Seq<u8>>::empty());
            assert(split_all(rest.push(SENTINEL)).0 =~= seq![line]);
            assert(data_frames::<F>(lines + seq![line]) =~= data_frames::<F>(lines).push(
                Frame::Data(line),
            ));
        },
        None => {
            assert(lines + Seq::<Seq<u8>>::empty() =~= lines);
        },
    }
}

/// The bytes of `lines`, each followed by `ending`.
pub open spec fn terminated(lines: Seq<Seq<u8>>, ending: Seq<u8>) -> Seq<u8>
    decreases lines.len(),
{
    if lines.len() == 0 {
        Seq::empty()
    } else {
        lines[0] + ending + terminated(lines.drop_first(), ending)
    }
}

/// Lines written with any one line ending are split into the same lines
/// again, once the stream has ended.
pub proof fn lemma_terminated_lines(lines: Seq<Seq<u8>>, ending: Seq<u8>)
    requires
        is_ending(ending),
        forall|i: int| 0 <= i < lines.len() ==> is_plain(#[trigger] lines[i]),
    ensures
        split_all(terminated(lines, ending).push(SENTINEL)).0 == lines,
    decreases lines.len(),
{
    let input = terminated(lines, ending).push(SENTINEL);
    if lines.len() == 0 {
        lemma_cut_sentinel(Seq::empty());
        assert(input =~= seq![SENTINEL]);
        assert(split_all(input).0 =~= lines);
    } else {
        let line = lines[0];
        let rest = lines.drop_first();
        let behind = terminated(rest, ending).push(SENTINEL);
        assert(is_plain(line));
        assert(forall|i: int| 0 <= i < rest.len() ==> is_plain(#[trigger] rest[i])) by {
            assert forall|i: int| 0 <= i < rest.len() implies is_plain(#[trigger] rest[i]) by {
                assert(rest[i] == lines[i + 1]);
            }
        }
        lemma_terminated_lines(rest, ending);
        assert(input =~= line + ending + behind);
        let at = line.len() as int;
        assert forall|j: int| 0 <= j < at implies !breaks_at(input, j) by {
            assert(input[j] == line[j]);
        }
        assert(input[at] == ending[0]);
        assert(behind.len() > 0);
        assert(input[at + ending.len()] == behind[0]);
        if rest.len() > 0 {
            assert(is_plain(rest[0]));
            let next = rest[0] + ending + terminated(rest.drop_first(), ending);
            assert(terminated(rest, ending) == next);
            if rest[0].len() > 0 {
                assert(behind[0] == rest[0][0]);
            } else {
                assert(behind[0] == ending[0]);
            }
        } else {
            assert(behind =~= seq![SENTINEL]);
        }
        if ending.len() == 2 {
            assert(input[at + 1] == ending[1]);
        } else if ending[0] == CR {
            assert(behind[0] != LF) by {
                if rest.len() > 0 && rest[0].len() == 0 {
                    assert(behind[0] == CR);
                }
            }
        }
        lemma_scan_is(input, 0, at);
        assert(break_len(input, at) == ending.len());
        assert(input.subrange(0, at) =~= line);
        assert(input.subrange(at + ending.len(), input.len() as int) =~= behind);
        assert(seq![line] + rest =~= lines);
    }
}

/// Which of the three line endings a sender uses makes no difference:
/// the same lines, written with one ending or with another, decode to the
/// same answers.
pub proof fn law_line_endings<F, E>(lines: Seq<Seq<u8>>, one: Seq<u8>, other: Seq<u8>)
    requires
        is_ending(one),
        is_ending(other),
        forall|i: int| 0 <= i < lines.len() ==> is_plain(#[trigger] lines[i]),
    ensures
        LinesView::<F, E>::new().feed(terminated(lines, one)).finish().queue == data_frames::<F>(
            lines,
        ),
        decode_bytes::<F, E>(terminated(lines, one)) == decode_bytes::<F, E>(
            terminated(lines, other),
        ),
{
    lemma_terminated_lines(lines, one);
    lemma_terminated_lines(lines, other);
    lemma_ended_lines::<F, E>(terminated(lines, one));
    lemma_ended_lines::<F, E>(terminated(lines, other));
}

/// Events come in the order of the source: the answers to a stream begin
/// with the answers to any first part of it, and where that part leaves
/// nothing behind in the decoder, the answers to the rest follow as if the
/// rest stood alone.
pub proof fn law_source_order<F, E>(first: Seq<u8>, second: Seq<u8>)
    ensures
        decode_bytes::<F, E>(first + second) == DecodeView::<F, E>::new().feed(first).drain().1
            + DecodeView::<F, E>::new().feed(first).drain().0.feed(second).finish().drain().1,
        DecodeView::<F, E>::new().feed(first).drain().0 == DecodeView::<F, E>::new()
            ==> decode_bytes::<F, E>(first + second) == DecodeView::<F, E>::new().feed(
            first,
        ).drain().1 + decode_bytes::<F, E>(second),
{
    let start = DecodeView::<F, E>::new();
    let (settled, out) = start.feed(first).drain();
    let (last, more) = settled.feed(second).drain();
    start.law_feed_in_pieces(first, second);
    start.feed(first + second).law_finish_between_pulls();
    settled.feed(second).law_finish_between_pulls();
    let end = last.finish().drain().1;
    assert((out + more) + end =~= out + (more + end));
}

/// A line that is not UTF-8 fails the sequence for good: the pull that
/// reaches it answers with the failure instead of an event, nothing is
/// kept, and whatever the source gives afterwards, every later pull
/// answers the end.
pub proof fn law_invalid_line_fails<F, E>(decoder: DecodeView<F, E>, line: Seq<u8>, chunk: Seq<u8>)
    requires
        !decoder.done,
        decoder.lines.queue.len() > 0,
        decoder.lines.queue[0] == Frame::<Seq<u8>, F>::Data(line),
        !valid_utf8(line),
    ensures
        decoder.poll() == (
            DecodeView::<F, E>::failed(),
            Polled::<Frame<Fields, F>, Failure<E>>::Failed(Failure::Encoding),
        ),
        DecodeView::<F, E>::failed().feed(chunk).finish().poll() == (
            DecodeView::<F, E>::failed(),
            Polled::<Frame<Fields, F>, Failure<E>>::End,
        ),
{
}

/// An event that no blank line closed is emitted when the lines end, once,
/// and the sequence ends behind it.
pub proof fn law_dangling_event<F, E>(decoder: DecodeView<F, E>)
    requires
        !decoder.done,
        !decoder.lines.open,
        decoder.lines.queue.len() == 0,
        decoder.lines.failure is None,
        decoder.pending.is_set(),
    ensures
        decoder.drain().1 == seq![
            Polled::<Frame<Fields, F>, Failure<E>>::Item(Frame::Data(decoder.pending.finalize())),
        ],
        decoder.drain().0.done,
{
    let emitted = decoder.poll().0;
    assert(emitted.poll().1 is End);
    assert(emitted.drain().1 =~= Seq::empty());
    assert(seq![decoder.poll().1] + Seq::<Polled<Frame<Fields, F>, Failure<E>>>::empty()
        =~= seq![decoder.poll().1]);
}

/// Cutting text into lines gives text: every line of well-formed UTF-8 is
/// well-formed, and so is what is left over.
pub proof fn lemma_lines_are_text(buf: Seq<u8>)
    requires
        valid_utf8(buf),
    ensures
        forall|i: int|
            0 <= i < split_all(buf).0.len() ==> valid_utf8(#[trigger] split_all(buf).0[i]),
        valid_utf8(split_all(buf).1),
    decreases buf.len(),
{
    match cut(buf) {
        Some((line, rest)) => {
            let at = scan(buf, 0);
            lemma_scan(buf, 0);
            assert(breaks_at(buf, at));
            lemma_ascii_boundary(buf, at);
            if break_len(buf, at) == 2 {
                lemma_ascii_boundary(buf, at + 1);
            }
            valid_utf8_split(buf, at);
            valid_utf8_split(buf, at + break_len(buf, at));
            lemma_lines_are_text(rest);
            let lines = split_all(buf).0;
            assert forall|i: int| 0 <= i < lines.len() implies valid_utf8(#[trigger] lines[i]) by {
                if i > 0 {
                    assert(lines[i] == split_all(rest).0[i - 1]);
                }
            }
        },
        None => {},
    }
}

impl<F, E> DecodeView<F, E> {
    /// Lines of text of which none is blank all go into one event, which
    /// is emitted when the lines end, if a field is set.
    pub proof fn lemma_one_event(self, lines: Seq<Seq<u8>>)
        requires
            !self.done,
            !self.lines.open,
            self.lines.failure is None,
            self.lines.queue == data_frames::<F>(lines),
            forall|i: int| 0 <= i < lines.len() ==> valid_utf8(#[trigger] lines[i]),
            forall|i: int| 0 <= i < lines.len() ==> (#[trigger] lines[i]).len() > 0,
        ensures
            self.drain().1 == if self.pending.apply_all(lines).is_set() {
                seq![
                    Polled::<Frame<Fields, F>, Failure<E>>::Item(
                        Frame::Data(self.pending.apply_all(lines).finalize()),
                    ),
                ]
            } else {
                Seq::empty()
            },
        decreases lines.len(),
    {
        if lines.len() == 0 {
            if self.pending.is_set() {
                law_dangling_event(self);
            }
        } else {
            let rest = lines.drop_first();
            let next = DecodeView {
                lines: self.lines.poll().0,
                pending: self.pending.apply(lines[0]),
                ..self
            };
            assert(self.lines.queue[0] == Frame::<Seq<u8>, F>::Data(lines[0]));
            assert(next.lines.queue =~= data_frames::<F>(rest));
            assert(self.poll() == next.poll());
            assert forall|i: int| 0 <= i < rest.len() implies valid_utf8(#[trigger] rest[i])
                && rest[i].len() > 0 by {
                assert(rest[i] == lines[i + 1]);
            }
            next.lemma_one_event(rest);
        }
    }
}

/// A block of text whose every line has an ending and is not blank decodes
/// in a stream to what it decodes to on its own: the one event of its
/// lines, if they set a field, and else nothing.
pub proof fn law_block_is_stream<F, E>(data: Seq<u8>)
    requires
        valid_utf8(data),
        split_all(data.push(SENTINEL)).1.len() == 1,
        forall|i: int|
            0 <= i < block_lines(data).len() ==> (#[trigger] block_lines(data)[i]).len() > 0,
    ensures
        decode_bytes::<F, E>(data) == if decode_block(data).is_set() {
            seq![Polled::<Frame<Fields, F>, Failure<E>>::Item(Frame::Data(decode_block(data)))]
        } else {
            Seq::empty()
        },
{
    let lines = block_lines(data);
    let ended = DecodeView::<F, E>::new().feed(data).finish();
    lemma_ended_lines::<F, E>(data);
    assert(valid_utf8(seq![SENTINEL])) by {
        reveal_with_fuel(valid_utf8, 2);
        assert(pop_first_scalar(seq![SENTINEL]) =~= Seq::<u8>::empty());
    }
    valid_utf8_concat(data, seq![SENTINEL]);
    assert(data + seq![SENTINEL] =~= data.push(SENTINEL));
    lemma_lines_are_text(data.push(SENTINEL));
    ended.lemma_one_event(lines);
}

} // verus!
