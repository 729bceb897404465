//! Events, and the fields of the wire format that fill them.
//!
//! A line of the wire format is a field: a name, a colon, and a value, of
//! which one leading space is dropped. A line without a colon is a name with
//! an empty value. A line that starts with a colon is a comment.

use vstd::prelude::*;
use vstd::string::*;
use vstd::utf8::*;
use core::str::Utf8Error;
use crate::lines::{
    break_len, breaks_at, lemma_scan, lemma_scan_is, scan, split_all, CR, LF, SENTINEL,
};
use crate::text::{
    lemma_ascii_boundary, lemma_encode_concat, lemma_encode_injective, text_bytes,
};

verus! {

/// The byte `:`.
pub const COLON: u8 = 58;

/// The byte of a space.
pub const SPACE: u8 = 32;

/// The byte `+`.
pub const PLUS: u8 = 43;

/// The byte `0`; the other digits follow it.
pub const ZERO: u8 = 48;

/// The byte of a line feed, which joins the values of `data` fields.
pub const NEWLINE: u8 = 10;

/// The field name `event`.
pub open spec fn name_event() -> Seq<u8> {
    seq![101u8, 118u8, 101u8, 110u8, 116u8]
}

/// The field name `data`.
pub open spec fn name_data() -> Seq<u8> {
    seq![100u8, 97u8, 116u8, 97u8]
}

/// The field name `id`.
pub open spec fn name_id() -> Seq<u8> {
    seq![105u8, 100u8]
}

/// The field name `retry`.
pub open spec fn name_retry() -> Seq<u8> {
    seq![114u8, 101u8, 116u8, 114u8, 121u8]
}

/// The index of the first colon of `line` from `from` on, or the length of
/// `line` if there is none.
pub open spec fn colon(line: Seq<u8>, from: int) -> int
    decreases line.len() - from,
{
    if from < 0 || from >= line.len() {
        line.len() as int
    } else if line[from] == COLON {
        from
    } else {
        colon(line, from + 1)
    }
}

/// The name of the field that `line` is: what stands before its first
/// colon, or all of it.
pub open spec fn field_name(line: Seq<u8>) -> Seq<u8> {
    line.subrange(0, colon(line, 0))
}

/// Where the value starts in `line`: behind the first colon and one space,
/// if a space follows the colon; at the end if there is no colon.
pub open spec fn value_start(line: Seq<u8>) -> int {
    let at = colon(line, 0);
    if at >= line.len() {
        line.len() as int
    } else if at + 1 < line.len() && line[at + 1] == SPACE {
        at + 2
    } else {
        at + 1
    }
}

/// The value of the field that `line` is.
pub open spec fn field_value(line: Seq<u8>) -> Seq<u8> {
    line.subrange(value_start(line), line.len() as int)
}

/// Whether every byte is a decimal digit.
pub open spec fn all_digits(digits: Seq<u8>) -> bool {
    forall|i: int| 0 <= i < digits.len() ==> ZERO <= #[trigger] digits[i] <= ZERO + 9
}

/// The number that decimal digits write.
pub open spec fn digits_value(digits: Seq<u8>) -> nat
    decreases digits.len(),
{
    if digits.len() == 0 {
        0
    } else {
        (digits_value(digits.drop_last()) * 10 + (digits.last() - ZERO)) as nat
    }
}

/// The number of milliseconds that a `retry` value gives: decimal digits,
/// at least one, after at most one plus sign, that stay within 64 bits.
/// Anything else gives none.
pub open spec fn parse_millis(value: Seq<u8>) -> Option<u64> {
    let digits = if value.len() > 0 && value[0] == PLUS {
        value.drop_first()
    } else {
        value
    };
    if digits.len() > 0 && all_digits(digits) && digits_value(digits) <= u64::MAX {
        Some(digits_value(digits) as u64)
    } else {
        None
    }
}

/// What an event holds, each text by its UTF-8 bytes.
pub struct Fields {
    pub event: Option<Seq<u8>>,
    pub data: Option<Seq<u8>>,
    pub id: Option<Seq<u8>>,
    /// Milliseconds.
    pub retry: Option<u64>,
}

impl Fields {
    /// No field is set.
    pub open spec fn empty() -> Fields {
        Fields { event: None, data: None, id: None, retry: None }
    }

    /// Whether at least one field is set.
    pub open spec fn is_set(self) -> bool {
        self.event is Some || self.data is Some || self.id is Some || self.retry is Some
    }

    /// The fields after one more line. `event` and `id` take the value.
    /// `data` takes it too, behind a line feed if `data` was set before.
    /// `retry` takes the number that the value writes, if it writes one.
    /// Comments, other names and the empty line change nothing.
    pub open spec fn apply(self, line: Seq<u8>) -> Fields {
        let name = field_name(line);
        let value = field_value(line);
        if name == name_event() {
            Fields { event: Some(value), ..self }
        } else if name == name_data() {
            Fields {
                data: Some(
                    match self.data {
                        Some(data) => data.push(NEWLINE) + value,
                        None => value,
                    },
                ),
                ..self
            }
        } else if name == name_id() {
            Fields { id: Some(value), ..self }
        } else if name == name_retry() {
            match parse_millis(value) {
                Some(millis) => Fields { retry: Some(millis), ..self },
                None => self,
            }
        } else {
            self
        }
    }

    /// The fields after all of `lines`, first to last.
    pub open spec fn apply_all(self, lines: Seq<Seq<u8>>) -> Fields
        decreases lines.len(),
    {
        if lines.len() == 0 {
            self
        } else {
            self.apply(lines[0]).apply_all(lines.drop_first())
        }
    }

    /// The fields as they are emitted: `data` loses one line feed at its
    /// end, if it ends with one.
    pub open spec fn finalize(self) -> Fields {
        Fields {
            data: match self.data {
                Some(data) => Some(
                    if data.len() > 0 && data.last() == NEWLINE {
                        data.drop_last()
                    } else {
                        data
                    },
                ),
                None => None,
            },
            ..self
        }
    }
}

/// The lines of a block of text that is complete: every line that ends in
/// it, where a last carriage return ends one too, and what follows the
/// last line ending, if anything does.
pub open spec fn block_lines(data: Seq<u8>) -> Seq<Seq<u8>> {
    let (lines, rest) = split_all(data.push(SENTINEL));
    if rest.len() > 1 {
        lines.push(rest.drop_last())
    } else {
        lines
    }
}

/// The event that a complete block of text holds: all its lines taken into
/// one event, in its final form.
pub open spec fn decode_block(data: Seq<u8>) -> Fields {
    Fields::empty().apply_all(block_lines(data)).finalize()
}

/// The lines of a block, first line first: none for the empty block; the
/// block itself if no line ends in it; else its first line and the lines of
/// the block behind that line's ending.
pub proof fn lemma_block_lines(data: Seq<u8>)
    ensures
        data.len() == 0 ==> block_lines(data) == Seq::<Seq<u8>>::empty(),
        data.len() > 0 && scan(data.push(SENTINEL), 0) >= data.len() ==> block_lines(data)
            == seq![data],
        scan(data.push(SENTINEL), 0) < data.len() ==> block_lines(data) == seq![
            data.subrange(0, scan(data.push(SENTINEL), 0)),
        ] + block_lines(
            data.subrange(
                scan(data.push(SENTINEL), 0) + break_len(
                    data.push(SENTINEL),
                    scan(data.push(SENTINEL), 0),
                ),
                data.len() as int,
            ),
        ),
{
    let ended = data.push(SENTINEL);
    let at = scan(ended, 0);
    lemma_scan(ended, 0);
    assert(!breaks_at(ended, data.len() as int));
    if at < data.len() {
        let next = at + break_len(ended, at);
        let behind = data.subrange(next, data.len() as int);
        assert(ended.subrange(next, ended.len() as int) =~= behind.push(SENTINEL));
        assert(ended.subrange(0, at) =~= data.subrange(0, at));
        let (lines, rest) = split_all(behind.push(SENTINEL));
        assert(split_all(ended) == (seq![data.subrange(0, at)] + lines, rest));
        if rest.len() > 1 {
            assert((seq![data.subrange(0, at)] + lines).push(rest.drop_last()) =~= seq![
                data.subrange(0, at),
            ] + lines.push(rest.drop_last()));
        }
    } else {
        assert(at == ended.len());
        assert(split_all(ended) == (Seq::<Seq<u8>>::empty(), ended));
        if data.len() > 0 {
            assert(ended.drop_last() =~= data);
            assert(Seq::<Seq<u8>>::empty().push(data) =~= seq![data]);
        }
    }
}

/// An index that holds a colon, with none before it, is where `colon`
/// stops.
pub proof fn lemma_colon_is(line: Seq<u8>, from: int, at: int)
    requires
        0 <= from <= at <= line.len(),
        at < line.len() ==> line[at] == COLON,
        forall|j: int| from <= j < at ==> line[j] != COLON,
    ensures
        colon(line, from) == at,
    decreases at - from,
{
    if from < at {
        lemma_colon_is(line, from + 1, at);
    }
}

/// The number that digits write does not shrink when more digits follow.
pub proof fn lemma_digits_grow(digits: Seq<u8>, n: int)
    requires
        0 <= n <= digits.len(),
        all_digits(digits),
    ensures
        digits_value(digits.subrange(0, n)) <= digits_value(digits),
    decreases digits.len() - n,
{
    if n < digits.len() {
        let front = digits.drop_last();
        assert(front.subrange(0, n) =~= digits.subrange(0, n));
        assert(all_digits(front)) by {
            assert forall|i: int| 0 <= i < front.len() implies ZERO <= #[trigger] front[i] <= ZERO
                + 9 by {
                assert(front[i] == digits[i]);
            }
        }
        lemma_digits_grow(front, n);
        assert(digits.last() == digits[digits.len() - 1]);
    } else {
        assert(digits.subrange(0, n) =~= digits);
    }
}

/// A comment changes nothing.
pub proof fn law_comment_changes_nothing(fields: Fields, line: Seq<u8>)
    requires
        line.len() > 0,
        line[0] == COLON,
    ensures
        fields.apply(line) == fields,
{
    assert(field_name(line).len() == 0);
    assert(name_event().len() == 5);
    assert(name_data().len() == 4);
    assert(name_id().len() == 2);
    assert(name_retry().len() == 5);
}

/// A `retry` field whose value writes no number changes nothing.
pub proof fn law_bad_retry_changes_nothing(fields: Fields, line: Seq<u8>)
    requires
        field_name(line) == name_retry(),
        parse_millis(field_value(line)) is None,
    ensures
        fields.apply(line) == fields,
{
    assert(name_retry()[0] == 114);
    assert(name_event()[0] == 101);
    assert(name_data().len() == 4);
    assert(name_id().len() == 2);
    assert(name_retry().len() == 5);
}

/// Reads the milliseconds of a `retry` value.
pub fn read_millis(value: &[u8]) -> (millis: Option<u64>)
    ensures
        millis == parse_millis(value@),
{
    let len: usize = value.len();
    let start: usize = if len > 0 && value[0] == PLUS {
        1
    } else {
        0
    };
    let ghost digits = value@.subrange(start as int, len as int);
    assert(digits =~= if value@.len() > 0 && value@[0] == PLUS {
        value@.drop_first()
    } else {
        value@
    });
    if start == len {
        return None;
    }
    let mut total: u64 = 0;
    let mut i: usize = start;
    while i < len
        invariant
            start <= i <= len == value@.len(),
            digits == value@.subrange(start as int, len as int),
            digits == if value@.len() > 0 && value@[0] == PLUS {
                value@.drop_first()
            } else {
                value@
            },
            all_digits(digits.subrange(0, i - start)),
            total == digits_value(digits.subrange(0, i - start)),
        decreases len - i,
    {
        let byte: u8 = value[i];
        let ghost front = digits.subrange(0, i - start);
        let ghost next = digits.subrange(0, i - start + 1);
        proof {
            assert(next.drop_last() =~= front);
            assert(next.last() == byte);
        }
        if byte < ZERO || byte > ZERO + 9 {
            assert(!all_digits(digits)) by {
                assert(digits[i - start] == byte);
            }
            return None;
        }
        let digit: u64 = (byte - ZERO) as u64;
        proof {
            assert(all_digits(next)) by {
                assert forall|j: int| 0 <= j < next.len() implies ZERO <= #[trigger] next[j]
                    <= ZERO + 9 by {
                    if j < front.len() {
                        assert(next[j] == front[j]);
                    }
                }
            }
            if all_digits(digits) {
                lemma_digits_grow(digits, i - start + 1);
            }
        }
        if total > (u64::MAX - digit) / 10 {
            assert(total * 10 + digit > u64::MAX) by (nonlinear_arith)
                requires
                    total > (u64::MAX - digit) / 10,
                    digit <= 9,
            ;
            return None;
        }
        assert(total * 10 + digit <= u64::MAX) by (nonlinear_arith)
            requires
                total <= (u64::MAX - digit) / 10,
                digit <= 9,
        ;
        total = total * 10 + digit;
        i += 1;
    }
    assert(digits.subrange(0, i - start) =~= digits);
    Some(total)
}

/// One decoded event. A field that the stream did not set is `None`.
#[derive(Clone, Debug, PartialEq, Eq)]
pub struct Event {
    pub event: Option<String>,
    pub data: Option<String>,
    pub id: Option<String>,
    /// Milliseconds.
    pub retry: Option<u64>,
}

impl View for Event {
    type V = Fields;

    open spec fn view(&self) -> Fields {
        Fields {
            event: text_bytes(self.event),
            data: text_bytes(self.data),
            id: text_bytes(self.id),
            retry: self.retry,
        }
    }
}

impl Default for Event {
    /// The event with no field set.
    fn default() -> (event: Event)
        ensures
            event@ == Fields::empty(),
            event == (Event { event: None, data: None, id: None, retry: None }),
    {
        Event { event: None, data: None, id: None, retry: None }
    }
}

/// An event is what its fields say: two events with the same fields hold
/// the same texts and the same number.
pub proof fn law_fields_fix_event(one: Event, other: Event)
    requires
        one@ == other@,
    ensures
        one.retry == other.retry,
        match (one.event, other.event) {
            (Some(a), Some(b)) => a@ == b@,
            (None, None) => true,
            _ => false,
        },
        match (one.data, other.data) {
            (Some(a), Some(b)) => a@ == b@,
            (None, None) => true,
            _ => false,
        },
        match (one.id, other.id) {
            (Some(a), Some(b)) => a@ == b@,
            (None, None) => true,
            _ => false,
        },
{
    if let (Some(a), Some(b)) = (one.event, other.event) {
        lemma_encode_injective(a@, b@);
    }
    if let (Some(a), Some(b)) = (one.data, other.data) {
        lemma_encode_injective(a@, b@);
    }
    if let (Some(a), Some(b)) = (one.id, other.id) {
        lemma_encode_injective(a@, b@);
    }
}

/// The names that the wire format knows.
enum Name {
    Event,
    Data,
    Id,
    Retry,
    Unknown,
}

/// Tells which field name the first `end` bytes of `line` are.
fn name_of(line: &[u8], end: usize) -> (name: Name)
    requires
        end <= line@.len(),
    ensures
        name is Event <==> line@.subrange(0, end as int) == name_event(),
        name is Data <==> line@.subrange(0, end as int) == name_data(),
        name is Id <==> line@.subrange(0, end as int) == name_id(),
        name is Retry <==> line@.subrange(0, end as int) == name_retry(),
{
    let ghost given = line@.subrange(0, end as int);
    proof {
        assert(name_event().len() == 5 && name_event()[0] == 101 && name_event()[1] == 118
            && name_event()[2] == 101 && name_event()[3] == 110 && name_event()[4] == 116);
        assert(name_data().len() == 4 && name_data()[0] == 100 && name_data()[1] == 97
            && name_data()[2] == 116 && name_data()[3] == 97);
        assert(name_id().len() == 2 && name_id()[0] == 105 && name_id()[1] == 100);
        assert(name_retry().len() == 5 && name_retry()[0] == 114 && name_retry()[1] == 101
            && name_retry()[2] == 116 && name_retry()[3] == 114 && name_retry()[4] == 121);
        assert(forall|i: int| 0 <= i < end ==> given[i] == line@[i]);
    }
    if end == 5 && line[0] == 101 && line[1] == 118 && line[2] == 101 && line[3] == 110 && line[4]
        == 116 {
        assert(given =~= name_event());
        Name::Event
    } else if end == 4 && line[0] == 100 && line[1] == 97 && line[2] == 116 && line[3] == 97 {
        assert(given =~= name_data());
        Name::Data
    } else if end == 2 && line[0] == 105 && line[1] == 100 {
        assert(given =~= name_id());
        Name::Id
    } else if end == 5 && line[0] == 114 && line[1] == 101 && line[2] == 116 && line[3] == 114
        && line[4] == 121 {
        assert(given =~= name_retry());
        Name::Retry
    } else {
        Name::Unknown
    }
}

/// Takes one line feed off the end of `data`, if it ends with one.
fn strip_newline(data: String) -> (stripped: String)
    ensures
        encode_utf8(stripped@) == if encode_utf8(data@).len() > 0 && encode_utf8(data@).last()
            == NEWLINE {
            encode_utf8(data@).drop_last()
        } else {
            encode_utf8(data@)
        },
{
    let text = data.as_str();
    let bytes = text.as_bytes();
    let len: usize = bytes.len();
    if len > 0 && bytes[len - 1] == NEWLINE {
        proof {
            encode_utf8_valid_utf8(text@);
            lemma_ascii_boundary(bytes@, len - 1);
        }
        let (head, _) = text.split_at(len - 1);
        head.to_owned()
    } else {
        data
    }
}

impl Event {
    /// Whether at least one field is set.
    pub fn is_set(&self) -> (set: bool)
        ensures
            set == self@.is_set(),
    {
        self.event.is_some() || self.data.is_some() || self.id.is_some() || self.retry.is_some()
    }

    /// Takes one line of the stream into the event.
    pub fn process_field(&mut self, line: &str)
        ensures
            final(self)@ == old(self)@.apply(line.spec_bytes()),
    {
        let bytes = line.as_bytes();
        let len: usize = bytes.len();
        let mut at: usize = 0;
        while at < len && bytes[at] != COLON
            invariant
                at <= len == bytes@.len(),
                forall|j: int| 0 <= j < at ==> bytes@[j] != COLON,
            decreases len - at,
        {
            at += 1;
        }
        let start: usize = if at >= len {
            len
        } else if at + 1 < len && bytes[at + 1] == SPACE {
            at + 2
        } else {
            at + 1
        };
        proof {
            lemma_colon_is(bytes@, 0, at as int);
            encode_utf8_valid_utf8(line@);
            if at < len {
                lemma_ascii_boundary(bytes@, at as int);
                if start == at + 2 {
                    lemma_ascii_boundary(bytes@, at + 1);
                }
            } else {
                is_char_boundary_start_end_of_seq(bytes@);
            }
        }
        let (_, value) = line.split_at(start);
        assert(value.spec_bytes() == field_value(bytes@));
        match name_of(bytes, at) {
            Name::Event => {
                self.event = Some(value.to_owned());
            },
            Name::Data => {
                let data = match self.data.take() {
                    Some(mut data) => {
                        let ghost before = data@;
                        data.append("\n");
                        data.append(value);
                        proof {
                            reveal_strlit("\n");
                            let feed = "\n"@;
                            assert(is_ascii_chars(feed));
                            is_ascii_chars_encode_utf8(feed);
                            assert(encode_utf8(feed) =~= seq![NEWLINE]);
                            lemma_encode_concat(before, feed);
                            lemma_encode_concat(before + feed, value@);
                            assert(encode_utf8(before) + seq![NEWLINE] =~= encode_utf8(
                                before,
                            ).push(NEWLINE));
                        }
                        data
                    },
                    None => value.to_owned(),
                };
                self.data = Some(data);
            },
            Name::Id => {
                self.id = Some(value.to_owned());
            },
            Name::Retry => {
                match read_millis(value.as_bytes()) {
                    Some(millis) => {
                        self.retry = Some(millis);
                    },
                    None => {},
                }
            },
            Name::Unknown => {},
        }
    }

    /// Emits the event if a field is set: hands it out in its final form
    /// and leaves an event with no field set behind. Does nothing if no
    /// field is set.
    pub fn dispatch(&mut self) -> (event: Option<Event>)
        ensures
            match event {
                Some(emitted) => old(self)@.is_set() && emitted@ == old(self)@.finalize()
                    && final(self)@ == Fields::empty(),
                None => !old(self)@.is_set() && *final(self) == *old(self),
            },
    {
        if !self.is_set() {
            return None;
        }
        let data = match self.data.take() {
            Some(data) => Some(strip_newline(data)),
            None => None,
        };
        Some(Event { event: self.event.take(), data, id: self.id.take(), retry: self.retry.take() })
    }
    /// Decodes a complete block of text into the one event that its lines
    /// make up, if they set a field at all. Fails if the block is not
    /// UTF-8.
    pub fn decode(data: &[u8]) -> (decoded: Result<Option<Event>, Utf8Error>)
        ensures
            decoded is Ok <==> valid_utf8(data@),
            match decoded {
                Ok(Some(event)) => decode_block(data@).is_set() && event@ == decode_block(data@),
                Ok(None) => !decode_block(data@).is_set(),
                Err(_) => true,
            },
    {
        let text = match core::str::from_utf8(data) {
            Ok(text) => text,
            Err(error) => {
                return Err(error);
            },
        };
        let mut event = Event::default();
        let mut rest: &str = text;
        loop
            invariant_except_break
                Fields::empty().apply_all(block_lines(data@)) == event@.apply_all(
                    block_lines(rest.spec_bytes()),
                ),
            ensures
                Fields::empty().apply_all(block_lines(data@)) == event@,
            decreases rest.spec_bytes().len(),
        {
            let bytes = rest.as_bytes();
            let len: usize = bytes.len();
            let ghost ended = bytes@.push(SENTINEL);
            let ghost before = event@;
            proof {
                lemma_block_lines(bytes@);
                encode_utf8_valid_utf8(rest@);
            }
            if len == 0 {
                break ;
            }
            let mut left: usize = 0;
            while left < len && bytes[left] != LF && bytes[left] != CR
                invariant
                    left <= len == bytes@.len(),
                    ended == bytes@.push(SENTINEL),
                    forall|j: int| 0 <= j < left ==> !breaks_at(ended, j),
                decreases len - left,
            {
                left += 1;
            }
            if left == len {
                proof {
                    lemma_scan(ended, 0);
                }
                event.process_field(rest);
                assert(before.apply_all(seq![bytes@]) == before.apply(bytes@)) by {
                    assert(seq![bytes@].drop_first() =~= Seq::<Seq<u8>>::empty());
                    assert(before.apply(bytes@).apply_all(Seq::<Seq<u8>>::empty()) == before.apply(
                        bytes@,
                    ));
                }
                break ;
            }
            let right: usize = if bytes[left] == CR && left + 1 < len && bytes[left + 1] == LF {
                left + 2
            } else {
                left + 1
            };
            proof {
                lemma_scan_is(ended, 0, left as int);
                lemma_ascii_boundary(bytes@, left as int);
                if right == left + 2 {
                    lemma_ascii_boundary(bytes@, left + 1);
                }
            }
            let (line, _) = rest.split_at(left);
            let (_, next) = rest.split_at(right);
            event.process_field(line);
            proof {
                let behind = block_lines(next.spec_bytes());
                let lines = seq![line.spec_bytes()] + behind;
                assert(block_lines(bytes@) == lines);
                assert(lines.drop_first() =~= behind);
            }
            rest = next;
        }
        Ok(event.dispatch())
    }
}


} // verus!
