use sse_decode::{decode, Decode, DecodeError, Event, EventStream, Frame, Polled};
use std::time::Duration;

type Answer = Polled<Frame<Event, u8>, DecodeError<&'static str>>;

/// Feeds `input` in chunks of `size` bytes, pulling after each chunk until
/// the decoder asks for more, and returns every answer up to the end.
fn answers(input: &[u8], size: usize) -> Vec<Answer> {
    let mut decoder: Decode<u8, &'static str> = decode();
    let mut out = Vec::new();
    let mut chunks = input.chunks(size);
    loop {
        match decoder.poll_frame() {
            Polled::End => return out,
            Polled::Pull => match chunks.next() {
                Some(chunk) => decoder.feed(chunk),
                None => decoder.finish(),
            },
            answer => out.push(answer),
        }
    }
}

/// The events of `input`, which must decode without failure.
fn events(input: &[u8], size: usize) -> Vec<Event> {
    answers(input, size)
        .into_iter()
        .map(|answer| match answer {
            Polled::Item(Frame::Data(event)) => event,
            other => panic!("{:?}", other),
        })
        .collect()
}

/// Decodes `body` as one chunk and holds the events against `expected`.
fn check(body: &'static [u8], expected: Vec<Event>) {
    let mut decoder: Decode<u8, &'static str> = decode();
    decoder.feed(body);
    decoder.finish();
    for event in expected {
        assert_eq!(decoder.poll_frame(), Polled::Item(Frame::Data(event)));
    }
    assert_eq!(decoder.poll_frame(), Polled::End);
}

fn millis(duration: Duration) -> Option<u64> {
    Some(duration.as_millis() as u64)
}

fn text(value: &str) -> Option<String> {
    Some(value.to_owned())
}

fn data(value: &str) -> Event {
    Event {
        data: text(value),
        ..Event::default()
    }
}

#[test]
fn test_all_fields() {
    check(
        b"event: event\ndata: data\nid: id\nretry: 42000\n\nevent: foo\n\ndata: bar\n\nid: baz\n\nretry: 57000\n\n",
        vec![
            Event {
                event: Some("event".to_owned()),
                data: Some("data".to_owned()),
                id: Some("id".to_owned()),
                retry: millis(Duration::from_secs(42)),
            },
            Event {
                event: Some("foo".to_owned()),
                ..Event::default()
            },
            Event {
                data: Some("bar".to_owned()),
                ..Event::default()
            },
            Event {
                id: Some("baz".to_owned()),
                ..Event::default()
            },
            Event {
                retry: millis(Duration::from_secs(57)),
                ..Event::default()
            },
        ],
    );
}

#[test]
fn test_html_living_standard_0() {
    check(
        b"data: YHOO\ndata: +2\ndata: 10\n\n",
        vec![Event {
            data: Some("YHOO\n+2\n10".to_owned()),
            ..Event::default()
        }],
    );
}

#[test]
fn test_html_living_standard_1() {
    check(
        b": test stream\n\ndata: first event\nid: 1\n\ndata:second event\nid\n\ndata:  third event\n",
        vec![
            Event {
                data: Some("first event".to_owned()),
                id: Some("1".to_owned()),
                ..Event::default()
            },
            Event {
                data: Some("second event".to_owned()),
                id: Some("".to_owned()),
                ..Event::default()
            },
            Event {
                data: Some(" third event".to_owned()),
                ..Event::default()
            },
        ],
    );
}

#[test]
fn test_html_living_standard_2() {
    check(
        b"data\n\ndata\ndata\ndata\n\ndata:",
        vec![
            Event {
                data: Some("".to_owned()),
                ..Event::default()
            },
            Event {
                data: Some("\n".to_owned()),
                ..Event::default()
            },
        ],
    );
}

#[test]
fn test_data_only_messages() {
    check(
        b"data: some text\n\ndata: another message\ndata: with two lines\n\n",
        vec![
            Event {
                event: None,
                data: Some("some text".to_owned()),
                ..Event::default()
            },
            Event {
                event: None,
                data: Some("another message\nwith two lines".to_owned()),
                ..Event::default()
            },
        ],
    );
}

#[test]
fn test_mixing_and_matching() {
    check(
        b"event: userconnect\ndata: {\"username\": \"bobby\", \"time\": \"02:33:48\"}\n\ndata: Here's a system message of some kind that will get used\ndata: to accomplish some task.\n\nevent: usermessage\ndata: {\"username\": \"bobby\", \"time\": \"02:34:11\", \"text\": \"Hi everyone.\"}\n\n",
        vec![
            Event {
                event: Some("userconnect".to_owned()),
                data: Some(r#"{"username": "bobby", "time": "02:33:48"}"#.to_owned()),
                ..Event::default()
            },
            Event {
                event: None,
                data: Some(
                    [
                        "Here's a system message of some kind that will get used\n",
                        "to accomplish some task.",
                    ]
                    .concat(),
                ),
                ..Event::default()
            },
            Event {
                event: Some("usermessage".to_owned()),
                data: Some(
                    r#"{"username": "bobby", "time": "02:34:11", "text": "Hi everyone."}"#
                        .to_owned(),
                ),
                ..Event::default()
            },
        ],
    );
}

#[test]
fn events_do_not_depend_on_the_chunks() {
    let input: &[u8] = b": greeting\r\nevent: add\ndata: 73857293\rid: 1\r\n\r\ndata: caf\xc3\xa9\ndata: \xe2\x98\x83\n\nretry: 10\n\r\n\nid\n\ndata: tail\n";
    let whole = events(input, input.len());
    assert_eq!(
        whole,
        vec![
            Event {
                event: text("add"),
                data: text("73857293"),
                id: text("1"),
                retry: None
            },
            data("caf\u{e9}\n\u{2603}"),
            Event {
                retry: Some(10),
                ..Event::default()
            },
            Event {
                id: text(""),
                ..Event::default()
            },
            data("tail"),
        ]
    );
    for size in [1, 4, 16, 64] {
        assert_eq!(events(input, size), whole);
    }
}

#[test]
fn events_do_not_depend_on_the_line_ending() {
    let lines = [
        "event: add",
        "data: one",
        "data: two",
        "",
        ": comment",
        "id: 7",
        "retry: 250",
        "",
        "",
        "data: dangling",
    ];
    let expected = vec![
        Event {
            event: text("add"),
            data: text("one\ntwo"),
            ..Event::default()
        },
        Event {
            id: text("7"),
            retry: Some(250),
            ..Event::default()
        },
        data("dangling"),
    ];
    for ending in ["\r", "\n", "\r\n"] {
        let mut input = String::new();
        for line in lines {
            input.push_str(line);
            input.push_str(ending);
        }
        for size in [1, 3, 64, 1024] {
            assert_eq!(events(input.as_bytes(), size), expected);
        }
    }
}

#[test]
fn data_lines_are_joined() {
    assert_eq!(
        events(b"data: first\ndata: second\n\n", 64),
        vec![data("first\nsecond")]
    );
}

#[test]
fn comment_lines_are_ignored() {
    assert_eq!(events(b": hello\ndata: x\n\n", 64), vec![data("x")]);
    assert_eq!(events(b": hello\n\n:\n\n", 64), vec![]);
}

#[test]
fn a_dangling_event_is_emitted_at_the_end() {
    assert_eq!(events(b"data: only\n", 64), vec![data("only")]);
    assert_eq!(events(b"data: only\r", 64), vec![data("only")]);
    assert_eq!(events(b"data: only\r\n", 1), vec![data("only")]);
}

#[test]
fn a_line_without_ending_is_lost_at_the_end() {
    assert_eq!(events(b"data: only", 64), vec![]);
    assert_eq!(events(b"data: kept\ndata: lost", 64), vec![data("kept")]);
}

#[test]
fn a_bad_retry_is_no_error_and_sets_nothing() {
    assert_eq!(answers(b"retry: notanumber\n\n", 64), vec![]);
    assert_eq!(
        answers(b"data: x\nretry: notanumber\n\n", 64),
        vec![Polled::Item(Frame::Data(data("x")))]
    );
    assert_eq!(
        events(b"retry: 5\nretry: notanumber\n\n", 64),
        vec![Event {
            retry: Some(5),
            ..Event::default()
        }]
    );
}

#[test]
fn all_four_fields_make_one_event() {
    assert_eq!(
        events(b"event: update\ndata: payload\nid: 33\nretry: 1250\n\n", 5),
        vec![Event {
            event: text("update"),
            data: text("payload"),
            id: text("33"),
            retry: Some(1250),
        }]
    );
}

#[test]
fn bytes_that_are_not_utf8_fail_the_sequence() {
    for size in [1, 4, 64] {
        let got = answers(b"data: ok\n\ndata: \xff\xfe\n\ndata: never\n\n", size);
        assert_eq!(got.len(), 2);
        assert_eq!(got[0], Polled::Item(Frame::Data(data("ok"))));
        match &got[1] {
            Polled::Failed(DecodeError::Encoding(error)) => assert_eq!(error.valid_up_to(), 6),
            other => panic!("{:?}", other),
        }
    }
}

#[test]
fn a_failure_drops_the_pending_event_and_ends_the_sequence() {
    let mut decoder: Decode<u8, &'static str> = decode();
    decoder.feed(b"data: pending\n: \x80\ndata: later\n\n");
    assert!(matches!(
        decoder.poll_frame(),
        Polled::Failed(DecodeError::Encoding(_))
    ));
    assert!(decoder.is_done());
    assert_eq!(decoder.buffered_len(), 0);
    assert_eq!(decoder.poll_frame(), Polled::End);
    decoder.feed(b"data: more\n\n");
    decoder.finish();
    assert_eq!(decoder.buffered_len(), 0);
    assert_eq!(decoder.poll_frame(), Polled::End);
}

#[test]
fn a_comment_that_is_not_utf8_fails_too() {
    assert!(matches!(
        answers(b":\xc3\n\n", 64)[..],
        [Polled::Failed(DecodeError::Encoding(_))]
    ));
    assert!(matches!(
        answers(b"unknown\xf5: x\n", 64)[..],
        [Polled::Failed(DecodeError::Encoding(_))]
    ));
}

#[test]
fn a_character_split_across_chunks_is_still_text() {
    for size in [1, 2, 3] {
        assert_eq!(
            events(b"data: \xf0\x9f\x98\x80\n\n", size),
            vec![data("\u{1f600}")]
        );
    }
}

#[test]
fn two_events_come_in_the_order_of_the_source() {
    let input = b"id: 1\ndata: first\n\nid: 2\ndata: second\n\n";
    for size in 1..=input.len() {
        assert_eq!(
            events(input, size),
            vec![
                Event {
                    data: text("first"),
                    id: text("1"),
                    ..Event::default()
                },
                Event {
                    data: text("second"),
                    id: text("2"),
                    ..Event::default()
                },
            ]
        );
    }
}

#[test]
fn an_event_is_emitted_as_soon_as_its_blank_line_is_in() {
    let mut decoder: Decode<u8, &'static str> = decode();
    assert_eq!(decoder.poll_frame(), Polled::Pull);
    decoder.feed(b"data: a\n");
    assert_eq!(decoder.poll_frame(), Polled::Pull);
    decoder.feed(b"\r");
    assert_eq!(decoder.poll_frame(), Polled::Pull);
    assert_eq!(decoder.buffered_len(), 1);
    decoder.feed(b"data: b\n\ndata: c\n\n");
    assert_eq!(decoder.poll_frame(), Polled::Item(Frame::Data(data("a"))));
    assert_eq!(decoder.poll_frame(), Polled::Item(Frame::Data(data("b"))));
    assert_eq!(decoder.poll_frame(), Polled::Item(Frame::Data(data("c"))));
    assert_eq!(decoder.poll_frame(), Polled::Pull);
    assert!(!decoder.is_done());
    decoder.finish();
    assert_eq!(decoder.poll_frame(), Polled::End);
    assert!(decoder.is_done());
    assert_eq!(decoder.poll_frame(), Polled::End);
}

#[test]
fn blank_lines_without_fields_emit_nothing() {
    assert_eq!(events(b"\n\n\r\n\r\rdata: x\n\n\n\n", 2), vec![data("x")]);
    assert_eq!(events(b"\n\n\n", 64), vec![]);
    assert_eq!(events(b"", 64), vec![]);
}

#[test]
fn data_is_emitted_in_its_final_form() {
    assert_eq!(events(b"data: a\ndata\n\n", 64), vec![data("a")]);
    assert_eq!(events(b"data\ndata\n\n", 64), vec![data("")]);
    assert_eq!(events(b"data: a\ndata\n", 64), vec![data("a")]);
}

#[test]
fn frames_without_data_pass_through_in_place() {
    let mut decoder: Decode<u8, &'static str> = decode();
    decoder.feed(b"data: a\n\ndata: b\n");
    decoder.pass(1);
    decoder.feed(b"data: c\n\n");
    decoder.pass(2);
    assert_eq!(decoder.poll_frame(), Polled::Item(Frame::Data(data("a"))));
    assert_eq!(decoder.poll_frame(), Polled::Item(Frame::Other(1)));
    assert_eq!(
        decoder.poll_frame(),
        Polled::Item(Frame::Data(data("b\nc")))
    );
    assert_eq!(decoder.poll_frame(), Polled::Item(Frame::Other(2)));
    assert_eq!(decoder.poll_frame(), Polled::Pull);
}

#[test]
fn a_failure_of_the_source_is_handed_on_as_it_is() {
    let mut decoder: Decode<u8, &'static str> = decode();
    decoder.feed(b"data: a\n\ndata: pending\n");
    assert_eq!(decoder.poll_frame(), Polled::Item(Frame::Data(data("a"))));
    assert_eq!(decoder.poll_frame(), Polled::Pull);
    decoder.fail("connection reset");
    assert_eq!(
        decoder.poll_frame(),
        Polled::Failed(DecodeError::Source("connection reset"))
    );
    assert!(decoder.is_done());
    assert_eq!(decoder.poll_frame(), Polled::End);
    decoder.finish();
    assert_eq!(decoder.poll_frame(), Polled::End);
}

#[test]
fn a_failure_of_the_source_drops_events_not_yet_pulled() {
    let mut decoder: Decode<u8, &'static str> = decode();
    decoder.feed(b"data: a\n\n");
    decoder.fail("gone");
    assert_eq!(
        decoder.poll_frame(),
        Polled::Failed(DecodeError::Source("gone"))
    );
    assert_eq!(decoder.poll_frame(), Polled::End);
}

#[test]
fn the_event_stream_drops_frames_without_data() {
    let mut decoder: Decode<u8, &'static str> = decode();
    decoder.pass(1);
    decoder.feed(b"data: a\n\n");
    decoder.pass(2);
    decoder.pass(3);
    let mut stream: EventStream<u8, &'static str> = decoder.into_event_stream();
    assert_eq!(stream.poll_next(), Polled::Item(data("a")));
    assert_eq!(stream.poll_next(), Polled::Pull);
    assert!(!stream.is_done());
    stream.pass(4);
    stream.feed(b"data: b\n");
    assert_eq!(stream.buffered_len(), 0);
    stream.feed(b"data: c");
    assert_eq!(stream.buffered_len(), 7);
    assert_eq!(stream.poll_next(), Polled::Pull);
    stream.finish();
    assert_eq!(stream.poll_next(), Polled::Item(data("b")));
    assert_eq!(stream.poll_next(), Polled::End);
    assert!(stream.is_done());
}

#[test]
fn the_event_stream_hands_on_failures() {
    let mut stream: EventStream<u8, &'static str> = decode().into_event_stream();
    stream.feed(b"data: a\n\n");
    assert_eq!(stream.poll_next(), Polled::Item(data("a")));
    stream.pass(9);
    stream.fail("closed");
    assert_eq!(
        stream.poll_next(),
        Polled::Failed(DecodeError::Source("closed"))
    );
    assert_eq!(stream.poll_next(), Polled::End);

    let mut stream: EventStream<u8, &'static str> = decode().into_event_stream();
    stream.pass(9);
    stream.feed(b"data: \xff\n\n");
    assert!(matches!(
        stream.poll_next(),
        Polled::Failed(DecodeError::Encoding(_))
    ));
    assert_eq!(stream.poll_next(), Polled::End);
}

#[test]
fn a_block_decodes_in_a_stream_as_on_its_own() {
    let blocks: [&[u8]; 5] = [
        b"event: a\ndata: b\r\nid: c\rretry: 4\n",
        b"data: one\ndata: two\ndata\n",
        b"id\r\n",
        b": nothing\nunknown: x\n",
        b"",
    ];
    for block in blocks {
        let alone: Vec<Event> = sse_decode::decode_data(block)
            .unwrap()
            .into_iter()
            .collect();
        for size in [1, 3, 64] {
            assert_eq!(events(block, size), alone);
        }
    }
}
