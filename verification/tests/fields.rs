use sse_decode::event::read_millis;
use sse_decode::{decode_data, Event};

fn event_of(lines: &[&str]) -> Event {
    let mut event = Event::default();
    for line in lines {
        event.process_field(line);
    }
    event
}

fn text(value: &str) -> Option<String> {
    Some(value.to_owned())
}

#[test]
fn the_default_event_has_no_field_set() {
    let event = Event::default();
    assert_eq!(
        event,
        Event {
            event: None,
            data: None,
            id: None,
            retry: None
        }
    );
    assert!(!event.is_set());
}

#[test]
fn each_field_name_sets_its_field() {
    assert_eq!(
        event_of(&["event: add"]),
        Event {
            event: text("add"),
            ..Event::default()
        }
    );
    assert_eq!(
        event_of(&["data: 73857293"]),
        Event {
            data: text("73857293"),
            ..Event::default()
        }
    );
    assert_eq!(
        event_of(&["id: 17"]),
        Event {
            id: text("17"),
            ..Event::default()
        }
    );
    assert_eq!(
        event_of(&["retry: 1500"]),
        Event {
            retry: Some(1500),
            ..Event::default()
        }
    );
}

#[test]
fn any_set_field_makes_the_event_set() {
    assert!(event_of(&["event"]).is_set());
    assert!(event_of(&["data"]).is_set());
    assert!(event_of(&["id"]).is_set());
    assert!(event_of(&["retry:0"]).is_set());
    assert!(!event_of(&["retry"]).is_set());
    assert!(!event_of(&[": data: x"]).is_set());
}

#[test]
fn at_most_one_leading_space_is_dropped() {
    assert_eq!(event_of(&["data:x"]).data, text("x"));
    assert_eq!(event_of(&["data: x"]).data, text("x"));
    assert_eq!(event_of(&["data:  x"]).data, text(" x"));
    assert_eq!(event_of(&["data:\tx"]).data, text("\tx"));
    assert_eq!(event_of(&["data: "]).data, text(""));
    assert_eq!(event_of(&["data:"]).data, text(""));
    assert_eq!(event_of(&["data: x "]).data, text("x "));
}

#[test]
fn the_value_starts_behind_the_first_colon() {
    assert_eq!(event_of(&["data: a: b:c"]).data, text("a: b:c"));
    assert_eq!(event_of(&["id::"]).id, text(":"));
}

#[test]
fn a_line_without_colon_is_a_name_with_an_empty_value() {
    assert_eq!(
        event_of(&["data", "id", "event"]),
        Event {
            event: text(""),
            data: text(""),
            id: text(""),
            retry: None
        }
    );
}

#[test]
fn comments_and_unknown_names_change_nothing() {
    let before = event_of(&["event: e", "data: d", "id: i", "retry: 1"]);
    let mut after = before.clone();
    for line in [
        ": data: x",
        ":",
        "",
        "datum: x",
        "Data: x",
        " data: x",
        "data : x",
        "dat",
        "events: x",
        "retry: soon",
        "i: x",
        "colour: red",
    ] {
        after.process_field(line);
    }
    assert_eq!(after, before);
}

#[test]
fn event_and_id_take_the_last_value() {
    assert_eq!(
        event_of(&["event: a", "id: 1", "event: b", "id: 2"]),
        Event {
            event: text("b"),
            id: text("2"),
            ..Event::default()
        }
    );
}

#[test]
fn data_values_are_joined_by_a_line_feed() {
    assert_eq!(event_of(&["data: a", "data: b"]).data, text("a\nb"));
    assert_eq!(
        event_of(&["data: a", "data", "data: c"]).data,
        text("a\n\nc")
    );
    assert_eq!(event_of(&["data", "data"]).data, text("\n"));
}

#[test]
fn text_beyond_ascii_is_kept_as_it_is() {
    assert_eq!(
        event_of(&["data: caf\u{e9} \u{2603}", "data: \u{1f600}:\u{e9}"]).data,
        text("caf\u{e9} \u{2603}\n\u{1f600}:\u{e9}")
    );
    assert_eq!(event_of(&["id:\u{e9}"]).id, text("\u{e9}"));
    assert_eq!(event_of(&["\u{e9}vent: x"]), Event::default());
}

#[test]
fn retry_is_a_number_of_milliseconds() {
    assert_eq!(read_millis(b"0"), Some(0));
    assert_eq!(read_millis(b"7"), Some(7));
    assert_eq!(read_millis(b"42000"), Some(42000));
    assert_eq!(read_millis(b"007"), Some(7));
    assert_eq!(read_millis(b"+15"), Some(15));
    assert_eq!(read_millis(b"18446744073709551615"), Some(u64::MAX));
    assert_eq!(read_millis(b"+18446744073709551615"), Some(u64::MAX));
    assert_eq!(read_millis(b"00018446744073709551615"), Some(u64::MAX));
}

#[test]
fn retry_that_is_no_number_is_none() {
    assert_eq!(read_millis(b""), None);
    assert_eq!(read_millis(b"+"), None);
    assert_eq!(read_millis(b"-1"), None);
    assert_eq!(read_millis(b"-0"), None);
    assert_eq!(read_millis(b"++1"), None);
    assert_eq!(read_millis(b"1+"), None);
    assert_eq!(read_millis(b" 1"), None);
    assert_eq!(read_millis(b"1 "), None);
    assert_eq!(read_millis(b"1.5"), None);
    assert_eq!(read_millis(b"1_000"), None);
    assert_eq!(read_millis(b"0x10"), None);
    assert_eq!(read_millis(b"notanumber"), None);
    assert_eq!(read_millis(b"12a"), None);
    assert_eq!(read_millis(b"18446744073709551616"), None);
    assert_eq!(read_millis(b"18446744073709551620"), None);
    assert_eq!(read_millis(b"99999999999999999999"), None);
    assert_eq!(read_millis(b"184467440737095516150"), None);
}

#[test]
fn a_bad_retry_keeps_the_retry_that_was_set() {
    assert_eq!(event_of(&["retry: 10", "retry: later"]).retry, Some(10));
    assert_eq!(event_of(&["retry: 10", "retry: 20"]).retry, Some(20));
    assert_eq!(event_of(&["retry:  10"]).retry, None);
}

#[test]
fn dispatch_hands_out_the_event_and_leaves_none_set() {
    let mut pending = event_of(&["event: e", "data: d", "id: i", "retry: 9"]);
    assert_eq!(
        pending.dispatch(),
        Some(Event {
            event: text("e"),
            data: text("d"),
            id: text("i"),
            retry: Some(9)
        })
    );
    assert_eq!(pending, Event::default());
    assert_eq!(pending.dispatch(), None);
    assert_eq!(pending, Event::default());
}

#[test]
fn dispatch_takes_one_line_feed_off_the_end_of_data() {
    assert_eq!(
        event_of(&["data: a", "data"]).dispatch().unwrap().data,
        text("a")
    );
    assert_eq!(
        event_of(&["data: a", "data", "data"])
            .dispatch()
            .unwrap()
            .data,
        text("a\n")
    );
    assert_eq!(
        event_of(&["data", "data"]).dispatch().unwrap().data,
        text("")
    );
    assert_eq!(event_of(&["data"]).dispatch().unwrap().data, text(""));
    assert_eq!(
        event_of(&["data: a", "data: b"]).dispatch().unwrap().data,
        text("a\nb")
    );
    assert_eq!(
        event_of(&["id: 1"]).dispatch(),
        Some(Event {
            id: text("1"),
            ..Event::default()
        })
    );
}

#[test]
fn a_block_decodes_to_the_event_of_its_lines() {
    assert_eq!(
        decode_data(b"event: e\ndata: d\nid: i\nretry: 3\n\n"),
        Ok(Some(Event {
            event: text("e"),
            data: text("d"),
            id: text("i"),
            retry: Some(3)
        }))
    );
    assert_eq!(
        Event::decode(b"event: e\ndata: d\nid: i\nretry: 3\n\n"),
        decode_data(b"event: e\ndata: d\nid: i\nretry: 3\n\n")
    );
}

#[test]
fn a_block_may_use_any_line_ending() {
    let expected = Ok(Some(Event {
        data: text("a\nb"),
        id: text("1"),
        ..Event::default()
    }));
    assert_eq!(Event::decode(b"data: a\ndata: b\nid: 1\n"), expected);
    assert_eq!(Event::decode(b"data: a\rdata: b\rid: 1\r"), expected);
    assert_eq!(Event::decode(b"data: a\r\ndata: b\r\nid: 1\r\n"), expected);
    assert_eq!(Event::decode(b"data: a\r\ndata: b\nid: 1\r"), expected);
}

#[test]
fn the_last_line_of_a_block_needs_no_ending() {
    assert_eq!(
        Event::decode(b"data: a\ndata: b"),
        Ok(Some(Event {
            data: text("a\nb"),
            ..Event::default()
        }))
    );
    assert_eq!(
        Event::decode(b"id"),
        Ok(Some(Event {
            id: text(""),
            ..Event::default()
        }))
    );
}

#[test]
fn blank_lines_in_a_block_change_nothing() {
    assert_eq!(
        Event::decode(b"\n\ndata: a\n\n\r\n\rdata: b\n\n"),
        Ok(Some(Event {
            data: text("a\nb"),
            ..Event::default()
        }))
    );
}

#[test]
fn a_block_that_sets_nothing_decodes_to_none() {
    assert_eq!(Event::decode(b""), Ok(None));
    assert_eq!(Event::decode(b"\n\n"), Ok(None));
    assert_eq!(Event::decode(b": only a comment\n"), Ok(None));
    assert_eq!(Event::decode(b"retry: notanumber\n\n"), Ok(None));
    assert_eq!(decode_data(b"unknown: x\n\n"), Ok(None));
}

#[test]
fn a_block_that_is_not_utf8_fails() {
    let error = Event::decode(b"data: a\ndata: \xff\n\n").unwrap_err();
    assert_eq!(error.valid_up_to(), 14);
    assert!(decode_data(b"\xc3").is_err());
    assert!(decode_data(b": \x80\n").is_err());
    assert!(decode_data(b"data: \xed\xa0\x80\n").is_err());
    assert!(decode_data(b"data: \xc0\xaf\n").is_err());
    assert_eq!(
        decode_data(b"data: \xc3\xa9\n"),
        Ok(Some(Event {
            data: text("\u{e9}"),
            ..Event::default()
        }))
    );
}

#[test]
fn a_block_gives_data_in_its_final_form() {
    assert_eq!(
        Event::decode(b"data: a\ndata\n"),
        Ok(Some(Event {
            data: text("a"),
            ..Event::default()
        }))
    );
}
