use tak_bench::protocol::{
    escape, inspect_event, CotStreamDecoder, DecodeError, NumberText, PositionEvent, ReceivedEvent,
};
use tak_bench::timestamp::{Timestamp, END_NANO, FIRST_NANO};
use tak_bench::xml::{validate_xml, Attribute, XmlEvent};

fn number(text: &str) -> NumberText {
    NumberText::new(text).unwrap()
}

fn event(uid: &str, correlation_id: u128) -> PositionEvent {
    PositionEvent {
        uid: uid.to_owned(),
        callsign: "A & <B>".to_owned(),
        latitude: number("-23.5505"),
        longitude: number("-46.6333"),
        altitude_m: number("760"),
        course_deg: number("0"),
        speed_mps: number("0"),
        time: Timestamp::from_unix_nanos(1_700_000_000_000_000_000),
        stale: Timestamp::from_unix_nanos(1_700_000_060_000_000_000),
        correlation_id,
    }
}

#[test]
fn decoder_accepts_fragmented_and_concatenated_events() {
    let mut decoder = CotStreamDecoder::new(1024);
    assert!(decoder.push(b"<event uid=\"a\">").unwrap().is_empty());
    let result = decoder.push(b"</event><event uid=\"b\"></event>").unwrap();
    assert_eq!(result.len(), 2);
}

#[test]
fn decoder_discards_anonymous_auth_preamble() {
    let mut decoder = CotStreamDecoder::new(1024);
    let result = decoder
        .push(b"<auth>ignored</auth><event uid=\"a\"></event>")
        .unwrap();
    assert_eq!(result.len(), 1);
}

#[test]
fn decoder_returns_the_text_of_each_event() {
    let mut decoder = CotStreamDecoder::new(1024);
    let result = decoder
        .push(b"noise<event uid=\"a\"></event> \n<event uid=\"b\">x</event>tail")
        .unwrap();
    assert_eq!(
        result,
        vec!["<event uid=\"a\"></event>", "<event uid=\"b\">x</event>"]
    );
}

#[test]
fn decoder_does_not_mind_where_the_stream_is_cut() {
    let stream: &[u8] = b"<auth>x</auth><event uid=\"a\"><x/></event>  <event></event><eve";
    let mut whole = CotStreamDecoder::new(1024);
    let expected = whole.push(stream).unwrap();
    assert_eq!(expected.len(), 2);
    for size in 1..stream.len() {
        let mut decoder = CotStreamDecoder::new(1024);
        let mut events = Vec::new();
        for part in stream.chunks(size) {
            events.extend(decoder.push(part).unwrap());
        }
        assert_eq!(events, expected);
    }
}

#[test]
fn decoder_keeps_a_split_opening_marker() {
    let mut decoder = CotStreamDecoder::new(1024);
    assert!(decoder.push(b"garbage<even").unwrap().is_empty());
    assert_eq!(decoder.push(b"t></event>").unwrap(), vec!["<event></event>"]);
}

#[test]
fn decoder_refuses_frames_beyond_the_limit() {
    let mut open_ended = CotStreamDecoder::new(10);
    assert!(matches!(
        open_ended.push(b"<event aaaaaaaaaaaa"),
        Err(DecodeError::FrameTooLarge { limit: 10 })
    ));
    let mut closed = CotStreamDecoder::new(10);
    assert!(matches!(
        closed.push(b"<event></event>"),
        Err(DecodeError::FrameTooLarge { limit: 10 })
    ));
    let mut fits = CotStreamDecoder::new(15);
    assert_eq!(fits.push(b"<event></event>").unwrap().len(), 1);
}

#[test]
fn decoder_refuses_malformed_xml() {
    let mut decoder = CotStreamDecoder::new(1024);
    assert!(matches!(
        decoder.push(b"<event></wrong></event>"),
        Err(DecodeError::Xml(_))
    ));
    assert_eq!(decoder.push(b"<event></event>").unwrap().len(), 1);
}

#[test]
fn decoder_replaces_what_is_not_utf8() {
    let mut decoder = CotStreamDecoder::new(1024);
    let events = decoder.push(b"<event uid=\"\xff\"></event>").unwrap();
    assert_eq!(events, vec!["<event uid=\"\u{fffd}\"></event>"]);
}

#[test]
fn xml_is_read_to_its_end() {
    assert!(validate_xml(b"<event><point/></event>").is_ok());
    assert!(validate_xml(b"</event>").is_err());
    assert!(validate_xml(b"<event").is_err());
}

#[test]
fn position_is_written_as_cot() {
    let id = 0x0123_4567_89ab_cdef_0123_4567_89ab_cdef;
    assert_eq!(
        event("tak-bench-'\"a", id).to_xml(),
        "<event version=\"2.0\" uid=\"tak-bench-&apos;&quot;a\" type=\"a-f-G-U-C\" \
         time=\"2023-11-14T22:13:20Z\" start=\"2023-11-14T22:13:20Z\" \
         stale=\"2023-11-14T22:14:20Z\" how=\"m-g\"><point lat=\"-23.5505\" lon=\"-46.6333\" \
         hae=\"760\" ce=\"9999999\" le=\"9999999\"/><detail><contact \
         callsign=\"A &amp; &lt;B&gt;\"/><takv device=\"tak_bench\" os=\"Linux\" \
         platform=\"tak_bench\" version=\"0.2.0\"/><track course=\"0\" speed=\"0\"/><tak_bench \
         correlation_id=\"01234567-89ab-cdef-0123-456789abcdef\"/></detail></event>"
    );
}

#[test]
fn written_position_is_received_in_any_fragments() {
    let written = event("u1", 42).to_xml();
    for size in 1..written.len() {
        let mut decoder = CotStreamDecoder::new(written.len());
        let mut events = Vec::new();
        for part in written.as_bytes().chunks(size) {
            events.extend(decoder.push(part).unwrap());
        }
        assert_eq!(events, vec![written.clone()]);
    }
}

#[test]
fn received_position_tells_who_sent_it() {
    let received = inspect_event(event("u1", 42).to_xml()).unwrap();
    assert_eq!(received.uid.as_deref(), Some("u1"));
    assert_eq!(received.event_type.as_deref(), Some("a-f-G-U-C"));
    assert_eq!(received.correlation_id, Some(42));
}

#[test]
fn inspection_takes_the_last_of_repeated_facts() {
    let received = inspect_event(
        "<event uid=\"a\" type=\"t\"><tak_bench correlation_id=\"nonsense\"/>\
         <event uid=\"b\"/></event>"
            .to_owned(),
    )
    .unwrap();
    assert_eq!(received.uid.as_deref(), Some("b"));
    assert_eq!(received.event_type.as_deref(), Some("t"));
    assert_eq!(received.correlation_id, None);
    assert!(inspect_event("<event></x>".to_owned()).is_err());
}

#[test]
fn inspection_ignores_other_elements() {
    let received = inspect_event(
        "<event><other uid=\"a\"><tak_bench id=\"1\"/></other></event>".to_owned(),
    )
    .unwrap();
    assert_eq!(received.uid, None);
    assert_eq!(received.event_type, None);
    assert_eq!(received.correlation_id, None);
}

#[test]
fn documents_without_an_event_are_refused() {
    for raw in [
        "<note/>",
        "<other uid=\"a\"><tak_bench id=\"1\"/></other>",
        "<!-- <event/> -->",
        "event",
        "",
    ] {
        assert!(matches!(
            inspect_event(raw.to_owned()),
            Err(DecodeError::NotAnEvent)
        ));
    }
    for raw in ["<event/>", "<note><event/></note>"] {
        assert_eq!(inspect_event(raw.to_owned()).unwrap().raw, raw);
    }
    assert!(matches!(
        inspect_event("<note></x>".to_owned()),
        Err(DecodeError::Xml(_))
    ));
}

#[test]
fn texts_survive_a_preamble() {
    let mut decoder = CotStreamDecoder::new(1024);
    let text = "<event uid=\"\u{e9}\u{1f30d}\"></event>";
    let stream = format!("<auth>x</auth>{text}");
    assert_eq!(decoder.push(stream.as_bytes()).unwrap(), vec![text]);
}

#[test]
fn items_are_noted_one_by_one() {
    let mut received = ReceivedEvent {
        raw: String::new(),
        uid: None,
        event_type: None,
        correlation_id: Some(7),
    };
    received.note(&XmlEvent::Other);
    received.note(&XmlEvent::Element {
        name: b"event".to_vec(),
        attributes: vec![
            Some(Attribute { key: b"uid".to_vec(), value: b"first".to_vec() }),
            None,
            Some(Attribute { key: b"uid".to_vec(), value: b"second".to_vec() }),
        ],
    });
    assert_eq!(received.uid.as_deref(), Some("second"));
    assert_eq!(received.correlation_id, Some(7));
    received.note(&XmlEvent::Element {
        name: b"tak_bench".to_vec(),
        attributes: vec![Some(Attribute {
            key: b"correlation_id".to_vec(),
            value: b"00000000-0000-0000-0000-00000000000a".to_vec(),
        })],
    });
    assert_eq!(received.correlation_id, Some(10));
}

#[test]
fn text_is_escaped() {
    assert_eq!(escape("a&b<c>d\"e'f"), "a&amp;b&lt;c&gt;d&quot;e&apos;f");
}

#[test]
fn numbers_hold_no_markup() {
    assert!(NumberText::new("1<2").is_none());
    assert_eq!(NumberText::new("-1.5").unwrap().as_str(), "-1.5");
}

#[test]
fn moments_have_texts_between_the_years_0_and_9999() {
    assert_eq!(Timestamp::from_unix_nanos(0).to_text(), "1970-01-01T00:00:00Z");
    let ahead = Timestamp { local_nanos: 500_000_000, offset_minutes: 150 };
    assert_eq!(ahead.to_text(), "1970-01-01T00:00:00.5+02:30");
    assert!(Timestamp::from_unix_nanos(FIRST_NANO).is_valid());
    assert!(!Timestamp::from_unix_nanos(FIRST_NANO - 1).is_valid());
    assert!(!Timestamp::from_unix_nanos(END_NANO).is_valid());
    assert_eq!(
        Timestamp::from_unix_nanos(FIRST_NANO).to_text(),
        "0000-01-01T00:00:00Z"
    );
    assert_eq!(
        Timestamp::from_unix_nanos(END_NANO - 1).to_text(),
        "9999-12-31T23:59:59.999999999Z"
    );
    assert!(Timestamp::from_unix_nanos(END_NANO - 1).plus_secs(1).is_none());
}
