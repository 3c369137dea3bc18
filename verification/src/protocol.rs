//! CoT event construction and inspection.
use crate::correlation::{self, format_uuid, parse_uuid};
use crate::framing;
use crate::markup;
use crate::tags::{self, append_close, append_empty, append_open, Tag};
use crate::text::{self, chars_of, lossy_text};
use crate::timestamp::{self, Timestamp};
use crate::xml::{self, next_event, open_document, Attribute, XmlEvent, XmlItem};
use vstd::prelude::*;
use vstd::string::*;
use vstd::utf8::*;

pub use crate::framing::CotStreamDecoder;

verus! {

/// The version of this library, as events and reports tell it.
pub fn version() -> (version: &'static str)
    ensures
        version@ == "0.2.0"@,
{
    "0.2.0"
}

/// Why received bytes are not CoT events.
#[derive(Debug)]
pub enum DecodeError {
    /// More than `limit` bytes arrived without a complete event.
    FrameTooLarge { limit: usize },
    /// The event is not well-formed XML.
    Xml(quick_xml::Error),
    /// The document is well-formed XML and holds no event.
    NotAnEvent,
}

/// A character of a number's text.
pub open spec fn is_number_char(c: char) -> bool {
    '0' <= c <= '9' || c == '-' || c == '.' || c == 'i' || c == 'n' || c == 'f' || c == 'N' || c
        == 'a'
}

/// The text of a number. Its view is that text.
#[derive(Debug, PartialEq, Eq)]
pub struct NumberText {
    text: String,
}

impl Clone for NumberText {
    fn clone(&self) -> (copy: NumberText)
        ensures
            copy@ == self@,
    {
        proof {
            use_type_invariant(self);
        }
        NumberText { text: self.text.clone() }
    }
}

impl View for NumberText {
    type V = Seq<char>;

    closed spec fn view(&self) -> Seq<char> {
        self.text@
    }
}

impl NumberText {
    #[verifier::type_invariant]
    spec fn of_number_chars(self) -> bool {
        forall|i: int| 0 <= i < self.text@.len() ==> is_number_char(#[trigger] self.text@[i])
    }

    /// Takes a text that holds digits, signs, decimal points and the letters of `inf` and `NaN`.
    pub fn new(number: &str) -> (result: Option<NumberText>)
        ensures
            result is Some <==> forall|i: int|
                0 <= i < number@.len() ==> is_number_char(#[trigger] number@[i]),
            result matches Some(taken) ==> taken@ == number@,
    {
        let chars = chars_of(number);
        let mut i: usize = 0;
        while i < chars.len()
            invariant
                i <= chars.len(),
                chars@ == number@,
                forall|j: int| 0 <= j < i ==> is_number_char(#[trigger] number@[j]),
            decreases chars.len() - i,
        {
            let c = chars[i];
            if !(('0' <= c && c <= '9') || c == '-' || c == '.' || c == 'i' || c == 'n' || c == 'f'
                || c == 'N' || c == 'a') {
                assert(!is_number_char(number@[i as int]));
                return None;
            }
            i = i + 1;
        }
        let text = number.to_owned();
        Some(NumberText { text })
    }

    /// The text.
    pub fn as_str(&self) -> (text: &str)
        ensures
            text@ == self@,
            forall|i: int| 0 <= i < text@.len() ==> is_number_char(#[trigger] text@[i]),
    {
        proof {
            use_type_invariant(self);
        }
        self.text.as_str()
    }
}

/// A position report of a participant.
#[derive(Clone, Debug, PartialEq, Eq)]
pub struct PositionEvent {
    pub uid: String,
    pub callsign: String,
    pub latitude: NumberText,
    pub longitude: NumberText,
    pub altitude_m: NumberText,
    pub course_deg: NumberText,
    pub speed_mps: NumberText,
    pub time: Timestamp,
    pub stale: Timestamp,
    pub correlation_id: u128,
}

/// How a character is written in an attribute's value.
pub open spec fn escaped_char(c: char) -> Seq<char> {
    if c == '&' {
        "&amp;"@
    } else if c == '<' {
        "&lt;"@
    } else if c == '>' {
        "&gt;"@
    } else if c == '"' {
        "&quot;"@
    } else if c == '\'' {
        "&apos;"@
    } else {
        seq![c]
    }
}

/// How a text is written in an attribute's value.
pub open spec fn escaped(value: Seq<char>) -> Seq<char>
    decreases value.len(),
{
    if value.len() == 0 {
        Seq::empty()
    } else {
        escaped(value.drop_last()) + escaped_char(value.last())
    }
}

/// Writes a text as an attribute's value.
pub fn escape(value: &str) -> (result: String)
    ensures
        result@ == escaped(value@),
{
    let chars = chars_of(value);
    let mut result = String::new();
    let mut i: usize = 0;
    while i < chars.len()
        invariant
            i <= chars.len(),
            chars@ == value@,
            result@ == escaped(value@.take(i as int)),
        decreases chars.len() - i,
    {
        proof {
            assert(value@.take(i + 1).drop_last() =~= value@.take(i as int));
        }
        let c = chars[i];
        if c == '&' {
            result.append("&amp;");
        } else if c == '<' {
            result.append("&lt;");
        } else if c == '>' {
            result.append("&gt;");
        } else if c == '"' {
            result.append("&quot;");
        } else if c == '\'' {
            result.append("&apos;");
        } else {
            let ghost before = result@;
            result.push(c);
            assert(before + seq![c] =~= before.push(c));
        }
        i = i + 1;
    }
    proof {
        assert(value@.take(value@.len() as int) =~= value@);
    }
    result
}

/// What is written in an attribute's value holds neither markup nor quotation marks.
pub proof fn lemma_escaped_is_plain(value: Seq<char>)
    ensures
        tags::is_plain_value(escaped(value)),
    decreases value.len(),
{
    if value.len() > 0 {
        lemma_escaped_is_plain(value.drop_last());
        reveal_strlit("&amp;");
        reveal_strlit("&lt;");
        reveal_strlit("&gt;");
        reveal_strlit("&quot;");
        reveal_strlit("&apos;");
        let before = escaped(value.drop_last());
        let last = escaped_char(value.last());
        assert forall|i: int| 0 <= i < escaped(value).len() implies #[trigger] escaped(value)[i]
            != '<' && escaped(value)[i] != '>' && escaped(value)[i] != '"' by {
            if i < before.len() {
                assert(escaped(value)[i] == before[i]);
            } else {
                assert(escaped(value)[i] == last[i - before.len()]);
            }
        }
    }
}

impl PositionEvent {
    /// The text of the time of the event.
    pub open spec fn time_text(self) -> Seq<char> {
        timestamp::rfc3339_text(self.time.local_nanos, self.time.offset_minutes)
    }

    /// The text of the time at which the event is stale.
    pub open spec fn stale_text(self) -> Seq<char> {
        timestamp::rfc3339_text(self.stale.local_nanos, self.stale.offset_minutes)
    }

    /// The tag that opens the event.
    pub open spec fn event_tag(self) -> Tag {
        Tag::Open {
            name: "event"@,
            attributes: seq![
                ("version"@, "2.0"@),
                ("uid"@, escaped(self.uid@)),
                ("type"@, "a-f-G-U-C"@),
                ("time"@, self.time_text()),
                ("start"@, self.time_text()),
                ("stale"@, self.stale_text()),
                ("how"@, "m-g"@),
            ],
        }
    }

    /// The tag that tells the position.
    pub open spec fn point_tag(self) -> Tag {
        Tag::Empty {
            name: "point"@,
            attributes: seq![
                ("lat"@, self.latitude@),
                ("lon"@, self.longitude@),
                ("hae"@, self.altitude_m@),
                ("ce"@, "9999999"@),
                ("le"@, "9999999"@),
            ],
        }
    }

    /// The tag that tells the call sign.
    pub open spec fn contact_tag(self) -> Tag {
        Tag::Empty { name: "contact"@, attributes: seq![("callsign"@, escaped(self.callsign@))] }
    }

    /// The tag that tells the software.
    pub open spec fn takv_tag(self) -> Tag {
        Tag::Empty {
            name: "takv"@,
            attributes: seq![
                ("device"@, "tak_bench"@),
                ("os"@, "Linux"@),
                ("platform"@, "tak_bench"@),
                ("version"@, "0.2.0"@),
            ],
        }
    }

    /// The tag that tells the movement.
    pub open spec fn track_tag(self) -> Tag {
        Tag::Empty {
            name: "track"@,
            attributes: seq![("course"@, self.course_deg@), ("speed"@, self.speed_mps@)],
        }
    }

    /// The tag that tells the correlation identifier.
    pub open spec fn extension_tag(self) -> Tag {
        Tag::Empty {
            name: "tak_bench"@,
            attributes: seq![("correlation_id"@, correlation::uuid_text(self.correlation_id))],
        }
    }

    /// The tags of the event's document.
    pub open spec fn tags(self) -> Seq<Tag> {
        seq![
            self.event_tag(),
            self.point_tag(),
            Tag::Open { name: "detail"@, attributes: seq![] },
            self.contact_tag(),
            self.takv_tag(),
            self.track_tag(),
            self.extension_tag(),
            Tag::Close { name: "detail"@ },
            Tag::Close { name: "event"@ },
        ]
    }

    /// The event as an XML document.
    pub open spec fn xml_text(self) -> Seq<char> {
        tags::tags_text(self.tags())
    }

    /// Whether the numbers and times of the event hold neither markup nor quotation marks, and the
    /// text of its correlation identifier denotes it.
    pub open spec fn is_legible(self) -> bool {
        &&& tags::is_plain_value(self.time_text())
        &&& tags::is_plain_value(self.stale_text())
        &&& tags::is_plain_value(self.latitude@)
        &&& tags::is_plain_value(self.longitude@)
        &&& tags::is_plain_value(self.altitude_m@)
        &&& tags::is_plain_value(self.course_deg@)
        &&& tags::is_plain_value(self.speed_mps@)
        &&& correlation::uuid_value(correlation::uuid_text(self.correlation_id)) == Some(
            self.correlation_id,
        )
    }

    /// Writes the event as an XML document.
    pub fn to_xml(&self) -> (result: String)
        requires
            self.time.valid(),
            self.stale.valid(),
        ensures
            result@ == self.xml_text(),
            self.is_legible(),
    {
        let uid = escape(self.uid.as_str());
        let callsign = escape(self.callsign.as_str());
        let time = self.time.to_text();
        let stale = self.stale.to_text();
        let correlation_id = format_uuid(self.correlation_id);
        let mut result = String::new();
        let attributes = [
            ("version", "2.0"),
            ("uid", uid.as_str()),
            ("type", "a-f-G-U-C"),
            ("time", time.as_str()),
            ("start", time.as_str()),
            ("stale", stale.as_str()),
            ("how", "m-g"),
        ];
        append_open(&mut result, "event", &attributes);
        let ghost mut tags: Seq<Tag> = seq![];
        proof {
            assert(tags::attribute_pairs(attributes@) =~= self.event_tag()->Open_attributes);
            lemma_one_more(tags, self.event_tag(), seq![], result@);
            tags = tags.push(self.event_tag());
        }
        let ghost before = result@;
        let attributes = [
            ("lat", self.latitude.as_str()),
            ("lon", self.longitude.as_str()),
            ("hae", self.altitude_m.as_str()),
            ("ce", "9999999"),
            ("le", "9999999"),
        ];
        append_empty(&mut result, "point", &attributes);
        proof {
            assert(tags::attribute_pairs(attributes@) =~= self.point_tag()->Empty_attributes);
            lemma_one_more(tags, self.point_tag(), before, result@);
            tags = tags.push(self.point_tag());
        }
        let ghost before = result@;
        append_open(&mut result, "detail", &[]);
        let ghost detail = Tag::Open { name: "detail"@, attributes: seq![] };
        proof {
            lemma_one_more(tags, detail, before, result@);
            tags = tags.push(detail);
        }
        let ghost before = result@;
        let attributes = [("callsign", callsign.as_str())];
        append_empty(&mut result, "contact", &attributes);
        proof {
            assert(tags::attribute_pairs(attributes@) =~= self.contact_tag()->Empty_attributes);
            lemma_one_more(tags, self.contact_tag(), before, result@);
            tags = tags.push(self.contact_tag());
        }
        let ghost before = result@;
        let attributes = [
            ("device", "tak_bench"),
            ("os", "Linux"),
            ("platform", "tak_bench"),
            ("version", version()),
        ];
        append_empty(&mut result, "takv", &attributes);
        proof {
            assert(tags::attribute_pairs(attributes@) =~= self.takv_tag()->Empty_attributes);
            lemma_one_more(tags, self.takv_tag(), before, result@);
            tags = tags.push(self.takv_tag());
        }
        let ghost before = result@;
        let attributes = [
            ("course", self.course_deg.as_str()),
            ("speed", self.speed_mps.as_str()),
        ];
        append_empty(&mut result, "track", &attributes);
        proof {
            assert(tags::attribute_pairs(attributes@) =~= self.track_tag()->Empty_attributes);
            lemma_one_more(tags, self.track_tag(), before, result@);
            tags = tags.push(self.track_tag());
        }
        let ghost before = result@;
        let attributes = [("correlation_id", correlation_id.as_str())];
        append_empty(&mut result, "tak_bench", &attributes);
        proof {
            assert(tags::attribute_pairs(attributes@) =~= self.extension_tag()->Empty_attributes);
            lemma_one_more(tags, self.extension_tag(), before, result@);
            tags = tags.push(self.extension_tag());
        }
        let ghost before = result@;
        append_close(&mut result, "detail");
        proof {
            lemma_one_more(tags, Tag::Close { name: "detail"@ }, before, result@);
            tags = tags.push(Tag::Close { name: "detail"@ });
        }
        let ghost before = result@;
        append_close(&mut result, "event");
        proof {
            lemma_one_more(tags, Tag::Close { name: "event"@ }, before, result@);
            tags = tags.push(Tag::Close { name: "event"@ });
            assert(tags =~= self.tags());
        }
        result
    }
}

/// A tag appended to the text of some tags gives the text of them all.
proof fn lemma_one_more(tags: Seq<Tag>, tag: Tag, before: Seq<char>, after: Seq<char>)
    requires
        before == tags::tags_text(tags),
        after == before + tags::tag_text(tag),
    ensures
        after == tags::tags_text(tags.push(tag)),
{
    assert(tags.push(tag).drop_last() =~= tags);
}

/// The value of the last attribute with the given name.
pub open spec fn last_value(attributes: Seq<Option<(Seq<u8>, Seq<u8>)>>, key: Seq<u8>) -> Option<
    Seq<u8>,
>
    decreases attributes.len(),
{
    if attributes.len() == 0 {
        None
    } else {
        match attributes.last() {
            Some((name, value)) if name == key => Some(value),
            _ => last_value(attributes.drop_last(), key),
        }
    }
}

/// What is known of an event: its identifier, its type and its correlation identifier.
pub struct EventFacts {
    pub uid: Option<Seq<char>>,
    pub event_type: Option<Seq<char>>,
    pub correlation_id: Option<u128>,
}

/// The text of an attribute, or else what was known before.
pub open spec fn value_or(value: Option<Seq<u8>>, before: Option<Seq<char>>) -> Option<Seq<char>> {
    match value {
        Some(bytes) => Some(text::utf8_lossy(bytes)),
        None => before,
    }
}

/// What is known of an event once one more item of its document has been read.
///
/// The attributes `uid` and `type` of an element `event` and the attribute `correlation_id` of an
/// element `tak_bench` count, wherever in the document it stands. Where one comes again, the later
/// one holds. A correlation identifier that cannot be read is none.
pub open spec fn facts_with(facts: EventFacts, item: XmlItem) -> EventFacts {
    match item {
        XmlItem::Element { name, attributes } => if name == encode_utf8("event"@) {
            EventFacts {
                uid: value_or(last_value(attributes, encode_utf8("uid"@)), facts.uid),
                event_type: value_or(last_value(attributes, encode_utf8("type"@)), facts.event_type),
                ..facts
            }
        } else if name == encode_utf8("tak_bench"@) {
            EventFacts {
                correlation_id: match last_value(attributes, encode_utf8("correlation_id"@)) {
                    Some(value) => correlation::uuid_value(text::utf8_lossy(value)),
                    None => facts.correlation_id,
                },
                ..facts
            }
        } else {
            facts
        },
        _ => facts,
    }
}

/// Whether the values that count in an item keep their text, if they are UTF-8.
pub open spec fn values_keep_text(item: XmlItem) -> bool {
    item matches XmlItem::Element { name, attributes } ==> {
        &&& name == encode_utf8("event"@) ==> (last_value(
            attributes,
            encode_utf8("uid"@),
        ) matches Some(value) ==> framing::lossless(value))
        &&& name == encode_utf8("event"@) ==> (last_value(
            attributes,
            encode_utf8("type"@),
        ) matches Some(value) ==> framing::lossless(value))
        &&& name == encode_utf8("tak_bench"@) ==> (last_value(
            attributes,
            encode_utf8("correlation_id"@),
        ) matches Some(value) ==> framing::lossless(value))
    }
}

/// The bytes of the names that count.
proof fn lemma_names()
    ensures
        encode_utf8("event"@) == seq![0x65u8, 0x76, 0x65, 0x6e, 0x74],
        encode_utf8("tak_bench"@) == seq![0x74u8, 0x61, 0x6b, 0x5f, 0x62, 0x65, 0x6e, 0x63, 0x68],
        encode_utf8("uid"@) == seq![0x75u8, 0x69, 0x64],
        encode_utf8("type"@) == seq![0x74u8, 0x79, 0x70, 0x65],
        encode_utf8("correlation_id"@) == seq![
            0x63u8,
            0x6f,
            0x72,
            0x72,
            0x65,
            0x6c,
            0x61,
            0x74,
            0x69,
            0x6f,
            0x6e,
            0x5f,
            0x69,
            0x64,
        ],
{
    reveal_strlit("event");
    reveal_strlit("tak_bench");
    reveal_strlit("uid");
    reveal_strlit("type");
    reveal_strlit("correlation_id");
    is_ascii_chars_encode_utf8("event"@);
    is_ascii_chars_encode_utf8("tak_bench"@);
    is_ascii_chars_encode_utf8("uid"@);
    is_ascii_chars_encode_utf8("type"@);
    is_ascii_chars_encode_utf8("correlation_id"@);
}

/// What the items of a document tell of an event.
pub open spec fn event_facts(items: Seq<XmlItem>) -> EventFacts
    decreases items.len(),
{
    if items.len() == 0 {
        EventFacts { uid: None, event_type: None, correlation_id: None }
    } else {
        facts_with(event_facts(items.drop_last()), items.last())
    }
}

/// Metadata extracted from an incoming CoT event without interpreting its extensions.
#[derive(Clone, Debug, PartialEq, Eq)]
pub struct ReceivedEvent {
    pub raw: String,
    pub uid: Option<String>,
    pub event_type: Option<String>,
    pub correlation_id: Option<u128>,
}

/// Whether two byte strings are the same.
fn same_bytes(a: &Vec<u8>, b: &[u8]) -> (same: bool)
    ensures
        same == (a@ == b@),
{
    if a.len() != b.len() {
        return false;
    }
    let mut i: usize = 0;
    while i < a.len()
        invariant
            i <= a.len(),
            a.len() == b@.len(),
            forall|j: int| 0 <= j < i ==> a@[j] == b@[j],
        decreases a.len() - i,
    {
        if a[i] != b[i] {
            return false;
        }
        i = i + 1;
    }
    assert(a@ =~= b@);
    true
}

/// The value of the last attribute with the given name.
fn find_last<'a>(attributes: &'a Vec<Option<Attribute>>, key: &[u8]) -> (value: Option<&'a Vec<u8>>)
    ensures
        match value {
            Some(found) => last_value(xml::attribute_views(attributes@), key@) == Some(found@),
            None => last_value(xml::attribute_views(attributes@), key@) is None,
        },
{
    let ghost views = xml::attribute_views(attributes@);
    let mut left: usize = attributes.len();
    proof {
        assert(views.take(left as int) =~= views);
    }
    while left > 0
        invariant
            left <= attributes.len(),
            views == xml::attribute_views(attributes@),
            last_value(views, key@) == last_value(views.take(left as int), key@),
        decreases left,
    {
        proof {
            assert(views.take(left as int).drop_last() =~= views.take(left - 1));
        }
        if let Some(attribute) = &attributes[left - 1] {
            if same_bytes(&attribute.key, key) {
                return Some(&attribute.value);
            }
        }
        left = left - 1;
    }
    None
}

/// Whether an item of a document is an event element.
pub open spec fn is_event_item(item: XmlItem) -> bool {
    item matches XmlItem::Element { name, .. } && name == encode_utf8("event"@)
}

/// Whether a document with the given items holds an event.
pub open spec fn holds_event(items: Seq<XmlItem>) -> bool {
    exists|i: int| 0 <= i < items.len() && is_event_item(#[trigger] items[i])
}

/// Whether an item of a document is an event element.
fn is_event(found: &XmlEvent) -> (result: bool)
    ensures
        result == is_event_item(found@),
{
    proof {
        lemma_names();
    }
    match found {
        XmlEvent::Element { name, .. } => same_bytes(name, &[0x65, 0x76, 0x65, 0x6e, 0x74]),
        _ => false,
    }
}

impl ReceivedEvent {
    /// What is known of the event.
    pub open spec fn facts(self) -> EventFacts {
        EventFacts {
            uid: text::text_option(self.uid),
            event_type: text::text_option(self.event_type),
            correlation_id: self.correlation_id,
        }
    }

    /// Takes over what one more item of the event's document tells.
    pub fn note(&mut self, found: &XmlEvent)
        ensures
            final(self).facts() == facts_with(old(self).facts(), found@),
            final(self).raw == old(self).raw,
            values_keep_text(found@),
    {
        proof {
            lemma_names();
        }
        if let XmlEvent::Element { name, attributes } = found {
            if same_bytes(name, &[0x65, 0x76, 0x65, 0x6e, 0x74]) {
                if let Some(value) = find_last(attributes, &[0x75, 0x69, 0x64]) {
                    self.uid = Some(lossy_text(value.as_slice()));
                }
                if let Some(value) = find_last(attributes, &[0x74, 0x79, 0x70, 0x65]) {
                    self.event_type = Some(lossy_text(value.as_slice()));
                }
            } else if same_bytes(
                name,
                &[0x74, 0x61, 0x6b, 0x5f, 0x62, 0x65, 0x6e, 0x63, 0x68],
            ) {
                if let Some(value) = find_last(
                    attributes,
                    &[
                        0x63,
                        0x6f,
                        0x72,
                        0x72,
                        0x65,
                        0x6c,
                        0x61,
                        0x74,
                        0x69,
                        0x6f,
                        0x6e,
                        0x5f,
                        0x69,
                        0x64,
                    ],
                ) {
                    self.correlation_id = parse_uuid(lossy_text(value.as_slice()).as_str());
                }
            }
        }
    }
}

/// What an event that was sent tells to those who receive it. Its identifier is told as it was
/// written.
pub open spec fn told_by(event: PositionEvent) -> EventFacts {
    EventFacts {
        uid: Some(escaped(event.uid@)),
        event_type: Some("a-f-G-U-C"@),
        correlation_id: Some(event.correlation_id),
    }
}

/// The document of an event consists of plain tags, properly nested, and is one frame.
pub proof fn law_events_are_plain(event: PositionEvent)
    requires
        event.is_legible(),
    ensures
        tags::is_plain_document(event.tags()),
        xml::is_plain(encode_utf8(event.xml_text())),
        framing::is_single_frame(encode_utf8(event.xml_text())),
        valid_utf8(encode_utf8(event.xml_text())),
        decode_utf8(encode_utf8(event.xml_text())) == event.xml_text(),
{
    let all = event.tags();
    lemma_event_tag_plain(event);
    lemma_detail_tags_plain(event);
    assert forall|i: int| 0 <= i < all.len() implies tags::is_plain_tag(#[trigger] all[i]) by {
        assert(i == 0 || i == 1 || i == 2 || i == 3 || i == 4 || i == 5 || i == 6 || i == 7 || i
            == 8);
    }
    lemma_properly_nested(event);
    encode_utf8_valid_utf8(event.xml_text());
    encode_utf8_decode_utf8(event.xml_text());
    let rest = all.drop_last();
    reveal_strlit("detail");
    assert forall|i: int| 0 <= i < rest.len() implies tags::is_plain_tag(#[trigger] rest[i]) && (
    rest[i] matches Tag::Close { name } ==> name[0] != 'e') by {
        assert(rest[i] == all[i]);
    }
    tags::lemma_tags_open_no_closing(rest);
    let head = tags::tags_text(rest);
    lemma_starts_event(event, rest);
    let inner = head.skip(6);
    assert("<event"@ + inner =~= head);
    reveal_strlit("event");
    reveal_strlit("</event>");
    assert(tags::tag_text(all.last()) =~= "</event>"@);
    markup::lemma_single_frame(inner);
}

/// The bytes of the documents of some events.
pub open spec fn event_frames(events: Seq<PositionEvent>) -> Seq<Seq<u8>> {
    Seq::new(events.len(), |i: int| encode_utf8(events[i].xml_text()))
}

/// Events that are written directly behind each other are as many plain frames, which a decoder
/// tells apart.
pub proof fn law_batches_are_plain_frames(events: Seq<PositionEvent>, limit: nat)
    requires
        forall|i: int|
            0 <= i < events.len() ==> (#[trigger] events[i]).is_legible() && encode_utf8(
                events[i].xml_text(),
            ).len() <= limit,
    ensures
        framing::are_plain_frames(event_frames(events), limit),
{
    let frames = event_frames(events);
    assert forall|i: int| 0 <= i < frames.len() implies framing::is_single_frame(
        #[trigger] frames[i],
    ) && frames[i].len() <= limit && xml::is_plain(frames[i]) by {
        assert(events[i].is_legible());
        law_events_are_plain(events[i]);
    }
}

/// The document of an event starts with its opening marker.
proof fn lemma_starts_event(event: PositionEvent, some: Seq<Tag>)
    requires
        some.len() > 0,
        some[0] == event.event_tag(),
    ensures
        tags::tags_text(some).len() >= 6,
        tags::tags_text(some).take(6) == "<event"@,
    decreases some.len(),
{
    reveal_strlit("<event");
    reveal_strlit("event");
    if some.len() == 1 {
        let first = tags::tag_text(event.event_tag());
        reveal_with_fuel(tags::tags_text, 2);
        assert(some.drop_last() =~= Seq::<Tag>::empty());
        assert(tags::tags_text(some) =~= first);
        assert(first.take(6) =~= "<event"@);
    } else {
        let rest = some.drop_last();
        lemma_starts_event(event, rest);
        assert(tags::tags_text(some).take(6) =~= tags::tags_text(rest).take(6));
    }
}

/// The tag that opens an event is plain.
proof fn lemma_event_tag_plain(event: PositionEvent)
    requires
        event.is_legible(),
    ensures
        tags::is_plain_tag(event.event_tag()),
{
    reveal_strlit("event");
    reveal_strlit("version");
    reveal_strlit("2.0");
    reveal_strlit("uid");
    reveal_strlit("type");
    reveal_strlit("a-f-G-U-C");
    reveal_strlit("time");
    reveal_strlit("start");
    reveal_strlit("stale");
    reveal_strlit("how");
    reveal_strlit("m-g");
    lemma_escaped_is_plain(event.uid@);
    let attributes = event.event_tag()->Open_attributes;
    assert forall|i: int| 0 <= i < attributes.len() implies tags::is_plain_name(
        (#[trigger] attributes[i]).0,
    ) && tags::is_plain_value(attributes[i].1) by {
        assert(i == 0 || i == 1 || i == 2 || i == 3 || i == 4 || i == 5 || i == 6);
    }
    assert("version"@[0] == 'v' && "uid"@[0] == 'u' && "type"@[1] == 'y' && "time"@[1] == 'i'
        && "start"@[0] == 's' && "stale"@[0] == 's' && "start"@[2] == 'a' && "start"@[3] == 'r'
        && "stale"@[3] == 'l' && "how"@[0] == 'h' && "type"@[0] == 't' && "time"@[0] == 't');
    assert forall|i: int, j: int| 0 <= i < j < attributes.len() implies (
    #[trigger] attributes[i]).0 != (#[trigger] attributes[j]).0 by {
        assert(i == 0 || i == 1 || i == 2 || i == 3 || i == 4 || i == 5);
        assert(j == 1 || j == 2 || j == 3 || j == 4 || j == 5 || j == 6);
    }
}

/// The tags inside an event are plain.
proof fn lemma_detail_tags_plain(event: PositionEvent)
    requires
        event.is_legible(),
    ensures
        tags::is_plain_tag(event.point_tag()),
        tags::is_plain_tag(Tag::Open { name: "detail"@, attributes: seq![] }),
        tags::is_plain_tag(event.contact_tag()),
        tags::is_plain_tag(event.takv_tag()),
        tags::is_plain_tag(event.track_tag()),
        tags::is_plain_tag(event.extension_tag()),
        tags::is_plain_tag(Tag::Close { name: "detail"@ }),
        tags::is_plain_tag(Tag::Close { name: "event"@ }),
{
    reveal_strlit("event");
    reveal_strlit("detail");
    reveal_strlit("point");
    reveal_strlit("lat");
    reveal_strlit("lon");
    reveal_strlit("hae");
    reveal_strlit("ce");
    reveal_strlit("le");
    reveal_strlit("9999999");
    reveal_strlit("contact");
    reveal_strlit("callsign");
    reveal_strlit("takv");
    reveal_strlit("device");
    reveal_strlit("os");
    reveal_strlit("platform");
    reveal_strlit("version");
    reveal_strlit("tak_bench");
    reveal_strlit("Linux");
    reveal_strlit("0.2.0");
    reveal_strlit("track");
    reveal_strlit("course");
    reveal_strlit("speed");
    reveal_strlit("correlation_id");
    lemma_escaped_is_plain(event.callsign@);
    let point = event.point_tag()->Empty_attributes;
    assert("lat"@[1] == 'a' && "lon"@[1] == 'o' && "hae"@[0] == 'h' && "ce"@[0] == 'c' && "le"@[1]
        == 'e' && "lat"@[0] == 'l' && "lon"@[0] == 'l' && "le"@[0] == 'l');
    assert forall|i: int| 0 <= i < point.len() implies tags::is_plain_name(
        (#[trigger] point[i]).0,
    ) && tags::is_plain_value(point[i].1) by {
        assert(i == 0 || i == 1 || i == 2 || i == 3 || i == 4);
    }
    assert forall|i: int, j: int| 0 <= i < j < point.len() implies (#[trigger] point[i]).0 != (
    #[trigger] point[j]).0 by {
        assert(i == 0 || i == 1 || i == 2 || i == 3);
        assert(j == 1 || j == 2 || j == 3 || j == 4);
    }
    let takv = event.takv_tag()->Empty_attributes;
    assert("device"@[0] == 'd' && "os"@[0] == 'o' && "platform"@[0] == 'p' && "version"@[0] == 'v');
    assert forall|i: int| 0 <= i < takv.len() implies tags::is_plain_name((#[trigger] takv[i]).0)
        && tags::is_plain_value(takv[i].1) by {
        assert(i == 0 || i == 1 || i == 2 || i == 3);
    }
    assert forall|i: int, j: int| 0 <= i < j < takv.len() implies (#[trigger] takv[i]).0 != (
    #[trigger] takv[j]).0 by {
        assert(i == 0 || i == 1 || i == 2);
        assert(j == 1 || j == 2 || j == 3);
    }
    let track = event.track_tag()->Empty_attributes;
    assert("course"@[0] == 'c' && "speed"@[0] == 's');
    assert forall|i: int| 0 <= i < track.len() implies tags::is_plain_name(
        (#[trigger] track[i]).0,
    ) && tags::is_plain_value(track[i].1) by {
        assert(i == 0 || i == 1);
    }
    let id = correlation::uuid_text(event.correlation_id);
    assert forall|i: int| 0 <= i < id.len() implies #[trigger] id[i] != '<' && id[i] != '>' && id[i]
        != '"' by {}
}

/// The elements of an event's document are properly nested.
proof fn lemma_properly_nested(event: PositionEvent)
    ensures
        tags::close_all(event.tags(), Seq::empty()),
{
    reveal_with_fuel(tags::close_all, 10);
    let t0 = event.tags();
    let t1 = t0.drop_first();
    let t2 = t1.drop_first();
    let t3 = t2.drop_first();
    let t4 = t3.drop_first();
    let t5 = t4.drop_first();
    let t6 = t5.drop_first();
    let t7 = t6.drop_first();
    let t8 = t7.drop_first();
    assert(t8.drop_first().len() == 0);
    let outer = Seq::<Seq<char>>::empty().push("event"@);
    let inner = outer.push("detail"@);
    assert(inner.drop_last() =~= outer);
    assert(outer.drop_last() =~= Seq::<Seq<char>>::empty());
    assert(t8[0] == Tag::Close { name: "event"@ });
    assert(tags::close_all(t8, outer));
    assert(t7[0] == Tag::Close { name: "detail"@ });
    assert(tags::close_all(t7, inner));
    assert(t6[0] == event.extension_tag());
    assert(tags::close_all(t6, inner));
    assert(t5[0] == event.track_tag());
    assert(tags::close_all(t5, inner));
    assert(t4[0] == event.takv_tag());
    assert(tags::close_all(t4, inner));
    assert(t3[0] == event.contact_tag());
    assert(tags::close_all(t3, inner));
    assert(t2[0] == Tag::Open { name: "detail"@, attributes: seq![] });
    assert(tags::close_all(t2, outer));
    assert(t1[0] == event.point_tag());
    assert(tags::close_all(t1, outer));
}

/// Different texts have different bytes.
proof fn lemma_encoding_tells_apart(a: Seq<char>, b: Seq<char>)
    ensures
        encode_utf8(a) == encode_utf8(b) <==> a == b,
{
    encode_utf8_decode_utf8(a);
    encode_utf8_decode_utf8(b);
}

/// The value of the only attribute with a name.
proof fn lemma_only_value(attributes: Seq<(Seq<char>, Seq<char>)>, key: Seq<char>, at: int)
    requires
        tags::are_plain_attributes(attributes),
        0 <= at < attributes.len(),
        attributes[at].0 == key,
    ensures
        last_value(tags::encoded(attributes), encode_utf8(key)) == Some(
            encode_utf8(attributes[at].1),
        ),
    decreases attributes.len(),
{
    let all = tags::encoded(attributes);
    let last = attributes.len() - 1;
    lemma_encoding_tells_apart(attributes[last].0, key);
    if at < last {
        let rest = attributes.drop_last();
        assert(attributes[last].0 != attributes[at].0);
        assert forall|i: int| 0 <= i < rest.len() implies tags::is_plain_name(
            (#[trigger] rest[i]).0,
        ) && tags::is_plain_value(rest[i].1) by {
            assert(rest[i] == attributes[i]);
        }
        assert forall|i: int, j: int| 0 <= i < j < rest.len() implies (#[trigger] rest[i]).0 != (
        #[trigger] rest[j]).0 by {
            assert(rest[i] == attributes[i] && rest[j] == attributes[j]);
        }
        lemma_only_value(rest, key, at);
        assert(all.drop_last() =~= tags::encoded(rest));
    }
}

/// An item that is neither an event nor the extension tells nothing.
proof fn lemma_tells_nothing(facts: EventFacts, tag: Tag, name: Seq<char>)
    requires
        tag matches Tag::Empty { name: own, .. } ==> own == name,
        tag matches Tag::Open { name: own, .. } ==> own == name,
        name != "event"@,
        name != "tak_bench"@,
    ensures
        facts_with(facts, tags::tag_item(tag)) == facts,
{
    lemma_encoding_tells_apart(name, "event"@);
    lemma_encoding_tells_apart(name, "tak_bench"@);
}

/// Whoever reads the tags of an event's document learns what the event tells.
proof fn lemma_event_is_understood(event: PositionEvent, items: Seq<XmlItem>)
    requires
        event.is_legible(),
        xml::reads_tags(encode_utf8(event.xml_text()), items),
        forall|i: int| 0 <= i < items.len() - 1 ==> values_keep_text(#[trigger] items[i]),
    ensures
        event_facts(items) == told_by(event),
        holds_event(items),
{
    let all = event.tags();
    law_events_are_plain(event);
    assert(items == tags::tag_items(all));
    assert(is_event_item(items[0]));
    lemma_event_tag_plain(event);
    lemma_detail_tags_plain(event);
    let head = event.event_tag()->Open_attributes;
    let tail = event.extension_tag()->Empty_attributes;
    lemma_only_value(head, "uid"@, 1);
    lemma_only_value(head, "type"@, 2);
    lemma_only_value(tail, "correlation_id"@, 0);
    encode_utf8_valid_utf8(escaped(event.uid@));
    encode_utf8_valid_utf8("a-f-G-U-C"@);
    encode_utf8_valid_utf8(correlation::uuid_text(event.correlation_id));
    encode_utf8_decode_utf8(escaped(event.uid@));
    encode_utf8_decode_utf8("a-f-G-U-C"@);
    encode_utf8_decode_utf8(correlation::uuid_text(event.correlation_id));
    lemma_names_differ();
    lemma_encoding_tells_apart("tak_bench"@, "event"@);
    assert(values_keep_text(items[0]));
    assert(values_keep_text(items[6]));
    reveal_with_fuel(event_facts, 2);
    let nothing = EventFacts { uid: None, event_type: None, correlation_id: None };
    let first = EventFacts { correlation_id: None, ..told_by(event) };
    assert(items.take(1).drop_last() =~= Seq::<XmlItem>::empty());
    assert(event_facts(items.take(1)) == first);
    assert(items.take(2).drop_last() =~= items.take(1));
    lemma_tells_nothing(first, event.point_tag(), "point"@);
    assert(event_facts(items.take(2)) == first);
    assert(items.take(3).drop_last() =~= items.take(2));
    lemma_tells_nothing(first, Tag::Open { name: "detail"@, attributes: seq![] }, "detail"@);
    assert(event_facts(items.take(3)) == first);
    assert(items.take(4).drop_last() =~= items.take(3));
    lemma_tells_nothing(first, event.contact_tag(), "contact"@);
    assert(event_facts(items.take(4)) == first);
    assert(items.take(5).drop_last() =~= items.take(4));
    lemma_tells_nothing(first, event.takv_tag(), "takv"@);
    assert(event_facts(items.take(5)) == first);
    assert(items.take(6).drop_last() =~= items.take(5));
    lemma_tells_nothing(first, event.track_tag(), "track"@);
    assert(event_facts(items.take(6)) == first);
    assert(items.take(7).drop_last() =~= items.take(6));
    assert(event_facts(items.take(7)) == told_by(event));
    assert(items.take(8).drop_last() =~= items.take(7));
    assert(event_facts(items.take(8)) == told_by(event));
    assert(items.take(9).drop_last() =~= items.take(8));
    assert(event_facts(items.take(9)) == told_by(event));
    assert(items.drop_last() =~= items.take(9));
}

/// The names of an event's elements differ.
proof fn lemma_names_differ()
    ensures
        "point"@ != "event"@,
        "point"@ != "tak_bench"@,
        "detail"@ != "event"@,
        "detail"@ != "tak_bench"@,
        "contact"@ != "event"@,
        "contact"@ != "tak_bench"@,
        "takv"@ != "event"@,
        "takv"@ != "tak_bench"@,
        "track"@ != "event"@,
        "track"@ != "tak_bench"@,
        "tak_bench"@ != "event"@,
{
    reveal_strlit("event");
    reveal_strlit("point");
    reveal_strlit("detail");
    reveal_strlit("contact");
    reveal_strlit("takv");
    reveal_strlit("track");
    reveal_strlit("tak_bench");
    assert("event"@[0] == 'e' && "point"@[0] == 'p' && "detail"@[0] == 'd' && "contact"@[0] == 'c'
        && "takv"@.len() == 4 && "track"@.len() == 5 && "tak_bench"@.len() == 9);
    assert("takv"@[0] == 't' && "track"@[0] == 't' && "tak_bench"@[0] == 't');
}

/// Whether a document holds an event is known once its last item is.
proof fn lemma_holds_event(items: Seq<XmlItem>, last: XmlItem)
    ensures
        holds_event(items.push(last)) == (holds_event(items) || is_event_item(last)),
{
    let more = items.push(last);
    if holds_event(items) {
        let i = choose|i: int| 0 <= i < items.len() && is_event_item(#[trigger] items[i]);
        assert(more[i] == items[i]);
    }
    assert(more[items.len() as int] == last);
    if holds_event(more) {
        let i = choose|i: int| 0 <= i < more.len() && is_event_item(#[trigger] more[i]);
        if i < items.len() {
            assert(items[i] == more[i]);
        }
    }
}

/// Reads the metadata of an event. A document that cannot be read to its end is an error, and so is
/// one that holds no event.
pub fn inspect_event(raw: String) -> (result: Result<ReceivedEvent, DecodeError>)
    ensures
        match result {
            Ok(event) => {
                &&& xml::well_formed(encode_utf8(raw@))
                &&& holds_event(xml::xml_items(encode_utf8(raw@)))
                &&& event.raw@ == raw@
                &&& event.facts() == event_facts(xml::xml_items(encode_utf8(raw@)))
            },
            Err(DecodeError::Xml(_)) => !xml::well_formed(encode_utf8(raw@)),
            Err(DecodeError::NotAnEvent) => {
                &&& xml::well_formed(encode_utf8(raw@))
                &&& !holds_event(xml::xml_items(encode_utf8(raw@)))
            },
            Err(DecodeError::FrameTooLarge { .. }) => false,
        },
        forall|event: PositionEvent| #[trigger]
            event.xml_text() == raw@ && event.is_legible() ==> result is Ok
                && result->Ok_0.facts() == told_by(event),
{
    let document = raw.clone();
    let mut event = ReceivedEvent { raw, uid: None, event_type: None, correlation_id: None };
    let mut holds = false;
    let mut reader = open_document(document.as_str().as_bytes());
    let ghost items = xml::xml_items(encode_utf8(raw@));
    let ghost mut taken: int = 0;
    proof {
        assert(items.skip(0) =~= items);
    }
    loop
        invariant
            xml::complete_items(items),
            items == xml::xml_items(encode_utf8(raw@)),
            0 <= taken < items.len(),
            xml::remaining_items(reader) == items.skip(taken),
            event.raw@ == raw@,
            event.facts() == event_facts(items.take(taken)),
            holds == holds_event(items.take(taken)),
            xml::reads_tags(encode_utf8(raw@), items),
            forall|i: int| 0 <= i < taken ==> values_keep_text(#[trigger] items[i]),
        decreases items.len() - taken,
    {
        proof {
            assert(items.skip(taken)[0] == items[taken]);
            assert(items.skip(taken).drop_first() =~= items.skip(taken + 1));
            assert(items.take(taken + 1).drop_last() =~= items.take(taken));
        }
        match next_event(&mut reader) {
            Ok(XmlEvent::End) => {
                proof {
                    assert(items.take(taken + 1) =~= items);
                    lemma_holds_event(items.take(taken), items[taken]);
                    assert(items.take(taken).push(items[taken]) =~= items);
                    assert forall|sent: PositionEvent| #[trigger]
                        sent.xml_text() == raw@ && sent.is_legible() implies holds && event.facts()
                        == told_by(sent) by {
                        lemma_event_is_understood(sent, items);
                    }
                }
                if !holds {
                    return Err(DecodeError::NotAnEvent);
                }
                return Ok(event);
            },
            Ok(found) => {
                event.note(&found);
                holds = holds || is_event(&found);
                proof {
                    lemma_holds_event(items.take(taken), items[taken]);
                    assert(items.take(taken).push(items[taken]) =~= items.take(taken + 1));
                    taken = taken + 1;
                }
            },
            Err(error) => {
                proof {
                    assert forall|sent: PositionEvent| #[trigger]
                        sent.xml_text() == raw@ && sent.is_legible() implies false by {
                        law_events_are_plain(sent);
                        assert(items == tags::tag_items(sent.tags()));
                    }
                }
                return Err(DecodeError::Xml(error));
            },
        }
    }
}

/// The value of an attribute.
pub open spec fn value_in(attributes: Seq<(Seq<char>, Seq<char>)>, key: Seq<char>) -> Option<
    Seq<char>,
>
    decreases attributes.len(),
{
    if attributes.len() == 0 {
        None
    } else if attributes.last().0 == key {
        Some(attributes.last().1)
    } else {
        value_in(attributes.drop_last(), key)
    }
}

/// The value of an attribute of the last tag with a name.
pub open spec fn told(tags: Seq<Tag>, name: Seq<char>, key: Seq<char>) -> Option<Seq<char>>
    decreases tags.len(),
{
    if tags.len() == 0 {
        None
    } else {
        match tags.last() {
            Tag::Open { name: own, attributes } => if own == name {
                value_in(attributes, key)
            } else {
                told(tags.drop_last(), name, key)
            },
            Tag::Empty { name: own, attributes } => if own == name {
                value_in(attributes, key)
            } else {
                told(tags.drop_last(), name, key)
            },
            Tag::Close { .. } => told(tags.drop_last(), name, key),
        }
    }
}

/// A key that another attribute has tells nothing of a key before it.
proof fn lemma_value_before(
    attributes: Seq<(Seq<char>, Seq<char>)>,
    at: int,
    key: Seq<char>,
    value: Seq<char>,
)
    requires
        0 <= at < attributes.len(),
        attributes[at] == (key, value),
        forall|i: int| at < i < attributes.len() ==> (#[trigger] attributes[i]).0 != key,
    ensures
        value_in(attributes, key) == Some(value),
    decreases attributes.len(),
{
    if at < attributes.len() - 1 {
        let rest = attributes.drop_last();
        assert(attributes[attributes.len() - 1].0 != key);
        assert forall|i: int| at < i < rest.len() implies (#[trigger] rest[i]).0 != key by {
            assert(rest[i] == attributes[i]);
        }
        lemma_value_before(rest, at, key, value);
    }
}

/// The last tag with a name is the one that is told of.
proof fn lemma_told_before(
    tags: Seq<Tag>,
    at: int,
    name: Seq<char>,
    key: Seq<char>,
    attributes: Seq<(Seq<char>, Seq<char>)>,
)
    requires
        0 <= at < tags.len(),
        tags[at] == (Tag::Open { name, attributes }) || tags[at] == (Tag::Empty {
            name,
            attributes,
        }),
        forall|i: int|
            at < i < tags.len() ==> match #[trigger] tags[i] {
                Tag::Open { name: own, .. } => own != name,
                Tag::Empty { name: own, .. } => own != name,
                Tag::Close { .. } => true,
            },
    ensures
        told(tags, name, key) == value_in(attributes, key),
    decreases tags.len(),
{
    if at < tags.len() - 1 {
        let rest = tags.drop_last();
        let last = tags[tags.len() - 1];
        assert(match last {
            Tag::Open { name: own, .. } => own != name,
            Tag::Empty { name: own, .. } => own != name,
            Tag::Close { .. } => true,
        });
        assert forall|i: int| at < i < rest.len() implies match #[trigger] rest[i] {
            Tag::Open { name: own, .. } => own != name,
            Tag::Empty { name: own, .. } => own != name,
            Tag::Close { .. } => true,
        } by {
            assert(rest[i] == tags[i]);
        }
        lemma_told_before(rest, at, name, key, attributes);
    }
}

/// The names of the tags and attributes of an event are told apart.
proof fn lemma_all_names_differ()
    ensures
        "event"@ != "point"@,
        "event"@ != "detail"@,
        "event"@ != "contact"@,
        "event"@ != "takv"@,
        "event"@ != "track"@,
        "event"@ != "tak_bench"@,
        "point"@ != "detail"@,
        "point"@ != "contact"@,
        "point"@ != "takv"@,
        "point"@ != "track"@,
        "point"@ != "tak_bench"@,
        "contact"@ != "takv"@,
        "contact"@ != "track"@,
        "contact"@ != "tak_bench"@,
        "track"@ != "tak_bench"@,
        "uid"@ != "type"@,
        "uid"@ != "time"@,
        "uid"@ != "start"@,
        "uid"@ != "stale"@,
        "uid"@ != "how"@,
        "type"@ != "time"@,
        "type"@ != "start"@,
        "type"@ != "stale"@,
        "type"@ != "how"@,
        "time"@ != "start"@,
        "time"@ != "stale"@,
        "time"@ != "how"@,
        "start"@ != "stale"@,
        "start"@ != "how"@,
        "stale"@ != "how"@,
        "lat"@ != "lon"@,
        "lat"@ != "hae"@,
        "lat"@ != "ce"@,
        "lat"@ != "le"@,
        "lon"@ != "hae"@,
        "lon"@ != "ce"@,
        "lon"@ != "le"@,
        "hae"@ != "ce"@,
        "hae"@ != "le"@,
        "course"@ != "speed"@,
{
    reveal_strlit("event");
    reveal_strlit("point");
    reveal_strlit("detail");
    reveal_strlit("contact");
    reveal_strlit("takv");
    reveal_strlit("track");
    reveal_strlit("tak_bench");
    reveal_strlit("uid");
    reveal_strlit("type");
    reveal_strlit("time");
    reveal_strlit("start");
    reveal_strlit("stale");
    reveal_strlit("how");
    reveal_strlit("lat");
    reveal_strlit("lon");
    reveal_strlit("hae");
    reveal_strlit("ce");
    reveal_strlit("le");
    reveal_strlit("course");
    reveal_strlit("speed");
    assert("event"@[0] == 'e' && "point"@[0] == 'p' && "detail"@[0] == 'd' && "contact"@[0] == 'c');
    assert("contact"@.len() == 7 && "takv"@.len() == 4 && "track"@.len() == 5 && "tak_bench"@.len()
        == 9);
    assert("track"@[0] == 't' && "tak_bench"@[0] == 't' && "takv"@[0] == 't');
    assert("uid"@[0] == 'u' && "type"@[1] == 'y' && "time"@[1] == 'i' && "start"@[2] == 'a'
        && "stale"@[3] == 'l' && "how"@[0] == 'h');
    assert("start"@[3] == 'r' && "start"@.len() == 5 && "stale"@.len() == 5 && "type"@.len() == 4
        && "time"@.len() == 4);
    assert("type"@[0] == 't' && "time"@[0] == 't' && "start"@[0] == 's' && "stale"@[0] == 's');
    assert("lat"@[1] == 'a' && "lon"@[1] == 'o' && "hae"@[0] == 'h' && "lat"@[0] == 'l'
        && "lon"@[0] == 'l');
    assert("course"@.len() == 6 && "speed"@.len() == 5);
}

/// An event tells each of its values where it belongs: who it is and when under `event`, where under
/// `point`, its name under `contact`, how it moves under `track`, and its identifier under
/// `tak_bench`.
pub proof fn law_events_tell_their_values(event: PositionEvent)
    ensures
        told(event.tags(), "event"@, "uid"@) == Some(escaped(event.uid@)),
        told(event.tags(), "event"@, "type"@) == Some("a-f-G-U-C"@),
        told(event.tags(), "event"@, "how"@) == Some("m-g"@),
        told(event.tags(), "event"@, "time"@) == Some(
            timestamp::rfc3339_text(event.time.local_nanos, event.time.offset_minutes),
        ),
        told(event.tags(), "event"@, "start"@) == told(event.tags(), "event"@, "time"@),
        told(event.tags(), "event"@, "stale"@) == Some(
            timestamp::rfc3339_text(event.stale.local_nanos, event.stale.offset_minutes),
        ),
        told(event.tags(), "point"@, "lat"@) == Some(event.latitude@),
        told(event.tags(), "point"@, "lon"@) == Some(event.longitude@),
        told(event.tags(), "point"@, "hae"@) == Some(event.altitude_m@),
        told(event.tags(), "contact"@, "callsign"@) == Some(escaped(event.callsign@)),
        told(event.tags(), "track"@, "course"@) == Some(event.course_deg@),
        told(event.tags(), "track"@, "speed"@) == Some(event.speed_mps@),
        told(event.tags(), "tak_bench"@, "correlation_id"@) == Some(
            correlation::uuid_text(event.correlation_id),
        ),
{
    lemma_all_names_differ();
    let all = event.tags();
    let head = event.event_tag()->Open_attributes;
    let point = event.point_tag()->Empty_attributes;
    let contact = event.contact_tag()->Empty_attributes;
    let track = event.track_tag()->Empty_attributes;
    let extension = event.extension_tag()->Empty_attributes;
    lemma_told_before(all, 0, "event"@, "uid"@, head);
    lemma_told_before(all, 0, "event"@, "type"@, head);
    lemma_told_before(all, 0, "event"@, "how"@, head);
    lemma_told_before(all, 0, "event"@, "time"@, head);
    lemma_told_before(all, 0, "event"@, "start"@, head);
    lemma_told_before(all, 0, "event"@, "stale"@, head);
    lemma_value_before(head, 1, "uid"@, escaped(event.uid@));
    lemma_value_before(head, 2, "type"@, "a-f-G-U-C"@);
    lemma_value_before(head, 3, "time"@, event.time_text());
    lemma_value_before(head, 4, "start"@, event.time_text());
    lemma_value_before(head, 5, "stale"@, event.stale_text());
    lemma_value_before(head, 6, "how"@, "m-g"@);
    lemma_told_before(all, 1, "point"@, "lat"@, point);
    lemma_told_before(all, 1, "point"@, "lon"@, point);
    lemma_told_before(all, 1, "point"@, "hae"@, point);
    lemma_value_before(point, 0, "lat"@, event.latitude@);
    lemma_value_before(point, 1, "lon"@, event.longitude@);
    lemma_value_before(point, 2, "hae"@, event.altitude_m@);
    lemma_told_before(all, 3, "contact"@, "callsign"@, contact);
    lemma_value_before(contact, 0, "callsign"@, escaped(event.callsign@));
    lemma_told_before(all, 5, "track"@, "course"@, track);
    lemma_told_before(all, 5, "track"@, "speed"@, track);
    lemma_value_before(track, 0, "course"@, event.course_deg@);
    lemma_value_before(track, 1, "speed"@, event.speed_mps@);
    lemma_told_before(all, 6, "tak_bench"@, "correlation_id"@, extension);
    lemma_value_before(
        extension,
        0,
        "correlation_id"@,
        correlation::uuid_text(event.correlation_id),
    );
}

/// What a text is written as, from its first character on.
proof fn lemma_escaped_front(value: Seq<char>)
    requires
        value.len() > 0,
    ensures
        escaped(value) == escaped_char(value[0]) + escaped(value.drop_first()),
    decreases value.len(),
{
    let rest = value.drop_last();
    if value.len() == 1 {
        assert(rest =~= Seq::<char>::empty());
        assert(value.drop_first() =~= Seq::<char>::empty());
        assert(escaped(Seq::<char>::empty()) =~= Seq::<char>::empty());
        assert(value.last() == value[0]);
        assert(Seq::<char>::empty() + escaped_char(value[0]) =~= escaped_char(value[0]));
        assert(escaped_char(value[0]) + Seq::<char>::empty() =~= escaped_char(value[0]));
    } else {
        lemma_escaped_front(rest);
        assert(rest.drop_first() =~= value.drop_first().drop_last());
        assert(value.drop_first().last() == value.last());
        assert(escaped(value) =~= escaped_char(value[0]) + escaped(value.drop_first()));
    }
}

/// Characters that are written alike at the start of two texts are the same character.
proof fn lemma_escaped_char(a: char, b: char, after_a: Seq<char>, after_b: Seq<char>)
    requires
        escaped_char(a) + after_a == escaped_char(b) + after_b,
    ensures
        a == b,
        after_a == after_b,
{
    reveal_strlit("&amp;");
    reveal_strlit("&lt;");
    reveal_strlit("&gt;");
    reveal_strlit("&quot;");
    reveal_strlit("&apos;");
    let left = escaped_char(a) + after_a;
    let right = escaped_char(b) + after_b;
    assert(left[0] == right[0]);
    assert(escaped_char(a)[0] == left[0]);
    assert(escaped_char(b)[0] == right[0]);
    if left[0] == '&' {
        assert(escaped_char(a).len() >= 4 && escaped_char(b).len() >= 4);
        assert(left[1] == right[1] && left[2] == right[2]);
        assert(escaped_char(a)[1] == left[1] && escaped_char(a)[2] == left[2]);
        assert(escaped_char(b)[1] == right[1] && escaped_char(b)[2] == right[2]);
    }
    assert(a == b);
    let n = escaped_char(a).len() as int;
    assert(left.skip(n) =~= after_a);
    assert(right.skip(n) =~= after_b);
}

/// Escaping loses nothing: different texts are written differently.
pub proof fn law_escaping_loses_nothing(a: Seq<char>, b: Seq<char>)
    requires
        escaped(a) == escaped(b),
    ensures
        a == b,
    decreases a.len(),
{
    reveal_strlit("&amp;");
    reveal_strlit("&lt;");
    reveal_strlit("&gt;");
    reveal_strlit("&quot;");
    reveal_strlit("&apos;");
    if a.len() > 0 {
        lemma_escaped_front(a);
    }
    if b.len() > 0 {
        lemma_escaped_front(b);
    }
    if a.len() == 0 {
        assert(escaped(a).len() == 0);
        if b.len() > 0 {
            assert(escaped_char(b[0]).len() > 0);
            assert(escaped(b).len() > 0);
        }
        assert(a =~= b);
    } else if b.len() == 0 {
        assert(escaped_char(a[0]).len() > 0);
        assert(escaped(a).len() > 0);
        assert(escaped(b).len() == 0);
    } else {
        lemma_escaped_char(
            a[0],
            b[0],
            escaped(a.drop_first()),
            escaped(b.drop_first()),
        );
        law_escaping_loses_nothing(a.drop_first(), b.drop_first());
        assert(a =~= seq![a[0]] + a.drop_first());
        assert(b =~= seq![b[0]] + b.drop_first());
    }
}

/// Escaped texts hold no markup: neither angle brackets nor quotes. A text that holds none of these
/// and no ampersand is written as it is.
pub proof fn law_escaped_texts_hold_no_markup(value: Seq<char>)
    ensures
        forall|i: int|
            0 <= i < escaped(value).len() ==> #[trigger] escaped(value)[i] != '<' && escaped(value)[i]
                != '>' && escaped(value)[i] != '"' && escaped(value)[i] != '\'',
        (forall|i: int|
            0 <= i < value.len() ==> #[trigger] value[i] != '<' && value[i] != '>' && value[i] != '"'
                && value[i] != '\'' && value[i] != '&') ==> escaped(value) == value,
    decreases value.len(),
{
    reveal_strlit("&amp;");
    reveal_strlit("&lt;");
    reveal_strlit("&gt;");
    reveal_strlit("&quot;");
    reveal_strlit("&apos;");
    if value.len() > 0 {
        let rest = value.drop_last();
        law_escaped_texts_hold_no_markup(rest);
        let written = escaped(value);
        let before = escaped(rest);
        let last = escaped_char(value.last());
        assert forall|i: int| 0 <= i < written.len() implies #[trigger] written[i] != '<'
            && written[i] != '>' && written[i] != '"' && written[i] != '\'' by {
            if i < before.len() {
                assert(written[i] == before[i]);
            } else {
                assert(written[i] == last[i - before.len()]);
            }
        }
        if forall|i: int|
            0 <= i < value.len() ==> #[trigger] value[i] != '<' && value[i] != '>' && value[i] != '"'
                && value[i] != '\'' && value[i] != '&' {
            assert(value[value.len() - 1] == value.last());
            assert forall|i: int| 0 <= i < rest.len() implies #[trigger] rest[i] != '<' && rest[i]
                != '>' && rest[i] != '"' && rest[i] != '\'' && rest[i] != '&' by {
                assert(rest[i] == value[i]);
            }
            assert(rest + seq![value.last()] =~= value);
        }
    } else {
        assert(value =~= Seq::<char>::empty());
    }
}

/// Of an element named `event` its `uid` and `type` are read, of one named `tak_bench` the
/// identifier; any other item tells nothing.
pub proof fn law_facts_come_from_their_elements(facts: EventFacts, item: XmlItem)
    ensures
        ({
            let after = facts_with(facts, item);
            &&& !(item is Element) ==> after == facts
            &&& item matches XmlItem::Element { name, attributes } ==> {
                &&& name != encode_utf8("event"@) && name != encode_utf8("tak_bench"@) ==> after
                    == facts
                &&& name == encode_utf8("event"@) ==> after.correlation_id == facts.correlation_id
                &&& name == encode_utf8("event"@) && last_value(
                    attributes,
                    encode_utf8("uid"@),
                ) is None ==> after.uid == facts.uid
                &&& name == encode_utf8("event"@) ==> (last_value(
                    attributes,
                    encode_utf8("uid"@),
                ) matches Some(value) ==> after.uid == Some(text::utf8_lossy(value)))
                &&& name == encode_utf8("event"@) ==> (last_value(
                    attributes,
                    encode_utf8("type"@),
                ) matches Some(value) ==> after.event_type == Some(text::utf8_lossy(value)))
                &&& name != encode_utf8("event"@) ==> after.uid == facts.uid && after.event_type
                    == facts.event_type
                &&& name == encode_utf8("tak_bench"@) && name != encode_utf8("event"@) ==> (
                last_value(attributes, encode_utf8("correlation_id"@)) matches Some(value)
                    ==> after.correlation_id == correlation::uuid_value(text::utf8_lossy(value)))
            }
        }),
{
}

/// Of attributes with the same key the last one counts, and attributes with other keys, or that
/// cannot be read, do not.
pub proof fn law_last_attribute_counts(
    attributes: Seq<Option<(Seq<u8>, Seq<u8>)>>,
    key: Seq<u8>,
    other: Seq<u8>,
    value: Seq<u8>,
)
    ensures
        last_value(attributes.push(Some((key, value))), key) == Some(value),
        other != key ==> last_value(attributes.push(Some((other, value))), key) == last_value(
            attributes,
            key,
        ),
        last_value(attributes.push(None), key) == last_value(attributes, key),
        last_value(Seq::empty(), key) is None,
{
    assert(attributes.push(Some((key, value))).drop_last() =~= attributes);
    assert(attributes.push(Some((other, value))).drop_last() =~= attributes);
    assert(attributes.push(None).drop_last() =~= attributes);
}

/// Items are read in their order, each of them on top of those before, and nothing is known before
/// the first.
pub proof fn law_items_are_read_in_order(items: Seq<XmlItem>, item: XmlItem)
    ensures
        event_facts(items.push(item)) == facts_with(event_facts(items), item),
        event_facts(Seq::empty()) == (EventFacts {
            uid: None,
            event_type: None,
            correlation_id: None,
        }),
        holds_event(items.push(item)) <==> holds_event(items) || (
        item matches XmlItem::Element { name, .. } && name == encode_utf8("event"@)),
{
    let more = items.push(item);
    assert(more.drop_last() =~= items);
    assert(more[items.len() as int] == item);
    if holds_event(items) {
        let i = choose|i: int| 0 <= i < items.len() && is_event_item(#[trigger] items[i]);
        assert(more[i] == items[i]);
    }
    if holds_event(more) {
        let i = choose|i: int| 0 <= i < more.len() && is_event_item(#[trigger] more[i]);
        if i < items.len() {
            assert(items[i] == more[i]);
        }
    }
}

} // verus!
