//! The XML reader and what the library sees of a document.
use crate::tags::{self, Tag};
use quick_xml::events::Event;
use quick_xml::Reader;
use vstd::prelude::*;
use vstd::utf8::*;

verus! {

/// The reader of the `quick_xml` crate.
#[verifier::external_type_specification]
#[verifier::external_body]
#[verifier::reject_recursive_types(R)]
pub struct ExReader<R>(quick_xml::Reader<R>);

/// The error of the `quick_xml` crate.
#[verifier::external_type_specification]
#[verifier::external_body]
pub struct ExXmlError(quick_xml::Error);

/// An attribute of an element, as the document spells its name and its value.
#[derive(Debug)]
pub struct Attribute {
    pub key: Vec<u8>,
    pub value: Vec<u8>,
}

/// What the reader found next in a document.
///
/// Of an element it keeps the name and the attributes in order, with `None` for each one that the
/// reader could not make out.
#[derive(Debug)]
pub enum XmlEvent {
    Element { name: Vec<u8>, attributes: Vec<Option<Attribute>> },
    Other,
    End,
}

/// An item of a document: what an `XmlEvent` holds, or a place where reading fails.
pub enum XmlItem {
    Element { name: Seq<u8>, attributes: Seq<Option<(Seq<u8>, Seq<u8>)>> },
    Other,
    End,
    Failed,
}

impl View for Attribute {
    type V = (Seq<u8>, Seq<u8>);

    open spec fn view(&self) -> (Seq<u8>, Seq<u8>) {
        (self.key@, self.value@)
    }
}

/// The attributes of an element, by their views.
pub open spec fn attribute_views(attributes: Seq<Option<Attribute>>) -> Seq<
    Option<(Seq<u8>, Seq<u8>)>,
> {
    Seq::new(
        attributes.len(),
        |i: int|
            match attributes[i] {
                Some(attribute) => Some(attribute@),
                None => None,
            },
    )
}

impl View for XmlEvent {
    type V = XmlItem;

    open spec fn view(&self) -> XmlItem {
        match self {
            XmlEvent::Element { name, attributes } => XmlItem::Element {
                name: name@,
                attributes: attribute_views(attributes@),
            },
            XmlEvent::Other => XmlItem::Other,
            XmlEvent::End => XmlItem::End,
        }
    }
}

/// The items of a document, from its start to its end or to the first place where reading fails.
pub uninterp spec fn xml_items(document: Seq<u8>) -> Seq<XmlItem>;

/// The items that a reader has still to give.
pub uninterp spec fn remaining_items(reader: quick_xml::Reader<&[u8]>) -> Seq<XmlItem>;

/// Whether the items of a document come to an end or a failure, and to nothing after it.
pub open spec fn complete_items(items: Seq<XmlItem>) -> bool {
    &&& items.len() > 0
    &&& items.last() is End || items.last() is Failed
    &&& forall|i: int|
        0 <= i < items.len() - 1 ==> !(#[trigger] items[i] is End) && !(items[i] is Failed)
}

/// A document that can be read to its end.
pub open spec fn well_formed(document: Seq<u8>) -> bool {
    xml_items(document).last() is End
}

/// Whether the items of a document are its tags, if it consists of plain tags whose elements are
/// properly nested.
pub open spec fn reads_tags(document: Seq<u8>, items: Seq<XmlItem>) -> bool {
    forall|tags: Seq<Tag>|
        #![trigger tags::tags_text(tags)]
        document == encode_utf8(tags::tags_text(tags)) && tags::is_plain_document(tags) ==> items
            == tags::tag_items(tags)
}

/// Whether a document consists of plain tags whose elements are properly nested.
pub open spec fn is_plain(document: Seq<u8>) -> bool {
    exists|tags: Seq<Tag>|
        #![trigger tags::tags_text(tags)]
        document == encode_utf8(tags::tags_text(tags)) && tags::is_plain_document(tags)
}

/// Opens a document with `quick_xml::Reader::from_reader`.
///
/// The items that the reader will give are a function of the document's bytes. They are finite
/// and stop at the end of the document or at the first failure, since every item but the end
/// consumes a part of the document. Of a document that consists of plain tags, properly nested and
/// directly behind each other, they are these tags, with the attributes in the order in which they
/// are written and their values unchanged.
#[verifier::external_body]
pub(crate) fn open_document(document: &[u8]) -> (reader: Reader<&[u8]>)
    ensures
        remaining_items(reader) == xml_items(document@),
        complete_items(remaining_items(reader)),
        reads_tags(document@, remaining_items(reader)),
{
    Reader::from_reader(document)
}

/// Takes the next item of a document with `quick_xml::Reader::read_event_into`.
///
/// An error means that reading fails at this item; anything else is the item itself, a start tag
/// and an empty element alike being elements.
#[verifier::external_body]
pub(crate) fn next_event(reader: &mut Reader<&[u8]>) -> (result: Result<
    XmlEvent,
    quick_xml::Error,
>)
    requires
        remaining_items(*old(reader)).len() > 0,
    ensures
        match result {
            Ok(event) => event@ == remaining_items(*old(reader))[0],
            Err(_) => remaining_items(*old(reader))[0] is Failed,
        },
        remaining_items(*final(reader)) == remaining_items(*old(reader)).drop_first(),
{
    let mut scratch = Vec::new();
    match reader.read_event_into(&mut scratch)? {
        Event::Start(element) | Event::Empty(element) => Ok(XmlEvent::Element {
            name: element.name().as_ref().to_vec(),
            attributes: element.attributes().map(|found| found.ok().map(|attribute| Attribute {
                key: attribute.key.as_ref().to_vec(),
                value: attribute.value.into_owned(),
            })).collect(),
        }),
        Event::Eof => Ok(XmlEvent::End),
        _ => Ok(XmlEvent::Other),
    }
}

/// Reads a document to its end.
pub fn validate_xml(document: &[u8]) -> (result: Result<(), quick_xml::Error>)
    ensures
        result is Ok <==> well_formed(document@),
        result is Ok || !is_plain(document@),
{
    let mut reader = open_document(document);
    let ghost items = xml_items(document@);
    let ghost mut taken: int = 0;
    proof {
        assert(items.skip(0) =~= items);
    }
    loop
        invariant
            complete_items(items),
            reads_tags(document@, items),
            items == xml_items(document@),
            0 <= taken < items.len(),
            remaining_items(reader) == items.skip(taken),
        decreases items.len() - taken,
    {
        proof {
            assert(items.skip(taken)[0] == items[taken]);
            assert(items.skip(taken).drop_first() =~= items.skip(taken + 1));
        }
        match next_event(&mut reader) {
            Ok(XmlEvent::End) => {
                return Ok(());
            },
            Ok(_) => {
                proof {
                    taken = taken + 1;
                }
            },
            Err(error) => {
                proof {
                    if is_plain(document@) {
                        let tags = choose|tags: Seq<Tag>|
                            #![trigger tags::tags_text(tags)]
                            document@ == encode_utf8(tags::tags_text(tags))
                                && tags::is_plain_document(tags);
                        assert(items == tags::tag_items(tags));
                    }
                }
                return Err(error);
            },
        }
    }
}

} // verus!
