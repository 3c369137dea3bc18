//! XML documents that consist of tags.
use crate::markup;
use crate::xml::XmlItem;
use vstd::prelude::*;
use vstd::string::*;
use vstd::utf8::*;

verus! {

/// A tag: one that opens an element, one that is an element without content, or one that closes an
/// element.
pub enum Tag {
    Open { name: Seq<char>, attributes: Seq<(Seq<char>, Seq<char>)> },
    Empty { name: Seq<char>, attributes: Seq<(Seq<char>, Seq<char>)> },
    Close { name: Seq<char> },
}

/// The text of an attribute.
pub open spec fn attribute_text(key: Seq<char>, value: Seq<char>) -> Seq<char> {
    seq![' '] + key + seq!['=', '"'] + value + seq!['"']
}

/// The text of some attributes.
pub open spec fn attributes_text(attributes: Seq<(Seq<char>, Seq<char>)>) -> Seq<char>
    decreases attributes.len(),
{
    if attributes.len() == 0 {
        Seq::empty()
    } else {
        attributes_text(attributes.drop_last()) + attribute_text(
            attributes.last().0,
            attributes.last().1,
        )
    }
}

/// The text of a tag.
pub open spec fn tag_text(tag: Tag) -> Seq<char> {
    match tag {
        Tag::Open { name, attributes } => seq!['<'] + name + attributes_text(attributes) + seq![
            '>',
        ],
        Tag::Empty { name, attributes } => seq!['<'] + name + attributes_text(attributes) + seq![
            '/',
            '>',
        ],
        Tag::Close { name } => seq!['<', '/'] + name + seq!['>'],
    }
}

/// The text of some tags, one directly behind the other.
pub open spec fn tags_text(tags: Seq<Tag>) -> Seq<char>
    decreases tags.len(),
{
    if tags.len() == 0 {
        Seq::empty()
    } else {
        tags_text(tags.drop_last()) + tag_text(tags.last())
    }
}

/// A character of a plain name: an ASCII letter or digit, or an underscore.
pub open spec fn is_name_char(c: char) -> bool {
    'a' <= c <= 'z' || 'A' <= c <= 'Z' || '0' <= c <= '9' || c == '_'
}

/// Whether a name is plain.
pub open spec fn is_plain_name(name: Seq<char>) -> bool {
    name.len() > 0 && forall|i: int| 0 <= i < name.len() ==> is_name_char(#[trigger] name[i])
}

/// Whether a value holds neither markup nor quotation marks.
pub open spec fn is_plain_value(value: Seq<char>) -> bool {
    forall|i: int|
        0 <= i < value.len() ==> #[trigger] value[i] != '<' && value[i] != '>' && value[i] != '"'
}

/// Whether attributes have plain names, each its own, and plain values.
pub open spec fn are_plain_attributes(attributes: Seq<(Seq<char>, Seq<char>)>) -> bool {
    &&& forall|i: int|
        0 <= i < attributes.len() ==> is_plain_name((#[trigger] attributes[i]).0) && is_plain_value(
            attributes[i].1,
        )
    &&& forall|i: int, j: int|
        0 <= i < j < attributes.len() ==> (#[trigger] attributes[i]).0 != (
        #[trigger] attributes[j]).0
}

/// Whether a tag has a plain name and plain attributes.
pub open spec fn is_plain_tag(tag: Tag) -> bool {
    match tag {
        Tag::Open { name, attributes } => is_plain_name(name) && are_plain_attributes(attributes),
        Tag::Empty { name, attributes } => is_plain_name(name) && are_plain_attributes(attributes),
        Tag::Close { name } => is_plain_name(name),
    }
}

/// Whether tags close the elements that are open and all that they open, each by its name.
pub open spec fn close_all(tags: Seq<Tag>, open: Seq<Seq<char>>) -> bool
    decreases tags.len(),
{
    if tags.len() == 0 {
        open.len() == 0
    } else {
        match tags[0] {
            Tag::Open { name, .. } => close_all(tags.drop_first(), open.push(name)),
            Tag::Empty { .. } => close_all(tags.drop_first(), open),
            Tag::Close { name } => open.len() > 0 && open.last() == name && close_all(
                tags.drop_first(),
                open.drop_last(),
            ),
        }
    }
}

/// Whether tags are plain and their elements properly nested.
pub open spec fn is_plain_document(tags: Seq<Tag>) -> bool {
    &&& forall|i: int| 0 <= i < tags.len() ==> is_plain_tag(#[trigger] tags[i])
    &&& close_all(tags, Seq::empty())
}

/// The bytes of attributes.
pub open spec fn encoded(attributes: Seq<(Seq<char>, Seq<char>)>) -> Seq<
    Option<(Seq<u8>, Seq<u8>)>,
> {
    Seq::new(
        attributes.len(),
        |i: int| Some((encode_utf8(attributes[i].0), encode_utf8(attributes[i].1))),
    )
}

/// What a reader makes of a tag.
pub open spec fn tag_item(tag: Tag) -> XmlItem {
    match tag {
        Tag::Open { name, attributes } => XmlItem::Element {
            name: encode_utf8(name),
            attributes: encoded(attributes),
        },
        Tag::Empty { name, attributes } => XmlItem::Element {
            name: encode_utf8(name),
            attributes: encoded(attributes),
        },
        Tag::Close { .. } => XmlItem::Other,
    }
}

/// What a reader makes of a document that consists of tags.
pub open spec fn tag_items(tags: Seq<Tag>) -> Seq<XmlItem> {
    Seq::new(
        tags.len() + 1,
        |i: int|
            if i < tags.len() {
                tag_item(tags[i])
            } else {
                XmlItem::End
            },
    )
}

/// The texts of attributes.
pub open spec fn attribute_pairs(attributes: Seq<(&str, &str)>) -> Seq<(Seq<char>, Seq<char>)> {
    Seq::new(attributes.len(), |i: int| (attributes[i].0@, attributes[i].1@))
}

/// Appends attributes.
fn append_attributes(out: &mut String, attributes: &[(&str, &str)])
    ensures
        final(out)@ == old(out)@ + attributes_text(attribute_pairs(attributes@)),
{
    let ghost start = out@;
    let ghost pairs = attribute_pairs(attributes@);
    let mut i: usize = 0;
    proof {
        assert(start + attributes_text(pairs.take(0)) =~= start);
    }
    while i < attributes.len()
        invariant
            i <= attributes.len(),
            pairs == attribute_pairs(attributes@),
            out@ == start + attributes_text(pairs.take(i as int)),
        decreases attributes.len() - i,
    {
        let ghost before = out@;
        let (key, value) = attributes[i];
        out.push(' ');
        out.append(key);
        out.push('=');
        out.push('"');
        out.append(value);
        out.push('"');
        proof {
            assert(out@ =~= before + attribute_text(key@, value@));
            assert(pairs.take(i + 1).drop_last() =~= pairs.take(i as int));
            let written = attributes_text(pairs.take(i as int));
            assert((start + written) + attribute_text(key@, value@) =~= start + (written
                + attribute_text(key@, value@)));
        }
        i = i + 1;
    }
    assert(pairs.take(pairs.len() as int) =~= pairs);
}

/// Appends a tag that opens an element.
pub fn append_open(out: &mut String, name: &str, attributes: &[(&str, &str)])
    ensures
        final(out)@ == old(out)@ + tag_text(
            Tag::Open { name: name@, attributes: attribute_pairs(attributes@) },
        ),
{
    let ghost start = out@;
    out.push('<');
    out.append(name);
    append_attributes(out, attributes);
    out.push('>');
    proof {
        let written = attributes_text(attribute_pairs(attributes@));
        assert(out@ =~= start + (seq!['<'] + name@ + written + seq!['>']));
    }
}

/// Appends a tag that is an element without content.
pub fn append_empty(out: &mut String, name: &str, attributes: &[(&str, &str)])
    ensures
        final(out)@ == old(out)@ + tag_text(
            Tag::Empty { name: name@, attributes: attribute_pairs(attributes@) },
        ),
{
    let ghost start = out@;
    out.push('<');
    out.append(name);
    append_attributes(out, attributes);
    out.push('/');
    out.push('>');
    proof {
        let written = attributes_text(attribute_pairs(attributes@));
        assert(out@ =~= start + (seq!['<'] + name@ + written + seq!['/', '>']));
    }
}

/// Appends a tag that closes an element.
pub fn append_close(out: &mut String, name: &str)
    ensures
        final(out)@ == old(out)@ + tag_text(Tag::Close { name: name@ }),
{
    let ghost start = out@;
    out.push('<');
    out.push('/');
    out.append(name);
    out.push('>');
    assert(out@ =~= start + (seq!['<', '/'] + name@ + seq!['>']));
}

/// Whether a text holds no `<`.
pub open spec fn no_markup(value: Seq<char>) -> bool {
    forall|i: int| 0 <= i < value.len() ==> #[trigger] value[i] != '<'
}

/// Plain attributes hold no markup.
proof fn lemma_attributes_hold_no_markup(attributes: Seq<(Seq<char>, Seq<char>)>)
    requires
        are_plain_attributes(attributes),
    ensures
        no_markup(attributes_text(attributes)),
    decreases attributes.len(),
{
    if attributes.len() > 0 {
        let rest = attributes.drop_last();
        let key = attributes.last().0;
        let value = attributes.last().1;
        assert forall|i: int| 0 <= i < rest.len() implies is_plain_name((#[trigger] rest[i]).0)
            && is_plain_value(rest[i].1) by {
            assert(rest[i] == attributes[i]);
        }
        assert forall|i: int, j: int| 0 <= i < j < rest.len() implies (#[trigger] rest[i]).0 != (
        #[trigger] rest[j]).0 by {
            assert(rest[i] == attributes[i] && rest[j] == attributes[j]);
        }
        lemma_attributes_hold_no_markup(rest);
        let last = attributes[attributes.len() - 1];
        assert(is_plain_name(last.0) && is_plain_value(last.1));
        let written = attribute_text(key, value);
        assert forall|i: int| 0 <= i < written.len() implies #[trigger] written[i] != '<' by {
            if 1 <= i < 1 + key.len() {
                assert(written[i] == key[i - 1]);
            } else if 3 + key.len() <= i < 3 + key.len() + value.len() {
                assert(written[i] == value[i - 3 - key.len()]);
            }
        }
    }
}

/// A plain tag, unless it closes an element whose name starts with an `e`, opens no closing tag of
/// an event.
proof fn lemma_tag_opens_no_closing(tag: Tag)
    requires
        is_plain_tag(tag),
        tag matches Tag::Close { name } ==> name[0] != 'e',
    ensures
        markup::opens_no_closing(tag_text(tag)),
{
    let written = tag_text(tag);
    match tag {
        Tag::Open { name, attributes } => {
            lemma_attributes_hold_no_markup(attributes);
            let inside = attributes_text(attributes);
            assert(is_name_char(name[0]));
            assert(written[1] == name[0]);
            assert forall|i: int| 0 < i < written.len() implies #[trigger] written[i] != '<' by {
                if i < 1 + name.len() {
                    assert(written[i] == name[i - 1]);
                } else if i < 1 + name.len() + inside.len() {
                    assert(written[i] == inside[i - 1 - name.len()]);
                }
            }
        },
        Tag::Empty { name, attributes } => {
            lemma_attributes_hold_no_markup(attributes);
            let inside = attributes_text(attributes);
            assert(is_name_char(name[0]));
            assert(written[1] == name[0]);
            assert forall|i: int| 0 < i < written.len() implies #[trigger] written[i] != '<' by {
                if i < 1 + name.len() {
                    assert(written[i] == name[i - 1]);
                } else if i < 1 + name.len() + inside.len() {
                    assert(written[i] == inside[i - 1 - name.len()]);
                }
            }
        },
        Tag::Close { name } => {
            assert(written[2] == name[0]);
            assert forall|i: int| 0 < i < written.len() implies #[trigger] written[i] != '<' by {
                if 2 <= i < 2 + name.len() {
                    assert(written[i] == name[i - 2]);
                }
            }
        },
    }
}

/// Plain tags, none of which closes an element whose name starts with an `e`, open no closing tag
/// of an event.
pub proof fn lemma_tags_open_no_closing(tags: Seq<Tag>)
    requires
        forall|i: int|
            0 <= i < tags.len() ==> is_plain_tag(#[trigger] tags[i]) && (
            tags[i] matches Tag::Close { name } ==> name[0] != 'e'),
    ensures
        markup::opens_no_closing(tags_text(tags)),
    decreases tags.len(),
{
    if tags.len() > 0 {
        let rest = tags.drop_last();
        assert forall|i: int| 0 <= i < rest.len() implies is_plain_tag(#[trigger] rest[i]) && (
        rest[i] matches Tag::Close { name } ==> name[0] != 'e') by {
            assert(rest[i] == tags[i]);
        }
        lemma_tags_open_no_closing(rest);
        assert(tags.last() == tags[tags.len() - 1]);
        lemma_tag_opens_no_closing(tags.last());
        markup::lemma_joined(tags_text(rest), tag_text(tags.last()));
    }
}

} // verus!
