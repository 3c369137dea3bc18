//! Where markup stands in a text and in its bytes.
use crate::framing;
use vstd::prelude::*;
use vstd::utf8::*;

verus! {

/// Whether no `</e` starts in a text, not even one that what follows could complete.
pub open spec fn opens_no_closing(text: Seq<char>) -> bool {
    forall|i: int| 0 <= i < text.len() && #[trigger] text[i] == '<' ==> clear_at(text, i)
}

/// Whether what follows the `<` at a position shows that it is no `</e`.
pub open spec fn clear_at(text: Seq<char>, at: int) -> bool {
    &&& at + 1 < text.len()
    &&& text[at + 1] == '/' ==> at + 2 < text.len() && text[at + 2] != 'e'
}

/// Two texts that open no closing tag open none together.
pub proof fn lemma_joined(a: Seq<char>, b: Seq<char>)
    requires
        opens_no_closing(a),
        opens_no_closing(b),
    ensures
        opens_no_closing(a + b),
{
    let both = a + b;
    assert forall|i: int| 0 <= i < both.len() && #[trigger] both[i] == '<' implies clear_at(
        both,
        i,
    ) by {
        if i < a.len() {
            assert(a[i] == '<');
        } else {
            assert(b[i - a.len()] == '<');
        }
    }
}

/// A character's bytes: itself where it is ASCII, and none that is ASCII where it is not.
proof fn lemma_scalar_bytes(c: char)
    ensures
        (c as u32) < 0x80 ==> encode_scalar(c as u32) == seq![c as u8] && (c as u8) as u32 == c as u32,
        (c as u32) >= 0x80 ==> forall|i: int|
            0 <= i < encode_scalar(c as u32).len() ==> #[trigger] encode_scalar(c as u32)[i]
                >= 0x80,
        encode_scalar(c as u32).len() > 0,
{
    let s = c as u32;
    assert(s < 0x80 ==> (s & 0x7f) as u8 == s as u8) by (bit_vector);
    assert(0xc0u8 | ((s >> 6) & 0x1f) as u8 >= 0x80) by (bit_vector);
    assert(0xe0u8 | ((s >> 12) & 0x0f) as u8 >= 0x80) by (bit_vector);
    assert(0xf0u8 | ((s >> 18) & 0x7) as u8 >= 0x80) by (bit_vector);
    assert(0x80u8 | (s & 0x3f) as u8 >= 0x80) by (bit_vector);
    assert(0x80u8 | ((s >> 6) & 0x3f) as u8 >= 0x80) by (bit_vector);
    assert(0x80u8 | ((s >> 12) & 0x3f) as u8 >= 0x80) by (bit_vector);
}

/// The bytes of two texts together are the bytes of the one and the bytes of the other.
pub proof fn lemma_encode_joined(a: Seq<char>, b: Seq<char>)
    ensures
        encode_utf8(a + b) == encode_utf8(a) + encode_utf8(b),
    decreases a.len(),
{
    if a.len() == 0 {
        assert(a + b =~= b);
        assert(encode_utf8(a) + encode_utf8(b) =~= encode_utf8(b));
    } else {
        assert((a + b).drop_first() =~= a.drop_first() + b);
        lemma_encode_joined(a.drop_first(), b);
        assert((encode_scalar(a[0] as u32) + encode_utf8(a.drop_first())) + encode_utf8(b)
            =~= encode_scalar(a[0] as u32) + (encode_utf8(a.drop_first()) + encode_utf8(b)));
    }
}

/// An ASCII byte of a text is a character of it.
proof fn lemma_char_at(chars: Seq<char>, at: int) -> (index: int)
    requires
        0 <= at < encode_utf8(chars).len(),
        encode_utf8(chars)[at] < 0x80,
    ensures
        0 <= index < chars.len(),
        chars[index] as u32 == encode_utf8(chars)[at],
        encode_utf8(chars.take(index)).len() == at,
    decreases chars.len(),
{
    let bytes = encode_utf8(chars);
    let first = encode_scalar(chars[0] as u32);
    let others = chars.drop_first();
    lemma_scalar_bytes(chars[0]);
    if at == 0 {
        assert(bytes[0] == first[0]);
        assert(chars.take(0) =~= Seq::<char>::empty());
        0
    } else if at < first.len() {
        assert(bytes[at] == first[at]);
        0
    } else {
        assert(bytes[at] == encode_utf8(others)[at - first.len()]);
        let index = lemma_char_at(others, at - first.len());
        assert(chars.take(index + 1).drop_first() =~= others.take(index));
        assert(chars.take(index + 1)[0] == chars[0]);
        index + 1
    }
}

/// Positions of characters in a text's bytes grow with the characters.
proof fn lemma_offsets_increase(chars: Seq<char>, i: int, j: int)
    requires
        0 <= i < j <= chars.len(),
    ensures
        encode_utf8(chars.take(i)).len() < encode_utf8(chars.take(j)).len(),
{
    let middle = chars.subrange(i, j);
    assert(chars.take(i) + middle =~= chars.take(j));
    lemma_encode_joined(chars.take(i), middle);
    lemma_scalar_bytes(middle[0]);
}

/// An ASCII byte that follows an ASCII character is the next character.
proof fn lemma_next_char(chars: Seq<char>, index: int)
    requires
        0 <= index < chars.len(),
        (chars[index] as u32) < 0x80,
        encode_utf8(chars.take(index)).len() + 1 < encode_utf8(chars).len(),
        encode_utf8(chars)[encode_utf8(chars.take(index)).len() as int + 1] < 0x80,
    ensures
        index + 1 < chars.len(),
        chars[index + 1] as u32 == encode_utf8(chars)[encode_utf8(chars.take(index)).len() as int + 1],
        encode_utf8(chars.take(index + 1)).len() == encode_utf8(chars.take(index)).len() + 1,
{
    let at = encode_utf8(chars.take(index)).len() as int;
    let next = lemma_char_at(chars, at + 1);
    let one = seq![chars[index]];
    assert(chars.take(index) + one =~= chars.take(index + 1));
    lemma_encode_joined(chars.take(index), one);
    lemma_scalar_bytes(chars[index]);
    assert(one.drop_first() =~= Seq::<char>::empty());
    assert(encode_utf8(one.drop_first()) =~= Seq::<u8>::empty());
    assert(one[0] == chars[index]);
    assert(encode_utf8(one) =~= encode_scalar(chars[index] as u32));
    if next < index + 1 {
        lemma_offsets_increase(chars, next, index + 1);
    } else if next > index + 1 {
        lemma_offsets_increase(chars, index + 1, next);
    }
}

/// The bytes of the two markers.
proof fn lemma_marker_bytes()
    ensures
        encode_utf8("<event"@) == framing::open_marker(),
        encode_utf8("</event>"@) == framing::close_marker(),
        "<event"@.len() == 6,
        "</event>"@.len() == 8,
{
    reveal_strlit("<event");
    reveal_strlit("</event>");
    assert(is_ascii_chars("<event"@));
    assert(is_ascii_chars("</event>"@));
    is_ascii_chars_encode_utf8("<event"@);
    is_ascii_chars_encode_utf8("</event>"@);
    assert(encode_utf8("<event"@) =~= framing::open_marker());
    assert(encode_utf8("</event>"@) =~= framing::close_marker());
}

/// The closing tag does not occur before the end.
proof fn lemma_not_closed_before(head: Seq<char>, at: int)
    requires
        opens_no_closing(head),
        framing::occurs_at(encode_utf8(head + "</event>"@), framing::close_marker(), at),
    ensures
        at >= encode_utf8(head).len(),
{
    let text = head + "</event>"@;
    let bytes = encode_utf8(text);
    let found = bytes.subrange(at, at + 8);
    assert(found[0] == 0x3c && found[1] == 0x2f && found[2] == 0x65);
    assert(bytes[at] == 0x3c && bytes[at + 1] == 0x2f && bytes[at + 2] == 0x65);
    let i = lemma_char_at(text, at);
    lemma_next_char(text, i);
    lemma_next_char(text, i + 1);
    char_u32_cast(text[i], 0x3c);
    char_u32_cast(text[i + 1], 0x2f);
    char_u32_cast(text[i + 2], 0x65);
    assert(text.take(head.len() as int) =~= head);
    if i < head.len() {
        assert(head[i] == '<');
        assert(clear_at(head, i));
    } else if i > head.len() {
        lemma_offsets_increase(text, head.len() as int, i);
    }
}

/// A text that starts an event, opens no closing tag of one, and is then closed, is one frame.
pub proof fn lemma_single_frame(inner: Seq<char>)
    requires
        opens_no_closing("<event"@ + inner),
    ensures
        framing::is_single_frame(encode_utf8("<event"@ + inner + "</event>"@)),
{
    let head = "<event"@ + inner;
    let text = head + "</event>"@;
    let bytes = encode_utf8(text);
    let marker = framing::close_marker();
    lemma_marker_bytes();
    lemma_encode_joined("<event"@, inner);
    lemma_encode_joined(head, "</event>"@);
    assert(bytes.subrange(0, 6) =~= framing::open_marker());
    assert(framing::occurs_at(bytes, framing::open_marker(), 0));
    framing::lemma_find_is(bytes, framing::open_marker(), 0);
    let end = bytes.len() - 8;
    assert(bytes.subrange(end, end + 8) =~= marker);
    assert forall|earlier: int| #[trigger]
        framing::occurs_at(bytes, marker, earlier) implies end <= earlier by {
        lemma_not_closed_before(head, earlier);
    }
    framing::lemma_find_is(bytes, marker, end);
}

} // verus!
