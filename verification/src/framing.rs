//! Incremental framing of a CoT byte stream.
use crate::protocol::DecodeError;
use crate::text::{self, lossy_text};
use crate::xml::{self, validate_xml};
use vstd::prelude::*;
use vstd::utf8::*;

verus! {

/// The bytes of `<event`, with which a frame starts.
pub open spec fn open_marker() -> Seq<u8> {
    seq![0x3c, 0x65, 0x76, 0x65, 0x6e, 0x74]
}

/// The bytes of `</event>`, with which a frame ends.
pub open spec fn close_marker() -> Seq<u8> {
    seq![0x3c, 0x2f, 0x65, 0x76, 0x65, 0x6e, 0x74, 0x3e]
}

/// Whether `pattern` stands in `bytes` at position `at`.
pub open spec fn occurs_at(bytes: Seq<u8>, pattern: Seq<u8>, at: int) -> bool {
    &&& 0 <= at <= bytes.len() - pattern.len()
    &&& bytes.subrange(at, at + pattern.len()) == pattern
}

/// Whether `at` is the first position of `pattern` in `bytes`.
pub open spec fn first_at(bytes: Seq<u8>, pattern: Seq<u8>, at: int) -> bool {
    &&& occurs_at(bytes, pattern, at)
    &&& forall|earlier: int| #[trigger] occurs_at(bytes, pattern, earlier) ==> at <= earlier
}

/// The first position of `pattern` in `bytes`.
pub open spec fn find(bytes: Seq<u8>, pattern: Seq<u8>) -> Option<int> {
    if exists|at: int| first_at(bytes, pattern, at) {
        Some(choose|at: int| first_at(bytes, pattern, at))
    } else {
        None
    }
}

/// Why a stream cannot be framed.
pub enum FramingFailure {
    /// A frame, complete or not, is larger than the limit.
    TooLarge,
    /// A complete frame is not well-formed XML.
    Malformed,
}

/// What a buffered part of a stream holds: the frames complete in it, up to the first failure,
/// and the bytes to keep.
pub struct Drained {
    pub frames: Seq<Seq<u8>>,
    pub rest: Seq<u8>,
    pub failure: Option<FramingFailure>,
}

/// The bytes that may be the beginning of a frame whose marker is still split.
pub open spec fn tail(bytes: Seq<u8>) -> Seq<u8> {
    if bytes.len() > 5 {
        bytes.skip(bytes.len() - 5)
    } else {
        bytes
    }
}

/// Frames a buffered part of a stream.
///
/// What stands before the first opening marker is dropped. From there up to the first closing
/// marker is a frame.
pub open spec fn drain(buffer: Seq<u8>, limit: nat) -> Drained
    decreases buffer.len(),
{
    match find(buffer, open_marker()) {
        None => Drained { frames: seq![], rest: tail(buffer), failure: None },
        Some(start) => {
            let opened = buffer.skip(start);
            match find(opened, close_marker()) {
                None => Drained {
                    frames: seq![],
                    rest: opened,
                    failure: if opened.len() > limit {
                        Some(FramingFailure::TooLarge)
                    } else {
                        None
                    },
                },
                Some(close) => {
                    let frame = opened.take(close + 8);
                    let rest = opened.skip(close + 8);
                    if frame.len() > limit {
                        Drained { frames: seq![], rest, failure: Some(FramingFailure::TooLarge) }
                    } else if !xml::well_formed(frame) {
                        Drained { frames: seq![], rest, failure: Some(FramingFailure::Malformed) }
                    } else if 0 <= start && 0 <= close <= opened.len() - 8 {
                        let next = drain(rest, limit);
                        Drained { frames: seq![frame] + next.frames, ..next }
                    } else {
                        Drained { frames: seq![], rest, failure: None }
                    }
                },
            }
        },
    }
}

/// A pattern that occurs has a first position.
proof fn lemma_first_exists(bytes: Seq<u8>, pattern: Seq<u8>, at: int) -> (first: int)
    requires
        occurs_at(bytes, pattern, at),
    ensures
        first_at(bytes, pattern, first),
        first <= at,
    decreases at,
{
    if exists|earlier: int| #[trigger] occurs_at(bytes, pattern, earlier) && earlier < at {
        let earlier = choose|earlier: int| #[trigger]
            occurs_at(bytes, pattern, earlier) && earlier < at;
        lemma_first_exists(bytes, pattern, earlier)
    } else {
        at
    }
}

/// What `find` returns.
pub proof fn lemma_first_of_found(bytes: Seq<u8>, pattern: Seq<u8>)
    ensures
        match find(bytes, pattern) {
            Some(at) => first_at(bytes, pattern, at),
            None => forall|at: int| !#[trigger] occurs_at(bytes, pattern, at),
        },
{
    if find(bytes, pattern) is None {
        assert forall|at: int| !#[trigger] occurs_at(bytes, pattern, at) by {
            if occurs_at(bytes, pattern, at) {
                let first = lemma_first_exists(bytes, pattern, at);
                assert(first_at(bytes, pattern, first));
            }
        }
    }
}

/// A first position is what `find` returns.
pub proof fn lemma_find_is(bytes: Seq<u8>, pattern: Seq<u8>, at: int)
    requires
        first_at(bytes, pattern, at),
    ensures
        find(bytes, pattern) == Some(at),
{
    lemma_first_of_found(bytes, pattern);
}

/// A pattern that does not occur is not found.
pub proof fn lemma_nothing_found(bytes: Seq<u8>, pattern: Seq<u8>)
    requires
        forall|at: int| !#[trigger] occurs_at(bytes, pattern, at),
    ensures
        find(bytes, pattern) is None,
{
    lemma_first_of_found(bytes, pattern);
}

/// Bytes that follow do not move the first position of a pattern.
proof fn lemma_find_extends(bytes: Seq<u8>, more: Seq<u8>, pattern: Seq<u8>)
    requires
        find(bytes, pattern) is Some,
    ensures
        find(bytes + more, pattern) == find(bytes, pattern),
{
    lemma_first_of_found(bytes, pattern);
    let at = find(bytes, pattern)->0;
    let all = bytes + more;
    assert(all.subrange(at, at + pattern.len()) =~= bytes.subrange(at, at + pattern.len()));
    assert forall|earlier: int| #[trigger] occurs_at(all, pattern, earlier) implies at
        <= earlier by {
        if earlier < at {
            assert(all.subrange(earlier, earlier + pattern.len()) =~= bytes.subrange(
                earlier,
                earlier + pattern.len(),
            ));
            assert(occurs_at(bytes, pattern, earlier));
        }
    }
    lemma_find_is(all, pattern, at);
}

/// Where no frame opens, only the tail of the bytes decides where one opens later.
proof fn lemma_tail_suffices(bytes: Seq<u8>, more: Seq<u8>)
    requires
        find(bytes, open_marker()) is None,
    ensures
        match find(tail(bytes) + more, open_marker()) {
            Some(at) => {
                &&& find(bytes + more, open_marker()) == Some(at + bytes.len() - tail(bytes).len())
                &&& (bytes + more).skip(at + bytes.len() - tail(bytes).len()) == (tail(bytes)
                    + more).skip(at)
            },
            None => {
                &&& find(bytes + more, open_marker()) is None
                &&& tail(bytes + more) == tail(tail(bytes) + more)
            },
        },
{
    let marker = open_marker();
    let kept = tail(bytes);
    let cut = bytes.len() - kept.len();
    let all = bytes + more;
    let short = kept + more;
    assert(all.skip(cut) =~= short);
    lemma_first_of_found(bytes, marker);
    lemma_first_of_found(short, marker);
    assert forall|at: int| #[trigger] occurs_at(short, marker, at) implies occurs_at(
        all,
        marker,
        at + cut,
    ) by {
        assert(all.subrange(at + cut, at + cut + 6) =~= short.subrange(at, at + 6));
    }
    assert forall|at: int| #[trigger] occurs_at(all, marker, at) implies at >= cut && occurs_at(
        short,
        marker,
        at - cut,
    ) by {
        if at + 6 <= bytes.len() {
            assert(all.subrange(at, at + 6) =~= bytes.subrange(at, at + 6));
            assert(occurs_at(bytes, marker, at));
        }
        assert(all.subrange(at, at + 6) =~= short.subrange(at - cut, at - cut + 6));
    }
    match find(short, marker) {
        Some(at) => {
            lemma_find_is(all, marker, at + cut);
            assert(all.skip(at + cut) =~= short.skip(at));
        },
        None => {
            lemma_nothing_found(all, marker);
            assert(tail(all) =~= tail(short));
        },
    }
}

/// The claim of `law_fragmentation`.
pub open spec fn cut_does_not_matter(first: Seq<u8>, second: Seq<u8>, limit: nat) -> bool {
    let before = drain(first, limit);
    let after = drain(before.rest + second, limit);
    let whole = drain(first + second, limit);
    &&& whole.frames == before.frames + after.frames
    &&& whole.rest == after.rest
    &&& whole.failure == after.failure
}

proof fn lemma_cut_before_opening(first: Seq<u8>, second: Seq<u8>, limit: nat)
    requires
        find(first, open_marker()) is None,
    ensures
        cut_does_not_matter(first, second, limit),
{
    lemma_tail_suffices(first, second);
    let after = drain(tail(first) + second, limit);
    assert(Seq::<Seq<u8>>::empty() + after.frames =~= after.frames);
}

proof fn lemma_cut_inside_frame(first: Seq<u8>, second: Seq<u8>, limit: nat)
    requires
        find(first, open_marker()) matches Some(start) && find(
            first.skip(start),
            close_marker(),
        ) is None,
    ensures
        find(first + second, open_marker()) == find(first, open_marker()),
        (first + second).skip(find(first, open_marker())->0) == first.skip(
            find(first, open_marker())->0,
        ) + second,
        drain(first, limit).failure is None ==> cut_does_not_matter(first, second, limit),
{
    let start = find(first, open_marker())->0;
    let opened = first.skip(start);
    let both = opened + second;
    lemma_first_of_found(first, open_marker());
    lemma_find_extends(first, second, open_marker());
    assert((first + second).skip(start) =~= both);
    // The kept bytes start with the marker, so they are framed from there again.
    assert(both.subrange(0, 6) =~= first.subrange(start, start + 6));
    assert(occurs_at(both, open_marker(), 0));
    lemma_find_is(both, open_marker(), 0);
    assert(both.skip(0) =~= both);
    let after = drain(both, limit);
    assert(Seq::<Seq<u8>>::empty() + after.frames =~= after.frames);
}

/// A first frame is the same whatever follows.
proof fn lemma_first_frame(first: Seq<u8>, second: Seq<u8>)
    requires
        find(first, open_marker()) matches Some(start) && find(
            first.skip(start),
            close_marker(),
        ) is Some,
    ensures
        find(first + second, open_marker()) == find(first, open_marker()),
        ({
            let opened = first.skip(find(first, open_marker())->0);
            let both = (first + second).skip(find(first, open_marker())->0);
            let close = find(opened, close_marker())->0;
            &&& find(both, close_marker()) == find(opened, close_marker())
            &&& both.take(close + 8) == opened.take(close + 8)
            &&& both.skip(close + 8) == opened.skip(close + 8) + second
            &&& 0 <= find(first, open_marker())->0
            &&& 0 <= close <= opened.len() - 8
            &&& opened.skip(close + 8).len() < first.len()
        }),
{
    let start = find(first, open_marker())->0;
    let opened = first.skip(start);
    let close = find(opened, close_marker())->0;
    let both = opened + second;
    lemma_first_of_found(first, open_marker());
    lemma_first_of_found(opened, close_marker());
    lemma_find_extends(first, second, open_marker());
    assert((first + second).skip(start) =~= both);
    lemma_find_extends(opened, second, close_marker());
    assert(both.take(close + 8) =~= opened.take(close + 8));
    assert(both.skip(close + 8) =~= opened.skip(close + 8) + second);
}

/// The outcome of framing does not depend on where the stream was cut, while nothing fails:
/// framing a first part, and then what it leaves together with a second part, gives the frames,
/// the kept bytes and the failure that framing both parts at once gives.
pub proof fn law_fragmentation(first: Seq<u8>, second: Seq<u8>, limit: nat)
    requires
        drain(first, limit).failure is None,
    ensures
        cut_does_not_matter(first, second, limit),
    decreases first.len(),
{
    match find(first, open_marker()) {
        None => lemma_cut_before_opening(first, second, limit),
        Some(start) => match find(first.skip(start), close_marker()) {
            None => lemma_cut_inside_frame(first, second, limit),
            Some(close) => {
                lemma_first_frame(first, second);
                let frame = first.skip(start).take(close + 8);
                let rest = first.skip(start).skip(close + 8);
                law_fragmentation(rest, second, limit);
                let next = drain(rest, limit);
                let after = drain(next.rest + second, limit);
                assert(seq![frame] + (next.frames + after.frames) =~= (seq![frame] + next.frames)
                    + after.frames);
            },
        },
    }
}

/// What fails keeps failing, with the same frames before it, however the stream goes on.
pub proof fn law_failure_is_final(first: Seq<u8>, second: Seq<u8>, limit: nat)
    requires
        drain(first, limit).failure is Some,
    ensures
        drain(first + second, limit).failure == drain(first, limit).failure,
        drain(first + second, limit).frames == drain(first, limit).frames,
    decreases first.len(),
{
    let start = find(first, open_marker())->0;
    let opened = first.skip(start);
    if find(opened, close_marker()) is None {
        lemma_cut_inside_frame(first, second, limit);
        let both = opened + second;
        lemma_first_of_found(opened, close_marker());
        lemma_first_of_found(both, close_marker());
        if find(both, close_marker()) is Some {
            // The closing marker ends among the bytes that follow.
            let close = find(both, close_marker())->0;
            if close + 8 <= opened.len() {
                assert(opened.subrange(close, close + 8) =~= both.subrange(close, close + 8));
                assert(occurs_at(opened, close_marker(), close));
            }
        }
    } else {
        lemma_first_frame(first, second);
        let close = find(opened, close_marker())->0;
        let frame = opened.take(close + 8);
        let rest = opened.skip(close + 8);
        if frame.len() <= limit && xml::well_formed(frame) {
            law_failure_is_final(rest, second, limit);
        }
    }
}

/// What stands before the first event of a stream is ignored: the same frames come out, with the
/// same failure, and where an event has begun, the same bytes are kept.
pub proof fn law_preamble_is_ignored(preamble: Seq<u8>, stream: Seq<u8>, limit: nat)
    requires
        forall|at: int| #[trigger]
            occurs_at(preamble + stream, open_marker(), at) ==> at >= preamble.len(),
    ensures
        ({
            let whole = drain(preamble + stream, limit);
            let alone = drain(stream, limit);
            &&& whole.frames == alone.frames
            &&& whole.failure == alone.failure
            &&& find(stream, open_marker()) is Some ==> whole.rest == alone.rest
        }),
{
    let all = preamble + stream;
    lemma_first_of_found(stream, open_marker());
    match find(stream, open_marker()) {
        Some(start) => {
            let at = preamble.len() + start;
            assert(all.subrange(at, at + 6) =~= stream.subrange(start, start + 6));
            assert forall|other: int| #[trigger] occurs_at(all, open_marker(), other) implies at
                <= other by {
                let within = other - preamble.len();
                assert(stream.subrange(within, within + 6) =~= all.subrange(other, other + 6));
                assert(occurs_at(stream, open_marker(), within));
            }
            lemma_find_is(all, open_marker(), at);
            assert(all.skip(at) =~= stream.skip(start));
        },
        None => {
            assert forall|other: int| !#[trigger] occurs_at(all, open_marker(), other) by {
                if occurs_at(all, open_marker(), other) {
                    let within = other - preamble.len();
                    assert(stream.subrange(within, within + 6) =~= all.subrange(other, other + 6));
                    assert(occurs_at(stream, open_marker(), within));
                }
            }
            lemma_nothing_found(all, open_marker());
        },
    }
}

/// Framing part after part: each one together with what the parts before it left, until one
/// fails.
pub open spec fn drain_parts(buffer: Seq<u8>, parts: Seq<Seq<u8>>, limit: nat) -> Drained
    decreases parts.len(),
{
    if parts.len() == 0 {
        Drained { frames: seq![], rest: buffer, failure: None }
    } else {
        let first = drain(buffer + parts[0], limit);
        if first.failure is Some {
            first
        } else {
            let next = drain_parts(first.rest, parts.drop_first(), limit);
            Drained { frames: first.frames + next.frames, ..next }
        }
    }
}

/// However a stream is cut into parts, framing it part after part gives the frames that framing
/// it at once gives, fails where that fails, and keeps the same bytes where nothing fails.
pub proof fn law_parts(buffer: Seq<u8>, parts: Seq<Seq<u8>>, limit: nat)
    requires
        parts.len() > 0,
    ensures
        ({
            let cut = drain_parts(buffer, parts, limit);
            let whole = drain(buffer + parts.flatten(), limit);
            &&& cut.frames == whole.frames
            &&& cut.failure == whole.failure
            &&& cut.failure is None ==> cut.rest == whole.rest
        }),
    decreases parts.len(),
{
    let head = buffer + parts[0];
    let others = parts.drop_first();
    assert(parts.flatten() == parts[0] + others.flatten());
    assert(buffer + parts.flatten() =~= head + others.flatten());
    let first = drain(head, limit);
    if first.failure is Some {
        law_failure_is_final(head, others.flatten(), limit);
    } else {
        if others.len() == 0 {
            assert(others.flatten() =~= Seq::<u8>::empty());
            assert(head + others.flatten() =~= head);
            assert(first.frames + Seq::<Seq<u8>>::empty() =~= first.frames);
        } else {
            law_fragmentation(head, others.flatten(), limit);
            law_parts(first.rest, others, limit);
        }
    }
}

/// The first position of a pattern in some bytes.
fn find_bytes(bytes: &Vec<u8>, pattern: &[u8]) -> (result: Option<usize>)
    ensures
        match (result, find(bytes@, pattern@)) {
            (Some(at), Some(first)) => at == first,
            (None, None) => true,
            _ => false,
        },
{
    let mut at: usize = 0;
    while bytes.len() - at >= pattern.len()
        invariant
            at <= bytes.len(),
            forall|earlier: int| #[trigger] occurs_at(bytes@, pattern@, earlier) ==> earlier >= at,
        decreases bytes.len() - at,
    {
        let mut matched: usize = 0;
        while matched < pattern.len() && bytes[at + matched] == pattern[matched]
            invariant
                at + pattern.len() <= bytes.len(),
                matched <= pattern.len(),
                forall|i: int| 0 <= i < matched ==> bytes@[at + i] == #[trigger] pattern@[i],
            decreases pattern.len() - matched,
        {
            matched = matched + 1;
        }
        if matched == pattern.len() {
            proof {
                assert(bytes@.subrange(at as int, at + pattern.len()) =~= pattern@);
                lemma_find_is(bytes@, pattern@, at as int);
            }
            return Some(at);
        }
        proof {
            assert(bytes@.subrange(at as int, at + pattern.len())[matched as int]
                != pattern@[matched as int]);
            assert(!occurs_at(bytes@, pattern@, at as int));
        }
        at = at + 1;
    }
    proof {
        lemma_nothing_found(bytes@, pattern@);
    }
    None
}

/// Bytes that are one frame from their first to their last.
pub open spec fn is_single_frame(bytes: Seq<u8>) -> bool {
    &&& find(bytes, open_marker()) == Some(0int)
    &&& find(bytes, close_marker()) == Some(bytes.len() - 8)
}

/// What the bytes of a buffer come to if they are one frame.
pub open spec fn single(bytes: Seq<u8>) -> Drained {
    Drained { frames: seq![bytes], rest: Seq::empty(), failure: None }
}

/// Bytes that are one frame, and no larger than the limit, are framed as that frame with nothing
/// left over.
pub proof fn law_single_frame(bytes: Seq<u8>, limit: nat)
    requires
        is_single_frame(bytes),
        bytes.len() <= limit,
        xml::well_formed(bytes),
    ensures
        drain(bytes, limit) == single(bytes),
{
    lemma_first_of_found(bytes, close_marker());
    reveal_with_fuel(drain, 2);
    assert(bytes.skip(0) =~= bytes);
    assert(bytes.take(bytes.len() as int) =~= bytes);
    let nothing = Seq::<u8>::empty();
    assert(bytes.skip(bytes.len() as int) =~= nothing);
    lemma_nothing_found(nothing, open_marker());
    assert(seq![bytes] + Seq::<Seq<u8>>::empty() =~= seq![bytes]);
}

/// Frames that follow each other directly are told apart: each comes out as it went in, and nothing
/// is left over.
pub proof fn law_concatenated_frames(frames: Seq<Seq<u8>>, limit: nat)
    requires
        forall|i: int|
            0 <= i < frames.len() ==> is_single_frame(#[trigger] frames[i]) && frames[i].len()
                <= limit && xml::well_formed(frames[i]),
    ensures
        drain(frames.flatten(), limit) == (Drained {
            frames,
            rest: Seq::empty(),
            failure: None,
        }),
    decreases frames.len(),
{
    let nothing = Seq::<u8>::empty();
    if frames.len() == 0 {
        assert(frames.flatten() =~= nothing);
        lemma_nothing_found(nothing, open_marker());
        assert(frames =~= Seq::<Seq<u8>>::empty());
    } else {
        let others = frames.drop_first();
        assert forall|i: int| 0 <= i < others.len() implies is_single_frame(#[trigger] others[i])
            && others[i].len() <= limit && xml::well_formed(others[i]) by {
            assert(others[i] == frames[i + 1]);
        }
        law_concatenated_frames(others, limit);
        law_single_frame(frames[0], limit);
        law_fragmentation(frames[0], others.flatten(), limit);
        assert(frames.flatten() == frames[0] + others.flatten());
        assert(nothing + others.flatten() =~= others.flatten());
        assert(seq![frames[0]] + others =~= frames);
    }
}

/// The text of each frame.
pub open spec fn frame_texts(frames: Seq<Seq<u8>>) -> Seq<Seq<char>> {
    frames.map_values(|frame: Seq<u8>| text::utf8_lossy(frame))
}

/// Whether bytes that are UTF-8 keep their text.
pub open spec fn lossless(bytes: Seq<u8>) -> bool {
    valid_utf8(bytes) ==> text::utf8_lossy(bytes) == decode_utf8(bytes)
}

/// Whether every one of some frames that is UTF-8 keeps its text.
pub open spec fn all_lossless(frames: Seq<Seq<u8>>) -> bool {
    forall|i: int| 0 <= i < frames.len() ==> lossless(#[trigger] frames[i])
}

/// The frame for which the framing of a buffer fails, where it fails for a malformed one.
pub open spec fn malformed_frame(buffer: Seq<u8>, limit: nat) -> Seq<u8>
    decreases buffer.len(),
{
    match find(buffer, open_marker()) {
        None => seq![],
        Some(start) => {
            let opened = buffer.skip(start);
            match find(opened, close_marker()) {
                None => seq![],
                Some(close) => {
                    let frame = opened.take(close + 8);
                    if frame.len() <= limit && !xml::well_formed(frame) {
                        frame
                    } else if 0 <= start && 0 <= close <= opened.len() - 8 {
                        malformed_frame(opened.skip(close + 8), limit)
                    } else {
                        seq![]
                    }
                },
            }
        },
    }
}

/// Whether some bytes are frames of plain tags, none of them larger than the limit.
pub open spec fn are_plain_frames(frames: Seq<Seq<u8>>, limit: nat) -> bool {
    forall|i: int|
        0 <= i < frames.len() ==> is_single_frame(#[trigger] frames[i]) && frames[i].len() <= limit
            && xml::is_plain(frames[i])
}

/// Plain frames that follow each other directly all come out, unless one of them is malformed.
proof fn lemma_plain_frames(frames: Seq<Seq<u8>>, limit: nat)
    requires
        are_plain_frames(frames, limit),
        drain(frames.flatten(), limit).failure == Some(FramingFailure::Malformed)
            ==> !xml::is_plain(malformed_frame(frames.flatten(), limit)),
    ensures
        drain(frames.flatten(), limit) == (Drained {
            frames,
            rest: Seq::empty(),
            failure: None,
        }),
    decreases frames.len(),
{
    if frames.len() == 0 {
        law_concatenated_frames(frames, limit);
    } else {
        let frame = frames[0];
        let others = frames.drop_first();
        let all = frames.flatten();
        assert(all == frame + others.flatten());
        assert(is_single_frame(frame));
        lemma_first_of_found(frame, close_marker());
        assert(frame.skip(0) =~= frame);
        lemma_first_frame(frame, others.flatten());
        assert(all.skip(0) =~= all);
        assert(all.take(frame.len() as int) =~= frame);
        assert(all.skip(frame.len() as int) =~= others.flatten());
        assert(xml::well_formed(frame));
        assert forall|i: int| 0 <= i < others.len() implies is_single_frame(#[trigger] others[i])
            && others[i].len() <= limit && xml::is_plain(others[i]) by {
            assert(others[i] == frames[i + 1]);
        }
        lemma_plain_frames(others, limit);
        assert(seq![frame] + others =~= frames);
    }
}

/// A stream that consists of plain frames all comes out, unless one of them is malformed.
proof fn lemma_plain_stream(stream: Seq<u8>, limit: nat)
    requires
        drain(stream, limit).failure == Some(FramingFailure::Malformed) ==> !xml::is_plain(
            malformed_frame(stream, limit),
        ),
    ensures
        forall|frames: Seq<Seq<u8>>|
            #![trigger frames.flatten()]
            frames.flatten() == stream && are_plain_frames(frames, limit) ==> drain(stream, limit)
                == (Drained { frames, rest: Seq::empty(), failure: None }),
{
    assert forall|frames: Seq<Seq<u8>>|
        #![trigger frames.flatten()]
        frames.flatten() == stream && are_plain_frames(frames, limit) implies drain(stream, limit)
        == (Drained { frames, rest: Seq::empty(), failure: None }) by {
        lemma_plain_frames(frames, limit);
    }
}

/// What is to be done with the bytes of a buffer: wait for more, fail, or hand out the first frame.
enum FrameStep {
    Incomplete { rest: Vec<u8> },
    TooLarge { rest: Vec<u8> },
    Malformed { rest: Vec<u8>, error: quick_xml::Error },
    Complete { event: String, frame: Ghost<Seq<u8>>, rest: Vec<u8> },
}

/// Takes the first frame off a buffer.
fn take_frame(buffer: Vec<u8>, limit: usize) -> (step: FrameStep)
    ensures
        ({
            let drained = drain(buffer@, limit as nat);
            match step {
                FrameStep::Incomplete { rest } => drained == (Drained {
                    frames: seq![],
                    rest: rest@,
                    failure: None,
                }),
                FrameStep::TooLarge { rest } => drained == (Drained {
                    frames: seq![],
                    rest: rest@,
                    failure: Some(FramingFailure::TooLarge),
                }),
                FrameStep::Malformed { rest, .. } => {
                    &&& drained == (Drained {
                        frames: seq![],
                        rest: rest@,
                        failure: Some(FramingFailure::Malformed),
                    })
                    &&& !xml::is_plain(malformed_frame(buffer@, limit as nat))
                },
                FrameStep::Complete { event, frame, rest } => {
                    let ahead = drain(rest@, limit as nat);
                    &&& rest@.len() < buffer@.len()
                    &&& drained == (Drained { frames: seq![frame@] + ahead.frames, ..ahead })
                    &&& malformed_frame(buffer@, limit as nat) == malformed_frame(
                        rest@,
                        limit as nat,
                    )
                    &&& event@ == text::utf8_lossy(frame@)
                    &&& lossless(frame@)
                },
            }
        }),
{
    let mut buffer = buffer;
    let start = match find_bytes(&buffer, &[0x3c, 0x65, 0x76, 0x65, 0x6e, 0x74]) {
        Some(start) => start,
        None => {
            if buffer.len() > 5 {
                let cut = buffer.len() - 5;
                return FrameStep::Incomplete { rest: buffer.split_off(cut) };
            }
            return FrameStep::Incomplete { rest: buffer };
        },
    };
    let mut opened = buffer.split_off(start);
    proof {
        lemma_first_of_found(opened@, close_marker());
    }
    let end = match find_bytes(&opened, &[0x3c, 0x2f, 0x65, 0x76, 0x65, 0x6e, 0x74, 0x3e]) {
        Some(close) => {
            assert(first_at(opened@, close_marker(), close as int));
            assert(close + 8 <= opened.len());
            close + 8
        },
        None => {
            if opened.len() > limit {
                return FrameStep::TooLarge { rest: opened };
            }
            return FrameStep::Incomplete { rest: opened };
        },
    };
    let rest = opened.split_off(end);
    if end > limit {
        return FrameStep::TooLarge { rest };
    }
    match validate_xml(opened.as_slice()) {
        Ok(()) => {
            let event = lossy_text(opened.as_slice());
            FrameStep::Complete { event, frame: Ghost(opened@), rest }
        },
        Err(error) => FrameStep::Malformed { rest, error },
    }
}

/// Incrementally collects complete `<event>...</event>` documents from a byte stream.
#[derive(Debug)]
pub struct CotStreamDecoder {
    buffer: Vec<u8>,
    max_event_bytes: usize,
}

impl CotStreamDecoder {
    /// The bytes received that no frame has used yet.
    pub closed spec fn buffered(&self) -> Seq<u8> {
        self.buffer@
    }

    /// The size that no frame may exceed.
    pub closed spec fn limit(&self) -> nat {
        self.max_event_bytes as nat
    }

    pub fn new(max_event_bytes: usize) -> (decoder: CotStreamDecoder)
        ensures
            decoder.buffered() == Seq::<u8>::empty(),
            decoder.limit() == max_event_bytes,
    {
        CotStreamDecoder { buffer: Vec::new(), max_event_bytes }
    }

    /// Takes further bytes of the stream and returns the frames that they complete.
    ///
    /// An over-sized frame, complete or not, and a complete frame that is not well-formed XML are
    /// errors. The frames before a failing one are dropped with it.
    pub fn push(&mut self, bytes: &[u8]) -> (result: Result<Vec<String>, DecodeError>)
        ensures
            final(self).limit() == old(self).limit(),
            ({
                let drained = drain(old(self).buffered() + bytes@, old(self).limit());
                &&& final(self).buffered() == drained.rest
                &&& all_lossless(drained.frames)
                &&& match drained.failure {
                    None => result is Ok && text::texts(result->Ok_0@) == frame_texts(drained.frames),
                    Some(FramingFailure::TooLarge) => result matches Err(
                        DecodeError::FrameTooLarge { limit },
                    ) && limit == old(self).limit(),
                    Some(FramingFailure::Malformed) => {
                        &&& result matches Err(DecodeError::Xml(_))
                        &&& !xml::is_plain(
                            malformed_frame(old(self).buffered() + bytes@, old(self).limit()),
                        )
                    },
                }
            }),
            forall|frames: Seq<Seq<u8>>|
                #![trigger frames.flatten()]
                frames.flatten() == old(self).buffered() + bytes@ && are_plain_frames(
                    frames,
                    old(self).limit(),
                ) ==> {
                    &&& result matches Ok(events) && text::texts(events@) == frame_texts(frames)
                    &&& all_lossless(frames)
                    &&& final(self).buffered() == Seq::<u8>::empty()
                },
    {
        let limit = self.max_event_bytes;
        let mut buffer: Vec<u8> = Vec::new();
        core::mem::swap(&mut buffer, &mut self.buffer);
        buffer.extend_from_slice(bytes);
        assert(buffer@ =~= old(self).buffered() + bytes@);
        let ghost stream = buffer@;
        let ghost whole = drain(stream, limit as nat);
        let ghost mut done: Seq<Seq<u8>> = Seq::empty();
        let mut events: Vec<String> = Vec::new();
        proof {
            assert(done + whole.frames =~= whole.frames);
            assert(text::texts(events@) =~= frame_texts(done));
        }
        loop
            invariant
                limit == old(self).limit(),
                self.max_event_bytes == limit,
                stream == old(self).buffered() + bytes@,
                whole == drain(stream, limit as nat),
                text::texts(events@) == frame_texts(done),
                ({
                    let ahead = drain(buffer@, limit as nat);
                    &&& whole.frames == done + ahead.frames
                    &&& whole.rest == ahead.rest
                    &&& whole.failure == ahead.failure
                }),
                malformed_frame(stream, limit as nat) == malformed_frame(buffer@, limit as nat),
                all_lossless(done),
            decreases buffer.len(),
        {
            let ghost before = buffer@;
            match take_frame(buffer, limit) {
                FrameStep::Incomplete { rest } => {
                    self.buffer = rest;
                    proof {
                        assert(done + Seq::<Seq<u8>>::empty() =~= done);
                        lemma_plain_stream(stream, limit as nat);
                    }
                    return Ok(events);
                },
                FrameStep::TooLarge { rest } => {
                    self.buffer = rest;
                    proof {
                        lemma_plain_stream(stream, limit as nat);
                    }
                    return Err(DecodeError::FrameTooLarge { limit });
                },
                FrameStep::Malformed { rest, error } => {
                    self.buffer = rest;
                    proof {
                        lemma_plain_stream(stream, limit as nat);
                    }
                    return Err(DecodeError::Xml(error));
                },
                FrameStep::Complete { event, frame, rest } => {
                    let ghost so_far = events@;
                    events.push(event);
                    buffer = rest;
                    proof {
                        let ahead = drain(buffer@, limit as nat);
                        assert((done + seq![frame@]) + ahead.frames =~= done + (seq![frame@]
                            + ahead.frames));
                        assert(text::texts(events@) =~= text::texts(so_far).push(event@));
                        assert(frame_texts(done + seq![frame@]) =~= frame_texts(done).push(
                            event@,
                        ));
                        done = done + seq![frame@];
                    }
                },
            }
        }
    }
}

/// Every frame that comes out of a buffer is one event: it starts with `<event`, ends with the first
/// `</event>` in it, is well-formed, is no longer than the limit, and stands in the buffer as it is.
pub proof fn law_frames_are_events(buffer: Seq<u8>, limit: nat, index: int)
    requires
        0 <= index < drain(buffer, limit).frames.len(),
    ensures
        ({
            let frame = drain(buffer, limit).frames[index];
            let end = frame.len() - 8;
            &&& frame.len() <= limit
            &&& end >= 0
            &&& frame.len() >= 6 && frame.take(6) == seq![
                0x3cu8,
                0x65,
                0x76,
                0x65,
                0x6e,
                0x74,
            ]
            &&& frame.skip(end) == seq![0x3cu8, 0x2f, 0x65, 0x76, 0x65, 0x6e, 0x74, 0x3e]
            &&& forall|at: int|
                0 <= at < end ==> #[trigger] frame.subrange(at, at + 8) != frame.skip(end)
            &&& xml::well_formed(frame)
            &&& exists|at: int| #[trigger] occurs_at(buffer, frame, at)
        }),
    decreases buffer.len(),
{
    let drained = drain(buffer, limit);
    let frame = drained.frames[index];
    let start = find(buffer, open_marker())->0;
    let opened = buffer.skip(start);
    let close = find(opened, close_marker())->0;
    let first = opened.take(close + 8);
    let rest = opened.skip(close + 8);
    assert(first_at(buffer, open_marker(), start));
    assert(first_at(opened, close_marker(), close));
    assert(occurs_at(buffer, open_marker(), start));
    assert(occurs_at(opened, close_marker(), close));
    if index == 0 {
        assert(frame == first);
        let end = frame.len() - 8;
        assert(end == close);
        assert(close_marker().len() == 8);
        assert(open_marker().len() == 6);
        assert(frame.skip(end) =~= opened.subrange(close, close + 8));
        assert(opened.take(6) =~= buffer.subrange(start, start + 6));
        assert(opened.take(6) == open_marker());
        assert(frame.take(6) =~= opened.take(6));
        assert forall|at: int| 0 <= at < end implies #[trigger] frame.subrange(at, at + 8)
            != frame.skip(end) by {
            assert(frame.subrange(at, at + 8) =~= opened.subrange(at, at + 8));
            if frame.subrange(at, at + 8) == frame.skip(end) {
                assert(occurs_at(opened, close_marker(), at));
            }
        }
        assert(buffer.subrange(start, start + frame.len()) =~= frame);
        assert(occurs_at(buffer, frame, start));
    } else {
        let next = drain(rest, limit);
        assert(drained.frames == seq![first] + next.frames);
        assert(frame == next.frames[index - 1]);
        law_frames_are_events(rest, limit, index - 1);
        let at = choose|at: int| #[trigger] occurs_at(rest, frame, at);
        let from = start + close + 8;
        assert(rest =~= buffer.skip(from));
        assert(buffer.subrange(from + at, from + at + frame.len()) =~= rest.subrange(
            at,
            at + frame.len(),
        ));
        assert(occurs_at(buffer, frame, from + at));
    }
}

/// A frame that is too long ends the stream as one that is too large, and one that is not
/// well-formed as malformed; neither comes out.
pub proof fn law_bad_frames_fail(frame: Seq<u8>, after: Seq<u8>, limit: nat)
    requires
        is_single_frame(frame),
        frame.len() > limit || !xml::well_formed(frame),
    ensures
        drain(frame + after, limit).frames.len() == 0,
        frame.len() > limit ==> drain(frame + after, limit).failure == Some(
            FramingFailure::TooLarge,
        ),
        frame.len() <= limit ==> drain(frame + after, limit).failure == Some(
            FramingFailure::Malformed,
        ),
        drain(frame + after, limit).rest == after,
{
    let all = frame + after;
    let close = frame.len() - 8;
    assert(first_at(frame, open_marker(), 0));
    assert(first_at(frame, close_marker(), close));
    assert(occurs_at(frame, open_marker(), 0));
    assert(occurs_at(frame, close_marker(), close));
    assert(all.subrange(0, 6) =~= frame.subrange(0, 6));
    assert(occurs_at(all, open_marker(), 0));
    assert(first_at(all, open_marker(), 0));
    lemma_find_is(all, open_marker(), 0);
    assert(all.skip(0) =~= all);
    assert(all.subrange(close, close + 8) =~= frame.subrange(close, close + 8));
    assert(occurs_at(all, close_marker(), close));
    assert forall|earlier: int| #[trigger]
        occurs_at(all, close_marker(), earlier) implies close <= earlier by {
        if earlier < close {
            assert(all.subrange(earlier, earlier + 8) =~= frame.subrange(earlier, earlier + 8));
            assert(occurs_at(frame, close_marker(), earlier));
        }
    }
    assert(first_at(all, close_marker(), close));
    lemma_find_is(all, close_marker(), close);
    assert(all.take(close + 8) =~= frame);
    assert(all.skip(close + 8) =~= after);
}

/// An event that has begun and not ended is kept whole and waited for, unless it is already longer
/// than the limit; what comes before any event is dropped, but for the bytes that may begin one.
pub proof fn law_unfinished_events_are_kept(buffer: Seq<u8>, limit: nat)
    ensures
        first_at(buffer, open_marker(), 0) && find(buffer, close_marker()) is None ==> {
            let drained = drain(buffer, limit);
            &&& drained.frames.len() == 0
            &&& drained.rest == buffer
            &&& drained.failure is Some <==> buffer.len() > limit
        },
        find(buffer, open_marker()) is None ==> {
            let drained = drain(buffer, limit);
            &&& drained.frames.len() == 0
            &&& drained.failure is None
            &&& drained.rest.len() <= 5
            &&& buffer.skip(buffer.len() - drained.rest.len()) == drained.rest
            &&& buffer.len() >= 5 ==> drained.rest.len() == 5
        },
{
    if first_at(buffer, open_marker(), 0) {
        lemma_find_is(buffer, open_marker(), 0);
        assert(buffer.skip(0) =~= buffer);
    }
    if find(buffer, open_marker()) is None {
        assert(buffer.skip(buffer.len() - tail(buffer).len()) =~= tail(buffer));
    }
}


} // verus!
